//! Big-endian byte encoding of fixed-width integers.

use vstd::prelude::*;

verus! {

/// Two bytes, most significant first.
pub open spec fn be16(x: u16) -> Seq<u8> {
    seq![(x >> 8u16) as u8, x as u8]
}

/// Three bytes, most significant first (the value must fit in 24 bits).
pub open spec fn be24(x: u32) -> Seq<u8> {
    seq![(x >> 16u32) as u8, (x >> 8u32) as u8, x as u8]
}

/// Four bytes, most significant first.
pub open spec fn be32(x: u32) -> Seq<u8> {
    seq![(x >> 24u32) as u8, (x >> 16u32) as u8, (x >> 8u32) as u8, x as u8]
}

/// The 16-bit value whose big-endian bytes start at `i`.
pub open spec fn rd16(s: Seq<u8>, i: int) -> u16 {
    ((s[i] as u16) << 8u16) | (s[i + 1] as u16)
}

/// The 24-bit value whose big-endian bytes start at `i`.
pub open spec fn rd24(s: Seq<u8>, i: int) -> u32 {
    ((s[i] as u32) << 16u32) | ((s[i + 1] as u32) << 8u32) | (s[i + 2] as u32)
}

/// The 32-bit value whose big-endian bytes start at `i`.
pub open spec fn rd32(s: Seq<u8>, i: int) -> u32 {
    ((s[i] as u32) << 24u32) | ((s[i + 1] as u32) << 16u32) | ((s[i + 2] as u32) << 8u32) | (
    s[i + 3] as u32)
}

/// Two bytes written by `be16` are read back by `rd16`.
pub proof fn lemma_rd16(s: Seq<u8>, i: int, x: u16)
    requires
        0 <= i,
        i + 2 <= s.len(),
        s.subrange(i, i + 2) == be16(x),
    ensures
        rd16(s, i) == x,
{
    assert(s[i] == s.subrange(i, i + 2)[0]);
    assert(s[i + 1] == s.subrange(i, i + 2)[1]);
    let a = s[i];
    let b = s[i + 1];
    assert(a == (x >> 8u16) as u8);
    assert(b == x as u8);
    assert((((((x >> 8u16) as u8) as u16) << 8u16) | (((x as u8)) as u16)) == x) by (bit_vector);
}

/// Three bytes written by `be24` are read back by `rd24`.
pub proof fn lemma_rd24(s: Seq<u8>, i: int, x: u32)
    requires
        0 <= i,
        i + 3 <= s.len(),
        x < 0x100_0000,
        s.subrange(i, i + 3) == be24(x),
    ensures
        rd24(s, i) == x,
{
    assert(s[i] == s.subrange(i, i + 3)[0]);
    assert(s[i + 1] == s.subrange(i, i + 3)[1]);
    assert(s[i + 2] == s.subrange(i, i + 3)[2]);
    assert(x < 0x100_0000 ==> (((((x >> 16u32) as u8) as u32) << 16u32) | ((((x >> 8u32) as u8) as u32) << 8u32) | (((x as u8)) as u32)) == x) by (bit_vector);
}

/// Four bytes written by `be32` are read back by `rd32`.
pub proof fn lemma_rd32(s: Seq<u8>, i: int, x: u32)
    requires
        0 <= i,
        i + 4 <= s.len(),
        s.subrange(i, i + 4) == be32(x),
    ensures
        rd32(s, i) == x,
{
    assert(s[i] == s.subrange(i, i + 4)[0]);
    assert(s[i + 1] == s.subrange(i, i + 4)[1]);
    assert(s[i + 2] == s.subrange(i, i + 4)[2]);
    assert(s[i + 3] == s.subrange(i, i + 4)[3]);
    assert((((((x >> 24u32) as u8) as u32) << 24u32) | ((((x >> 16u32) as u8) as u32) << 16u32)
        | ((((x >> 8u32) as u8) as u32) << 8u32) | (((x as u8)) as u32)) == x) by (bit_vector);
}

pub fn put_u8(buf: &mut Vec<u8>, x: u8)
    ensures
        final(buf)@ == old(buf)@.push(x),
{
    buf.push(x);
}

pub fn put_u16(buf: &mut Vec<u8>, x: u16)
    ensures
        final(buf)@ == old(buf)@ + be16(x),
{
    buf.push((x >> 8u16) as u8);
    buf.push(x as u8);
    assert(buf@ =~= old(buf)@ + be16(x));
}

pub fn put_u24(buf: &mut Vec<u8>, x: u32)
    ensures
        final(buf)@ == old(buf)@ + be24(x),
{
    buf.push((x >> 16u32) as u8);
    buf.push((x >> 8u32) as u8);
    buf.push(x as u8);
    assert(buf@ =~= old(buf)@ + be24(x));
}

pub fn put_u32(buf: &mut Vec<u8>, x: u32)
    ensures
        final(buf)@ == old(buf)@ + be32(x),
{
    buf.push((x >> 24u32) as u8);
    buf.push((x >> 16u32) as u8);
    buf.push((x >> 8u32) as u8);
    buf.push(x as u8);
    assert(buf@ =~= old(buf)@ + be32(x));
}

pub fn get_u16(buf: &[u8], i: usize) -> (r: u16)
    requires
        i + 2 <= buf@.len(),
    ensures
        r == rd16(buf@, i as int),
{
    ((buf[i] as u16) << 8u16) | (buf[i + 1] as u16)
}

pub fn get_u24(buf: &[u8], i: usize) -> (r: u32)
    requires
        i + 3 <= buf@.len(),
    ensures
        r == rd24(buf@, i as int),
        r < 0x100_0000,
{
    let a = buf[i];
    let b = buf[i + 1];
    let c = buf[i + 2];
    assert((((a as u32) << 16u32) | ((b as u32) << 8u32) | (c as u32)) < 0x100_0000) by (bit_vector);
    ((a as u32) << 16u32) | ((b as u32) << 8u32) | (c as u32)
}

pub fn get_u32(buf: &[u8], i: usize) -> (r: u32)
    requires
        i + 4 <= buf@.len(),
    ensures
        r == rd32(buf@, i as int),
{
    ((buf[i] as u32) << 24u32) | ((buf[i + 1] as u32) << 16u32) | ((buf[i + 2] as u32) << 8u32) | (
    buf[i + 3] as u32)
}

/// Eight bytes, most significant first.
pub open spec fn be64(x: u64) -> Seq<u8> {
    be32((x >> 32u64) as u32) + be32(x as u32)
}

/// The 64-bit value whose big-endian bytes start at `i`.
pub open spec fn rd64(s: Seq<u8>, i: int) -> u64 {
    ((rd32(s, i) as u64) << 32u64) | (rd32(s, i + 4) as u64)
}

/// Eight bytes written by `be64` are read back by `rd64`.
pub proof fn lemma_rd64(s: Seq<u8>, i: int, x: u64)
    requires
        0 <= i,
        i + 8 <= s.len(),
        s.subrange(i, i + 8) == be64(x),
    ensures
        rd64(s, i) == x,
{
    let hi = (x >> 32u64) as u32;
    let lo = x as u32;
    assert(s.subrange(i, i + 4) =~= s.subrange(i, i + 8).subrange(0, 4));
    assert(s.subrange(i, i + 8).subrange(0, 4) =~= be32(hi));
    lemma_rd32(s, i, hi);
    assert(s.subrange(i + 4, i + 8) =~= s.subrange(i, i + 8).subrange(4, 8));
    assert(s.subrange(i, i + 8).subrange(4, 8) =~= be32(lo));
    lemma_rd32(s, i + 4, lo);
    assert(((((x >> 32u64) as u32) as u64) << 32u64) | ((x as u32) as u64) == x) by (bit_vector);
}

pub fn put_u64(buf: &mut Vec<u8>, x: u64)
    ensures
        final(buf)@ == old(buf)@ + be64(x),
{
    put_u32(buf, (x >> 32u64) as u32);
    put_u32(buf, x as u32);
    assert(buf@ =~= old(buf)@ + be64(x));
}

pub fn get_u64(buf: &[u8], i: usize) -> (r: u64)
    requires
        i + 8 <= buf@.len(),
    ensures
        r == rd64(buf@, i as int),
{
    let _n = buf.len();
    ((get_u32(buf, i) as u64) << 32u64) | (get_u32(buf, i + 4) as u64)
}

} // verus!
