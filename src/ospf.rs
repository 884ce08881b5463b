//! The OSPF common header that frames every packet, and the 16-bit
//! one's-complement checksum that covers it.

use vstd::prelude::*;
use vstd::arithmetic::div_mod::lemma_add_mod_noop;
use crate::wire::{be16, be32, be64, rd16, rd32, rd64, lemma_rd16, lemma_rd32, lemma_rd64, put_u8, put_u16, put_u32, put_u64, get_u16, get_u32, get_u64};
use crate::lsa::{CodecError, lemma_piece};
use crate::packet::lemma_concat;

verus! {

pub const OSPF_VERSION: u8 = 2;

/// A packet: the common header and the body bytes it frames.
#[derive(Clone, Debug)]
pub struct Ospf {
    pub version: u8,
    pub message_type: u8,
    pub length: u16,
    pub router_id: u32,
    pub area_id: u32,
    pub checksum: u16,
    pub au_type: u16,
    pub authentication: u64,
    pub payload: Vec<u8>,
}

pub ghost struct OspfModel {
    pub version: u8,
    pub message_type: u8,
    pub length: u16,
    pub router_id: u32,
    pub area_id: u32,
    pub checksum: u16,
    pub au_type: u16,
    pub authentication: u64,
    pub payload: Seq<u8>,
}

impl View for Ospf {
    type V = OspfModel;

    open spec fn view(&self) -> OspfModel {
        OspfModel {
            version: self.version,
            message_type: self.message_type,
            length: self.length,
            router_id: self.router_id,
            area_id: self.area_id,
            checksum: self.checksum,
            au_type: self.au_type,
            authentication: self.authentication,
            payload: self.payload@,
        }
    }
}

pub open spec fn ospf_head(o: OspfModel) -> Seq<u8> {
    seq![o.version, o.message_type] + be16(o.length) + be32(o.router_id) + be32(o.area_id) + be16(
        o.checksum,
    ) + be16(o.au_type) + be64(o.authentication)
}

pub open spec fn ospf_bytes(o: OspfModel) -> Seq<u8> {
    ospf_head(o) + o.payload
}

/// A well-formed packet: version 2, and a length field that counts the
/// header and the body.
pub open spec fn ospf_wf(o: OspfModel) -> bool {
    o.version == OSPF_VERSION && o.length == 24 + o.payload.len()
}

pub open spec fn parse_ospf(s: Seq<u8>) -> Result<OspfModel, CodecError> {
    if s.len() < 24 || s[0] != OSPF_VERSION || rd16(s, 2) != s.len() {
        Err(CodecError::Malformed)
    } else {
        Ok(
            OspfModel {
                version: s[0],
                message_type: s[1],
                length: rd16(s, 2),
                router_id: rd32(s, 4),
                area_id: rd32(s, 8),
                checksum: rd16(s, 12),
                au_type: rd16(s, 14),
                authentication: rd64(s, 16),
                payload: s.subrange(24, s.len() as int),
            },
        )
    }
}

proof fn lemma_ospf_head(t: Seq<u8>, o: OspfModel)
    requires
        24 <= t.len(),
        t.subrange(0, 24) == ospf_head(o),
    ensures
        t[0] == o.version,
        t[1] == o.message_type,
        rd16(t, 2) == o.length,
        rd32(t, 4) == o.router_id,
        rd32(t, 8) == o.area_id,
        rd16(t, 12) == o.checksum,
        rd16(t, 14) == o.au_type,
        rd64(t, 16) == o.authentication,
{
    let f = ospf_head(o);
    assert(t.subrange(0, 24)[0] == t[0] && t.subrange(0, 24)[1] == t[1]);
    assert(f.subrange(2, 4) =~= be16(o.length));
    lemma_piece(t, 0, f, 2, 4);
    lemma_rd16(t, 2, o.length);
    assert(f.subrange(4, 8) =~= be32(o.router_id));
    lemma_piece(t, 0, f, 4, 8);
    lemma_rd32(t, 4, o.router_id);
    assert(f.subrange(8, 12) =~= be32(o.area_id));
    lemma_piece(t, 0, f, 8, 12);
    lemma_rd32(t, 8, o.area_id);
    assert(f.subrange(12, 14) =~= be16(o.checksum));
    lemma_piece(t, 0, f, 12, 14);
    lemma_rd16(t, 12, o.checksum);
    assert(f.subrange(14, 16) =~= be16(o.au_type));
    lemma_piece(t, 0, f, 14, 16);
    lemma_rd16(t, 14, o.au_type);
    assert(f.subrange(16, 24) =~= be64(o.authentication));
    lemma_piece(t, 0, f, 16, 24);
    lemma_rd64(t, 16, o.authentication);
}

/// Decoding the wire form of a well-formed packet gives back that packet.
pub proof fn lemma_ospf_round_trip(o: OspfModel)
    requires
        ospf_wf(o),
    ensures
        parse_ospf(ospf_bytes(o)) == Ok::<OspfModel, CodecError>(o),
{
    let t = ospf_bytes(o);
    lemma_concat(ospf_head(o), o.payload);
    lemma_ospf_head(t, o);
}

impl Ospf {
    /// Length of the packet on the wire.
    pub fn len(&self) -> (r: usize)
        requires
            self.payload@.len() + 24 <= usize::MAX,
        ensures
            r == 24 + self.payload@.len(),
    {
        24 + self.payload.len()
    }

    pub fn to_bytes(&self) -> (r: Vec<u8>)
        ensures
            r@ == ospf_bytes(self@),
    {
        let mut buf: Vec<u8> = Vec::new();
        put_u8(&mut buf, self.version);
        put_u8(&mut buf, self.message_type);
        put_u16(&mut buf, self.length);
        put_u32(&mut buf, self.router_id);
        put_u32(&mut buf, self.area_id);
        put_u16(&mut buf, self.checksum);
        put_u16(&mut buf, self.au_type);
        put_u64(&mut buf, self.authentication);
        assert(buf@ =~= ospf_head(self@));
        let mut k: usize = 0;
        while k < self.payload.len()
            invariant
                k <= self.payload@.len(),
                buf@ == ospf_head(self@) + self.payload@.subrange(0, k as int),
            decreases self.payload@.len() - k,
        {
            buf.push(self.payload[k]);
            assert(buf@ =~= ospf_head(self@) + self.payload@.subrange(0, k + 1));
            k = k + 1;
        }
        assert(self.payload@.subrange(0, k as int) =~= self.payload@);
        buf
    }

    pub fn from_bytes(buf: &[u8]) -> (r: Result<Ospf, CodecError>)
        ensures
            match r {
                Ok(o) => parse_ospf(buf@) == Ok::<OspfModel, CodecError>(o@),
                Err(x) => parse_ospf(buf@) == Err::<OspfModel, CodecError>(x),
            },
    {
        let n = buf.len();
        if n < 24 || buf[0] != OSPF_VERSION || get_u16(buf, 2) as usize != n {
            return Err(CodecError::Malformed);
        }
        let mut payload: Vec<u8> = Vec::new();
        let mut k: usize = 24;
        while k < n
            invariant
                n == buf@.len(),
                24 <= k <= n,
                payload@ == buf@.subrange(24, k as int),
            decreases n - k,
        {
            payload.push(buf[k]);
            assert(payload@ =~= buf@.subrange(24, k + 1));
            k = k + 1;
        }
        Ok(
            Ospf {
                version: buf[0],
                message_type: buf[1],
                length: get_u16(buf, 2),
                router_id: get_u32(buf, 4),
                area_id: get_u32(buf, 8),
                checksum: get_u16(buf, 12),
                au_type: get_u16(buf, 14),
                authentication: get_u64(buf, 16),
                payload,
            },
        )
    }
}

// ---------------------------------------------------------------------------
// Packet checksum
/// One step of the one's-complement sum: add and fold the carry back in.
pub open spec fn fold16(a: int, e: int) -> int {
    (a + e) % 65536 + (a + e) / 65536
}

/// The `k`-th 16-bit word of `s`.
pub open spec fn word(s: Seq<u8>, k: int) -> int {
    rd16(s, 2 * k) as int
}

/// One's-complement sum of the first `n` words of `s`.
pub open spec fn ones_sum(s: Seq<u8>, n: nat) -> int
    decreases n,
{
    if n == 0 {
        0
    } else {
        fold16(ones_sum(s, (n - 1) as nat), word(s, n - 1))
    }
}

/// Plain sum of the first `n` words of `s`.
pub open spec fn word_sum(s: Seq<u8>, n: nat) -> int
    decreases n,
{
    if n == 0 {
        0
    } else {
        word_sum(s, (n - 1) as nat) + word(s, n - 1)
    }
}

/// The packet as the checksum sees it: the authentication field left out
/// (its eight bytes count as zero).
pub open spec fn checksum_view(b: Seq<u8>) -> Seq<u8> {
    Seq::new(b.len(), |k: int| if 16 <= k < 24 { 0u8 } else { b[k] })
}

pub open spec fn packet_sum(b: Seq<u8>) -> int {
    ones_sum(checksum_view(b), (b.len() / 2) as nat)
}

/// A packet whose checksum field is right.
pub open spec fn checksum_valid(b: Seq<u8>) -> bool {
    &&& b.len() >= 24
    &&& b.len() % 2 == 0
    &&& packet_sum(b) == 0xffff
}

/// The packet with its checksum field zeroed.
pub open spec fn zero_checksum(b: Seq<u8>) -> Seq<u8> {
    b.update(12, 0u8).update(13, 0u8)
}

/// The checksum to store: the complement of the sum taken with the field zeroed.
pub open spec fn packet_checksum(b: Seq<u8>) -> u16 {
    (0xffff - packet_sum(zero_checksum(b))) as u16
}

/// The packet with its checksum field filled in.
pub open spec fn with_checksum(b: Seq<u8>) -> Seq<u8> {
    let c = packet_checksum(b);
    b.update(12, (c >> 8u16) as u8).update(13, c as u8)
}

proof fn lemma_zero_word(s: Seq<u8>, k: int)
    requires
        0 <= 2 * k,
        2 * k + 2 <= s.len(),
        s[2 * k] == 0,
        s[2 * k + 1] == 0,
    ensures
        word(s, k) == 0,
{
    assert(((0u8 as u16) << 8u16) | (0u8 as u16) == 0u16) by (bit_vector);
}

proof fn lemma_fold16(a: int, e: int)
    requires
        0 <= a <= 0xffff,
        0 <= e <= 0xffff,
    ensures
        0 <= fold16(a, e) <= 0xffff,
        fold16(a, e) % 65535 == (a + e) % 65535,
        fold16(a, e) == 0 <==> (a == 0 && e == 0),
{
    let n = a + e;
    if n < 65536 {
        assert(n / 65536 == 0 && n % 65536 == n);
    } else {
        assert(n / 65536 == 1 && n % 65536 == n - 65536);
        assert((n - 65535) % 65535 == n % 65535);
    }
}

proof fn lemma_ones_sum(s: Seq<u8>, n: nat)
    requires
        2 * n <= s.len(),
    ensures
        0 <= ones_sum(s, n) <= 0xffff,
        ones_sum(s, n) % 65535 == word_sum(s, n) % 65535,
        ones_sum(s, n) == 0 <==> (forall|k: int| 0 <= k < n ==> #[trigger] word(s, k) == 0),
    decreases n,
{
    if n > 0 {
        let m = (n - 1) as nat;
        lemma_ones_sum(s, m);
        let w = word(s, m as int);
        assert(0 <= w <= 0xffff);
        lemma_fold16(ones_sum(s, m), w);
        lemma_add_mod_noop(ones_sum(s, m), w, 65535);
        lemma_add_mod_noop(word_sum(s, m), w, 65535);
        if ones_sum(s, n) == 0 {
            assert forall|k: int| 0 <= k < n implies #[trigger] word(s, k) == 0 by {
                if k < m {
                    assert(word(s, k) == 0);
                }
            }
        }
        if forall|k: int| 0 <= k < n ==> #[trigger] word(s, k) == 0 {
            assert(word(s, m as int) == 0);
            assert forall|k: int| 0 <= k < m implies #[trigger] word(s, k) == 0 by {
                assert(word(s, k) == 0);
            }
        }
    }
}

proof fn lemma_word_sum_diff(s0: Seq<u8>, s1: Seq<u8>, n: nat, j: int)
    requires
        0 <= j,
        forall|k: int| 0 <= k < n && k != j ==> word(s0, k) == word(s1, k),
    ensures
        j < n ==> word_sum(s1, n) == word_sum(s0, n) - word(s0, j) + word(s1, j),
        j >= n ==> word_sum(s1, n) == word_sum(s0, n),
    decreases n,
{
    if n > 0 {
        lemma_word_sum_diff(s0, s1, (n - 1) as nat, j);
    }
}

/// Filling in the checksum of a packet makes the packet pass the check.
pub proof fn lemma_checksum_generated(b: Seq<u8>)
    requires
        b.len() >= 24,
        b.len() % 2 == 0,
    ensures
        checksum_valid(with_checksum(b)),
{
    let n = (b.len() / 2) as nat;
    let b0 = zero_checksum(b);
    let b1 = with_checksum(b);
    let v0 = checksum_view(b0);
    let v1 = checksum_view(b1);
    let sum0 = packet_sum(b0);
    lemma_ones_sum(v0, n);
    let c = packet_checksum(b);
    assert(c as int == 0xffff - sum0);
    assert forall|k: int| 0 <= k < n && k != 6 implies word(v0, k) == word(v1, k) by {
        assert(v0[2 * k] == v1[2 * k]);
        assert(v0[2 * k + 1] == v1[2 * k + 1]);
    }
    lemma_zero_word(v0, 6);
    assert(v1.subrange(12, 14) =~= be16(c));
    lemma_rd16(v1, 12, c);
    assert(word(v1, 6) == c);
    lemma_word_sum_diff(v0, v1, n, 6);
    lemma_ones_sum(v1, n);
    let s1 = ones_sum(v1, n);
    assert(word_sum(v1, n) == word_sum(v0, n) + c);
    lemma_add_mod_noop(word_sum(v0, n), c as int, 65535);
    lemma_add_mod_noop(sum0, c as int, 65535);
    assert((sum0 + c) % 65535 == 0);
    assert(s1 % 65535 == 0);
    if s1 == 0 {
        assert(word(v1, 6) == 0);
        assert(sum0 == 0xffff);
        let k = choose|k: int| 0 <= k < n && #[trigger] word(v0, k) != 0;
        assert(word(v1, k) != 0);
    }
    assert(s1 == 0xffff);
}

/// The 16-bit one's-complement sum of the packet, authentication left out.
fn sum_words(buf: &[u8]) -> (r: u16)
    requires
        buf@.len() >= 24,
        buf@.len() % 2 == 0,
    ensures
        r == packet_sum(buf@),
{
    let n = buf.len();
    let ghost v = checksum_view(buf@);
    let mut acc: u16 = 0;
    let mut k: usize = 0;
    while k < n / 2
        invariant
            n == buf@.len(),
            n % 2 == 0,
            n >= 24,
            v == checksum_view(buf@),
            k <= n / 2,
            acc as int == ones_sum(v, k as nat),
        decreases n / 2 - k,
    {
        let w: u16 = if k >= 8 && k < 12 {
            proof {
                lemma_zero_word(v, k as int);
            }
            0
        } else {
            assert(v[2 * k as int] == buf@[2 * k as int]);
            assert(v[2 * k + 1] == buf@[2 * k + 1]);
            get_u16(buf, 2 * k)
        };
        assert(w as int == word(v, k as int));
        let s: u32 = acc as u32 + w as u32;
        acc = ((s % 65536) + (s / 65536)) as u16;
        proof {
            lemma_ones_sum(v, k as nat);
            lemma_fold16(ones_sum(v, k as nat), w as int);
        }
        k = k + 1;
    }
    acc
}

/// True when the packet's checksum field is right.
pub fn auto_test_checksum(buf: &[u8]) -> (r: bool)
    ensures
        r == checksum_valid(buf@),
{
    let n = buf.len();
    if n < 24 || n % 2 != 0 {
        return false;
    }
    sum_words(buf) == 0xffff
}

/// Fills in the checksum field of a packet; afterwards it passes the check.
pub fn auto_set_checksum(buf: &mut Vec<u8>)
    requires
        old(buf)@.len() >= 24,
        old(buf)@.len() % 2 == 0,
    ensures
        final(buf)@ == with_checksum(old(buf)@),
        checksum_valid(final(buf)@),
{
    buf.set(12, 0);
    buf.set(13, 0);
    assert(buf@ =~= zero_checksum(old(buf)@));
    let s = sum_words(buf.as_slice());
    let c: u16 = 0xffff - s;
    buf.set(12, (c >> 8u16) as u8);
    buf.set(13, c as u8);
    assert(buf@ =~= with_checksum(old(buf)@));
    proof {
        lemma_checksum_generated(old(buf)@);
    }
}

impl Ospf {
    /// A version-2 packet of the given type around `payload`, with its
    /// length set, no authentication, and its checksum filled in.
    pub fn build(message_type: u8, router_id: u32, area_id: u32, payload: &Vec<u8>) -> (r: Vec<u8>)
        requires
            payload@.len() + 24 <= 0xffff,
            payload@.len() % 2 == 0,
        ensures
            r@ == with_checksum(
                ospf_bytes(
                    OspfModel {
                        version: OSPF_VERSION,
                        message_type,
                        length: (24 + payload@.len()) as u16,
                        router_id,
                        area_id,
                        checksum: 0,
                        au_type: 0,
                        authentication: 0,
                        payload: payload@,
                    },
                ),
            ),
            checksum_valid(r@),
    {
        let p = Ospf {
            version: OSPF_VERSION,
            message_type,
            length: (24 + payload.len()) as u16,
            router_id,
            area_id,
            checksum: 0,
            au_type: 0,
            authentication: 0,
            payload: payload.clone(),
        };
        let mut buf = p.to_bytes();
        auto_set_checksum(&mut buf);
        buf
    }
}

} // verus!
