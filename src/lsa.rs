//! Link-state advertisements: header, the five bodies, their wire form,
//! the Fletcher checksum and the freshness order on headers.

use vstd::prelude::*;
use crate::wire::{be16, be24, be32, rd16, rd24, rd32, lemma_rd16, lemma_rd24, lemma_rd32, put_u8, put_u16, put_u24, put_u32, get_u16, get_u24, get_u32};
use core::cmp::Ordering;
use vstd::arithmetic::div_mod::{lemma_add_mod_noop, lemma_add_mod_noop_right, lemma_fundamental_div_mod, lemma_mod_multiples_basic};

verus! {

pub const ROUTER_LSA: u8 = 1;
pub const NETWORK_LSA: u8 = 2;
pub const SUMMARY_IP_LSA: u8 = 3;
pub const SUMMARY_ASBR_LSA: u8 = 4;
pub const AS_EXTERNAL_LSA: u8 = 5;

pub const P2P_LINK: u8 = 1;
pub const TRANSIT_LINK: u8 = 2;
pub const STUB_LINK: u8 = 3;
pub const VIRTUAL_LINK: u8 = 4;

/// Age at which an LSA is flushed, in seconds.
pub const LSA_MAX_AGE: u16 = 3600;
/// Age difference beyond which two instances are told apart by age.
pub const MAX_AGE_DIFF: u16 = 900;

/// Why a byte buffer was not accepted.
#[derive(Clone, Copy, Debug, PartialEq, Eq, Structural)]
pub enum CodecError {
    /// Lengths disagree, bytes are missing or left over.
    Malformed,
    /// An LSA type outside 1..=5.
    UnknownLsaType,
}

/// The fixed 20-byte header of every LSA.
#[derive(Clone, Copy, Debug, PartialEq, Eq, Structural)]
pub struct LsaHeader {
    pub ls_age: u16,
    pub options: u8,
    pub ls_type: u8,
    pub link_state_id: u32,
    pub advertising_router: u32,
    pub ls_sequence_number: i32,
    pub ls_checksum: u16,
    pub length: u16,
}

/// The key that identifies an LSA within its flooding scope.
#[derive(Clone, Copy, Debug, PartialEq, Eq, Structural, Hash, PartialOrd, Ord)]
pub struct LsaIndex {
    pub ls_type: u8,
    pub ls_id: u32,
    pub ad_router: u32,
}

impl LsaIndex {
    pub fn new(ls_type: u8, ls_id: u32, ad_router: u32) -> (r: LsaIndex)
        ensures
            r == (LsaIndex { ls_type, ls_id, ad_router }),
    {
        LsaIndex { ls_type, ls_id, ad_router }
    }
}

pub open spec fn header_index(h: LsaHeader) -> LsaIndex {
    LsaIndex { ls_type: h.ls_type, ls_id: h.link_state_id, ad_router: h.advertising_router }
}

impl LsaHeader {
    pub fn index(&self) -> (r: LsaIndex)
        ensures
            r == header_index(*self),
    {
        LsaIndex {
            ls_type: self.ls_type,
            ls_id: self.link_state_id,
            ad_router: self.advertising_router,
        }
    }
}

pub open spec fn header_bytes(h: LsaHeader) -> Seq<u8> {
    be16(h.ls_age) + seq![h.options, h.ls_type] + be32(h.link_state_id) + be32(
        h.advertising_router,
    ) + be32(h.ls_sequence_number as u32) + be16(h.ls_checksum) + be16(h.length)
}

pub open spec fn parse_header(s: Seq<u8>, i: int) -> LsaHeader {
    LsaHeader {
        ls_age: rd16(s, i),
        options: s[i + 2],
        ls_type: s[i + 3],
        link_state_id: rd32(s, i + 4),
        advertising_router: rd32(s, i + 8),
        ls_sequence_number: #[verifier::truncate] (rd32(s, i + 12) as i32),
        ls_checksum: rd16(s, i + 16),
        length: rd16(s, i + 18),
    }
}

/// `t` stands in `s` at `i`; then so does each of its pieces.
pub proof fn lemma_piece(s: Seq<u8>, i: int, t: Seq<u8>, j: int, k: int)
    requires
        0 <= i,
        i + t.len() <= s.len(),
        s.subrange(i, i + t.len() as int) == t,
        0 <= j <= k <= t.len(),
    ensures
        s.subrange(i + j, i + k) == t.subrange(j, k),
{
    assert forall|n: int| 0 <= n < k - j implies #[trigger] s.subrange(i + j, i + k)[n] == t.subrange(j, k)[n] by {
        assert(s.subrange(i, i + t.len() as int)[j + n] == s[i + j + n]);
    }
    assert(s.subrange(i + j, i + k) =~= t.subrange(j, k));
}

/// A header written at `i` is read back unchanged.
pub proof fn lemma_header_round_trip(s: Seq<u8>, i: int, h: LsaHeader)
    requires
        0 <= i,
        i + 20 <= s.len(),
        s.subrange(i, i + 20) == header_bytes(h),
    ensures
        parse_header(s, i) == h,
{
    let t = header_bytes(h);
    assert(t.len() == 20);
    lemma_piece(s, i, t, 0, 2);
    assert(t.subrange(0, 2) =~= be16(h.ls_age));
    lemma_rd16(s, i, h.ls_age);
    lemma_piece(s, i, t, 2, 4);
    assert(s.subrange(i + 2, i + 4)[0] == s[i + 2]);
    assert(s.subrange(i + 2, i + 4)[1] == s[i + 3]);
    lemma_piece(s, i, t, 4, 8);
    assert(t.subrange(4, 8) =~= be32(h.link_state_id));
    lemma_rd32(s, i + 4, h.link_state_id);
    lemma_piece(s, i, t, 8, 12);
    assert(t.subrange(8, 12) =~= be32(h.advertising_router));
    lemma_rd32(s, i + 8, h.advertising_router);
    lemma_piece(s, i, t, 12, 16);
    assert(t.subrange(12, 16) =~= be32(h.ls_sequence_number as u32));
    lemma_rd32(s, i + 12, h.ls_sequence_number as u32);
    let q = h.ls_sequence_number;
    assert(((q as u32) as i32) == q) by (bit_vector);
    lemma_piece(s, i, t, 16, 18);
    assert(t.subrange(16, 18) =~= be16(h.ls_checksum));
    lemma_rd16(s, i + 16, h.ls_checksum);
    lemma_piece(s, i, t, 18, 20);
    assert(t.subrange(18, 20) =~= be16(h.length));
    lemma_rd16(s, i + 18, h.length);
}

impl LsaHeader {
    /// Appends the 20 header bytes to `buf`.
    pub fn write_to(&self, buf: &mut Vec<u8>)
        ensures
            final(buf)@ == old(buf)@ + header_bytes(*self),
    {
        put_u16(buf, self.ls_age);
        put_u8(buf, self.options);
        put_u8(buf, self.ls_type);
        put_u32(buf, self.link_state_id);
        put_u32(buf, self.advertising_router);
        put_u32(buf, self.ls_sequence_number as u32);
        put_u16(buf, self.ls_checksum);
        put_u16(buf, self.length);
        assert(buf@ =~= old(buf)@ + header_bytes(*self));
    }

    /// Reads a header from the 20 bytes of `buf` that start at `i`.
    pub fn read_from(buf: &[u8], i: usize) -> (r: LsaHeader)
        requires
            i + 20 <= buf@.len(),
        ensures
            r == parse_header(buf@, i as int),
    {
        let _n = buf.len();
        let seq = get_u32(buf, i + 12);
        LsaHeader {
            ls_age: get_u16(buf, i),
            options: buf[i + 2],
            ls_type: buf[i + 3],
            link_state_id: get_u32(buf, i + 4),
            advertising_router: get_u32(buf, i + 8),
            ls_sequence_number: #[verifier::truncate] (seq as i32),
            ls_checksum: get_u16(buf, i + 16),
            length: get_u16(buf, i + 18),
        }
    }
}

// ---------------------------------------------------------------------------
// Freshness order
/// Which of two instances of one LSA is newer: `Greater` when `a` is.
pub open spec fn freshness(a: LsaHeader, b: LsaHeader) -> Ordering {
    if a.ls_sequence_number != b.ls_sequence_number {
        if a.ls_sequence_number > b.ls_sequence_number {
            Ordering::Greater
        } else {
            Ordering::Less
        }
    } else if a.ls_checksum != b.ls_checksum {
        if a.ls_checksum > b.ls_checksum {
            Ordering::Greater
        } else {
            Ordering::Less
        }
    } else if a.ls_age == b.ls_age {
        Ordering::Equal
    } else if a.ls_age == LSA_MAX_AGE {
        Ordering::Greater
    } else if b.ls_age == LSA_MAX_AGE {
        Ordering::Less
    } else if a.ls_age >= b.ls_age + MAX_AGE_DIFF {
        Ordering::Less
    } else if b.ls_age >= a.ls_age + MAX_AGE_DIFF {
        Ordering::Greater
    } else {
        Ordering::Equal
    }
}

pub open spec fn reverse(o: Ordering) -> Ordering {
    match o {
        Ordering::Less => Ordering::Greater,
        Ordering::Equal => Ordering::Equal,
        Ordering::Greater => Ordering::Less,
    }
}

impl LsaHeader {
    /// Compares two instances of one LSA: `Greater` means `self` is newer,
    /// `Equal` that they count as the same instance.
    pub fn freshness_cmp(&self, other: &LsaHeader) -> (r: Ordering)
        ensures
            r == freshness(*self, *other),
    {
        if self.ls_sequence_number != other.ls_sequence_number {
            if self.ls_sequence_number > other.ls_sequence_number {
                Ordering::Greater
            } else {
                Ordering::Less
            }
        } else if self.ls_checksum != other.ls_checksum {
            if self.ls_checksum > other.ls_checksum {
                Ordering::Greater
            } else {
                Ordering::Less
            }
        } else if self.ls_age == other.ls_age {
            Ordering::Equal
        } else if self.ls_age == LSA_MAX_AGE {
            Ordering::Greater
        } else if other.ls_age == LSA_MAX_AGE {
            Ordering::Less
        } else if self.ls_age as u32 >= other.ls_age as u32 + MAX_AGE_DIFF as u32 {
            Ordering::Less
        } else if other.ls_age as u32 >= self.ls_age as u32 + MAX_AGE_DIFF as u32 {
            Ordering::Greater
        } else {
            Ordering::Equal
        }
    }

    /// True when `self` is strictly newer than `other`.
    pub fn is_newer_than(&self, other: &LsaHeader) -> (r: bool)
        ensures
            r == (freshness(*self, *other) == Ordering::Greater),
    {
        match self.freshness_cmp(other) {
            Ordering::Greater => true,
            _ => false,
        }
    }
}

/// The freshness order is antisymmetric: comparing the other way round
/// gives the reverse answer, so exactly one of older, newer and same
/// instance holds for any two headers.
pub proof fn lemma_freshness_antisymmetric(a: LsaHeader, b: LsaHeader)
    ensures
        freshness(b, a) == reverse(freshness(a, b)),
{
}

/// The freshness order is reflexive: a header is the same instance as itself.
pub proof fn lemma_freshness_reflexive(a: LsaHeader)
    ensures
        freshness(a, a) == Ordering::Equal,
{
}

// ---------------------------------------------------------------------------
// Bodies
/// One link of a Router-LSA.
#[derive(Clone, Copy, Debug, PartialEq, Eq, Structural)]
pub struct RouterLSALink {
    pub link_id: u32,
    pub link_data: u32,
    pub link_type: u8,
    pub tos: u8,
    pub metric: u16,
}

#[derive(Clone, Debug)]
pub struct RouterLSA {
    pub v: bool,
    pub e: bool,
    pub b: bool,
    pub num_links: u16,
    pub links: Vec<RouterLSALink>,
}

#[derive(Clone, Debug)]
pub struct NetworkLSA {
    pub network_mask: u32,
    pub attached_routers: Vec<u32>,
}

/// Body of a Summary-IP or Summary-ASBR LSA; metrics are 24-bit.
#[derive(Clone, Copy, Debug, PartialEq, Eq, Structural)]
pub struct SummaryLSA {
    pub network_mask: u32,
    pub metric: u32,
    pub tos: u8,
    pub tos_metric: u32,
}

/// Body of an AS-External-LSA; `e` marks a type-2 metric.
#[derive(Clone, Copy, Debug, PartialEq, Eq, Structural)]
pub struct AsExternalLSA {
    pub network_mask: u32,
    pub e: bool,
    pub metric: u32,
    pub forwarding_address: u32,
    pub external_router_tag: u32,
}

#[derive(Clone, Debug)]
pub enum LsaData {
    Router(RouterLSA),
    Network(NetworkLSA),
    SummaryIp(SummaryLSA),
    SummaryAsbr(SummaryLSA),
    AsExternal(AsExternalLSA),
}

#[derive(Clone, Debug)]
pub struct Lsa {
    pub header: LsaHeader,
    pub data: LsaData,
}

pub ghost struct RouterLsaModel {
    pub v: bool,
    pub e: bool,
    pub b: bool,
    pub num_links: u16,
    pub links: Seq<RouterLSALink>,
}

pub ghost struct NetworkLsaModel {
    pub network_mask: u32,
    pub attached_routers: Seq<u32>,
}

pub ghost enum LsaDataModel {
    Router(RouterLsaModel),
    Network(NetworkLsaModel),
    SummaryIp(SummaryLSA),
    SummaryAsbr(SummaryLSA),
    AsExternal(AsExternalLSA),
}

pub ghost struct LsaModel {
    pub header: LsaHeader,
    pub data: LsaDataModel,
}

impl View for RouterLSA {
    type V = RouterLsaModel;

    open spec fn view(&self) -> RouterLsaModel {
        RouterLsaModel {
            v: self.v,
            e: self.e,
            b: self.b,
            num_links: self.num_links,
            links: self.links@,
        }
    }
}

impl View for NetworkLSA {
    type V = NetworkLsaModel;

    open spec fn view(&self) -> NetworkLsaModel {
        NetworkLsaModel { network_mask: self.network_mask, attached_routers: self.attached_routers@ }
    }
}

impl View for LsaData {
    type V = LsaDataModel;

    open spec fn view(&self) -> LsaDataModel {
        match self {
            LsaData::Router(r) => LsaDataModel::Router(r@),
            LsaData::Network(n) => LsaDataModel::Network(n@),
            LsaData::SummaryIp(x) => LsaDataModel::SummaryIp(*x),
            LsaData::SummaryAsbr(x) => LsaDataModel::SummaryAsbr(*x),
            LsaData::AsExternal(x) => LsaDataModel::AsExternal(*x),
        }
    }
}

impl View for Lsa {
    type V = LsaModel;

    open spec fn view(&self) -> LsaModel {
        LsaModel { header: self.header, data: self.data@ }
    }
}

pub open spec fn link_bytes(l: RouterLSALink) -> Seq<u8> {
    be32(l.link_id) + be32(l.link_data) + seq![l.link_type, l.tos] + be16(l.metric)
}

pub open spec fn parse_link(s: Seq<u8>, i: int) -> RouterLSALink {
    RouterLSALink {
        link_id: rd32(s, i),
        link_data: rd32(s, i + 4),
        link_type: s[i + 8],
        tos: s[i + 9],
        metric: rd16(s, i + 10),
    }
}

pub open spec fn links_bytes(ls: Seq<RouterLSALink>) -> Seq<u8>
    decreases ls.len(),
{
    if ls.len() == 0 {
        seq![]
    } else {
        links_bytes(ls.drop_last()) + link_bytes(ls.last())
    }
}

pub open spec fn parse_links(s: Seq<u8>, i: int, n: nat) -> Seq<RouterLSALink>
    decreases n,
{
    if n == 0 {
        seq![]
    } else {
        parse_links(s, i, (n - 1) as nat).push(parse_link(s, i + 12 * (n - 1)))
    }
}

pub open spec fn ips_bytes(ips: Seq<u32>) -> Seq<u8>
    decreases ips.len(),
{
    if ips.len() == 0 {
        seq![]
    } else {
        ips_bytes(ips.drop_last()) + be32(ips.last())
    }
}

pub open spec fn parse_ips(s: Seq<u8>, i: int, n: nat) -> Seq<u32>
    decreases n,
{
    if n == 0 {
        seq![]
    } else {
        parse_ips(s, i, (n - 1) as nat).push(rd32(s, i + 4 * (n - 1)))
    }
}

/// A byte whose three low bits are the given flags, highest first
/// (V, E, B of a Router-LSA; I, M, MS of a DD packet).
pub open spec fn flag_byte(v: bool, e: bool, b: bool) -> u8 {
    ((if v { 4int } else { 0int }) + (if e { 2int } else { 0int }) + (if b { 1int } else { 0int })) as u8
}

pub open spec fn router_bytes(r: RouterLsaModel) -> Seq<u8> {
    seq![flag_byte(r.v, r.e, r.b), 0u8] + be16(r.num_links) + links_bytes(r.links)
}

pub open spec fn network_bytes(n: NetworkLsaModel) -> Seq<u8> {
    be32(n.network_mask) + ips_bytes(n.attached_routers)
}

pub open spec fn summary_bytes(x: SummaryLSA) -> Seq<u8> {
    be32(x.network_mask) + seq![0u8] + be24(x.metric) + seq![x.tos] + be24(x.tos_metric)
}

pub open spec fn external_bytes(x: AsExternalLSA) -> Seq<u8> {
    be32(x.network_mask) + seq![if x.e { 128u8 } else { 0u8 }] + be24(x.metric) + be32(
        x.forwarding_address,
    ) + be32(x.external_router_tag)
}

pub open spec fn data_bytes(d: LsaDataModel) -> Seq<u8> {
    match d {
        LsaDataModel::Router(r) => router_bytes(r),
        LsaDataModel::Network(n) => network_bytes(n),
        LsaDataModel::SummaryIp(x) => summary_bytes(x),
        LsaDataModel::SummaryAsbr(x) => summary_bytes(x),
        LsaDataModel::AsExternal(x) => external_bytes(x),
    }
}

pub open spec fn lsa_bytes(m: LsaModel) -> Seq<u8> {
    header_bytes(m.header) + data_bytes(m.data)
}

/// The LSA type that each body belongs to.
pub open spec fn data_type(d: LsaDataModel) -> u8 {
    match d {
        LsaDataModel::Router(_) => ROUTER_LSA,
        LsaDataModel::Network(_) => NETWORK_LSA,
        LsaDataModel::SummaryIp(_) => SUMMARY_IP_LSA,
        LsaDataModel::SummaryAsbr(_) => SUMMARY_ASBR_LSA,
        LsaDataModel::AsExternal(_) => AS_EXTERNAL_LSA,
    }
}

pub open spec fn data_wf(d: LsaDataModel) -> bool {
    match d {
        LsaDataModel::Router(r) => r.num_links == r.links.len(),
        LsaDataModel::Network(_) => true,
        LsaDataModel::SummaryIp(x) => x.metric < 0x100_0000 && x.tos_metric < 0x100_0000,
        LsaDataModel::SummaryAsbr(x) => x.metric < 0x100_0000 && x.tos_metric < 0x100_0000,
        LsaDataModel::AsExternal(x) => x.metric < 0x100_0000,
    }
}

/// A well-formed LSA: its body fits its type and its header's length is
/// the length of its wire form.
pub open spec fn lsa_wf(m: LsaModel) -> bool {
    &&& data_wf(m.data)
    &&& m.header.ls_type == data_type(m.data)
    &&& m.header.length == 20 + data_bytes(m.data).len()
}

pub open spec fn parse_router(s: Seq<u8>, lo: int, hi: int) -> Option<RouterLsaModel> {
    if hi - lo < 4 {
        None
    } else {
        let n = rd16(s, lo + 2);
        if hi - lo != 4 + 12 * n {
            None
        } else {
            Some(
                RouterLsaModel {
                    v: (s[lo] / 4) % 2 == 1,
                    e: (s[lo] / 2) % 2 == 1,
                    b: s[lo] % 2 == 1,
                    num_links: n,
                    links: parse_links(s, lo + 4, n as nat),
                },
            )
        }
    }
}

pub open spec fn parse_network(s: Seq<u8>, lo: int, hi: int) -> Option<NetworkLsaModel> {
    if hi - lo < 4 || (hi - lo) % 4 != 0 {
        None
    } else {
        Some(
            NetworkLsaModel {
                network_mask: rd32(s, lo),
                attached_routers: parse_ips(s, lo + 4, ((hi - lo - 4) / 4) as nat),
            },
        )
    }
}

pub open spec fn parse_summary(s: Seq<u8>, lo: int) -> SummaryLSA {
    SummaryLSA {
        network_mask: rd32(s, lo),
        metric: rd24(s, lo + 5),
        tos: s[lo + 8],
        tos_metric: rd24(s, lo + 9),
    }
}

pub open spec fn parse_external(s: Seq<u8>, lo: int) -> AsExternalLSA {
    AsExternalLSA {
        network_mask: rd32(s, lo),
        e: (s[lo + 4] / 128) % 2 == 1,
        metric: rd24(s, lo + 5),
        forwarding_address: rd32(s, lo + 8),
        external_router_tag: rd32(s, lo + 12),
    }
}

/// The body of type `t` held by `s[lo..hi]`, if those bytes are one.
pub open spec fn parse_data(t: u8, s: Seq<u8>, lo: int, hi: int) -> Option<LsaDataModel> {
    if t == ROUTER_LSA {
        match parse_router(s, lo, hi) {
            Some(r) => Some(LsaDataModel::Router(r)),
            None => None,
        }
    } else if t == NETWORK_LSA {
        match parse_network(s, lo, hi) {
            Some(n) => Some(LsaDataModel::Network(n)),
            None => None,
        }
    } else if t == SUMMARY_IP_LSA && hi - lo == 12 {
        Some(LsaDataModel::SummaryIp(parse_summary(s, lo)))
    } else if t == SUMMARY_ASBR_LSA && hi - lo == 12 {
        Some(LsaDataModel::SummaryAsbr(parse_summary(s, lo)))
    } else if t == AS_EXTERNAL_LSA && hi - lo == 16 {
        Some(LsaDataModel::AsExternal(parse_external(s, lo)))
    } else {
        None
    }
}

/// The LSA that starts at `i` in `s`, with the position just past it.
pub open spec fn parse_lsa_at(s: Seq<u8>, i: int) -> Result<(LsaModel, int), CodecError> {
    if i + 20 > s.len() {
        Err(CodecError::Malformed)
    } else {
        let h = parse_header(s, i);
        if h.ls_type < 1 || h.ls_type > 5 {
            Err(CodecError::UnknownLsaType)
        } else if h.length < 20 || i + h.length > s.len() {
            Err(CodecError::Malformed)
        } else {
            match parse_data(h.ls_type, s, i + 20, i + h.length) {
                Some(d) => Ok((LsaModel { header: h, data: d }, i + h.length)),
                None => Err(CodecError::Malformed),
            }
        }
    }
}

/// The LSA that `s` holds, with no byte left over.
pub open spec fn parse_lsa(s: Seq<u8>) -> Result<LsaModel, CodecError> {
    match parse_lsa_at(s, 0) {
        Ok((m, e)) => if e == s.len() {
            Ok(m)
        } else {
            Err(CodecError::Malformed)
        },
        Err(x) => Err(x),
    }
}

// ---------------------------------------------------------------------------
// Round trip of the wire form
/// Each link takes 12 bytes.
pub proof fn lemma_links_len(ls: Seq<RouterLSALink>)
    ensures
        links_bytes(ls).len() == 12 * ls.len(),
    decreases ls.len(),
{
    if ls.len() > 0 {
        lemma_links_len(ls.drop_last());
    }
}

/// Each address takes 4 bytes.
pub proof fn lemma_ips_len(ips: Seq<u32>)
    ensures
        ips_bytes(ips).len() == 4 * ips.len(),
    decreases ips.len(),
{
    if ips.len() > 0 {
        lemma_ips_len(ips.drop_last());
    }
}

/// One Router-LSA link written at `i` is read back unchanged.
pub proof fn lemma_link_round_trip(s: Seq<u8>, i: int, l: RouterLSALink)
    requires
        0 <= i,
        i + 12 <= s.len(),
        s.subrange(i, i + 12) == link_bytes(l),
    ensures
        parse_link(s, i) == l,
{
    let t = link_bytes(l);
    lemma_piece(s, i, t, 0, 4);
    assert(t.subrange(0, 4) =~= be32(l.link_id));
    lemma_rd32(s, i, l.link_id);
    lemma_piece(s, i, t, 4, 8);
    assert(t.subrange(4, 8) =~= be32(l.link_data));
    lemma_rd32(s, i + 4, l.link_data);
    lemma_piece(s, i, t, 8, 10);
    assert(s.subrange(i + 8, i + 10)[0] == s[i + 8]);
    assert(s.subrange(i + 8, i + 10)[1] == s[i + 9]);
    lemma_piece(s, i, t, 10, 12);
    assert(t.subrange(10, 12) =~= be16(l.metric));
    lemma_rd16(s, i + 10, l.metric);
}

/// Router-LSA links written at `i` are read back unchanged.
pub proof fn lemma_links_round_trip(s: Seq<u8>, i: int, ls: Seq<RouterLSALink>)
    requires
        0 <= i,
        i + 12 * ls.len() <= s.len(),
        s.subrange(i, i + 12 * ls.len()) == links_bytes(ls),
    ensures
        parse_links(s, i, ls.len()) == ls,
    decreases ls.len(),
{
    if ls.len() > 0 {
        let n = ls.len() - 1;
        let t = links_bytes(ls);
        lemma_links_len(ls);
        lemma_links_len(ls.drop_last());
        lemma_piece(s, i, t, 0, 12 * n);
        assert(t.subrange(0, 12 * n) =~= links_bytes(ls.drop_last()));
        lemma_links_round_trip(s, i, ls.drop_last());
        lemma_piece(s, i, t, 12 * n, 12 * n + 12);
        assert(t.subrange(12 * n, 12 * n + 12) =~= link_bytes(ls.last()));
        lemma_link_round_trip(s, i + 12 * n, ls.last());
        assert(parse_links(s, i, ls.len()) =~= ls);
    }
}

/// Addresses written at `i` are read back unchanged.
pub proof fn lemma_ips_round_trip(s: Seq<u8>, i: int, ips: Seq<u32>)
    requires
        0 <= i,
        i + 4 * ips.len() <= s.len(),
        s.subrange(i, i + 4 * ips.len()) == ips_bytes(ips),
    ensures
        parse_ips(s, i, ips.len()) == ips,
    decreases ips.len(),
{
    if ips.len() > 0 {
        let n = ips.len() - 1;
        let t = ips_bytes(ips);
        lemma_ips_len(ips);
        lemma_ips_len(ips.drop_last());
        lemma_piece(s, i, t, 0, 4 * n);
        assert(t.subrange(0, 4 * n) =~= ips_bytes(ips.drop_last()));
        lemma_ips_round_trip(s, i, ips.drop_last());
        lemma_piece(s, i, t, 4 * n, 4 * n + 4);
        assert(t.subrange(4 * n, 4 * n + 4) =~= be32(ips.last()));
        lemma_rd32(s, i + 4 * n, ips.last());
        assert(parse_ips(s, i, ips.len()) =~= ips);
    }
}

/// Each of the three flags is read back from its bit.
pub proof fn lemma_flags(v: bool, e: bool, b: bool)
    ensures
        (flag_byte(v, e, b) / 4) % 2 == 1 <==> v,
        (flag_byte(v, e, b) / 2) % 2 == 1 <==> e,
        flag_byte(v, e, b) % 2 == 1 <==> b,
{
}

/// A well-formed body written at `lo` is read back unchanged as a body of its type.
pub proof fn lemma_data_round_trip(s: Seq<u8>, lo: int, d: LsaDataModel)
    requires
        0 <= lo,
        data_wf(d),
        lo + data_bytes(d).len() <= s.len(),
        s.subrange(lo, lo + data_bytes(d).len()) == data_bytes(d),
    ensures
        parse_data(data_type(d), s, lo, lo + data_bytes(d).len()) == Some(d),
{
    let t = data_bytes(d);
    let hi = lo + t.len();
    match d {
        LsaDataModel::Router(r) => {
            lemma_links_len(r.links);
            lemma_piece(s, lo, t, 0, 2);
            assert(s.subrange(lo, lo + 2)[0] == s[lo]);
            assert(s[lo] == flag_byte(r.v, r.e, r.b));
            lemma_flags(r.v, r.e, r.b);
            lemma_piece(s, lo, t, 2, 4);
            assert(t.subrange(2, 4) =~= be16(r.num_links));
            lemma_rd16(s, lo + 2, r.num_links);
            lemma_piece(s, lo, t, 4, t.len() as int);
            assert(t.subrange(4, t.len() as int) =~= links_bytes(r.links));
            lemma_links_round_trip(s, lo + 4, r.links);
            assert(parse_router(s, lo, hi) == Some(r));
        },
        LsaDataModel::Network(n) => {
            lemma_ips_len(n.attached_routers);
            lemma_piece(s, lo, t, 0, 4);
            assert(t.subrange(0, 4) =~= be32(n.network_mask));
            lemma_rd32(s, lo, n.network_mask);
            lemma_piece(s, lo, t, 4, t.len() as int);
            assert(t.subrange(4, t.len() as int) =~= ips_bytes(n.attached_routers));
            lemma_ips_round_trip(s, lo + 4, n.attached_routers);
            assert((hi - lo - 4) / 4 == n.attached_routers.len());
            assert(parse_network(s, lo, hi) == Some(n));
        },
        LsaDataModel::SummaryIp(x) => {
            lemma_summary_round_trip(s, lo, x);
        },
        LsaDataModel::SummaryAsbr(x) => {
            lemma_summary_round_trip(s, lo, x);
        },
        LsaDataModel::AsExternal(x) => {
            lemma_piece(s, lo, t, 0, 4);
            assert(t.subrange(0, 4) =~= be32(x.network_mask));
            lemma_rd32(s, lo, x.network_mask);
            lemma_piece(s, lo, t, 4, 5);
            assert(s.subrange(lo + 4, lo + 5)[0] == s[lo + 4]);
            lemma_piece(s, lo, t, 5, 8);
            assert(t.subrange(5, 8) =~= be24(x.metric));
            lemma_rd24(s, lo + 5, x.metric);
            lemma_piece(s, lo, t, 8, 12);
            assert(t.subrange(8, 12) =~= be32(x.forwarding_address));
            lemma_rd32(s, lo + 8, x.forwarding_address);
            lemma_piece(s, lo, t, 12, 16);
            assert(t.subrange(12, 16) =~= be32(x.external_router_tag));
            lemma_rd32(s, lo + 12, x.external_router_tag);
            assert(parse_external(s, lo) == x);
        },
    }
}

proof fn lemma_summary_round_trip(s: Seq<u8>, lo: int, x: SummaryLSA)
    requires
        0 <= lo,
        x.metric < 0x100_0000,
        x.tos_metric < 0x100_0000,
        lo + 12 <= s.len(),
        s.subrange(lo, lo + 12) == summary_bytes(x),
    ensures
        parse_summary(s, lo) == x,
{
    let t = summary_bytes(x);
    lemma_piece(s, lo, t, 0, 4);
    assert(t.subrange(0, 4) =~= be32(x.network_mask));
    lemma_rd32(s, lo, x.network_mask);
    lemma_piece(s, lo, t, 5, 8);
    assert(t.subrange(5, 8) =~= be24(x.metric));
    lemma_rd24(s, lo + 5, x.metric);
    lemma_piece(s, lo, t, 8, 9);
    assert(s.subrange(lo + 8, lo + 9)[0] == s[lo + 8]);
    lemma_piece(s, lo, t, 9, 12);
    assert(t.subrange(9, 12) =~= be24(x.tos_metric));
    lemma_rd24(s, lo + 9, x.tos_metric);
}

/// A well-formed LSA standing at `i` in a longer buffer is read back whole.
pub proof fn lemma_lsa_at_round_trip(s: Seq<u8>, i: int, m: LsaModel)
    requires
        0 <= i,
        lsa_wf(m),
        i + lsa_bytes(m).len() <= s.len(),
        s.subrange(i, i + lsa_bytes(m).len()) == lsa_bytes(m),
    ensures
        parse_lsa_at(s, i) == Ok::<(LsaModel, int), CodecError>((m, i + lsa_bytes(m).len())),
{
    let t = lsa_bytes(m);
    lemma_piece(s, i, t, 0, 20);
    assert(t.subrange(0, 20) =~= header_bytes(m.header));
    lemma_header_round_trip(s, i, m.header);
    lemma_piece(s, i, t, 20, t.len() as int);
    assert(t.subrange(20, t.len() as int) =~= data_bytes(m.data));
    lemma_data_round_trip(s, i + 20, m.data);
}

/// Decoding the wire form of a well-formed LSA gives back that LSA.
pub proof fn lemma_lsa_round_trip(m: LsaModel)
    requires
        lsa_wf(m),
    ensures
        parse_lsa(lsa_bytes(m)) == Ok::<LsaModel, CodecError>(m),
{
    let t = lsa_bytes(m);
    assert(t.subrange(0, t.len() as int) =~= t);
    lemma_lsa_at_round_trip(t, 0, m);
}

// ---------------------------------------------------------------------------
// Encoding and decoding
impl RouterLSALink {
    pub fn write_to(&self, buf: &mut Vec<u8>)
        ensures
            final(buf)@ == old(buf)@ + link_bytes(*self),
    {
        put_u32(buf, self.link_id);
        put_u32(buf, self.link_data);
        put_u8(buf, self.link_type);
        put_u8(buf, self.tos);
        put_u16(buf, self.metric);
        assert(buf@ =~= old(buf)@ + link_bytes(*self));
    }

    pub fn read_from(buf: &[u8], i: usize) -> (r: RouterLSALink)
        requires
            i + 12 <= buf@.len(),
        ensures
            r == parse_link(buf@, i as int),
    {
        let _blen = buf.len();
        RouterLSALink {
            link_id: get_u32(buf, i),
            link_data: get_u32(buf, i + 4),
            link_type: buf[i + 8],
            tos: buf[i + 9],
            metric: get_u16(buf, i + 10),
        }
    }
}

fn write_links(links: &Vec<RouterLSALink>, buf: &mut Vec<u8>)
    ensures
        final(buf)@ == old(buf)@ + links_bytes(links@),
{
    let mut k: usize = 0;
    while k < links.len()
        invariant
            k <= links@.len(),
            buf@ == old(buf)@ + links_bytes(links@.subrange(0, k as int)),
        decreases links@.len() - k,
    {
        let ghost before = buf@;
        links[k].write_to(buf);
        assert(links@.subrange(0, k + 1).drop_last() =~= links@.subrange(0, k as int));
        assert(buf@ =~= old(buf)@ + links_bytes(links@.subrange(0, k + 1)));
        k = k + 1;
    }
    assert(links@.subrange(0, k as int) =~= links@);
}

fn write_ips(ips: &Vec<u32>, buf: &mut Vec<u8>)
    ensures
        final(buf)@ == old(buf)@ + ips_bytes(ips@),
{
    let mut k: usize = 0;
    while k < ips.len()
        invariant
            k <= ips@.len(),
            buf@ == old(buf)@ + ips_bytes(ips@.subrange(0, k as int)),
        decreases ips@.len() - k,
    {
        put_u32(buf, ips[k]);
        assert(ips@.subrange(0, k + 1).drop_last() =~= ips@.subrange(0, k as int));
        assert(buf@ =~= old(buf)@ + ips_bytes(ips@.subrange(0, k + 1)));
        k = k + 1;
    }
    assert(ips@.subrange(0, k as int) =~= ips@);
}

fn read_links(buf: &[u8], i: usize, n: usize) -> (r: Vec<RouterLSALink>)
    requires
        i + 12 * n <= buf@.len(),
    ensures
        r@ == parse_links(buf@, i as int, n as nat),
{
    let blen = buf.len();
    let mut v: Vec<RouterLSALink> = Vec::new();
    let mut k: usize = 0;
    while k < n
        invariant
            blen == buf@.len(),
            k <= n,
            i + 12 * n <= buf@.len(),
            v@ == parse_links(buf@, i as int, k as nat),
        decreases n - k,
    {
        let l = RouterLSALink::read_from(buf, i + 12 * k);
        v.push(l);
        k = k + 1;
    }
    v
}

fn read_ips(buf: &[u8], i: usize, n: usize) -> (r: Vec<u32>)
    requires
        i + 4 * n <= buf@.len(),
    ensures
        r@ == parse_ips(buf@, i as int, n as nat),
{
    let blen = buf.len();
    let mut v: Vec<u32> = Vec::new();
    let mut k: usize = 0;
    while k < n
        invariant
            blen == buf@.len(),
            k <= n,
            i + 4 * n <= buf@.len(),
            v@ == parse_ips(buf@, i as int, k as nat),
        decreases n - k,
    {
        v.push(get_u32(buf, i + 4 * k));
        k = k + 1;
    }
    v
}

impl LsaData {
    /// Appends the body's wire form to `buf`.
    pub fn write_to(&self, buf: &mut Vec<u8>)
        ensures
            final(buf)@ == old(buf)@ + data_bytes(self@),
    {
        match self {
            LsaData::Router(r) => {
                let flags: u8 = (if r.v { 4u8 } else { 0u8 }) + (if r.e { 2u8 } else { 0u8 }) + (
                if r.b { 1u8 } else { 0u8 });
                put_u8(buf, flags);
                put_u8(buf, 0);
                put_u16(buf, r.num_links);
                write_links(&r.links, buf);
                assert(buf@ =~= old(buf)@ + router_bytes(r@));
            },
            LsaData::Network(n) => {
                put_u32(buf, n.network_mask);
                write_ips(&n.attached_routers, buf);
                assert(buf@ =~= old(buf)@ + network_bytes(n@));
            },
            LsaData::SummaryIp(x) => {
                write_summary(x, buf);
            },
            LsaData::SummaryAsbr(x) => {
                write_summary(x, buf);
            },
            LsaData::AsExternal(x) => {
                put_u32(buf, x.network_mask);
                put_u8(buf, if x.e { 128u8 } else { 0u8 });
                put_u24(buf, x.metric);
                put_u32(buf, x.forwarding_address);
                put_u32(buf, x.external_router_tag);
                assert(buf@ =~= old(buf)@ + external_bytes(*x));
            },
        }
    }

    /// Reads the body of type `t` that fills `buf[lo..hi]` exactly.
    pub fn read_from(t: u8, buf: &[u8], lo: usize, hi: usize) -> (r: Option<LsaData>)
        requires
            lo <= hi <= buf@.len(),
        ensures
            match r {
                Some(d) => parse_data(t, buf@, lo as int, hi as int) == Some(d@),
                None => parse_data(t, buf@, lo as int, hi as int) is None,
            },
    {
        let _blen = buf.len();
        let len = hi - lo;
        if t == ROUTER_LSA {
            if len < 4 {
                return None;
            }
            let n = get_u16(buf, lo + 2);
            if len != 4 + 12 * (n as usize) {
                return None;
            }
            let f = buf[lo];
            let links = read_links(buf, lo + 4, n as usize);
            Some(
                LsaData::Router(
                    RouterLSA {
                        v: (f / 4) % 2 == 1,
                        e: (f / 2) % 2 == 1,
                        b: f % 2 == 1,
                        num_links: n,
                        links,
                    },
                ),
            )
        } else if t == NETWORK_LSA {
            if len < 4 || len % 4 != 0 {
                return None;
            }
            let mask = get_u32(buf, lo);
            let routers = read_ips(buf, lo + 4, (len - 4) / 4);
            Some(LsaData::Network(NetworkLSA { network_mask: mask, attached_routers: routers }))
        } else if t == SUMMARY_IP_LSA && len == 12 {
            Some(LsaData::SummaryIp(read_summary(buf, lo)))
        } else if t == SUMMARY_ASBR_LSA && len == 12 {
            Some(LsaData::SummaryAsbr(read_summary(buf, lo)))
        } else if t == AS_EXTERNAL_LSA && len == 16 {
            Some(
                LsaData::AsExternal(
                    AsExternalLSA {
                        network_mask: get_u32(buf, lo),
                        e: (buf[lo + 4] / 128) % 2 == 1,
                        metric: get_u24(buf, lo + 5),
                        forwarding_address: get_u32(buf, lo + 8),
                        external_router_tag: get_u32(buf, lo + 12),
                    },
                ),
            )
        } else {
            None
        }
    }

    /// The body's wire form.
    pub fn to_bytes(&self) -> (r: Vec<u8>)
        ensures
            r@ == data_bytes(self@),
    {
        let mut buf: Vec<u8> = Vec::new();
        self.write_to(&mut buf);
        assert(buf@ =~= data_bytes(self@));
        buf
    }
}

fn write_summary(x: &SummaryLSA, buf: &mut Vec<u8>)
    ensures
        final(buf)@ == old(buf)@ + summary_bytes(*x),
{
    put_u32(buf, x.network_mask);
    put_u8(buf, 0);
    put_u24(buf, x.metric);
    put_u8(buf, x.tos);
    put_u24(buf, x.tos_metric);
    assert(buf@ =~= old(buf)@ + summary_bytes(*x));
}

fn read_summary(buf: &[u8], lo: usize) -> (r: SummaryLSA)
    requires
        lo + 12 <= buf@.len(),
    ensures
        r == parse_summary(buf@, lo as int),
{
    let _blen = buf.len();
    SummaryLSA {
        network_mask: get_u32(buf, lo),
        metric: get_u24(buf, lo + 5),
        tos: buf[lo + 8],
        tos_metric: get_u24(buf, lo + 9),
    }
}

impl Lsa {
    /// Appends the LSA's wire form, header first, to `buf`.
    pub fn write_to(&self, buf: &mut Vec<u8>)
        ensures
            final(buf)@ == old(buf)@ + lsa_bytes(self@),
    {
        self.header.write_to(buf);
        self.data.write_to(buf);
        assert(buf@ =~= old(buf)@ + lsa_bytes(self@));
    }

    /// The LSA's wire form.
    pub fn to_bytes(&self) -> (r: Vec<u8>)
        ensures
            r@ == lsa_bytes(self@),
    {
        let mut buf: Vec<u8> = Vec::new();
        self.write_to(&mut buf);
        assert(buf@ =~= lsa_bytes(self@));
        buf
    }

    /// Reads the LSA that starts at `i`; returns it with the position just
    /// past it.
    pub fn read_from(buf: &[u8], i: usize) -> (r: Result<(Lsa, usize), CodecError>)
        requires
            i <= buf@.len(),
        ensures
            match r {
                Ok((l, e)) => parse_lsa_at(buf@, i as int) == Ok::<(LsaModel, int), CodecError>(
                    (l@, e as int),
                ),
                Err(x) => parse_lsa_at(buf@, i as int) == Err::<(LsaModel, int), CodecError>(x),
            },
    {
        let n = buf.len();
        if n - i < 20 {
            return Err(CodecError::Malformed);
        }
        let h = LsaHeader::read_from(buf, i);
        if h.ls_type < 1 || h.ls_type > 5 {
            return Err(CodecError::UnknownLsaType);
        }
        if h.length < 20 || (h.length as usize) > n - i {
            return Err(CodecError::Malformed);
        }
        let end = i + h.length as usize;
        match LsaData::read_from(h.ls_type, buf, i + 20, end) {
            Some(d) => Ok((Lsa { header: h, data: d }, end)),
            None => Err(CodecError::Malformed),
        }
    }

    /// Decodes a buffer that holds exactly one LSA.
    pub fn from_bytes(buf: &[u8]) -> (r: Result<Lsa, CodecError>)
        ensures
            match r {
                Ok(l) => parse_lsa(buf@) == Ok::<LsaModel, CodecError>(l@),
                Err(x) => parse_lsa(buf@) == Err::<LsaModel, CodecError>(x),
            },
    {
        match Lsa::read_from(buf, 0) {
            Ok((l, e)) => {
                if e == buf.len() {
                    Ok(l)
                } else {
                    Err(CodecError::Malformed)
                }
            },
            Err(x) => Err(x),
        }
    }
}

// ---------------------------------------------------------------------------
// Fletcher checksum
/// The bytes the checksum runs over: the wire form without the age field,
/// with the checksum field zeroed.
pub open spec fn checksum_input(b: Seq<u8>) -> Seq<u8> {
    b.update(16, 0u8).update(17, 0u8).subrange(2, b.len() as int)
}

pub open spec fn fletcher_c0(s: Seq<u8>) -> int
    decreases s.len(),
{
    if s.len() == 0 {
        0
    } else {
        (fletcher_c0(s.drop_last()) + s.last()) % 255
    }
}

pub open spec fn fletcher_c1(s: Seq<u8>) -> int
    decreases s.len(),
{
    if s.len() == 0 {
        0
    } else {
        (fletcher_c1(s.drop_last()) + fletcher_c0(s)) % 255
    }
}

/// An octet of the check field: 0 is written as 255.
pub open spec fn check_octet(x: int) -> int {
    if x == 0 {
        255
    } else {
        x
    }
}

/// The check field for running sums `c0` and `c1` over an LSA of `len`
/// bytes (without its age field, checksum zeroed): X = ((len-17)·c0 − c1)
/// mod 255 and Y = (c1 − (len-16)·c0) mod 255, each written as 255 when 0.
pub open spec fn fletcher_finish(len: int, c0: int, c1: int) -> u16 {
    let x = ((len - 17) * c0 - c1) % 255;
    let y = (c1 - (len - 16) * c0) % 255;
    (check_octet(x) * 256 + check_octet(y)) as u16
}

pub open spec fn lsa_checksum(m: LsaModel) -> u16 {
    let inp = checksum_input(lsa_bytes(m));
    fletcher_finish(m.header.length as int, fletcher_c0(inp), fletcher_c1(inp))
}

/// Plain sum of the bytes.
pub open spec fn sum0(s: Seq<u8>) -> int
    decreases s.len(),
{
    if s.len() == 0 {
        0
    } else {
        sum0(s.drop_last()) + s.last()
    }
}

/// Plain sum of the running sums.
pub open spec fn sum1(s: Seq<u8>) -> int
    decreases s.len(),
{
    if s.len() == 0 {
        0
    } else {
        sum1(s.drop_last()) + sum0(s)
    }
}

proof fn lemma_sums_mod(s: Seq<u8>)
    ensures
        fletcher_c0(s) == sum0(s) % 255,
        fletcher_c1(s) == sum1(s) % 255,
    decreases s.len(),
{
    if s.len() > 0 {
        lemma_sums_mod(s.drop_last());
        lemma_add_mod_noop(sum0(s.drop_last()), s.last() as int, 255);
        assert((s.last() as int) % 255 == s.last() as int || s.last() == 255);
        lemma_add_mod_noop_right(sum0(s.drop_last()) % 255, s.last() as int, 255);
        lemma_add_mod_noop(sum1(s.drop_last()), sum0(s), 255);
    }
}

proof fn lemma_sums_update(s: Seq<u8>, j: int, v: u8)
    requires
        0 <= j < s.len(),
    ensures
        sum0(s.update(j, v)) == sum0(s) - s[j] + v,
        sum1(s.update(j, v)) == sum1(s) + (s.len() - j) * (v - s[j]),
    decreases s.len(),
{
    let t = s.update(j, v);
    if j == s.len() - 1 {
        assert(t.drop_last() =~= s.drop_last());
    } else {
        assert(t.drop_last() =~= s.drop_last().update(j, v));
        lemma_sums_update(s.drop_last(), j, v);
        let d = v - s[j];
        assert((s.len() - 1 - j) * d + d == (s.len() - j) * d) by (nonlinear_arith);
    }
}

/// With the check field in place (bytes 14 and 15 of the LSA without its
/// age field), both Fletcher sums over the LSA are 0, and neither octet of
/// the field is 0.
pub proof fn lemma_fletcher_zero(inp: Seq<u8>, len: int)
    requires
        inp.len() >= 16,
        inp.len() == len - 2,
        inp[14] == 0,
        inp[15] == 0,
    ensures
        ({
            let r = fletcher_finish(len, fletcher_c0(inp), fletcher_c1(inp));
            let s2 = inp.update(14, (r / 256) as u8).update(15, (r % 256) as u8);
            &&& 1 <= r / 256 <= 255
            &&& 1 <= r % 256 <= 255
            &&& fletcher_c0(s2) == 0
            &&& fletcher_c1(s2) == 0
        }),
{
    lemma_sums_mod(inp);
    let s0 = sum0(inp);
    let s1 = sum1(inp);
    let c0 = fletcher_c0(inp);
    let c1 = fletcher_c1(inp);
    let e1 = (len - 17) * c0 - c1;
    let e2 = c1 - (len - 16) * c0;
    let x = e1 % 255;
    let y = e2 % 255;
    let xo = check_octet(x);
    let yo = check_octet(y);
    let r = fletcher_finish(len, c0, c1);
    assert(r as int == xo * 256 + yo);
    assert(r / 256 == xo && r % 256 == yo);
    lemma_fundamental_div_mod(s0, 255);
    lemma_fundamental_div_mod(s1, 255);
    lemma_fundamental_div_mod(e1, 255);
    lemma_fundamental_div_mod(e2, 255);
    let a = s0 / 255;
    let b = s1 / 255;
    let q1 = e1 / 255;
    let q2 = e2 / 255;
    let f1: int = if x == 0 { 1 } else { 0 };
    let f2: int = if y == 0 { 1 } else { 0 };
    assert(xo == x + 255 * f1);
    assert(yo == y + 255 * f2);
    let s1x = inp.update(14, xo as u8);
    lemma_sums_update(inp, 14, xo as u8);
    let s2 = s1x.update(15, yo as u8);
    assert(s1x[15] == 0);
    lemma_sums_update(s1x, 15, yo as u8);
    let n = inp.len() as int;
    let t0 = s0 + xo + yo;
    let t1 = s1 + (n - 14) * xo + (n - 15) * yo;
    assert(sum0(s2) == t0);
    assert(sum1(s2) == t1);
    let k0 = a - q1 + f1 - q2 + f2;
    let k1 = b + (len - 16) * (f1 - q1) + (len - 17) * (f2 - q2);
    assert(t0 == k0 * 255) by (nonlinear_arith)
        requires
            s0 == 255 * a + c0,
            e1 == (len - 17) * c0 - c1,
            e2 == c1 - (len - 16) * c0,
            e1 == 255 * q1 + x,
            e2 == 255 * q2 + y,
            xo == x + 255 * f1,
            yo == y + 255 * f2,
            t0 == s0 + xo + yo,
            k0 == a - q1 + f1 - q2 + f2,
    ;
    assert(t1 == k1 * 255) by (nonlinear_arith)
        requires
            s1 == 255 * b + c1,
            e1 == (len - 17) * c0 - c1,
            e2 == c1 - (len - 16) * c0,
            e1 == 255 * q1 + x,
            e2 == 255 * q2 + y,
            xo == x + 255 * f1,
            yo == y + 255 * f2,
            n == len - 2,
            t1 == s1 + (n - 14) * xo + (n - 15) * yo,
            k1 == b + (len - 16) * (f1 - q1) + (len - 17) * (f2 - q2),
    ;
    lemma_mod_multiples_basic(k0, 255);
    lemma_mod_multiples_basic(k1, 255);
    lemma_sums_mod(s2);
}

proof fn lemma_c0_range(s: Seq<u8>)

    ensures
        0 <= fletcher_c0(s) < 255,
        0 <= fletcher_c1(s) < 255,
    decreases s.len(),
{
    if s.len() > 0 {
        lemma_c0_range(s.drop_last());
    }
}

/// The checksum does not depend on the age or checksum fields.
proof fn lemma_checksum_ignores(m: LsaModel, age: u16, ck: u16)
    ensures
        lsa_checksum(m) == lsa_checksum(
            LsaModel { header: LsaHeader { ls_age: age, ls_checksum: ck, ..m.header }, ..m },
        ),
{
    let m2 = LsaModel { header: LsaHeader { ls_age: age, ls_checksum: ck, ..m.header }, ..m };
    let b1 = lsa_bytes(m);
    let b2 = lsa_bytes(m2);
    assert(b1.len() == b2.len());
    assert(checksum_input(b1) =~= checksum_input(b2));
}

/// `a` modulo 255, in 0..255.
fn mod255(a: i64) -> (r: i64)
    requires
        -0x1_0000_0000 < a < 0x1_0000_0000,
    ensures
        r as int == (a as int) % 255,
        0 <= r < 255,
{
    if a >= 0 {
        ((a as u64) % 255) as i64
    } else {
        let m = ((-a) as u64 % 255) as i64;
        proof {
            let b = -(a as int);
            lemma_fundamental_div_mod(b, 255);
            let q = b / 255;
            assert(a as int == 255 * (-q - 1) + (255 - m));
            if m == 0 {
                assert(a as int == 255 * (-q));
                lemma_mod_multiples_basic(-q, 255);
                assert((-q) * 255 == 255 * (-q)) by (nonlinear_arith);
            } else {
                lemma_fundamental_div_mod(a as int, 255);
                vstd::arithmetic::div_mod::lemma_mod_bound(a as int, 255);
                let q2 = (a as int) / 255;
                assert(255 * (q2 - (-q - 1)) == (255 - m) - (a as int) % 255) by (nonlinear_arith)
                    requires
                        a as int == 255 * (-q - 1) + (255 - m),
                        a as int == 255 * q2 + (a as int) % 255,
                ;
                assert(q2 == -q - 1) by (nonlinear_arith)
                    requires
                        255 * (q2 - (-q - 1)) == (255 - m) - (a as int) % 255,
                        0 <= (a as int) % 255 < 255,
                        0 < m < 255,
                ;
            }
        }
        if m == 0 {
            0
        } else {
            255 - m
        }
    }
}

impl Lsa {
    /// The Fletcher checksum of the LSA, as stored in its header.
    pub fn checksum(&self) -> (r: u16)
        requires
            lsa_bytes(self@).len() <= 0xffff,
        ensures
            r == lsa_checksum(self@),
    {
        let mut buf = self.to_bytes();
        buf.set(16, 0);
        buf.set(17, 0);
        let ghost inp = checksum_input(lsa_bytes(self@));
        assert(buf@.subrange(2, buf@.len() as int) =~= inp);
        let n = buf.len();
        let mut c0: u32 = 0;
        let mut c1: u32 = 0;
        let mut k: usize = 2;
        while k < n
            invariant
                2 <= k <= n,
                n == buf@.len(),
                inp == buf@.subrange(2, n as int),
                c0 as int == fletcher_c0(inp.subrange(0, k - 2)),
                c1 as int == fletcher_c1(inp.subrange(0, k - 2)),
            decreases n - k,
        {
            proof {
                lemma_c0_range(inp.subrange(0, k - 2));
                assert(inp.subrange(0, k - 1).drop_last() =~= inp.subrange(0, k - 2));
                assert(inp.subrange(0, k - 1).last() == buf@[k as int]);
            }
            c0 = (c0 + buf[k] as u32) % 255;
            c1 = (c1 + c0) % 255;
            k = k + 1;
        }
        assert(inp.subrange(0, n - 2) =~= inp);
        proof {
            lemma_c0_range(inp);
        }
        let c0 = c0 as i64;
        let c1 = c1 as i64;
        let len = self.header.length as i64;
        assert(-17 * 255 <= (len - 17) * c0 <= 0x10000 * 255 && -16 * 255 <= (len - 16) * c0 <= 0x10000 * 255) by (nonlinear_arith)
            requires
                0 <= len <= 0xffff,
                0 <= c0 < 255,
        ;
        let x = mod255((len - 17) * c0 - c1);
        let y = mod255(c1 - (len - 16) * c0);
        let xo: u16 = if x == 0 { 255 } else { x as u16 };
        let yo: u16 = if y == 0 { 255 } else { y as u16 };
        xo * 256 + yo
    }

    /// True when the stored checksum matches the contents.
    pub fn checksum_ok(&self) -> (r: bool)
        requires
            lsa_bytes(self@).len() <= 0xffff,
        ensures
            r == (self.header.ls_checksum == lsa_checksum(self@)),
    {
        self.checksum() == self.header.ls_checksum
    }

    /// Stores the checksum of the contents in the header; afterwards the
    /// checksum is found correct.
    pub fn update_checksum(&mut self)
        requires
            lsa_bytes(old(self)@).len() <= 0xffff,
        ensures
            final(self)@ == (LsaModel {
                header: LsaHeader { ls_checksum: lsa_checksum(old(self)@), ..old(self)@.header },
                ..old(self)@
            }),
            final(self).header.ls_checksum == lsa_checksum(final(self)@),
            old(self).header.length == lsa_bytes(old(self)@).len() ==> ({
                let b = lsa_bytes(final(self)@);
                let body = b.subrange(2, b.len() as int);
                fletcher_c0(body) == 0 && fletcher_c1(body) == 0
            }),
            1 <= final(self).header.ls_checksum / 256 <= 255,
            1 <= final(self).header.ls_checksum % 256 <= 255,
    {
        let c = self.checksum();
        self.header.ls_checksum = c;
        proof {
            lemma_checksum_ignores(old(self)@, old(self)@.header.ls_age, c);
            assert(self@.header == LsaHeader { ls_age: old(self)@.header.ls_age, ls_checksum: c, ..old(self)@.header });
            let b0 = lsa_bytes(old(self)@);
            let inp = checksum_input(b0);
            let len = old(self).header.length as int;
            assert(b0.len() >= 20);
            assert(inp[14] == 0 && inp[15] == 0);
            lemma_fletcher_zero(inp, b0.len() as int);
            if old(self).header.length == b0.len() {
                let b = lsa_bytes(self@);
                assert(b.len() == b0.len());
                let hi = (c / 256) as u8;
                let lo = (c % 256) as u8;
                assert(((c >> 8u16) as u8) == ((c / 256u16) as u8) && (c as u8) == ((c % 256u16) as u8)) by (bit_vector);
                assert(b[16] == (c >> 8u16) as u8 && b[17] == c as u8);
                assert(b.subrange(2, b.len() as int) =~= inp.update(14, hi).update(15, lo));
            } else {
                assert(1 <= c / 256 <= 255);
            }
        }
    }

    /// Stores the length of the wire form in the header.
    pub fn update_length(&mut self)
        requires
            data_bytes(old(self)@.data).len() + 20 <= 0xffff,
        ensures
            final(self)@ == (LsaModel {
                header: LsaHeader {
                    length: (20 + data_bytes(old(self)@.data).len()) as u16,
                    ..old(self)@.header
                },
                ..old(self)@
            }),
    {
        let body = self.data.to_bytes();
        self.header.length = (20 + body.len()) as u16;
    }
}

// ---------------------------------------------------------------------------
// Copies
fn copy_vec<T: Copy>(v: &Vec<T>) -> (r: Vec<T>)
    ensures
        r@ == v@,
{
    let mut r: Vec<T> = Vec::new();
    let mut k: usize = 0;
    while k < v.len()
        invariant
            k <= v@.len(),
            r@ == v@.subrange(0, k as int),
        decreases v@.len() - k,
    {
        r.push(v[k]);
        assert(r@ =~= v@.subrange(0, k + 1));
        k = k + 1;
    }
    assert(v@.subrange(0, k as int) =~= v@);
    r
}

impl LsaData {
    /// A copy with the same contents.
    pub fn duplicate(&self) -> (r: LsaData)
        ensures
            r@ == self@,
    {
        match self {
            LsaData::Router(x) => LsaData::Router(
                RouterLSA {
                    v: x.v,
                    e: x.e,
                    b: x.b,
                    num_links: x.num_links,
                    links: copy_vec(&x.links),
                },
            ),
            LsaData::Network(x) => LsaData::Network(
                NetworkLSA {
                    network_mask: x.network_mask,
                    attached_routers: copy_vec(&x.attached_routers),
                },
            ),
            LsaData::SummaryIp(x) => LsaData::SummaryIp(*x),
            LsaData::SummaryAsbr(x) => LsaData::SummaryAsbr(*x),
            LsaData::AsExternal(x) => LsaData::AsExternal(*x),
        }
    }
}

impl Lsa {
    /// A copy with the same contents.
    pub fn duplicate(&self) -> (r: Lsa)
        ensures
            r@ == self@,
    {
        Lsa { header: self.header, data: self.data.duplicate() }
    }
}

// ---------------------------------------------------------------------------
// Pairing a header with a body
/// Why a header and a body do not make an LSA.
#[derive(Clone, Copy, Debug, PartialEq, Eq, Structural)]
pub enum ConvertError {
    /// The header's type is outside 1..=5.
    TypeUnknown,
    /// The header's type is not the body's.
    TypeMismatched,
}

impl Lsa {
    /// The LSA made of `header` and `data`, when the header's type is the
    /// body's.
    pub fn from_parts(header: LsaHeader, data: LsaData) -> (r: Result<Lsa, ConvertError>)
        ensures
            match r {
                Ok(l) => header.ls_type == data_type(data@) && l@ == (LsaModel { header, data: data@ }),
                Err(e) => e == if 1 <= header.ls_type <= 5 {
                    ConvertError::TypeMismatched
                } else {
                    ConvertError::TypeUnknown
                } && header.ls_type != data_type(data@),
            },
    {
        let t = match &data {
            LsaData::Router(_) => ROUTER_LSA,
            LsaData::Network(_) => NETWORK_LSA,
            LsaData::SummaryIp(_) => SUMMARY_IP_LSA,
            LsaData::SummaryAsbr(_) => SUMMARY_ASBR_LSA,
            LsaData::AsExternal(_) => AS_EXTERNAL_LSA,
        };
        if header.ls_type == t {
            Ok(Lsa { header, data })
        } else if 1 <= header.ls_type && header.ls_type <= 5 {
            Err(ConvertError::TypeMismatched)
        } else {
            Err(ConvertError::TypeUnknown)
        }
    }
}

} // verus!
