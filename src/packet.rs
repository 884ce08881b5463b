//! The five OSPF packet bodies and their wire forms.

use vstd::prelude::*;
use crate::wire::{be16, be32, rd16, rd32, lemma_rd16, lemma_rd32, put_u8, put_u16, put_u32, get_u16, get_u32};
use crate::lsa::{
    CodecError, LsaHeader, Lsa, LsaModel, header_bytes, parse_header, lemma_header_round_trip,
    lemma_piece, ips_bytes, parse_ips, lemma_ips_len, lemma_ips_round_trip, flag_byte, lemma_flags,
    lsa_bytes, lsa_wf, parse_lsa_at, lemma_lsa_at_round_trip,
};

verus! {

pub const HELLO_PACKET: u8 = 1;
pub const DB_DESCRIPTION: u8 = 2;
pub const LS_REQUEST: u8 = 3;
pub const LS_UPDATE: u8 = 4;
pub const LS_ACKNOWLEDGE: u8 = 5;

/// Option bit: AS-external LSAs are flooded.
pub const OPTION_E: u8 = 0b0000_0010;
pub const OPTION_MC: u8 = 0b0000_0100;
pub const OPTION_NP: u8 = 0b0000_1000;
pub const OPTION_EA: u8 = 0b0001_0000;
pub const OPTION_DC: u8 = 0b0010_0000;

#[derive(Clone, Debug)]
pub struct HelloPacket {
    pub network_mask: u32,
    pub hello_interval: u16,
    pub options: u8,
    pub router_priority: u8,
    pub router_dead_interval: u32,
    pub designated_router: u32,
    pub backup_designated_router: u32,
    pub neighbors: Vec<u32>,
}

#[derive(Clone, Debug)]
pub struct DBDescription {
    pub interface_mtu: u16,
    pub options: u8,
    pub init: bool,
    pub more: bool,
    pub master: bool,
    pub db_sequence_number: u32,
    pub lsa_header: Vec<LsaHeader>,
}

#[derive(Clone, Copy, Debug, PartialEq, Eq, Structural)]
pub struct LSRequest {
    pub ls_type: u32,
    pub ls_id: u32,
    pub advertising_router: u32,
}

#[derive(Clone, Debug)]
pub struct LSUpdate {
    pub num_lsa: u32,
    pub lsa: Vec<Lsa>,
}

#[derive(Clone, Debug)]
pub struct LSAcknowledge {
    pub lsa_header: Vec<LsaHeader>,
}

pub ghost struct HelloModel {
    pub network_mask: u32,
    pub hello_interval: u16,
    pub options: u8,
    pub router_priority: u8,
    pub router_dead_interval: u32,
    pub designated_router: u32,
    pub backup_designated_router: u32,
    pub neighbors: Seq<u32>,
}

pub ghost struct DdModel {
    pub interface_mtu: u16,
    pub options: u8,
    pub init: bool,
    pub more: bool,
    pub master: bool,
    pub db_sequence_number: u32,
    pub lsa_header: Seq<LsaHeader>,
}

pub ghost struct LsUpdateModel {
    pub num_lsa: u32,
    pub lsa: Seq<LsaModel>,
}

impl View for HelloPacket {
    type V = HelloModel;

    open spec fn view(&self) -> HelloModel {
        HelloModel {
            network_mask: self.network_mask,
            hello_interval: self.hello_interval,
            options: self.options,
            router_priority: self.router_priority,
            router_dead_interval: self.router_dead_interval,
            designated_router: self.designated_router,
            backup_designated_router: self.backup_designated_router,
            neighbors: self.neighbors@,
        }
    }
}

impl View for DBDescription {
    type V = DdModel;

    open spec fn view(&self) -> DdModel {
        DdModel {
            interface_mtu: self.interface_mtu,
            options: self.options,
            init: self.init,
            more: self.more,
            master: self.master,
            db_sequence_number: self.db_sequence_number,
            lsa_header: self.lsa_header@,
        }
    }
}

pub open spec fn lsa_views(v: Seq<Lsa>) -> Seq<LsaModel> {
    v.map_values(|l: Lsa| l@)
}

impl View for LSUpdate {
    type V = LsUpdateModel;

    open spec fn view(&self) -> LsUpdateModel {
        LsUpdateModel { num_lsa: self.num_lsa, lsa: lsa_views(self.lsa@) }
    }
}

impl View for LSAcknowledge {
    type V = Seq<LsaHeader>;

    open spec fn view(&self) -> Seq<LsaHeader> {
        self.lsa_header@
    }
}

// ---------------------------------------------------------------------------
// Wire forms
pub open spec fn headers_bytes(hs: Seq<LsaHeader>) -> Seq<u8>
    decreases hs.len(),
{
    if hs.len() == 0 {
        seq![]
    } else {
        headers_bytes(hs.drop_last()) + header_bytes(hs.last())
    }
}

pub open spec fn parse_headers(s: Seq<u8>, i: int, n: nat) -> Seq<LsaHeader>
    decreases n,
{
    if n == 0 {
        seq![]
    } else {
        parse_headers(s, i, (n - 1) as nat).push(parse_header(s, i + 20 * (n - 1)))
    }
}

pub open spec fn lsas_bytes(ls: Seq<LsaModel>) -> Seq<u8>
    decreases ls.len(),
{
    if ls.len() == 0 {
        seq![]
    } else {
        lsa_bytes(ls[0]) + lsas_bytes(ls.skip(1))
    }
}

/// `n` LSAs one after the other from `i`, with the position just past them.
pub open spec fn parse_lsas(s: Seq<u8>, i: int, n: nat) -> Result<(Seq<LsaModel>, int), CodecError>
    decreases n,
{
    if n == 0 {
        Ok((seq![], i))
    } else {
        match parse_lsa_at(s, i) {
            Ok((m, e)) => match parse_lsas(s, e, (n - 1) as nat) {
                Ok((rest, e2)) => Ok((seq![m] + rest, e2)),
                Err(x) => Err(x),
            },
            Err(x) => Err(x),
        }
    }
}

/// The fixed 20 bytes of a Hello body, before the neighbor list.
pub open spec fn hello_head(h: HelloModel) -> Seq<u8> {
    be32(h.network_mask) + be16(h.hello_interval) + seq![h.options, h.router_priority] + be32(
        h.router_dead_interval,
    ) + be32(h.designated_router) + be32(h.backup_designated_router)
}

pub open spec fn hello_bytes(h: HelloModel) -> Seq<u8> {
    hello_head(h) + ips_bytes(h.neighbors)
}

/// The fixed 8 bytes of a DD body, before the LSA headers.
pub open spec fn dd_head(d: DdModel) -> Seq<u8> {
    be16(d.interface_mtu) + seq![d.options, flag_byte(d.init, d.more, d.master)] + be32(
        d.db_sequence_number,
    )
}

pub open spec fn dd_bytes(d: DdModel) -> Seq<u8> {
    dd_head(d) + headers_bytes(d.lsa_header)
}

pub open spec fn lsr_bytes(r: LSRequest) -> Seq<u8> {
    be32(r.ls_type) + be32(r.ls_id) + be32(r.advertising_router)
}

pub open spec fn lsu_bytes(u: LsUpdateModel) -> Seq<u8> {
    be32(u.num_lsa) + lsas_bytes(u.lsa)
}

pub open spec fn ack_bytes(hs: Seq<LsaHeader>) -> Seq<u8> {
    headers_bytes(hs)
}

pub open spec fn parse_hello(s: Seq<u8>) -> Result<HelloModel, CodecError> {
    if s.len() < 20 || s.len() % 4 != 0 {
        Err(CodecError::Malformed)
    } else {
        Ok(
            HelloModel {
                network_mask: rd32(s, 0),
                hello_interval: rd16(s, 4),
                options: s[6],
                router_priority: s[7],
                router_dead_interval: rd32(s, 8),
                designated_router: rd32(s, 12),
                backup_designated_router: rd32(s, 16),
                neighbors: parse_ips(s, 20, ((s.len() - 20) / 4) as nat),
            },
        )
    }
}

pub open spec fn parse_dd(s: Seq<u8>) -> Result<DdModel, CodecError> {
    if s.len() < 8 || (s.len() - 8) % 20 != 0 {
        Err(CodecError::Malformed)
    } else {
        Ok(
            DdModel {
                interface_mtu: rd16(s, 0),
                options: s[2],
                init: (s[3] / 4) % 2 == 1,
                more: (s[3] / 2) % 2 == 1,
                master: s[3] % 2 == 1,
                db_sequence_number: rd32(s, 4),
                lsa_header: parse_headers(s, 8, ((s.len() - 8) / 20) as nat),
            },
        )
    }
}

pub open spec fn parse_lsr(s: Seq<u8>) -> Result<LSRequest, CodecError> {
    if s.len() != 12 {
        Err(CodecError::Malformed)
    } else {
        Ok(LSRequest { ls_type: rd32(s, 0), ls_id: rd32(s, 4), advertising_router: rd32(s, 8) })
    }
}

pub open spec fn parse_lsu(s: Seq<u8>) -> Result<LsUpdateModel, CodecError> {
    if s.len() < 4 {
        Err(CodecError::Malformed)
    } else {
        match parse_lsas(s, 4, rd32(s, 0) as nat) {
            Ok((ls, e)) => if e == s.len() {
                Ok(LsUpdateModel { num_lsa: rd32(s, 0), lsa: ls })
            } else {
                Err(CodecError::Malformed)
            },
            Err(x) => Err(x),
        }
    }
}

pub open spec fn parse_ack(s: Seq<u8>) -> Result<Seq<LsaHeader>, CodecError> {
    if s.len() % 20 != 0 {
        Err(CodecError::Malformed)
    } else {
        Ok(parse_headers(s, 0, (s.len() / 20) as nat))
    }
}

pub open spec fn lsu_wf(u: LsUpdateModel) -> bool {
    &&& u.num_lsa == u.lsa.len()
    &&& forall|k: int| 0 <= k < u.lsa.len() ==> lsa_wf(#[trigger] u.lsa[k])
}

// ---------------------------------------------------------------------------
// Round trip of the wire forms
/// Each LSA header takes 20 bytes.
pub proof fn lemma_headers_len(hs: Seq<LsaHeader>)
    ensures
        headers_bytes(hs).len() == 20 * hs.len(),
    decreases hs.len(),
{
    if hs.len() > 0 {
        lemma_headers_len(hs.drop_last());
    }
}

/// LSA headers written at `i` are read back unchanged.
pub proof fn lemma_headers_round_trip(s: Seq<u8>, i: int, hs: Seq<LsaHeader>)
    requires
        0 <= i,
        i + 20 * hs.len() <= s.len(),
        s.subrange(i, i + 20 * hs.len()) == headers_bytes(hs),
    ensures
        parse_headers(s, i, hs.len()) == hs,
    decreases hs.len(),
{
    if hs.len() > 0 {
        let n = hs.len() - 1;
        let t = headers_bytes(hs);
        lemma_headers_len(hs);
        lemma_headers_len(hs.drop_last());
        lemma_piece(s, i, t, 0, 20 * n);
        assert(t.subrange(0, 20 * n) =~= headers_bytes(hs.drop_last()));
        lemma_headers_round_trip(s, i, hs.drop_last());
        lemma_piece(s, i, t, 20 * n, 20 * n + 20);
        assert(t.subrange(20 * n, 20 * n + 20) =~= header_bytes(hs.last()));
        lemma_header_round_trip(s, i + 20 * n, hs.last());
        assert(parse_headers(s, i, hs.len()) =~= hs);
    }
}

/// Appending an LSA appends its wire form.
pub proof fn lemma_lsas_push(ls: Seq<LsaModel>, m: LsaModel)
    ensures
        lsas_bytes(ls.push(m)) == lsas_bytes(ls) + lsa_bytes(m),
    decreases ls.len(),
{
    let p = ls.push(m);
    assert(p[0] == if ls.len() == 0 { m } else { ls[0] });
    if ls.len() == 0 {
        assert(p.skip(1) =~= Seq::<LsaModel>::empty());
        assert(lsas_bytes(p) == lsa_bytes(m) + lsas_bytes(p.skip(1)));
        assert(lsas_bytes(p) =~= lsas_bytes(ls) + lsa_bytes(m));
    } else {
        lemma_lsas_push(ls.skip(1), m);
        assert(p.skip(1) =~= ls.skip(1).push(m));
        assert(lsas_bytes(p) == lsa_bytes(ls[0]) + lsas_bytes(ls.skip(1).push(m)));
        assert(lsas_bytes(ls) == lsa_bytes(ls[0]) + lsas_bytes(ls.skip(1)));
        assert(lsas_bytes(p) =~= lsas_bytes(ls) + lsa_bytes(m));
    }
}

/// Well-formed LSAs written one after the other at `i` are read back unchanged.
pub proof fn lemma_lsas_round_trip(s: Seq<u8>, i: int, ls: Seq<LsaModel>)
    requires
        0 <= i,
        forall|k: int| 0 <= k < ls.len() ==> lsa_wf(#[trigger] ls[k]),
        i + lsas_bytes(ls).len() <= s.len(),
        s.subrange(i, i + lsas_bytes(ls).len()) == lsas_bytes(ls),
    ensures
        parse_lsas(s, i, ls.len()) == Ok::<(Seq<LsaModel>, int), CodecError>(
            (ls, i + lsas_bytes(ls).len()),
        ),
    decreases ls.len(),
{
    if ls.len() > 0 {
        let t = lsas_bytes(ls);
        let a = lsa_bytes(ls[0]);
        let rest = ls.skip(1);
        assert(t == a + lsas_bytes(rest));
        assert(lsa_wf(ls[0]));
        lemma_piece(s, i, t, 0, a.len() as int);
        assert(t.subrange(0, a.len() as int) =~= a);
        lemma_lsa_at_round_trip(s, i, ls[0]);
        assert forall|k: int| 0 <= k < rest.len() implies lsa_wf(#[trigger] rest[k]) by {
            assert(rest[k] == ls[k + 1]);
        }
        lemma_piece(s, i, t, a.len() as int, t.len() as int);
        assert(t.subrange(a.len() as int, t.len() as int) =~= lsas_bytes(rest));
        lemma_lsas_round_trip(s, i + a.len(), rest);
        assert(rest.len() == (ls.len() - 1) as nat);
        assert(seq![ls[0]] + rest =~= ls);
        assert(parse_lsa_at(s, i) == Ok::<(LsaModel, int), CodecError>((ls[0], i + a.len())));
        assert(parse_lsas(s, i + a.len(), (ls.len() - 1) as nat) == Ok::<
            (Seq<LsaModel>, int),
            CodecError,
        >((rest, i + a.len() + lsas_bytes(rest).len())));
    } else {
        assert(ls =~= Seq::<LsaModel>::empty());
    }
}

/// `a + b` holds `a` at 0 and `b` just after it.
pub proof fn lemma_concat(a: Seq<u8>, b: Seq<u8>)
    ensures
        (a + b).subrange(0, a.len() as int) == a,
        (a + b).subrange(a.len() as int, (a + b).len() as int) == b,
{
    assert((a + b).subrange(0, a.len() as int) =~= a);
    assert((a + b).subrange(a.len() as int, (a + b).len() as int) =~= b);
}

proof fn lemma_hello_head(t: Seq<u8>, h: HelloModel)
    requires
        20 <= t.len(),
        t.subrange(0, 20) == hello_head(h),
    ensures
        rd32(t, 0) == h.network_mask,
        rd16(t, 4) == h.hello_interval,
        t[6] == h.options,
        t[7] == h.router_priority,
        rd32(t, 8) == h.router_dead_interval,
        rd32(t, 12) == h.designated_router,
        rd32(t, 16) == h.backup_designated_router,
{
    let f = hello_head(h);
    assert(f.subrange(0, 4) =~= be32(h.network_mask));
    lemma_piece(t, 0, f, 0, 4);
    lemma_rd32(t, 0, h.network_mask);
    assert(f.subrange(4, 6) =~= be16(h.hello_interval));
    lemma_piece(t, 0, f, 4, 6);
    lemma_rd16(t, 4, h.hello_interval);
    assert(t.subrange(0, 20)[6] == t[6] && t.subrange(0, 20)[7] == t[7]);
    assert(f.subrange(8, 12) =~= be32(h.router_dead_interval));
    lemma_piece(t, 0, f, 8, 12);
    lemma_rd32(t, 8, h.router_dead_interval);
    assert(f.subrange(12, 16) =~= be32(h.designated_router));
    lemma_piece(t, 0, f, 12, 16);
    lemma_rd32(t, 12, h.designated_router);
    assert(f.subrange(16, 20) =~= be32(h.backup_designated_router));
    lemma_piece(t, 0, f, 16, 20);
    lemma_rd32(t, 16, h.backup_designated_router);
}

/// Decoding the wire form of a Hello body gives it back.
pub proof fn lemma_hello_round_trip(h: HelloModel)
    ensures
        parse_hello(hello_bytes(h)) == Ok::<HelloModel, CodecError>(h),
{
    let t = hello_bytes(h);
    lemma_ips_len(h.neighbors);
    lemma_concat(hello_head(h), ips_bytes(h.neighbors));
    lemma_hello_head(t, h);
    lemma_ips_round_trip(t, 20, h.neighbors);
    assert((t.len() - 20) / 4 == h.neighbors.len());
}

proof fn lemma_dd_head(t: Seq<u8>, d: DdModel)
    requires
        8 <= t.len(),
        t.subrange(0, 8) == dd_head(d),
    ensures
        rd16(t, 0) == d.interface_mtu,
        t[2] == d.options,
        (t[3] / 4) % 2 == 1 <==> d.init,
        (t[3] / 2) % 2 == 1 <==> d.more,
        t[3] % 2 == 1 <==> d.master,
        rd32(t, 4) == d.db_sequence_number,
{
    let f = dd_head(d);
    assert(f.subrange(0, 2) =~= be16(d.interface_mtu));
    lemma_piece(t, 0, f, 0, 2);
    lemma_rd16(t, 0, d.interface_mtu);
    assert(t.subrange(0, 8)[2] == t[2] && t.subrange(0, 8)[3] == t[3]);
    lemma_flags(d.init, d.more, d.master);
    assert(f.subrange(4, 8) =~= be32(d.db_sequence_number));
    lemma_piece(t, 0, f, 4, 8);
    lemma_rd32(t, 4, d.db_sequence_number);
}

/// Decoding the wire form of a Database Description body gives it back.
pub proof fn lemma_dd_round_trip(d: DdModel)
    ensures
        parse_dd(dd_bytes(d)) == Ok::<DdModel, CodecError>(d),
{
    let t = dd_bytes(d);
    lemma_headers_len(d.lsa_header);
    lemma_concat(dd_head(d), headers_bytes(d.lsa_header));
    lemma_dd_head(t, d);
    lemma_headers_round_trip(t, 8, d.lsa_header);
    assert((t.len() - 8) / 20 == d.lsa_header.len());
}

/// Decoding the wire form of a Link State Request body gives it back.
pub proof fn lemma_lsr_round_trip(r: LSRequest)
    ensures
        parse_lsr(lsr_bytes(r)) == Ok::<LSRequest, CodecError>(r),
{
    let t = lsr_bytes(r);
    assert(t.subrange(0, 4) =~= be32(r.ls_type));
    lemma_rd32(t, 0, r.ls_type);
    assert(t.subrange(4, 8) =~= be32(r.ls_id));
    lemma_rd32(t, 4, r.ls_id);
    assert(t.subrange(8, 12) =~= be32(r.advertising_router));
    lemma_rd32(t, 8, r.advertising_router);
}

/// Decoding the wire form of a well-formed Link State Update body gives it back.
pub proof fn lemma_lsu_round_trip(u: LsUpdateModel)
    requires
        lsu_wf(u),
    ensures
        parse_lsu(lsu_bytes(u)) == Ok::<LsUpdateModel, CodecError>(u),
{
    let t = lsu_bytes(u);
    assert(t.subrange(0, 4) =~= be32(u.num_lsa));
    lemma_rd32(t, 0, u.num_lsa);
    assert(t.subrange(4, t.len() as int) =~= lsas_bytes(u.lsa));
    lemma_lsas_round_trip(t, 4, u.lsa);
}

/// Decoding the wire form of a Link State Acknowledgment body gives it back.
pub proof fn lemma_ack_round_trip(hs: Seq<LsaHeader>)
    ensures
        parse_ack(ack_bytes(hs)) == Ok::<Seq<LsaHeader>, CodecError>(hs),
{
    let t = ack_bytes(hs);
    lemma_headers_len(hs);
    assert(t.subrange(0, t.len() as int) =~= t);
    lemma_headers_round_trip(t, 0, hs);
}

// ---------------------------------------------------------------------------
// Encoding and decoding
fn write_ips(ips: &Vec<u32>, buf: &mut Vec<u8>)
    ensures
        final(buf)@ == old(buf)@ + ips_bytes(ips@),
{
    let mut k: usize = 0;
    while k < ips.len()
        invariant
            k <= ips@.len(),
            buf@ == old(buf)@ + ips_bytes(ips@.subrange(0, k as int)),
        decreases ips@.len() - k,
    {
        put_u32(buf, ips[k]);
        assert(ips@.subrange(0, k + 1).drop_last() =~= ips@.subrange(0, k as int));
        assert(buf@ =~= old(buf)@ + ips_bytes(ips@.subrange(0, k + 1)));
        k = k + 1;
    }
    assert(ips@.subrange(0, k as int) =~= ips@);
}

fn read_ips(buf: &[u8], i: usize, n: usize) -> (r: Vec<u32>)
    requires
        i + 4 * n <= buf@.len(),
    ensures
        r@ == parse_ips(buf@, i as int, n as nat),
{
    let blen = buf.len();
    let mut v: Vec<u32> = Vec::new();
    let mut k: usize = 0;
    while k < n
        invariant
            blen == buf@.len(),
            k <= n,
            i + 4 * n <= buf@.len(),
            v@ == parse_ips(buf@, i as int, k as nat),
        decreases n - k,
    {
        v.push(get_u32(buf, i + 4 * k));
        k = k + 1;
    }
    v
}

fn write_headers(hs: &Vec<LsaHeader>, buf: &mut Vec<u8>)
    ensures
        final(buf)@ == old(buf)@ + headers_bytes(hs@),
{
    let mut k: usize = 0;
    while k < hs.len()
        invariant
            k <= hs@.len(),
            buf@ == old(buf)@ + headers_bytes(hs@.subrange(0, k as int)),
        decreases hs@.len() - k,
    {
        hs[k].write_to(buf);
        assert(hs@.subrange(0, k + 1).drop_last() =~= hs@.subrange(0, k as int));
        assert(buf@ =~= old(buf)@ + headers_bytes(hs@.subrange(0, k + 1)));
        k = k + 1;
    }
    assert(hs@.subrange(0, k as int) =~= hs@);
}

fn read_headers(buf: &[u8], i: usize, n: usize) -> (r: Vec<LsaHeader>)
    requires
        i + 20 * n <= buf@.len(),
    ensures
        r@ == parse_headers(buf@, i as int, n as nat),
{
    let blen = buf.len();
    let mut v: Vec<LsaHeader> = Vec::new();
    let mut k: usize = 0;
    while k < n
        invariant
            blen == buf@.len(),
            k <= n,
            i + 20 * n <= buf@.len(),
            v@ == parse_headers(buf@, i as int, k as nat),
        decreases n - k,
    {
        v.push(LsaHeader::read_from(buf, i + 20 * k));
        k = k + 1;
    }
    v
}

impl HelloPacket {
    pub fn to_bytes(&self) -> (r: Vec<u8>)
        ensures
            r@ == hello_bytes(self@),
    {
        let mut buf: Vec<u8> = Vec::new();
        put_u32(&mut buf, self.network_mask);
        put_u16(&mut buf, self.hello_interval);
        put_u8(&mut buf, self.options);
        put_u8(&mut buf, self.router_priority);
        put_u32(&mut buf, self.router_dead_interval);
        put_u32(&mut buf, self.designated_router);
        put_u32(&mut buf, self.backup_designated_router);
        assert(buf@ =~= hello_head(self@));
        write_ips(&self.neighbors, &mut buf);
        buf
    }

    pub fn from_bytes(buf: &[u8]) -> (r: Result<HelloPacket, CodecError>)
        ensures
            match r {
                Ok(h) => parse_hello(buf@) == Ok::<HelloModel, CodecError>(h@),
                Err(x) => parse_hello(buf@) == Err::<HelloModel, CodecError>(x),
            },
    {
        let n = buf.len();
        if n < 20 || n % 4 != 0 {
            return Err(CodecError::Malformed);
        }
        Ok(
            HelloPacket {
                network_mask: get_u32(buf, 0),
                hello_interval: get_u16(buf, 4),
                options: buf[6],
                router_priority: buf[7],
                router_dead_interval: get_u32(buf, 8),
                designated_router: get_u32(buf, 12),
                backup_designated_router: get_u32(buf, 16),
                neighbors: read_ips(buf, 20, (n - 20) / 4),
            },
        )
    }

    /// True when the option bits in `option` are set.
    pub fn is_set(&self, option: u8) -> (r: bool)
        ensures
            r == (self.options & option != 0),
    {
        self.options & option != 0
    }
}

impl DBDescription {
    pub fn to_bytes(&self) -> (r: Vec<u8>)
        ensures
            r@ == dd_bytes(self@),
    {
        let mut buf: Vec<u8> = Vec::new();
        put_u16(&mut buf, self.interface_mtu);
        put_u8(&mut buf, self.options);
        let flags: u8 = (if self.init { 4u8 } else { 0u8 }) + (if self.more { 2u8 } else { 0u8 }) + (
        if self.master { 1u8 } else { 0u8 });
        put_u8(&mut buf, flags);
        put_u32(&mut buf, self.db_sequence_number);
        assert(buf@ =~= dd_head(self@));
        write_headers(&self.lsa_header, &mut buf);
        buf
    }

    pub fn from_bytes(buf: &[u8]) -> (r: Result<DBDescription, CodecError>)
        ensures
            match r {
                Ok(d) => parse_dd(buf@) == Ok::<DdModel, CodecError>(d@),
                Err(x) => parse_dd(buf@) == Err::<DdModel, CodecError>(x),
            },
    {
        let n = buf.len();
        if n < 8 || (n - 8) % 20 != 0 {
            return Err(CodecError::Malformed);
        }
        let f = buf[3];
        Ok(
            DBDescription {
                interface_mtu: get_u16(buf, 0),
                options: buf[2],
                init: (f / 4) % 2 == 1,
                more: (f / 2) % 2 == 1,
                master: f % 2 == 1,
                db_sequence_number: get_u32(buf, 4),
                lsa_header: read_headers(buf, 8, (n - 8) / 20),
            },
        )
    }
}

impl LSRequest {
    pub fn to_bytes(&self) -> (r: Vec<u8>)
        ensures
            r@ == lsr_bytes(*self),
    {
        let mut buf: Vec<u8> = Vec::new();
        put_u32(&mut buf, self.ls_type);
        put_u32(&mut buf, self.ls_id);
        put_u32(&mut buf, self.advertising_router);
        assert(buf@ =~= lsr_bytes(*self));
        buf
    }

    pub fn from_bytes(buf: &[u8]) -> (r: Result<LSRequest, CodecError>)
        ensures
            match r {
                Ok(q) => parse_lsr(buf@) == Ok::<LSRequest, CodecError>(q),
                Err(x) => parse_lsr(buf@) == Err::<LSRequest, CodecError>(x),
            },
    {
        if buf.len() != 12 {
            return Err(CodecError::Malformed);
        }
        Ok(
            LSRequest {
                ls_type: get_u32(buf, 0),
                ls_id: get_u32(buf, 4),
                advertising_router: get_u32(buf, 8),
            },
        )
    }
}

impl LSUpdate {
    pub fn to_bytes(&self) -> (r: Vec<u8>)
        ensures
            r@ == lsu_bytes(self@),
    {
        let mut buf: Vec<u8> = Vec::new();
        put_u32(&mut buf, self.num_lsa);
        let ghost head = buf@;
        let mut k: usize = 0;
        while k < self.lsa.len()
            invariant
                k <= self.lsa@.len(),
                head == be32(self.num_lsa),
                buf@ == head + lsas_bytes(self@.lsa.subrange(0, k as int)),
            decreases self.lsa@.len() - k,
        {
            self.lsa[k].write_to(&mut buf);
            proof {
                lemma_lsas_push(self@.lsa.subrange(0, k as int), self.lsa@[k as int]@);
                assert(self@.lsa.subrange(0, k as int).push(self.lsa@[k as int]@) =~= self@.lsa.subrange(0, k + 1));
            }
            assert(buf@ =~= head + lsas_bytes(self@.lsa.subrange(0, k + 1)));
            k = k + 1;
        }
        assert(self@.lsa.subrange(0, k as int) =~= self@.lsa);
        buf
    }

    pub fn from_bytes(buf: &[u8]) -> (r: Result<LSUpdate, CodecError>)
        ensures
            match r {
                Ok(u) => parse_lsu(buf@) == Ok::<LsUpdateModel, CodecError>(u@),
                Err(x) => parse_lsu(buf@) == Err::<LsUpdateModel, CodecError>(x),
            },
    {
        let n = buf.len();
        if n < 4 {
            return Err(CodecError::Malformed);
        }
        let num = get_u32(buf, 0);
        let mut v: Vec<Lsa> = Vec::new();
        let mut pos: usize = 4;
        let mut k: u32 = 0;
        while k < num
            invariant
                n == buf@.len(),
                num == rd32(buf@, 0),
                k <= num,
                4 <= pos <= n,
                parse_lsas(buf@, 4, num as nat) == (match parse_lsas(buf@, pos as int, (num - k) as nat) {
                    Ok((rest, e)) => Ok((lsa_views(v@) + rest, e)),
                    Err(x) => Err::<(Seq<LsaModel>, int), CodecError>(x),
                }),
            decreases num - k,
        {
            match Lsa::read_from(buf, pos) {
                Ok((l, e)) => {
                    let ghost old_acc = lsa_views(v@);
                    v.push(l);
                    pos = e;
                    k = k + 1;
                    proof {
                        assert(lsa_views(v@) =~= old_acc + seq![l@]);
                        match parse_lsas(buf@, pos as int, (num - k) as nat) {
                            Ok((rest, e2)) => {
                                assert(old_acc + (seq![l@] + rest) =~= lsa_views(v@) + rest);
                            },
                            Err(_) => {},
                        }
                    }
                },
                Err(x) => {
                    return Err(x);
                },
            }
        }
        if pos != n {
            return Err(CodecError::Malformed);
        }
        assert(lsa_views(v@) + Seq::<LsaModel>::empty() =~= lsa_views(v@));
        Ok(LSUpdate { num_lsa: num, lsa: v })
    }
}

impl LSAcknowledge {
    pub fn to_bytes(&self) -> (r: Vec<u8>)
        ensures
            r@ == ack_bytes(self@),
    {
        let mut buf: Vec<u8> = Vec::new();
        write_headers(&self.lsa_header, &mut buf);
        assert(buf@ =~= ack_bytes(self@));
        buf
    }

    pub fn from_bytes(buf: &[u8]) -> (r: Result<LSAcknowledge, CodecError>)
        ensures
            match r {
                Ok(a) => parse_ack(buf@) == Ok::<Seq<LsaHeader>, CodecError>(a@),
                Err(x) => parse_ack(buf@) == Err::<Seq<LsaHeader>, CodecError>(x),
            },
    {
        let n = buf.len();
        if n % 20 != 0 {
            return Err(CodecError::Malformed);
        }
        Ok(LSAcknowledge { lsa_header: read_headers(buf, 0, n / 20) })
    }
}

} // verus!
