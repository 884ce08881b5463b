//! The bodies of the LSAs this router originates.

use vstd::prelude::*;
use crate::lsa::{
    RouterLSA, RouterLSALink, NetworkLSA, TRANSIT_LINK, STUB_LINK, Lsa, LsaData, LsaHeader, LsaModel,
    LSA_MAX_AGE, data_bytes, data_type, data_wf, lsa_wf, lsa_bytes, lsa_checksum, fletcher_c0,
    fletcher_c1,
};
use crate::flooding::{next_sequence_number, SequenceStep, INITIAL_SEQUENCE_NUMBER, MAX_SEQUENCE_NUMBER};
use crate::packet::OPTION_E;
use crate::lsa::{LsaDataModel, LsaIndex, header_index, AS_EXTERNAL_LSA};
use crate::lsdb::{Area, LsaTable, EntryModel, scope_get, aged, needs_update, lemma_scope_key};
use crate::interface::InterfaceState;

verus! {

/// What Router-LSA origination needs to know of one interface.
#[derive(Clone, Copy, Debug, PartialEq, Eq, Structural)]
pub struct InterfaceSummary {
    pub area_id: u32,
    pub state: InterfaceState,
    pub ip: u32,
    pub mask: u32,
    pub cost: u16,
    pub dr: u32,
    /// This router is the DR and at least one neighbor there is fully adjacent.
    pub dr_with_neighbors: bool,
    /// This router is fully adjacent to the DR.
    pub full_with_dr: bool,
}

/// The link an interface contributes to the Router-LSA of its area: a
/// transit link when the network has an adjacency to or from its DR, a
/// stub link otherwise; none for interfaces down, in loopback, or in
/// another area.
pub open spec fn link_of(i: InterfaceSummary, area: u32) -> Option<RouterLSALink> {
    if i.area_id != area || i.state == InterfaceState::Down || i.state == InterfaceState::Loopback {
        None
    } else if i.dr_with_neighbors || i.full_with_dr {
        Some(RouterLSALink { link_id: i.dr, link_data: i.ip, link_type: TRANSIT_LINK, tos: 0, metric: i.cost })
    } else {
        Some(RouterLSALink { link_id: i.ip, link_data: i.mask, link_type: STUB_LINK, tos: 0, metric: i.cost })
    }
}

pub open spec fn links_of(ifs: Seq<InterfaceSummary>, area: u32) -> Seq<RouterLSALink>
    decreases ifs.len(),
{
    if ifs.len() == 0 {
        seq![]
    } else {
        match link_of(ifs.last(), area) {
            Some(l) => links_of(ifs.drop_last(), area).push(l),
            None => links_of(ifs.drop_last(), area),
        }
    }
}

proof fn lemma_links_of_len(ifs: Seq<InterfaceSummary>, area: u32)
    ensures
        links_of(ifs, area).len() <= ifs.len(),
    decreases ifs.len(),
{
    if ifs.len() > 0 {
        lemma_links_of_len(ifs.drop_last(), area);
    }
}

/// The Router-LSA body for `area`: B set on an area border router, E on an
/// AS boundary router, one link per interface of the area that is up.
pub fn gen_router_lsa(ifs: &Vec<InterfaceSummary>, area: u32, border: bool, boundary: bool) -> (r: RouterLSA)
    requires
        ifs@.len() <= 0xffff,
    ensures
        r.links@ == links_of(ifs@, area),
        r.num_links as int == r.links@.len(),
        r.b == border,
        r.e == boundary,
        !r.v,
{
    let mut links: Vec<RouterLSALink> = Vec::new();
    let mut k: usize = 0;
    while k < ifs.len()
        invariant
            k <= ifs@.len(),
            ifs@.len() <= 0xffff,
            links@ == links_of(ifs@.subrange(0, k as int), area),
        decreases ifs@.len() - k,
    {
        let i = ifs[k];
        assert(ifs@.subrange(0, k + 1).drop_last() =~= ifs@.subrange(0, k as int));
        if i.area_id == area && !matches!(i.state, InterfaceState::Down | InterfaceState::Loopback) {
            if i.dr_with_neighbors || i.full_with_dr {
                links.push(RouterLSALink { link_id: i.dr, link_data: i.ip, link_type: TRANSIT_LINK, tos: 0, metric: i.cost });
            } else {
                links.push(RouterLSALink { link_id: i.ip, link_data: i.mask, link_type: STUB_LINK, tos: 0, metric: i.cost });
            }
        }
        k = k + 1;
    }
    assert(ifs@.subrange(0, k as int) =~= ifs@);
    proof {
        lemma_links_of_len(ifs@, area);
    }
    let n = links.len() as u16;
    RouterLSA { v: false, e: boundary, b: border, num_links: n, links }
}

/// The Network-LSA body of a network: only its DR originates one, and only
/// when at least one neighbor is fully adjacent. It lists the router ids of
/// the fully adjacent neighbors followed by this router's own.
pub fn gen_network_lsa(is_dr: bool, mask: u32, full_neighbors: &Vec<u32>, router_id: u32) -> (r: Option<NetworkLSA>)
    ensures
        match r {
            Some(n) => is_dr && full_neighbors@.len() >= 1 && n.network_mask == mask
                && n.attached_routers@ == full_neighbors@.push(router_id),
            None => !is_dr || full_neighbors@.len() == 0,
        },
{
    if !is_dr {
        return None;
    }
    if full_neighbors.len() == 0 {
        return None;
    }
    let mut routers: Vec<u32> = Vec::new();
    let mut k: usize = 0;
    while k < full_neighbors.len()
        invariant
            k <= full_neighbors@.len(),
            routers@ == full_neighbors@.subrange(0, k as int),
        decreases full_neighbors@.len() - k,
    {
        routers.push(full_neighbors[k]);
        assert(routers@ =~= full_neighbors@.subrange(0, k + 1));
        k = k + 1;
    }
    routers.push(router_id);
    assert(routers@ =~= full_neighbors@.push(router_id));
    Some(NetworkLSA { network_mask: mask, attached_routers: routers })
}

/// Seconds after which a self-originated LSA is originated anew even when
/// its contents did not change.
pub const LS_REFRESH_TIME: u16 = 1800;

/// What originating an LSA comes to.
#[derive(Debug)]
pub enum Origination {
    /// The stored instance has the same contents and is younger than
    /// LSRefreshTime: nothing to do.
    Unchanged,
    /// Install and flood this new instance.
    Install(Lsa),
    /// Flood this copy of the stored instance at MaxAge first: its
    /// sequence number cannot grow.
    Flush(Lsa),
    /// The LSA would not fit the 16-bit length field.
    TooLong,
}

/// The header of a self-originated LSA before its checksum is set.
pub open spec fn own_header(ls_type: u8, link_state_id: u32, router_id: u32, external_routing: bool, seq: i32, len: nat) -> LsaHeader {
    LsaHeader {
        ls_age: 0,
        options: if external_routing { OPTION_E } else { 0 },
        ls_type,
        link_state_id,
        advertising_router: router_id,
        ls_sequence_number: seq,
        ls_checksum: 0,
        length: (20 + len) as u16,
    }
}

fn bytes_equal(a: &Vec<u8>, b: &Vec<u8>) -> (r: bool)
    ensures
        r == (a@ == b@),
{
    if a.len() != b.len() {
        return false;
    }
    let mut i: usize = 0;
    while i < a.len()
        invariant
            a@.len() == b@.len(),
            i <= a@.len(),
            forall|j: int| 0 <= j < i ==> a@[j] == b@[j],
        decreases a@.len() - i,
    {
        if a[i] != b[i] {
            return false;
        }
        i = i + 1;
    }
    assert(a@ =~= b@);
    true
}

/// Originates the LSA of type `ls_type` with id `link_state_id` and body
/// `data`, given the stored instance `previous` (its age brought up to
/// now): age 0, the E option when external routing is carried, sequence
/// number one past the previous (or the initial one), length and
/// Fletcher checksum set.
pub fn originate(
    ls_type: u8,
    link_state_id: u32,
    router_id: u32,
    external_routing: bool,
    data: LsaData,
    previous: &Option<Lsa>,
) -> (r: Origination)
    requires
        data_type(data@) == ls_type,
        data_wf(data@),
    ensures
        match r {
            Origination::Install(l) => originate_spec(ls_type, link_state_id, router_id, external_routing, data@, model_of(previous)) == Some(l@),
            Origination::Flush(l) => originate_spec(ls_type, link_state_id, router_id, external_routing, data@, model_of(previous)) == Some(l@),
            _ => originate_spec(ls_type, link_state_id, router_id, external_routing, data@, model_of(previous)) is None,
        },
        ({
            let same = match previous {
                Some(p) => p.header.ls_age < LS_REFRESH_TIME && data_bytes(p.data@) == data_bytes(data@),
                None => false,
            };
            let len = data_bytes(data@).len();
            if same {
                r is Unchanged
            } else if len + 20 > 0xffff {
                r is TooLong
            } else {
                match next_seq_spec(previous) {
                    None => match r {
                        Origination::Flush(l) => l@ == (LsaModel {
                            header: LsaHeader { ls_age: LSA_MAX_AGE, ..previous.unwrap().header },
                            ..previous.unwrap()@
                        }),
                        _ => false,
                    },
                    Some(seq) => match r {
                        Origination::Install(l) => {
                            let h0 = own_header(ls_type, link_state_id, router_id, external_routing, seq, len);
                            &&& l@ == (LsaModel {
                                header: LsaHeader { ls_checksum: lsa_checksum(LsaModel { header: h0, data: data@ }), ..h0 },
                                data: data@,
                            })
                            &&& lsa_wf(l@)
                            &&& l.header.ls_checksum == lsa_checksum(l@)
                            &&& fletcher_c0(lsa_bytes(l@).subrange(2, lsa_bytes(l@).len() as int)) == 0
                            &&& fletcher_c1(lsa_bytes(l@).subrange(2, lsa_bytes(l@).len() as int)) == 0
                        },
                        _ => false,
                    },
                }
            }
        }),
{
    let new_bytes = data.to_bytes();
    match previous {
        Some(p) => {
            if p.header.ls_age < LS_REFRESH_TIME {
                let old_bytes = p.data.to_bytes();
                if bytes_equal(&old_bytes, &new_bytes) {
                    return Origination::Unchanged;
                }
            }
        },
        None => {},
    }
    if new_bytes.len() > 0xffff - 20 {
        return Origination::TooLong;
    }
    let prev_seq = match previous {
        Some(p) => Some(p.header.ls_sequence_number),
        None => None,
    };
    match next_sequence_number(prev_seq) {
        SequenceStep::Flush => {
            let p = previous.as_ref().unwrap();
            let mut l = p.duplicate();
            l.header.ls_age = LSA_MAX_AGE;
            Origination::Flush(l)
        },
        SequenceStep::Use(seq) => {
            let mut l = Lsa {
                header: LsaHeader {
                    ls_age: 0,
                    options: if external_routing { OPTION_E } else { 0 },
                    ls_type,
                    link_state_id,
                    advertising_router: router_id,
                    ls_sequence_number: seq,
                    ls_checksum: 0,
                    length: 0,
                },
                data,
            };
            l.update_length();
            assert(lsa_bytes(l@).len() == 20 + data_bytes(l@.data).len());
            l.update_checksum();
            Origination::Install(l)
        },
    }
}

/// The sequence number `originate` uses: `None` when the previous instance
/// must be flushed first.
pub open spec fn next_seq_spec(previous: &Option<Lsa>) -> Option<i32> {
    match previous {
        None => Some(INITIAL_SEQUENCE_NUMBER),
        Some(p) => if p.header.ls_sequence_number == MAX_SEQUENCE_NUMBER {
            None
        } else {
            Some((p.header.ls_sequence_number + 1) as i32)
        },
    }
}

pub open spec fn model_of(l: &Option<Lsa>) -> Option<LsaModel> {
    match l {
        Some(x) => Some(x@),
        None => None,
    }
}

/// The LSA `originate` produces (a new instance, or the stored one at
/// MaxAge to flush), or `None` when there is nothing to install.
pub open spec fn originate_spec(
    ls_type: u8,
    link_state_id: u32,
    router_id: u32,
    external_routing: bool,
    data: LsaDataModel,
    previous: Option<LsaModel>,
) -> Option<LsaModel> {
    let same = match previous {
        Some(p) => p.header.ls_age < LS_REFRESH_TIME && data_bytes(p.data) == data_bytes(data),
        None => false,
    };
    let len = data_bytes(data).len();
    if same || len + 20 > 0xffff {
        None
    } else {
        match previous {
            Some(p) => if p.header.ls_sequence_number == MAX_SEQUENCE_NUMBER {
                Some(LsaModel { header: LsaHeader { ls_age: LSA_MAX_AGE, ..p.header }, ..p })
            } else {
                let h0 = own_header(ls_type, link_state_id, router_id, external_routing, (p.header.ls_sequence_number + 1) as i32, len);
                Some(LsaModel { header: LsaHeader { ls_checksum: lsa_checksum(LsaModel { header: h0, data }), ..h0 }, data })
            },
            None => {
                let h0 = own_header(ls_type, link_state_id, router_id, external_routing, INITIAL_SEQUENCE_NUMBER, len);
                Some(LsaModel { header: LsaHeader { ls_checksum: lsa_checksum(LsaModel { header: h0, data }), ..h0 }, data })
            },
        }
    }
}

/// The stored instance of `k` as `originate` sees it: aged to `now`.
pub open spec fn stored_model(area: &Area, ext: &LsaTable, k: LsaIndex, now: u64) -> Option<LsaModel> {
    match scope_get(area, ext, k) {
        Some(m) => Some(aged(m.lsa, m.created_at, now)),
        None => None,
    }
}

/// Originates this router's LSA of type `ls_type` (1 to 4) and id
/// `link_state_id` with body `data` into `area`: builds it from the stored
/// instance with `originate`, and stores it when it is newer than that
/// instance. Returns the LSA stored, to be flooded.
pub fn install_own(
    area: &mut Area,
    ext: &mut LsaTable,
    ls_type: u8,
    link_state_id: u32,
    router_id: u32,
    external_routing: bool,
    data: LsaData,
    now: u64,
) -> (r: Option<Lsa>)
    requires
        old(area).wf(),
        old(ext).wf(),
        data_type(data@) == ls_type,
        data_wf(data@),
        ls_type != AS_EXTERNAL_LSA,
    ensures
        final(area).wf(),
        final(ext).wf(),
        final(area).area_id == old(area).area_id,
        final(area).external_routing_capability == old(area).external_routing_capability,
        final(ext).entries@ == old(ext).entries@,
        ({
            let key = LsaIndex { ls_type, ls_id: link_state_id, ad_router: router_id };
            let o = originate_spec(ls_type, link_state_id, router_id, external_routing, data@, stored_model(old(area), old(ext), key, now));
            match r {
                Some(l) => {
                    &&& o == Some(l@)
                    &&& header_index(l.header) == key
                    &&& needs_update(old(area), old(ext), l.header, now)
                    &&& scope_get(final(area), final(ext), key) == Some(EntryModel { lsa: l@, created_at: now, last_sent_at: now })
                    &&& forall|k: LsaIndex| k != key ==> #[trigger] scope_get(final(area), final(ext), k) == scope_get(old(area), old(ext), k)
                },
                None => {
                    &&& (o is None || !needs_update(old(area), old(ext), o.unwrap().header, now))
                    &&& final(area).lsa_database.entries@ == old(area).lsa_database.entries@
                },
            }
        }),
{
    let key = LsaIndex::new(ls_type, link_state_id, router_id);
    let prev = match area.get_lsa(ext, &key, now) {
        Some((l, _, _)) => Some(l),
        None => None,
    };
    proof {
        match scope_get(area, ext, key) {
            Some(m) => {
                lemma_scope_key(area, ext, key);
            },
            None => {},
        }
    }
    let l = match originate(ls_type, link_state_id, router_id, external_routing, data, &prev) {
        Origination::Install(l) => l,
        Origination::Flush(l) => l,
        _ => {
            return None;
        },
    };
    if !area.need_update(ext, &l.header, now) {
        return None;
    }
    let stored = l.duplicate();
    area.insert_lsa(ext, stored, now);
    Some(l)
}

} // verus!
