//! The routing table: its items, the order that picks the better of two
//! paths, longest-prefix lookup, and the routes derived from Summary- and
//! AS-External-LSAs.

use vstd::prelude::*;
use crate::lsa::{LsaHeader, LsaIndex, SummaryLSA, AsExternalLSA, header_index, SUMMARY_IP_LSA, SUMMARY_ASBR_LSA};

verus! {

/// Metric value meaning "unreachable".
pub const LS_INFINITY: u32 = 0xff_ffff;
pub const BACKBONE_AREA: u32 = 0;

#[derive(Clone, Copy, Debug, PartialEq, Eq, Structural)]
pub enum RoutingTableItemType {
    Network,
    Router,
}

/// Path types, from most to least preferred.
#[derive(Clone, Copy, Debug, PartialEq, Eq, Structural)]
pub enum RoutingTablePathType {
    AreaInternal,
    AreaExternal,
    AsExternalT1,
    AsExternalT2,
}

pub open spec fn path_rank(p: RoutingTablePathType) -> int {
    match p {
        RoutingTablePathType::AreaInternal => 0,
        RoutingTablePathType::AreaExternal => 1,
        RoutingTablePathType::AsExternalT1 => 2,
        RoutingTablePathType::AsExternalT2 => 3,
    }
}

impl RoutingTablePathType {
    pub fn rank(&self) -> (r: u8)
        ensures
            r as int == path_rank(*self),
    {
        match self {
            RoutingTablePathType::AreaInternal => 0,
            RoutingTablePathType::AreaExternal => 1,
            RoutingTablePathType::AsExternalT1 => 2,
            RoutingTablePathType::AsExternalT2 => 3,
        }
    }
}

#[derive(Clone, Copy, Debug, PartialEq, Eq, Structural)]
pub struct RoutingTableItem {
    pub dest_type: RoutingTableItemType,
    pub dest_id: u32,
    pub addr_mask: u32,
    pub external_cap: bool,
    pub area_id: u32,
    pub path_type: RoutingTablePathType,
    pub cost: u32,
    pub cost_t2: u32,
    pub lsa_origin: LsaIndex,
    pub next_hop: u32,
    pub ad_router: u32,
}

/// `a` is a better path than `b`: lower path type, then lower type-2 cost,
/// then lower cost.
pub open spec fn better(a: RoutingTableItem, b: RoutingTableItem) -> bool {
    if path_rank(a.path_type) != path_rank(b.path_type) {
        path_rank(a.path_type) < path_rank(b.path_type)
    } else if a.cost_t2 != b.cost_t2 {
        a.cost_t2 < b.cost_t2
    } else {
        a.cost < b.cost
    }
}

impl RoutingTableItem {
    pub fn better_than(&self, other: &RoutingTableItem) -> (r: bool)
        ensures
            r == better(*self, *other),
    {
        let a = self.path_type.rank();
        let b = other.path_type.rank();
        if a != b {
            a < b
        } else if self.cost_t2 != other.cost_t2 {
            self.cost_t2 < other.cost_t2
        } else {
            self.cost < other.cost
        }
    }
}

/// `better` is a strict order: never both ways.
pub proof fn lemma_better_asymmetric(a: RoutingTableItem, b: RoutingTableItem)
    ensures
        !(better(a, b) && better(b, a)),
{
}

// ---------------------------------------------------------------------------
// Prefixes
/// The netmask of a prefix of `len` bits.
pub open spec fn prefix_mask(len: u8) -> u32 {
    if len == 0 {
        0
    } else if len >= 32 {
        0xffff_ffff
    } else {
        (0xffff_ffffu32 << (32 - len) as u32) as u32
    }
}

/// The number of leading one bits of `x`, counting from bit `31 - i` down.
pub open spec fn ones_from(x: u32, i: nat) -> nat
    decreases 32 - i,
{
    if i >= 32 {
        0
    } else if (x >> (31 - i) as u32) & 1 == 1 {
        1 + ones_from(x, i + 1)
    } else {
        0
    }
}

/// Leading one bits of a netmask: its prefix length.
pub open spec fn leading_ones(x: u32) -> nat {
    ones_from(x, 0)
}

proof fn lemma_ones_from_bound(x: u32, i: nat)
    requires
        i <= 32,
    ensures
        ones_from(x, i) <= 32 - i,
    decreases 32 - i,
{
    if i < 32 {
        lemma_ones_from_bound(x, i + 1);
    }
}

pub fn count_leading_ones(x: u32) -> (r: u8)
    ensures
        r as nat == leading_ones(x),
        r <= 32,
{
    let mut i: u32 = 0;
    while i < 32 && (x >> (31 - i)) & 1 == 1
        invariant
            i <= 32,
            ones_from(x, 0) == i + ones_from(x, i as nat),
        decreases 32 - i,
    {
        i = i + 1;
    }
    proof {
        lemma_ones_from_bound(x, 0);
    }
    i as u8
}

/// A network address with its prefix length.
#[derive(Clone, Copy, Debug, PartialEq, Eq, Structural)]
pub struct Ipv4AddrMask {
    pub addr: u32,
    pub len: u8,
}

pub open spec fn addr_mask_of(addr: u32, mask: u32) -> Ipv4AddrMask {
    Ipv4AddrMask { addr: addr & mask, len: leading_ones(mask) as u8 }
}

impl Ipv4AddrMask {
    /// The prefix of `addr` under the netmask `mask`.
    pub fn from(addr: u32, mask: u32) -> (r: Ipv4AddrMask)
        ensures
            r == addr_mask_of(addr, mask),
    {
        Ipv4AddrMask { addr: addr & mask, len: count_leading_ones(mask) }
    }

    /// The netmask.
    pub fn mask(&self) -> (r: u32)
        ensures
            r == prefix_mask(self.len),
    {
        if self.len == 0 {
            0
        } else if self.len >= 32 {
            0xffff_ffff
        } else {
            0xffff_ffffu32 << (32 - self.len) as u32
        }
    }

    /// The network address: the address with its host bits cleared.
    pub fn network(&self) -> (r: u32)
        ensures
            r == self.addr & prefix_mask(self.len),
    {
        self.addr & self.mask()
    }
}

// ---------------------------------------------------------------------------
// The table
/// How a routing-table item is keyed.
#[derive(Clone, Copy, Debug, PartialEq, Eq, Structural)]
pub enum RoutingTableIndex {
    Network(Ipv4AddrMask),
    AsbrRouter(u32),
}

pub open spec fn route_index(i: RoutingTableItem) -> RoutingTableIndex {
    match i.dest_type {
        RoutingTableItemType::Network => RoutingTableIndex::Network(addr_mask_of(i.dest_id, i.addr_mask)),
        RoutingTableItemType::Router => RoutingTableIndex::AsbrRouter(i.dest_id),
    }
}

pub fn index_of(i: &RoutingTableItem) -> (r: RoutingTableIndex)
    ensures
        r == route_index(*i),
{
    match i.dest_type {
        RoutingTableItemType::Network => RoutingTableIndex::Network(Ipv4AddrMask::from(i.dest_id, i.addr_mask)),
        RoutingTableItemType::Router => RoutingTableIndex::AsbrRouter(i.dest_id),
    }
}

fn same_index(a: &RoutingTableIndex, b: &RoutingTableIndex) -> (r: bool)
    ensures
        r == (*a == *b),
{
    match (a, b) {
        (RoutingTableIndex::Network(x), RoutingTableIndex::Network(y)) => x.addr == y.addr && x.len == y.len,
        (RoutingTableIndex::AsbrRouter(x), RoutingTableIndex::AsbrRouter(y)) => *x == *y,
        _ => false,
    }
}

/// The item stored under `k` (the last one, were there several).
pub open spec fn route_lookup(s: Seq<RoutingTableItem>, k: RoutingTableIndex) -> Option<RoutingTableItem>
    decreases s.len(),
{
    if s.len() == 0 {
        None
    } else if route_index(s.last()) == k {
        Some(s.last())
    } else {
        route_lookup(s.drop_last(), k)
    }
}

pub open spec fn routes_unique(s: Seq<RoutingTableItem>) -> bool {
    forall|i: int, j: int|
        0 <= i < s.len() && 0 <= j < s.len() && i != j ==> route_index(#[trigger] s[i]) != route_index(
            #[trigger] s[j],
        )
}

proof fn lemma_route_found(s: Seq<RoutingTableItem>, k: RoutingTableIndex)
    ensures
        match route_lookup(s, k) {
            Some(m) => exists|i: int| 0 <= i < s.len() && route_index(#[trigger] s[i]) == k && s[i] == m,
            None => forall|i: int| 0 <= i < s.len() ==> route_index(#[trigger] s[i]) != k,
        },
    decreases s.len(),
{
    if s.len() > 0 {
        let init = s.drop_last();
        lemma_route_found(init, k);
        assert forall|i: int| 0 <= i < init.len() implies s[i] == #[trigger] init[i] by {}
        if route_index(s.last()) != k {
            match route_lookup(init, k) {
                Some(m) => {
                    let i = choose|i: int| 0 <= i < init.len() && route_index(#[trigger] init[i]) == k && init[i] == m;
                    assert(s[i] == init[i]);
                },
                None => {
                    assert forall|i: int| 0 <= i < s.len() implies route_index(#[trigger] s[i]) != k by {
                        if i < init.len() {
                            assert(s[i] == init[i]);
                        }
                    }
                },
            }
        } else {
            assert(s[s.len() - 1] == s.last());
        }
    }
}

proof fn lemma_route_unique(s: Seq<RoutingTableItem>, i: int)
    requires
        routes_unique(s),
        0 <= i < s.len(),
    ensures
        route_lookup(s, route_index(s[i])) == Some(s[i]),
    decreases s.len(),
{
    let init = s.drop_last();
    if i < s.len() - 1 {
        assert(init[i] == s[i]);
        assert(route_index(s[s.len() - 1]) != route_index(s[i]));
        assert(routes_unique(init)) by {
            assert forall|a: int, b: int| 0 <= a < init.len() && 0 <= b < init.len() && a != b implies route_index(#[trigger] init[a]) != route_index(#[trigger] init[b]) by {
                assert(init[a] == s[a] && init[b] == s[b]);
            }
        }
        lemma_route_unique(init, i);
    }
}

/// The key of the network of `len` bits that contains `ip`.
pub open spec fn covering(ip: u32, len: u8) -> RoutingTableIndex {
    RoutingTableIndex::Network(Ipv4AddrMask { addr: ip & prefix_mask(len), len })
}

/// Routes keyed by destination, one per key.
pub struct RoutingTable {
    pub table: Vec<RoutingTableItem>,
}

impl RoutingTable {
    pub open spec fn wf(&self) -> bool {
        routes_unique(self.table@)
    }

    pub open spec fn get_spec(&self, k: RoutingTableIndex) -> Option<RoutingTableItem> {
        route_lookup(self.table@, k)
    }

    pub fn new() -> (r: RoutingTable)
        ensures
            r.wf(),
            forall|k: RoutingTableIndex| r.get_spec(k) is None,
    {
        RoutingTable { table: Vec::new() }
    }

    fn find(&self, k: &RoutingTableIndex) -> (r: Option<usize>)
        requires
            self.wf(),
        ensures
            match r {
                Some(i) => i < self.table@.len() && route_index(self.table@[i as int]) == *k
                    && self.get_spec(*k) == Some(self.table@[i as int]),
                None => self.get_spec(*k) is None,
            },
    {
        let mut i: usize = 0;
        while i < self.table.len()
            invariant
                routes_unique(self.table@),
                i <= self.table@.len(),
                forall|j: int| 0 <= j < i ==> route_index(#[trigger] self.table@[j]) != *k,
            decreases self.table@.len() - i,
        {
            let idx = index_of(&self.table[i]);
            if same_index(&idx, k) {
                proof {
                    lemma_route_unique(self.table@, i as int);
                }
                return Some(i);
            }
            i = i + 1;
        }
        proof {
            lemma_route_found(self.table@, *k);
            if route_lookup(self.table@, *k) is Some {
                let m = route_lookup(self.table@, *k).unwrap();
                let j = choose|j: int| 0 <= j < self.table@.len() && route_index(#[trigger] self.table@[j]) == *k && self.table@[j] == m;
                assert(route_index(self.table@[j]) != *k);
            }
        }
        None
    }

    /// The route stored for `k`.
    pub fn get(&self, k: &RoutingTableIndex) -> (r: Option<RoutingTableItem>)
        requires
            self.wf(),
        ensures
            r == self.get_spec(*k),
    {
        match self.find(k) {
            Some(i) => Some(self.table[i]),
            None => None,
        }
    }

    /// Adds `item` unless the table holds a route to the same destination
    /// that it is not better than.
    pub fn offer(&mut self, item: RoutingTableItem)
        requires
            old(self).wf(),
        ensures
            final(self).wf(),
            forall|k: RoutingTableIndex| #[trigger] final(self).get_spec(k) == if k == route_index(item) {
                match old(self).get_spec(k) {
                    None => Some(item),
                    Some(o) => if better(item, o) { Some(item) } else { Some(o) },
                }
            } else {
                old(self).get_spec(k)
            },
    {
        let key = index_of(&item);
        match self.find(&key) {
            Some(i) => {
                let o = self.table[i];
                if item.better_than(&o) {
                    let ghost s0 = self.table@;
                    self.table.set(i, item);
                    let ghost s1 = self.table@;
                    assert(routes_unique(s1)) by {
                        assert forall|a: int, b: int| 0 <= a < s1.len() && 0 <= b < s1.len() && a != b implies route_index(#[trigger] s1[a]) != route_index(#[trigger] s1[b]) by {
                            if a != i && b != i {
                                assert(s1[a] == s0[a] && s1[b] == s0[b]);
                            } else if a == i {
                                assert(s1[b] == s0[b]);
                            } else {
                                assert(s1[a] == s0[a]);
                            }
                        }
                    }
                    assert forall|k: RoutingTableIndex| #[trigger] route_lookup(s1, k) == if k == key { Some(item) } else { route_lookup(s0, k) } by {
                        lemma_route_found(s0, k);
                        lemma_route_found(s1, k);
                        if k == key {
                            lemma_route_unique(s1, i as int);
                        } else if route_lookup(s0, k) is Some {
                            let m = route_lookup(s0, k).unwrap();
                            let a = choose|a: int| 0 <= a < s0.len() && route_index(#[trigger] s0[a]) == k && s0[a] == m;
                            assert(s1[a] == s0[a]);
                            lemma_route_unique(s0, a);
                            lemma_route_unique(s1, a);
                        } else if route_lookup(s1, k) is Some {
                            let m = route_lookup(s1, k).unwrap();
                            let a = choose|a: int| 0 <= a < s1.len() && route_index(#[trigger] s1[a]) == k && s1[a] == m;
                            assert(s1[a] == s0[a]);
                        }
                    }
                }
            },
            None => {
                let ghost s0 = self.table@;
                self.table.push(item);
                let ghost s1 = self.table@;
                assert(s1.drop_last() =~= s0);
                proof {
                    lemma_route_found(s0, key);
                }
                assert(routes_unique(s1)) by {
                    assert forall|a: int, b: int| 0 <= a < s1.len() && 0 <= b < s1.len() && a != b implies route_index(#[trigger] s1[a]) != route_index(#[trigger] s1[b]) by {
                        if a < s0.len() && b < s0.len() {
                            assert(s1[a] == s0[a] && s1[b] == s0[b]);
                        } else if a < s0.len() {
                            assert(s1[a] == s0[a]);
                        } else {
                            assert(s1[b] == s0[b]);
                        }
                    }
                }
            },
        }
    }

    /// The route for the longest prefix that covers `ip`.
    pub fn get_routing(&self, ip: u32) -> (r: Option<RoutingTableItem>)
        requires
            self.wf(),
        ensures
            match r {
                Some(item) => exists|len: u8| len <= 32 && #[trigger] self.get_spec(covering(ip, len))
                    == Some(item) && forall|l: u8| len < l <= 32 ==> #[trigger] self.get_spec(
                    covering(ip, l),
                ) is None,
                None => forall|l: u8| l <= 32 ==> #[trigger] self.get_spec(covering(ip, l)) is None,
            },
    {
        let mut len: u8 = 33;
        while len > 0
            invariant
                len <= 33,
                self.wf(),
                forall|l: u8| len <= l <= 32 ==> #[trigger] self.get_spec(covering(ip, l)) is None,
            decreases len,
        {
            len = len - 1;
            let p = Ipv4AddrMask { addr: ip, len };
            let k = RoutingTableIndex::Network(Ipv4AddrMask { addr: ip & p.mask(), len });
            assert(k == covering(ip, len));
            match self.get(&k) {
                Some(item) => {
                    assert(self.get_spec(covering(ip, len)) == Some(item));
                    return Some(item);
                },
                None => {},
            }
        }
        None
    }

    /// All routes, in the table's order.
    pub fn get_routings(&self) -> (r: Vec<RoutingTableItem>)
        ensures
            r@ == self.table@,
    {
        let mut r: Vec<RoutingTableItem> = Vec::new();
        let mut k: usize = 0;
        while k < self.table.len()
            invariant
                k <= self.table@.len(),
                r@ == self.table@.subrange(0, k as int),
            decreases self.table@.len() - k,
        {
            r.push(self.table[k]);
            assert(r@ =~= self.table@.subrange(0, k + 1));
            k = k + 1;
        }
        assert(self.table@.subrange(0, k as int) =~= self.table@);
        r
    }
}

// ---------------------------------------------------------------------------
// Derived routes
/// The table as a function from key to route.
pub open spec fn table_lookup(t: &RoutingTable) -> spec_fn(RoutingTableIndex) -> Option<RoutingTableItem> {
    |k: RoutingTableIndex| t.get_spec(k)
}

/// The route for the longest prefix of at most `len` bits covering `ip`.
pub open spec fn longest_in(look: spec_fn(RoutingTableIndex) -> Option<RoutingTableItem>, ip: u32, len: nat) -> Option<RoutingTableItem>
    decreases len,
{
    match look(covering(ip, len as u8)) {
        Some(i) => Some(i),
        None => if len == 0 {
            None
        } else {
            longest_in(look, ip, (len - 1) as nat)
        },
    }
}

/// The route for the longest prefix covering `ip`.
pub open spec fn longest_match(t: &RoutingTable, ip: u32) -> Option<RoutingTableItem> {
    longest_in(table_lookup(t), ip, 32)
}

/// The route to the destination of an AS-External-LSA, through the ASBR
/// that advertises it or through its forwarding address, over the routes
/// `look` gives.
pub open spec fn external_route_in(
    h: LsaHeader,
    lsa: AsExternalLSA,
    router_id: u32,
    look: spec_fn(RoutingTableIndex) -> Option<RoutingTableItem>,
) -> Option<RoutingTableItem> {
    if lsa.metric >= LS_INFINITY || h.advertising_router == router_id {
        None
    } else {
        match look(RoutingTableIndex::AsbrRouter(h.advertising_router)) {
            None => None,
            Some(asbr) => {
                let fwd = if lsa.forwarding_address == 0 {
                    Some(asbr)
                } else {
                    longest_in(look, lsa.forwarding_address, 32)
                };
                match fwd {
                    None => None,
                    Some(f) => {
                        let cost = f.cost + if lsa.e { 0 } else { lsa.metric };
                        let cost_t2: int = if lsa.e { lsa.metric as int } else { 0 };
                        if cost > u32::MAX {
                            None
                        } else {
                            let a = addr_mask_of(h.link_state_id, lsa.network_mask);
                            Some(
                                RoutingTableItem {
                                    dest_type: RoutingTableItemType::Network,
                                    dest_id: a.addr & prefix_mask(a.len),
                                    addr_mask: prefix_mask(a.len),
                                    external_cap: true,
                                    area_id: BACKBONE_AREA,
                                    path_type: if lsa.e {
                                        RoutingTablePathType::AsExternalT2
                                    } else {
                                        RoutingTablePathType::AsExternalT1
                                    },
                                    cost: cost as u32,
                                    cost_t2: cost_t2 as u32,
                                    lsa_origin: header_index(h),
                                    next_hop: f.next_hop,
                                    ad_router: h.advertising_router,
                                },
                            )
                        }
                    },
                }
            },
        }
    }
}

pub open spec fn external_route_spec(h: LsaHeader, lsa: AsExternalLSA, router_id: u32, t: &RoutingTable) -> Option<RoutingTableItem> {
    external_route_in(h, lsa, router_id, table_lookup(t))
}

/// The lookup after offering `item`.
pub open spec fn offer_at(look: spec_fn(RoutingTableIndex) -> Option<RoutingTableItem>, item: RoutingTableItem) -> spec_fn(RoutingTableIndex) -> Option<RoutingTableItem> {
    |k: RoutingTableIndex| if k == route_index(item) {
        match look(k) {
            None => Some(item),
            Some(o) => if better(item, o) {
                Some(item)
            } else {
                Some(o)
            },
        }
    } else {
        look(k)
    }
}

/// The lookup after deriving and offering the route of each
/// AS-External-LSA in turn, each against the table as it then stands.
pub open spec fn after_externals(
    look: spec_fn(RoutingTableIndex) -> Option<RoutingTableItem>,
    lsas: Seq<(LsaHeader, AsExternalLSA)>,
    router_id: u32,
) -> spec_fn(RoutingTableIndex) -> Option<RoutingTableItem>
    decreases lsas.len(),
{
    if lsas.len() == 0 {
        look
    } else {
        let prev = after_externals(look, lsas.drop_last(), router_id);
        match external_route_in(lsas.last().0, lsas.last().1, router_id, prev) {
            None => prev,
            Some(item) => offer_at(prev, item),
        }
    }
}

impl RoutingTable {
    /// `get_routing` as a function of the table.
    pub fn lookup_longest(&self, ip: u32) -> (r: Option<RoutingTableItem>)
        requires
            self.wf(),
        ensures
            r == longest_match(self, ip),
    {
        let mut len: u8 = 32;
        loop
            invariant
                len <= 32,
                self.wf(),
                longest_match(self, ip) == longest_in(table_lookup(self), ip, len as nat),
            decreases len,
        {
            let p = Ipv4AddrMask { addr: ip, len };
            let k = RoutingTableIndex::Network(Ipv4AddrMask { addr: ip & p.mask(), len });
            match self.get(&k) {
                Some(item) => {
                    return Some(item);
                },
                None => {},
            }
            if len == 0 {
                return None;
            }
            len = len - 1;
        }
    }
}

/// The routing-table item an AS-External-LSA yields, if any: a type-1
/// metric adds to the cost of reaching the forwarding router and leaves the
/// type-2 cost at 0; a type-2 metric keeps that cost and becomes the type-2
/// cost.
pub fn external_route(h: &LsaHeader, lsa: &AsExternalLSA, router_id: u32, t: &RoutingTable) -> (r: Option<RoutingTableItem>)
    requires
        t.wf(),
    ensures
        r == external_route_spec(*h, *lsa, router_id, t),
{
    if lsa.metric >= LS_INFINITY || h.advertising_router == router_id {
        return None;
    }
    let asbr = match t.get(&RoutingTableIndex::AsbrRouter(h.advertising_router)) {
        Some(a) => a,
        None => {
            return None;
        },
    };
    let fwd = if lsa.forwarding_address == 0 {
        asbr
    } else {
        match t.lookup_longest(lsa.forwarding_address) {
            Some(f) => f,
            None => {
                return None;
            },
        }
    };
    let add1: u32 = if lsa.e { 0 } else { lsa.metric };
    let add2: u32 = if lsa.e { lsa.metric } else { 0 };
    if fwd.cost as u64 + add1 as u64 > u32::MAX as u64 {
        return None;
    }
    let a = Ipv4AddrMask::from(h.link_state_id, lsa.network_mask);
    Some(
        RoutingTableItem {
            dest_type: RoutingTableItemType::Network,
            dest_id: a.network(),
            addr_mask: a.mask(),
            external_cap: true,
            area_id: BACKBONE_AREA,
            path_type: if lsa.e {
                RoutingTablePathType::AsExternalT2
            } else {
                RoutingTablePathType::AsExternalT1
            },
            cost: fwd.cost + add1,
            cost_t2: add2,
            lsa_origin: h.index(),
            next_hop: fwd.next_hop,
            ad_router: h.advertising_router,
        },
    )
}

/// What the shortest-path tree says of a border router: its distance and
/// first next hop, if reachable.
#[derive(Clone, Copy, Debug, PartialEq, Eq, Structural)]
pub struct BorderRouter {
    pub distance: u32,
    pub next_hop: Option<u32>,
}

/// The inter-area route a Summary-LSA yields, if any.
pub open spec fn summary_route_spec(
    h: LsaHeader,
    lsa: SummaryLSA,
    router_id: u32,
    area_id: u32,
    external_routing: bool,
    br: Option<BorderRouter>,
) -> Option<RoutingTableItem> {
    if (h.ls_type != SUMMARY_IP_LSA && h.ls_type != SUMMARY_ASBR_LSA) || h.advertising_router
        == router_id || h.ls_age == crate::lsa::LSA_MAX_AGE || lsa.metric >= LS_INFINITY {
        None
    } else {
        match br {
            None => None,
            Some(b) => match b.next_hop {
                None => None,
                Some(nh) => if b.distance + lsa.metric > u32::MAX {
                    None
                } else if h.ls_type == SUMMARY_ASBR_LSA && !external_routing {
                    None
                } else {
                    let a = addr_mask_of(h.link_state_id, lsa.network_mask);
                    Some(
                        RoutingTableItem {
                            dest_type: if h.ls_type == SUMMARY_IP_LSA {
                                RoutingTableItemType::Network
                            } else {
                                RoutingTableItemType::Router
                            },
                            dest_id: if h.ls_type == SUMMARY_IP_LSA {
                                a.addr & prefix_mask(a.len)
                            } else {
                                h.link_state_id
                            },
                            addr_mask: if h.ls_type == SUMMARY_IP_LSA {
                                prefix_mask(a.len)
                            } else {
                                0
                            },
                            external_cap: external_routing,
                            area_id,
                            path_type: RoutingTablePathType::AreaExternal,
                            cost: (b.distance + lsa.metric) as u32,
                            cost_t2: 0,
                            lsa_origin: header_index(h),
                            next_hop: nh,
                            ad_router: h.advertising_router,
                        },
                    )
                },
            },
        }
    }
}

/// The inter-area route a Summary-LSA (header `h`, body `lsa`) yields in
/// area `area_id`, given what the area's shortest-path tree says of the
/// advertising border router.
pub fn summary_route(
    h: &LsaHeader,
    lsa: &SummaryLSA,
    router_id: u32,
    area_id: u32,
    external_routing: bool,
    br: Option<BorderRouter>,
) -> (r: Option<RoutingTableItem>)
    ensures
        r == summary_route_spec(*h, *lsa, router_id, area_id, external_routing, br),
{
    if (h.ls_type != SUMMARY_IP_LSA && h.ls_type != SUMMARY_ASBR_LSA) || h.advertising_router == router_id
        || h.ls_age == crate::lsa::LSA_MAX_AGE || lsa.metric >= LS_INFINITY {
        return None;
    }
    let b = match br {
        Some(b) => b,
        None => {
            return None;
        },
    };
    let nh = match b.next_hop {
        Some(nh) => nh,
        None => {
            return None;
        },
    };
    if b.distance as u64 + lsa.metric as u64 > u32::MAX as u64 {
        return None;
    }
    if h.ls_type == SUMMARY_ASBR_LSA && !external_routing {
        return None;
    }
    let a = Ipv4AddrMask::from(h.link_state_id, lsa.network_mask);
    let ip = h.ls_type == SUMMARY_IP_LSA;
    Some(
        RoutingTableItem {
            dest_type: if ip {
                RoutingTableItemType::Network
            } else {
                RoutingTableItemType::Router
            },
            dest_id: if ip {
                a.network()
            } else {
                h.link_state_id
            },
            addr_mask: if ip {
                a.mask()
            } else {
                0
            },
            external_cap: external_routing,
            area_id,
            path_type: RoutingTablePathType::AreaExternal,
            cost: b.distance + lsa.metric,
            cost_t2: 0,
            lsa_origin: h.index(),
            next_hop: nh,
            ad_router: h.advertising_router,
        },
    )
}

/// The Summary-LSA an area border router originates into `target_area`
/// for a routing-table item: (LS type, link state id, body).
pub open spec fn summary_for_spec(item: RoutingTableItem, target_area: u32, target_external: bool) -> Option<(u8, u32, SummaryLSA)> {
    if !(item.path_type == RoutingTablePathType::AreaInternal || item.path_type
        == RoutingTablePathType::AreaExternal) || item.cost >= LS_INFINITY {
        None
    } else if target_area == item.area_id {
        None
    } else if target_area == BACKBONE_AREA && item.path_type != RoutingTablePathType::AreaInternal {
        None
    } else {
        let body = SummaryLSA { network_mask: item.addr_mask, metric: item.cost, tos: 0, tos_metric: 0 };
        match item.dest_type {
            RoutingTableItemType::Router => if target_external {
                Some((SUMMARY_ASBR_LSA, item.dest_id, body))
            } else {
                None
            },
            RoutingTableItemType::Network => Some((SUMMARY_IP_LSA, item.dest_id, body)),
        }
    }
}

/// Summary-LSAs advertise area-internal and inter-area routes of finite
/// cost into the other areas; inter-area routes never go into the backbone.
pub fn summary_lsa_for(item: &RoutingTableItem, target_area: u32, target_external: bool) -> (r: Option<(u8, u32, SummaryLSA)>)
    ensures
        r == summary_for_spec(*item, target_area, target_external),
{
    let internal = matches!(item.path_type, RoutingTablePathType::AreaInternal);
    let inter = matches!(item.path_type, RoutingTablePathType::AreaExternal);
    if !(internal || inter) || item.cost >= LS_INFINITY {
        return None;
    }
    if target_area == item.area_id {
        return None;
    }
    if target_area == BACKBONE_AREA && !internal {
        return None;
    }
    let body = SummaryLSA { network_mask: item.addr_mask, metric: item.cost, tos: 0, tos_metric: 0 };
    match item.dest_type {
        RoutingTableItemType::Router => if target_external {
            Some((SUMMARY_ASBR_LSA, item.dest_id, body))
        } else {
            None
        },
        RoutingTableItemType::Network => Some((SUMMARY_IP_LSA, item.dest_id, body)),
    }
}

/// A route the kernel forwarding table holds.
#[derive(Clone, Copy, Debug, PartialEq, Eq, Structural)]
pub struct RoutingItem {
    pub dest: u32,
    pub mask: u32,
    pub nexthop: u32,
}

/// The kernel route for a network item; router items have none.
pub fn kernel_route(item: &RoutingTableItem) -> (r: Option<RoutingItem>)
    ensures
        r == match item.dest_type {
            RoutingTableItemType::Network => Some(
                RoutingItem { dest: item.dest_id, mask: item.addr_mask, nexthop: item.next_hop },
            ),
            RoutingTableItemType::Router => None,
        },
{
    match item.dest_type {
        RoutingTableItemType::Network => Some(
            RoutingItem { dest: item.dest_id, mask: item.addr_mask, nexthop: item.next_hop },
        ),
        RoutingTableItemType::Router => None,
    }
}

// ---------------------------------------------------------------------------
// Recalculation and the kernel table
/// The route kept for `k` after offering `items` in order to a table that
/// held `start`.
pub open spec fn offered(start: Option<RoutingTableItem>, items: Seq<RoutingTableItem>, k: RoutingTableIndex) -> Option<RoutingTableItem>
    decreases items.len(),
{
    if items.len() == 0 {
        start
    } else {
        let before = offered(start, items.drop_last(), k);
        let item = items.last();
        if route_index(item) != k {
            before
        } else {
            match before {
                None => Some(item),
                Some(o) => if better(item, o) {
                    Some(item)
                } else {
                    Some(o)
                },
            }
        }
    }
}

impl RoutingTable {
    /// Offers each of `items` in turn; for every destination the table ends
    /// with the best route among what it held and what was offered (the
    /// earliest among equals).
    pub fn offer_all(&mut self, items: &Vec<RoutingTableItem>)
        requires
            old(self).wf(),
        ensures
            final(self).wf(),
            forall|k: RoutingTableIndex| #[trigger] final(self).get_spec(k) == offered(old(self).get_spec(k), items@, k),
    {
        let ghost start = *self;
        let mut i: usize = 0;
        while i < items.len()
            invariant
                self.wf(),
                i <= items@.len(),
                forall|k: RoutingTableIndex| #[trigger] self.get_spec(k) == offered(start.get_spec(k), items@.subrange(0, i as int), k),
            decreases items@.len() - i,
        {
            let ghost before = *self;
            self.offer(items[i]);
            assert forall|k: RoutingTableIndex| #[trigger] self.get_spec(k) == offered(start.get_spec(k), items@.subrange(0, i + 1), k) by {
                assert(items@.subrange(0, i + 1).drop_last() =~= items@.subrange(0, i as int));
                assert(before.get_spec(k) == offered(start.get_spec(k), items@.subrange(0, i as int), k));
            }
            i = i + 1;
        }
        assert(items@.subrange(0, i as int) =~= items@);
    }

    /// Derives the route of each AS-External-LSA against the table as it
    /// stands and offers it, in order.
    pub fn add_external_routes(&mut self, lsas: &Vec<(LsaHeader, AsExternalLSA)>, router_id: u32)
        requires
            old(self).wf(),
        ensures
            final(self).wf(),
            forall|k: RoutingTableIndex| #[trigger] final(self).get_spec(k) == after_externals(
                table_lookup(old(self)),
                lsas@,
                router_id,
            )(k),
    {
        let ghost start = table_lookup(self);
        let mut i: usize = 0;
        while i < lsas.len()
            invariant
                self.wf(),
                i <= lsas@.len(),
                table_lookup(self) == after_externals(start, lsas@.subrange(0, i as int), router_id),
            decreases lsas@.len() - i,
        {
            let (h, x) = lsas[i];
            let ghost prev = table_lookup(self);
            assert(lsas@.subrange(0, i + 1).drop_last() =~= lsas@.subrange(0, i as int));
            assert(lsas@.subrange(0, i + 1).last() == (h, x));
            match external_route(&h, &x, router_id, self) {
                Some(item) => {
                    self.offer(item);
                    assert(table_lookup(self) =~= offer_at(prev, item));
                },
                None => {},
            }
            i = i + 1;
        }
        assert(lsas@.subrange(0, i as int) =~= lsas@);
    }
}

/// The kernel route of a table item, for network routes that leave
/// through a gateway (directly attached networks have next hop 0 and are
/// the kernel's own).
pub open spec fn fib_route(i: RoutingTableItem) -> Option<RoutingItem> {
    if i.dest_type == RoutingTableItemType::Network && i.next_hop != 0 {
        Some(RoutingItem { dest: i.dest_id, mask: i.addr_mask, nexthop: i.next_hop })
    } else {
        None
    }
}

/// The kernel route the table holds for key `k`.
pub open spec fn fib_at(t: &RoutingTable, k: RoutingTableIndex) -> Option<RoutingItem> {
    match t.get_spec(k) {
        Some(i) => fib_route(i),
        None => None,
    }
}

/// Kernel routes of `from` whose key holds another kernel route (or none)
/// in `other`.
pub open spec fn fib_diff(from: Seq<RoutingTableItem>, other: &RoutingTable) -> Seq<RoutingItem>
    decreases from.len(),
{
    if from.len() == 0 {
        seq![]
    } else {
        let rest = fib_diff(from.drop_last(), other);
        let it = from.last();
        match fib_route(it) {
            Some(r) => if fib_at(other, route_index(it)) != Some(r) {
                rest.push(r)
            } else {
                rest
            },
            None => rest,
        }
    }
}

fn fib_route_of(i: &RoutingTableItem) -> (r: Option<RoutingItem>)
    ensures
        r == fib_route(*i),
{
    if matches!(i.dest_type, RoutingTableItemType::Network) && i.next_hop != 0 {
        Some(RoutingItem { dest: i.dest_id, mask: i.addr_mask, nexthop: i.next_hop })
    } else {
        None
    }
}

fn diff_against(from: &RoutingTable, other: &RoutingTable) -> (r: Vec<RoutingItem>)
    requires
        other.wf(),
    ensures
        r@ == fib_diff(from.table@, other),
{
    let mut out: Vec<RoutingItem> = Vec::new();
    let mut i: usize = 0;
    while i < from.table.len()
        invariant
            other.wf(),
            i <= from.table@.len(),
            out@ == fib_diff(from.table@.subrange(0, i as int), other),
        decreases from.table@.len() - i,
    {
        let it = from.table[i];
        assert(from.table@.subrange(0, i + 1).drop_last() =~= from.table@.subrange(0, i as int));
        match fib_route_of(&it) {
            Some(r) => {
                let there = match other.get(&index_of(&it)) {
                    Some(o) => fib_route_of(&o),
                    None => None,
                };
                if there != Some(r) {
                    out.push(r);
                }
            },
            None => {},
        }
        i = i + 1;
    }
    assert(from.table@.subrange(0, i as int) =~= from.table@);
    out
}

/// What the kernel table must change when the routing table goes from
/// `old` to `new`: (routes to delete, routes to add). A route unchanged
/// under its key is left alone.
pub fn fib_changes(old: &RoutingTable, new: &RoutingTable) -> (r: (Vec<RoutingItem>, Vec<RoutingItem>))
    requires
        old.wf(),
        new.wf(),
    ensures
        r.0@ == fib_diff(old.table@, new),
        r.1@ == fib_diff(new.table@, old),
{
    (diff_against(old, new), diff_against(new, old))
}

impl RoutingTable {
    /// Replaces the table by the one built from `routes` (intra- and
    /// inter-area, the better kept per destination) and then the routes of
    /// `externals`; returns the kernel routes to delete and to add.
    pub fn recalculate(
        &mut self,
        routes: &Vec<RoutingTableItem>,
        externals: &Vec<(LsaHeader, AsExternalLSA)>,
        router_id: u32,
    ) -> (r: (Vec<RoutingItem>, Vec<RoutingItem>))
        requires
            old(self).wf(),
        ensures
            final(self).wf(),
            forall|k: RoutingTableIndex| #[trigger] final(self).get_spec(k) == after_externals(
                |j: RoutingTableIndex| offered(None, routes@, j),
                externals@,
                router_id,
            )(k),
            r.0@ == fib_diff(old(self).table@, final(self)),
            r.1@ == fib_diff(final(self).table@, old(self)),
    {
        let mut t = RoutingTable::new();
        t.offer_all(routes);
        assert(table_lookup(&t) =~= (|j: RoutingTableIndex| offered(None, routes@, j)));
        t.add_external_routes(externals, router_id);
        let changes = fib_changes(self, &t);
        *self = t;
        changes
    }
}

/// The Summary-LSAs an area border router originates into `target_area`
/// for the routes of its table, in order.
pub open spec fn summaries(items: Seq<RoutingTableItem>, target_area: u32, target_external: bool) -> Seq<(u8, u32, SummaryLSA)>
    decreases items.len(),
{
    if items.len() == 0 {
        seq![]
    } else {
        let rest = summaries(items.drop_last(), target_area, target_external);
        match summary_for_spec(items.last(), target_area, target_external) {
            Some(x) => rest.push(x),
            None => rest,
        }
    }
}

pub fn gen_summary_lsa(items: &Vec<RoutingTableItem>, target_area: u32, target_external: bool) -> (r: Vec<(u8, u32, SummaryLSA)>)
    ensures
        r@ == summaries(items@, target_area, target_external),
{
    let mut out: Vec<(u8, u32, SummaryLSA)> = Vec::new();
    let mut i: usize = 0;
    while i < items.len()
        invariant
            i <= items@.len(),
            out@ == summaries(items@.subrange(0, i as int), target_area, target_external),
        decreases items@.len() - i,
    {
        assert(items@.subrange(0, i + 1).drop_last() =~= items@.subrange(0, i as int));
        match summary_lsa_for(&items[i], target_area, target_external) {
            Some(x) => out.push(x),
            None => {},
        }
        i = i + 1;
    }
    assert(items@.subrange(0, i as int) =~= items@);
    out
}

} // verus!
