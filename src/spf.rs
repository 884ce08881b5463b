//! Shortest-path first over an area's Router- and Network-LSAs.

use vstd::prelude::*;
use crate::lsa::{
    Lsa, LsaData, LSA_MAX_AGE, P2P_LINK, TRANSIT_LINK, STUB_LINK, VIRTUAL_LINK, ROUTER_LSA,
    NETWORK_LSA,
};
use crate::routing::{
    summary_route, summary_route_spec, Ipv4AddrMask, RoutingTableItem, RoutingTableItemType, RoutingTablePathType, BorderRouter,
    addr_mask_of, prefix_mask,
};
use crate::lsa::{RouterLSALink, header_index};

verus! {

/// A vertex of the link-state graph.
#[derive(Clone, Copy, Debug, PartialEq, Eq, Structural)]
pub enum NodeAddr {
    /// A router, by router id.
    Router(u32),
    /// A transit network, by the address of its DR.
    Network(u32),
    /// A stub network.
    Stub(Ipv4AddrMask),
}

/// A weighted edge to vertex `to`.
#[derive(Clone, Copy, Debug, PartialEq, Eq, Structural)]
pub struct Edge {
    pub to: usize,
    pub cost: u32,
}

/// The graph: vertices, the LSA each comes from (an index into the LSA
/// list), and for each vertex its outgoing edges.
pub struct SpfGraph {
    pub nodes: Vec<NodeAddr>,
    pub origin: Vec<usize>,
    pub adj: Vec<Vec<Edge>>,
}

/// No vertex appears twice.
pub open spec fn nodes_unique(nodes: Seq<NodeAddr>) -> bool {
    forall|i: int, j: int| 0 <= i < nodes.len() && 0 <= j < nodes.len() && i != j ==> #[trigger] nodes[i] != #[trigger] nodes[j]
}

impl SpfGraph {
    pub open spec fn wf(&self) -> bool {
        &&& self.origin@.len() == self.nodes@.len()
        &&& self.adj@.len() == self.nodes@.len()
        &&& forall|i: int, k: int|
            0 <= i < self.adj@.len() && 0 <= k < self.adj@[i]@.len() ==> #[trigger] self.adj@[i]@[k].to
                < self.nodes@.len()
        &&& nodes_unique(self.nodes@)
        &&& self.nodes@.len() <= usize::MAX
    }
}

fn same_node(a: &NodeAddr, b: &NodeAddr) -> (r: bool)
    ensures
        r == (*a == *b),
{
    match (a, b) {
        (NodeAddr::Router(x), NodeAddr::Router(y)) => *x == *y,
        (NodeAddr::Network(x), NodeAddr::Network(y)) => *x == *y,
        (NodeAddr::Stub(x), NodeAddr::Stub(y)) => x.addr == y.addr && x.len == y.len,
        _ => false,
    }
}

fn position(nodes: &Vec<NodeAddr>, n: &NodeAddr) -> (r: Option<usize>)
    ensures
        match r {
            Some(i) => i < nodes@.len() && nodes@[i as int] == *n,
            None => forall|i: int| 0 <= i < nodes@.len() ==> nodes@[i] != *n,
        },
{
    let mut i: usize = 0;
    while i < nodes.len()
        invariant
            i <= nodes@.len(),
            forall|j: int| 0 <= j < i ==> nodes@[j] != *n,
        decreases nodes@.len() - i,
    {
        if same_node(&nodes[i], n) {
            return Some(i);
        }
        i = i + 1;
    }
    None
}

/// The vertex a Router-LSA link leads to, with its cost.
pub open spec fn link_node(l: RouterLSALink) -> Option<(NodeAddr, u32)> {
    if l.link_type == STUB_LINK {
        Some((NodeAddr::Stub(addr_mask_of(l.link_id, l.link_data)), l.metric as u32))
    } else if l.link_type == P2P_LINK || l.link_type == VIRTUAL_LINK {
        Some((NodeAddr::Router(l.link_id), l.metric as u32))
    } else if l.link_type == TRANSIT_LINK {
        Some((NodeAddr::Network(l.link_id), l.metric as u32))
    } else {
        None
    }
}

pub open spec fn links_nodes(ls: Seq<RouterLSALink>) -> Seq<(NodeAddr, u32)>
    decreases ls.len(),
{
    if ls.len() == 0 {
        seq![]
    } else {
        match link_node(ls.last()) {
            Some(x) => links_nodes(ls.drop_last()).push(x),
            None => links_nodes(ls.drop_last()),
        }
    }
}

pub open spec fn routers_nodes(ids: Seq<u32>) -> Seq<(NodeAddr, u32)>
    decreases ids.len(),
{
    if ids.len() == 0 {
        seq![]
    } else {
        routers_nodes(ids.drop_last()).push((NodeAddr::Router(ids.last()), 0u32))
    }
}

/// The neighbors an LSA names, with the cost of reaching each.
pub open spec fn named(lsa: Lsa) -> Seq<(NodeAddr, u32)> {
    match lsa.data {
        LsaData::Router(x) => links_nodes(x.links@),
        LsaData::Network(x) => routers_nodes(x.attached_routers@),
        _ => seq![],
    }
}

/// A Router-LSA names routers over point-to-point and virtual links,
/// transit networks, and stub networks; a Network-LSA names its attached
/// routers at cost 0.
pub fn lsa2nodes(lsa: &Lsa) -> (r: Vec<(NodeAddr, u32)>)
    ensures
        r@ == named(*lsa),
{
    let mut out: Vec<(NodeAddr, u32)> = Vec::new();
    match &lsa.data {
        LsaData::Router(x) => {
            let mut k: usize = 0;
            while k < x.links.len()
                invariant
                    k <= x.links@.len(),
                    out@ == links_nodes(x.links@.subrange(0, k as int)),
                decreases x.links@.len() - k,
            {
                let l = x.links[k];
                assert(x.links@.subrange(0, k + 1).drop_last() =~= x.links@.subrange(0, k as int));
                if l.link_type == STUB_LINK {
                    out.push((NodeAddr::Stub(Ipv4AddrMask::from(l.link_id, l.link_data)), l.metric as u32));
                } else if l.link_type == P2P_LINK || l.link_type == VIRTUAL_LINK {
                    out.push((NodeAddr::Router(l.link_id), l.metric as u32));
                } else if l.link_type == TRANSIT_LINK {
                    out.push((NodeAddr::Network(l.link_id), l.metric as u32));
                }
                k = k + 1;
            }
            assert(x.links@.subrange(0, k as int) =~= x.links@);
        },
        LsaData::Network(x) => {
            let mut k: usize = 0;
            while k < x.attached_routers.len()
                invariant
                    k <= x.attached_routers@.len(),
                    out@ == routers_nodes(x.attached_routers@.subrange(0, k as int)),
                decreases x.attached_routers@.len() - k,
            {
                assert(x.attached_routers@.subrange(0, k + 1).drop_last() =~= x.attached_routers@.subrange(0, k as int));
                out.push((NodeAddr::Router(x.attached_routers[k]), 0));
                k = k + 1;
            }
            assert(x.attached_routers@.subrange(0, k as int) =~= x.attached_routers@);
        },
        _ => {},
    }
    out
}

/// The vertex an LSA stands for.
pub open spec fn lsa_vertex(h: crate::lsa::LsaHeader) -> NodeAddr {
    if h.ls_type == ROUTER_LSA {
        NodeAddr::Router(h.link_state_id)
    } else {
        NodeAddr::Network(h.link_state_id)
    }
}

/// A Router- or Network-LSA that has not reached MaxAge: one that gives a vertex.
pub open spec fn live(l: Lsa) -> bool {
    l.header.ls_age != LSA_MAX_AGE && (l.header.ls_type == ROUTER_LSA || l.header.ls_type == NETWORK_LSA)
}

/// The larger of two costs.
pub open spec fn max_cost(c: u32, b: u32) -> u32 {
    if c >= b {
        c
    } else {
        b
    }
}

/// Edge `e` out of vertex `v` is what the LSAs say: the LSA of `v` names
/// the far end at cost `c`, and the edge weighs `c` when the far end is a
/// stub network; otherwise the far end's LSA names `v` back at some cost
/// `b`, and the edge weighs the larger of `c` and `b`.
pub open spec fn edge_from_lsas(nodes: Seq<NodeAddr>, origin: Seq<usize>, lsas: Seq<Lsa>, v: int, e: Edge) -> bool {
    let to = nodes[e.to as int];
    let mine = named(lsas[origin[v] as int]);
    let theirs = named(lsas[origin[e.to as int] as int]);
    if to is Stub {
        mine.contains((to, e.cost))
    } else {
        exists|c: u32, b: u32|
            #![trigger mine.contains((to, c)), theirs.contains((nodes[v], b))]
            mine.contains((to, c)) && theirs.contains((nodes[v], b)) && e.cost == max_cost(c, b)
    }
}

/// The graph is exactly the one the LSAs describe:
/// - every vertex comes from a live LSA, and a router or network vertex is
///   that LSA's own vertex;
/// - every live LSA has its vertex;
/// - every edge is one the LSAs name (see `edge_from_lsas`);
/// - every stub network a router names has a vertex and an edge at the
///   named cost;
/// - every two router or network vertices that name each other have an
///   edge weighing the larger of the two costs, for each pair of costs.
pub open spec fn graph_matches(g: &SpfGraph, lsas: Seq<Lsa>) -> bool {
    let nodes = g.nodes@;
    let origin = g.origin@;
    &&& g.wf()
    &&& forall|i: int| 0 <= i < origin.len() ==> #[trigger] origin[i] < lsas.len()
    &&& forall|v: int| #![trigger nodes[v]] 0 <= v < nodes.len() ==> live(lsas[origin[v] as int]) && (!(nodes[v] is Stub)
        ==> nodes[v] == lsa_vertex(lsas[origin[v] as int].header))
    &&& forall|k: int| 0 <= k < lsas.len() && live(#[trigger] lsas[k]) ==> nodes.contains(lsa_vertex(lsas[k].header))
    &&& forall|v: int, k: int| #![trigger nodes[v], lsas[k]]
        0 <= v < nodes.len() && !(nodes[v] is Stub) && 0 <= k < origin[v] && live(lsas[k]) ==> lsa_vertex(lsas[k].header) != nodes[v]
    &&& forall|v: int| 0 <= v < nodes.len() && (#[trigger] nodes[v]) is Stub ==> g.adj@[v]@.len() == 0
    &&& forall|v: int, k: int|
        0 <= v < g.adj@.len() && 0 <= k < g.adj@[v]@.len() ==> edge_from_lsas(nodes, origin, lsas, v, #[trigger] g.adj@[v]@[k])
    &&& forall|v: int, x: NodeAddr, c: u32|
        0 <= v < nodes.len() && !(nodes[v] is Stub) && x is Stub && #[trigger] named(lsas[origin[v] as int]).contains((x, c))
            ==> exists|t: int| 0 <= t < nodes.len() && #[trigger] nodes[t] == x && g.adj@[v]@.contains(Edge { to: t as usize, cost: c })
    &&& forall|v: int, w: int, c: u32, b: u32|
        0 <= v < nodes.len() && 0 <= w < nodes.len() && !(nodes[v] is Stub) && !(nodes[w] is Stub)
            && #[trigger] named(lsas[origin[v] as int]).contains((nodes[w], c))
            && #[trigger] named(lsas[origin[w] as int]).contains((nodes[v], b))
            ==> g.adj@[v]@.contains(Edge { to: w as usize, cost: max_cost(c, b) })
}

proof fn lemma_push_keeps<T>(s: Seq<T>, a: T)
    ensures
        forall|x: T| s.contains(x) ==> #[trigger] s.push(a).contains(x),
        s.push(a).contains(a),
{
    assert forall|x: T| s.contains(x) implies #[trigger] s.push(a).contains(x) by {
        let i = choose|i: int| 0 <= i < s.len() && s[i] == x;
        assert(s.push(a)[i] == x);
    }
    assert(s.push(a)[s.len() as int] == a);
}

/// Builds the graph of an area from its LSAs: see `graph_matches`.
pub fn build_graph(lsas: &Vec<Lsa>) -> (g: SpfGraph)
    ensures
        graph_matches(&g, lsas@),
{
    // vertices of the LSAs themselves
    let mut nodes: Vec<NodeAddr> = Vec::new();
    let mut origin: Vec<usize> = Vec::new();
    let mut names: Vec<Vec<(NodeAddr, u32)>> = Vec::new();
    let mut k: usize = 0;
    while k < lsas.len()
        invariant
            k <= lsas@.len(),
            nodes@.len() == origin@.len(),
            names@.len() == nodes@.len(),
            nodes_unique(nodes@),
            forall|i: int| 0 <= i < origin@.len() ==> #[trigger] origin@[i] < lsas@.len(),
            forall|i: int| 0 <= i < names@.len() ==> #[trigger] names@[i]@ == named(lsas@[origin@[i] as int]),
            forall|v: int| #![trigger nodes@[v]] 0 <= v < nodes@.len() ==> live(lsas@[origin@[v] as int]) && nodes@[v]
                == lsa_vertex(lsas@[origin@[v] as int].header),
            forall|j: int| 0 <= j < k && live(#[trigger] lsas@[j]) ==> nodes@.contains(lsa_vertex(lsas@[j].header)),
            forall|v: int, kk: int| #![trigger nodes@[v], lsas@[kk]]
                0 <= v < nodes@.len() && 0 <= kk < origin@[v] && live(lsas@[kk]) ==> lsa_vertex(lsas@[kk].header) != nodes@[v],
        decreases lsas@.len() - k,
    {
        let h = lsas[k].header;
        if h.ls_age != LSA_MAX_AGE && (h.ls_type == ROUTER_LSA || h.ls_type == NETWORK_LSA) {
            let id = if h.ls_type == ROUTER_LSA {
                NodeAddr::Router(h.link_state_id)
            } else {
                NodeAddr::Network(h.link_state_id)
            };
            match position(&nodes, &id) {
                None => {
                    let ghost before = nodes@;
                    let ghost obefore = origin@;
                    assert forall|kk: int| 0 <= kk < k && live(#[trigger] lsas@[kk]) implies lsa_vertex(lsas@[kk].header) != id by {
                        if lsa_vertex(lsas@[kk].header) == id {
                            assert(before.contains(id));
                            let i = choose|i: int| 0 <= i < before.len() && before[i] == id;
                        }
                    }
                    nodes.push(id);
                    origin.push(k);
                    names.push(lsa2nodes(&lsas[k]));
                    proof {
                        lemma_push_keeps(before, id);
                    }
                    assert forall|v: int, kk: int| #![trigger nodes@[v], lsas@[kk]]
                        0 <= v < nodes@.len() && 0 <= kk < origin@[v] && live(lsas@[kk]) implies lsa_vertex(lsas@[kk].header) != nodes@[v] by {
                        if v < before.len() {
                            assert(nodes@[v] == before[v] && origin@[v] == obefore[v]);
                        }
                    }
                    assert(nodes_unique(nodes@)) by {
                        assert forall|a: int, b: int| 0 <= a < nodes@.len() && 0 <= b < nodes@.len() && a != b implies #[trigger] nodes@[a] != #[trigger] nodes@[b] by {
                            if a < before.len() && b < before.len() {
                                assert(nodes@[a] == before[a] && nodes@[b] == before[b]);
                            } else if a < before.len() {
                                assert(nodes@[a] == before[a]);
                            } else {
                                assert(nodes@[b] == before[b]);
                            }
                        }
                    }
                },
                Some(i) => {
                    assert(nodes@[i as int] == id);
                    assert(nodes@.contains(id));
                },
            }
        }
        k = k + 1;
    }
    // stub networks become vertices of their own, owned by the naming LSA
    let base = nodes.len();
    let mut v: usize = 0;
    while v < base
        invariant
            base <= nodes@.len(),
            v <= base,
            nodes@.len() == origin@.len(),
            names@.len() == base,
            nodes_unique(nodes@),
            forall|i: int| 0 <= i < origin@.len() ==> #[trigger] origin@[i] < lsas@.len(),
            forall|i: int| 0 <= i < names@.len() ==> #[trigger] names@[i]@ == named(lsas@[origin@[i] as int]),
            forall|i: int| #![trigger nodes@[i]] 0 <= i < nodes@.len() ==> live(lsas@[origin@[i] as int]) && (i < base
                ==> nodes@[i] == lsa_vertex(lsas@[origin@[i] as int].header)) && (i >= base ==> nodes@[i] is Stub),
            forall|j: int| 0 <= j < lsas@.len() && live(#[trigger] lsas@[j]) ==> nodes@.contains(lsa_vertex(lsas@[j].header)),
            forall|a: int, j: int|
                0 <= a < v && 0 <= j < names@[a]@.len() && (#[trigger] names@[a]@[j]).0 is Stub ==> nodes@.contains(names@[a]@[j].0),
            forall|v: int, kk: int| #![trigger nodes@[v], lsas@[kk]]
                0 <= v < base && 0 <= kk < origin@[v] && live(lsas@[kk]) ==> lsa_vertex(lsas@[kk].header) != nodes@[v],
        decreases base - v,
    {
        let mut j: usize = 0;
        let len = names[v].len();
        while j < len
            invariant
                base <= nodes@.len(),
                v < base,
                len == names@[v as int]@.len(),
                j <= len,
                nodes@.len() == origin@.len(),
                names@.len() == base,
                nodes_unique(nodes@),
                forall|i: int| 0 <= i < origin@.len() ==> #[trigger] origin@[i] < lsas@.len(),
                forall|i: int| 0 <= i < names@.len() ==> #[trigger] names@[i]@ == named(lsas@[origin@[i] as int]),
                forall|i: int| #![trigger nodes@[i]] 0 <= i < nodes@.len() ==> live(lsas@[origin@[i] as int]) && (i < base
                    ==> nodes@[i] == lsa_vertex(lsas@[origin@[i] as int].header)) && (i >= base ==> nodes@[i] is Stub),
                forall|q: int| 0 <= q < lsas@.len() && live(#[trigger] lsas@[q]) ==> nodes@.contains(lsa_vertex(lsas@[q].header)),
                forall|a: int, q: int|
                    ((0 <= a < v && 0 <= q < names@[a]@.len()) || (a == v && 0 <= q < j)) && (#[trigger] names@[a]@[q]).0 is Stub
                        ==> nodes@.contains(names@[a]@[q].0),
                forall|v: int, kk: int| #![trigger nodes@[v], lsas@[kk]]
                    0 <= v < base && 0 <= kk < origin@[v] && live(lsas@[kk]) ==> lsa_vertex(lsas@[kk].header) != nodes@[v],
            decreases len - j,
        {
            let (n, _c) = names[v][j];
            if matches!(n, NodeAddr::Stub(_)) {
                match position(&nodes, &n) {
                    None => {
                        let ghost before = nodes@;
                        let ghost obefore = origin@;
                        let o = origin[v];
                        nodes.push(n);
                        origin.push(o);
                        proof {
                            lemma_push_keeps(before, n);
                        }
                        assert forall|i: int| #![trigger nodes@[i]] 0 <= i < nodes@.len() implies live(lsas@[origin@[i] as int]) && (i < base
                            ==> nodes@[i] == lsa_vertex(lsas@[origin@[i] as int].header)) && (i >= base ==> nodes@[i] is Stub) by {
                            if i < before.len() {
                                assert(nodes@[i] == before[i] && origin@[i] == obefore[i]);
                            } else {
                                assert(origin@[i] == obefore[v as int]);
                                assert(before[v as int] == nodes@[v as int]);
                            }
                        }
                        assert(nodes_unique(nodes@)) by {
                            assert forall|a: int, b: int| 0 <= a < nodes@.len() && 0 <= b < nodes@.len() && a != b implies #[trigger] nodes@[a] != #[trigger] nodes@[b] by {
                                if a < before.len() && b < before.len() {
                                    assert(nodes@[a] == before[a] && nodes@[b] == before[b]);
                                } else if a < before.len() {
                                    assert(nodes@[a] == before[a]);
                                } else {
                                    assert(nodes@[b] == before[b]);
                                }
                            }
                        }
                        assert forall|vv: int, kk: int| #![trigger nodes@[vv], lsas@[kk]]
                            0 <= vv < base && 0 <= kk < origin@[vv] && live(lsas@[kk]) implies lsa_vertex(lsas@[kk].header) != nodes@[vv] by {
                            assert(nodes@[vv] == before[vv] && origin@[vv] == obefore[vv]);
                        }
                    },
                    Some(i) => {
                        assert(nodes@[i as int] == n);
                    },
                }
            }
            assert(names@[v as int]@[j as int] == (n, _c));
            j = j + 1;
        }
        v = v + 1;
    }
    // edges
    let n_nodes = nodes.len();
    let mut adj: Vec<Vec<Edge>> = Vec::new();
    let mut v: usize = 0;
    while v < n_nodes
        invariant
            n_nodes == nodes@.len(),
            nodes@.len() == origin@.len(),
            v <= n_nodes,
            base <= n_nodes,
            names@.len() == base,
            adj@.len() == v,
            nodes_unique(nodes@),
            forall|i: int| 0 <= i < origin@.len() ==> #[trigger] origin@[i] < lsas@.len(),
            forall|i: int| 0 <= i < names@.len() ==> #[trigger] names@[i]@ == named(lsas@[origin@[i] as int]),
            forall|i: int| #![trigger nodes@[i]] 0 <= i < nodes@.len() ==> live(lsas@[origin@[i] as int]) && (i < base
                ==> nodes@[i] == lsa_vertex(lsas@[origin@[i] as int].header)) && (i >= base ==> nodes@[i] is Stub),
            forall|q: int| 0 <= q < lsas@.len() && live(#[trigger] lsas@[q]) ==> nodes@.contains(lsa_vertex(lsas@[q].header)),
            forall|a: int, q: int|
                0 <= a < base && 0 <= q < names@[a]@.len() && (#[trigger] names@[a]@[q]).0 is Stub ==> nodes@.contains(names@[a]@[q].0),
            forall|i: int, k: int|
                0 <= i < adj@.len() && 0 <= k < adj@[i]@.len() ==> #[trigger] adj@[i]@[k].to < n_nodes,
            forall|i: int, k: int|
                0 <= i < adj@.len() && 0 <= k < adj@[i]@.len() ==> edge_from_lsas(nodes@, origin@, lsas@, i, #[trigger] adj@[i]@[k]),
            forall|a: int, x: NodeAddr, c: u32|
                0 <= a < v && !(nodes@[a] is Stub) && x is Stub && #[trigger] named(lsas@[origin@[a] as int]).contains((x, c))
                    ==> exists|t: int| 0 <= t < n_nodes && #[trigger] nodes@[t] == x && adj@[a]@.contains(Edge { to: t as usize, cost: c }),
            forall|a: int, w: int, c: u32, b: u32|
                0 <= a < v && 0 <= w < n_nodes && !(nodes@[a] is Stub) && !(nodes@[w] is Stub)
                    && #[trigger] named(lsas@[origin@[a] as int]).contains((nodes@[w], c))
                    && #[trigger] named(lsas@[origin@[w] as int]).contains((nodes@[a], b))
                    ==> adj@[a]@.contains(Edge { to: w as usize, cost: max_cost(c, b) }),
            forall|v: int, kk: int| #![trigger nodes@[v], lsas@[kk]]
                0 <= v < base && 0 <= kk < origin@[v] && live(lsas@[kk]) ==> lsa_vertex(lsas@[kk].header) != nodes@[v],
            forall|a: int| 0 <= a < v && (#[trigger] nodes@[a]) is Stub ==> adj@[a]@.len() == 0,
        decreases n_nodes - v,
    {
        let mut out: Vec<Edge> = Vec::new();
        if v < base {
            let me = nodes[v];
            let mut j: usize = 0;
            let len = names[v].len();
            while j < len
                invariant
                    n_nodes == nodes@.len(),
                    nodes@.len() == origin@.len(),
                    v < base,
                    base <= n_nodes,
                    me == nodes@[v as int],
                    names@.len() == base,
                    len == names@[v as int]@.len(),
                    j <= len,
                    nodes_unique(nodes@),
                    forall|i: int| 0 <= i < origin@.len() ==> #[trigger] origin@[i] < lsas@.len(),
                    forall|i: int| 0 <= i < names@.len() ==> #[trigger] names@[i]@ == named(lsas@[origin@[i] as int]),
                    forall|i: int| #![trigger nodes@[i]] 0 <= i < nodes@.len() ==> live(lsas@[origin@[i] as int]) && (i < base
                        ==> nodes@[i] == lsa_vertex(lsas@[origin@[i] as int].header)) && (i >= base ==> nodes@[i] is Stub),
                    forall|a: int, q: int|
                        0 <= a < base && 0 <= q < names@[a]@.len() && (#[trigger] names@[a]@[q]).0 is Stub ==> nodes@.contains(names@[a]@[q].0),
                    forall|k: int| 0 <= k < out@.len() ==> #[trigger] out@[k].to < n_nodes,
                    forall|k: int| 0 <= k < out@.len() ==> edge_from_lsas(nodes@, origin@, lsas@, v as int, #[trigger] out@[k]),
                    forall|q: int| #![trigger names@[v as int]@[q]] 0 <= q < j ==> {
                        let (x, c) = names@[v as int]@[q];
                        &&& x is Stub ==> exists|t: int| 0 <= t < n_nodes && #[trigger] nodes@[t] == x && out@.contains(Edge { to: t as usize, cost: c })
                        &&& !(x is Stub) ==> forall|w: int, b: u32|
                            0 <= w < n_nodes && nodes@[w] == x && #[trigger] names@[w]@.contains((me, b))
                                ==> out@.contains(Edge { to: w as usize, cost: max_cost(c, b) })
                    },
                decreases len - j,
            {
                let (n, c) = names[v][j];
                assert(names@[v as int]@[j as int] == (n, c));
                assert(named(lsas@[origin@[v as int] as int]).contains((n, c)));
                let ghost out0 = out@;
                match position(&nodes, &n) {
                    Some(t) => {
                        if matches!(n, NodeAddr::Stub(_)) {
                            let e = Edge { to: t, cost: c };
                            out.push(e);
                            proof {
                                lemma_push_keeps(out0, e);
                            }
                        } else if t < base {
                            let ln = names[t].len();
                            let mut m: usize = 0;
                            while m < ln
                                invariant
                                    n_nodes == nodes@.len(),
                                    nodes@.len() == origin@.len(),
                                    v < base,
                                    t < base,
                                    base <= n_nodes,
                                    me == nodes@[v as int],
                                    n == nodes@[t as int],
                                    !(n is Stub),
                                    names@.len() == base,
                                    ln == names@[t as int]@.len(),
                                    m <= ln,
                                    named(lsas@[origin@[v as int] as int]).contains((n, c)),
                                    forall|i: int| 0 <= i < origin@.len() ==> #[trigger] origin@[i] < lsas@.len(),
                                    forall|i: int| 0 <= i < names@.len() ==> #[trigger] names@[i]@ == named(lsas@[origin@[i] as int]),
                                    forall|k: int| 0 <= k < out@.len() ==> #[trigger] out@[k].to < n_nodes,
                                    forall|k: int| 0 <= k < out@.len() ==> edge_from_lsas(nodes@, origin@, lsas@, v as int, #[trigger] out@[k]),
                                    forall|x: Edge| out0.contains(x) ==> #[trigger] out@.contains(x),
                                    forall|q: int| 0 <= q < m && (#[trigger] names@[t as int]@[q]).0 == me ==> out@.contains(
                                        Edge { to: t, cost: max_cost(c, names@[t as int]@[q].1) },
                                    ),
                                decreases ln - m,
                            {
                                let (back_to, b) = names[t][m];
                                if same_node(&back_to, &me) {
                                    let e = Edge { to: t, cost: if c >= b { c } else { b } };
                                    assert(names@[t as int]@[m as int] == (me, b));
                                    assert(named(lsas@[origin@[t as int] as int]).contains((nodes@[v as int], b)));
                                    assert(edge_from_lsas(nodes@, origin@, lsas@, v as int, e));
                                    let ghost o1 = out@;
                                    out.push(e);
                                    proof {
                                        lemma_push_keeps(o1, e);
                                    }
                                }
                                m = m + 1;
                            }
                            assert forall|w: int, b: u32| 0 <= w < n_nodes && nodes@[w] == n && #[trigger] names@[w]@.contains((me, b)) implies out@.contains(Edge { to: w as usize, cost: max_cost(c, b) }) by {
                                assert(w == t as int);
                                let q = choose|q: int| 0 <= q < names@[t as int]@.len() && names@[t as int]@[q] == (me, b);
                                assert(names@[t as int]@[q].0 == me);
                            }
                        }
                    },
                    None => {},
                }
                assert forall|q: int| #![trigger names@[v as int]@[q]] 0 <= q < j + 1 implies {
                    let (x, cc) = names@[v as int]@[q];
                    &&& x is Stub ==> exists|t: int| 0 <= t < n_nodes && #[trigger] nodes@[t] == x && out@.contains(Edge { to: t as usize, cost: cc })
                    &&& !(x is Stub) ==> forall|w: int, b: u32|
                        0 <= w < n_nodes && nodes@[w] == x && #[trigger] names@[w]@.contains((me, b))
                            ==> out@.contains(Edge { to: w as usize, cost: max_cost(cc, b) })
                } by {
                    if q < j {
                    } else {
                        if n is Stub {
                            assert(nodes@.contains(n));
                        } else {
                            assert forall|w: int, b: u32| 0 <= w < n_nodes && nodes@[w] == n && #[trigger] names@[w]@.contains((me, b)) implies out@.contains(Edge { to: w as usize, cost: max_cost(c, b) }) by {
                                if w >= base {
                                    assert(nodes@[w] is Stub);
                                }
                            }
                        }
                    }
                }
                j = j + 1;
            }
        }
        let ghost before = adj@;
        assert(v >= base ==> out@.len() == 0);
        adj.push(out);
        assert forall|a: int| 0 <= a < v + 1 && (#[trigger] nodes@[a]) is Stub implies adj@[a]@.len() == 0 by {
            if a < v {
                assert(adj@[a] == before[a]);
            } else {
                assert(a >= base);
            }
        }
        assert forall|i: int, k: int| 0 <= i < adj@.len() && 0 <= k < adj@[i]@.len() implies #[trigger] adj@[i]@[k].to < n_nodes by {
            if i < v {
                assert(adj@[i] == before[i]);
            }
        }
        assert forall|i: int, k: int|
            0 <= i < adj@.len() && 0 <= k < adj@[i]@.len() implies edge_from_lsas(nodes@, origin@, lsas@, i, #[trigger] adj@[i]@[k]) by {
            if i < v {
                assert(adj@[i] == before[i]);
            }
        }
        assert forall|a: int, x: NodeAddr, c: u32|
            0 <= a < v + 1 && !(nodes@[a] is Stub) && x is Stub && #[trigger] named(lsas@[origin@[a] as int]).contains((x, c))
                implies exists|t: int| 0 <= t < n_nodes && #[trigger] nodes@[t] == x && adj@[a]@.contains(Edge { to: t as usize, cost: c }) by {
            if a < v {
                assert(adj@[a] == before[a]);
            } else {
                assert(a < base);
                let q = choose|q: int| 0 <= q < names@[a]@.len() && names@[a]@[q] == (x, c);
                assert(names@[v as int]@[q] == (x, c));
            }
        }
        assert forall|a: int, w: int, c: u32, b: u32|
            0 <= a < v + 1 && 0 <= w < n_nodes && !(nodes@[a] is Stub) && !(nodes@[w] is Stub)
                && #[trigger] named(lsas@[origin@[a] as int]).contains((nodes@[w], c))
                && #[trigger] named(lsas@[origin@[w] as int]).contains((nodes@[a], b))
                implies adj@[a]@.contains(Edge { to: w as usize, cost: max_cost(c, b) }) by {
            if a < v {
                assert(adj@[a] == before[a]);
            } else {
                assert(a < base);
                assert(w < base);
                let q = choose|q: int| 0 <= q < names@[a]@.len() && names@[a]@[q] == (nodes@[w], c);
                assert(names@[v as int]@[q] == (nodes@[w], c));
                assert(names@[w]@.contains((nodes@[v as int], b)));
            }
        }
        v = v + 1;
    }
    let _count = nodes.len();
    let g = SpfGraph { nodes, origin, adj };
    assert forall|vv: int, kk: int| #![trigger nodes@[vv], lsas@[kk]]
        0 <= vv < g.nodes@.len() && !(g.nodes@[vv] is Stub) && 0 <= kk < g.origin@[vv] && live(lsas@[kk]) implies lsa_vertex(lsas@[kk].header) != g.nodes@[vv] by {
        assert(vv < base);
    }
    assert forall|v: int| #![trigger g.nodes@[v]] 0 <= v < g.nodes@.len() implies live(lsas@[g.origin@[v] as int]) && (!(g.nodes@[v] is Stub)
        ==> g.nodes@[v] == lsa_vertex(lsas@[g.origin@[v] as int].header)) by {
        assert(v >= base ==> g.nodes@[v] is Stub);
    }
    g
}

// ---------------------------------------------------------------------------
// Dijkstra
/// A vertex reached by the search: its distance from the root and, except
/// for the root, the parent and the index of the parent's edge used.
#[derive(Clone, Copy, Debug, PartialEq, Eq)]
pub struct Reach {
    pub dist: u64,
    pub parent: Option<(usize, usize)>,
}

/// Every reached vertex is the root at distance 0, or is reached over an
/// edge of the graph from a reached parent, at the parent's distance plus
/// the edge's weight.
pub open spec fn reach_sound(g: &SpfGraph, root: int, r: Seq<Option<Reach>>) -> bool {
    &&& r.len() == g.nodes@.len()
    &&& forall|i: int| #![trigger r[i]] 0 <= i < r.len() && r[i] is Some ==> {
        let x = r[i].unwrap();
        if i == root {
            x.dist == 0 && x.parent is None
        } else {
            x.parent is Some && {
                let (p, k) = x.parent.unwrap();
                &&& p < r.len()
                &&& r[p as int] is Some
                &&& k < g.adj@[p as int]@.len()
                &&& g.adj@[p as int]@[k as int].to == i
                &&& x.dist == r[p as int].unwrap().dist + g.adj@[p as int]@[k as int].cost
            }
        }
    }
}

/// The vertex a path of hops (vertex, edge index) from `from` ends at.
pub open spec fn path_end(g: &SpfGraph, from: int, p: Seq<(int, int)>) -> int {
    if p.len() == 0 {
        from
    } else {
        g.adj@[p.last().0 as int]@[p.last().1 as int].to as int
    }
}

/// Each hop leaves from where the previous one arrived, over an edge of the graph.
pub open spec fn valid_path(g: &SpfGraph, from: int, p: Seq<(int, int)>) -> bool
    decreases p.len(),
{
    if p.len() == 0 {
        true
    } else {
        &&& valid_path(g, from, p.drop_last())
        &&& p.last().0 == path_end(g, from, p.drop_last())
        &&& 0 <= p.last().0 < g.adj@.len()
        &&& 0 <= p.last().1 < g.adj@[p.last().0]@.len()
    }
}

/// The sum of the weights of the path's edges.
pub open spec fn path_weight(g: &SpfGraph, p: Seq<(int, int)>) -> int
    decreases p.len(),
{
    if p.len() == 0 {
        0
    } else {
        path_weight(g, p.drop_last()) + g.adj@[p.last().0 as int]@[p.last().1 as int].cost
    }
}

proof fn lemma_weight_nonneg(g: &SpfGraph, p: Seq<(int, int)>)
    ensures
        path_weight(g, p) >= 0,
    decreases p.len(),
{
    if p.len() > 0 {
        lemma_weight_nonneg(g, p.drop_last());
    }
}

/// Some path from `root` to `i` weighs exactly `d`.
pub open spec fn attained(g: &SpfGraph, root: int, i: int, d: int) -> bool {
    exists|p: Seq<(int, int)>| valid_path(g, root, p) && #[trigger] path_end(g, root, p) == i && path_weight(g, p) == d
}

/// Every vertex with a distance is reached by a path of that weight.
pub open spec fn all_attained(g: &SpfGraph, root: int, t: Seq<Option<Reach>>) -> bool {
    forall|i: int| 0 <= i < t.len() && #[trigger] t[i] is Some ==> attained(g, root, i, t[i].unwrap().dist as int)
}

/// Settled vertices are at most as far as any path to them.
pub open spec fn settled_optimal(g: &SpfGraph, root: int, done: Seq<bool>, t: Seq<Option<Reach>>) -> bool {
    forall|i: int, p: Seq<(int, int)>|
        0 <= i < done.len() && #[trigger] done[i] && valid_path(g, root, p) && #[trigger] path_end(g, root, p) == i
            ==> t[i] is Some && t[i].unwrap().dist <= path_weight(g, p)
}

/// Every edge out of a settled vertex (but the first `k` of `u`'s, when
/// `u` is being relaxed) has been relaxed: its far end is settled, or holds
/// a distance no larger than through the edge, or the sum overflows.
pub open spec fn relaxed(g: &SpfGraph, done: Seq<bool>, t: Seq<Option<Reach>>, u: int, k: int) -> bool {
    forall|y: int, e: int| #![trigger g.adj@[y]@[e]]
        0 <= y < done.len() && done[y] && 0 <= e < g.adj@[y]@.len() && (y != u || e < k) ==> {
            let x = g.adj@[y]@[e].to as int;
            ||| done[x]
            ||| (t[x] is Some && t[x].unwrap().dist <= t[y].unwrap().dist + g.adj@[y]@[e].cost)
            ||| t[y].unwrap().dist + g.adj@[y]@[e].cost > u64::MAX
        }
}

/// A path from the root that ends at an unsettled vertex is at least as
/// long as the closest unsettled vertex `u`.
proof fn lemma_frontier(g: &SpfGraph, root: int, done: Seq<bool>, t: Seq<Option<Reach>>, u: int, p: Seq<(int, int)>)
    requires
        g.wf(),
        done.len() == g.nodes@.len(),
        t.len() == g.nodes@.len(),
        0 <= root < done.len(),
        0 <= u < done.len(),
        done[root],
        !done[u],
        t[u] is Some,
        forall|j: int| 0 <= j < done.len() && !done[j] && #[trigger] t[j] is Some ==> t[u].unwrap().dist <= t[j].unwrap().dist,
        forall|j: int| 0 <= j < done.len() && #[trigger] done[j] ==> t[j] is Some,
        settled_optimal(g, root, done, t),
        relaxed(g, done, t, -1, 0),
        valid_path(g, root, p),
    ensures
        done[path_end(g, root, p)] || t[u].unwrap().dist <= path_weight(g, p),
    decreases p.len(),
{
    if p.len() > 0 {
        let q = p.drop_last();
        lemma_frontier(g, root, done, t, u, q);
        let y = path_end(g, root, q);
        let (v, e) = p.last();
        assert(v as int == y);
        let x = path_end(g, root, p);
        assert(0 <= y < done.len()) by {
            if q.len() > 0 {
                assert(g.adj@[q.last().0 as int]@[q.last().1 as int].to < g.nodes@.len());
            }
        }
        assert(g.adj@[y]@[e as int].to < g.nodes@.len());
        if done[y] {
            assert(t[y].unwrap().dist <= path_weight(g, q));
            assert(path_weight(g, p) == path_weight(g, q) + g.adj@[y]@[e as int].cost);
            if !done[x] {
                let edge = g.adj@[y]@[e as int];
                assert(x == edge.to as int);
                if t[x] is Some {
                    assert(t[u].unwrap().dist <= t[x].unwrap().dist);
                }
            }
        } else {
            assert(path_weight(g, p) >= path_weight(g, q));
        }
    }
}

/// How many entries of `s` are true.
pub open spec fn count_true(s: Seq<bool>) -> nat
    decreases s.len(),
{
    if s.len() == 0 {
        0
    } else {
        count_true(s.drop_last()) + if s.last() { 1nat } else { 0nat }
    }
}

proof fn lemma_count_set(s: Seq<bool>, u: int)
    requires
        0 <= u < s.len(),
        !s[u],
    ensures
        count_true(s.update(u, true)) == count_true(s) + 1,
    decreases s.len(),
{
    let t = s.update(u, true);
    if u < s.len() - 1 {
        assert(t.drop_last() =~= s.drop_last().update(u, true));
        lemma_count_set(s.drop_last(), u);
    } else {
        assert(t.drop_last() =~= s.drop_last());
    }
}

proof fn lemma_count_zero(s: Seq<bool>)
    requires
        forall|j: int| 0 <= j < s.len() ==> !#[trigger] s[j],
    ensures
        count_true(s) == 0,
    decreases s.len(),
{
    if s.len() > 0 {
        assert forall|j: int| 0 <= j < s.len() - 1 implies !#[trigger] s.drop_last()[j] by {
            assert(s.drop_last()[j] == s[j]);
        }
        lemma_count_zero(s.drop_last());
        assert(!s[s.len() - 1]);
    }
}

proof fn lemma_count_full(s: Seq<bool>)
    ensures
        count_true(s) <= s.len(),
        count_true(s) == s.len() ==> forall|j: int| 0 <= j < s.len() ==> #[trigger] s[j],
    decreases s.len(),
{
    if s.len() > 0 {
        lemma_count_full(s.drop_last());
        if count_true(s) == s.len() {
            assert forall|j: int| 0 <= j < s.len() implies #[trigger] s[j] by {
                if j < s.len() - 1 {
                    assert(s.drop_last()[j] == s[j]);
                }
            }
        }
    }
}

/// No edge leaves the settled vertices for an unsettled one, but for
/// sums too large to represent.
pub open spec fn closed(g: &SpfGraph, done: Seq<bool>, t: Seq<Option<Reach>>) -> bool {
    forall|y: int, e: int| #![trigger g.adj@[y]@[e]]
        0 <= y < done.len() && done[y] && 0 <= e < g.adj@[y]@.len() ==> done[g.adj@[y]@[e].to as int]
            || t[y].unwrap().dist + g.adj@[y]@[e].cost > u64::MAX
}

/// Once the settled set is closed, every path of representable weight from
/// the root ends at a settled vertex.
proof fn lemma_reach_all(g: &SpfGraph, root: int, done: Seq<bool>, t: Seq<Option<Reach>>, p: Seq<(int, int)>)
    requires
        g.wf(),
        done.len() == g.nodes@.len(),
        0 <= root < done.len(),
        done[root],
        closed(g, done, t),
        settled_optimal(g, root, done, t),
        valid_path(g, root, p),
        path_weight(g, p) <= u64::MAX,
    ensures
        done[path_end(g, root, p)],
    decreases p.len(),
{
    if p.len() > 0 {
        let q = p.drop_last();
        lemma_weight_nonneg(g, q);
        let (v, e) = p.last();
        assert(path_weight(g, q) <= path_weight(g, p));
        lemma_reach_all(g, root, done, t, q);
        let y = path_end(g, root, q);
        assert(0 <= y < done.len()) by {
            if q.len() > 0 {
                assert(g.adj@[q.last().0 as int]@[q.last().1 as int].to < g.nodes@.len());
            }
        }
        assert(t[y].unwrap().dist <= path_weight(g, q));
        let edge = g.adj@[y]@[e as int];
        assert(done[edge.to as int] || t[y].unwrap().dist + edge.cost > u64::MAX);
    }
}

/// Shortest-path search from `root`. Each vertex reached carries a
/// distance that is the sum of the edge weights along its parent chain
/// back to the root, and no path from the root to it weighs less; every
/// vertex that a path of representable weight leads to is reached.
pub fn dijkstra(g: &SpfGraph, root: usize) -> (r: Vec<Option<Reach>>)
    requires
        g.wf(),
        root < g.nodes@.len(),
    ensures
        reach_sound(g, root as int, r@),
        r@[root as int] == Some(Reach { dist: 0, parent: None }),
        forall|i: int, p: Seq<(int, int)>|
            0 <= i < r@.len() && #[trigger] r@[i] is Some && valid_path(g, root as int, p) && #[trigger] path_end(g, root as int, p) == i
                ==> r@[i].unwrap().dist <= path_weight(g, p),
        forall|p: Seq<(int, int)>|
            valid_path(g, root as int, p) && path_weight(g, p) <= u64::MAX ==> #[trigger] r@[path_end(g, root as int, p)] is Some,
        all_attained(g, root as int, r@),
{
    let n = g.nodes.len();
    let mut done: Vec<bool> = Vec::new();
    let mut tent: Vec<Option<Reach>> = Vec::new();
    let mut i: usize = 0;
    while i < n
        invariant
            n == g.nodes@.len(),
            i <= n,
            done@.len() == i,
            tent@.len() == i,
            forall|j: int| 0 <= j < i ==> !#[trigger] done@[j],
            forall|j: int| 0 <= j < i ==> #[trigger] tent@[j] is None,
        decreases n - i,
    {
        done.push(false);
        tent.push(None);
        i = i + 1;
    }
    tent.set(root, Some(Reach { dist: 0, parent: None }));
    assert(all_attained(g, root as int, tent@)) by {
        assert forall|i: int| 0 <= i < tent@.len() && #[trigger] tent@[i] is Some implies attained(g, root as int, i, tent@[i].unwrap().dist as int) by {
            assert(i == root);
            let p = Seq::<(int, int)>::empty();
            assert(valid_path(g, root as int, p) && path_end(g, root as int, p) == i && path_weight(g, p) == 0);
        }
    }
    proof {
        lemma_count_zero(done@);
    }
    let mut round: usize = 0;
    while round < n
        invariant
            g.wf(),
            n == g.nodes@.len(),
            root < n,
            done@.len() == n,
            reach_sound(g, root as int, tent@),
            tent@[root as int] == Some(Reach { dist: 0, parent: None }),
            forall|j: int| 0 <= j < n && #[trigger] done@[j] ==> tent@[j] is Some,
            forall|j: int| #![trigger tent@[j]] 0 <= j < n && tent@[j] is Some && j != root ==> done@[tent@[j].unwrap().parent.unwrap().0 as int],
            forall|j: int| 0 <= j < n && #[trigger] done@[j] ==> done@[root as int],
            !done@[root as int] ==> forall|j: int| 0 <= j < n && j != root ==> #[trigger] tent@[j] is None,
            settled_optimal(g, root as int, done@, tent@),
            relaxed(g, done@, tent@, -1, 0),
            round > 0 ==> done@[root as int],
            count_true(done@) == round,
            round <= n,
            all_attained(g, root as int, tent@),
        ensures
            done@[root as int],
            count_true(done@) == n || closed(g, done@, tent@),
        decreases n - round,
    {
        // the closest vertex not yet settled
        let mut best: Option<usize> = None;
        let mut j: usize = 0;
        while j < n
            invariant
                n == g.nodes@.len(),
                done@.len() == n,
                tent@.len() == n,
                j <= n,
                match best {
                    Some(b) => b < n && !done@[b as int] && tent@[b as int] is Some && forall|m: int|
                        0 <= m < j && !done@[m] && #[trigger] tent@[m] is Some ==> tent@[b as int].unwrap().dist
                            <= tent@[m].unwrap().dist,
                    None => forall|m: int| 0 <= m < j ==> done@[m] || #[trigger] tent@[m] is None,
                },
            decreases n - j,
        {
            if !done[j] {
                match tent[j] {
                    Some(x) => {
                        match best {
                            Some(b) => {
                                if x.dist < tent[b].unwrap().dist {
                                    best = Some(j);
                                }
                            },
                            None => {
                                best = Some(j);
                            },
                        }
                    },
                    None => {},
                }
            }
            j = j + 1;
        }
        let u = match best {
            Some(u) => u,
            None => {
                assert(done@[root as int] || tent@[root as int] is None);
                assert(closed(g, done@, tent@)) by {
                    assert forall|y: int, e: int| #![trigger g.adj@[y]@[e]]
                        0 <= y < done@.len() && done@[y] && 0 <= e < g.adj@[y]@.len() implies done@[g.adj@[y]@[e].to as int]
                            || tent@[y].unwrap().dist + g.adj@[y]@[e].cost > u64::MAX by {
                        let x = g.adj@[y]@[e].to as int;
                        assert(done@[x] || tent@[x] is None);
                    }
                }
                break;
            },
        };
        proof {
            if done@[root as int] {
                assert forall|p: Seq<(int, int)>| valid_path(g, root as int, p) && path_end(g, root as int, p) == u as int implies tent@[u as int].unwrap().dist <= path_weight(g, p) by {
                    lemma_frontier(g, root as int, done@, tent@, u as int, p);
                }
            } else {
                assert(u == root);
                assert forall|p: Seq<(int, int)>| valid_path(g, root as int, p) && path_end(g, root as int, p) == u as int implies tent@[u as int].unwrap().dist <= path_weight(g, p) by {
                    lemma_weight_nonneg(g, p);
                }
            }
        }
        let ghost done0 = done@;
        proof {
            lemma_count_set(done@, u as int);
        }
        done.set(u, true);
        assert(done@ == done0.update(u as int, true));
        assert(settled_optimal(g, root as int, done@, tent@)) by {
            assert forall|i: int, p: Seq<(int, int)>|
                0 <= i < done@.len() && #[trigger] done@[i] && valid_path(g, root as int, p) && #[trigger] path_end(g, root as int, p) == i
                    implies tent@[i] is Some && tent@[i].unwrap().dist <= path_weight(g, p) by {
                if i != u {
                    assert(done0[i]);
                }
            }
        }
        assert(relaxed(g, done@, tent@, u as int, 0)) by {
            assert forall|y: int, e: int| #![trigger g.adj@[y]@[e]]
                0 <= y < done@.len() && done@[y] && 0 <= e < g.adj@[y]@.len() && (y != u || e < 0) implies {
                    let x = g.adj@[y]@[e].to as int;
                    ||| done@[x]
                    ||| (tent@[x] is Some && tent@[x].unwrap().dist <= tent@[y].unwrap().dist + g.adj@[y]@[e].cost)
                    ||| tent@[y].unwrap().dist + g.adj@[y]@[e].cost > u64::MAX
                } by {
                assert(done0[y]);
                let x = g.adj@[y]@[e].to as int;
                if done0[x] {
                    assert(done@[x]);
                }
            }
        }
        let du = tent[u].unwrap().dist;
        let m = g.adj[u].len();
        let mut k: usize = 0;
        while k < m
            invariant
                g.wf(),
                n == g.nodes@.len(),
                root < n,
                u < n,
                done@.len() == n,
                done@[u as int],
                done@[root as int],
                tent@[u as int] is Some,
                tent@[u as int].unwrap().dist == du,
                m == g.adj@[u as int]@.len(),
                k <= m,
                reach_sound(g, root as int, tent@),
                tent@[root as int] == Some(Reach { dist: 0, parent: None }),
                forall|j: int| 0 <= j < n && #[trigger] done@[j] ==> tent@[j] is Some,
                forall|j: int| #![trigger tent@[j]] 0 <= j < n && tent@[j] is Some && j != root ==> done@[tent@[j].unwrap().parent.unwrap().0 as int],
                forall|j: int| 0 <= j < n && #[trigger] done@[j] ==> done@[root as int],
                settled_optimal(g, root as int, done@, tent@),
                relaxed(g, done@, tent@, u as int, k as int),
                all_attained(g, root as int, tent@),
            decreases m - k,
        {
            let e = g.adj[u][k];
            assert(e.to < n);
            let ghost before = tent@;
            if e.to != root && !done[e.to] {
                if du <= u64::MAX - e.cost as u64 {
                    let nd = du + e.cost as u64;
                    let better = match tent[e.to] {
                        None => true,
                        Some(x) => nd < x.dist,
                    };
                    if better {
                        let ghost pu = choose|p: Seq<(int, int)>| valid_path(g, root as int, p) && #[trigger] path_end(g, root as int, p) == u as int
                            && path_weight(g, p) == du as int;
                        tent.set(e.to, Some(Reach { dist: nd, parent: Some((u, k)) }));
                        assert(all_attained(g, root as int, tent@)) by {
                            assert forall|i: int| 0 <= i < tent@.len() && #[trigger] tent@[i] is Some implies attained(g, root as int, i, tent@[i].unwrap().dist as int) by {
                                if i == e.to as int {
                                    let p2 = pu.push((u as int, k as int));
                                    assert(p2.drop_last() =~= pu);
                                    assert(valid_path(g, root as int, p2) && path_end(g, root as int, p2) == i && path_weight(g, p2) == nd as int);
                                } else {
                                    assert(tent@[i] == before[i]);
                                }
                            }
                        }
                        assert forall|j: int| #![trigger tent@[j]] 0 <= j < n && tent@[j] is Some && j != root implies done@[tent@[j].unwrap().parent.unwrap().0 as int] by {
                            if j != e.to {
                                assert(tent@[j] == before[j]);
                            }
                        }
                        assert(reach_sound(g, root as int, tent@)) by {
                            assert forall|i: int| #![trigger tent@[i]] 0 <= i < tent@.len() && tent@[i] is Some implies {
                                let x = tent@[i].unwrap();
                                if i == root {
                                    x.dist == 0 && x.parent is None
                                } else {
                                    x.parent is Some && {
                                        let (p, kk) = x.parent.unwrap();
                                        &&& p < tent@.len()
                                        &&& tent@[p as int] is Some
                                        &&& kk < g.adj@[p as int]@.len()
                                        &&& g.adj@[p as int]@[kk as int].to == i
                                        &&& x.dist == tent@[p as int].unwrap().dist + g.adj@[p as int]@[kk as int].cost
                                    }
                                }
                            } by {
                                if i != e.to {
                                    assert(tent@[i] == before[i]);
                                    if i != root {
                                        let p = before[i].unwrap().parent.unwrap().0;
                                        assert(done@[p as int]);
                                        assert(p != e.to);
                                        assert(tent@[p as int] == before[p as int]);
                                    }
                                } else {
                                    assert(tent@[u as int] == before[u as int]);
                                }
                            }
                        }
                        assert(settled_optimal(g, root as int, done@, tent@)) by {
                            assert forall|i: int, p: Seq<(int, int)>|
                                0 <= i < done@.len() && #[trigger] done@[i] && valid_path(g, root as int, p) && #[trigger] path_end(g, root as int, p) == i
                                    implies tent@[i] is Some && tent@[i].unwrap().dist <= path_weight(g, p) by {
                                assert(i != e.to);
                                assert(tent@[i] == before[i]);
                            }
                        }
                    }
                }
            }
            assert(relaxed(g, done@, tent@, u as int, k + 1)) by {
                assert forall|y: int, ee: int| #![trigger g.adj@[y]@[ee]]
                    0 <= y < done@.len() && done@[y] && 0 <= ee < g.adj@[y]@.len() && (y != u || ee < k + 1) implies {
                        let x = g.adj@[y]@[ee].to as int;
                        ||| done@[x]
                        ||| (tent@[x] is Some && tent@[x].unwrap().dist <= tent@[y].unwrap().dist + g.adj@[y]@[ee].cost)
                        ||| tent@[y].unwrap().dist + g.adj@[y]@[ee].cost > u64::MAX
                    } by {
                    let x = g.adj@[y]@[ee].to as int;
                    assert(tent@[y] == before[y]);
                    if y == u && ee == k {
                        assert(g.adj@[y]@[ee] == e);
                    } else if x == e.to as int && !done@[x] {
                        assert(before[x] is Some ==> tent@[x].unwrap().dist <= before[x].unwrap().dist);
                    } else {
                        assert(tent@[x] == before[x]);
                    }
                }
            }
            k = k + 1;
        }
        assert(relaxed(g, done@, tent@, -1, 0)) by {
            assert forall|y: int, e: int| #![trigger g.adj@[y]@[e]]
                0 <= y < done@.len() && done@[y] && 0 <= e < g.adj@[y]@.len() && (y != -1 || e < 0) implies {
                    let x = g.adj@[y]@[e].to as int;
                    ||| done@[x]
                    ||| (tent@[x] is Some && tent@[x].unwrap().dist <= tent@[y].unwrap().dist + g.adj@[y]@[e].cost)
                    ||| tent@[y].unwrap().dist + g.adj@[y]@[e].cost > u64::MAX
                } by {
                if y == u {
                    assert(e < m);
                }
            }
        }
        round = round + 1;
    }
    // keep only the settled vertices
    let mut out: Vec<Option<Reach>> = Vec::new();
    let mut j: usize = 0;
    while j < n
        invariant
            n == g.nodes@.len(),
            root < n,
            done@.len() == n,
            tent@.len() == n,
            j <= n,
            out@.len() == j,
            forall|m: int| 0 <= m < j ==> #[trigger] out@[m] == if done@[m] { tent@[m] } else { None },
        decreases n - j,
    {
        out.push(if done[j] { tent[j] } else { None });
        j = j + 1;
    }
    assert(done@[root as int]);
    assert(out@[root as int] == tent@[root as int]);
    assert(all_attained(g, root as int, out@)) by {
        assert forall|i: int| 0 <= i < out@.len() && #[trigger] out@[i] is Some implies attained(g, root as int, i, out@[i].unwrap().dist as int) by {
            assert(out@[i] == tent@[i]);
        }
    }
    proof {
        lemma_count_full(done@);
        assert forall|p: Seq<(int, int)>|
            valid_path(g, root as int, p) && path_weight(g, p) <= u64::MAX implies #[trigger] out@[path_end(g, root as int, p)] is Some by {
            let i = path_end(g, root as int, p);
            assert(0 <= i < n) by {
                if p.len() > 0 {
                    assert(g.adj@[p.last().0 as int]@[p.last().1 as int].to < g.nodes@.len());
                }
            }
            if count_true(done@) != n {
                lemma_reach_all(g, root as int, done@, tent@, p);
            }
            assert(done@[i]);
        }
    }
    assert(reach_sound(g, root as int, out@)) by {
        assert forall|i: int| #![trigger out@[i]] 0 <= i < out@.len() && out@[i] is Some implies {
            let x = out@[i].unwrap();
            if i == root {
                x.dist == 0 && x.parent is None
            } else {
                x.parent is Some && {
                    let (p, kk) = x.parent.unwrap();
                    &&& p < out@.len()
                    &&& out@[p as int] is Some
                    &&& kk < g.adj@[p as int]@.len()
                    &&& g.adj@[p as int]@[kk as int].to == i
                    &&& x.dist == out@[p as int].unwrap().dist + g.adj@[p as int]@[kk as int].cost
                }
            }
        } by {
            assert(done@[i] && out@[i] == tent@[i]);
            if i != root {
                let p = tent@[i].unwrap().parent.unwrap().0;
                assert(done@[p as int]);
                assert(out@[p as int] == tent@[p as int]);
            }
        }
    }
    out
}

// ---------------------------------------------------------------------------
// Next hops and routes
/// The transit link of `links` onto network `net`, if any: its link data is
/// the router's address on that network.
pub open spec fn transit_address(links: Seq<RouterLSALink>, net: u32) -> Option<u32>
    decreases links.len(),
{
    if links.len() == 0 {
        None
    } else {
        match transit_address(links.drop_last(), net) {
            Some(a) => Some(a),
            None => if links.last().link_type == TRANSIT_LINK && links.last().link_id == net {
                Some(links.last().link_data)
            } else {
                None
            },
        }
    }
}

fn find_transit(links: &Vec<RouterLSALink>, net: u32) -> (r: Option<u32>)
    ensures
        r == transit_address(links@, net),
{
    let mut k: usize = 0;
    while k < links.len()
        invariant
            k <= links@.len(),
            transit_address(links@.subrange(0, k as int), net) is None,
        decreases links@.len() - k,
    {
        assert(links@.subrange(0, k + 1).drop_last() =~= links@.subrange(0, k as int));
        let l = links[k];
        if l.link_type == TRANSIT_LINK && l.link_id == net {
            proof {
                lemma_transit_prefix(links@, net, k + 1);
            }
            return Some(l.link_data);
        }
        k = k + 1;
    }
    assert(links@.subrange(0, k as int) =~= links@);
    None
}

/// Once a prefix of the links holds the transit link, so does the whole.
proof fn lemma_transit_prefix(links: Seq<RouterLSALink>, net: u32, k: int)
    requires
        0 <= k <= links.len(),
        transit_address(links.subrange(0, k), net) is Some,
    ensures
        transit_address(links, net) == transit_address(links.subrange(0, k), net),
    decreases links.len() - k,
{
    if k < links.len() {
        assert(links.subrange(0, k + 1).drop_last() =~= links.subrange(0, k));
        lemma_transit_prefix(links, net, k + 1);
    } else {
        assert(links.subrange(0, k) =~= links);
    }
}

/// The next hop a vertex gets from its parent when the parent has none:
/// a router reached through a transit network is reached at its address
/// on that network.
pub open spec fn hop_rule(g: &SpfGraph, lsas: Seq<Lsa>, child: int, parent: int) -> Option<u32> {
    match (g.nodes@[child], g.nodes@[parent]) {
        (NodeAddr::Router(_), NodeAddr::Network(net)) => match lsas[g.origin@[child] as int].data {
            LsaData::Router(x) => transit_address(x.links@, net),
            _ => None,
        },
        _ => None,
    }
}

/// The next hop of vertex `i`: the parent's, or the hop rule where the
/// parent has none, following at most `fuel` parents.
pub open spec fn next_hop_spec(g: &SpfGraph, lsas: Seq<Lsa>, r: Seq<Option<Reach>>, i: int, fuel: nat) -> Option<u32>
    decreases fuel,
{
    if fuel == 0 || !(0 <= i < r.len()) {
        None
    } else {
        match r[i] {
            None => None,
            Some(x) => match x.parent {
                None => None,
                Some((p, _)) => match next_hop_spec(g, lsas, r, p as int, (fuel - 1) as nat) {
                    Some(h) => Some(h),
                    None => hop_rule(g, lsas, i, p as int),
                },
            },
        }
    }
}

fn hop_of(g: &SpfGraph, lsas: &Vec<Lsa>, child: usize, parent: usize) -> (r: Option<u32>)
    requires
        g.wf(),
        child < g.nodes@.len(),
        parent < g.nodes@.len(),
        forall|i: int| 0 <= i < g.origin@.len() ==> #[trigger] g.origin@[i] < lsas@.len(),
    ensures
        r == hop_rule(g, lsas@, child as int, parent as int),
{
    match (g.nodes[child], g.nodes[parent]) {
        (NodeAddr::Router(_), NodeAddr::Network(net)) => match &lsas[g.origin[child]].data {
            LsaData::Router(x) => find_transit(&x.links, net),
            _ => None,
        },
        _ => None,
    }
}

/// The next hop of vertex `i`, following at most `fuel` parents.
pub fn calc_nexthop(g: &SpfGraph, lsas: &Vec<Lsa>, r: &Vec<Option<Reach>>, i: usize, fuel: usize) -> (h: Option<u32>)
    requires
        g.wf(),
        r@.len() == g.nodes@.len(),
        forall|j: int| 0 <= j < g.origin@.len() ==> #[trigger] g.origin@[j] < lsas@.len(),
        forall|j: int| #![trigger r@[j]] 0 <= j < r@.len() && r@[j] is Some && r@[j].unwrap().parent is Some ==> r@[j].unwrap().parent.unwrap().0 < r@.len(),
    ensures
        h == next_hop_spec(g, lsas@, r@, i as int, fuel as nat),
    decreases fuel,
{
    if fuel == 0 || i >= r.len() {
        return None;
    }
    match r[i] {
        None => None,
        Some(x) => match x.parent {
            None => None,
            Some((p, _)) => match calc_nexthop(g, lsas, r, p, fuel - 1) {
                Some(h) => Some(h),
                None => hop_of(g, lsas, i, p),
            },
        },
    }
}

/// The shortest-path tree of an area, rooted at this router.
pub struct ShortPathTree {
    pub graph: SpfGraph,
    pub reach: Vec<Option<Reach>>,
    pub root: Option<usize>,
}

impl ShortPathTree {
    pub open spec fn wf(&self, lsas: Seq<Lsa>) -> bool {
        &&& graph_matches(&self.graph, lsas)
        &&& self.reach@.len() == self.graph.nodes@.len()
        &&& match self.root {
            Some(root) => root < self.graph.nodes@.len() && reach_sound(&self.graph, root as int, self.reach@)
                && (forall|i: int, p: Seq<(int, int)>|
                0 <= i < self.reach@.len() && #[trigger] self.reach@[i] is Some && valid_path(&self.graph, root as int, p)
                    && #[trigger] path_end(&self.graph, root as int, p) == i ==> self.reach@[i].unwrap().dist
                    <= path_weight(&self.graph, p))
                && (forall|p: Seq<(int, int)>|
                valid_path(&self.graph, root as int, p) && path_weight(&self.graph, p) <= u64::MAX
                    ==> #[trigger] self.reach@[path_end(&self.graph, root as int, p)] is Some)
                && all_attained(&self.graph, root as int, self.reach@),
            None => forall|j: int| 0 <= j < self.reach@.len() ==> #[trigger] self.reach@[j] is None,
        }
    }

    /// Runs the search over the area's LSAs from the router `router_id`.
    pub fn calculate(lsas: &Vec<Lsa>, router_id: u32) -> (t: ShortPathTree)
        ensures
            t.wf(lsas@),
            t.root is Some <==> exists|k: int| 0 <= k < lsas@.len() && live(#[trigger] lsas@[k]) && lsas@[k].header.ls_type
                == ROUTER_LSA && lsas@[k].header.link_state_id == router_id,
            t.root is Some ==> t.graph.nodes@[t.root.unwrap() as int] == NodeAddr::Router(router_id),
    {
        let g = build_graph(lsas);
        proof {
            let me = NodeAddr::Router(router_id);
            if exists|k: int| 0 <= k < lsas@.len() && live(#[trigger] lsas@[k]) && lsas@[k].header.ls_type == ROUTER_LSA
                && lsas@[k].header.link_state_id == router_id {
                let k = choose|k: int| 0 <= k < lsas@.len() && live(#[trigger] lsas@[k]) && lsas@[k].header.ls_type == ROUTER_LSA
                    && lsas@[k].header.link_state_id == router_id;
                assert(lsa_vertex(lsas@[k].header) == me);
                assert(g.nodes@.contains(me));
            }
            if g.nodes@.contains(me) {
                let v = choose|v: int| 0 <= v < g.nodes@.len() && g.nodes@[v] == me;
                assert(g.nodes@[v] == lsa_vertex(lsas@[g.origin@[v] as int].header));
                assert(live(lsas@[g.origin@[v] as int]));
            }
        }
        match position(&g.nodes, &NodeAddr::Router(router_id)) {
            Some(root) => {
                let reach = dijkstra(&g, root);
                ShortPathTree { graph: g, reach, root: Some(root) }
            },
            None => {
                let mut reach: Vec<Option<Reach>> = Vec::new();
                let mut k: usize = 0;
                while k < g.nodes.len()
                    invariant
                        k <= g.nodes@.len(),
                        reach@.len() == k,
                        forall|j: int| 0 <= j < k ==> #[trigger] reach@[j] is None,
                    decreases g.nodes@.len() - k,
                {
                    reach.push(None);
                    k = k + 1;
                }
                ShortPathTree { graph: g, reach, root: None }
            },
        }
    }

    /// The next hop of vertex `i`.
    pub fn next_hop(&self, lsas: &Vec<Lsa>, i: usize) -> (h: Option<u32>)
        requires
            self.wf(lsas@),
        ensures
            h == next_hop_spec(&self.graph, lsas@, self.reach@, i as int, self.reach@.len()),
    {
        calc_nexthop(&self.graph, lsas, &self.reach, i, self.reach.len())
    }

    /// What the tree says of the router `id`: distance and next hop.
    pub fn border_router(&self, lsas: &Vec<Lsa>, id: u32) -> (r: Option<BorderRouter>)
        requires
            self.wf(lsas@),
        ensures
            r == border_spec(self, lsas@, id),
            match r {
                Some(b) => exists|i: int| 0 <= i < self.graph.nodes@.len() && self.graph.nodes@[i]
                    == NodeAddr::Router(id) && #[trigger] self.reach@[i] is Some && self.reach@[i].unwrap().dist
                    == b.distance && b.next_hop == next_hop_spec(&self.graph, lsas@, self.reach@, i, self.reach@.len()),
                None => forall|i: int| 0 <= i < self.graph.nodes@.len() && self.graph.nodes@[i]
                    == NodeAddr::Router(id) ==> #[trigger] self.reach@[i] is None || self.reach@[i].unwrap().dist > u32::MAX,
            },
    {
        let pos = position(&self.graph.nodes, &NodeAddr::Router(id));
        proof {
            let x = NodeAddr::Router(id);
            match pos {
                Some(i) => {
                    assert(self.graph.nodes@[i as int] == x);
                    let j = choose|j: int| 0 <= j < self.graph.nodes@.len() && self.graph.nodes@[j] == x;
                    assert(nodes_unique(self.graph.nodes@));
                    assert(j == i as int);
                },
                None => {},
            }
        }
        match pos {
            Some(i) => match self.reach[i] {
                Some(x) => {
                    if x.dist > u32::MAX as u64 {
                        proof {
                            assert forall|j: int| 0 <= j < self.graph.nodes@.len() && self.graph.nodes@[j] == NodeAddr::Router(id) implies #[trigger] self.reach@[j] is None || self.reach@[j].unwrap().dist > u32::MAX by {
                            }
                        }
                        return None;
                    }
                    let nh = self.next_hop(lsas, i);
                    assert(self.reach@[i as int] is Some);
                    Some(BorderRouter { distance: x.dist as u32, next_hop: nh })
                },
                None => {
                    proof {
                        assert forall|j: int| 0 <= j < self.graph.nodes@.len() && self.graph.nodes@[j] == NodeAddr::Router(id) implies #[trigger] self.reach@[j] is None || self.reach@[j].unwrap().dist > u32::MAX by {
                        }
                    }
                    None
                },
            },
            None => None,
        }
    }

    /// True when a router reached by the tree sets the V bit: the area can
    /// carry transit traffic.
    pub fn transit_capability(&self, lsas: &Vec<Lsa>) -> (r: bool)
        requires
            self.wf(lsas@),
        ensures
            r == exists|i: int| 0 <= i < self.reach@.len() && #[trigger] self.reach@[i] is Some && match lsas@[self.graph.origin@[i] as int].data {
                LsaData::Router(x) => x.v && self.graph.nodes@[i] is Router,
                _ => false,
            },
    {
        let mut k: usize = 0;
        while k < self.reach.len()
            invariant
                self.reach@.len() == self.graph.nodes@.len(),
                self.graph.origin@.len() == self.graph.nodes@.len(),
                forall|j: int| 0 <= j < self.graph.origin@.len() ==> #[trigger] self.graph.origin@[j] < lsas@.len(),
                k <= self.reach@.len(),
                forall|i: int| 0 <= i < k ==> !(#[trigger] self.reach@[i] is Some && match lsas@[self.graph.origin@[i] as int].data {
                    LsaData::Router(x) => x.v && self.graph.nodes@[i] is Router,
                    _ => false,
                }),
            decreases self.reach@.len() - k,
        {
            if self.reach[k].is_some() && matches!(self.graph.nodes[k], NodeAddr::Router(_)) {
                match &lsas[self.graph.origin[k]].data {
                    LsaData::Router(x) => {
                        if x.v {
                            assert(self.reach@[k as int] is Some);
                            return true;
                        }
                    },
                    _ => {},
                }
            }
            k = k + 1;
        }
        false
    }
}

/// The intra-area route the tree yields for vertex `i`: routers only when
/// they are AS boundary routers, transit networks with the mask of their
/// Network-LSA, stub networks as named.
pub open spec fn tree_item(t: &ShortPathTree, lsas: Seq<Lsa>, i: int, area_id: u32, external_cap: bool) -> Option<RoutingTableItem> {
    match t.reach@[i] {
        None => None,
        Some(x) => if x.dist > u32::MAX {
            None
        } else {
            let lsa = lsas[t.graph.origin@[i] as int];
            let nh = match next_hop_spec(&t.graph, lsas, t.reach@, i, t.reach@.len()) {
                Some(h) => h,
                None => 0,
            };
            let dest: Option<(RoutingTableItemType, u32, u32)> = match t.graph.nodes@[i] {
                NodeAddr::Router(id) => match lsa.data {
                    LsaData::Router(r) => if r.e {
                        Some((RoutingTableItemType::Router, id, 0u32))
                    } else {
                        None
                    },
                    _ => None,
                },
                NodeAddr::Network(ip) => match lsa.data {
                    LsaData::Network(n) => {
                        let a = addr_mask_of(ip, n.network_mask);
                        Some((RoutingTableItemType::Network, a.addr & prefix_mask(a.len), prefix_mask(a.len)))
                    },
                    _ => None,
                },
                NodeAddr::Stub(a) => Some((RoutingTableItemType::Network, a.addr & prefix_mask(a.len), prefix_mask(a.len))),
            };
            match dest {
                None => None,
                Some((ty, id, mask)) => Some(
                    RoutingTableItem {
                        dest_type: ty,
                        dest_id: id,
                        addr_mask: mask,
                        external_cap,
                        area_id,
                        path_type: RoutingTablePathType::AreaInternal,
                        cost: x.dist as u32,
                        cost_t2: 0,
                        lsa_origin: header_index(lsa.header),
                        next_hop: nh,
                        ad_router: lsa.header.advertising_router,
                    },
                ),
            }
        },
    }
}

pub open spec fn tree_items(t: &ShortPathTree, lsas: Seq<Lsa>, n: nat, area_id: u32, external_cap: bool) -> Seq<RoutingTableItem>
    decreases n,
{
    if n == 0 {
        seq![]
    } else {
        let rest = tree_items(t, lsas, (n - 1) as nat, area_id, external_cap);
        match tree_item(t, lsas, n - 1, area_id, external_cap) {
            Some(it) => rest.push(it),
            None => rest,
        }
    }
}

impl ShortPathTree {
    /// The intra-area routes of the tree, vertex by vertex.
    pub fn get_routing(&self, lsas: &Vec<Lsa>, area_id: u32, external_cap: bool) -> (r: Vec<RoutingTableItem>)
        requires
            self.wf(lsas@),
        ensures
            r@ == tree_items(self, lsas@, self.reach@.len(), area_id, external_cap),
    {
        let mut out: Vec<RoutingTableItem> = Vec::new();
        let mut i: usize = 0;
        while i < self.reach.len()
            invariant
                self.wf(lsas@),
                i <= self.reach@.len(),
                out@ == tree_items(self, lsas@, i as nat, area_id, external_cap),
            decreases self.reach@.len() - i,
        {
            match self.reach[i] {
                Some(x) => {
                    if x.dist <= u32::MAX as u64 {
                        let lsa = &lsas[self.graph.origin[i]];
                        let nh = match self.next_hop(lsas, i) {
                            Some(h) => h,
                            None => 0,
                        };
                        let dest: Option<(RoutingTableItemType, u32, u32)> = match self.graph.nodes[i] {
                            NodeAddr::Router(id) => match &lsa.data {
                                LsaData::Router(r) => if r.e {
                                    Some((RoutingTableItemType::Router, id, 0u32))
                                } else {
                                    None
                                },
                                _ => None,
                            },
                            NodeAddr::Network(ip) => match &lsa.data {
                                LsaData::Network(n) => {
                                    let a = Ipv4AddrMask::from(ip, n.network_mask);
                                    Some((RoutingTableItemType::Network, a.network(), a.mask()))
                                },
                                _ => None,
                            },
                            NodeAddr::Stub(a) => Some((RoutingTableItemType::Network, a.network(), a.mask())),
                        };
                        match dest {
                            Some((ty, id, mask)) => {
                                out.push(
                                    RoutingTableItem {
                                        dest_type: ty,
                                        dest_id: id,
                                        addr_mask: mask,
                                        external_cap,
                                        area_id,
                                        path_type: RoutingTablePathType::AreaInternal,
                                        cost: x.dist as u32,
                                        cost_t2: 0,
                                        lsa_origin: lsa.header.index(),
                                        next_hop: nh,
                                        ad_router: lsa.header.advertising_router,
                                    },
                                );
                            },
                            None => {},
                        }
                    }
                },
                None => {},
            }
            i = i + 1;
        }
        out
    }
}

/// The tree's distances add up along its parent links: the root is at 0,
/// and every other vertex reached is at its parent's distance plus the
/// weight of an edge from the parent, an edge its LSA names (and, unless
/// it leads to a stub network, that the far end's LSA names back).
pub proof fn lemma_tree_distances(t: &ShortPathTree, lsas: Seq<Lsa>, i: int)
    requires
        t.wf(lsas),
        t.root is Some,
        0 <= i < t.reach@.len(),
        t.reach@[i] is Some,
    ensures
        i == t.root.unwrap() ==> t.reach@[i].unwrap().dist == 0,
        i != t.root.unwrap() ==> ({
            let (p, k) = t.reach@[i].unwrap().parent.unwrap();
            let e = t.graph.adj@[p as int]@[k as int];
            &&& 0 <= p < t.reach@.len()
            &&& t.reach@[p as int] is Some
            &&& e.to == i
            &&& t.reach@[i].unwrap().dist == t.reach@[p as int].unwrap().dist + e.cost
            &&& edge_from_lsas(t.graph.nodes@, t.graph.origin@, lsas, p as int, e)
        }),
{
    let root = t.root.unwrap();
    assert(reach_sound(&t.graph, root as int, t.reach@));
    if i != root {
        let (p, k) = t.reach@[i].unwrap().parent.unwrap();
        assert(edge_from_lsas(t.graph.nodes@, t.graph.origin@, lsas, p as int, t.graph.adj@[p as int]@[k as int]));
    }
}

impl ShortPathTree {
    /// The tree of an area with no LSAs.
    pub fn new() -> (t: ShortPathTree)
        ensures
            t.wf(Seq::empty()),
            t.graph.nodes@.len() == 0,
            t.root is None,
    {
        ShortPathTree {
            graph: SpfGraph { nodes: Vec::new(), origin: Vec::new(), adj: Vec::new() },
            reach: Vec::new(),
            root: None,
        }
    }
}

/// The tree's distances are shortest: no path of the graph from the root
/// to a vertex the tree reaches weighs less than the vertex's distance.
pub proof fn lemma_tree_shortest(t: &ShortPathTree, lsas: Seq<Lsa>, i: int, p: Seq<(int, int)>)
    requires
        t.wf(lsas),
        t.root is Some,
        0 <= i < t.reach@.len(),
        t.reach@[i] is Some,
        valid_path(&t.graph, t.root.unwrap() as int, p),
        path_end(&t.graph, t.root.unwrap() as int, p) == i,
    ensures
        t.reach@[i].unwrap().dist <= path_weight(&t.graph, p),
{
}

/// The tree reaches every vertex that a path of the graph (of a weight a
/// 64-bit distance can hold) leads to from the root.
pub proof fn lemma_tree_complete(t: &ShortPathTree, lsas: Seq<Lsa>, p: Seq<(int, int)>)
    requires
        t.wf(lsas),
        t.root is Some,
        valid_path(&t.graph, t.root.unwrap() as int, p),
        path_weight(&t.graph, p) <= u64::MAX,
    ensures
        t.reach@[path_end(&t.graph, t.root.unwrap() as int, p)] is Some,
{
}

/// The tree is built from live LSAs only: every vertex, and so every edge
/// and distance, comes from a Router- or Network-LSA below MaxAge.
pub proof fn lemma_tree_uses_live_lsas(t: &ShortPathTree, lsas: Seq<Lsa>, v: int)
    requires
        t.wf(lsas),
        0 <= v < t.graph.nodes@.len(),
    ensures
        live(lsas[t.graph.origin@[v] as int]),
        lsas[t.graph.origin@[v] as int].header.ls_age != LSA_MAX_AGE,
{
    assert(graph_matches(&t.graph, lsas));
    let n = t.graph.nodes@[v];
    assert(live(lsas[t.graph.origin@[v] as int]));
}

/// Between routers and networks the graph is symmetric: an edge from `v`
/// to `w` has a twin from `w` to `v` of the same weight.
pub proof fn lemma_edge_symmetric(g: &SpfGraph, lsas: Seq<Lsa>, v: int, k: int)
    requires
        graph_matches(g, lsas),
        0 <= v < g.nodes@.len(),
        0 <= k < g.adj@[v]@.len(),
        !(g.nodes@[v] is Stub),
        !(g.nodes@[g.adj@[v]@[k].to as int] is Stub),
    ensures
        g.adj@[g.adj@[v]@[k].to as int]@.contains(Edge { to: v as usize, cost: g.adj@[v]@[k].cost }),
{
    let e = g.adj@[v]@[k];
    let w = e.to as int;
    assert(edge_from_lsas(g.nodes@, g.origin@, lsas, v, e));
    let mine = named(lsas[g.origin@[v] as int]);
    let theirs = named(lsas[g.origin@[w] as int]);
    let (c, b) = choose|c: u32, b: u32| mine.contains((g.nodes@[w], c)) && theirs.contains((g.nodes@[v], b)) && e.cost == max_cost(c, b);
    assert(theirs.contains((g.nodes@[v], b)) && mine.contains((g.nodes@[w], c)));
    assert(max_cost(b, c) == e.cost);
}

/// A reached vertex's distance is the weight of a path to it from the
/// root; with `lemma_tree_shortest`, it is the length of a shortest path.
pub proof fn lemma_tree_distance_attained(t: &ShortPathTree, lsas: Seq<Lsa>, i: int)
    requires
        t.wf(lsas),
        t.root is Some,
        0 <= i < t.reach@.len(),
        t.reach@[i] is Some,
    ensures
        exists|p: Seq<(int, int)>|
            valid_path(&t.graph, t.root.unwrap() as int, p) && #[trigger] path_end(&t.graph, t.root.unwrap() as int, p) == i
                && path_weight(&t.graph, p) == t.reach@[i].unwrap().dist,
{
    assert(attained(&t.graph, t.root.unwrap() as int, i, t.reach@[i].unwrap().dist as int));
}

/// Where vertex `x` stands, if it is a vertex.
pub open spec fn vertex_index(nodes: Seq<NodeAddr>, x: NodeAddr) -> Option<int> {
    if exists|i: int| 0 <= i < nodes.len() && nodes[i] == x {
        Some(choose|i: int| 0 <= i < nodes.len() && nodes[i] == x)
    } else {
        None
    }
}

/// What the tree says of router `id`: its distance and next hop, when it
/// is reached at a distance that fits 32 bits.
pub open spec fn border_spec(t: &ShortPathTree, lsas: Seq<Lsa>, id: u32) -> Option<BorderRouter> {
    match vertex_index(t.graph.nodes@, NodeAddr::Router(id)) {
        None => None,
        Some(i) => match t.reach@[i] {
            None => None,
            Some(x) => if x.dist > u32::MAX {
                None
            } else {
                Some(
                    BorderRouter {
                        distance: x.dist as u32,
                        next_hop: next_hop_spec(&t.graph, lsas, t.reach@, i, t.reach@.len()),
                    },
                )
            },
        },
    }
}

/// The inter-area route one LSA yields: Summary-LSAs only, through the
/// border router that advertises them.
pub open spec fn summary_item(t: &ShortPathTree, lsas: Seq<Lsa>, l: Lsa, router_id: u32, area_id: u32, external_routing: bool) -> Option<RoutingTableItem> {
    match l.data {
        LsaData::SummaryIp(b) => summary_route_spec(l.header, b, router_id, area_id, external_routing, border_spec(t, lsas, l.header.advertising_router)),
        LsaData::SummaryAsbr(b) => summary_route_spec(l.header, b, router_id, area_id, external_routing, border_spec(t, lsas, l.header.advertising_router)),
        _ => None,
    }
}

pub open spec fn summary_items(t: &ShortPathTree, lsas: Seq<Lsa>, n: nat, router_id: u32, area_id: u32, external_routing: bool) -> Seq<RoutingTableItem>
    decreases n,
{
    if n == 0 {
        seq![]
    } else {
        let rest = summary_items(t, lsas, (n - 1) as nat, router_id, area_id, external_routing);
        match summary_item(t, lsas, lsas[n - 1], router_id, area_id, external_routing) {
            Some(it) => rest.push(it),
            None => rest,
        }
    }
}

impl ShortPathTree {
    /// The inter-area routes of the area's Summary-LSAs, in their order.
    pub fn summary_routes(&self, lsas: &Vec<Lsa>, router_id: u32, area_id: u32, external_routing: bool) -> (r: Vec<RoutingTableItem>)
        requires
            self.wf(lsas@),
        ensures
            r@ == summary_items(self, lsas@, lsas@.len(), router_id, area_id, external_routing),
    {
        let mut out: Vec<RoutingTableItem> = Vec::new();
        let mut i: usize = 0;
        while i < lsas.len()
            invariant
                self.wf(lsas@),
                i <= lsas@.len(),
                out@ == summary_items(self, lsas@, i as nat, router_id, area_id, external_routing),
            decreases lsas@.len() - i,
        {
            let l = &lsas[i];
            let item = match &l.data {
                LsaData::SummaryIp(b) => summary_route(&l.header, b, router_id, area_id, external_routing, self.border_router(lsas, l.header.advertising_router)),
                LsaData::SummaryAsbr(b) => summary_route(&l.header, b, router_id, area_id, external_routing, self.border_router(lsas, l.header.advertising_router)),
                _ => None,
            };
            match item {
                Some(it) => out.push(it),
                None => {},
            }
            i = i + 1;
        }
        out
    }
}

// ---------------------------------------------------------------------------
// Symmetry of distances
/// Putting an edge in front of a path.
proof fn lemma_prepend(g: &SpfGraph, a: int, k: int, r: Seq<(int, int)>)
    requires
        0 <= a < g.adj@.len(),
        0 <= k < g.adj@[a]@.len(),
        valid_path(g, g.adj@[a]@[k].to as int, r),
    ensures
        valid_path(g, a, seq![(a, k)] + r),
        path_end(g, a, seq![(a, k)] + r) == path_end(g, g.adj@[a]@[k].to as int, r),
        path_weight(g, seq![(a, k)] + r) == g.adj@[a]@[k].cost + path_weight(g, r),
    decreases r.len(),
{
    let q = seq![(a, k)] + r;
    let b = g.adj@[a]@[k].to as int;
    if r.len() == 0 {
        assert(q =~= seq![(a, k)]);
        assert(q.drop_last() =~= Seq::<(int, int)>::empty());
        assert(q.len() == 1 && q.last() == (a, k));
        assert(path_end(g, a, q.drop_last()) == a);
        assert(valid_path(g, a, q.drop_last()));
        assert(valid_path(g, a, q));
        assert(path_weight(g, q.drop_last()) == 0);
        assert(path_weight(g, q) == g.adj@[a]@[k].cost);
    } else {
        let rd = r.drop_last();
        lemma_prepend(g, a, k, rd);
        assert(q.drop_last() =~= seq![(a, k)] + rd);
        assert(q.last() == r.last());
        assert(q.len() == r.len() + 1);
        assert(valid_path(g, a, q.drop_last()));
        assert(path_end(g, a, q.drop_last()) == path_end(g, b, rd));
        assert(r.last().0 == path_end(g, b, rd));
        assert(valid_path(g, a, q));
        assert(path_weight(g, q) == path_weight(g, q.drop_last()) + g.adj@[q.last().0]@[q.last().1].cost);
    }
}

/// Two graphs of the same LSAs give a router or network vertex the same
/// originating LSA.
proof fn lemma_same_origin(g1: &SpfGraph, g2: &SpfGraph, lsas: Seq<Lsa>, v1: int, v2: int)
    requires
        graph_matches(g1, lsas),
        graph_matches(g2, lsas),
        0 <= v1 < g1.nodes@.len(),
        0 <= v2 < g2.nodes@.len(),
        g1.nodes@[v1] == g2.nodes@[v2],
        !(g1.nodes@[v1] is Stub),
    ensures
        g1.origin@[v1] == g2.origin@[v2],
{
    let o1 = g1.origin@[v1] as int;
    let o2 = g2.origin@[v2] as int;
    assert(g1.nodes@[v1] == lsa_vertex(lsas[o1].header) && live(lsas[o1]));
    assert(g2.nodes@[v2] == lsa_vertex(lsas[o2].header) && live(lsas[o2]));
    if o1 < o2 {
        assert(lsa_vertex(lsas[o1].header) != g2.nodes@[v2]);
    }
    if o2 < o1 {
        assert(lsa_vertex(lsas[o2].header) != g1.nodes@[v1]);
    }
}

/// An edge between a router or network `y` and another `x` of one graph
/// has a twin of the same weight from `x` back to `y` in any other graph
/// of the same LSAs.
proof fn lemma_twin_edge(g1: &SpfGraph, g2: &SpfGraph, lsas: Seq<Lsa>, y: int, e: int, x2: int, y2: int)
    requires
        graph_matches(g1, lsas),
        graph_matches(g2, lsas),
        0 <= y < g1.nodes@.len(),
        0 <= e < g1.adj@[y]@.len(),
        !(g1.nodes@[y] is Stub),
        !(g1.nodes@[g1.adj@[y]@[e].to as int] is Stub),
        0 <= x2 < g2.nodes@.len(),
        0 <= y2 < g2.nodes@.len(),
        g2.nodes@[x2] == g1.nodes@[g1.adj@[y]@[e].to as int],
        g2.nodes@[y2] == g1.nodes@[y],
    ensures
        g2.adj@[x2]@.contains(Edge { to: y2 as usize, cost: g1.adj@[y]@[e].cost }),
{
    let edge = g1.adj@[y]@[e];
    let x = edge.to as int;
    assert(0 <= x < g1.nodes@.len());
    lemma_same_origin(g1, g2, lsas, x, x2);
    lemma_same_origin(g1, g2, lsas, y, y2);
    assert(edge_from_lsas(g1.nodes@, g1.origin@, lsas, y, edge));
    let mine = named(lsas[g1.origin@[y] as int]);
    let theirs = named(lsas[g1.origin@[x] as int]);
    let (c, b) = choose|c: u32, b: u32| mine.contains((g1.nodes@[x], c)) && theirs.contains((g1.nodes@[y], b)) && edge.cost == max_cost(c, b);
    assert(named(lsas[g2.origin@[x2] as int]).contains((g2.nodes@[y2], b)));
    assert(named(lsas[g2.origin@[y2] as int]).contains((g2.nodes@[x2], c)));
    assert(max_cost(b, c) == edge.cost);
}

/// A path of one graph, from `s1` to a router or network vertex, read
/// backwards in another graph of the same LSAs: a path of the same weight
/// from that vertex back to `s2`, the vertex `s1` stands for.
proof fn lemma_reverse_path(g1: &SpfGraph, g2: &SpfGraph, lsas: Seq<Lsa>, s1: int, s2: int, p: Seq<(int, int)>)
    requires
        graph_matches(g1, lsas),
        graph_matches(g2, lsas),
        0 <= s1 < g1.nodes@.len(),
        0 <= s2 < g2.nodes@.len(),
        g1.nodes@[s1] == g2.nodes@[s2],
        valid_path(g1, s1, p),
        !(g1.nodes@[path_end(g1, s1, p)] is Stub),
    ensures
        exists|x2: int, r: Seq<(int, int)>|
            0 <= x2 < g2.nodes@.len() && g2.nodes@[x2] == g1.nodes@[path_end(g1, s1, p)] && valid_path(g2, x2, r)
                && #[trigger] path_end(g2, x2, r) == s2 && path_weight(g2, r) == path_weight(g1, p),
    decreases p.len(),
{
    if p.len() == 0 {
        let r = Seq::<(int, int)>::empty();
        assert(valid_path(g2, s2, r) && path_end(g2, s2, r) == s2 && path_weight(g2, r) == 0);
    } else {
        let q = p.drop_last();
        let y = p.last().0;
        let e = p.last().1;
        assert(y == path_end(g1, s1, q));
        assert(0 <= y < g1.nodes@.len());
        let x = g1.adj@[y]@[e].to as int;
        assert(x == path_end(g1, s1, p));
        assert(0 <= x < g1.nodes@.len());
        // a vertex with an outgoing edge is no stub network
        assert(!(g1.nodes@[y] is Stub));
        lemma_reverse_path(g1, g2, lsas, s1, s2, q);
        let (y2, r) = choose|y2: int, r: Seq<(int, int)>|
            0 <= y2 < g2.nodes@.len() && g2.nodes@[y2] == g1.nodes@[path_end(g1, s1, q)] && valid_path(g2, y2, r)
                && #[trigger] path_end(g2, y2, r) == s2 && path_weight(g2, r) == path_weight(g1, q);
        let lx = g1.nodes@[x];
        assert(lx == lsa_vertex(lsas[g1.origin@[x] as int].header) && live(lsas[g1.origin@[x] as int]));
        assert(g2.nodes@.contains(lsa_vertex(lsas[g1.origin@[x] as int].header)));
        let x2 = choose|x2: int| 0 <= x2 < g2.nodes@.len() && g2.nodes@[x2] == lx;
        lemma_twin_edge(g1, g2, lsas, y, e, x2, y2);
        let w = g1.adj@[y]@[e].cost;
        let k2 = choose|k2: int| 0 <= k2 < g2.adj@[x2]@.len() && g2.adj@[x2]@[k2] == Edge { to: y2 as usize, cost: w };
        assert((y2 as usize) as int == y2);
        lemma_prepend(g2, x2, k2, r);
        let r2 = seq![(x2, k2)] + r;
        assert(path_weight(g1, p) == path_weight(g1, q) + w);
        assert(valid_path(g2, x2, r2) && path_end(g2, x2, r2) == s2 && path_weight(g2, r2) == path_weight(g1, p));
    }
}

/// Distances are symmetric: over the same LSAs, when the tree rooted at
/// router `a` reaches router `b`, the tree rooted at `b` reaches `a`, at
/// the same distance.
pub proof fn lemma_distance_symmetric(ta: &ShortPathTree, tb: &ShortPathTree, lsas: Seq<Lsa>, a: u32, b: u32, ib: int, ia: int)
    requires
        ta.wf(lsas),
        tb.wf(lsas),
        ta.root is Some,
        tb.root is Some,
        ta.graph.nodes@[ta.root.unwrap() as int] == NodeAddr::Router(a),
        tb.graph.nodes@[tb.root.unwrap() as int] == NodeAddr::Router(b),
        0 <= ib < ta.graph.nodes@.len(),
        ta.graph.nodes@[ib] == NodeAddr::Router(b),
        ta.reach@[ib] is Some,
        0 <= ia < tb.graph.nodes@.len(),
        tb.graph.nodes@[ia] == NodeAddr::Router(a),
    ensures
        tb.reach@[ia] is Some,
        tb.reach@[ia].unwrap().dist == ta.reach@[ib].unwrap().dist,
{
    let ga = &ta.graph;
    let gb = &tb.graph;
    let ra = ta.root.unwrap() as int;
    let rb = tb.root.unwrap() as int;
    let da = ta.reach@[ib].unwrap().dist;
    // a path of weight da from a to b, read backwards in the other graph
    assert(attained(ga, ra, ib, da as int));
    let pa = choose|p: Seq<(int, int)>| valid_path(ga, ra, p) && #[trigger] path_end(ga, ra, p) == ib && path_weight(ga, p) == da as int;
    lemma_reverse_path(ga, gb, lsas, ra, ia, pa);
    let (x2, r) = choose|x2: int, r: Seq<(int, int)>|
        0 <= x2 < gb.nodes@.len() && gb.nodes@[x2] == ga.nodes@[path_end(ga, ra, pa)] && valid_path(gb, x2, r)
            && #[trigger] path_end(gb, x2, r) == ia && path_weight(gb, r) == path_weight(ga, pa);
    assert(x2 == rb);
    assert(tb.reach@[path_end(gb, rb, r)] is Some);
    let db = tb.reach@[ia].unwrap().dist;
    assert(db <= da);
    // and back again
    assert(attained(gb, rb, ia, db as int));
    let pb = choose|p: Seq<(int, int)>| valid_path(gb, rb, p) && #[trigger] path_end(gb, rb, p) == ia && path_weight(gb, p) == db as int;
    lemma_reverse_path(gb, ga, lsas, rb, ib, pb);
    let (x1, r1) = choose|x1: int, r1: Seq<(int, int)>|
        0 <= x1 < ga.nodes@.len() && ga.nodes@[x1] == gb.nodes@[path_end(gb, rb, pb)] && valid_path(ga, x1, r1)
            && #[trigger] path_end(ga, x1, r1) == ib && path_weight(ga, r1) == path_weight(gb, pb);
    assert(x1 == ra);
    assert(da <= db);
}

} // verus!
