use ospfd::origination::{originate, install_own, Origination};
use ospfd::neighbor::{flood_all, purge_all};
use ospfd::lsa::AsExternalLSA;
use ospfd::lsa::ConvertError;
use ospfd::routing::gen_summary_lsa;
use ospfd::origination::{gen_router_lsa, InterfaceSummary};
use ospfd::interface::InterfaceState;
use ospfd::lsa::{
    Lsa, LsaData, LsaHeader, LsaIndex, NetworkLSA, RouterLSA, RouterLSALink, SummaryLSA,
};
use ospfd::lsdb::{Area, LsaTable};
use ospfd::neighbor::{Neighbor, NeighborEvent, NeighborState};
use ospfd::routing::{
    fib_changes, RoutingItem, RoutingTable, RoutingTableItem, RoutingTableItemType,
    RoutingTablePathType,
};
use ospfd::spf::{build_graph, dijkstra, NodeAddr, ShortPathTree};

const R1: u32 = 0x0101_0101;
const R2: u32 = 0x0202_0202;
const ADDR1: u32 = 0x0a00_0001;
const ADDR2: u32 = 0x0a00_0002;

fn router(id: u32, ip: u32, e: bool, v: bool) -> Lsa {
    Lsa {
        header: LsaHeader { ls_age: 0, options: 0, ls_type: 1, link_state_id: id, advertising_router: id, ls_sequence_number: 1, ls_checksum: 0, length: 36 },
        data: LsaData::Router(RouterLSA {
            v,
            e,
            b: false,
            num_links: 1,
            links: vec![RouterLSALink { link_id: ADDR2, link_data: ip, link_type: 2, tos: 0, metric: 1 }],
        }),
    }
}

fn network() -> Lsa {
    Lsa {
        header: LsaHeader { ls_age: 0, options: 0, ls_type: 2, link_state_id: ADDR2, advertising_router: R2, ls_sequence_number: 1, ls_checksum: 0, length: 32 },
        data: LsaData::Network(NetworkLSA { network_mask: 0xffff_ff00, attached_routers: vec![R1, R2] }),
    }
}

#[test]
fn spf_two_routers_on_ethernet() {
    let lsas = vec![router(R1, ADDR1, false, false), router(R2, ADDR2, true, false), network()];
    let t = ShortPathTree::calculate(&lsas, R1);
    let routes = t.get_routing(&lsas, 0, true);
    let net = routes.iter().find(|r| r.dest_type == RoutingTableItemType::Network).unwrap();
    assert_eq!((net.dest_id, net.addr_mask, net.cost, net.next_hop), (0x0a00_0000, 0xffff_ff00, 1, 0));
    assert_eq!(net.path_type, RoutingTablePathType::AreaInternal);
    let asbr = routes.iter().find(|r| r.dest_type == RoutingTableItemType::Router).unwrap();
    assert_eq!((asbr.dest_id, asbr.cost, asbr.next_hop), (R2, 2, ADDR2));
    assert_eq!(routes.len(), 2);
    let br = t.border_router(&lsas, R2).unwrap();
    assert_eq!((br.distance, br.next_hop), (2, Some(ADDR2)));
    assert!(!t.transit_capability(&lsas));
}

#[test]
fn spf_needs_links_both_ways() {
    let mut lone = router(R2, ADDR2, true, true);
    if let LsaData::Router(ref mut r) = lone.data {
        r.links[0].link_id = 0x0a09_0009;
    }
    let lsas = vec![router(R1, ADDR1, false, false), lone, network()];
    let t = ShortPathTree::calculate(&lsas, R1);
    assert!(t.border_router(&lsas, R2).is_none());
    assert!(!t.transit_capability(&lsas));
}

#[test]
fn spf_transit_capability_from_v_bit() {
    let lsas = vec![router(R1, ADDR1, false, false), router(R2, ADDR2, false, true), network()];
    let t = ShortPathTree::calculate(&lsas, R1);
    assert!(t.transit_capability(&lsas));
}

#[test]
fn spf_distances_follow_edges() {
    let lsas = vec![router(R1, ADDR1, false, false), router(R2, ADDR2, true, false), network()];
    let g = build_graph(&lsas);
    assert_eq!(g.nodes.len(), 3);
    let root = g.nodes.iter().position(|n| *n == NodeAddr::Router(R1)).unwrap();
    let r = dijkstra(&g, root);
    let far = g.nodes.iter().position(|n| *n == NodeAddr::Router(R2)).unwrap();
    assert_eq!(r[far].unwrap().dist, 2);
    let (p, k) = r[far].unwrap().parent.unwrap();
    assert_eq!(r[p].unwrap().dist + g.adj[p][k].cost as u64, 2);
    assert!(ShortPathTree::calculate(&lsas, 0x0909_0909).get_routing(&lsas, 0, true).is_empty());
}

#[test]
fn spf_stub_network_route() {
    let mut solo = router(R1, ADDR1, false, false);
    if let LsaData::Router(ref mut r) = solo.data {
        r.links[0] = RouterLSALink { link_id: 0x0a07_0001, link_data: 0xffff_ff00, link_type: 3, tos: 0, metric: 4 };
    }
    let lsas = vec![solo];
    let t = ShortPathTree::calculate(&lsas, R1);
    let routes = t.get_routing(&lsas, 0, true);
    assert_eq!(routes.len(), 1);
    assert_eq!((routes[0].dest_id, routes[0].addr_mask, routes[0].cost), (0x0a07_0000, 0xffff_ff00, 4));
}

fn route(dest: u32, hop: u32, cost: u32) -> RoutingTableItem {
    RoutingTableItem {
        dest_type: RoutingTableItemType::Network,
        dest_id: dest,
        addr_mask: 0xffff_ff00,
        external_cap: true,
        area_id: 0,
        path_type: RoutingTablePathType::AreaInternal,
        cost,
        cost_t2: 0,
        lsa_origin: LsaIndex::new(1, 1, 1),
        next_hop: hop,
        ad_router: 1,
    }
}

#[test]
fn recalculation_and_kernel_diff() {
    let mut old = RoutingTable::new();
    old.offer_all(&vec![route(0x0a01_0000, 5, 1), route(0x0a02_0000, 5, 1), route(0x0a03_0000, 0, 1)]);
    let mut new = RoutingTable::new();
    new.offer_all(&vec![route(0x0a01_0000, 5, 1), route(0x0a02_0000, 6, 3), route(0x0a02_0000, 7, 2), route(0x0a04_0000, 5, 1)]);
    assert_eq!(new.get_routings().len(), 3);
    let (del, add) = fib_changes(&old, &new);
    assert_eq!(del, vec![RoutingItem { dest: 0x0a02_0000, mask: 0xffff_ff00, nexthop: 5 }]);
    assert_eq!(
        add,
        vec![
            RoutingItem { dest: 0x0a02_0000, mask: 0xffff_ff00, nexthop: 7 },
            RoutingItem { dest: 0x0a04_0000, mask: 0xffff_ff00, nexthop: 5 },
        ]
    );
}

#[test]
fn neighbor_record_lists() {
    let mut n = Neighbor::new(R2, ADDR2);
    assert_eq!(n.state, NeighborState::Down);
    n.handle_event(NeighborEvent::HelloReceived, true, 0x1_0000_1234);
    n.master = true;
    n.handle_event(NeighborEvent::TwoWayReceived, true, 0x1_0000_1234);
    assert_eq!(n.state, NeighborState::ExStart);
    assert_eq!(n.dd_seq_num, 0x1234);
    assert!(!n.master);
    let dd = n.ex_start_packet();
    assert!(dd.init && dd.more && dd.master && dd.lsa_header.is_empty());
    assert_eq!(dd.db_sequence_number, 0x1234);
    n.handle_event(NeighborEvent::NegotiationDone, true, 0x1_0000_1234);
    assert_eq!(n.state, NeighborState::Exchange);
    assert_eq!(n.dd_seq_num, 0x1234);
    let h = LsaHeader { ls_age: 0, options: 0, ls_type: 1, link_state_id: 7, advertising_router: 7, ls_sequence_number: 3, ls_checksum: 0, length: 20 };
    n.ls_request_list.push(LsaHeader { ls_sequence_number: 2, ..h });
    assert!(n.flood(&h, false));
    assert!(n.ls_request_list.is_empty());
    assert_eq!(n.ls_retransmission_list, vec![h.index()]);
    assert!(n.flood(&h, false));
    assert_eq!(n.ls_retransmission_list.len(), 1);
    assert!(!n.flood(&h, true));
    assert!(n.remove_retransmission(h.index()));
    assert!(!n.flood(&h, true));
    assert!(n.ls_retransmission_list.is_empty());
    assert!(!n.remove_retransmission(h.index()));
    n.ls_request_list.push(h);
    n.handle_event(NeighborEvent::ExchangeDone, true, 0x1_0000_1234);
    assert_eq!(n.state, NeighborState::Loading);
    n.dr = ADDR2;
    assert!(n.is_dr() && !n.is_bdr());
    n.handle_event(NeighborEvent::SeqNumberMismatch, true, 0x2_0000_0042);
    assert_eq!(n.state, NeighborState::ExStart);
    assert!(n.ls_request_list.is_empty());
    assert_eq!(n.dd_seq_num, 0x42);
    assert_eq!(n.dr, ADDR2);
    n.handle_event(NeighborEvent::OneWayReceived, true, 0);
    assert_eq!((n.state, n.dd_seq_num), (NeighborState::Init, 0));
}

#[test]
fn all_lsa_headers_skip_max_age() {
    let mut area = Area::new(0);
    let mut ext = LsaTable::new();
    let fresh = Lsa {
        header: LsaHeader { ls_age: 10, options: 0, ls_type: 3, link_state_id: 1, advertising_router: 9, ls_sequence_number: 1, ls_checksum: 0, length: 32 },
        data: LsaData::SummaryIp(SummaryLSA { network_mask: 0, metric: 1, tos: 0, tos_metric: 0 }),
    };
    let old = Lsa { header: LsaHeader { ls_age: 3599, link_state_id: 2, ..fresh.header }, data: fresh.data.clone() };
    area.insert_lsa(&mut ext, fresh, 0);
    area.insert_lsa(&mut ext, old, 0);
    let hs = area.get_all_lsa(&ext, 5_000);
    assert_eq!(hs.len(), 1);
    assert_eq!((hs[0].link_state_id, hs[0].ls_age), (1, 15));
}

#[test]
fn recalculate_replaces_table_and_reports_changes() {
    let mut t = RoutingTable::new();
    let (del, add) = t.recalculate(&vec![route(0x0a01_0000, 5, 1)], &vec![], R1);
    assert!(del.is_empty());
    assert_eq!(add, vec![RoutingItem { dest: 0x0a01_0000, mask: 0xffff_ff00, nexthop: 5 }]);
    let mut asbr = route(0x0303_0303, 5, 2);
    asbr.dest_type = RoutingTableItemType::Router;
    let h = LsaHeader { ls_age: 0, options: 0, ls_type: 5, link_state_id: 0x0b00_0000, advertising_router: 0x0303_0303, ls_sequence_number: 1, ls_checksum: 0, length: 36 };
    let x = AsExternalLSA { network_mask: 0xff00_0000, e: false, metric: 3, forwarding_address: 0, external_router_tag: 0 };
    let (del, add) = t.recalculate(&vec![asbr], &vec![(h, x)], R1);
    assert_eq!(del, vec![RoutingItem { dest: 0x0a01_0000, mask: 0xffff_ff00, nexthop: 5 }]);
    assert_eq!(add, vec![RoutingItem { dest: 0x0b00_0000, mask: 0xff00_0000, nexthop: 5 }]);
    assert_eq!(t.get_routings().len(), 2);
}

#[test]
fn empty_tree_and_aging_header() {
    let t = ShortPathTree::new();
    assert!(t.get_routing(&vec![], 0, true).is_empty());
    let h = LsaHeader { ls_age: 100, options: 0, ls_type: 1, link_state_id: 1, advertising_router: 1, ls_sequence_number: 1, ls_checksum: 0, length: 20 };
    assert_eq!(ospfd::lsdb::update_lsa_age_header(h, 1_000, 6_000).ls_age, 105);
    assert_eq!(ospfd::lsdb::update_lsa_age_header(h, 0, 100_000_000).ls_age, 3600);
}

#[test]
fn header_and_body_pairing() {
    let body = LsaData::SummaryIp(SummaryLSA { network_mask: 0, metric: 1, tos: 0, tos_metric: 0 });
    let h = LsaHeader { ls_age: 0, options: 0, ls_type: 3, link_state_id: 1, advertising_router: 1, ls_sequence_number: 1, ls_checksum: 0, length: 32 };
    assert!(Lsa::from_parts(h, body.clone()).is_ok());
    assert_eq!(Lsa::from_parts(LsaHeader { ls_type: 2, ..h }, body.clone()).unwrap_err(), ConvertError::TypeMismatched);
    assert_eq!(Lsa::from_parts(LsaHeader { ls_type: 8, ..h }, body).unwrap_err(), ConvertError::TypeUnknown);
}

#[test]
fn summary_generation_over_table() {
    let mut inter = route(0x0a02_0000, 5, 3);
    inter.path_type = RoutingTablePathType::AreaExternal;
    let mut local = route(0x0a01_0000, 5, 5);
    local.area_id = 1;
    let out = gen_summary_lsa(&vec![local, inter], 0, true);
    assert_eq!(out.len(), 1);
    assert_eq!((out[0].0, out[0].1, out[0].2.metric), (3, 0x0a01_0000, 5));
}

#[test]
fn link_failure_turns_transit_into_stub() {
    let up = InterfaceSummary { area_id: 0, state: InterfaceState::Backup, ip: ADDR1, mask: 0xffff_ff00, cost: 1, dr: ADDR2, dr_with_neighbors: false, full_with_dr: true };
    let r = gen_router_lsa(&vec![up], 0, false, false);
    assert_eq!((r.links[0].link_type, r.links[0].link_id), (2, ADDR2));
    let mut n = Neighbor::new(R2, ADDR2);
    n.handle_event(NeighborEvent::HelloReceived, true, 0x1_0000_1234);
    n.handle_event(NeighborEvent::InactivityTimer, true, 0x1_0000_1234);
    assert_eq!(n.state, NeighborState::Down);
    let down = InterfaceSummary { full_with_dr: false, state: InterfaceState::Waiting, ..up };
    let r = gen_router_lsa(&vec![down], 0, false, false);
    assert_eq!((r.links[0].link_type, r.links[0].link_id, r.links[0].link_data), (3, ADDR1, 0xffff_ff00));
}

#[test]
fn spf_distance_is_symmetric_on_ethernet_pair() {
    let lsas = vec![router(R1, ADDR1, true, false), router(R2, ADDR2, true, false), network()];
    let from1 = ShortPathTree::calculate(&lsas, R1).border_router(&lsas, R2).unwrap();
    let from2 = ShortPathTree::calculate(&lsas, R2).border_router(&lsas, R1).unwrap();
    assert_eq!(from1.distance, from2.distance);
    assert_eq!((from1.next_hop, from2.next_hop), (Some(ADDR2), Some(ADDR1)));
}

#[test]
fn flooding_leaves_early_neighbor_alone() {
    let mut n = Neighbor::new(R2, ADDR2);
    let h = LsaHeader { ls_age: 0, options: 0, ls_type: 1, link_state_id: 7, advertising_router: 7, ls_sequence_number: 3, ls_checksum: 0, length: 20 };
    n.ls_request_list.push(h);
    assert!(!n.flood(&h, false));
    assert!(n.ls_retransmission_list.is_empty());
    assert_eq!(n.ls_request_list.len(), 1);
}

#[test]
fn origination_builds_whole_lsa() {
    let body = || LsaData::SummaryIp(SummaryLSA { network_mask: 0xffff_ff00, metric: 5, tos: 0, tos_metric: 0 });
    let first = match originate(3, 0x0a01_0000, R1, true, body(), &None) {
        Origination::Install(l) => l,
        other => panic!("{:?}", other),
    };
    assert_eq!((first.header.ls_age, first.header.ls_type, first.header.link_state_id, first.header.advertising_router), (0, 3, 0x0a01_0000, R1));
    assert_eq!((first.header.options, first.header.ls_sequence_number, first.header.length), (2, -0x7fff_ffff, 32));
    assert!(first.checksum_ok());
    let bytes = first.to_bytes();
    let (mut c0, mut c1) = (0u32, 0u32);
    for b in &bytes[2..] {
        c0 = (c0 + *b as u32) % 255;
        c1 = (c1 + c0) % 255;
    }
    assert_eq!((c0, c1), (0, 0));
    assert!(matches!(originate(3, 0x0a01_0000, R1, true, body(), &Some(first.clone())), Origination::Unchanged));
    let mut old = first.clone();
    old.header.ls_age = 1900;
    match originate(3, 0x0a01_0000, R1, true, body(), &Some(old)) {
        Origination::Install(l) => assert_eq!(l.header.ls_sequence_number, -0x7fff_fffe),
        other => panic!("{:?}", other),
    }
    let mut top = first.clone();
    top.header.ls_sequence_number = 0x7fff_ffff;
    let changed = LsaData::SummaryIp(SummaryLSA { network_mask: 0xffff_ff00, metric: 6, tos: 0, tos_metric: 0 });
    match originate(3, 0x0a01_0000, R1, true, changed, &Some(top)) {
        Origination::Flush(l) => assert_eq!((l.header.ls_age, l.header.ls_sequence_number), (3600, 0x7fff_ffff)),
        other => panic!("{:?}", other),
    }
}

#[test]
fn dd_headers_to_request() {
    let mut area = Area::new(0);
    let mut ext = LsaTable::new();
    let known = Lsa {
        header: LsaHeader { ls_age: 0, options: 0, ls_type: 3, link_state_id: 1, advertising_router: 9, ls_sequence_number: 5, ls_checksum: 0, length: 32 },
        data: LsaData::SummaryIp(SummaryLSA { network_mask: 0, metric: 1, tos: 0, tos_metric: 0 }),
    };
    area.insert_lsa(&mut ext, known.clone(), 0);
    let older = LsaHeader { ls_sequence_number: 4, ..known.header };
    let newer = LsaHeader { ls_sequence_number: 6, ..known.header };
    let other = LsaHeader { link_state_id: 2, ..known.header };
    assert_eq!(area.dd_requests(&ext, &vec![older, newer, other], true, 0), Some(vec![newer, other]));
    let ext_h = LsaHeader { ls_type: 5, ..other };
    assert_eq!(area.dd_requests(&ext, &vec![newer, ext_h], false, 0), None);
    assert_eq!(area.dd_requests(&ext, &vec![LsaHeader { ls_type: 9, ..other }], true, 0), None);
}

#[test]
fn summary_routes_through_tree() {
    let summary = Lsa {
        header: LsaHeader { ls_age: 0, options: 0, ls_type: 3, link_state_id: 0x0a05_0000, advertising_router: R2, ls_sequence_number: 1, ls_checksum: 0, length: 32 },
        data: LsaData::SummaryIp(SummaryLSA { network_mask: 0xffff_ff00, metric: 3, tos: 0, tos_metric: 0 }),
    };
    let lsas = vec![router(R1, ADDR1, false, false), router(R2, ADDR2, false, false), network(), summary];
    let t = ShortPathTree::calculate(&lsas, R1);
    let routes = t.summary_routes(&lsas, R1, 0, true);
    assert_eq!(routes.len(), 1);
    assert_eq!((routes[0].dest_id, routes[0].cost, routes[0].next_hop), (0x0a05_0000, 5, ADDR2));
    assert_eq!(routes[0].path_type, RoutingTablePathType::AreaExternal);
}

#[test]
fn own_lsa_installed_once() {
    let mut area = Area::new(0);
    let mut ext = LsaTable::new();
    let body = || LsaData::SummaryIp(SummaryLSA { network_mask: 0xffff_ff00, metric: 5, tos: 0, tos_metric: 0 });
    let l = install_own(&mut area, &mut ext, 3, 0x0a01_0000, R1, false, body(), 0).unwrap();
    assert_eq!((l.header.ls_sequence_number, l.header.options, l.header.advertising_router), (-0x7fff_ffff, 0, R1));
    assert!(area.contains_lsa(&ext, &l.header.index()));
    assert!(install_own(&mut area, &mut ext, 3, 0x0a01_0000, R1, false, body(), 1_000).is_none());
    let changed = LsaData::SummaryIp(SummaryLSA { network_mask: 0xffff_ff00, metric: 7, tos: 0, tos_metric: 0 });
    let l2 = install_own(&mut area, &mut ext, 3, 0x0a01_0000, R1, false, changed, 2_000).unwrap();
    assert_eq!(l2.header.ls_sequence_number, -0x7fff_fffe);
}

#[test]
fn flood_and_purge_over_interface() {
    let h = LsaHeader { ls_age: 0, options: 0, ls_type: 1, link_state_id: 7, advertising_router: 7, ls_sequence_number: 3, ls_checksum: 0, length: 20 };
    let mut a = Neighbor::new(R1, ADDR1);
    a.state = NeighborState::Full;
    let mut b = Neighbor::new(R2, ADDR2);
    b.state = NeighborState::Full;
    let mut c = Neighbor::new(3, 3);
    c.state = NeighborState::TwoWay;
    let mut ns = vec![a, b, c];
    let q = flood_all(&mut ns, &h, Some(ADDR1));
    assert_eq!(q, vec![false, true, false]);
    assert!(ns[0].ls_retransmission_list.is_empty());
    assert_eq!(ns[1].ls_retransmission_list, vec![h.index()]);
    assert!(ns[2].ls_retransmission_list.is_empty());
    purge_all(&mut ns, h.index());
    assert!(ns.iter().all(|n| n.ls_retransmission_list.is_empty()));
}
