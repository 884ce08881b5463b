use std::cmp::Ordering;

use ospfd::exchange::{
    dd_header_acceptable, dd_reply, dd_verdict, hello_outcome, DdNeighbor, DdVerdict, HelloExpect,
    HelloPrev, HelloSeen,
};
use ospfd::flooding::{
    ack_after_install, ack_destination, eligible_interface, flood_interface, flood_neighbor,
    handle_one, next_sequence_number, transmit_age, LsuAction, LsuContext, SequenceStep, ALL_D_ROUTERS,
    ALL_SPF_ROUTERS,
};
use ospfd::interface::{
    run_election, ElectionNeighbor,
    RState, RType, Router,
    elected_state, interface_transition, net_type_from_flags, select_dr, InterfaceEvent,
    InterfaceState, InterfaceStep, NetType, SelectDr,
};
use ospfd::lsa::{Lsa, LsaData, LsaHeader, LsaIndex, SummaryLSA, AsExternalLSA};
use ospfd::lsdb::{effective_age_at, refresh_delay, Area, LsaTable};
use ospfd::neighbor::{
    ex_start_sequence, judge_connect, neighbor_transition, DdPacketCache, NeighborEvent,
    NeighborState,
};
use ospfd::origination::{gen_network_lsa, gen_router_lsa, InterfaceSummary};
use ospfd::routing::{
    external_route, kernel_route, summary_lsa_for, summary_route, BorderRouter, Ipv4AddrMask,
    RoutingItem, RoutingTable, RoutingTableIndex, RoutingTableItem, RoutingTableItemType,
    RoutingTablePathType,
};

fn hdr(seq: i32, age: u16, checksum: u16) -> LsaHeader {
    LsaHeader {
        ls_age: age,
        options: 0,
        ls_type: 1,
        link_state_id: 0x0202_0202,
        advertising_router: 0x0202_0202,
        ls_sequence_number: seq,
        ls_checksum: checksum,
        length: 20,
    }
}

#[test]
fn freshness_by_sequence_checksum_and_age() {
    let a = hdr(5, 10, 1);
    assert_eq!(a.freshness_cmp(&hdr(6, 10, 1)), Ordering::Less);
    assert_eq!(a.freshness_cmp(&hdr(5, 10, 2)), Ordering::Less);
    assert_eq!(a.freshness_cmp(&hdr(5, 3600, 1)), Ordering::Less);
    assert_eq!(hdr(5, 3600, 1).freshness_cmp(&a), Ordering::Greater);
    assert_eq!(a.freshness_cmp(&hdr(5, 1000, 1)), Ordering::Greater);
    assert_eq!(a.freshness_cmp(&hdr(5, 909, 1)), Ordering::Equal);
    assert!(hdr(-1, 0, 0).is_newer_than(&hdr(-2, 0, 0)));
}

#[test]
fn same_instance_with_small_age_difference() {
    let first = hdr(0x8000_0005u32 as i32, 10, 7);
    let second = hdr(0x8000_0005u32 as i32, 200, 7);
    assert_eq!(second.freshness_cmp(&first), Ordering::Equal);
    let mut area = Area::new(0);
    let mut ext = LsaTable::new();
    let lsa = Lsa {
        header: first,
        data: LsaData::SummaryIp(SummaryLSA { network_mask: 0, metric: 0, tos: 0, tos_metric: 0 }),
    };
    area.insert_lsa(&mut ext, lsa, 0);
    assert!(!area.need_update(&ext, &second, 0));
}

fn ctx(stored: Option<LsaHeader>, created: u64, now: u64) -> LsuContext {
    LsuContext {
        checksum_ok: true,
        external_routing: true,
        request_front: None,
        on_request_list: false,
        stored,
        stored_created_at: created,
        stored_last_sent_at: created,
        now,
        neighbors_exchanging: false,
        in_retransmission_list: false,
        iface_is_backup: false,
        sender_is_dr: false,
        router_id: 0x0101_0101,
        id_is_own_interface: false,
    }
}

#[test]
fn min_ls_arrival_throttles_second_update() {
    let first = hdr(3, 0, 1);
    assert_eq!(handle_one(&first, &ctx(None, 0, 1000)), LsuAction::Install { self_originated: false });
    let second = hdr(4, 0, 1);
    assert_eq!(handle_one(&second, &ctx(Some(first), 1000, 1500)), LsuAction::TooSoon);
    assert_eq!(
        handle_one(&second, &ctx(Some(first), 1000, 2000)),
        LsuAction::Install { self_originated: false }
    );
}

#[test]
fn lsu_receive_path_branches() {
    let h = hdr(3, 0, 1);
    let mut c = ctx(None, 0, 5000);
    c.checksum_ok = false;
    assert_eq!(handle_one(&h, &c), LsuAction::Drop);
    let mut ext_h = h;
    ext_h.ls_type = 5;
    let mut c = ctx(None, 0, 5000);
    c.external_routing = false;
    assert_eq!(handle_one(&ext_h, &c), LsuAction::Drop);
    let mut c = ctx(None, 0, 5000);
    c.request_front = Some(h.index());
    assert_eq!(handle_one(&h, &c), LsuAction::AcceptRequested);
    assert_eq!(handle_one(&hdr(3, 3600, 1), &ctx(None, 0, 5000)), LsuAction::AckAndDrop);
    let mut c = ctx(Some(h), 0, 5000);
    c.on_request_list = true;
    assert_eq!(handle_one(&h, &c), LsuAction::BadLsReq);
    let mut c = ctx(Some(h), 0, 5000);
    c.in_retransmission_list = true;
    c.iface_is_backup = true;
    c.sender_is_dr = true;
    assert_eq!(handle_one(&h, &c), LsuAction::ImplicitAck { delayed_ack: true });
    assert_eq!(handle_one(&h, &ctx(Some(h), 0, 5000)), LsuAction::DirectAck);
    assert_eq!(handle_one(&hdr(2, 0, 1), &ctx(Some(h), 0, 5000)), LsuAction::SendStored);
    assert_eq!(handle_one(&hdr(2, 0, 1), &ctx(Some(h), 4500, 5000)), LsuAction::Wait);
    let top = hdr(0x7fff_ffff, 3600, 1);
    assert_eq!(handle_one(&hdr(2, 0, 1), &ctx(Some(top), 0, 5000)), LsuAction::Ignore);
    let mine = LsaHeader { advertising_router: 0x0101_0101, ..hdr(9, 0, 1) };
    assert_eq!(handle_one(&mine, &ctx(None, 0, 5000)), LsuAction::Install { self_originated: true });
}

#[test]
fn acknowledgment_choices() {
    assert!(ack_after_install(false, false, false));
    assert!(!ack_after_install(true, false, false));
    assert!(!ack_after_install(false, true, false));
    assert!(ack_after_install(false, true, true));
    assert_eq!(ack_destination(true), ALL_D_ROUTERS);
    assert_eq!(ack_destination(false), ALL_SPF_ROUTERS);
    assert_eq!(ALL_SPF_ROUTERS, 0xe000_0005);
}

#[test]
fn flooding_skips_sender() {
    let lsa = hdr(7, 0, 1);
    let from_sender = flood_neighbor(NeighborState::Full, None, true, &lsa);
    assert!(!from_sender.queue);
    let other = flood_neighbor(NeighborState::Full, None, false, &lsa);
    assert!(other.queue && !other.drop_request);
    let early = flood_neighbor(NeighborState::TwoWay, None, false, &lsa);
    assert!(!early.queue);
    let requested_older = flood_neighbor(NeighborState::Loading, Some(hdr(6, 0, 1)), false, &lsa);
    assert!(requested_older.queue && requested_older.drop_request);
    let requested_same = flood_neighbor(NeighborState::Loading, Some(lsa), false, &lsa);
    assert!(!requested_same.queue && requested_same.drop_request);
    let requested_newer = flood_neighbor(NeighborState::Loading, Some(hdr(8, 0, 1)), false, &lsa);
    assert!(!requested_newer.queue && !requested_newer.drop_request);
    assert!(flood_interface(true, false, false, false));
    assert!(!flood_interface(false, false, false, false));
    assert!(!flood_interface(true, true, true, false));
    assert!(!flood_interface(true, true, false, true));
    assert!(eligible_interface(1, 0, 0, false));
    assert!(!eligible_interface(1, 0, 1, true));
    assert!(eligible_interface(5, 0, 1, true));
}

#[test]
fn transmit_age_and_sequence_numbers() {
    assert_eq!(transmit_age(10, 1), 11);
    assert_eq!(transmit_age(3599, 5), 3600);
    assert_eq!(next_sequence_number(None), SequenceStep::Use(-0x7fff_ffff));
    assert_eq!(next_sequence_number(Some(-3)), SequenceStep::Use(-2));
    assert_eq!(next_sequence_number(Some(0x7fff_ffff)), SequenceStep::Flush);
}

fn cand(priority: u8, id: u32, ip: u32, dr: u32, bdr: u32) -> SelectDr {
    SelectDr { priority, id, ip, bdr, dr }
}

#[test]
fn election_two_routers_on_ethernet() {
    let r1 = 0x0a00_0001;
    let r2 = 0x0a00_0002;
    let me2 = cand(1, 0x0202_0202, r2, 0, 0);
    let n1 = cand(1, 0x0101_0101, r1, 0, 0);
    assert_eq!(select_dr(me2, &vec![n1]), (r2, r1));
    let me1 = cand(1, 0x0101_0101, r1, 0, 0);
    let n2 = cand(1, 0x0202_0202, r2, r2, r1);
    assert_eq!(select_dr(me1, &vec![n2]), (r2, r1));
    assert_eq!(elected_state(r1, r2, r1), InterfaceState::Backup);
    assert_eq!(elected_state(r2, r2, r1), InterfaceState::DR);
    assert_eq!(elected_state(3, r2, r1), InterfaceState::DROther);
}

#[test]
fn election_ignores_priority_zero_and_prefers_priority() {
    let me = cand(0, 9, 9, 0, 0);
    assert_eq!(select_dr(me, &vec![]), (0, 0));
    let a = cand(5, 1, 1, 0, 0);
    let b = cand(1, 2, 2, 0, 0);
    assert_eq!(select_dr(me, &vec![a, b]), (1, 0));
    let a = cand(5, 1, 1, 1, 0);
    let b = cand(1, 2, 2, 1, 0);
    assert_eq!(select_dr(me, &vec![a, b]), (1, 2));
}

#[test]
fn interface_state_machine() {
    assert_eq!(
        interface_transition(InterfaceState::Down, InterfaceEvent::InterfaceUp, NetType::Broadcast, 1),
        InterfaceStep::Enter { state: InterfaceState::Waiting, start_wait_timer: true, start_hello_timer: true }
    );
    assert_eq!(
        interface_transition(InterfaceState::Down, InterfaceEvent::InterfaceUp, NetType::Broadcast, 0),
        InterfaceStep::Enter { state: InterfaceState::DROther, start_wait_timer: false, start_hello_timer: true }
    );
    assert_eq!(
        interface_transition(InterfaceState::Down, InterfaceEvent::InterfaceUp, NetType::P2P, 1),
        InterfaceStep::Enter { state: InterfaceState::PointToPoint, start_wait_timer: false, start_hello_timer: true }
    );
    assert_eq!(
        interface_transition(InterfaceState::Waiting, InterfaceEvent::WaitTimer, NetType::Broadcast, 1),
        InterfaceStep::Elect
    );
    assert_eq!(
        interface_transition(InterfaceState::DR, InterfaceEvent::WaitTimer, NetType::Broadcast, 1),
        InterfaceStep::Ignore
    );
    assert_eq!(
        interface_transition(InterfaceState::DR, InterfaceEvent::InterfaceDown, NetType::Broadcast, 1),
        InterfaceStep::Reset { state: InterfaceState::Down }
    );
    assert_eq!(net_type_from_flags(true, true, false), NetType::P2MP);
    assert_eq!(net_type_from_flags(false, true, true), NetType::Broadcast);
    assert_eq!(net_type_from_flags(false, true, false), NetType::NBMA);
}

#[test]
fn neighbor_state_machine() {
    let t = neighbor_transition(NeighborState::Down, NeighborEvent::HelloReceived, false, true);
    assert_eq!(t.next, NeighborState::Init);
    assert!(t.actions.reset_inactivity_timer);
    let t = neighbor_transition(NeighborState::Init, NeighborEvent::TwoWayReceived, true, true);
    assert_eq!(t.next, NeighborState::ExStart);
    assert!(t.actions.begin_ex_start);
    let t = neighbor_transition(NeighborState::Init, NeighborEvent::TwoWayReceived, false, true);
    assert_eq!(t.next, NeighborState::TwoWay);
    let t = neighbor_transition(NeighborState::ExStart, NeighborEvent::NegotiationDone, true, true);
    assert_eq!(t.next, NeighborState::Exchange);
    assert!(t.actions.fill_summary_list);
    let t = neighbor_transition(NeighborState::Exchange, NeighborEvent::ExchangeDone, true, false);
    assert_eq!(t.next, NeighborState::Loading);
    let t = neighbor_transition(NeighborState::Exchange, NeighborEvent::ExchangeDone, true, true);
    assert_eq!(t.next, NeighborState::Full);
    let t = neighbor_transition(NeighborState::Full, NeighborEvent::SeqNumberMismatch, true, true);
    assert_eq!(t.next, NeighborState::ExStart);
    assert!(t.actions.clear_lists);
    let t = neighbor_transition(NeighborState::Full, NeighborEvent::AdjOk, false, true);
    assert_eq!(t.next, NeighborState::TwoWay);
    let t = neighbor_transition(NeighborState::Full, NeighborEvent::InactivityTimer, true, true);
    assert_eq!(t.next, NeighborState::Down);
    let t = neighbor_transition(NeighborState::Full, NeighborEvent::KillNbr, true, true);
    assert!(t.actions.cancel_inactivity_timer);
    let t = neighbor_transition(NeighborState::TwoWay, NeighborEvent::LoadingDone, true, true);
    assert_eq!(t.next, NeighborState::TwoWay);
    assert!(NeighborState::Full.at_least(NeighborState::Exchange));
    assert!(!NeighborState::Init.at_least(NeighborState::TwoWay));
}

#[test]
fn adjacency_rule_and_ex_start_sequence() {
    assert!(judge_connect(NetType::P2P, false, false, false, false));
    assert!(!judge_connect(NetType::Broadcast, false, false, false, false));
    assert!(judge_connect(NetType::Broadcast, false, false, true, false));
    assert_eq!(ex_start_sequence(0, 0x1_2345_6789), 0x6789);
    assert_eq!(ex_start_sequence(5, 0x1_2345_6789), 5);
    let d = DdPacketCache::default();
    assert_eq!(d, DdPacketCache { sequence_number: 0, init: false, more: false, master: false });
}

#[test]
fn dd_exchange_decisions() {
    let n = DdNeighbor {
        state: NeighborState::ExStart,
        master: false,
        dd_seq_num: 10,
        dd_last: DdPacketCache::default(),
        options: 2,
        router_id: 0x0202_0202,
    };
    let init = DdPacketCache { sequence_number: 99, init: true, more: true, master: true };
    assert_eq!(dd_verdict(&n, 0x0101_0101, &init, 2, true), DdVerdict::Accept { negotiated: Some(true) });
    assert_eq!(dd_verdict(&n, 0x0303_0303, &init, 2, true), DdVerdict::Ignore);
    let ex = DdNeighbor { state: NeighborState::Exchange, master: true, dd_seq_num: 99, ..n };
    let next = DdPacketCache { sequence_number: 100, init: false, more: true, master: true };
    assert_eq!(dd_verdict(&ex, 0x0101_0101, &next, 2, false), DdVerdict::Accept { negotiated: None });
    let wrong = DdPacketCache { sequence_number: 105, ..next };
    assert_eq!(dd_verdict(&ex, 0x0101_0101, &wrong, 2, false), DdVerdict::SeqNumberMismatch);
    let dup = DdNeighbor { dd_last: next, ..ex };
    assert_eq!(dd_verdict(&dup, 0x0101_0101, &next, 2, false), DdVerdict::ResendLast);
    let r = dd_reply(true, &next, 99, 20);
    assert_eq!((r.sequence_number, r.count, r.more, r.master, r.exchange_done), (100, 8, true, false, false));
    let last = DdPacketCache { more: false, ..next };
    let r = dd_reply(false, &last, 7, 0);
    assert!(r.exchange_done && !r.send);
    let r = dd_reply(false, &last, 7, 20);
    assert!(!r.exchange_done && r.send && r.count == 12 && r.more);
    let r = dd_reply(true, &last, 99, 20);
    assert_eq!((r.count, r.more, r.exchange_done), (8, true, false));
    let r = dd_reply(true, &last, 99, 5);
    assert_eq!((r.count, r.more, r.exchange_done), (5, false, true));
    let r = dd_reply(false, &next, 7, 20);
    assert_eq!((r.sequence_number, r.count, r.more, r.master), (8, 12, true, true));
    let h = hdr(1, 0, 0);
    assert!(dd_header_acceptable(&h, false));
    assert!(!dd_header_acceptable(&LsaHeader { ls_type: 5, ..h }, false));
    assert!(!dd_header_acceptable(&LsaHeader { ls_type: 6, ..h }, true));
}

#[test]
fn hello_checks_and_events() {
    let e = HelloExpect { hello_interval: 10, dead_interval: 40, net_type: NetType::Broadcast, mask: 0xffff_ff00, external_routing: true };
    let prev = HelloPrev { ip: 0x0a00_0002, priority: 1, dr: 0, bdr: 0 };
    let seen = HelloSeen { hello_interval: 10, dead_interval: 40, mask: 0xffff_ff00, e_bit: true, priority: 1, dr: 0x0a00_0002, bdr: 0, lists_me: true };
    let o = hello_outcome(&e, &seen, &prev, true);
    assert!(o.accepted && o.two_way && !o.priority_changed);
    assert_eq!(o.dr_event, Some(InterfaceEvent::BackupSeen));
    let o = hello_outcome(&e, &HelloSeen { hello_interval: 5, ..seen }, &prev, true);
    assert!(!o.accepted);
    let o = hello_outcome(&e, &HelloSeen { lists_me: false, ..seen }, &prev, false);
    assert!(o.accepted && !o.two_way);
    let o = hello_outcome(&e, &HelloSeen { priority: 3, ..seen }, &prev, false);
    assert!(o.priority_changed);
    assert_eq!(o.dr_event, Some(InterfaceEvent::NeighborChange));
}

fn summary(t: u8, id: u32, adv: u32, seq: i32, age: u16) -> Lsa {
    Lsa {
        header: LsaHeader { ls_age: age, options: 0, ls_type: t, link_state_id: id, advertising_router: adv, ls_sequence_number: seq, ls_checksum: 0, length: 32 },
        data: LsaData::SummaryIp(SummaryLSA { network_mask: 0xffff_ff00, metric: 1, tos: 0, tos_metric: 0 }),
    }
}

#[test]
fn lsdb_insert_get_age_and_remove() {
    let mut area = Area::new(1);
    let mut ext = LsaTable::new();
    let l = summary(3, 0x0a01_0000, 0x0202_0202, 1, 100);
    let key = l.header.index();
    assert!(area.need_update(&ext, &l.header, 0));
    area.insert_lsa(&mut ext, l, 1_000);
    assert!(area.contains_lsa(&ext, &key));
    let (got, created, sent) = area.get_lsa(&ext, &key, 11_500).unwrap();
    assert_eq!(got.header.ls_age, 110);
    assert_eq!((created, sent), (1_000, 1_000));
    let (got, _, _) = area.get_lsa(&ext, &key, 10_000_000).unwrap();
    assert_eq!(got.header.ls_age, 3600);
    area.lsa_has_sent(&mut ext, &key, 2_000);
    assert_eq!(area.get_lsa(&ext, &key, 2_000).unwrap().2, 2_000);
    let newer = summary(3, 0x0a01_0000, 0x0202_0202, 2, 0);
    assert!(area.need_update(&ext, &newer.header, 2_000));
    area.insert_lsa(&mut ext, newer, 3_000);
    assert_eq!(area.get_lsa(&ext, &key, 3_000).unwrap().0.header.ls_sequence_number, 2);
    assert_eq!(area.lsa_database.entries.len(), 1);
    area.remove_lsa(&mut ext, &key);
    assert!(!area.contains_lsa(&ext, &key));
    assert_eq!(effective_age_at(3590, 0, 20_000), 3600);
    assert_eq!(refresh_delay(600), 3000);
}

#[test]
fn lsdb_external_scope() {
    let mut area = Area::new(1);
    let mut ext = LsaTable::new();
    let l = Lsa {
        header: LsaHeader { ls_age: 0, options: 0, ls_type: 5, link_state_id: 0x0b00_0000, advertising_router: 3, ls_sequence_number: 1, ls_checksum: 0, length: 36 },
        data: LsaData::AsExternal(AsExternalLSA { network_mask: 0xff00_0000, e: false, metric: 1, forwarding_address: 0, external_router_tag: 0 }),
    };
    let key = l.header.index();
    area.insert_lsa(&mut ext, l, 0);
    assert_eq!(ext.entries.len(), 1);
    assert!(area.contains_lsa(&ext, &key));
    area.external_routing_capability = false;
    assert!(!area.contains_lsa(&ext, &key));
    assert_eq!(key, LsaIndex::new(5, 0x0b00_0000, 3));
}

fn item(dest: u32, mask: u32, path: RoutingTablePathType, cost: u32, cost_t2: u32) -> RoutingTableItem {
    RoutingTableItem {
        dest_type: RoutingTableItemType::Network,
        dest_id: dest,
        addr_mask: mask,
        external_cap: true,
        area_id: 1,
        path_type: path,
        cost,
        cost_t2,
        lsa_origin: LsaIndex::new(1, 1, 1),
        next_hop: 0x0a00_0002,
        ad_router: 1,
    }
}

#[test]
fn better_than_order() {
    let a = item(1, 0, RoutingTablePathType::AreaInternal, 50, 0);
    let b = item(1, 0, RoutingTablePathType::AreaExternal, 1, 0);
    assert!(a.better_than(&b) && !b.better_than(&a));
    let c = item(1, 0, RoutingTablePathType::AsExternalT2, 1, 5);
    let d = item(1, 0, RoutingTablePathType::AsExternalT2, 9, 3);
    assert!(d.better_than(&c));
    let e = item(1, 0, RoutingTablePathType::AsExternalT1, 3, 0);
    let f = item(1, 0, RoutingTablePathType::AsExternalT1, 4, 0);
    assert!(e.better_than(&f) && !e.better_than(&e));
}

#[test]
fn address_masks() {
    let a = Ipv4AddrMask::from(0x0a00_0001, 0xffff_ff00);
    assert_eq!(a, Ipv4AddrMask { addr: 0x0a00_0000, len: 24 });
    assert_eq!(a.mask(), 0xffff_ff00);
    assert_eq!(a.network(), 0x0a00_0000);
    assert_eq!(Ipv4AddrMask::from(5, 0).mask(), 0);
    assert_eq!(Ipv4AddrMask::from(5, 0xffff_ffff).len, 32);
}

#[test]
fn routing_table_keeps_better_and_matches_longest() {
    let mut t = RoutingTable::new();
    t.offer(item(0x0a00_0000, 0xff00_0000, RoutingTablePathType::AreaInternal, 10, 0));
    t.offer(item(0x0a01_0000, 0xffff_0000, RoutingTablePathType::AreaInternal, 20, 0));
    t.offer(item(0x0a01_0000, 0xffff_0000, RoutingTablePathType::AreaInternal, 30, 0));
    assert_eq!(t.get_routings().len(), 2);
    let k = RoutingTableIndex::Network(Ipv4AddrMask { addr: 0x0a01_0000, len: 16 });
    assert_eq!(t.get(&k).unwrap().cost, 20);
    t.offer(item(0x0a01_0000, 0xffff_0000, RoutingTablePathType::AreaInternal, 5, 0));
    assert_eq!(t.get(&k).unwrap().cost, 5);
    assert_eq!(t.get_routing(0x0a01_0203).unwrap().cost, 5);
    assert_eq!(t.get_routing(0x0a02_0203).unwrap().cost, 10);
    assert!(t.get_routing(0x0b00_0001).is_none());
}

#[test]
fn external_routes_type_one_and_two() {
    let mut t = RoutingTable::new();
    let mut asbr = item(0x0303_0303, 0, RoutingTablePathType::AreaInternal, 7, 0);
    asbr.dest_type = RoutingTableItemType::Router;
    t.offer(asbr);
    let h = LsaHeader { ls_age: 0, options: 0, ls_type: 5, link_state_id: 0x0b00_0001, advertising_router: 0x0303_0303, ls_sequence_number: 1, ls_checksum: 0, length: 36 };
    let t1 = AsExternalLSA { network_mask: 0xff00_0000, e: false, metric: 4, forwarding_address: 0, external_router_tag: 0 };
    let r = external_route(&h, &t1, 0x0101_0101, &t).unwrap();
    assert_eq!((r.dest_id, r.addr_mask, r.cost, r.cost_t2), (0x0b00_0000, 0xff00_0000, 11, 0));
    assert_eq!(r.path_type, RoutingTablePathType::AsExternalT1);
    let t2 = AsExternalLSA { e: true, ..t1 };
    let r = external_route(&h, &t2, 0x0101_0101, &t).unwrap();
    assert_eq!((r.cost, r.cost_t2, r.path_type), (7, 4, RoutingTablePathType::AsExternalT2));
    assert!(external_route(&h, &t1, 0x0303_0303, &t).is_none());
    let far = AsExternalLSA { metric: 0xff_ffff, ..t1 };
    assert!(external_route(&h, &far, 0x0101_0101, &t).is_none());
}

#[test]
fn summary_routes_from_border_router() {
    let l = summary(3, 0x0a05_0001, 0x0404_0404, 1, 0);
    let body = SummaryLSA { network_mask: 0xffff_ff00, metric: 6, tos: 0, tos_metric: 0 };
    let br = Some(BorderRouter { distance: 4, next_hop: Some(0x0a00_0002) });
    let r = summary_route(&l.header, &body, 0x0101_0101, 1, true, br).unwrap();
    assert_eq!((r.dest_id, r.addr_mask, r.cost, r.next_hop), (0x0a05_0000, 0xffff_ff00, 10, 0x0a00_0002));
    assert_eq!(r.path_type, RoutingTablePathType::AreaExternal);
    assert!(summary_route(&l.header, &body, 0x0101_0101, 1, true, None).is_none());
    let unreachable = Some(BorderRouter { distance: 4, next_hop: None });
    assert!(summary_route(&l.header, &body, 0x0101_0101, 1, true, unreachable).is_none());
}

#[test]
fn summary_lsa_generation() {
    let r = item(0x0a01_0000, 0xffff_ff00, RoutingTablePathType::AreaInternal, 5, 0);
    let (t, id, body) = summary_lsa_for(&r, 0, true).unwrap();
    assert_eq!((t, id, body.network_mask, body.metric), (3, 0x0a01_0000, 0xffff_ff00, 5));
    assert!(summary_lsa_for(&r, 1, true).is_none());
    let inter = item(0x0a01_0000, 0xffff_ff00, RoutingTablePathType::AreaExternal, 5, 0);
    assert!(summary_lsa_for(&inter, 0, true).is_none());
    assert!(summary_lsa_for(&inter, 2, true).is_some());
    let ext = item(0x0a01_0000, 0xffff_ff00, RoutingTablePathType::AsExternalT1, 5, 0);
    assert!(summary_lsa_for(&ext, 0, true).is_none());
    assert_eq!(
        kernel_route(&r),
        Some(RoutingItem { dest: 0x0a01_0000, mask: 0xffff_ff00, nexthop: 0x0a00_0002 })
    );
}

#[test]
fn router_and_network_lsa_origination() {
    let ifs = vec![
        InterfaceSummary { area_id: 0, state: InterfaceState::DR, ip: 0x0a00_0002, mask: 0xffff_ff00, cost: 1, dr: 0x0a00_0002, dr_with_neighbors: true, full_with_dr: false },
        InterfaceSummary { area_id: 0, state: InterfaceState::DROther, ip: 0x0a01_0001, mask: 0xffff_ff00, cost: 3, dr: 0, dr_with_neighbors: false, full_with_dr: false },
        InterfaceSummary { area_id: 1, state: InterfaceState::DR, ip: 0x0a02_0001, mask: 0xffff_ff00, cost: 1, dr: 0, dr_with_neighbors: false, full_with_dr: false },
        InterfaceSummary { area_id: 0, state: InterfaceState::Down, ip: 0x0a03_0001, mask: 0xffff_ff00, cost: 1, dr: 0, dr_with_neighbors: false, full_with_dr: false },
    ];
    let r = gen_router_lsa(&ifs, 0, true, false);
    assert_eq!(r.num_links, 2);
    assert!(r.b && !r.e && !r.v);
    assert_eq!((r.links[0].link_type, r.links[0].link_id, r.links[0].link_data), (2, 0x0a00_0002, 0x0a00_0002));
    assert_eq!((r.links[1].link_type, r.links[1].link_id, r.links[1].link_data, r.links[1].metric), (3, 0x0a01_0001, 0xffff_ff00, 3));
    let n = gen_network_lsa(true, 0xffff_ff00, &vec![0x0101_0101], 0x0202_0202).unwrap();
    assert_eq!(n.attached_routers, vec![0x0101_0101, 0x0202_0202]);
    assert!(gen_network_lsa(true, 0xffff_ff00, &vec![], 0x0202_0202).is_none());
    assert!(gen_network_lsa(false, 0xffff_ff00, &vec![0x0101_0101], 0x0202_0202).is_none());
}

#[test]
fn router_role_follows_election() {
    let mut r = Router::new(0x0101_0101);
    assert_eq!(r.router_type, RType::Other);
    assert_eq!(r.router_state, RState::Initial);
    r.set_role(0x0a00_0001, 0x0a00_0002, 0x0a00_0001);
    assert_eq!(r.router_type, RType::BDR);
    r.set_role(0x0a00_0002, 0x0a00_0002, 0x0a00_0001);
    assert_eq!(r.router_type, RType::DR);
}

#[test]
fn election_on_interface_two_routers() {
    let r1 = 0x0a00_0001;
    let r2 = 0x0a00_0002;
    let me = cand(1, 0x0101_0101, r1, r2, 0);
    let up = ElectionNeighbor { state: NeighborState::Full, candidate: cand(1, 0x0202_0202, r2, r2, 0) };
    let e = run_election(me, &vec![up]);
    assert_eq!((e.dr, e.bdr, e.state), (r2, r1, InterfaceState::Backup));
    assert_eq!(e.adj_ok, vec![0]);
    let early = ElectionNeighbor { state: NeighborState::Init, candidate: cand(9, 0x0909_0909, 0x0a00_0009, 0x0a00_0009, 0) };
    let e = run_election(cand(1, 0x0101_0101, r1, 0, 0), &vec![early, up]);
    assert_eq!((e.dr, e.bdr, e.state), (r2, r1, InterfaceState::Backup));
    assert_eq!(e.adj_ok, vec![0, 1]);
}
