//! The neighbor state machine: states, events, and the transition taken
//! for each pair, with the side effects the caller carries out.

use vstd::prelude::*;
use core::cmp::Ordering;
use crate::interface::NetType;
use crate::lsa::{LsaHeader, LsaIndex, header_index};
use crate::flooding::{flood_decision, flood_neighbor};

verus! {

/// Neighbor states, in the order used for comparisons.
#[derive(Clone, Copy, Debug, PartialEq, Eq, Structural)]
pub enum NeighborState {
    Down,
    Attempt,
    Init,
    TwoWay,
    ExStart,
    Exchange,
    Loading,
    Full,
}

pub open spec fn state_rank(s: NeighborState) -> int {
    match s {
        NeighborState::Down => 0,
        NeighborState::Attempt => 1,
        NeighborState::Init => 2,
        NeighborState::TwoWay => 3,
        NeighborState::ExStart => 4,
        NeighborState::Exchange => 5,
        NeighborState::Loading => 6,
        NeighborState::Full => 7,
    }
}

impl NeighborState {
    /// Position of the state in the order Down < Attempt < ... < Full.
    pub fn rank(&self) -> (r: u8)
        ensures
            r as int == state_rank(*self),
    {
        match self {
            NeighborState::Down => 0,
            NeighborState::Attempt => 1,
            NeighborState::Init => 2,
            NeighborState::TwoWay => 3,
            NeighborState::ExStart => 4,
            NeighborState::Exchange => 5,
            NeighborState::Loading => 6,
            NeighborState::Full => 7,
        }
    }

    /// True when `self` comes at or after `other`.
    pub fn at_least(&self, other: NeighborState) -> (r: bool)
        ensures
            r == (state_rank(*self) >= state_rank(other)),
    {
        self.rank() >= other.rank()
    }
}

/// Events that drive the neighbor state machine.
#[derive(Clone, Copy, Debug, PartialEq, Eq, Structural)]
pub enum NeighborEvent {
    HelloReceived,
    Start,
    TwoWayReceived,
    NegotiationDone,
    ExchangeDone,
    BadLSReq,
    LoadingDone,
    AdjOk,
    SeqNumberMismatch,
    OneWayReceived,
    KillNbr,
    InactivityTimer,
    LLDown,
}

/// What the caller must do along with a transition.
#[derive(Clone, Copy, Debug, PartialEq, Eq, Structural)]
pub struct NeighborActions {
    /// Restart the inactivity timer (RouterDeadInterval).
    pub reset_inactivity_timer: bool,
    /// Stop the inactivity timer.
    pub cancel_inactivity_timer: bool,
    /// Clear the retransmission, summary and request lists and stop the
    /// DD and request retransmissions.
    pub clear_lists: bool,
    /// Enter ExStart: pick a DD sequence number on first entry and send
    /// empty DD packets with I, M and MS set until negotiation ends.
    pub begin_ex_start: bool,
    /// Fill the database summary list with the area's LSA headers.
    pub fill_summary_list: bool,
    /// Stop retransmitting the last DD packet.
    pub cancel_dd_rxmt: bool,
}

#[derive(Clone, Copy, Debug, PartialEq, Eq, Structural)]
pub struct NeighborTransition {
    pub next: NeighborState,
    pub actions: NeighborActions,
}

pub open spec fn no_actions() -> NeighborActions {
    NeighborActions {
        reset_inactivity_timer: false,
        cancel_inactivity_timer: false,
        clear_lists: false,
        begin_ex_start: false,
        fill_summary_list: false,
        cancel_dd_rxmt: false,
    }
}

pub open spec fn stay(s: NeighborState) -> NeighborTransition {
    NeighborTransition { next: s, actions: no_actions() }
}

/// The transition for `state` on `event`. `adjacency_needed` is the
/// adjacency rule evaluated for this neighbor, `request_list_empty` tells
/// whether the LS request list is empty. Events a state does not handle
/// leave it as it is, with nothing to do.
pub open spec fn neighbor_next(
    state: NeighborState,
    event: NeighborEvent,
    adjacency_needed: bool,
    request_list_empty: bool,
) -> NeighborTransition {
    let r = state_rank(state);
    match event {
        NeighborEvent::HelloReceived => NeighborTransition {
            next: if r <= 1 { NeighborState::Init } else { state },
            actions: NeighborActions { reset_inactivity_timer: true, ..no_actions() },
        },
        NeighborEvent::TwoWayReceived => if state == NeighborState::Init {
            if adjacency_needed {
                NeighborTransition {
                    next: NeighborState::ExStart,
                    actions: NeighborActions { begin_ex_start: true, ..no_actions() },
                }
            } else {
                stay(NeighborState::TwoWay)
            }
        } else {
            stay(state)
        },
        NeighborEvent::NegotiationDone => if state == NeighborState::ExStart {
            NeighborTransition {
                next: NeighborState::Exchange,
                actions: NeighborActions { fill_summary_list: true, ..no_actions() },
            }
        } else {
            stay(state)
        },
        NeighborEvent::ExchangeDone => if state == NeighborState::Exchange {
            NeighborTransition {
                next: if request_list_empty {
                    NeighborState::Full
                } else {
                    NeighborState::Loading
                },
                actions: NeighborActions { cancel_dd_rxmt: true, ..no_actions() },
            }
        } else {
            stay(state)
        },
        NeighborEvent::LoadingDone => if state == NeighborState::Loading {
            stay(NeighborState::Full)
        } else {
            stay(state)
        },
        NeighborEvent::BadLSReq | NeighborEvent::SeqNumberMismatch => if r >= 5 {
            NeighborTransition {
                next: NeighborState::ExStart,
                actions: NeighborActions { clear_lists: true, begin_ex_start: true, ..no_actions() },
            }
        } else {
            stay(state)
        },
        NeighborEvent::AdjOk => if state == NeighborState::TwoWay {
            if adjacency_needed {
                NeighborTransition {
                    next: NeighborState::ExStart,
                    actions: NeighborActions { begin_ex_start: true, ..no_actions() },
                }
            } else {
                stay(state)
            }
        } else if r >= 4 && !adjacency_needed {
            NeighborTransition {
                next: NeighborState::TwoWay,
                actions: NeighborActions { clear_lists: true, ..no_actions() },
            }
        } else {
            stay(state)
        },
        NeighborEvent::OneWayReceived => if r >= 3 {
            NeighborTransition {
                next: NeighborState::Init,
                actions: NeighborActions { clear_lists: true, ..no_actions() },
            }
        } else {
            stay(state)
        },
        NeighborEvent::KillNbr | NeighborEvent::LLDown => NeighborTransition {
            next: NeighborState::Down,
            actions: NeighborActions {
                clear_lists: true,
                cancel_inactivity_timer: true,
                ..no_actions()
            },
        },
        NeighborEvent::InactivityTimer => NeighborTransition {
            next: NeighborState::Down,
            actions: NeighborActions { clear_lists: true, ..no_actions() },
        },
        NeighborEvent::Start => stay(state),
    }
}

fn nothing() -> (r: NeighborActions)
    ensures
        r == no_actions(),
{
    NeighborActions {
        reset_inactivity_timer: false,
        cancel_inactivity_timer: false,
        clear_lists: false,
        begin_ex_start: false,
        fill_summary_list: false,
        cancel_dd_rxmt: false,
    }
}

/// The neighbor state machine. It is total: every state and event has
/// exactly one transition.
pub fn neighbor_transition(
    state: NeighborState,
    event: NeighborEvent,
    adjacency_needed: bool,
    request_list_empty: bool,
) -> (r: NeighborTransition)
    ensures
        r == neighbor_next(state, event, adjacency_needed, request_list_empty),
{
    let r = state.rank();
    let none = nothing();
    let stay = NeighborTransition { next: state, actions: none };
    match event {
        NeighborEvent::HelloReceived => NeighborTransition {
            next: if r <= 1 { NeighborState::Init } else { state },
            actions: NeighborActions { reset_inactivity_timer: true, ..none },
        },
        NeighborEvent::TwoWayReceived => if state == NeighborState::Init {
            if adjacency_needed {
                NeighborTransition {
                    next: NeighborState::ExStart,
                    actions: NeighborActions { begin_ex_start: true, ..none },
                }
            } else {
                NeighborTransition { next: NeighborState::TwoWay, actions: none }
            }
        } else {
            stay
        },
        NeighborEvent::NegotiationDone => if state == NeighborState::ExStart {
            NeighborTransition {
                next: NeighborState::Exchange,
                actions: NeighborActions { fill_summary_list: true, ..none },
            }
        } else {
            stay
        },
        NeighborEvent::ExchangeDone => if state == NeighborState::Exchange {
            NeighborTransition {
                next: if request_list_empty {
                    NeighborState::Full
                } else {
                    NeighborState::Loading
                },
                actions: NeighborActions { cancel_dd_rxmt: true, ..none },
            }
        } else {
            stay
        },
        NeighborEvent::LoadingDone => if state == NeighborState::Loading {
            NeighborTransition { next: NeighborState::Full, actions: none }
        } else {
            stay
        },
        NeighborEvent::BadLSReq | NeighborEvent::SeqNumberMismatch => if r >= 5 {
            NeighborTransition {
                next: NeighborState::ExStart,
                actions: NeighborActions { clear_lists: true, begin_ex_start: true, ..none },
            }
        } else {
            stay
        },
        NeighborEvent::AdjOk => if state == NeighborState::TwoWay {
            if adjacency_needed {
                NeighborTransition {
                    next: NeighborState::ExStart,
                    actions: NeighborActions { begin_ex_start: true, ..none },
                }
            } else {
                stay
            }
        } else if r >= 4 && !adjacency_needed {
            NeighborTransition {
                next: NeighborState::TwoWay,
                actions: NeighborActions { clear_lists: true, ..none },
            }
        } else {
            stay
        },
        NeighborEvent::OneWayReceived => if r >= 3 {
            NeighborTransition {
                next: NeighborState::Init,
                actions: NeighborActions { clear_lists: true, ..none },
            }
        } else {
            stay
        },
        NeighborEvent::KillNbr | NeighborEvent::LLDown => NeighborTransition {
            next: NeighborState::Down,
            actions: NeighborActions { clear_lists: true, cancel_inactivity_timer: true, ..none },
        },
        NeighborEvent::InactivityTimer => NeighborTransition {
            next: NeighborState::Down,
            actions: NeighborActions { clear_lists: true, ..none },
        },
        NeighborEvent::Start => stay,
    }
}

/// An adjacency is formed over point-to-point, point-to-multipoint and
/// virtual links, and on broadcast networks whenever this router or the
/// neighbor is DR or BDR.
pub open spec fn adjacency_rule(
    net_type: NetType,
    self_is_dr: bool,
    self_is_bdr: bool,
    nbr_is_dr: bool,
    nbr_is_bdr: bool,
) -> bool {
    net_type == NetType::P2P || net_type == NetType::P2MP || net_type == NetType::Virtual
        || self_is_dr || self_is_bdr || nbr_is_dr || nbr_is_bdr
}

pub fn judge_connect(
    net_type: NetType,
    self_is_dr: bool,
    self_is_bdr: bool,
    nbr_is_dr: bool,
    nbr_is_bdr: bool,
) -> (r: bool)
    ensures
        r == adjacency_rule(net_type, self_is_dr, self_is_bdr, nbr_is_dr, nbr_is_bdr),
{
    matches!(net_type, NetType::P2P | NetType::P2MP | NetType::Virtual) || self_is_dr || self_is_bdr
        || nbr_is_dr || nbr_is_bdr
}

/// The DD sequence number to use on entering ExStart: the current one if
/// already chosen, else the low 16 bits of the Unix time in seconds.
pub fn ex_start_sequence(current: u32, unix_seconds: u64) -> (r: u32)
    ensures
        current != 0 ==> r == current,
        current == 0 ==> r as int == unix_seconds as int % 65536,
{
    if current != 0 {
        current
    } else {
        (unix_seconds % 65536) as u32
    }
}

/// The flags and sequence number of the last DD packet a neighbor sent.
#[derive(Clone, Copy, Debug, PartialEq, Eq, Structural)]
pub struct DdPacketCache {
    pub sequence_number: u32,
    pub init: bool,
    pub more: bool,
    pub master: bool,
}

impl DdPacketCache {
    pub fn default() -> (r: DdPacketCache)
        ensures
            r == (DdPacketCache { sequence_number: 0, init: false, more: false, master: false }),
    {
        DdPacketCache { sequence_number: 0, init: false, more: false, master: false }
    }

    pub fn from(p: &crate::packet::DBDescription) -> (r: DdPacketCache)
        ensures
            r == (DdPacketCache {
                sequence_number: p.db_sequence_number,
                init: p.init,
                more: p.more,
                master: p.master,
            }),
    {
        DdPacketCache {
            sequence_number: p.db_sequence_number,
            init: p.init,
            more: p.more,
            master: p.master,
        }
    }
}

// ---------------------------------------------------------------------------
// The neighbor record
/// What this router keeps of one neighbor. Its timers belong to the caller.
#[derive(Debug)]
pub struct Neighbor {
    pub state: NeighborState,
    /// The neighbor is master of the database exchange.
    pub master: bool,
    pub dd_seq_num: u32,
    /// The last DD packet the neighbor sent.
    pub dd_last_packet: DdPacketCache,
    pub router_id: u32,
    pub priority: u8,
    pub ip_addr: u32,
    pub option: u8,
    pub dr: u32,
    pub bdr: u32,
    /// LSAs flooded to the neighbor and not yet acknowledged.
    pub ls_retransmission_list: Vec<LsaIndex>,
    /// Headers still to describe to the neighbor in DD packets.
    pub db_summary_list: Vec<LsaHeader>,
    /// LSAs still to request from the neighbor.
    pub ls_request_list: Vec<LsaHeader>,
}

impl Neighbor {
    pub open spec fn lists_empty(&self) -> bool {
        &&& self.ls_retransmission_list@.len() == 0
        &&& self.db_summary_list@.len() == 0
        &&& self.ls_request_list@.len() == 0
    }

    /// A neighbor just heard of, in state Down.
    pub fn new(router_id: u32, ip_addr: u32) -> (r: Neighbor)
        ensures
            r.state == NeighborState::Down,
            r.router_id == router_id,
            r.ip_addr == ip_addr,
            r.dd_seq_num == 0,
            r.priority == 0,
            r.dr == 0 && r.bdr == 0,
            !r.master,
            r.dd_last_packet == DdPacketCache::spec_default(),
            r.lists_empty(),
    {
        Neighbor {
            state: NeighborState::Down,
            master: false,
            dd_seq_num: 0,
            dd_last_packet: DdPacketCache::default(),
            router_id,
            priority: 0,
            ip_addr,
            option: 0,
            dr: 0,
            bdr: 0,
            ls_retransmission_list: Vec::new(),
            db_summary_list: Vec::new(),
            ls_request_list: Vec::new(),
        }
    }

    /// Forgets the adjacency: clears the three lists and the DD sequence number.
    pub fn reset(&mut self)
        ensures
            final(self).lists_empty(),
            final(self).dd_seq_num == 0,
            final(self).state == old(self).state,
            final(self).master == old(self).master,
            final(self).dd_last_packet == old(self).dd_last_packet,
            final(self).router_id == old(self).router_id,
            final(self).priority == old(self).priority,
            final(self).ip_addr == old(self).ip_addr,
            final(self).option == old(self).option,
            final(self).dr == old(self).dr,
            final(self).bdr == old(self).bdr,
    {
        self.dd_seq_num = 0;
        self.ls_retransmission_list = Vec::new();
        self.db_summary_list = Vec::new();
        self.ls_request_list = Vec::new();
    }

    pub fn is_dr(&self) -> (r: bool)
        ensures
            r == (self.ip_addr == self.dr),
    {
        self.ip_addr == self.dr
    }

    pub fn is_bdr(&self) -> (r: bool)
        ensures
            r == (self.ip_addr == self.bdr),
    {
        self.ip_addr == self.bdr
    }

    /// Runs the state machine on `event`: clears the lists (and the DD
    /// sequence number) when the transition asks for it, and on entering
    /// ExStart for the first time picks the DD sequence number from
    /// `unix_seconds` and takes the master role. Returns what is left for
    /// the caller (timers, the first DD packet, the summary list).
    pub fn handle_event(&mut self, event: NeighborEvent, adjacency_needed: bool, unix_seconds: u64) -> (r: NeighborActions)
        ensures
            ({
                let t = neighbor_next(old(self).state, event, adjacency_needed, old(self).ls_request_list@.len() == 0);
                let seq0 = if t.actions.clear_lists { 0u32 } else { old(self).dd_seq_num };
                &&& r == t.actions
                &&& final(self).state == t.next
                &&& t.actions.clear_lists ==> final(self).lists_empty()
                &&& !t.actions.clear_lists ==> final(self).ls_retransmission_list@ == old(self).ls_retransmission_list@
                    && final(self).ls_request_list@ == old(self).ls_request_list@
                    && final(self).db_summary_list@ == old(self).db_summary_list@
                &&& if t.actions.begin_ex_start && seq0 == 0 {
                    final(self).dd_seq_num as int == unix_seconds as int % 65536 && !final(self).master
                } else {
                    final(self).dd_seq_num == seq0 && final(self).master == old(self).master
                }
            }),
            final(self).dd_last_packet == old(self).dd_last_packet,
            final(self).router_id == old(self).router_id,
            final(self).priority == old(self).priority,
            final(self).ip_addr == old(self).ip_addr,
            final(self).option == old(self).option,
            final(self).dr == old(self).dr,
            final(self).bdr == old(self).bdr,
    {
        let t = neighbor_transition(self.state, event, adjacency_needed, self.ls_request_list.len() == 0);
        if t.actions.clear_lists {
            self.reset();
        }
        self.state = t.next;
        if t.actions.begin_ex_start && self.dd_seq_num == 0 {
            self.dd_seq_num = ex_start_sequence(0, unix_seconds);
            self.master = false;
        }
        t.actions
    }

    /// The DD packet sent while in ExStart: I, M and MS set, no headers.
    pub fn ex_start_packet(&self) -> (r: crate::packet::DBDescription)
        ensures
            r@ == (crate::packet::DdModel {
                interface_mtu: 0,
                options: self.option,
                init: true,
                more: true,
                master: true,
                db_sequence_number: self.dd_seq_num,
                lsa_header: Seq::empty(),
            }),
    {
        let r = crate::packet::DBDescription {
            interface_mtu: 0,
            options: self.option,
            init: true,
            more: true,
            master: true,
            db_sequence_number: self.dd_seq_num,
            lsa_header: Vec::new(),
        };
        assert(r.lsa_header@ =~= Seq::<LsaHeader>::empty());
        r
    }

    /// Queues `k` for retransmission (once).
    pub fn add_retransmission(&mut self, k: LsaIndex)
        ensures
            final(self).ls_retransmission_list@ == if old(self).ls_retransmission_list@.contains(k) {
                old(self).ls_retransmission_list@
            } else {
                old(self).ls_retransmission_list@.push(k)
            },
            forall|j: LsaIndex| #[trigger] final(self).ls_retransmission_list@.contains(j) <==> (
            old(self).ls_retransmission_list@.contains(j) || j == k),
            final(self).state == old(self).state,
            final(self).ip_addr == old(self).ip_addr,
            final(self).ls_request_list@ == old(self).ls_request_list@,
            final(self).db_summary_list@ == old(self).db_summary_list@,
    {
        let mut k2: usize = 0;
        while k2 < self.ls_retransmission_list.len()
            invariant
                k2 <= self.ls_retransmission_list@.len(),
                forall|j: int| 0 <= j < k2 ==> self.ls_retransmission_list@[j] != k,
            decreases self.ls_retransmission_list@.len() - k2,
        {
            if self.ls_retransmission_list[k2] == k {
                assert(self.ls_retransmission_list@[k2 as int] == k);
                return;
            }
            k2 = k2 + 1;
        }
        let ghost before = self.ls_retransmission_list@;
        self.ls_retransmission_list.push(k);
        assert forall|j: LsaIndex| #[trigger] self.ls_retransmission_list@.contains(j) <==> (before.contains(j) || j == k) by {
            if before.contains(j) {
                let a = choose|a: int| 0 <= a < before.len() && before[a] == j;
                assert(self.ls_retransmission_list@[a] == j);
            }
            if self.ls_retransmission_list@.contains(j) {
                let a = choose|a: int| 0 <= a < self.ls_retransmission_list@.len() && self.ls_retransmission_list@[a] == j;
                if a < before.len() {
                    assert(before[a] == j);
                }
            }
            if j == k {
                assert(self.ls_retransmission_list@[before.len() as int] == k);
            }
        }
    }

    /// Removes `k` from the retransmission list; true when it was there
    /// (an acknowledgment was awaited).
    pub fn remove_retransmission(&mut self, k: LsaIndex) -> (r: bool)
        ensures
            r == old(self).ls_retransmission_list@.contains(k),
            forall|j: LsaIndex| #[trigger] final(self).ls_retransmission_list@.contains(j) <==> (
            old(self).ls_retransmission_list@.contains(j) && j != k),
            final(self).state == old(self).state,
            final(self).ip_addr == old(self).ip_addr,
            final(self).ls_request_list@ == old(self).ls_request_list@,
            final(self).db_summary_list@ == old(self).db_summary_list@,
    {
        let ghost before = self.ls_retransmission_list@;
        let mut kept: Vec<LsaIndex> = Vec::new();
        let mut found = false;
        let mut i: usize = 0;
        while i < self.ls_retransmission_list.len()
            invariant
                before == self.ls_retransmission_list@,
                i <= before.len(),
                found == before.subrange(0, i as int).contains(k),
                forall|j: LsaIndex| #[trigger] kept@.contains(j) <==> (before.subrange(0, i as int).contains(j) && j != k),
            decreases before.len() - i,
        {
            let x = self.ls_retransmission_list[i];
            let ghost kept0 = kept@;
            assert(before.subrange(0, i + 1) =~= before.subrange(0, i as int).push(x));
            if x == k {
                found = true;
            } else {
                kept.push(x);
            }
            assert forall|j: LsaIndex| #[trigger] kept@.contains(j) <==> (before.subrange(0, i + 1).contains(j) && j != k) by {
                let p = before.subrange(0, i as int);
                if p.push(x).contains(j) {
                    let a = choose|a: int| 0 <= a < p.push(x).len() && p.push(x)[a] == j;
                    if a < p.len() {
                        assert(p[a] == j);
                    }
                }
                if p.contains(j) {
                    let a = choose|a: int| 0 <= a < p.len() && p[a] == j;
                    assert(p.push(x)[a] == j);
                }
                if kept@.contains(j) && x != k {
                    let a = choose|a: int| 0 <= a < kept@.len() && kept@[a] == j;
                    if a < kept0.len() {
                        assert(kept0[a] == j);
                    }
                }
                if kept0.contains(j) && x != k {
                    let a = choose|a: int| 0 <= a < kept0.len() && kept0[a] == j;
                    assert(kept@[a] == j);
                }
                if x != k && j == x {
                    assert(kept@[kept0.len() as int] == x);
                    assert(p.push(x)[p.len() as int] == x);
                }
            }
            proof {
                let p = before.subrange(0, i as int);
                if p.push(x).contains(k) && !p.contains(k) {
                    let a = choose|a: int| 0 <= a < p.push(x).len() && p.push(x)[a] == k;
                    if a < p.len() {
                        assert(p[a] == k);
                    }
                }
                if p.contains(k) {
                    let a = choose|a: int| 0 <= a < p.len() && p[a] == k;
                    assert(p.push(x)[a] == k);
                }
                if x == k {
                    assert(p.push(x)[p.len() as int] == k);
                }
            }
            i = i + 1;
        }
        assert(before.subrange(0, i as int) =~= before);
        self.ls_retransmission_list = kept;
        found
    }

    /// Position in the request list of the first instance with key `k`.
    pub fn request_position(&self, k: LsaIndex) -> (r: Option<usize>)
        ensures
            r == match first_with_key(self.ls_request_list@, k) {
                Some(i) => Some(i as usize),
                None => None::<usize>,
            },
            match r {
                Some(i) => i < self.ls_request_list@.len() && header_index(self.ls_request_list@[i as int]) == k,
                None => forall|i: int| 0 <= i < self.ls_request_list@.len() ==> header_index(
                    #[trigger] self.ls_request_list@[i],
                ) != k,
            },
    {
        let mut i: usize = 0;
        while i < self.ls_request_list.len()
            invariant
                i <= self.ls_request_list@.len(),
                forall|j: int| 0 <= j < i ==> header_index(#[trigger] self.ls_request_list@[j]) != k,
                first_with_key(self.ls_request_list@.subrange(0, i as int), k) is None,
            decreases self.ls_request_list@.len() - i,
        {
            assert(self.ls_request_list@.subrange(0, i + 1).drop_last() =~= self.ls_request_list@.subrange(0, i as int));
            if self.ls_request_list[i].index() == k {
                proof {
                    lemma_first_prefix(self.ls_request_list@, k, i + 1);
                }
                return Some(i);
            }
            i = i + 1;
        }
        assert(self.ls_request_list@.subrange(0, i as int) =~= self.ls_request_list@);
        None
    }

    /// Floods the LSA with header `h` to this neighbor, as `flood_decision`
    /// says for its state and the first instance of the same key on its
    /// request list: that request is dropped when the decision says so, and
    /// the key is queued for retransmission (once) when it says so; nothing
    /// else changes. True when it was queued.
    pub fn flood(&mut self, h: &LsaHeader, is_sender: bool) -> (r: bool)
        ensures
            ({
                let pos = first_with_key(old(self).ls_request_list@, header_index(*h));
                let listed = match pos {
                    Some(i) => Some(old(self).ls_request_list@[i]),
                    None => None,
                };
                let d = flood_decision(old(self).state, listed, is_sender, *h);
                &&& r == d.queue
                &&& final(self).ls_request_list@ == if d.drop_request {
                    old(self).ls_request_list@.remove(pos.unwrap())
                } else {
                    old(self).ls_request_list@
                }
                &&& final(self).ls_retransmission_list@ == if d.queue && !old(self).ls_retransmission_list@.contains(header_index(*h)) {
                    old(self).ls_retransmission_list@.push(header_index(*h))
                } else {
                    old(self).ls_retransmission_list@
                }
            }),
            r ==> final(self).ls_retransmission_list@.contains(header_index(*h)),
            final(self).state == old(self).state,
            final(self).ip_addr == old(self).ip_addr,
            final(self).db_summary_list@ == old(self).db_summary_list@,
    {
        let k = h.index();
        proof {
            lemma_first_range(self.ls_request_list@, k);
        }
        let pos = self.request_position(k);
        let listed = match pos {
            Some(i) => Some(self.ls_request_list[i]),
            None => None,
        };
        let ghost spos = first_with_key(old(self).ls_request_list@, k);
        let _n = self.ls_request_list.len();
        proof {
            match spos {
                Some(i) => {
                    assert(pos == Some(i as usize));
                    assert((i as usize) as int == i);
                },
                None => {},
            }
        }
        assert(listed == match spos {
            Some(i) => Some(old(self).ls_request_list@[i]),
            None => None::<LsaHeader>,
        });
        let d = flood_neighbor(self.state, listed, is_sender, h);
        assert(d.drop_request ==> spos is Some);
        if d.drop_request {
            match pos {
                Some(i) => {
                    self.ls_request_list.remove(i);
                },
                None => {},
            }
        }
        if d.queue {
            self.add_retransmission(k);
        }
        d.queue
    }
}

/// Position of the first header of `s` with key `k`.
pub open spec fn first_with_key(s: Seq<LsaHeader>, k: LsaIndex) -> Option<int>
    decreases s.len(),
{
    if s.len() == 0 {
        None
    } else {
        match first_with_key(s.drop_last(), k) {
            Some(i) => Some(i),
            None => if header_index(s.last()) == k {
                Some(s.len() - 1)
            } else {
                None
            },
        }
    }
}

proof fn lemma_first_range(s: Seq<LsaHeader>, k: LsaIndex)
    ensures
        match first_with_key(s, k) {
            Some(i) => 0 <= i < s.len() && header_index(s[i]) == k,
            None => true,
        },
    decreases s.len(),
{
    if s.len() > 0 {
        lemma_first_range(s.drop_last(), k);
    }
}

proof fn lemma_first_prefix(s: Seq<LsaHeader>, k: LsaIndex, n: int)
    requires
        0 <= n <= s.len(),
        first_with_key(s.subrange(0, n), k) is Some,
    ensures
        first_with_key(s, k) == first_with_key(s.subrange(0, n), k),
    decreases s.len() - n,
{
    if n < s.len() {
        assert(s.subrange(0, n + 1).drop_last() =~= s.subrange(0, n));
        lemma_first_prefix(s, k, n + 1);
    } else {
        assert(s.subrange(0, n) =~= s);
    }
}

impl DdPacketCache {
    pub open spec fn spec_default() -> DdPacketCache {
        DdPacketCache { sequence_number: 0, init: false, more: false, master: false }
    }
}

// ---------------------------------------------------------------------------
// Walks over the neighbors of one interface
/// How flooding the LSA with header `h` leaves a neighbor, as
/// `Neighbor::flood` states it; `queued` says whether it was queued.
pub open spec fn flooded(old: Neighbor, new: Neighbor, h: LsaHeader, is_sender: bool, queued: bool) -> bool {
    let pos = first_with_key(old.ls_request_list@, header_index(h));
    let listed = match pos {
        Some(i) => Some(old.ls_request_list@[i]),
        None => None,
    };
    let d = flood_decision(old.state, listed, is_sender, h);
    &&& queued == d.queue
    &&& new.ls_request_list@ == if d.drop_request {
        old.ls_request_list@.remove(pos.unwrap())
    } else {
        old.ls_request_list@
    }
    &&& new.ls_retransmission_list@ == if d.queue && !old.ls_retransmission_list@.contains(header_index(h)) {
        old.ls_retransmission_list@.push(header_index(h))
    } else {
        old.ls_retransmission_list@
    }
    &&& new.state == old.state
    &&& new.ip_addr == old.ip_addr
    &&& new.db_summary_list@ == old.db_summary_list@
}

/// Floods the LSA with header `h` to every neighbor of an interface; the
/// neighbor whose address is `sender`, if any, sent it. Each neighbor is
/// left as `flooded` says; the result tells, neighbor by neighbor, whether
/// the LSA was queued for it.
pub fn flood_all(ns: &mut Vec<Neighbor>, h: &LsaHeader, sender: Option<u32>) -> (r: Vec<bool>)
    ensures
        final(ns)@.len() == old(ns)@.len(),
        r@.len() == old(ns)@.len(),
        forall|i: int| 0 <= i < old(ns)@.len() ==> flooded(
            #[trigger] old(ns)@[i],
            final(ns)@[i],
            *h,
            sender == Some(old(ns)@[i].ip_addr),
            r@[i],
        ),
{
    let mut rest: Vec<Neighbor> = Vec::new();
    core::mem::swap(ns, &mut rest);
    let ghost orig = rest@;
    let n = rest.len();
    let mut queued: Vec<bool> = Vec::new();
    let mut i: usize = 0;
    while i < n
        invariant
            n == orig.len(),
            i <= n,
            ns@.len() == i,
            queued@.len() == i,
            rest@ == orig.subrange(i as int, n as int),
            forall|j: int| 0 <= j < i ==> flooded(#[trigger] orig[j], ns@[j], *h, sender == Some(orig[j].ip_addr), queued@[j]),
        decreases n - i,
    {
        let mut x = rest.remove(0);
        assert(x == orig[i as int]);
        let is_sender = match sender {
            Some(s) => s == x.ip_addr,
            None => false,
        };
        let ghost x0 = x;
        let q = x.flood(h, is_sender);
        assert(flooded(x0, x, *h, sender == Some(x0.ip_addr), q));
        ns.push(x);
        queued.push(q);
        assert(rest@ =~= orig.subrange(i + 1, n as int));
        i = i + 1;
    }
    queued
}

/// Removes `k` from the retransmission list of every neighbor of an
/// interface, as when the LSA leaves the database; nothing else changes.
pub fn purge_all(ns: &mut Vec<Neighbor>, k: LsaIndex)
    ensures
        final(ns)@.len() == old(ns)@.len(),
        forall|i: int| #![trigger final(ns)@[i]] 0 <= i < old(ns)@.len() ==> {
            &&& forall|j: LsaIndex| #[trigger] final(ns)@[i].ls_retransmission_list@.contains(j) <==> (
                old(ns)@[i].ls_retransmission_list@.contains(j) && j != k)
            &&& final(ns)@[i].state == old(ns)@[i].state
            &&& final(ns)@[i].ip_addr == old(ns)@[i].ip_addr
            &&& final(ns)@[i].ls_request_list@ == old(ns)@[i].ls_request_list@
            &&& final(ns)@[i].db_summary_list@ == old(ns)@[i].db_summary_list@
        },
{
    let mut rest: Vec<Neighbor> = Vec::new();
    core::mem::swap(ns, &mut rest);
    let ghost orig = rest@;
    let n = rest.len();
    let mut i: usize = 0;
    while i < n
        invariant
            n == orig.len(),
            i <= n,
            ns@.len() == i,
            rest@ == orig.subrange(i as int, n as int),
            forall|m: int| #![trigger ns@[m]] 0 <= m < i ==> {
                &&& forall|j: LsaIndex| #[trigger] ns@[m].ls_retransmission_list@.contains(j) <==> (
                    orig[m].ls_retransmission_list@.contains(j) && j != k)
                &&& ns@[m].state == orig[m].state
                &&& ns@[m].ip_addr == orig[m].ip_addr
                &&& ns@[m].ls_request_list@ == orig[m].ls_request_list@
                &&& ns@[m].db_summary_list@ == orig[m].db_summary_list@
            },
        decreases n - i,
    {
        let mut x = rest.remove(0);
        assert(x == orig[i as int]);
        x.remove_retransmission(k);
        let ghost before = ns@;
        ns.push(x);
        assert forall|m: int| #![trigger ns@[m]] 0 <= m < i + 1 implies {
            &&& forall|j: LsaIndex| #[trigger] ns@[m].ls_retransmission_list@.contains(j) <==> (
                orig[m].ls_retransmission_list@.contains(j) && j != k)
            &&& ns@[m].state == orig[m].state
            &&& ns@[m].ip_addr == orig[m].ip_addr
            &&& ns@[m].ls_request_list@ == orig[m].ls_request_list@
            &&& ns@[m].db_summary_list@ == orig[m].db_summary_list@
        } by {
            if m < i {
                assert(ns@[m] == before[m]);
            }
        }
        assert(rest@ =~= orig.subrange(i + 1, n as int));
        i = i + 1;
    }
}

} // verus!
