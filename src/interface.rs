//! The interface state machine and the Designated Router election.

use vstd::prelude::*;
use crate::neighbor::{NeighborState, state_rank};

verus! {

/// Kinds of network an interface attaches to.
#[derive(Clone, Copy, Debug, PartialEq, Eq, Structural)]
pub enum NetType {
    P2P,
    Broadcast,
    NBMA,
    P2MP,
    Virtual,
}

#[derive(Clone, Copy, Debug, PartialEq, Eq, Structural)]
pub enum InterfaceState {
    Down,
    Loopback,
    Waiting,
    PointToPoint,
    DROther,
    Backup,
    DR,
}

/// The network type of an interface, from the kernel's link flags.
pub open spec fn net_type_of(point_to_point: bool, multicast: bool, broadcast: bool) -> NetType {
    if point_to_point && multicast {
        NetType::P2MP
    } else if point_to_point {
        NetType::P2P
    } else if broadcast {
        NetType::Broadcast
    } else if multicast {
        NetType::NBMA
    } else {
        NetType::Virtual
    }
}

pub fn net_type_from_flags(point_to_point: bool, multicast: bool, broadcast: bool) -> (r: NetType)
    ensures
        r == net_type_of(point_to_point, multicast, broadcast),
{
    if point_to_point && multicast {
        NetType::P2MP
    } else if point_to_point {
        NetType::P2P
    } else if broadcast {
        NetType::Broadcast
    } else if multicast {
        NetType::NBMA
    } else {
        NetType::Virtual
    }
}

/// Events that drive the interface state machine.
#[derive(Clone, Copy, Debug, PartialEq, Eq, Structural)]
pub enum InterfaceEvent {
    InterfaceUp,
    WaitTimer,
    BackupSeen,
    NeighborChange,
    LoopInd,
    UnloopInd,
    InterfaceDown,
}

/// What an interface event asks of the caller.
#[derive(Clone, Copy, Debug, PartialEq, Eq, Structural)]
pub enum InterfaceStep {
    /// Nothing happens in this state.
    Ignore,
    /// Move to the state; `start_wait_timer` and `start_hello_timer` say
    /// which timers to start.
    Enter { state: InterfaceState, start_wait_timer: bool, start_hello_timer: bool },
    /// Run the DR election, which decides the new state.
    Elect,
    /// Stop timers, drop neighbors and reset DR and BDR, then move to the state.
    Reset { state: InterfaceState },
}

pub open spec fn interface_next(
    state: InterfaceState,
    event: InterfaceEvent,
    net_type: NetType,
    router_priority: u8,
) -> InterfaceStep {
    match event {
        InterfaceEvent::InterfaceUp => if state != InterfaceState::Down {
            InterfaceStep::Ignore
        } else if net_type == NetType::P2P || net_type == NetType::P2MP || net_type
            == NetType::Virtual {
            InterfaceStep::Enter {
                state: InterfaceState::PointToPoint,
                start_wait_timer: false,
                start_hello_timer: true,
            }
        } else if router_priority == 0 {
            InterfaceStep::Enter {
                state: InterfaceState::DROther,
                start_wait_timer: false,
                start_hello_timer: true,
            }
        } else {
            InterfaceStep::Enter {
                state: InterfaceState::Waiting,
                start_wait_timer: true,
                start_hello_timer: true,
            }
        },
        InterfaceEvent::WaitTimer | InterfaceEvent::BackupSeen => if state
            == InterfaceState::Waiting {
            InterfaceStep::Elect
        } else {
            InterfaceStep::Ignore
        },
        InterfaceEvent::NeighborChange => if state == InterfaceState::DROther || state
            == InterfaceState::Backup || state == InterfaceState::DR {
            InterfaceStep::Elect
        } else {
            InterfaceStep::Ignore
        },
        InterfaceEvent::LoopInd => InterfaceStep::Reset { state: InterfaceState::Loopback },
        InterfaceEvent::UnloopInd => if state == InterfaceState::Loopback {
            InterfaceStep::Enter {
                state: InterfaceState::Down,
                start_wait_timer: false,
                start_hello_timer: false,
            }
        } else {
            InterfaceStep::Ignore
        },
        InterfaceEvent::InterfaceDown => InterfaceStep::Reset { state: InterfaceState::Down },
    }
}

/// The interface state machine; total over states and events.
pub fn interface_transition(
    state: InterfaceState,
    event: InterfaceEvent,
    net_type: NetType,
    router_priority: u8,
) -> (r: InterfaceStep)
    ensures
        r == interface_next(state, event, net_type, router_priority),
{
    match event {
        InterfaceEvent::InterfaceUp => if state != InterfaceState::Down {
            InterfaceStep::Ignore
        } else if matches!(net_type, NetType::P2P | NetType::P2MP | NetType::Virtual) {
            InterfaceStep::Enter {
                state: InterfaceState::PointToPoint,
                start_wait_timer: false,
                start_hello_timer: true,
            }
        } else if router_priority == 0 {
            InterfaceStep::Enter {
                state: InterfaceState::DROther,
                start_wait_timer: false,
                start_hello_timer: true,
            }
        } else {
            InterfaceStep::Enter {
                state: InterfaceState::Waiting,
                start_wait_timer: true,
                start_hello_timer: true,
            }
        },
        InterfaceEvent::WaitTimer | InterfaceEvent::BackupSeen => if state
            == InterfaceState::Waiting {
            InterfaceStep::Elect
        } else {
            InterfaceStep::Ignore
        },
        InterfaceEvent::NeighborChange => if matches!(
            state,
            InterfaceState::DROther | InterfaceState::Backup | InterfaceState::DR
        ) {
            InterfaceStep::Elect
        } else {
            InterfaceStep::Ignore
        },
        InterfaceEvent::LoopInd => InterfaceStep::Reset { state: InterfaceState::Loopback },
        InterfaceEvent::UnloopInd => if state == InterfaceState::Loopback {
            InterfaceStep::Enter {
                state: InterfaceState::Down,
                start_wait_timer: false,
                start_hello_timer: false,
            }
        } else {
            InterfaceStep::Ignore
        },
        InterfaceEvent::InterfaceDown => InterfaceStep::Reset { state: InterfaceState::Down },
    }
}

// ---------------------------------------------------------------------------
// DR election
/// A router taking part in the election, with what it declares.
#[derive(Clone, Copy, Debug, PartialEq, Eq, Structural)]
pub struct SelectDr {
    pub priority: u8,
    pub id: u32,
    pub ip: u32,
    pub bdr: u32,
    pub dr: u32,
}

/// `a` wins over `b`: higher priority, then higher router id.
pub open spec fn outranks(a: SelectDr, b: SelectDr) -> bool {
    a.priority > b.priority || (a.priority == b.priority && a.id >= b.id)
}

/// The pools the election picks from.
#[derive(Clone, Copy, Debug, PartialEq, Eq, Structural)]
pub enum Pool {
    /// Candidates that declare themselves DR.
    DeclaredDr,
    /// Candidates that do not declare themselves DR but declare themselves BDR.
    DeclaredBdr,
    /// Candidates that do not declare themselves DR.
    NotDr,
}

pub open spec fn in_pool(c: SelectDr, pool: Pool) -> bool {
    match pool {
        Pool::DeclaredDr => c.dr == c.ip,
        Pool::DeclaredBdr => c.dr != c.ip && c.bdr == c.ip,
        Pool::NotDr => c.dr != c.ip,
    }
}

/// The highest-ranked member of `pool` among `cs` (the last one on a tie).
pub open spec fn best(cs: Seq<SelectDr>, pool: Pool) -> Option<SelectDr>
    decreases cs.len(),
{
    if cs.len() == 0 {
        None
    } else {
        let rest = best(cs.drop_last(), pool);
        let c = cs.last();
        if !in_pool(c, pool) {
            rest
        } else {
            match rest {
                None => Some(c),
                Some(b) => if outranks(c, b) {
                    Some(c)
                } else {
                    Some(b)
                },
            }
        }
    }
}

/// The best candidate is a member of the pool that outranks every other member.
pub proof fn lemma_best_is_max(cs: Seq<SelectDr>, pool: Pool)
    ensures
        match best(cs, pool) {
            Some(b) => in_pool(b, pool) && cs.contains(b) && forall|k: int|
                0 <= k < cs.len() && in_pool(#[trigger] cs[k], pool) ==> outranks(b, cs[k]),
            None => forall|k: int| 0 <= k < cs.len() ==> !in_pool(#[trigger] cs[k], pool),
        },
    decreases cs.len(),
{
    if cs.len() > 0 {
        let init = cs.drop_last();
        let c = cs.last();
        let n = cs.len() - 1;
        lemma_best_is_max(init, pool);
        assert forall|k: int| 0 <= k < n implies cs[k] == #[trigger] init[k] by {}
        assert(cs[n] == c);
        match best(init, pool) {
            Some(b) => {
                let j = choose|j: int| 0 <= j < init.len() && init[j] == b;
                assert(cs[j] == b);
                if in_pool(c, pool) && outranks(c, b) {
                    assert(best(cs, pool) == Some(c));
                    assert forall|k: int| 0 <= k < cs.len() && in_pool(#[trigger] cs[k], pool) implies outranks(c, cs[k]) by {
                        if k < n {
                            assert(outranks(b, init[k]));
                        }
                    }
                    assert(cs.contains(c));
                } else {
                    assert(best(cs, pool) == Some(b));
                    assert forall|k: int| 0 <= k < cs.len() && in_pool(#[trigger] cs[k], pool) implies outranks(b, cs[k]) by {
                        if k < n {
                            assert(outranks(b, init[k]));
                        }
                    }
                }
            },
            None => {
                if in_pool(c, pool) {
                    assert(best(cs, pool) == Some(c));
                    assert forall|k: int| 0 <= k < cs.len() && in_pool(#[trigger] cs[k], pool) implies outranks(c, cs[k]) by {
                        if k < n {
                            assert(!in_pool(init[k], pool));
                        }
                    }
                    assert(cs.contains(c));
                } else {
                    assert forall|k: int| 0 <= k < cs.len() implies !in_pool(#[trigger] cs[k], pool) by {
                        if k < n {
                            assert(!in_pool(init[k], pool));
                        }
                    }
                }
            },
        }
    }
}

fn best_in(cs: &Vec<SelectDr>, pool: Pool) -> (r: Option<SelectDr>)
    ensures
        r == best(cs@, pool),
{
    let mut r: Option<SelectDr> = None;
    let mut k: usize = 0;
    while k < cs.len()
        invariant
            k <= cs@.len(),
            r == best(cs@.subrange(0, k as int), pool),
        decreases cs@.len() - k,
    {
        let c = cs[k];
        assert(cs@.subrange(0, k + 1).drop_last() =~= cs@.subrange(0, k as int));
        let member = match pool {
            Pool::DeclaredDr => c.dr == c.ip,
            Pool::DeclaredBdr => c.dr != c.ip && c.bdr == c.ip,
            Pool::NotDr => c.dr != c.ip,
        };
        if member {
            r = match r {
                None => Some(c),
                Some(b) => if c.priority > b.priority || (c.priority == b.priority && c.id >= b.id) {
                    Some(c)
                } else {
                    Some(b)
                },
            };
        }
        k = k + 1;
    }
    assert(cs@.subrange(0, k as int) =~= cs@);
    r
}

/// One round of the election: (DR, BDR) as addresses, 0 for none.
pub open spec fn elect_round(cs: Seq<SelectDr>) -> (u32, u32) {
    let bdr = match best(cs, Pool::DeclaredBdr) {
        Some(c) => c.ip,
        None => match best(cs, Pool::NotDr) {
            Some(c) => c.ip,
            None => 0,
        },
    };
    let dr = match best(cs, Pool::DeclaredDr) {
        Some(c) => c.ip,
        None => bdr,
    };
    (dr, if dr == bdr { 0 } else { bdr })
}

fn elect_once(cs: &Vec<SelectDr>) -> (r: (u32, u32))
    ensures
        r == elect_round(cs@),
{
    let bdr = match best_in(cs, Pool::DeclaredBdr) {
        Some(c) => c.ip,
        None => match best_in(cs, Pool::NotDr) {
            Some(c) => c.ip,
            None => 0,
        },
    };
    let dr = match best_in(cs, Pool::DeclaredDr) {
        Some(c) => c.ip,
        None => bdr,
    };
    (dr, if dr == bdr { 0 } else { bdr })
}

/// Candidates with a priority above zero, in their order.
pub open spec fn eligible(cs: Seq<SelectDr>) -> Seq<SelectDr>
    decreases cs.len(),
{
    if cs.len() == 0 {
        seq![]
    } else if cs.last().priority > 0 {
        eligible(cs.drop_last()).push(cs.last())
    } else {
        eligible(cs.drop_last())
    }
}

/// This router's role changed between what it declared and what was elected.
pub open spec fn role_changed(me: SelectDr, dr: u32, bdr: u32) -> bool {
    (dr == me.ip) != (me.dr == me.ip) || (bdr == me.ip) != (me.bdr == me.ip)
}

/// The election over this router `me` and its neighbors in state TwoWay or
/// above: one round, and a second with this router declaring the first
/// round's result when its own role changed.
pub open spec fn election(me: SelectDr, neighbors: Seq<SelectDr>) -> (u32, u32) {
    let first = elect_round(eligible(neighbors.push(me)));
    if role_changed(me, first.0, first.1) {
        elect_round(eligible(neighbors.push(SelectDr { dr: first.0, bdr: first.1, ..me })))
    } else {
        first
    }
}

fn eligible_of(cs: &Vec<SelectDr>, me: SelectDr) -> (r: Vec<SelectDr>)
    ensures
        r@ == eligible(cs@.push(me)),
{
    let ghost all = cs@.push(me);
    let mut r: Vec<SelectDr> = Vec::new();
    let mut k: usize = 0;
    while k < cs.len()
        invariant
            k <= cs@.len(),
            all == cs@.push(me),
            r@ == eligible(all.subrange(0, k as int)),
        decreases cs@.len() - k,
    {
        let c = cs[k];
        assert(all.subrange(0, k + 1).drop_last() =~= all.subrange(0, k as int));
        assert(all[k as int] == c);
        if c.priority > 0 {
            r.push(c);
        }
        k = k + 1;
    }
    assert(all.subrange(0, k + 1).drop_last() =~= all.subrange(0, k as int));
    assert(all[k as int] == me);
    if me.priority > 0 {
        r.push(me);
    }
    assert(all.subrange(0, k + 1) =~= all);
    r
}

/// Elects the DR and BDR of a broadcast network. `me` is this router as a
/// candidate, `neighbors` the neighbors in state TwoWay or above. Returns
/// (DR, BDR); the two are never the same router.
pub fn select_dr(me: SelectDr, neighbors: &Vec<SelectDr>) -> (r: (u32, u32))
    ensures
        r == election(me, neighbors@),
        r.0 == r.1 ==> r.1 == 0,
{
    let cs = eligible_of(neighbors, me);
    let (dr, bdr) = elect_once(&cs);
    if (dr == me.ip) != (me.dr == me.ip) || (bdr == me.ip) != (me.bdr == me.ip) {
        let me2 = SelectDr { dr, bdr, ..me };
        let cs2 = eligible_of(neighbors, me2);
        elect_once(&cs2)
    } else {
        (dr, bdr)
    }
}

/// The interface state that follows an election.
pub open spec fn state_after_election(ip: u32, dr: u32, bdr: u32) -> InterfaceState {
    if dr == ip {
        InterfaceState::DR
    } else if bdr == ip {
        InterfaceState::Backup
    } else {
        InterfaceState::DROther
    }
}

pub fn elected_state(ip: u32, dr: u32, bdr: u32) -> (r: InterfaceState)
    ensures
        r == state_after_election(ip, dr, bdr),
{
    if dr == ip {
        InterfaceState::DR
    } else if bdr == ip {
        InterfaceState::Backup
    } else {
        InterfaceState::DROther
    }
}

/// A router's role on a broadcast network.
#[derive(Clone, Copy, Debug, PartialEq, Eq, Structural)]
pub enum RType {
    DR,
    BDR,
    Other,
}

/// Protocol state of the router as a whole; only the initial one exists.
#[derive(Clone, Copy, Debug, PartialEq, Eq, Structural)]
pub enum RState {
    Initial,
}

/// This router: its id and its role.
#[derive(Clone, Copy, Debug, PartialEq, Eq, Structural)]
pub struct Router {
    pub router_id: u32,
    pub router_type: RType,
    pub router_state: RState,
}

pub open spec fn role(ip: u32, dr: u32, bdr: u32) -> RType {
    if dr == ip {
        RType::DR
    } else if bdr == ip {
        RType::BDR
    } else {
        RType::Other
    }
}

impl Router {
    /// A router that has taken no role yet.
    pub fn new(router_id: u32) -> (r: Router)
        ensures
            r == (Router { router_id, router_type: RType::Other, router_state: RState::Initial }),
    {
        Router { router_id, router_type: RType::Other, router_state: RState::Initial }
    }

    /// Takes the role that an election result gives the interface address `ip`.
    pub fn set_role(&mut self, ip: u32, dr: u32, bdr: u32)
        ensures
            *final(self) == (Router { router_type: role(ip, dr, bdr), ..*old(self) }),
    {
        self.router_type = if dr == ip {
            RType::DR
        } else if bdr == ip {
            RType::BDR
        } else {
            RType::Other
        };
    }
}

// ---------------------------------------------------------------------------
// The whole election on an interface
/// A neighbor as the election sees it: its state and what it declares.
#[derive(Clone, Copy, Debug, PartialEq, Eq, Structural)]
pub struct ElectionNeighbor {
    pub state: NeighborState,
    pub candidate: SelectDr,
}

/// The candidates among the neighbors: those in state TwoWay or above.
pub open spec fn two_way(ns: Seq<ElectionNeighbor>) -> Seq<SelectDr>
    decreases ns.len(),
{
    if ns.len() == 0 {
        seq![]
    } else {
        let rest = two_way(ns.drop_last());
        if state_rank(ns.last().state) >= 3 {
            rest.push(ns.last().candidate)
        } else {
            rest
        }
    }
}

/// `x` is no router, this router, or a neighbor in TwoWay or above, each
/// with a priority above 0.
pub open spec fn from_candidates(x: u32, me: SelectDr, ns: Seq<ElectionNeighbor>) -> bool {
    ||| x == 0
    ||| (x == me.ip && me.priority > 0)
    ||| exists|i: int|
        0 <= i < ns.len() && state_rank(ns[i].state) >= 3 && ns[i].candidate.priority > 0 && #[trigger] ns[i].candidate.ip == x
}

/// The outcome of an election.
#[derive(Debug)]
pub struct Election {
    pub dr: u32,
    pub bdr: u32,
    /// The interface's new state.
    pub state: InterfaceState,
    /// The neighbors (by position) on which to raise AdjOK?: all of them.
    pub adj_ok: Vec<usize>,
}

proof fn lemma_eligible_sub(s: Seq<SelectDr>)
    ensures
        forall|x: SelectDr| #[trigger] eligible(s).contains(x) ==> s.contains(x) && x.priority > 0,
    decreases s.len(),
{
    if s.len() > 0 {
        lemma_eligible_sub(s.drop_last());
        let e0 = eligible(s.drop_last());
        assert forall|x: SelectDr| #[trigger] eligible(s).contains(x) implies s.contains(x) && x.priority > 0 by {
            let i = choose|i: int| 0 <= i < eligible(s).len() && eligible(s)[i] == x;
            if s.last().priority > 0 && i == e0.len() {
                assert(s[s.len() - 1] == x);
            } else {
                assert(e0[i] == x);
                assert(e0.contains(x));
                let j = choose|j: int| 0 <= j < s.drop_last().len() && s.drop_last()[j] == x;
                assert(s[j] == x);
            }
        }
    }
}

proof fn lemma_two_way_sub(ns: Seq<ElectionNeighbor>)
    ensures
        forall|x: SelectDr| #[trigger] two_way(ns).contains(x) ==> exists|i: int|
            0 <= i < ns.len() && state_rank(ns[i].state) >= 3 && #[trigger] ns[i].candidate == x,
    decreases ns.len(),
{
    if ns.len() > 0 {
        let d = ns.drop_last();
        lemma_two_way_sub(d);
        let t0 = two_way(d);
        assert forall|x: SelectDr| #[trigger] two_way(ns).contains(x) implies exists|i: int|
            0 <= i < ns.len() && state_rank(ns[i].state) >= 3 && #[trigger] ns[i].candidate == x by {
            let i = choose|i: int| 0 <= i < two_way(ns).len() && two_way(ns)[i] == x;
            if state_rank(ns.last().state) >= 3 && i == t0.len() {
                assert(ns[ns.len() - 1].candidate == x);
            } else {
                assert(t0[i] == x);
                assert(t0.contains(x));
                let j = choose|j: int| 0 <= j < d.len() && state_rank(d[j].state) >= 3 && #[trigger] d[j].candidate == x;
                assert(ns[j] == d[j]);
            }
        }
    }
}

proof fn lemma_best_from(ns: Seq<ElectionNeighbor>, me: SelectDr, me2: SelectDr, pool: Pool)
    requires
        me2.ip == me.ip,
        me2.priority == me.priority,
    ensures
        match best(eligible(two_way(ns).push(me2)), pool) {
            Some(b) => from_candidates(b.ip, me, ns),
            None => true,
        },
{
    let l = two_way(ns).push(me2);
    let cs = eligible(l);
    lemma_best_is_max(cs, pool);
    lemma_eligible_sub(l);
    lemma_two_way_sub(ns);
    match best(cs, pool) {
        Some(b) => {
            assert(cs.contains(b));
            assert(l.contains(b) && b.priority > 0);
            let j = choose|j: int| 0 <= j < l.len() && l[j] == b;
            if j < two_way(ns).len() {
                assert(two_way(ns)[j] == b);
                assert(two_way(ns).contains(b));
                let i = choose|i: int| 0 <= i < ns.len() && state_rank(ns[i].state) >= 3 && #[trigger] ns[i].candidate == b;
                assert(ns[i].candidate.ip == b.ip);
            }
        },
        None => {},
    }
}

proof fn lemma_round_from(ns: Seq<ElectionNeighbor>, me: SelectDr, me2: SelectDr)
    requires
        me2.ip == me.ip,
        me2.priority == me.priority,
    ensures
        from_candidates(elect_round(eligible(two_way(ns).push(me2))).0, me, ns),
        from_candidates(elect_round(eligible(two_way(ns).push(me2))).1, me, ns),
{
    lemma_best_from(ns, me, me2, Pool::DeclaredDr);
    lemma_best_from(ns, me, me2, Pool::DeclaredBdr);
    lemma_best_from(ns, me, me2, Pool::NotDr);
}

fn two_way_of(ns: &Vec<ElectionNeighbor>) -> (r: Vec<SelectDr>)
    ensures
        r@ == two_way(ns@),
{
    let mut r: Vec<SelectDr> = Vec::new();
    let mut i: usize = 0;
    while i < ns.len()
        invariant
            i <= ns@.len(),
            r@ == two_way(ns@.subrange(0, i as int)),
        decreases ns@.len() - i,
    {
        assert(ns@.subrange(0, i + 1).drop_last() =~= ns@.subrange(0, i as int));
        let n = ns[i];
        if n.state.rank() >= 3 {
            r.push(n.candidate);
        }
        i = i + 1;
    }
    assert(ns@.subrange(0, i as int) =~= ns@);
    r
}

/// Elects the DR and BDR of a broadcast network. `me` is this router as a
/// candidate; of `neighbors`, those in state TwoWay or above take part, and
/// only candidates with a priority above 0 can be chosen. Returns the DR,
/// the BDR (never the same router), the interface's new state, and AdjOK?
/// to be raised on every neighbor.
pub fn run_election(me: SelectDr, neighbors: &Vec<ElectionNeighbor>) -> (r: Election)
    ensures
        (r.dr, r.bdr) == election(me, two_way(neighbors@)),
        r.dr == r.bdr ==> r.bdr == 0,
        from_candidates(r.dr, me, neighbors@),
        from_candidates(r.bdr, me, neighbors@),
        r.state == state_after_election(me.ip, r.dr, r.bdr),
        r.adj_ok@ == Seq::new(neighbors@.len(), |i: int| i as usize),
{
    let cands = two_way_of(neighbors);
    let (dr, bdr) = select_dr(me, &cands);
    proof {
        let first = elect_round(eligible(two_way(neighbors@).push(me)));
        lemma_round_from(neighbors@, me, me);
        lemma_round_from(neighbors@, me, SelectDr { dr: first.0, bdr: first.1, ..me });
    }
    let state = elected_state(me.ip, dr, bdr);
    let mut adj_ok: Vec<usize> = Vec::new();
    let mut i: usize = 0;
    while i < neighbors.len()
        invariant
            i <= neighbors@.len(),
            adj_ok@ == Seq::new(i as nat, |j: int| j as usize),
        decreases neighbors@.len() - i,
    {
        adj_ok.push(i);
        assert(adj_ok@ =~= Seq::new((i + 1) as nat, |j: int| j as usize));
        i = i + 1;
    }
    Election { dr, bdr, state, adj_ok }
}

} // verus!
