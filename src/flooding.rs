//! Decisions of the receive path for Link State Updates and of reliable
//! flooding. The caller gathers the facts, these functions decide, and the
//! caller carries the decision out.

use vstd::prelude::*;
use core::cmp::Ordering;
use crate::lsa::{LsaHeader, LsaIndex, header_index, freshness, LSA_MAX_AGE, AS_EXTERNAL_LSA, NETWORK_LSA};
use crate::neighbor::{NeighborState, state_rank};

verus! {

/// Milliseconds that must pass between accepting two instances of one LSA.
pub const MIN_LS_ARRIVAL_MS: u64 = 1000;
pub const MAX_SEQUENCE_NUMBER: i32 = 0x7fff_ffff;
pub const INITIAL_SEQUENCE_NUMBER: i32 = -0x7fff_ffff;
/// 224.0.0.5
pub const ALL_SPF_ROUTERS: u32 = 0xe000_0005;
/// 224.0.0.6
pub const ALL_D_ROUTERS: u32 = 0xe000_0006;

/// What is known when one LSA of a Link State Update is processed.
#[derive(Clone, Copy, Debug)]
pub struct LsuContext {
    /// The LSA's Fletcher checksum is right.
    pub checksum_ok: bool,
    /// The receiving interface carries AS-external routing.
    pub external_routing: bool,
    /// Key at the front of the sender's LS request list.
    pub request_front: Option<LsaIndex>,
    /// The sender's LS request list holds this LSA's key.
    pub on_request_list: bool,
    /// The stored instance, its age brought up to `now`.
    pub stored: Option<LsaHeader>,
    /// When the stored instance was stored and last sent.
    pub stored_created_at: u64,
    pub stored_last_sent_at: u64,
    pub now: u64,
    /// Some neighbor on some interface is in Exchange or Loading.
    pub neighbors_exchanging: bool,
    /// The sender's LS retransmission list holds this LSA's key.
    pub in_retransmission_list: bool,
    /// This router is BDR on the receiving interface.
    pub iface_is_backup: bool,
    /// The sender is the DR of the receiving interface.
    pub sender_is_dr: bool,
    pub router_id: u32,
    /// The LSA's link state id is the address of one of this router's interfaces.
    pub id_is_own_interface: bool,
}

#[derive(Clone, Copy, Debug, PartialEq, Eq, Structural)]
pub enum LsuAction {
    /// Bad checksum, unknown type, or an external LSA where none is carried.
    Drop,
    /// The answer to the front of the request list: pop it and store the LSA.
    AcceptRequested,
    /// A MaxAge LSA nobody has: acknowledge it to the sender and drop it.
    AckAndDrop,
    /// Newer, but the stored one arrived less than MinLSArrival ago.
    TooSoon,
    /// Newer: flood it, purge the old instance from retransmission lists,
    /// store it; `self_originated` asks for the corrective action.
    Install { self_originated: bool },
    /// The LSA is on the sender's request list: raise BadLSReq and stop.
    BadLsReq,
    /// Same instance, expected as an acknowledgment: remove it from the
    /// retransmission list; `delayed_ack` queues an acknowledgment.
    ImplicitAck { delayed_ack: bool },
    /// Same instance not awaited: acknowledge directly to the sender.
    DirectAck,
    /// The stored instance is at MaxAge and MaxSequenceNumber: drop silently.
    Ignore,
    /// The stored instance is newer: send it back to the sender.
    SendStored,
    /// The stored instance is newer but was sent less than MinLSArrival ago.
    Wait,
}

pub open spec fn is_self_originated(h: LsaHeader, c: LsuContext) -> bool {
    h.advertising_router == c.router_id || (h.ls_type == NETWORK_LSA && c.id_is_own_interface)
}

/// The receive path for one LSA.
pub open spec fn lsu_decision(h: LsaHeader, c: LsuContext) -> LsuAction {
    if !c.checksum_ok || h.ls_type < 1 || h.ls_type > 5 {
        LsuAction::Drop
    } else if h.ls_type == AS_EXTERNAL_LSA && !c.external_routing {
        LsuAction::Drop
    } else if c.request_front == Some(header_index(h)) {
        LsuAction::AcceptRequested
    } else if h.ls_age == LSA_MAX_AGE && c.stored is None && !c.neighbors_exchanging {
        LsuAction::AckAndDrop
    } else if c.stored is None {
        LsuAction::Install { self_originated: is_self_originated(h, c) }
    } else {
        let s = c.stored.unwrap();
        if freshness(s, h) == Ordering::Less {
            if c.now >= c.stored_created_at && c.now - c.stored_created_at < MIN_LS_ARRIVAL_MS {
                LsuAction::TooSoon
            } else {
                LsuAction::Install { self_originated: is_self_originated(h, c) }
            }
        } else if c.on_request_list {
            LsuAction::BadLsReq
        } else if freshness(s, h) == Ordering::Equal {
            if c.in_retransmission_list {
                LsuAction::ImplicitAck { delayed_ack: c.iface_is_backup && c.sender_is_dr }
            } else {
                LsuAction::DirectAck
            }
        } else if s.ls_age == LSA_MAX_AGE && s.ls_sequence_number == MAX_SEQUENCE_NUMBER {
            LsuAction::Ignore
        } else if c.now >= c.stored_last_sent_at && c.now - c.stored_last_sent_at < MIN_LS_ARRIVAL_MS {
            LsuAction::Wait
        } else {
            LsuAction::SendStored
        }
    }
}

/// Decides what to do with one LSA of a received Link State Update.
pub fn handle_one(h: &LsaHeader, c: &LsuContext) -> (r: LsuAction)
    ensures
        r == lsu_decision(*h, *c),
{
    if !c.checksum_ok || h.ls_type < 1 || h.ls_type > 5 {
        return LsuAction::Drop;
    }
    if h.ls_type == AS_EXTERNAL_LSA && !c.external_routing {
        return LsuAction::Drop;
    }
    let key = h.index();
    match c.request_front {
        Some(front) => {
            if front == key {
                return LsuAction::AcceptRequested;
            }
        },
        None => {},
    }
    let self_originated = h.advertising_router == c.router_id || (h.ls_type == NETWORK_LSA
        && c.id_is_own_interface);
    match c.stored {
        None => {
            if h.ls_age == LSA_MAX_AGE && !c.neighbors_exchanging {
                LsuAction::AckAndDrop
            } else {
                LsuAction::Install { self_originated }
            }
        },
        Some(s) => {
            let ord = s.freshness_cmp(h);
            match ord {
                Ordering::Less => {
                    if c.now >= c.stored_created_at && c.now - c.stored_created_at < MIN_LS_ARRIVAL_MS {
                        LsuAction::TooSoon
                    } else {
                        LsuAction::Install { self_originated }
                    }
                },
                _ => {
                    if c.on_request_list {
                        LsuAction::BadLsReq
                    } else if matches!(ord, Ordering::Equal) {
                        if c.in_retransmission_list {
                            LsuAction::ImplicitAck { delayed_ack: c.iface_is_backup && c.sender_is_dr }
                        } else {
                            LsuAction::DirectAck
                        }
                    } else if s.ls_age == LSA_MAX_AGE && s.ls_sequence_number == MAX_SEQUENCE_NUMBER {
                        LsuAction::Ignore
                    } else if c.now >= c.stored_last_sent_at && c.now - c.stored_last_sent_at
                        < MIN_LS_ARRIVAL_MS {
                        LsuAction::Wait
                    } else {
                        LsuAction::SendStored
                    }
                },
            }
        },
    }
}

/// After a newer LSA was installed: whether to queue a delayed
/// acknowledgment on the receiving interface.
pub fn ack_after_install(flooded_out_receiving: bool, iface_is_backup: bool, sender_is_dr: bool) -> (r: bool)
    ensures
        r == (!flooded_out_receiving && (!iface_is_backup || sender_is_dr)),
{
    !flooded_out_receiving && (!iface_is_backup || sender_is_dr)
}

/// Where an interface sends its delayed acknowledgments and the updates it
/// floods: AllDRouters from a router that is neither DR nor BDR, else
/// AllSPFRouters.
pub fn ack_destination(iface_is_drother: bool) -> (r: u32)
    ensures
        r == if iface_is_drother { ALL_D_ROUTERS } else { ALL_SPF_ROUTERS },
{
    if iface_is_drother {
        ALL_D_ROUTERS
    } else {
        ALL_SPF_ROUTERS
    }
}

// ---------------------------------------------------------------------------
// Flooding
/// An interface takes part in flooding an LSA of type `ls_type` from `lsa_area`.
pub open spec fn flood_scope(ls_type: u8, lsa_area: u32, iface_area: u32, iface_external: bool) -> bool {
    if ls_type == AS_EXTERNAL_LSA {
        iface_external
    } else {
        iface_area == lsa_area
    }
}

pub fn eligible_interface(ls_type: u8, lsa_area: u32, iface_area: u32, iface_external: bool) -> (r: bool)
    ensures
        r == flood_scope(ls_type, lsa_area, iface_area, iface_external),
{
    if ls_type == AS_EXTERNAL_LSA {
        iface_external
    } else {
        iface_area == lsa_area
    }
}

/// What flooding does to one neighbor.
#[derive(Clone, Copy, Debug, PartialEq, Eq, Structural)]
pub struct NeighborFlood {
    /// Remove the LSA's key from the neighbor's request list.
    pub drop_request: bool,
    /// Add the LSA's key to the neighbor's retransmission list.
    pub queue: bool,
}

/// The decision for one neighbor: `listed` is the instance of the same key
/// on its request list, if any.
pub open spec fn flood_decision(
    state: NeighborState,
    listed: Option<LsaHeader>,
    is_sender: bool,
    h: LsaHeader,
) -> NeighborFlood {
    if state_rank(state) < 5 {
        NeighborFlood { drop_request: false, queue: false }
    } else {
        match listed {
            Some(l) => if freshness(h, l) == Ordering::Less {
                NeighborFlood { drop_request: false, queue: false }
            } else if freshness(h, l) == Ordering::Equal {
                NeighborFlood { drop_request: true, queue: false }
            } else {
                NeighborFlood { drop_request: true, queue: !is_sender }
            },
            None => NeighborFlood { drop_request: false, queue: !is_sender },
        }
    }
}

pub fn flood_neighbor(state: NeighborState, listed: Option<LsaHeader>, is_sender: bool, h: &LsaHeader) -> (r: NeighborFlood)
    ensures
        r == flood_decision(state, listed, is_sender, *h),
{
    if state.rank() < 5 {
        return NeighborFlood { drop_request: false, queue: false };
    }
    match listed {
        Some(l) => match h.freshness_cmp(&l) {
            Ordering::Less => NeighborFlood { drop_request: false, queue: false },
            Ordering::Equal => NeighborFlood { drop_request: true, queue: false },
            Ordering::Greater => NeighborFlood { drop_request: true, queue: !is_sender },
        },
        None => NeighborFlood { drop_request: false, queue: !is_sender },
    }
}

/// Flooding leaves no neighbor behind: a neighbor in Exchange or above that
/// did not send the LSA and does not already hold an instance at least as
/// new on its request list gets the LSA queued for retransmission.
pub proof fn lemma_flooding_covers(state: NeighborState, listed: Option<LsaHeader>, is_sender: bool, h: LsaHeader)
    ensures
        flood_decision(state, listed, is_sender, h).queue || state_rank(state) < 5 || is_sender
            || (listed is Some && freshness(h, listed.unwrap()) != Ordering::Greater),
{
}

/// Whether an interface sends the LSA out, once its neighbors were
/// processed: some neighbor got it queued, and it is not the receiving
/// interface with the LSA coming from its DR or BDR, or with this router
/// as BDR there.
pub open spec fn flood_out(any_queued: bool, received_here: bool, sender_is_dr_or_bdr: bool, self_is_bdr: bool) -> bool {
    any_queued && !(received_here && (sender_is_dr_or_bdr || self_is_bdr))
}

pub fn flood_interface(any_queued: bool, received_here: bool, sender_is_dr_or_bdr: bool, self_is_bdr: bool) -> (r: bool)
    ensures
        r == flood_out(any_queued, received_here, sender_is_dr_or_bdr, self_is_bdr),
{
    if !any_queued {
        return false;
    }
    if received_here && (sender_is_dr_or_bdr || self_is_bdr) {
        return false;
    }
    true
}

/// The age an LSA carries when it leaves an interface: InfTransDelay added,
/// capped at MaxAge.
pub fn transmit_age(age: u16, inf_trans_delay: u16) -> (r: u16)
    ensures
        r as int == if age + inf_trans_delay >= LSA_MAX_AGE { LSA_MAX_AGE as int } else { age + inf_trans_delay },
{
    if age as u32 + inf_trans_delay as u32 >= LSA_MAX_AGE as u32 {
        LSA_MAX_AGE
    } else {
        age + inf_trans_delay
    }
}

/// How a self-originated LSA gets its next sequence number.
#[derive(Clone, Copy, Debug, PartialEq, Eq, Structural)]
pub enum SequenceStep {
    /// Use this sequence number.
    Use(i32),
    /// The previous instance is at MaxSequenceNumber: flush it (age
    /// MaxAge) first; once it is gone, origination restarts at
    /// InitialSequenceNumber.
    Flush,
}

/// The next sequence number for a self-originated LSA: one past the
/// previous instance, or the initial number when there is none.
pub fn next_sequence_number(previous: Option<i32>) -> (r: SequenceStep)
    ensures
        match previous {
            None => r == SequenceStep::Use(INITIAL_SEQUENCE_NUMBER),
            Some(p) => if p == MAX_SEQUENCE_NUMBER {
                r == SequenceStep::Flush
            } else {
                r == SequenceStep::Use((p + 1) as i32)
            },
        },
{
    match previous {
        None => SequenceStep::Use(INITIAL_SEQUENCE_NUMBER),
        Some(p) => if p == MAX_SEQUENCE_NUMBER {
            SequenceStep::Flush
        } else {
            SequenceStep::Use(p + 1)
        },
    }
}

} // verus!
