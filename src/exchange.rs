//! Decisions taken on received Hello and Database Description packets.

use vstd::prelude::*;
use crate::lsa::{LsaHeader, AS_EXTERNAL_LSA};
use crate::neighbor::{NeighborState, DdPacketCache, state_rank};
use crate::interface::{NetType, InterfaceEvent};

verus! {

/// Most LSA headers a slave puts in one DD packet.
pub const SLAVE_DD_HEADERS: usize = 8;
/// Most LSA headers a master puts in one DD packet.
pub const MASTER_DD_HEADERS: usize = 12;

/// What the DD exchange needs to know of a neighbor.
#[derive(Clone, Copy, Debug, PartialEq, Eq, Structural)]
pub struct DdNeighbor {
    pub state: NeighborState,
    /// The neighbor is master of the exchange.
    pub master: bool,
    pub dd_seq_num: u32,
    /// The previous DD packet received from the neighbor.
    pub dd_last: DdPacketCache,
    pub options: u8,
    pub router_id: u32,
}

#[derive(Clone, Copy, Debug, PartialEq, Eq, Structural)]
pub enum DdVerdict {
    /// Not for this state: drop the packet.
    Ignore,
    /// A duplicate from the master: send the last DD packet again.
    ResendLast,
    /// Raise SeqNumberMismatch.
    SeqNumberMismatch,
    /// Process the headers and reply. With `negotiated`, ExStart ends
    /// (NegotiationDone) and the value says whether the neighbor is master;
    /// when it is, its options and sequence number are adopted.
    Accept { negotiated: Option<bool> },
}

pub open spec fn dd_verdict_spec(
    n: DdNeighbor,
    my_router_id: u32,
    p: DdPacketCache,
    options: u8,
    headers_empty: bool,
) -> DdVerdict {
    let r = state_rank(n.state);
    if n.state == NeighborState::ExStart {
        if p.init && p.more && p.master && headers_empty && n.router_id > my_router_id {
            DdVerdict::Accept { negotiated: Some(true) }
        } else if !p.init && !p.master && p.sequence_number == n.dd_seq_num && n.router_id
            < my_router_id {
            DdVerdict::Accept { negotiated: Some(false) }
        } else {
            DdVerdict::Ignore
        }
    } else if r >= 5 && n.dd_last == p {
        if n.master {
            DdVerdict::ResendLast
        } else {
            DdVerdict::Ignore
        }
    } else if n.state == NeighborState::Exchange {
        if p.master != n.master || p.init || options != n.options || (p.master
            && p.sequence_number != (n.dd_seq_num + 1) % 0x1_0000_0000) || (!p.master
            && p.sequence_number != n.dd_seq_num) {
            DdVerdict::SeqNumberMismatch
        } else {
            DdVerdict::Accept { negotiated: None }
        }
    } else if r >= 6 {
        DdVerdict::SeqNumberMismatch
    } else {
        DdVerdict::Ignore
    }
}

/// Classifies a DD packet received from neighbor `n` (in state Init the
/// caller raises TwoWayReceived first and passes the resulting state).
pub fn dd_verdict(n: &DdNeighbor, my_router_id: u32, p: &DdPacketCache, options: u8, headers_empty: bool) -> (r: DdVerdict)
    ensures
        r == dd_verdict_spec(*n, my_router_id, *p, options, headers_empty),
{
    let r = n.state.rank();
    if matches!(n.state, NeighborState::ExStart) {
        if p.init && p.more && p.master && headers_empty && n.router_id > my_router_id {
            DdVerdict::Accept { negotiated: Some(true) }
        } else if !p.init && !p.master && p.sequence_number == n.dd_seq_num && n.router_id < my_router_id {
            DdVerdict::Accept { negotiated: Some(false) }
        } else {
            DdVerdict::Ignore
        }
    } else if r >= 5 && n.dd_last == *p {
        if n.master {
            DdVerdict::ResendLast
        } else {
            DdVerdict::Ignore
        }
    } else if matches!(n.state, NeighborState::Exchange) {
        let next = n.dd_seq_num.wrapping_add(1);
        if p.master != n.master || p.init || options != n.options || (p.master && p.sequence_number != next)
            || (!p.master && p.sequence_number != n.dd_seq_num) {
            DdVerdict::SeqNumberMismatch
        } else {
            DdVerdict::Accept { negotiated: None }
        }
    } else if r >= 6 {
        DdVerdict::SeqNumberMismatch
    } else {
        DdVerdict::Ignore
    }
}

/// A header listed in a DD packet must name a known LSA type, and an
/// AS-External one only where external routing is carried; otherwise the
/// exchange fails with SeqNumberMismatch.
pub fn dd_header_acceptable(h: &LsaHeader, external_routing: bool) -> (r: bool)
    ensures
        r == (1 <= h.ls_type <= 5 && (h.ls_type != AS_EXTERNAL_LSA || external_routing)),
{
    1 <= h.ls_type && h.ls_type <= 5 && (h.ls_type != AS_EXTERNAL_LSA || external_routing)
}

/// The DD packet to answer with.
#[derive(Clone, Copy, Debug, PartialEq, Eq, Structural)]
pub struct DdReply {
    /// A packet is sent now (as slave), or handed to the retransmitting
    /// sender (as master).
    pub send: bool,
    pub sequence_number: u32,
    /// How many headers to take from the front of the summary list.
    pub count: usize,
    pub more: bool,
    pub master: bool,
    /// Raise ExchangeDone.
    pub exchange_done: bool,
}

pub open spec fn dd_reply_spec(neighbor_is_master: bool, p: DdPacketCache, prev_seq: u32, summary_len: usize) -> DdReply {
    if neighbor_is_master {
        let count = if summary_len > SLAVE_DD_HEADERS { SLAVE_DD_HEADERS } else { summary_len };
        DdReply {
            send: true,
            sequence_number: p.sequence_number,
            count,
            more: count < summary_len,
            master: false,
            exchange_done: !p.more && count == summary_len,
        }
    } else {
        let done = !p.more && summary_len == 0;
        let count = if done {
            0
        } else if summary_len > MASTER_DD_HEADERS {
            MASTER_DD_HEADERS
        } else {
            summary_len
        };
        DdReply {
            send: !done,
            sequence_number: ((prev_seq + 1) % 0x1_0000_0000) as u32,
            count,
            more: count < summary_len,
            master: true,
            exchange_done: done,
        }
    }
}

/// The answer to an accepted DD packet. As slave: echo the master's
/// sequence number with up to 8 headers; the exchange is done once the
/// master has no more and neither has this router. As master: advance the
/// sequence number and send up to 12 headers, until neither side has more.
pub fn dd_reply(neighbor_is_master: bool, p: &DdPacketCache, prev_seq: u32, summary_len: usize) -> (r: DdReply)
    ensures
        r == dd_reply_spec(neighbor_is_master, *p, prev_seq, summary_len),
        r.count <= summary_len,
        neighbor_is_master ==> r.count <= SLAVE_DD_HEADERS,
        !neighbor_is_master ==> r.count <= MASTER_DD_HEADERS,
        r.exchange_done ==> !p.more && !r.more,
{
    if neighbor_is_master {
        let count = if summary_len > SLAVE_DD_HEADERS { SLAVE_DD_HEADERS } else { summary_len };
        DdReply {
            send: true,
            sequence_number: p.sequence_number,
            count,
            more: count < summary_len,
            master: false,
            exchange_done: !p.more && count == summary_len,
        }
    } else {
        let done = !p.more && summary_len == 0;
        let count = if done {
            0
        } else if summary_len > MASTER_DD_HEADERS {
            MASTER_DD_HEADERS
        } else {
            summary_len
        };
        DdReply {
            send: !done,
            sequence_number: prev_seq.wrapping_add(1),
            count,
            more: count < summary_len,
            master: true,
            exchange_done: done,
        }
    }
}

// ---------------------------------------------------------------------------
// Hello
/// What the interface expects of a Hello packet.
#[derive(Clone, Copy, Debug, PartialEq, Eq, Structural)]
pub struct HelloExpect {
    pub hello_interval: u16,
    pub dead_interval: u32,
    pub net_type: NetType,
    pub mask: u32,
    pub external_routing: bool,
}

/// What a Hello packet says.
#[derive(Clone, Copy, Debug, PartialEq, Eq, Structural)]
pub struct HelloSeen {
    pub hello_interval: u16,
    pub dead_interval: u32,
    pub mask: u32,
    pub e_bit: bool,
    pub priority: u8,
    pub dr: u32,
    pub bdr: u32,
    /// This router's id is in the packet's neighbor list.
    pub lists_me: bool,
}

/// The neighbor as known before the packet.
#[derive(Clone, Copy, Debug, PartialEq, Eq, Structural)]
pub struct HelloPrev {
    pub ip: u32,
    pub priority: u8,
    pub dr: u32,
    pub bdr: u32,
}

/// Events a Hello packet raises, in order: HelloReceived, then
/// TwoWayReceived or OneWayReceived, then interface events.
#[derive(Clone, Copy, Debug, PartialEq, Eq, Structural)]
pub struct HelloOutcome {
    /// The packet's parameters match the interface's.
    pub accepted: bool,
    pub two_way: bool,
    pub priority_changed: bool,
    pub dr_event: Option<InterfaceEvent>,
    pub bdr_event: Option<InterfaceEvent>,
}

pub open spec fn hello_spec(e: HelloExpect, h: HelloSeen, prev: HelloPrev, iface_waiting: bool) -> HelloOutcome {
    let accepted = e.hello_interval == h.hello_interval && e.dead_interval == h.dead_interval && (
    e.net_type == NetType::P2P || e.net_type == NetType::Virtual || e.mask == h.mask)
        && e.external_routing == h.e_bit;
    let was_dr = prev.dr == prev.ip;
    let was_bdr = prev.bdr == prev.ip;
    let dr_event = if h.dr == prev.ip && h.bdr == 0 && iface_waiting {
        Some(InterfaceEvent::BackupSeen)
    } else if (h.dr == prev.ip && !was_dr) || (was_dr && h.dr != prev.ip) {
        Some(InterfaceEvent::NeighborChange)
    } else {
        None
    };
    let bdr_event = if h.bdr == prev.ip && iface_waiting {
        Some(InterfaceEvent::BackupSeen)
    } else if (h.bdr == prev.ip && !was_bdr) || (was_bdr && h.bdr != prev.ip) {
        Some(InterfaceEvent::NeighborChange)
    } else {
        None
    };
    if !accepted {
        HelloOutcome { accepted: false, two_way: false, priority_changed: false, dr_event: None, bdr_event: None }
    } else if !h.lists_me {
        HelloOutcome { accepted: true, two_way: false, priority_changed: false, dr_event: None, bdr_event: None }
    } else {
        HelloOutcome {
            accepted: true,
            two_way: true,
            priority_changed: h.priority != prev.priority,
            dr_event,
            bdr_event,
        }
    }
}

/// Checks a received Hello against the interface and derives the events
/// it raises.
pub fn hello_outcome(e: &HelloExpect, h: &HelloSeen, prev: &HelloPrev, iface_waiting: bool) -> (r: HelloOutcome)
    ensures
        r == hello_spec(*e, *h, *prev, iface_waiting),
{
    let accepted = e.hello_interval == h.hello_interval && e.dead_interval == h.dead_interval && (
    matches!(e.net_type, NetType::P2P | NetType::Virtual) || e.mask == h.mask) && e.external_routing
        == h.e_bit;
    if !accepted {
        return HelloOutcome { accepted: false, two_way: false, priority_changed: false, dr_event: None, bdr_event: None };
    }
    if !h.lists_me {
        return HelloOutcome { accepted: true, two_way: false, priority_changed: false, dr_event: None, bdr_event: None };
    }
    let was_dr = prev.dr == prev.ip;
    let was_bdr = prev.bdr == prev.ip;
    let dr_event = if h.dr == prev.ip && h.bdr == 0 && iface_waiting {
        Some(InterfaceEvent::BackupSeen)
    } else if (h.dr == prev.ip && !was_dr) || (was_dr && h.dr != prev.ip) {
        Some(InterfaceEvent::NeighborChange)
    } else {
        None
    };
    let bdr_event = if h.bdr == prev.ip && iface_waiting {
        Some(InterfaceEvent::BackupSeen)
    } else if (h.bdr == prev.ip && !was_bdr) || (was_bdr && h.bdr != prev.ip) {
        Some(InterfaceEvent::NeighborChange)
    } else {
        None
    };
    HelloOutcome { accepted: true, two_way: true, priority_changed: h.priority != prev.priority, dr_event, bdr_event }
}

} // verus!
