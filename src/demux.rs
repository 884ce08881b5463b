//! Whole packets: a body of one of the five kinds framed by the common
//! header, their encoding, and the checks a received packet goes through.

use vstd::prelude::*;
use crate::lsa::{CodecError, LsaHeader, LsaModel, lsa_bytes, LsaDataModel};
use crate::lsa::{lemma_links_len, lemma_ips_len};
use crate::packet::{
    HelloPacket, DBDescription, LSRequest, LSUpdate, LSAcknowledge, HelloModel, DdModel, LsUpdateModel,
    hello_bytes, dd_bytes, lsr_bytes, lsu_bytes, ack_bytes, parse_hello, parse_dd, parse_lsr, parse_lsu,
    parse_ack, lsu_wf, lsas_bytes, lemma_hello_round_trip, lemma_dd_round_trip, lemma_lsr_round_trip,
    lemma_lsu_round_trip, lemma_ack_round_trip, lemma_headers_len, HELLO_PACKET,
    DB_DESCRIPTION, LS_REQUEST, LS_UPDATE, LS_ACKNOWLEDGE,
};
use crate::ospf::{
    Ospf, OspfModel, ospf_bytes, parse_ospf, checksum_valid, with_checksum, packet_checksum,
    lemma_ospf_round_trip, lemma_checksum_generated, auto_test_checksum, OSPF_VERSION,
};
use crate::flooding::{ALL_SPF_ROUTERS, ALL_D_ROUTERS};

verus! {

/// The body of a packet.
#[derive(Clone, Debug)]
pub enum PacketBody {
    Hello(HelloPacket),
    DbDescription(DBDescription),
    LsRequest(LSRequest),
    LsUpdate(LSUpdate),
    LsAck(LSAcknowledge),
}

pub ghost enum PacketBodyModel {
    Hello(HelloModel),
    DbDescription(DdModel),
    LsRequest(LSRequest),
    LsUpdate(LsUpdateModel),
    LsAck(Seq<LsaHeader>),
}

impl View for PacketBody {
    type V = PacketBodyModel;

    open spec fn view(&self) -> PacketBodyModel {
        match self {
            PacketBody::Hello(x) => PacketBodyModel::Hello(x@),
            PacketBody::DbDescription(x) => PacketBodyModel::DbDescription(x@),
            PacketBody::LsRequest(x) => PacketBodyModel::LsRequest(*x),
            PacketBody::LsUpdate(x) => PacketBodyModel::LsUpdate(x@),
            PacketBody::LsAck(x) => PacketBodyModel::LsAck(x@),
        }
    }
}

pub open spec fn body_type(b: PacketBodyModel) -> u8 {
    match b {
        PacketBodyModel::Hello(_) => HELLO_PACKET,
        PacketBodyModel::DbDescription(_) => DB_DESCRIPTION,
        PacketBodyModel::LsRequest(_) => LS_REQUEST,
        PacketBodyModel::LsUpdate(_) => LS_UPDATE,
        PacketBodyModel::LsAck(_) => LS_ACKNOWLEDGE,
    }
}

pub open spec fn body_bytes(b: PacketBodyModel) -> Seq<u8> {
    match b {
        PacketBodyModel::Hello(x) => hello_bytes(x),
        PacketBodyModel::DbDescription(x) => dd_bytes(x),
        PacketBodyModel::LsRequest(x) => lsr_bytes(x),
        PacketBodyModel::LsUpdate(x) => lsu_bytes(x),
        PacketBodyModel::LsAck(x) => ack_bytes(x),
    }
}

pub open spec fn body_wf(b: PacketBodyModel) -> bool {
    match b {
        PacketBodyModel::LsUpdate(x) => lsu_wf(x),
        _ => true,
    }
}

/// Why a received packet was not taken.
#[derive(Clone, Copy, Debug, PartialEq, Eq, Structural)]
pub enum PacketError {
    /// Lengths disagree, or the version is not 2.
    Malformed,
    /// The packet checksum is wrong.
    BadChecksum,
    /// A message type outside 1..=5.
    UnknownMessageType,
    /// An LSA inside carries a type outside 1..=5.
    UnknownLsaType,
}

pub open spec fn codec_error(e: CodecError) -> PacketError {
    match e {
        CodecError::Malformed => PacketError::Malformed,
        CodecError::UnknownLsaType => PacketError::UnknownLsaType,
    }
}

/// The body of message type `t` held by `s`.
pub open spec fn parse_body(t: u8, s: Seq<u8>) -> Result<PacketBodyModel, PacketError> {
    if t == HELLO_PACKET {
        match parse_hello(s) {
            Ok(x) => Ok(PacketBodyModel::Hello(x)),
            Err(e) => Err(codec_error(e)),
        }
    } else if t == DB_DESCRIPTION {
        match parse_dd(s) {
            Ok(x) => Ok(PacketBodyModel::DbDescription(x)),
            Err(e) => Err(codec_error(e)),
        }
    } else if t == LS_REQUEST {
        match parse_lsr(s) {
            Ok(x) => Ok(PacketBodyModel::LsRequest(x)),
            Err(e) => Err(codec_error(e)),
        }
    } else if t == LS_UPDATE {
        match parse_lsu(s) {
            Ok(x) => Ok(PacketBodyModel::LsUpdate(x)),
            Err(e) => Err(codec_error(e)),
        }
    } else if t == LS_ACKNOWLEDGE {
        match parse_ack(s) {
            Ok(x) => Ok(PacketBodyModel::LsAck(x)),
            Err(e) => Err(codec_error(e)),
        }
    } else {
        Err(PacketError::UnknownMessageType)
    }
}

/// A received packet: its frame, checked for length and version, then its
/// checksum, then its body.
pub open spec fn parse_packet(s: Seq<u8>) -> Result<(OspfModel, PacketBodyModel), PacketError> {
    match parse_ospf(s) {
        Err(_) => Err(PacketError::Malformed),
        Ok(o) => if !checksum_valid(s) {
            Err(PacketError::BadChecksum)
        } else {
            match parse_body(o.message_type, o.payload) {
                Ok(b) => Ok((o, b)),
                Err(e) => Err(e),
            }
        },
    }
}

/// The frame a packet of body `b` is sent in before its checksum is set.
pub open spec fn frame(b: PacketBodyModel, router_id: u32, area_id: u32) -> OspfModel {
    OspfModel {
        version: OSPF_VERSION,
        message_type: body_type(b),
        length: (24 + body_bytes(b).len()) as u16,
        router_id,
        area_id,
        checksum: 0,
        au_type: 0,
        authentication: 0,
        payload: body_bytes(b),
    }
}

/// The bytes sent for body `b`.
pub open spec fn packet_bytes(b: PacketBodyModel, router_id: u32, area_id: u32) -> Seq<u8> {
    with_checksum(ospf_bytes(frame(b, router_id, area_id)))
}

proof fn lemma_lsa_even(m: LsaModel)
    ensures
        lsa_bytes(m).len() % 2 == 0,
{
    match m.data {
        LsaDataModel::Router(r) => lemma_links_len(r.links),
        LsaDataModel::Network(n) => lemma_ips_len(n.attached_routers),
        _ => {},
    }
}

proof fn lemma_lsas_even(ls: Seq<LsaModel>)
    ensures
        lsas_bytes(ls).len() % 2 == 0,
    decreases ls.len(),
{
    if ls.len() > 0 {
        lemma_lsa_even(ls[0]);
        lemma_lsas_even(ls.skip(1));
    }
}

/// Every body has an even length, as the packet checksum needs.
pub proof fn lemma_body_even(b: PacketBodyModel)
    ensures
        body_bytes(b).len() % 2 == 0,
{
    match b {
        PacketBodyModel::Hello(x) => lemma_ips_len(x.neighbors),
        PacketBodyModel::DbDescription(x) => lemma_headers_len(x.lsa_header),
        PacketBodyModel::LsRequest(_) => {},
        PacketBodyModel::LsUpdate(x) => lemma_lsas_even(x.lsa),
        PacketBodyModel::LsAck(x) => lemma_headers_len(x),
    }
}

/// Decoding the wire form of a well-formed body, by its message type, gives it back.
pub proof fn lemma_body_round_trip(b: PacketBodyModel)
    requires
        body_wf(b),
    ensures
        parse_body(body_type(b), body_bytes(b)) == Ok::<PacketBodyModel, PacketError>(b),
{
    match b {
        PacketBodyModel::Hello(x) => lemma_hello_round_trip(x),
        PacketBodyModel::DbDescription(x) => lemma_dd_round_trip(x),
        PacketBodyModel::LsRequest(x) => lemma_lsr_round_trip(x),
        PacketBodyModel::LsUpdate(x) => lemma_lsu_round_trip(x),
        PacketBodyModel::LsAck(x) => lemma_ack_round_trip(x),
    }
}

/// Every packet this router generates passes the checksum test, and
/// decoding it gives back its frame (with the checksum that was filled
/// in) and its body.
pub proof fn lemma_packet_round_trip(b: PacketBodyModel, router_id: u32, area_id: u32)
    requires
        body_wf(b),
        body_bytes(b).len() + 24 <= 0xffff,
    ensures
        checksum_valid(packet_bytes(b, router_id, area_id)),
        parse_packet(packet_bytes(b, router_id, area_id)) == Ok::<(OspfModel, PacketBodyModel), PacketError>(
            (
                OspfModel {
                    checksum: packet_checksum(ospf_bytes(frame(b, router_id, area_id))),
                    ..frame(b, router_id, area_id)
                },
                b,
            ),
        ),
{
    let f = frame(b, router_id, area_id);
    let raw = ospf_bytes(f);
    lemma_body_even(b);
    lemma_checksum_generated(raw);
    let c = packet_checksum(raw);
    let g = OspfModel { checksum: c, ..f };
    assert(with_checksum(raw) =~= ospf_bytes(g));
    lemma_ospf_round_trip(g);
    lemma_body_round_trip(b);
}

impl PacketBody {
    /// The message type of the body.
    pub fn get_type(&self) -> (r: u8)
        ensures
            r == body_type(self@),
    {
        match self {
            PacketBody::Hello(_) => HELLO_PACKET,
            PacketBody::DbDescription(_) => DB_DESCRIPTION,
            PacketBody::LsRequest(_) => LS_REQUEST,
            PacketBody::LsUpdate(_) => LS_UPDATE,
            PacketBody::LsAck(_) => LS_ACKNOWLEDGE,
        }
    }

    pub fn to_bytes(&self) -> (r: Vec<u8>)
        ensures
            r@ == body_bytes(self@),
    {
        match self {
            PacketBody::Hello(x) => x.to_bytes(),
            PacketBody::DbDescription(x) => x.to_bytes(),
            PacketBody::LsRequest(x) => x.to_bytes(),
            PacketBody::LsUpdate(x) => x.to_bytes(),
            PacketBody::LsAck(x) => x.to_bytes(),
        }
    }

    /// The bytes to send: the body framed by a version-2 header from
    /// `router_id` in `area_id`, checksum filled in. `None` when the packet
    /// would not fit the 16-bit length field.
    pub fn encode_packet(&self, router_id: u32, area_id: u32) -> (r: Option<Vec<u8>>)
        ensures
            match r {
                Some(v) => v@ == packet_bytes(self@, router_id, area_id) && checksum_valid(v@),
                None => body_bytes(self@).len() + 24 > 0xffff,
            },
    {
        let payload = self.to_bytes();
        if payload.len() > 0xffff - 24 {
            return None;
        }
        proof {
            lemma_body_even(self@);
        }
        Some(Ospf::build(self.get_type(), router_id, area_id, &payload))
    }
}

fn decode_body(t: u8, s: &[u8]) -> (r: Result<PacketBody, PacketError>)
    ensures
        match r {
            Ok(b) => parse_body(t, s@) == Ok::<PacketBodyModel, PacketError>(b@),
            Err(e) => parse_body(t, s@) == Err::<PacketBodyModel, PacketError>(e),
        },
{
    if t == HELLO_PACKET {
        match HelloPacket::from_bytes(s) {
            Ok(x) => Ok(PacketBody::Hello(x)),
            Err(e) => Err(packet_error_of(e)),
        }
    } else if t == DB_DESCRIPTION {
        match DBDescription::from_bytes(s) {
            Ok(x) => Ok(PacketBody::DbDescription(x)),
            Err(e) => Err(packet_error_of(e)),
        }
    } else if t == LS_REQUEST {
        match LSRequest::from_bytes(s) {
            Ok(x) => Ok(PacketBody::LsRequest(x)),
            Err(e) => Err(packet_error_of(e)),
        }
    } else if t == LS_UPDATE {
        match LSUpdate::from_bytes(s) {
            Ok(x) => Ok(PacketBody::LsUpdate(x)),
            Err(e) => Err(packet_error_of(e)),
        }
    } else if t == LS_ACKNOWLEDGE {
        match LSAcknowledge::from_bytes(s) {
            Ok(x) => Ok(PacketBody::LsAck(x)),
            Err(e) => Err(packet_error_of(e)),
        }
    } else {
        Err(PacketError::UnknownMessageType)
    }
}

fn packet_error_of(e: CodecError) -> (r: PacketError)
    ensures
        r == codec_error(e),
{
    match e {
        CodecError::Malformed => PacketError::Malformed,
        CodecError::UnknownLsaType => PacketError::UnknownLsaType,
    }
}

/// Decodes a received packet: frame, checksum, then body.
pub fn decode_packet(buf: &[u8]) -> (r: Result<(Ospf, PacketBody), PacketError>)
    ensures
        match r {
            Ok((o, b)) => parse_packet(buf@) == Ok::<(OspfModel, PacketBodyModel), PacketError>((o@, b@)),
            Err(e) => parse_packet(buf@) == Err::<(OspfModel, PacketBodyModel), PacketError>(e),
        },
{
    let o = match Ospf::from_bytes(buf) {
        Ok(o) => o,
        Err(_) => {
            return Err(PacketError::Malformed);
        },
    };
    if !auto_test_checksum(buf) {
        return Err(PacketError::BadChecksum);
    }
    match decode_body(o.message_type, o.payload.as_slice()) {
        Ok(b) => Ok((o, b)),
        Err(e) => Err(e),
    }
}

/// A name for each message type.
pub fn message_type_string(ty: u8) -> (r: &'static str)
    ensures
        ty == HELLO_PACKET ==> r@ == "Hello Packet"@,
        ty == DB_DESCRIPTION ==> r@ == "Database Description Packet"@,
        ty == LS_REQUEST ==> r@ == "Link State Request Packet"@,
        ty == LS_UPDATE ==> r@ == "Link State Update Packet"@,
        ty == LS_ACKNOWLEDGE ==> r@ == "Link State Acknowledge Packet"@,
        !(1 <= ty <= 5) ==> r@ == "Unknown"@,
{
    if ty == HELLO_PACKET {
        "Hello Packet"
    } else if ty == DB_DESCRIPTION {
        "Database Description Packet"
    } else if ty == LS_REQUEST {
        "Link State Request Packet"
    } else if ty == LS_UPDATE {
        "Link State Update Packet"
    } else if ty == LS_ACKNOWLEDGE {
        "Link State Acknowledge Packet"
    } else {
        "Unknown"
    }
}

// ---------------------------------------------------------------------------
// Receive filters
/// An address this router listens on: the two OSPF multicast groups and
/// its own interface addresses.
pub open spec fn listened(ips: Seq<u32>, ip: u32) -> bool {
    ip == ALL_SPF_ROUTERS || ip == ALL_D_ROUTERS || ips.contains(ip)
}

pub fn check_ip(ips: &Vec<u32>, ip: u32) -> (r: bool)
    ensures
        r == listened(ips@, ip),
{
    if ip == ALL_SPF_ROUTERS || ip == ALL_D_ROUTERS {
        return true;
    }
    let mut i: usize = 0;
    while i < ips.len()
        invariant
            i <= ips@.len(),
            forall|j: int| 0 <= j < i ==> ips@[j] != ip,
        decreases ips@.len() - i,
    {
        if ips[i] == ip {
            assert(ips@[i as int] == ip);
            return true;
        }
        i = i + 1;
    }
    false
}

/// A captured IP packet is taken when it was not sent by this router and
/// is addressed to it.
pub fn accept_capture(ips: &Vec<u32>, source: u32, destination: u32) -> (r: bool)
    ensures
        r == (!listened(ips@, source) && listened(ips@, destination)),
{
    !check_ip(ips, source) && check_ip(ips, destination)
}

/// Whether an interface takes a packet: from its own area, or from the
/// backbone when it is DR or BDR; not sent to AllDRouters when it is
/// neither; and with no authentication.
pub open spec fn accepts(packet_area: u32, iface_area: u32, iface_dr_or_bdr: bool, destination: u32, au_type: u16) -> bool {
    (packet_area == iface_area || (packet_area == 0 && iface_dr_or_bdr)) && !(destination == ALL_D_ROUTERS
        && !iface_dr_or_bdr) && au_type == 0
}

pub fn accept_packet(packet_area: u32, iface_area: u32, iface_dr_or_bdr: bool, destination: u32, au_type: u16) -> (r: bool)
    ensures
        r == accepts(packet_area, iface_area, iface_dr_or_bdr, destination, au_type),
{
    (packet_area == iface_area || (packet_area == 0 && iface_dr_or_bdr)) && !(destination == ALL_D_ROUTERS
        && !iface_dr_or_bdr) && au_type == 0
}

/// How a neighbor is keyed: (router id, address). On point-to-point and
/// virtual links the two trade places.
pub fn neighbor_key(point_to_point: bool, router_id: u32, source: u32) -> (r: (u32, u32))
    ensures
        r == if point_to_point { (source, router_id) } else { (router_id, source) },
{
    if point_to_point {
        (source, router_id)
    } else {
        (router_id, source)
    }
}

} // verus!
