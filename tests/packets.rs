use ospfd::demux::{
    accept_capture, accept_packet, check_ip, decode_packet, message_type_string, neighbor_key,
    PacketBody, PacketError,
};
use ospfd::lsa::{Lsa, LsaData, LsaHeader, SummaryLSA};
use ospfd::packet::{HelloPacket, LSAcknowledge, LSRequest, LSUpdate};

fn hello() -> HelloPacket {
    HelloPacket {
        network_mask: 0xffff_ff00,
        hello_interval: 10,
        options: 2,
        router_priority: 1,
        router_dead_interval: 40,
        designated_router: 0,
        backup_designated_router: 0,
        neighbors: vec![],
    }
}

#[test]
fn generated_packet_decodes_back() {
    let body = PacketBody::Hello(hello());
    assert_eq!(body.get_type(), 1);
    let bytes = body.encode_packet(0x0101_0101, 0).unwrap();
    assert_eq!(bytes.len(), 44);
    let (o, b) = decode_packet(&bytes).unwrap();
    assert_eq!((o.version, o.message_type, o.length, o.router_id, o.area_id), (2, 1, 44, 0x0101_0101, 0));
    match b {
        PacketBody::Hello(h) => assert_eq!((h.hello_interval, h.router_dead_interval), (10, 40)),
        _ => panic!("wrong body"),
    }
}

#[test]
fn generated_update_decodes_back() {
    let lsa = Lsa {
        header: LsaHeader { ls_age: 1, options: 0, ls_type: 3, link_state_id: 0x0a01_0000, advertising_router: 1, ls_sequence_number: 1, ls_checksum: 0, length: 32 },
        data: LsaData::SummaryIp(SummaryLSA { network_mask: 0xffff_ff00, metric: 5, tos: 0, tos_metric: 0 }),
    };
    let body = PacketBody::LsUpdate(LSUpdate { num_lsa: 1, lsa: vec![lsa] });
    let bytes = body.encode_packet(7, 1).unwrap();
    match decode_packet(&bytes).unwrap().1 {
        PacketBody::LsUpdate(u) => {
            assert_eq!(u.num_lsa, 1);
            assert_eq!(u.lsa[0].header.link_state_id, 0x0a01_0000);
        }
        _ => panic!("wrong body"),
    }
}

#[test]
fn decode_errors() {
    let bytes = PacketBody::LsRequest(LSRequest { ls_type: 1, ls_id: 2, advertising_router: 3 })
        .encode_packet(7, 0)
        .unwrap();
    let mut bad = bytes.clone();
    bad[30] ^= 1;
    assert_eq!(decode_packet(&bad).unwrap_err(), PacketError::BadChecksum);
    assert_eq!(decode_packet(&bytes[..20]).unwrap_err(), PacketError::Malformed);
    let mut unknown = PacketBody::LsAck(LSAcknowledge { lsa_header: vec![] }).encode_packet(7, 0).unwrap();
    unknown[1] = 9;
    ospfd::ospf::auto_set_checksum(&mut unknown);
    assert_eq!(decode_packet(&unknown).unwrap_err(), PacketError::UnknownMessageType);
}

#[test]
fn message_type_names() {
    assert_eq!(message_type_string(1), "Hello Packet");
    assert_eq!(message_type_string(4), "Link State Update Packet");
    assert_eq!(message_type_string(0), "Unknown");
}

#[test]
fn capture_and_interface_filters() {
    let ips = vec![0x0a00_0001];
    assert!(check_ip(&ips, 0xe000_0005));
    assert!(check_ip(&ips, 0x0a00_0001));
    assert!(!check_ip(&ips, 0x0a00_0009));
    assert!(accept_capture(&ips, 0x0a00_0002, 0xe000_0005));
    assert!(!accept_capture(&ips, 0x0a00_0001, 0xe000_0005));
    assert!(!accept_capture(&ips, 0x0a00_0002, 0x0a00_0009));
    assert!(accept_packet(1, 1, false, 0xe000_0005, 0));
    assert!(!accept_packet(2, 1, false, 0xe000_0005, 0));
    assert!(accept_packet(0, 1, true, 0xe000_0005, 0));
    assert!(!accept_packet(1, 1, false, 0xe000_0006, 0));
    assert!(!accept_packet(1, 1, false, 0xe000_0005, 1));
    assert_eq!(neighbor_key(false, 5, 6), (5, 6));
    assert_eq!(neighbor_key(true, 5, 6), (6, 5));
}

#[test]
fn update_with_unknown_lsa_type_is_reported() {
    let lsa = Lsa {
        header: LsaHeader { ls_age: 1, options: 0, ls_type: 3, link_state_id: 1, advertising_router: 1, ls_sequence_number: 1, ls_checksum: 0, length: 32 },
        data: LsaData::SummaryIp(SummaryLSA { network_mask: 0xffff_ff00, metric: 5, tos: 0, tos_metric: 0 }),
    };
    let mut bytes = PacketBody::LsUpdate(LSUpdate { num_lsa: 1, lsa: vec![lsa] }).encode_packet(7, 0).unwrap();
    bytes[24 + 4 + 3] = 7;
    ospfd::ospf::auto_set_checksum(&mut bytes);
    assert_eq!(decode_packet(&bytes).unwrap_err(), PacketError::UnknownLsaType);
}
