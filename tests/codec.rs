use ospfd::lsa::{
    AsExternalLSA, CodecError, Lsa, LsaData, LsaHeader, NetworkLSA, RouterLSA, RouterLSALink,
    SummaryLSA,
};
use ospfd::ospf::{auto_set_checksum, auto_test_checksum, Ospf};
use ospfd::packet::{DBDescription, HelloPacket, LSAcknowledge, LSRequest, LSUpdate};

fn header(ls_type: u8, length: u16) -> LsaHeader {
    LsaHeader {
        ls_age: 1,
        options: 2,
        ls_type,
        link_state_id: 0x0101_0101,
        advertising_router: 0x0101_0101,
        ls_sequence_number: -0x7fff_ffff,
        ls_checksum: 0,
        length,
    }
}

fn router_lsa() -> Lsa {
    Lsa {
        header: header(1, 36),
        data: LsaData::Router(RouterLSA {
            v: false,
            e: false,
            b: false,
            num_links: 1,
            links: vec![RouterLSALink {
                link_id: 0x0a00_0000,
                link_data: 0xffff_ff00,
                link_type: 3,
                tos: 0,
                metric: 10,
            }],
        }),
    }
}

fn same_lsa(a: &Lsa, b: &Lsa) -> bool {
    a.header == b.header && a.data.to_bytes() == b.data.to_bytes()
}

#[test]
fn lsa_header_round_trip() {
    let h = header(3, 32);
    let mut buf = Vec::new();
    h.write_to(&mut buf);
    assert_eq!(buf.len(), 20);
    assert_eq!(&buf[12..16], &[0x80, 0x00, 0x00, 0x01]);
    assert_eq!(LsaHeader::read_from(&buf, 0), h);
}

#[test]
fn router_lsa_round_trip() {
    let l = router_lsa();
    let bytes = l.to_bytes();
    assert_eq!(bytes.len(), 36);
    let back = Lsa::from_bytes(&bytes).unwrap();
    assert!(same_lsa(&l, &back));
    match back.data {
        LsaData::Router(r) => {
            assert_eq!(r.num_links, 1);
            assert_eq!(r.links[0].metric, 10);
        }
        _ => panic!("wrong body"),
    }
}

#[test]
fn router_lsa_flags_round_trip() {
    let mut l = router_lsa();
    if let LsaData::Router(ref mut r) = l.data {
        r.v = true;
        r.b = true;
    }
    let bytes = l.to_bytes();
    assert_eq!(bytes[20], 0b101);
    let back = Lsa::from_bytes(&bytes).unwrap();
    match back.data {
        LsaData::Router(r) => assert!(r.v && !r.e && r.b),
        _ => panic!("wrong body"),
    }
}

#[test]
fn network_lsa_round_trip() {
    let l = Lsa {
        header: header(2, 32),
        data: LsaData::Network(NetworkLSA {
            network_mask: 0xffff_ff00,
            attached_routers: vec![0x0101_0101, 0x0202_0202],
        }),
    };
    let back = Lsa::from_bytes(&l.to_bytes()).unwrap();
    assert!(same_lsa(&l, &back));
}

#[test]
fn summary_lsa_round_trip() {
    let body = SummaryLSA { network_mask: 0xffff_ff00, metric: 5, tos: 0, tos_metric: 0 };
    for (t, data) in [(3u8, LsaData::SummaryIp(body)), (4u8, LsaData::SummaryAsbr(body))] {
        let l = Lsa { header: header(t, 32), data };
        let bytes = l.to_bytes();
        assert_eq!(bytes.len(), 32);
        assert_eq!(&bytes[25..28], &[0, 0, 5]);
        let back = Lsa::from_bytes(&bytes).unwrap();
        assert!(same_lsa(&l, &back));
    }
}

#[test]
fn external_lsa_round_trip() {
    let l = Lsa {
        header: header(5, 36),
        data: LsaData::AsExternal(AsExternalLSA {
            network_mask: 0xffff_0000,
            e: true,
            metric: 0x12_3456,
            forwarding_address: 0,
            external_router_tag: 7,
        }),
    };
    let bytes = l.to_bytes();
    assert_eq!(bytes[24], 0x80);
    let back = Lsa::from_bytes(&bytes).unwrap();
    assert!(same_lsa(&l, &back));
}

#[test]
fn lsa_unknown_type_is_rejected() {
    let mut bytes = router_lsa().to_bytes();
    bytes[3] = 9;
    assert_eq!(Lsa::from_bytes(&bytes).unwrap_err(), CodecError::UnknownLsaType);
}

#[test]
fn lsa_length_mismatch_is_malformed() {
    let mut bytes = router_lsa().to_bytes();
    bytes.push(0);
    assert_eq!(Lsa::from_bytes(&bytes).unwrap_err(), CodecError::Malformed);
    let bytes = router_lsa().to_bytes();
    assert_eq!(Lsa::from_bytes(&bytes[..30]).unwrap_err(), CodecError::Malformed);
    assert_eq!(Lsa::from_bytes(&bytes[..10]).unwrap_err(), CodecError::Malformed);
}

#[test]
fn fletcher_checksum_value() {
    let l = router_lsa();
    assert_eq!(l.checksum(), 0x79bd);
}

#[test]
fn update_checksum_makes_it_ok() {
    let mut l = router_lsa();
    assert!(!l.checksum_ok());
    l.update_checksum();
    assert_eq!(l.header.ls_checksum, 0x79bd);
    assert!(l.checksum_ok());
    l.header.ls_age = 900;
    assert!(l.checksum_ok());
    l.header.ls_sequence_number += 1;
    assert!(!l.checksum_ok());
}

#[test]
fn update_length_counts_body() {
    let mut l = router_lsa();
    l.header.length = 0;
    l.update_length();
    assert_eq!(l.header.length, 36);
}

fn hello() -> HelloPacket {
    HelloPacket {
        network_mask: 0xffff_ff00,
        hello_interval: 10,
        options: 2,
        router_priority: 1,
        router_dead_interval: 40,
        designated_router: 0x0a00_0002,
        backup_designated_router: 0x0a00_0001,
        neighbors: vec![0x0202_0202],
    }
}

#[test]
fn hello_round_trip() {
    let h = hello();
    let bytes = h.to_bytes();
    assert_eq!(bytes.len(), 24);
    let b = HelloPacket::from_bytes(&bytes).unwrap();
    assert_eq!(b.network_mask, h.network_mask);
    assert_eq!(b.hello_interval, 10);
    assert_eq!(b.router_dead_interval, 40);
    assert_eq!(b.designated_router, h.designated_router);
    assert_eq!(b.backup_designated_router, h.backup_designated_router);
    assert_eq!(b.neighbors, h.neighbors);
    assert!(b.is_set(2));
    assert!(!b.is_set(4));
    assert_eq!(HelloPacket::from_bytes(&bytes[..22]).unwrap_err(), CodecError::Malformed);
}

#[test]
fn dd_round_trip() {
    let d = DBDescription {
        interface_mtu: 1500,
        options: 2,
        init: true,
        more: true,
        master: false,
        db_sequence_number: 77,
        lsa_header: vec![header(1, 36), header(2, 32)],
    };
    let bytes = d.to_bytes();
    assert_eq!(bytes.len(), 48);
    assert_eq!(bytes[3], 0b110);
    let b = DBDescription::from_bytes(&bytes).unwrap();
    assert_eq!(b.interface_mtu, 1500);
    assert!(b.init && b.more && !b.master);
    assert_eq!(b.db_sequence_number, 77);
    assert_eq!(b.lsa_header, d.lsa_header);
}

#[test]
fn lsr_round_trip() {
    let r = LSRequest { ls_type: 1, ls_id: 0x0101_0101, advertising_router: 0x0202_0202 };
    let bytes = r.to_bytes();
    assert_eq!(bytes.len(), 12);
    assert_eq!(LSRequest::from_bytes(&bytes).unwrap(), r);
    assert_eq!(LSRequest::from_bytes(&bytes[..8]).unwrap_err(), CodecError::Malformed);
}

#[test]
fn lsu_round_trip() {
    let a = router_lsa();
    let b = Lsa {
        header: header(3, 32),
        data: LsaData::SummaryIp(SummaryLSA { network_mask: 0xffff_ff00, metric: 5, tos: 0, tos_metric: 0 }),
    };
    let u = LSUpdate { num_lsa: 2, lsa: vec![a.clone(), b.clone()] };
    let bytes = u.to_bytes();
    assert_eq!(bytes.len(), 4 + 36 + 32);
    let back = LSUpdate::from_bytes(&bytes).unwrap();
    assert_eq!(back.num_lsa, 2);
    assert!(same_lsa(&back.lsa[0], &a));
    assert!(same_lsa(&back.lsa[1], &b));
}

#[test]
fn lsu_count_mismatch_is_malformed() {
    let u = LSUpdate { num_lsa: 1, lsa: vec![router_lsa()] };
    let mut bytes = u.to_bytes();
    bytes[3] = 2;
    assert_eq!(LSUpdate::from_bytes(&bytes).unwrap_err(), CodecError::Malformed);
}

#[test]
fn ack_round_trip() {
    let a = LSAcknowledge { lsa_header: vec![header(1, 36)] };
    let bytes = a.to_bytes();
    assert_eq!(bytes.len(), 20);
    assert_eq!(LSAcknowledge::from_bytes(&bytes).unwrap().lsa_header, a.lsa_header);
    assert_eq!(LSAcknowledge::from_bytes(&bytes[..19]).unwrap_err(), CodecError::Malformed);
}

#[test]
fn ospf_header_round_trip() {
    let payload = hello().to_bytes();
    let o = Ospf {
        version: 2,
        message_type: 1,
        length: 48,
        router_id: 0x0101_0101,
        area_id: 0,
        checksum: 0x1234,
        au_type: 0,
        authentication: 0x0102_0304_0506_0708,
        payload: payload.clone(),
    };
    assert_eq!(o.len(), 48);
    let bytes = o.to_bytes();
    let b = Ospf::from_bytes(&bytes).unwrap();
    assert_eq!(b.message_type, 1);
    assert_eq!(b.length, 48);
    assert_eq!(b.router_id, 0x0101_0101);
    assert_eq!(b.checksum, 0x1234);
    assert_eq!(b.authentication, 0x0102_0304_0506_0708);
    assert_eq!(b.payload, payload);
}

#[test]
fn ospf_bad_version_or_length_is_malformed() {
    let payload = hello().to_bytes();
    let mut bytes = Ospf::build(1, 1, 0, &payload);
    bytes[0] = 3;
    assert_eq!(Ospf::from_bytes(&bytes).unwrap_err(), CodecError::Malformed);
    let mut bytes = Ospf::build(1, 1, 0, &payload);
    bytes.push(0);
    assert_eq!(Ospf::from_bytes(&bytes).unwrap_err(), CodecError::Malformed);
}

#[test]
fn built_packet_checksum_value_and_verifies() {
    let payload = hello().to_bytes();
    let bytes = Ospf::build(1, 0x0101_0101, 0, &payload);
    assert_eq!(bytes.len(), 48);
    assert_eq!(&bytes[12..14], &[0xe2, 0x91]);
    assert!(auto_test_checksum(&bytes));
}

#[test]
fn corrupted_packet_fails_checksum() {
    let payload = hello().to_bytes();
    let mut bytes = Ospf::build(1, 0x0101_0101, 0, &payload);
    bytes[30] ^= 0x10;
    assert!(!auto_test_checksum(&bytes));
    assert!(!auto_test_checksum(&bytes[..23]));
}

#[test]
fn checksum_ignores_authentication() {
    let payload = hello().to_bytes();
    let mut bytes = Ospf::build(1, 0x0101_0101, 0, &payload);
    bytes[20] = 0xaa;
    assert!(auto_test_checksum(&bytes));
}

#[test]
fn set_checksum_on_all_zero_packet() {
    let mut bytes = vec![0u8; 24];
    auto_set_checksum(&mut bytes);
    assert_eq!(&bytes[12..14], &[0xff, 0xff]);
    assert!(auto_test_checksum(&bytes));
}

#[test]
fn fletcher_checksum_negative_sum_case() {
    let l = Lsa {
        header: LsaHeader { ls_age: 0, options: 0, ls_type: 3, link_state_id: 0xba22_0000, advertising_router: 0, ls_sequence_number: 0, ls_checksum: 0, length: 32 },
        data: LsaData::SummaryIp(SummaryLSA { network_mask: 0, metric: 0, tos: 0, tos_metric: 0 }),
    };
    assert_eq!(l.checksum(), 0x01fe);
}
