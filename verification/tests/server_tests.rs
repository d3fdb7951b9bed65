use presence_registry::client::{
    build_connect_request, build_info_request, build_list_request, build_ping,
    parse_connect_response, poll_info_reply, poll_list_reply, InfoWait, ListWait,
};
use presence_registry::codec::{decode_envelope, decode_identity};
use presence_registry::protocol::{NetAddress, PacketType, MAX_DATAGRAM};
use presence_registry::registry::Registry;
use presence_registry::server::{handle_datagram, serve_datagram};

fn addr(ip: u128, port: u16) -> NetAddress {
    NetAddress { ip, port }
}

fn connect(reg: &mut Registry, label: &[u8], src: NetAddress, now: u64, fresh: u128) -> u128 {
    let dgram = build_connect_request(&label.to_vec());
    let reply = handle_datagram(reg, &dgram, src, now, fresh).expect("connect always answers");
    parse_connect_response(&reply).expect("connect reply carries the identity")
}

#[test]
fn scenario_connect_assigns_identity_and_registers_label() {
    let mut reg = Registry::new();
    let src = addr(0xC0A8_0001, 40001);
    let assigned = connect(&mut reg, b"Desktop", src, 100, 7777);
    assert_eq!(assigned, 7777);
    assert_eq!(reg.snapshot_identities(), vec![7777u128]);
    let rec = reg.lookup(7777).expect("connect inserts the record");
    assert_eq!(rec.device_type, b"Desktop".to_vec());
    assert_eq!(rec.address, src);
    assert_eq!(rec.last_seen, 100);
}

#[test]
fn connect_with_invalid_text_falls_back_to_unknown() {
    let mut reg = Registry::new();
    // 0xFF 0xFE is not valid UTF-8, so the label defaults
    let assigned = connect(&mut reg, &[0xFF, 0xFE], addr(1, 1), 0, 5);
    assert_eq!(assigned, 5);
    assert_eq!(reg.lookup(5).unwrap().device_type, b"Unknown".to_vec());
}

#[test]
fn connect_with_empty_payload_keeps_empty_label() {
    let mut reg = Registry::new();
    connect(&mut reg, b"", addr(1, 1), 0, 5);
    assert_eq!(reg.lookup(5).unwrap().device_type, b"".to_vec());
}

#[test]
fn scenario_two_clients_see_each_other_in_the_list() {
    let mut reg = Registry::new();
    let id_a = connect(&mut reg, b"Desktop", addr(1, 1000), 0, 111);
    let id_b = connect(&mut reg, b"Phone", addr(2, 2000), 1, 222);
    let reply = handle_datagram(&mut reg, &build_list_request(), addr(1, 1000), 2, 0)
        .expect("list request always answers when the list fits");
    let mut ids = match poll_list_reply(&reply) {
        ListWait::Reply(ids) => ids,
        ListWait::Skipped => panic!("a list reply must not be skipped"),
    };
    ids.sort();
    let mut expected = vec![id_a, id_b];
    expected.sort();
    assert_eq!(ids, expected);
}

#[test]
fn scenario_info_request_reports_address_and_label() {
    let mut reg = Registry::new();
    let src_b = addr(0xBB, 2000);
    let _id_a = connect(&mut reg, b"Desktop", addr(0xAA, 1000), 0, 111);
    let id_b = connect(&mut reg, b"Phone", src_b, 1, 222);
    let reply = handle_datagram(&mut reg, &build_info_request(id_b), addr(0xAA, 1000), 2, 0)
        .expect("info for a known identity answers");
    match poll_info_reply(&reply) {
        InfoWait::Reply(address, label) => {
            assert_eq!(address, src_b);
            assert_eq!(label, b"Phone".to_vec());
        },
        InfoWait::Skipped => panic!("an info reply must not be skipped"),
    }
}

#[test]
fn scenario_info_request_for_unknown_identity_is_dropped() {
    let mut reg = Registry::new();
    connect(&mut reg, b"Desktop", addr(0xAA, 1000), 0, 111);
    // no reply at all: the documented gap, asserted as absence
    let reply = handle_datagram(&mut reg, &build_info_request(999), addr(0xAA, 1000), 2, 0);
    assert!(reply.is_none());
}

#[test]
fn scenario_ping_from_unknown_identity_still_gets_ack() {
    let mut reg = Registry::new();
    let reply = handle_datagram(&mut reg, &build_ping(424242), addr(9, 9), 5, 0)
        .expect("ping always answers");
    let ack = decode_envelope(&reply).expect("ack decodes");
    assert_eq!(ack.packet_type, PacketType::PingAck);
    assert!(ack.payload.is_empty());
    // no record appears for the unknown identity
    assert!(reg.snapshot_identities().is_empty());
}

#[test]
fn ping_refreshes_known_identity() {
    let mut reg = Registry::new();
    let id = connect(&mut reg, b"Desktop", addr(1, 1), 0, 77);
    let reply = handle_datagram(&mut reg, &build_ping(id), addr(1, 1), 14, 0);
    assert!(reply.is_some());
    assert_eq!(reg.lookup(id).unwrap().last_seen, 14);
}

#[test]
fn scenario_silent_client_is_evicted_and_leaves_the_list() {
    let mut reg = Registry::new();
    let quiet = connect(&mut reg, b"Desktop", addr(1, 1), 0, 1);
    let noisy = connect(&mut reg, b"Phone", addr(2, 2), 0, 2);
    // the noisy client heartbeats; the quiet one never does
    handle_datagram(&mut reg, &build_ping(noisy), addr(2, 2), 10, 0);
    // TTL elapses for the quiet client and one sweep pass runs
    let removed = reg.sweep(15, 16);
    assert_eq!(removed, vec![quiet]);
    let reply = handle_datagram(&mut reg, &build_list_request(), addr(2, 2), 17, 0)
        .expect("list fits");
    match poll_list_reply(&reply) {
        ListWait::Reply(ids) => assert_eq!(ids, vec![noisy]),
        ListWait::Skipped => panic!("a list reply must not be skipped"),
    }
}

#[test]
fn undecodable_datagrams_are_dropped_without_reply() {
    let mut reg = Registry::new();
    connect(&mut reg, b"Desktop", addr(1, 1), 0, 1);
    assert!(handle_datagram(&mut reg, &vec![], addr(1, 1), 1, 0).is_none());
    assert!(handle_datagram(&mut reg, &vec![42u8, 0], addr(1, 1), 1, 0).is_none());
    assert!(handle_datagram(&mut reg, &vec![0u8; MAX_DATAGRAM + 1], addr(1, 1), 1, 0).is_none());
    // a ping whose payload is not one identity is dropped too
    assert!(handle_datagram(&mut reg, &vec![6u8, 1, 2, 3], addr(1, 1), 1, 0).is_none());
    // the registry is untouched by any of them
    assert_eq!(reg.snapshot_identities(), vec![1u128]);
}

#[test]
fn server_ignores_reply_kinds_arriving_inbound() {
    let mut reg = Registry::new();
    // a stray ConnectResponse aimed at the server is logged and dropped
    assert!(handle_datagram(&mut reg, &vec![1u8; 17], addr(1, 1), 0, 0).is_none());
    assert!(handle_datagram(&mut reg, &vec![7u8], addr(1, 1), 0, 0).is_none());
    assert!(reg.snapshot_identities().is_empty());
}

#[test]
fn serve_datagram_mints_distinct_identities() {
    let mut reg = Registry::new();
    let dgram = build_connect_request(&b"Desktop".to_vec());
    let first = serve_datagram(&mut reg, &dgram, addr(1, 1), 0).expect("connect answers");
    let second = serve_datagram(&mut reg, &dgram, addr(1, 2), 1).expect("connect answers");
    let id_a = parse_connect_response(&first).expect("identity in reply");
    let id_b = parse_connect_response(&second).expect("identity in reply");
    assert_ne!(id_a, id_b);
    let mut ids = reg.snapshot_identities();
    ids.sort();
    let mut expected = vec![id_a, id_b];
    expected.sort();
    assert_eq!(ids, expected);
}

#[test]
fn client_waits_through_interleaved_acks() {
    // while waiting for a list reply the session skips a PingAck, an
    // unexpected kind and an undecodable datagram, then takes the answer
    assert!(matches!(poll_list_reply(&vec![7u8]), ListWait::Skipped));
    assert!(matches!(poll_list_reply(&vec![1u8; 17]), ListWait::Skipped));
    assert!(matches!(poll_list_reply(&vec![99u8, 0]), ListWait::Skipped));
    assert!(matches!(poll_info_reply(&vec![7u8]), InfoWait::Skipped));
    let mut reg = Registry::new();
    let id = connect(&mut reg, b"Desktop", addr(1, 1), 0, 3);
    let reply = handle_datagram(&mut reg, &build_list_request(), addr(1, 1), 1, 0).unwrap();
    match poll_list_reply(&reply) {
        ListWait::Reply(ids) => assert_eq!(ids, vec![id]),
        ListWait::Skipped => panic!("the real answer must be taken"),
    }
}

#[test]
fn request_datagram_bytes_are_exact() {
    assert_eq!(build_list_request(), vec![2u8]);
    let ping = build_ping(0x0102);
    assert_eq!(ping[0], 6u8);
    assert_eq!(&ping[1..], &[0x02, 0x01, 0, 0, 0, 0, 0, 0, 0, 0, 0, 0, 0, 0, 0, 0]);
    let connect_dgram = build_connect_request(&b"Desktop".to_vec());
    assert_eq!(connect_dgram[0], 0u8);
    assert_eq!(&connect_dgram[1..], b"Desktop");
    let info = build_info_request(1);
    assert_eq!(info[0], 4u8);
    assert_eq!(info.len(), 17);
    let parsed = decode_identity(&info[1..].to_vec()).unwrap();
    assert_eq!(parsed, 1);
}

#[test]
fn oversized_client_list_is_withheld() {
    let mut reg = Registry::new();
    // 128 identities need 1 + 2048 bytes: one over the datagram limit
    for i in 0..128u128 {
        connect(&mut reg, b"X", addr(1, 1), 0, i + 1);
    }
    assert!(handle_datagram(&mut reg, &build_list_request(), addr(1, 1), 1, 0).is_none());
    // at 127 identities the reply fits again
    let removed = reg.sweep(0, 1);
    assert_eq!(removed.len(), 128);
    for i in 0..127u128 {
        connect(&mut reg, b"X", addr(1, 1), 2, i + 1);
    }
    let reply = handle_datagram(&mut reg, &build_list_request(), addr(1, 1), 2, 0);
    assert!(reply.is_some());
    assert_eq!(reply.unwrap().len(), 1 + 127 * 16);
}
