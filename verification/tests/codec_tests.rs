use presence_registry::codec::{
    decode_client_info, decode_envelope, decode_identity, decode_identity_list,
    encode_client_info, encode_envelope, encode_identity, encode_identity_list, DecodeError,
};
use presence_registry::protocol::{NetAddress, Packet, PacketType, MAX_DATAGRAM};

fn round_trip(kind: PacketType, payload: Vec<u8>) {
    let packet = Packet { packet_type: kind, payload: payload.clone() };
    let encoded = encode_envelope(&packet);
    assert_eq!(encoded.len(), payload.len() + 1);
    let decoded = decode_envelope(&encoded).expect("round trip must decode");
    assert_eq!(decoded.packet_type, kind);
    assert_eq!(decoded.payload, payload);
}

#[test]
fn envelope_round_trip_every_kind() {
    round_trip(PacketType::ConnectRequest, b"Desktop".to_vec());
    round_trip(PacketType::ConnectResponse, vec![7u8; 16]);
    round_trip(PacketType::ClientListRequest, vec![]);
    round_trip(PacketType::ClientListResponse, vec![1u8; 32]);
    round_trip(PacketType::ClientInfoRequest, vec![9u8; 16]);
    round_trip(PacketType::ClientInfoResponse, vec![3u8; 25]);
    round_trip(PacketType::Ping, vec![5u8; 16]);
    round_trip(PacketType::PingAck, vec![]);
}

#[test]
fn envelope_round_trip_largest_payload() {
    round_trip(PacketType::ConnectRequest, vec![0xAB; MAX_DATAGRAM - 1]);
}

#[test]
fn envelope_decode_empty_is_truncated() {
    assert!(matches!(decode_envelope(&vec![]), Err(DecodeError::Truncated)));
}

#[test]
fn envelope_decode_unknown_tag() {
    assert!(matches!(decode_envelope(&vec![8u8, 1, 2]), Err(DecodeError::UnknownKind)));
    assert!(matches!(decode_envelope(&vec![255u8]), Err(DecodeError::UnknownKind)));
}

#[test]
fn envelope_decode_oversized_is_too_large() {
    let big = vec![0u8; MAX_DATAGRAM + 1];
    assert!(matches!(decode_envelope(&big), Err(DecodeError::TooLarge)));
}

#[test]
fn envelope_tag_bytes_are_stable() {
    let packet = Packet { packet_type: PacketType::Ping, payload: vec![0xAA, 0xBB] };
    assert_eq!(encode_envelope(&packet), vec![6u8, 0xAA, 0xBB]);
    let packet = Packet { packet_type: PacketType::ConnectRequest, payload: vec![] };
    assert_eq!(encode_envelope(&packet), vec![0u8]);
}

#[test]
fn identity_encoding_is_little_endian() {
    let id: u128 = 0x0102;
    let bytes = encode_identity(id);
    let mut expected = vec![0x02u8, 0x01];
    expected.extend_from_slice(&[0u8; 14]);
    assert_eq!(bytes, expected);
}

#[test]
fn identity_round_trip_extremes() {
    for id in [0u128, 1, 0xDEAD_BEEF, u128::MAX, 0x0123_4567_89AB_CDEF_0123_4567_89AB_CDEF] {
        let bytes = encode_identity(id);
        assert_eq!(bytes.len(), 16);
        assert_eq!(decode_identity(&bytes), Ok(id));
    }
}

#[test]
fn identity_decode_wrong_length() {
    assert_eq!(decode_identity(&vec![0u8; 15]), Err(DecodeError::BadLength));
    assert_eq!(decode_identity(&vec![0u8; 17]), Err(DecodeError::BadLength));
    assert_eq!(decode_identity(&vec![]), Err(DecodeError::BadLength));
}

#[test]
fn identity_list_round_trip() {
    let ids = vec![1u128, u128::MAX, 0, 42];
    let bytes = encode_identity_list(&ids);
    assert_eq!(bytes.len(), 64);
    assert_eq!(decode_identity_list(&bytes), Ok(ids));
}

#[test]
fn identity_list_empty_round_trip() {
    let ids: Vec<u128> = vec![];
    let bytes = encode_identity_list(&ids);
    assert!(bytes.is_empty());
    assert_eq!(decode_identity_list(&bytes), Ok(vec![]));
}

#[test]
fn identity_list_ragged_length_is_rejected() {
    assert_eq!(decode_identity_list(&vec![0u8; 15]), Err(DecodeError::BadLength));
    assert_eq!(decode_identity_list(&vec![0u8; 33]), Err(DecodeError::BadLength));
}

#[test]
fn client_info_round_trip() {
    let address = NetAddress { ip: 0xFFFF_C0A8_0101, port: 51234 };
    let label = b"Laptop".to_vec();
    let bytes = encode_client_info(address, &label);
    assert_eq!(bytes.len(), 18 + label.len());
    // port 51234 is 0xC822: low byte first
    assert_eq!((bytes[16], bytes[17]), (0x22, 0xC8));
    assert_eq!(&bytes[18..], b"Laptop");
    let (got_address, got_label) = decode_client_info(&bytes).expect("info must decode");
    assert_eq!(got_address, address);
    assert_eq!(got_label, label);
}

#[test]
fn client_info_empty_label_round_trip() {
    let address = NetAddress { ip: 1, port: 1 };
    let bytes = encode_client_info(address, &vec![]);
    assert_eq!(bytes.len(), 18);
    let (got_address, got_label) = decode_client_info(&bytes).expect("info must decode");
    assert_eq!(got_address, address);
    assert!(got_label.is_empty());
}

#[test]
fn client_info_short_payload_is_truncated() {
    assert_eq!(decode_client_info(&vec![0u8; 17]), Err(DecodeError::Truncated));
    assert_eq!(decode_client_info(&vec![]), Err(DecodeError::Truncated));
}
