//! The client session's decisions: building requests and classifying what
//! arrives while waiting for an answer.
//!
//! The session sequence — connect, then a periodic heartbeat beside
//! request/response operations on the same socket — lives in the surrounding
//! loop. These functions make every decision in it: what bytes each request
//! carries, what a received datagram means, and when to keep waiting.
//! Datagrams may be lost, duplicated or reordered, so while waiting for an
//! answer the session skips interleaved PingAcks, unexpected kinds and
//! malformed datagrams rather than treating them as terminal.

use vstd::prelude::*;
use crate::protocol::{Packet, PacketType, NetAddress, MAX_DATAGRAM};
use crate::codec::{
    spec_identity_bytes, spec_decode_identity, spec_decode_identity_list, spec_decode_client_info,
    spec_decode_envelope, spec_envelope_bytes, spec_identity_list_bytes, spec_client_info_bytes,
    decode_envelope, encode_envelope, encode_identity, decode_identity, decode_identity_list,
    decode_client_info, copy_bytes, IDENTITY_BYTES, lemma_envelope_round_trip,
    lemma_identity_list_bytes_len, lemma_identity_list_codec_inverse,
    lemma_client_info_codec_inverse,
};

verus! {

/// Seconds between two heartbeat pings.
pub const HEARTBEAT_INTERVAL: u64 = 5;

/// The connect handshake datagram, carrying the device label as its payload.
pub fn build_connect_request(label: &Vec<u8>) -> (out: Vec<u8>)
    requires
        label@.len() + 1 <= MAX_DATAGRAM,
    ensures
        out@ == spec_envelope_bytes(PacketType::ConnectRequest, label@),
{
    let packet = Packet { packet_type: PacketType::ConnectRequest, payload: copy_bytes(label) };
    encode_envelope(&packet)
}

/// The heartbeat datagram carrying the session's identity.
pub fn build_ping(id: u128) -> (out: Vec<u8>)
    ensures
        out@ == spec_envelope_bytes(PacketType::Ping, spec_identity_bytes(id)),
{
    let packet = Packet { packet_type: PacketType::Ping, payload: encode_identity(id) };
    encode_envelope(&packet)
}

/// The list request datagram; it carries nothing.
pub fn build_list_request() -> (out: Vec<u8>)
    ensures
        out@ == spec_envelope_bytes(PacketType::ClientListRequest, Seq::<u8>::empty()),
{
    let packet = Packet { packet_type: PacketType::ClientListRequest, payload: Vec::new() };
    let out = encode_envelope(&packet);
    proof {
        assert(packet@.payload =~= Seq::<u8>::empty());
    }
    out
}

/// The info request datagram naming the identity asked about.
pub fn build_info_request(target: u128) -> (out: Vec<u8>)
    ensures
        out@ == spec_envelope_bytes(PacketType::ClientInfoRequest, spec_identity_bytes(target)),
{
    let packet = Packet { packet_type: PacketType::ClientInfoRequest, payload: encode_identity(target) };
    encode_envelope(&packet)
}

/// What the handshake's answer yields: the assigned identity when the
/// datagram is a well-formed ConnectResponse, nothing otherwise.
pub fn parse_connect_response(dgram: &Vec<u8>) -> (r: Option<u128>)
    ensures
        r == (match spec_decode_envelope(dgram@) {
            Ok(env) => (match (env.packet_type, spec_decode_identity(env.payload)) {
                (PacketType::ConnectResponse, Ok(id)) => Some(id),
                _ => None::<u128>,
            }),
            Err(_) => None::<u128>,
        }),
{
    let packet = match decode_envelope(dgram) {
        Ok(p) => p,
        Err(_) => {
            return None;
        },
    };
    match packet.packet_type {
        PacketType::ConnectResponse => match decode_identity(&packet.payload) {
            Ok(id) => Some(id),
            Err(_) => None,
        },
        _ => None,
    }
}

/// What one received datagram means while a list answer is awaited.
pub enum ListWait {
    /// The answer: the registered identities the server reported.
    Reply(Vec<u128>),
    /// Not the answer; keep waiting.
    Skipped,
}

/// Classify a datagram received while waiting for a ClientListResponse:
/// the first well-formed one is the answer, and everything else — the
/// heartbeat's interleaved PingAcks above all — is skipped.
pub fn poll_list_reply(dgram: &Vec<u8>) -> (r: ListWait)
    ensures
        (match spec_decode_envelope(dgram@) {
            Ok(env) => (match env.packet_type {
                PacketType::ClientListResponse => (match spec_decode_identity_list(env.payload) {
                    Ok(ids) => r matches ListWait::Reply(v) && v@ == ids,
                    Err(_) => r is Skipped,
                }),
                _ => r is Skipped,
            }),
            Err(_) => r is Skipped,
        }),
{
    let packet = match decode_envelope(dgram) {
        Ok(p) => p,
        Err(_) => {
            return ListWait::Skipped;
        },
    };
    match packet.packet_type {
        PacketType::ClientListResponse => match decode_identity_list(&packet.payload) {
            Ok(ids) => ListWait::Reply(ids),
            Err(_) => ListWait::Skipped,
        },
        _ => ListWait::Skipped,
    }
}

/// What one received datagram means while an info answer is awaited.
pub enum InfoWait {
    /// The answer: the target's address and device label.
    Reply(NetAddress, Vec<u8>),
    /// Not the answer; keep waiting.
    Skipped,
}

/// Classify a datagram received while waiting for a ClientInfoResponse, with
/// the same skipping rule as the list wait.
pub fn poll_info_reply(dgram: &Vec<u8>) -> (r: InfoWait)
    ensures
        (match spec_decode_envelope(dgram@) {
            Ok(env) => (match env.packet_type {
                PacketType::ClientInfoResponse => (match spec_decode_client_info(env.payload) {
                    Ok(pair) => r matches InfoWait::Reply(address, label) && address == pair.0
                        && label@ == pair.1,
                    Err(_) => r is Skipped,
                }),
                _ => r is Skipped,
            }),
            Err(_) => r is Skipped,
        }),
{
    let packet = match decode_envelope(dgram) {
        Ok(p) => p,
        Err(_) => {
            return InfoWait::Skipped;
        },
    };
    match packet.packet_type {
        PacketType::ClientInfoResponse => match decode_client_info(&packet.payload) {
            Ok(pair) => InfoWait::Reply(pair.0, pair.1),
            Err(_) => InfoWait::Skipped,
        },
        _ => InfoWait::Skipped,
    }
}

/// A list reply built from `ids` reads back as exactly `ids`: what the
/// server sends for its snapshot, the waiting client decodes unchanged.
pub proof fn lemma_list_reply_round_trip(ids: Seq<u128>)
    requires
        1 + IDENTITY_BYTES * ids.len() <= MAX_DATAGRAM,
    ensures
        spec_decode_envelope(
            spec_envelope_bytes(PacketType::ClientListResponse, spec_identity_list_bytes(ids)),
        ) matches Ok(env) && env.packet_type == PacketType::ClientListResponse
            && spec_decode_identity_list(env.payload) == Ok::<
            Seq<u128>,
            crate::codec::DecodeError,
        >(ids),
{
    lemma_identity_list_bytes_len(ids);
    let m = crate::protocol::PacketModel {
        packet_type: PacketType::ClientListResponse,
        payload: spec_identity_list_bytes(ids),
    };
    lemma_envelope_round_trip(m);
    lemma_identity_list_codec_inverse(ids);
    assert(spec_identity_list_bytes(ids).len() % (IDENTITY_BYTES as nat) == 0) by (nonlinear_arith)
        requires
            spec_identity_list_bytes(ids).len() == IDENTITY_BYTES * ids.len(),
    ;
}

/// An info reply built from an address and label reads back as exactly that
/// pair: what the server holds for a client, the asker decodes unchanged.
pub proof fn lemma_info_reply_round_trip(address: NetAddress, label: Seq<u8>)
    requires
        19 + label.len() <= MAX_DATAGRAM,
    ensures
        spec_decode_envelope(
            spec_envelope_bytes(
                PacketType::ClientInfoResponse,
                spec_client_info_bytes(address, label),
            ),
        ) matches Ok(env) && env.packet_type == PacketType::ClientInfoResponse
            && spec_decode_client_info(env.payload) == Ok::<
            (NetAddress, Seq<u8>),
            crate::codec::DecodeError,
        >((address, label)),
{
    let m = crate::protocol::PacketModel {
        packet_type: PacketType::ClientInfoResponse,
        payload: spec_client_info_bytes(address, label),
    };
    lemma_envelope_round_trip(m);
    lemma_client_info_codec_inverse(address, label);
}

} // verus!
