//! The server dispatcher: one step of the receive loop.
//!
//! The dispatcher is a state machine over the inbound message kind, stateless
//! across datagrams except through the registry. The surrounding loop (socket
//! reads, clock samples, sends) hands each inbound datagram, its source
//! address and a clock sample to `serve_datagram` and sends whatever reply
//! comes back to that source address — never to an address taken from the
//! payload, which would open a trivial redirection spoof.

use vstd::prelude::*;
use crate::protocol::{
    Packet, PacketType, NetAddress, ClientInfo, ClientRecord, MAX_DATAGRAM,
};
use crate::codec::{
    DecodeError, IDENTITY_BYTES, spec_identity_bytes, spec_decode_identity,
    spec_identity_list_bytes, spec_client_info_bytes, spec_decode_envelope, spec_envelope_bytes,
    decode_envelope, encode_envelope, encode_identity, decode_identity, encode_identity_list,
    encode_client_info, lemma_envelope_round_trip, lemma_identity_codec_inverse,
    lemma_identity_list_bytes_len,
};
use crate::registry::{Registry, spec_touched};

verus! {

/// Seconds a record may go without a heartbeat before the sweeper evicts it.
pub const DEFAULT_TTL: u64 = 15;

/// Seconds between two sweep passes; well under the TTL, so a client
/// tolerates two to three lost heartbeats before a false eviction.
pub const DEFAULT_SWEEP_INTERVAL: u64 = 10;

/// The fallback device label, `Unknown`, used when a connect payload is
/// absent or not valid text.
pub open spec fn spec_default_label() -> Seq<u8> {
    seq![85u8, 110u8, 107u8, 110u8, 111u8, 119u8, 110u8]
}

/// The fallback device label as bytes.
pub fn default_label() -> (out: Vec<u8>)
    ensures
        out@ == spec_default_label(),
{
    let mut out: Vec<u8> = Vec::new();
    out.push(85);
    out.push(110);
    out.push(107);
    out.push(110);
    out.push(111);
    out.push(119);
    out.push(110);
    proof {
        assert(out@ =~= spec_default_label());
    }
    out
}

/// Whether a byte sequence is valid UTF-8 text; a function of the bytes
/// alone.
pub uninterp spec fn is_utf8(bytes: Seq<u8>) -> bool;

/// Relies on core::str::from_utf8: it succeeds exactly on valid UTF-8 input,
/// and validity depends on the bytes alone.
#[verifier::external_body]
fn utf8_check(bytes: &Vec<u8>) -> (r: bool)
    ensures
        r == is_utf8(bytes@),
{
    core::str::from_utf8(bytes.as_slice()).is_ok()
}

/// Relies on uuid::Uuid::new_v4 (via Uuid::as_u128): a freshly generated
/// random 128-bit identifier. Nothing is promised of the value.
#[verifier::external_body]
fn fresh_identity() -> (id: u128)
{
    uuid::Uuid::new_v4().as_u128()
}

/// The device label a connect payload yields: the payload itself when it is
/// valid text, the fallback otherwise.
pub open spec fn spec_label_of(payload: Seq<u8>) -> Seq<u8> {
    if is_utf8(payload) {
        payload
    } else {
        spec_default_label()
    }
}

/// The record a connect request from `src` at `now` creates.
pub open spec fn spec_connect_record(src: NetAddress, payload: Seq<u8>, now: u64) -> ClientRecord {
    ClientRecord { address: src, device_type: spec_label_of(payload), last_seen: now }
}

/// `reply` answers a list request against registry `reg` through `ids`: some
/// duplicate-free enumeration of exactly the registered identities, sent when
/// it fits in a datagram and withheld when it does not.
pub open spec fn spec_is_list_reply(
    reg: Map<u128, ClientRecord>,
    ids: Seq<u128>,
    reply: Option<Seq<u8>>,
) -> bool {
    &&& (forall|id: u128| ids.contains(id) <==> reg.dom().contains(id))
    &&& (forall|a: int, b: int| 0 <= a < b < ids.len() ==> ids[a] != ids[b])
    &&& reply == (if 1 + IDENTITY_BYTES * ids.len() <= MAX_DATAGRAM {
        Some(spec_envelope_bytes(PacketType::ClientListResponse, spec_identity_list_bytes(ids)))
    } else {
        None::<Seq<u8>>
    })
}

/// One dispatch step: how the registry moves from `reg0` to `reg1` and what
/// reply, if any, goes back to the datagram's source.
///
/// An undecodable datagram is logged and dropped. A connect always succeeds
/// and answers with the minted identity. A list request answers with the
/// registered identities, order unspecified. An info request for an unknown
/// identity is dropped with no negative acknowledgement — a known design gap
/// kept as observed behaviour, not an endorsement. A ping always answers
/// PingAck, whether or not the identity is known; an unknown identity adds no
/// record. Replies that would exceed the datagram limit are withheld, never
/// fragmented.
pub open spec fn spec_server_step(
    reg0: Map<u128, ClientRecord>,
    dgram: Seq<u8>,
    src: NetAddress,
    now: u64,
    fresh: u128,
    reg1: Map<u128, ClientRecord>,
    reply: Option<Seq<u8>>,
) -> bool {
    match spec_decode_envelope(dgram) {
        Err(_) => reg1 == reg0 && reply is None,
        Ok(env) => match env.packet_type {
            PacketType::ConnectRequest => {
                &&& reg1 == reg0.insert(fresh, spec_connect_record(src, env.payload, now))
                &&& reply == Some(
                    spec_envelope_bytes(PacketType::ConnectResponse, spec_identity_bytes(fresh)),
                )
            },
            PacketType::ClientListRequest => {
                &&& reg1 == reg0
                &&& exists|ids: Seq<u128>| #[trigger] spec_is_list_reply(reg0, ids, reply)
            },
            PacketType::ClientInfoRequest => {
                &&& reg1 == reg0
                &&& match spec_decode_identity(env.payload) {
                    Err(_) => reply is None,
                    Ok(target) => if reg0.dom().contains(target) {
                        if 19 + reg0[target].device_type.len() <= MAX_DATAGRAM {
                            reply == Some(
                                spec_envelope_bytes(
                                    PacketType::ClientInfoResponse,
                                    spec_client_info_bytes(
                                        reg0[target].address,
                                        reg0[target].device_type,
                                    ),
                                ),
                            )
                        } else {
                            reply is None
                        }
                    } else {
                        reply is None
                    },
                }
            },
            PacketType::Ping => {
                match spec_decode_identity(env.payload) {
                    Err(_) => reg1 == reg0 && reply is None,
                    Ok(id) => {
                        &&& reg1 == (if reg0.dom().contains(id) {
                            spec_touched(reg0, id, now)
                        } else {
                            reg0
                        })
                        &&& reply == Some(
                            spec_envelope_bytes(PacketType::PingAck, Seq::<u8>::empty()),
                        )
                    },
                }
            },
            _ => reg1 == reg0 && reply is None,
        },
    }
}

/// The model of an optional reply datagram.
pub open spec fn spec_opt_bytes(r: Option<Vec<u8>>) -> Option<Seq<u8>> {
    match r {
        Some(v) => Some(v@),
        None => None,
    }
}

/// Classify one inbound datagram and drive the registry and the reply, with
/// the minted identity handed in. Deterministic: the step relation pins the
/// new registry and the reply bytes for every input.
pub fn handle_datagram(
    reg: &mut Registry,
    dgram: &Vec<u8>,
    src: NetAddress,
    now: u64,
    fresh: u128,
) -> (reply: Option<Vec<u8>>)
    requires
        old(reg).wf(),
    ensures
        final(reg).wf(),
        spec_server_step(old(reg)@, dgram@, src, now, fresh, final(reg)@, spec_opt_bytes(reply)),
{
    let packet = match decode_envelope(dgram) {
        Ok(p) => p,
        Err(_) => {
            return None;
        },
    };
    match packet.packet_type {
        PacketType::ConnectRequest => {
            let valid = utf8_check(&packet.payload);
            let device_type = if valid {
                packet.payload
            } else {
                default_label()
            };
            let info = ClientInfo { address: src, device_type, last_seen: now };
            reg.insert(fresh, info);
            let response = Packet {
                packet_type: PacketType::ConnectResponse,
                payload: encode_identity(fresh),
            };
            Some(encode_envelope(&response))
        },
        PacketType::ClientListRequest => {
            let ids = reg.snapshot_identities();
            if ids.len() <= (MAX_DATAGRAM - 1) / IDENTITY_BYTES {
                let payload = encode_identity_list(&ids);
                let response = Packet { packet_type: PacketType::ClientListResponse, payload };
                let encoded = encode_envelope(&response);
                proof {
                    assert(spec_is_list_reply(reg@, ids@, spec_opt_bytes(Some(encoded))));
                }
                Some(encoded)
            } else {
                proof {
                    lemma_identity_list_bytes_len(ids@);
                    assert(spec_is_list_reply(reg@, ids@, spec_opt_bytes(None::<Vec<u8>>)));
                }
                None
            }
        },
        PacketType::ClientInfoRequest => {
            let target = match decode_identity(&packet.payload) {
                Ok(t) => t,
                Err(_) => {
                    return None;
                },
            };
            match reg.lookup(target) {
                Some(info) => {
                    if info.device_type.len() <= MAX_DATAGRAM - 19 {
                        let payload = encode_client_info(info.address, &info.device_type);
                        let response = Packet {
                            packet_type: PacketType::ClientInfoResponse,
                            payload,
                        };
                        Some(encode_envelope(&response))
                    } else {
                        None
                    }
                },
                None => {
                    // lookup miss: silently dropped, no negative acknowledgement
                    // (a documented gap of the protocol, preserved as observed)
                    None
                },
            }
        },
        PacketType::Ping => {
            let id = match decode_identity(&packet.payload) {
                Ok(t) => t,
                Err(_) => {
                    return None;
                },
            };
            let _known = reg.touch(id, now);
            let response = Packet { packet_type: PacketType::PingAck, payload: Vec::new() };
            let encoded = encode_envelope(&response);
            proof {
                assert(response@.payload =~= Seq::<u8>::empty());
            }
            Some(encoded)
        },
        _ => None,
    }
}

/// Handle one inbound datagram, minting a fresh identity for a possible
/// connect. The registry and reply follow the step relation for whatever
/// identity was minted.
pub fn serve_datagram(
    reg: &mut Registry,
    dgram: &Vec<u8>,
    src: NetAddress,
    now: u64,
) -> (reply: Option<Vec<u8>>)
    requires
        old(reg).wf(),
    ensures
        final(reg).wf(),
        exists|fresh: u128|
            #[trigger] spec_server_step(
                old(reg)@,
                dgram@,
                src,
                now,
                fresh,
                final(reg)@,
                spec_opt_bytes(reply),
            ),
{
    let fresh = fresh_identity();
    handle_datagram(reg, dgram, src, now, fresh)
}

/// The connect response built for a minted identity reads back as exactly
/// that identity.
pub proof fn lemma_connect_response_identity(fresh: u128)
    ensures
        spec_decode_envelope(
            spec_envelope_bytes(PacketType::ConnectResponse, spec_identity_bytes(fresh)),
        ) matches Ok(env) && env.packet_type == PacketType::ConnectResponse
            && spec_decode_identity(env.payload) == Ok::<u128, DecodeError>(fresh),
{
    let m = crate::protocol::PacketModel {
        packet_type: PacketType::ConnectResponse,
        payload: spec_identity_bytes(fresh),
    };
    lemma_envelope_round_trip(m);
    lemma_identity_codec_inverse(fresh);
}

/// A connect handshake, end to end: after a dispatch step on a connect
/// datagram, the registry holds the minted identity under a record built
/// from the datagram's source and label, and the reply carries that
/// identity back to the client verbatim.
pub proof fn lemma_connect_step(
    reg0: Map<u128, ClientRecord>,
    dgram: Seq<u8>,
    src: NetAddress,
    now: u64,
    fresh: u128,
    reg1: Map<u128, ClientRecord>,
    reply: Option<Seq<u8>>,
)
    requires
        spec_server_step(reg0, dgram, src, now, fresh, reg1, reply),
        spec_decode_envelope(dgram) matches Ok(env) && env.packet_type
            == PacketType::ConnectRequest,
    ensures
        reg1.dom().contains(fresh),
        reg1[fresh] == spec_connect_record(
            src,
            spec_decode_envelope(dgram)->Ok_0.payload,
            now,
        ),
        reply matches Some(bytes) && (spec_decode_envelope(bytes) matches Ok(env)
            && env.packet_type == PacketType::ConnectResponse && spec_decode_identity(env.payload)
            == Ok::<u128, DecodeError>(fresh)),
{
    lemma_connect_response_identity(fresh);
}

/// The registry after a run of connect steps, each inserting the record
/// built for its minted identity.
pub open spec fn spec_after_connects(
    reg: Map<u128, ClientRecord>,
    steps: Seq<(u128, ClientRecord)>,
) -> Map<u128, ClientRecord>
    decreases steps.len(),
{
    if steps.len() == 0 {
        reg
    } else {
        spec_after_connects(reg, steps.drop_last()).insert(steps.last().0, steps.last().1)
    }
}

/// Sequential connects accumulate: after a run of connect steps, every
/// minted identity is registered.
pub proof fn lemma_connect_run_registers_all(
    reg: Map<u128, ClientRecord>,
    steps: Seq<(u128, ClientRecord)>,
    i: int,
)
    requires
        0 <= i < steps.len(),
    ensures
        spec_after_connects(reg, steps).dom().contains(steps[i].0),
    decreases steps.len(),
{
    if i < steps.len() - 1 {
        lemma_connect_run_registers_all(reg, steps.drop_last(), i);
    }
}

/// Identity uniqueness: over sequential connect handshakes handled by one
/// server instance, the assigned identities — each read back from its
/// connect response — are pairwise distinct whenever the minted values are.
/// Minting is random, so a collision among minted values is the one input
/// left out.
pub proof fn lemma_identity_uniqueness(minted: Seq<u128>)
    requires
        forall|i: int, j: int| 0 <= i < j < minted.len() ==> minted[i] != minted[j],
    ensures
        forall|i: int|
            0 <= i < minted.len() ==> spec_decode_identity(
                spec_identity_bytes(#[trigger] minted[i]),
            ) == Ok::<u128, DecodeError>(minted[i]),
        forall|i: int, j: int|
            0 <= i < j < minted.len() ==> spec_identity_bytes(minted[i]) != spec_identity_bytes(
                minted[j],
            ),
{
    assert forall|i: int|
        0 <= i < minted.len() implies spec_decode_identity(
        spec_identity_bytes(#[trigger] minted[i]),
    ) == Ok::<u128, DecodeError>(minted[i]) by {
        lemma_identity_codec_inverse(minted[i]);
    }
    assert forall|i: int, j: int|
        0 <= i < j < minted.len() implies spec_identity_bytes(minted[i])
        != spec_identity_bytes(minted[j]) by {
        lemma_identity_codec_inverse(minted[i]);
        lemma_identity_codec_inverse(minted[j]);
    }
}

} // verus!
