//! Message kinds, the packet envelope, network addresses and client records.

use vstd::prelude::*;

verus! {

/// Largest datagram the transport will carry; longer messages are rejected,
/// never fragmented.
pub const MAX_DATAGRAM: usize = 2048;

/// The closed set of message kinds carried on the wire. Extending it is a
/// protocol version bump.
#[derive(Clone, Copy, Debug, PartialEq, Eq, Structural)]
pub enum PacketType {
    ConnectRequest,
    ConnectResponse,
    ClientListRequest,
    ClientListResponse,
    ClientInfoRequest,
    ClientInfoResponse,
    Ping,
    PingAck,
}

/// The wire tag of each message kind.
pub open spec fn spec_tag_of(kind: PacketType) -> u8 {
    match kind {
        PacketType::ConnectRequest => 0,
        PacketType::ConnectResponse => 1,
        PacketType::ClientListRequest => 2,
        PacketType::ClientListResponse => 3,
        PacketType::ClientInfoRequest => 4,
        PacketType::ClientInfoResponse => 5,
        PacketType::Ping => 6,
        PacketType::PingAck => 7,
    }
}

/// The message kind named by a wire tag, if any.
pub open spec fn spec_kind_of_tag(tag: u8) -> Option<PacketType> {
    if tag == 0 {
        Some(PacketType::ConnectRequest)
    } else if tag == 1 {
        Some(PacketType::ConnectResponse)
    } else if tag == 2 {
        Some(PacketType::ClientListRequest)
    } else if tag == 3 {
        Some(PacketType::ClientListResponse)
    } else if tag == 4 {
        Some(PacketType::ClientInfoRequest)
    } else if tag == 5 {
        Some(PacketType::ClientInfoResponse)
    } else if tag == 6 {
        Some(PacketType::Ping)
    } else if tag == 7 {
        Some(PacketType::PingAck)
    } else {
        None
    }
}

/// Tags name kinds uniquely: reading back the tag of any kind yields that kind.
pub proof fn lemma_tag_round_trip(kind: PacketType)
    ensures
        spec_kind_of_tag(spec_tag_of(kind)) == Some(kind),
{
}

pub fn tag_of(kind: PacketType) -> (tag: u8)
    ensures
        tag == spec_tag_of(kind),
{
    match kind {
        PacketType::ConnectRequest => 0,
        PacketType::ConnectResponse => 1,
        PacketType::ClientListRequest => 2,
        PacketType::ClientListResponse => 3,
        PacketType::ClientInfoRequest => 4,
        PacketType::ClientInfoResponse => 5,
        PacketType::Ping => 6,
        PacketType::PingAck => 7,
    }
}

pub fn kind_of_tag(tag: u8) -> (kind: Option<PacketType>)
    ensures
        kind == spec_kind_of_tag(tag),
{
    if tag == 0 {
        Some(PacketType::ConnectRequest)
    } else if tag == 1 {
        Some(PacketType::ConnectResponse)
    } else if tag == 2 {
        Some(PacketType::ClientListRequest)
    } else if tag == 3 {
        Some(PacketType::ClientListResponse)
    } else if tag == 4 {
        Some(PacketType::ClientInfoRequest)
    } else if tag == 5 {
        Some(PacketType::ClientInfoResponse)
    } else if tag == 6 {
        Some(PacketType::Ping)
    } else if tag == 7 {
        Some(PacketType::PingAck)
    } else {
        None
    }
}

/// The mathematical value of a packet: its kind and the payload bytes.
pub struct PacketModel {
    pub packet_type: PacketType,
    pub payload: Seq<u8>,
}

/// A message envelope: a kind tag and an opaque payload whose interpretation
/// depends on the kind.
pub struct Packet {
    pub packet_type: PacketType,
    pub payload: Vec<u8>,
}

impl View for Packet {
    type V = PacketModel;

    open spec fn view(&self) -> PacketModel {
        PacketModel { packet_type: self.packet_type, payload: self.payload@ }
    }
}

impl Packet {
    /// A well-formed envelope fits in one datagram once the tag byte is added.
    pub open spec fn wf(&self) -> bool {
        self.payload@.len() + 1 <= MAX_DATAGRAM
    }
}

/// A network address as observed on an inbound datagram: the IP as a 128-bit
/// value (IPv4 addresses in their IPv4-mapped form) and the UDP port.
#[derive(Clone, Copy, Debug, PartialEq, Eq, Structural)]
pub struct NetAddress {
    pub ip: u128,
    pub port: u16,
}

/// One registered client: where it talks from, what it called itself at
/// connect time, and the monotonic clock sample of its last sign of life.
pub struct ClientInfo {
    pub address: NetAddress,
    pub device_type: Vec<u8>,
    pub last_seen: u64,
}

/// The mathematical value of a client record.
pub ghost struct ClientRecord {
    pub address: NetAddress,
    pub device_type: Seq<u8>,
    pub last_seen: u64,
}

impl View for ClientInfo {
    type V = ClientRecord;

    open spec fn view(&self) -> ClientRecord {
        ClientRecord {
            address: self.address,
            device_type: self.device_type@,
            last_seen: self.last_seen,
        }
    }
}

} // verus!
