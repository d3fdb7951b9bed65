//! Binary wire codec: the tagged envelope and the typed payloads.
//!
//! The scheme is deterministic and little-endian: an envelope is one tag byte
//! followed by the raw payload; identities are 16 bytes; an identity list is
//! the concatenation of 16-byte identities; client info is 16 bytes of IP,
//! 2 bytes of port, then the label bytes.

use vstd::prelude::*;
use crate::protocol::{
    Packet, PacketModel, PacketType, NetAddress, MAX_DATAGRAM, spec_tag_of, spec_kind_of_tag,
    tag_of, kind_of_tag, lemma_tag_round_trip,
};

verus! {

/// Why a byte sequence failed to decode.
#[derive(Clone, Copy, Debug, PartialEq, Eq, Structural)]
pub enum DecodeError {
    /// Too few bytes for the form being decoded.
    Truncated,
    /// The envelope's kind tag names no known message kind.
    UnknownKind,
    /// The byte sequence exceeds the maximum datagram size.
    TooLarge,
    /// The payload's length does not fit the form being decoded.
    BadLength,
}

/// Number of bytes carrying one 128-bit identity.
pub const IDENTITY_BYTES: usize = 16;

/// The 16 little-endian bytes of a 128-bit identity.
pub open spec fn spec_identity_bytes(id: u128) -> Seq<u8> {
    seq![
        id as u8,
        (id >> 8) as u8,
        (id >> 16) as u8,
        (id >> 24) as u8,
        (id >> 32) as u8,
        (id >> 40) as u8,
        (id >> 48) as u8,
        (id >> 56) as u8,
        (id >> 64) as u8,
        (id >> 72) as u8,
        (id >> 80) as u8,
        (id >> 88) as u8,
        (id >> 96) as u8,
        (id >> 104) as u8,
        (id >> 112) as u8,
        (id >> 120) as u8,
    ]
}

/// The identity held by 16 little-endian bytes.
pub open spec fn spec_identity_of_bytes(s: Seq<u8>) -> u128 {
    (s[0] as u128) | ((s[1] as u128) << 8) | ((s[2] as u128) << 16) | ((s[3] as u128) << 24)
        | ((s[4] as u128) << 32) | ((s[5] as u128) << 40) | ((s[6] as u128) << 48)
        | ((s[7] as u128) << 56) | ((s[8] as u128) << 64) | ((s[9] as u128) << 72)
        | ((s[10] as u128) << 80) | ((s[11] as u128) << 88) | ((s[12] as u128) << 96)
        | ((s[13] as u128) << 104) | ((s[14] as u128) << 112) | ((s[15] as u128) << 120)
}

/// Reading back the 16 bytes of an identity yields that identity.
pub proof fn lemma_identity_codec_inverse(id: u128)
    ensures
        spec_identity_of_bytes(spec_identity_bytes(id)) == id,
{
    let s = spec_identity_bytes(id);
    let b0 = s[0];
    let b1 = s[1];
    let b2 = s[2];
    let b3 = s[3];
    let b4 = s[4];
    let b5 = s[5];
    let b6 = s[6];
    let b7 = s[7];
    let b8 = s[8];
    let b9 = s[9];
    let b10 = s[10];
    let b11 = s[11];
    let b12 = s[12];
    let b13 = s[13];
    let b14 = s[14];
    let b15 = s[15];
    assert((b0 as u128) | ((b1 as u128) << 8) | ((b2 as u128) << 16) | ((b3 as u128) << 24)
        | ((b4 as u128) << 32) | ((b5 as u128) << 40) | ((b6 as u128) << 48)
        | ((b7 as u128) << 56) | ((b8 as u128) << 64) | ((b9 as u128) << 72)
        | ((b10 as u128) << 80) | ((b11 as u128) << 88) | ((b12 as u128) << 96)
        | ((b13 as u128) << 104) | ((b14 as u128) << 112) | ((b15 as u128) << 120) == id)
        by (bit_vector)
        requires
            b0 == id as u8 && b1 == (id >> 8) as u8 && b2 == (id >> 16) as u8
                && b3 == (id >> 24) as u8 && b4 == (id >> 32) as u8 && b5 == (id >> 40) as u8
                && b6 == (id >> 48) as u8 && b7 == (id >> 56) as u8 && b8 == (id >> 64) as u8
                && b9 == (id >> 72) as u8 && b10 == (id >> 80) as u8 && b11 == (id >> 88) as u8
                && b12 == (id >> 96) as u8 && b13 == (id >> 104) as u8
                && b14 == (id >> 112) as u8 && b15 == (id >> 120) as u8,
    ;
}

/// Encode a 128-bit identity as its 16 little-endian bytes.
pub fn encode_identity(id: u128) -> (out: Vec<u8>)
    ensures
        out@ == spec_identity_bytes(id),
{
    let mut out: Vec<u8> = Vec::new();
    out.push(#[verifier::truncate] (id as u8));
    out.push(#[verifier::truncate] ((id >> 8) as u8));
    out.push(#[verifier::truncate] ((id >> 16) as u8));
    out.push(#[verifier::truncate] ((id >> 24) as u8));
    out.push(#[verifier::truncate] ((id >> 32) as u8));
    out.push(#[verifier::truncate] ((id >> 40) as u8));
    out.push(#[verifier::truncate] ((id >> 48) as u8));
    out.push(#[verifier::truncate] ((id >> 56) as u8));
    out.push(#[verifier::truncate] ((id >> 64) as u8));
    out.push(#[verifier::truncate] ((id >> 72) as u8));
    out.push(#[verifier::truncate] ((id >> 80) as u8));
    out.push(#[verifier::truncate] ((id >> 88) as u8));
    out.push(#[verifier::truncate] ((id >> 96) as u8));
    out.push(#[verifier::truncate] ((id >> 104) as u8));
    out.push(#[verifier::truncate] ((id >> 112) as u8));
    out.push(#[verifier::truncate] ((id >> 120) as u8));
    proof {
        assert(out@ =~= spec_identity_bytes(id));
    }
    out
}

/// The identity carried by a 16-byte payload; any other length is malformed.
pub open spec fn spec_decode_identity(s: Seq<u8>) -> Result<u128, DecodeError> {
    if s.len() == IDENTITY_BYTES {
        Ok(spec_identity_of_bytes(s))
    } else {
        Err(DecodeError::BadLength)
    }
}

/// Decode a 128-bit identity from exactly 16 little-endian bytes.
pub fn decode_identity(bytes: &Vec<u8>) -> (r: Result<u128, DecodeError>)
    ensures
        r == spec_decode_identity(bytes@),
{
    if bytes.len() != IDENTITY_BYTES {
        return Err(DecodeError::BadLength);
    }
    let id: u128 = (bytes[0] as u128) | ((bytes[1] as u128) << 8) | ((bytes[2] as u128) << 16)
        | ((bytes[3] as u128) << 24) | ((bytes[4] as u128) << 32) | ((bytes[5] as u128) << 40)
        | ((bytes[6] as u128) << 48) | ((bytes[7] as u128) << 56) | ((bytes[8] as u128) << 64)
        | ((bytes[9] as u128) << 72) | ((bytes[10] as u128) << 80) | ((bytes[11] as u128) << 88)
        | ((bytes[12] as u128) << 96) | ((bytes[13] as u128) << 104)
        | ((bytes[14] as u128) << 112) | ((bytes[15] as u128) << 120);
    Ok(id)
}

/// The encoded form of an envelope: its kind tag, then the payload bytes.
pub open spec fn spec_encode_envelope(p: PacketModel) -> Seq<u8> {
    seq![spec_tag_of(p.packet_type)] + p.payload
}

/// The envelope held by a byte sequence, or why there is none: an empty
/// sequence is truncated, one beyond the datagram limit is too large, and an
/// unknown tag byte names no kind.
pub open spec fn spec_decode_envelope(s: Seq<u8>) -> Result<PacketModel, DecodeError> {
    if s.len() == 0 {
        Err(DecodeError::Truncated)
    } else if s.len() > MAX_DATAGRAM {
        Err(DecodeError::TooLarge)
    } else {
        match spec_kind_of_tag(s[0]) {
            Some(kind) => Ok(PacketModel { packet_type: kind, payload: s.skip(1) }),
            None => Err(DecodeError::UnknownKind),
        }
    }
}

/// Copy of a byte vector, element for element.
pub fn copy_bytes(src: &Vec<u8>) -> (out: Vec<u8>)
    ensures
        out@ == src@,
{
    let mut out: Vec<u8> = Vec::new();
    let mut i: usize = 0;
    while i < src.len()
        invariant
            i <= src@.len(),
            out@ == src@.take(i as int),
        decreases src@.len() - i,
    {
        out.push(src[i]);
        i = i + 1;
        proof {
            assert(out@ =~= src@.take(i as int));
        }
    }
    proof {
        assert(out@ =~= src@);
    }
    out
}

/// Encode an envelope that fits in one datagram. Encoding is total for every
/// well-formed envelope.
pub fn encode_envelope(p: &Packet) -> (out: Vec<u8>)
    requires
        p.wf(),
    ensures
        out@ == spec_encode_envelope(p@),
        out@.len() <= MAX_DATAGRAM,
{
    let mut out: Vec<u8> = Vec::new();
    out.push(tag_of(p.packet_type));
    let mut i: usize = 0;
    while i < p.payload.len()
        invariant
            i <= p.payload@.len(),
            out@ == seq![spec_tag_of(p.packet_type)] + p.payload@.take(i as int),
        decreases p.payload@.len() - i,
    {
        out.push(p.payload[i]);
        i = i + 1;
        proof {
            assert(out@ =~= seq![spec_tag_of(p.packet_type)] + p.payload@.take(i as int));
        }
    }
    proof {
        assert(out@ =~= spec_encode_envelope(p@));
    }
    out
}

/// The bytes of an envelope carrying `kind` and `payload`.
pub open spec fn spec_envelope_bytes(kind: PacketType, payload: Seq<u8>) -> Seq<u8> {
    spec_encode_envelope(PacketModel { packet_type: kind, payload })
}

/// The model of an executable decode result.
pub open spec fn decoded_model(r: Result<Packet, DecodeError>) -> Result<PacketModel, DecodeError> {
    match r {
        Ok(p) => Ok(p@),
        Err(e) => Err(e),
    }
}

/// Decode an envelope, atomically: either a fully-typed packet or an error.
pub fn decode_envelope(bytes: &Vec<u8>) -> (r: Result<Packet, DecodeError>)
    ensures
        decoded_model(r) == spec_decode_envelope(bytes@),
{
    if bytes.len() == 0 {
        return Err(DecodeError::Truncated);
    }
    if bytes.len() > MAX_DATAGRAM {
        return Err(DecodeError::TooLarge);
    }
    let kind = match kind_of_tag(bytes[0]) {
        Some(kind) => kind,
        None => {
            return Err(DecodeError::UnknownKind);
        },
    };
    let mut payload: Vec<u8> = Vec::new();
    let mut i: usize = 1;
    while i < bytes.len()
        invariant
            1 <= i <= bytes@.len(),
            payload@ == bytes@.subrange(1, i as int),
        decreases bytes@.len() - i,
    {
        payload.push(bytes[i]);
        i = i + 1;
        proof {
            assert(payload@ =~= bytes@.subrange(1, i as int));
        }
    }
    proof {
        assert(payload@ =~= bytes@.skip(1));
    }
    Ok(Packet { packet_type: kind, payload })
}

/// The concatenated 16-byte encodings of a sequence of identities.
pub open spec fn spec_identity_list_bytes(ids: Seq<u128>) -> Seq<u8>
    decreases ids.len(),
{
    if ids.len() == 0 {
        Seq::empty()
    } else {
        spec_identity_list_bytes(ids.drop_last()) + spec_identity_bytes(ids.last())
    }
}

/// The identities held by a concatenation of 16-byte chunks. Meaningful only
/// for sequences whose length is a multiple of 16.
pub open spec fn spec_identities_of_bytes(s: Seq<u8>) -> Seq<u128>
    decreases s.len(),
{
    if s.len() < IDENTITY_BYTES {
        Seq::empty()
    } else {
        spec_identities_of_bytes(s.take(s.len() - IDENTITY_BYTES)).push(
            spec_identity_of_bytes(s.skip(s.len() - IDENTITY_BYTES)),
        )
    }
}

/// An identity list payload holds a whole number of 16-byte identities.
pub open spec fn spec_decode_identity_list(s: Seq<u8>) -> Result<Seq<u128>, DecodeError> {
    if s.len() % (IDENTITY_BYTES as nat) == 0 {
        Ok(spec_identities_of_bytes(s))
    } else {
        Err(DecodeError::BadLength)
    }
}

/// An identity list encodes to 16 bytes per identity.
pub proof fn lemma_identity_list_bytes_len(ids: Seq<u128>)
    ensures
        spec_identity_list_bytes(ids).len() == IDENTITY_BYTES * ids.len(),
    decreases ids.len(),
{
    if ids.len() > 0 {
        lemma_identity_list_bytes_len(ids.drop_last());
    }
}

/// Reading back an encoded identity list yields exactly those identities.
pub proof fn lemma_identity_list_codec_inverse(ids: Seq<u128>)
    ensures
        spec_identities_of_bytes(spec_identity_list_bytes(ids)) == ids,
    decreases ids.len(),
{
    lemma_identity_list_bytes_len(ids);
    let s = spec_identity_list_bytes(ids);
    if ids.len() == 0 {
        assert(spec_identities_of_bytes(s) =~= ids);
    } else {
        let front = spec_identity_list_bytes(ids.drop_last());
        lemma_identity_list_bytes_len(ids.drop_last());
        assert(s.take(s.len() - IDENTITY_BYTES) =~= front);
        assert(s.skip(s.len() - IDENTITY_BYTES) =~= spec_identity_bytes(ids.last()));
        lemma_identity_list_codec_inverse(ids.drop_last());
        lemma_identity_codec_inverse(ids.last());
        assert(spec_identities_of_bytes(s) =~= ids);
    }
}

/// Encode a list of identities as the concatenation of their 16-byte forms.
pub fn encode_identity_list(ids: &Vec<u128>) -> (out: Vec<u8>)
    ensures
        out@ == spec_identity_list_bytes(ids@),
        out@.len() == IDENTITY_BYTES * ids@.len(),
{
    proof {
        lemma_identity_list_bytes_len(ids@);
    }
    let mut out: Vec<u8> = Vec::new();
    let mut k: usize = 0;
    while k < ids.len()
        invariant
            k <= ids@.len(),
            out@ == spec_identity_list_bytes(ids@.take(k as int)),
            out@.len() == IDENTITY_BYTES * k,
        decreases ids@.len() - k,
    {
        let mut chunk = encode_identity(ids[k]);
        out.append(&mut chunk);
        k = k + 1;
        proof {
            assert(ids@.take(k as int).drop_last() =~= ids@.take(k as int - 1));
            assert(ids@.take(k as int).last() == ids@[k as int - 1]);
        }
    }
    proof {
        assert(ids@.take(ids@.len() as int) =~= ids@);
    }
    out
}

/// Decode an identity list from a payload of whole 16-byte chunks.
pub fn decode_identity_list(bytes: &Vec<u8>) -> (r: Result<Vec<u128>, DecodeError>)
    ensures
        (match r {
            Ok(ids) => spec_decode_identity_list(bytes@) == Ok::<Seq<u128>, DecodeError>(ids@),
            Err(e) => spec_decode_identity_list(bytes@) == Err::<Seq<u128>, DecodeError>(e),
        }),
{
    if bytes.len() % IDENTITY_BYTES != 0 {
        return Err(DecodeError::BadLength);
    }
    let mut ids: Vec<u128> = Vec::new();
    let mut i: usize = 0;
    while i < bytes.len()
        invariant
            i <= bytes@.len(),
            i % 16 == 0,
            bytes@.len() % 16 == 0,
            bytes@.len() <= usize::MAX,
            ids@ == spec_identities_of_bytes(bytes@.take(i as int)),
        decreases bytes@.len() - i,
    {
        proof {
            assert(i as int + 16 <= bytes@.len() as int) by (nonlinear_arith)
                requires
                    (i as int) < bytes@.len() as int,
                    i as int % 16 == 0,
                    bytes@.len() as int % 16 == 0,
            ;
        }
        let mut chunk: Vec<u8> = Vec::new();
        let mut j: usize = 0;
        while j < IDENTITY_BYTES
            invariant
                j <= IDENTITY_BYTES,
                i + IDENTITY_BYTES <= bytes@.len(),
                bytes@.len() <= usize::MAX,
                chunk@ == bytes@.subrange(i as int, i as int + j as int),
            decreases IDENTITY_BYTES - j,
        {
            chunk.push(bytes[i + j]);
            j = j + 1;
            proof {
                assert(chunk@ =~= bytes@.subrange(i as int, i as int + j as int));
            }
        }
        let id: u128 = match decode_identity(&chunk) {
            Ok(id) => id,
            Err(_) => vstd::pervasive::unreached(),
        };
        ids.push(id);
        i = i + IDENTITY_BYTES;
        proof {
            let t = bytes@.take(i as int);
            assert(t.take(t.len() - IDENTITY_BYTES) =~= bytes@.take(i as int - IDENTITY_BYTES));
            assert(t.skip(t.len() - IDENTITY_BYTES) =~= chunk@);
            assert(ids@ =~= spec_identities_of_bytes(t));
        }
    }
    proof {
        assert(bytes@.take(bytes@.len() as int) =~= bytes@);
    }
    Ok(ids)
}

/// The encoded form of a client-info reply: 16 bytes of IP, 2 bytes of port,
/// then the raw label bytes.
pub open spec fn spec_client_info_bytes(address: NetAddress, label: Seq<u8>) -> Seq<u8> {
    spec_identity_bytes(address.ip) + seq![address.port as u8, (address.port >> 8) as u8] + label
}

/// The address and label held by a client-info payload; anything under the
/// 18-byte fixed prefix is truncated.
pub open spec fn spec_decode_client_info(s: Seq<u8>) -> Result<(NetAddress, Seq<u8>), DecodeError> {
    if s.len() < 18 {
        Err(DecodeError::Truncated)
    } else {
        Ok(
            (
                NetAddress {
                    ip: spec_identity_of_bytes(s.take(16)),
                    port: (s[16] as u16) | ((s[17] as u16) << 8),
                },
                s.skip(18),
            ),
        )
    }
}

/// Reading back an encoded client-info payload yields the address and label
/// unchanged.
pub proof fn lemma_client_info_codec_inverse(address: NetAddress, label: Seq<u8>)
    ensures
        spec_decode_client_info(spec_client_info_bytes(address, label)) == Ok::<
            (NetAddress, Seq<u8>),
            DecodeError,
        >((address, label)),
{
    let s = spec_client_info_bytes(address, label);
    assert(s.take(16) =~= spec_identity_bytes(address.ip));
    lemma_identity_codec_inverse(address.ip);
    assert(s.skip(18) =~= label);
    let p = address.port;
    let lo = p as u8;
    let hi = (p >> 8) as u8;
    assert((lo as u16) | ((hi as u16) << 8) == p) by (bit_vector)
        requires
            lo == p as u8 && hi == (p >> 8) as u8,
    ;
}

/// Encode a client's address and label for a client-info reply.
pub fn encode_client_info(address: NetAddress, label: &Vec<u8>) -> (out: Vec<u8>)
    ensures
        out@ == spec_client_info_bytes(address, label@),
        out@.len() == 18 + label@.len(),
{
    let mut out = encode_identity(address.ip);
    out.push(#[verifier::truncate] (address.port as u8));
    out.push(#[verifier::truncate] ((address.port >> 8) as u8));
    let mut rest = copy_bytes(label);
    out.append(&mut rest);
    proof {
        assert(out@ =~= spec_client_info_bytes(address, label@));
    }
    out
}

/// Decode a client-info payload into the client's address and label bytes.
pub fn decode_client_info(bytes: &Vec<u8>) -> (r: Result<(NetAddress, Vec<u8>), DecodeError>)
    ensures
        (match r {
            Ok(pair) => spec_decode_client_info(bytes@) == Ok::<
                (NetAddress, Seq<u8>),
                DecodeError,
            >((pair.0, pair.1@)),
            Err(e) => spec_decode_client_info(bytes@) == Err::<(NetAddress, Seq<u8>), DecodeError>(
                e,
            ),
        }),
{
    if bytes.len() < 18 {
        return Err(DecodeError::Truncated);
    }
    let mut prefix: Vec<u8> = Vec::new();
    let mut j: usize = 0;
    while j < 16
        invariant
            j <= 16,
            bytes@.len() >= 18,
            prefix@ == bytes@.take(j as int),
        decreases 16 - j,
    {
        prefix.push(bytes[j]);
        j = j + 1;
        proof {
            assert(prefix@ =~= bytes@.take(j as int));
        }
    }
    let ip: u128 = match decode_identity(&prefix) {
        Ok(ip) => ip,
        Err(_) => vstd::pervasive::unreached(),
    };
    let port: u16 = (bytes[16] as u16) | ((bytes[17] as u16) << 8);
    let mut label: Vec<u8> = Vec::new();
    let mut i: usize = 18;
    while i < bytes.len()
        invariant
            18 <= i <= bytes@.len(),
            label@ == bytes@.subrange(18, i as int),
        decreases bytes@.len() - i,
    {
        label.push(bytes[i]);
        i = i + 1;
        proof {
            assert(label@ =~= bytes@.subrange(18, i as int));
        }
    }
    proof {
        assert(label@ =~= bytes@.skip(18));
    }
    Ok((NetAddress { ip, port }, label))
}

/// Decoding an encoded well-formed envelope yields that envelope unchanged.
pub proof fn lemma_envelope_round_trip(p: PacketModel)
    requires
        p.payload.len() + 1 <= MAX_DATAGRAM,
    ensures
        spec_decode_envelope(spec_encode_envelope(p)) == Ok::<PacketModel, DecodeError>(p),
{
    let s = spec_encode_envelope(p);
    lemma_tag_round_trip(p.packet_type);
    assert(s.skip(1) =~= p.payload);
}

} // verus!
