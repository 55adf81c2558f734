//! Peer wire protocol messages: the 68-byte handshake and the
//! length-prefixed, typed frames that follow it.
//!
//! This module builds and reads the exact bytes; moving them over a socket is
//! the surrounding program's business.
use vstd::prelude::*;

use crate::errors::TorrentError;
use crate::numbers::{be32, be32_val, be32_read, u32_to_be};
use crate::strconv::{hex_of, hex_encode};

verus! {

/// The message identifiers of the peer wire protocol.
#[derive(Debug, PartialEq, Eq, Structural, Clone, Copy)]
pub enum MessageType {
    Choke,
    Unchoke,
    Interested,
    NotInterested,
    Have,
    Bitfield,
    Request,
    Piece,
    Cancel,
    Extended,
}

/// The wire id of each message type.
pub open spec fn message_id(t: MessageType) -> u8 {
    match t {
        MessageType::Choke => 0,
        MessageType::Unchoke => 1,
        MessageType::Interested => 2,
        MessageType::NotInterested => 3,
        MessageType::Have => 4,
        MessageType::Bitfield => 5,
        MessageType::Request => 6,
        MessageType::Piece => 7,
        MessageType::Cancel => 8,
        MessageType::Extended => 20,
    }
}

/// Whether a wire id names a message this client recognises.
pub open spec fn valid_message_id(id: u8) -> bool {
    id <= 8 || id == 20
}

/// A typed message with its raw payload.
#[derive(Debug, PartialEq, Eq)]
pub struct Message {
    pub message_type: MessageType,
    pub payload: Vec<u8>,
}

pub fn message_type_id(t: MessageType) -> (r: u8)
    ensures
        r == message_id(t),
{
    match t {
        MessageType::Choke => 0,
        MessageType::Unchoke => 1,
        MessageType::Interested => 2,
        MessageType::NotInterested => 3,
        MessageType::Have => 4,
        MessageType::Bitfield => 5,
        MessageType::Request => 6,
        MessageType::Piece => 7,
        MessageType::Cancel => 8,
        MessageType::Extended => 20,
    }
}

/// The message type with the given wire id; exactly the ids of `message_id`
/// are accepted.
pub fn message_type_of_id(id: u8) -> (r: Result<MessageType, TorrentError>)
    ensures
        r is Ok <==> valid_message_id(id),
        match r {
            Ok(t) => message_id(t) == id,
            Err(e) => e == TorrentError::UnexpectedMessage,
        },
{
    match id {
        0 => Ok(MessageType::Choke),
        1 => Ok(MessageType::Unchoke),
        2 => Ok(MessageType::Interested),
        3 => Ok(MessageType::NotInterested),
        4 => Ok(MessageType::Have),
        5 => Ok(MessageType::Bitfield),
        6 => Ok(MessageType::Request),
        7 => Ok(MessageType::Piece),
        8 => Ok(MessageType::Cancel),
        20 => Ok(MessageType::Extended),
        _ => Err(TorrentError::UnexpectedMessage),
    }
}

/// The frame carrying a message: 4-byte big-endian length (id plus payload),
/// the id, then the payload.
pub open spec fn frame_bytes(t: MessageType, payload: Seq<u8>) -> Seq<u8>
    recommends
        payload.len() + 1 <= u32::MAX,
{
    be32((payload.len() + 1) as u32) + seq![message_id(t)] + payload
}

/// Build the frame for `m`.
pub fn frame_message(m: &Message) -> (r: Vec<u8>)
    requires
        m.payload@.len() + 1 <= u32::MAX,
    ensures
        r@ == frame_bytes(m.message_type, m.payload@),
        r@.len() == m.payload@.len() + 5,
{
    let n: u32 = m.payload.len() as u32 + 1;
    let mut out = u32_to_be(n);
    out.push(message_type_id(m.message_type));
    let mut i: usize = 0;
    #[verifier::loop_isolation(false)]
    while i < m.payload.len()
        invariant
            i <= m.payload.len(),
            out@ =~= be32(n) + seq![message_id(m.message_type)] + m.payload@.take(i as int),
        decreases m.payload.len() - i,
    {
        out.push(m.payload[i]);
        proof {
            assert(m.payload@.take(i + 1int) =~= m.payload@.take(i as int).push(
                m.payload@[i as int],
            ));
        }
        i = i + 1;
    }
    proof {
        assert(m.payload@.take(m.payload@.len() as int) =~= m.payload@);
        assert(out@ =~= frame_bytes(m.message_type, m.payload@));
    }
    out
}

/// The number of bytes that follow a 4-byte length prefix; `0` is a
/// keep-alive frame with no id and no payload.
pub fn parse_frame_length(prefix: &Vec<u8>) -> (r: u32)
    requires
        prefix@.len() == 4,
    ensures
        r == be32_val(prefix@),
        be32(r) =~= prefix@,
{
    be32_read(prefix, 0)
}

/// Read a non-empty frame body (the id byte followed by the payload) back
/// into a message; exactly the recognised ids are accepted.
pub fn parse_frame_body(body: &Vec<u8>) -> (r: Result<Message, TorrentError>)
    ensures
        r is Ok <==> (body@.len() >= 1 && valid_message_id(body@[0])),
        match r {
            Ok(m) => {
                &&& message_id(m.message_type) == body@[0]
                &&& m.payload@ == body@.skip(1)
            },
            Err(e) => e == TorrentError::UnexpectedMessage,
        },
{
    if body.len() == 0 {
        return Err(TorrentError::UnexpectedMessage);
    }
    let t = match message_type_of_id(body[0]) {
        Ok(t) => t,
        Err(e) => {
            return Err(e);
        },
    };
    let mut payload: Vec<u8> = Vec::new();
    let mut i: usize = 1;
    #[verifier::loop_isolation(false)]
    while i < body.len()
        invariant
            1 <= i <= body.len(),
            payload@ =~= body@.subrange(1, i as int),
        decreases body.len() - i,
    {
        payload.push(body[i]);
        proof {
            assert(body@.subrange(1, i + 1int) =~= body@.subrange(1, i as int).push(
                body@[i as int],
            ));
        }
        i = i + 1;
    }
    proof {
        assert(body@.subrange(1, body@.len() as int) =~= body@.skip(1));
    }
    Ok(Message { message_type: t, payload })
}

/// The 19 bytes `BitTorrent protocol`.
pub open spec fn protocol_bytes() -> Seq<u8> {
    seq![66u8, 105, 116, 84, 111, 114, 114, 101, 110, 116, 32, 112, 114, 111, 116, 111, 99, 111, 108]
}

/// The 8 reserved bytes; bit `0x10` of the 6th advertises the metadata
/// extension protocol.
pub open spec fn reserved_bytes(extensions: bool) -> Seq<u8> {
    seq![0u8, 0, 0, 0, 0, if extensions { 16u8 } else { 0u8 }, 0, 0]
}

/// This client's fixed 20-byte identifier.
pub open spec fn client_peer_id() -> Seq<u8> {
    seq![48u8, 48, 49, 49, 50, 50, 51, 51, 52, 52, 53, 53, 54, 54, 55, 55, 56, 56, 57, 57]
}

/// The 68-byte handshake: length byte 19, the protocol name, the reserved
/// bytes, the info-hash, then the sender's peer id.
pub open spec fn handshake_bytes(info_hash: Seq<u8>, peer_id: Seq<u8>, extensions: bool) -> Seq<
    u8,
> {
    seq![19u8] + protocol_bytes() + reserved_bytes(extensions) + info_hash + peer_id
}

/// Build the handshake this client sends for `info_hash`.
pub fn build_handshake(info_hash: &Vec<u8>, extensions: bool) -> (r: Vec<u8>)
    requires
        info_hash@.len() == 20,
    ensures
        r@ == handshake_bytes(info_hash@, client_peer_id(), extensions),
        r@.len() == 68,
{
    let mut out: Vec<u8> = Vec::new();
    out.push(19);
    let protocol = vec![
        66u8, 105, 116, 84, 111, 114, 114, 101, 110, 116, 32, 112, 114, 111, 116, 111, 99, 111,
        108,
    ];
    let mut i: usize = 0;
    #[verifier::loop_isolation(false)]
    while i < protocol.len()
        invariant
            i <= protocol.len(),
            protocol@ =~= protocol_bytes(),
            out@ =~= seq![19u8] + protocol_bytes().take(i as int),
        decreases protocol.len() - i,
    {
        out.push(protocol[i]);
        proof {
            assert(protocol_bytes().take(i + 1int) =~= protocol_bytes().take(i as int).push(
                protocol_bytes()[i as int],
            ));
        }
        i = i + 1;
    }
    proof {
        assert(protocol_bytes().take(19) =~= protocol_bytes());
    }
    out.push(0);
    out.push(0);
    out.push(0);
    out.push(0);
    out.push(0);
    if extensions {
        out.push(16);
    } else {
        out.push(0);
    }
    out.push(0);
    out.push(0);
    let mut j: usize = 0;
    #[verifier::loop_isolation(false)]
    while j < info_hash.len()
        invariant
            j <= info_hash.len(),
            out@ =~= seq![19u8] + protocol_bytes() + reserved_bytes(extensions) + info_hash@.take(
                j as int,
            ),
        decreases info_hash.len() - j,
    {
        out.push(info_hash[j]);
        proof {
            assert(info_hash@.take(j + 1int) =~= info_hash@.take(j as int).push(
                info_hash@[j as int],
            ));
        }
        j = j + 1;
    }
    proof {
        assert(info_hash@.take(20) =~= info_hash@);
    }
    let id = vec![48u8, 48, 49, 49, 50, 50, 51, 51, 52, 52, 53, 53, 54, 54, 55, 55, 56, 56, 57, 57];
    let mut k: usize = 0;
    #[verifier::loop_isolation(false)]
    while k < id.len()
        invariant
            k <= id.len(),
            id@ =~= client_peer_id(),
            out@ =~= seq![19u8] + protocol_bytes() + reserved_bytes(extensions) + info_hash@
                + client_peer_id().take(k as int),
        decreases id.len() - k,
    {
        out.push(id[k]);
        proof {
            assert(client_peer_id().take(k + 1int) =~= client_peer_id().take(k as int).push(
                client_peer_id()[k as int],
            ));
        }
        k = k + 1;
    }
    proof {
        assert(client_peer_id().take(20) =~= client_peer_id());
        assert(out@ =~= handshake_bytes(info_hash@, client_peer_id(), extensions));
    }
    out
}

/// What a peer's handshake reply tells this client.
#[derive(Debug, PartialEq, Eq)]
pub struct PeerHandshake {
    /// The remote peer's 20-byte identifier.
    pub peer_id: Vec<u8>,
    /// Whether the peer advertises the metadata extension protocol.
    pub extensions_enabled: bool,
}

impl PeerHandshake {
    /// The remote peer id rendered as 40 lowercase hex digits.
    pub fn peer_id_hex(&self) -> (r: String)
        ensures
            r@ == hex_of(self.peer_id@),
    {
        hex_encode(&self.peer_id)
    }
}

/// Read a peer's 68-byte handshake reply: the echoed info-hash must match,
/// byte 25 carries the extension bit, bytes 48 to 68 the peer id.
pub fn parse_handshake(resp: &Vec<u8>, expected_info_hash: &Vec<u8>) -> (r: Result<
    PeerHandshake,
    TorrentError,
>)
    requires
        resp@.len() == 68,
        expected_info_hash@.len() == 20,
    ensures
        r is Ok <==> resp@.subrange(28, 48) == expected_info_hash@,
        match r {
            Ok(h) => {
                &&& h.peer_id@ == resp@.subrange(48, 68)
                &&& h.extensions_enabled == ((resp@[25] & 16) != 0)
            },
            Err(e) => e == TorrentError::HandshakeMismatch,
        },
{
    let mut i: usize = 0;
    #[verifier::loop_isolation(false)]
    while i < 20
        invariant
            i <= 20,
            forall|j: int| 0 <= j < i ==> resp@[28 + j] == expected_info_hash@[j],
        decreases 20 - i,
    {
        if resp[28 + i] != expected_info_hash[i] {
            proof {
                assert(resp@.subrange(28, 48)[i as int] != expected_info_hash@[i as int]);
            }
            return Err(TorrentError::HandshakeMismatch);
        }
        i = i + 1;
    }
    proof {
        assert(resp@.subrange(28, 48) =~= expected_info_hash@);
    }
    let mut peer_id: Vec<u8> = Vec::new();
    let mut k: usize = 48;
    #[verifier::loop_isolation(false)]
    while k < 68
        invariant
            48 <= k <= 68,
            peer_id@ =~= resp@.subrange(48, k as int),
        decreases 68 - k,
    {
        peer_id.push(resp[k]);
        proof {
            assert(resp@.subrange(48, k + 1int) =~= resp@.subrange(48, k as int).push(
                resp@[k as int],
            ));
        }
        k = k + 1;
    }
    let flag = resp[25];
    Ok(PeerHandshake { peer_id, extensions_enabled: (flag & 16) != 0 })
}

} // verus!
