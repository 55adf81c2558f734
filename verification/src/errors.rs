//! Failure kinds shared by the components of the client.
use vstd::prelude::*;

verus! {

/// What can go wrong while building a metainfo, talking to a tracker or
/// downloading a piece.  Transport failures (sockets, HTTP, the file system)
/// never reach this crate: the surrounding program reports them itself.
#[derive(Debug, PartialEq, Eq, Structural, Clone, Copy)]
pub enum TorrentError {
    /// A required metainfo field is missing or has the wrong type.
    MetainfoError,
    /// The magnet URI violates the `magnet:?xt=urn:btih:...` shape.
    MalformedMagnet,
    /// The tracker's announce response is not the expected bencoded shape.
    TrackerDecodeError,
    /// The `peers` byte string is not a whole number of 6-byte entries.
    MalformedPeerList,
    /// The peer echoed a different info-hash during the handshake.
    HandshakeMismatch,
    /// A frame carries a message id this client does not recognise.
    UnexpectedMessage,
    /// The reassembled piece does not hash to the expected digest.
    PieceHashMismatch,
    /// The tracker returned no peer to download from.
    NoPeersAvailable,
}

} // verus!
