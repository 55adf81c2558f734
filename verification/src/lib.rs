//! Core of a BitTorrent peer client: bencode codec, metainfo model,
//! magnet-link parsing, tracker announce handling, peer wire messages and
//! piece download bookkeeping.
//!
//! All protocol logic is verified; sockets, HTTP and the file system are left
//! to the surrounding program, which exchanges plain values with this crate.
use vstd::prelude::*;

pub mod bencode;
pub mod discover_peers;
pub mod download;
pub mod errors;
pub mod magnet_link;
pub mod messaging;
pub mod meta_info_file;
pub mod numbers;
pub mod pieces;
pub mod strconv;

verus! {

/// The SHA-1 digest of a byte sequence; 20 bytes, a function of the input
/// bytes alone.
pub uninterp spec fn sha1_of(bytes: Seq<u8>) -> Seq<u8>;

/// Relies on sha1::Sha1 through the Digest trait: the digest has 20 bytes and
/// depends on the input bytes alone.
#[verifier::external_body]
pub fn sha1_it(bytes: &Vec<u8>) -> (r: Vec<u8>)
    ensures
        r@ == sha1_of(bytes@),
        r@.len() == 20,
{
    <sha1::Sha1 as sha1::Digest>::digest(bytes.as_slice()).to_vec()
}

} // verus!
