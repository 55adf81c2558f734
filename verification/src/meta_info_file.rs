//! The resolved torrent descriptor, built from a metainfo file's bytes or
//! from the `info` dictionary fetched over the metadata extension protocol.
use vstd::prelude::*;
use vstd::utf8::{decode_utf8, valid_utf8};

use crate::bencode::{
    BencodeValue, bytes_eq, decode_at, decode_bencoded_value, dict_find, dict_get, enc, enc_at,
    enc_pairs, encode_bencoded_value, lemma_dict_get_congruent, lemma_enc_congruent, str_token,
    structurally_equal, wf,
};
use crate::download::int_div_with_ceil;
use crate::errors::TorrentError;
use crate::numbers::ceil_div;
use crate::sha1_it;
use crate::sha1_of;
use crate::strconv::utf8_bytes_to_string;

verus! {

/// The resolved torrent descriptor.
#[derive(Debug, PartialEq, Eq)]
pub struct MetaInfo {
    /// Absolute URL of the HTTP tracker.
    pub tracker_url: String,
    /// Total file length in bytes.
    pub length: usize,
    /// SHA-1 of the canonical bencoding of the `info` dictionary.
    pub info_hash: Vec<u8>,
    /// Nominal bytes per piece; every piece but the last has this length.
    pub piece_length: usize,
    /// One 20-byte digest per piece.
    pub piece_hashes: Vec<Vec<u8>>,
    /// Optional display name.
    pub file_name: Option<String>,
}

impl MetaInfo {
    /// The descriptor's invariant: a 20-byte info-hash and one 20-byte
    /// digest for each of the `ceil(length / piece_length)` pieces.
    pub open spec fn wf(self) -> bool {
        &&& self.info_hash@.len() == 20
        &&& self.length >= 1
        &&& self.piece_length >= 1
        &&& self.piece_hashes@.len() == ceil_div(self.length as int, self.piece_length as int)
        &&& forall|i: int|
            0 <= i < self.piece_hashes@.len() ==> (#[trigger] self.piece_hashes@[i])@.len() == 20
    }

    /// How many pieces the file has.
    pub fn num_pieces(&self) -> (r: usize)
        requires
            self.wf(),
        ensures
            r == self.piece_hashes@.len(),
    {
        self.piece_hashes.len()
    }
}

pub open spec fn announce_key() -> Seq<u8> {
    seq![97u8, 110, 110, 111, 117, 110, 99, 101]
}

pub open spec fn info_key() -> Seq<u8> {
    seq![105u8, 110, 102, 111]
}

pub open spec fn length_key() -> Seq<u8> {
    seq![108u8, 101, 110, 103, 116, 104]
}

pub open spec fn name_key() -> Seq<u8> {
    seq![110u8, 97, 109, 101]
}

pub open spec fn piece_length_key() -> Seq<u8> {
    seq![112u8, 105, 101, 99, 101, 32, 108, 101, 110, 103, 116, 104]
}

pub open spec fn pieces_key() -> Seq<u8> {
    seq![112u8, 105, 101, 99, 101, 115]
}

/// What a well-formed `info` dictionary carries: the file length, the piece
/// length, the concatenated 20-byte piece digests, and an optional UTF-8
/// name.  `None` when a field is missing or ill-typed, a length is out of
/// machine range, or the digest count does not match
/// `ceil(length / piece_length)`.
pub open spec fn info_fields_spec(info: BencodeValue) -> Option<
    (int, int, Seq<u8>, Option<Seq<u8>>),
> {
    match info {
        BencodeValue::Dict(pairs) => {
            match (dict_get(pairs@, length_key()), dict_get(pairs@, piece_length_key()), dict_get(
                pairs@,
                pieces_key(),
            )) {
                (
                    Some(BencodeValue::Int(l)),
                    Some(BencodeValue::Int(pl)),
                    Some(BencodeValue::Bytes(pb)),
                ) => {
                    if 1 <= l <= usize::MAX && 1 <= pl <= usize::MAX && pb@.len() % 20 == 0
                        && pb@.len() / 20 == ceil_div(l as int, pl as int) {
                        Some(
                            (
                                l as int,
                                pl as int,
                                pb@,
                                match dict_get(pairs@, name_key()) {
                                    Some(BencodeValue::Bytes(nb)) => if valid_utf8(nb@) {
                                        Some(nb@)
                                    } else {
                                        None
                                    },
                                    _ => None,
                                },
                            ),
                        )
                    } else {
                        None
                    }
                },
                _ => None,
            }
        },
        _ => None,
    }
}

/// Structurally equal values carry the same `info` fields.
pub proof fn lemma_info_fields_congruent(a: BencodeValue, b: BencodeValue)
    requires
        structurally_equal(a, b),
    ensures
        info_fields_spec(a) == info_fields_spec(b),
{
    match (a, b) {
        (BencodeValue::Dict(x), BencodeValue::Dict(y)) => {
            lemma_dict_get_congruent(x@, y@, length_key());
            lemma_dict_get_congruent(x@, y@, piece_length_key());
            lemma_dict_get_congruent(x@, y@, pieces_key());
            lemma_dict_get_congruent(x@, y@, name_key());
        },
        _ => {},
    }
}

/// Read length, piece length, piece digests and optional name out of a
/// decoded `info` dictionary; accepts exactly the dictionaries that
/// `info_fields_spec` accepts.
fn extract_info(info: &BencodeValue) -> (r: Result<
    (usize, usize, Vec<Vec<u8>>, Option<String>),
    TorrentError,
>)
    ensures
        r is Ok <==> info_fields_spec(*info) is Some,
        match r {
            Ok((l, pl, hashes, name)) => info_fields_spec(*info) matches Some((li, pli, pb, nb))
                && l == li && pl == pli && hashes@.len() == pb.len() / 20 && (forall|i: int|
                0 <= i < hashes@.len() ==> (#[trigger] hashes@[i])@ == pb.subrange(
                    20 * i,
                    20 * i + 20,
                )) && (match (name, nb) {
                (Some(s), Some(b)) => s@ == decode_utf8(b),
                (None, None) => true,
                _ => false,
            }),
            Err(e) => e == TorrentError::MetainfoError,
        },
{
    let pairs = match info {
        BencodeValue::Dict(pairs) => pairs,
        _ => {
            return Err(TorrentError::MetainfoError);
        },
    };
    let length_k = vec![108u8, 101, 110, 103, 116, 104];
    let piece_length_k = vec![112u8, 105, 101, 99, 101, 32, 108, 101, 110, 103, 116, 104];
    let pieces_k = vec![112u8, 105, 101, 99, 101, 115];
    let name_k = vec![110u8, 97, 109, 101];
    proof {
        assert(length_k@ =~= length_key());
        assert(piece_length_k@ =~= piece_length_key());
        assert(pieces_k@ =~= pieces_key());
        assert(name_k@ =~= name_key());
    }
    let l = match dict_find(pairs, &length_k) {
        Some(BencodeValue::Int(l)) => *l,
        _ => {
            return Err(TorrentError::MetainfoError);
        },
    };
    let pl = match dict_find(pairs, &piece_length_k) {
        Some(BencodeValue::Int(pl)) => *pl,
        _ => {
            return Err(TorrentError::MetainfoError);
        },
    };
    let pb = match dict_find(pairs, &pieces_k) {
        Some(BencodeValue::Bytes(pb)) => pb,
        _ => {
            return Err(TorrentError::MetainfoError);
        },
    };
    if l < 1 || pl < 1 {
        return Err(TorrentError::MetainfoError);
    }
    if (l as u64) > (usize::MAX as u64) || (pl as u64) > (usize::MAX as u64) {
        return Err(TorrentError::MetainfoError);
    }
    let length = l as usize;
    let piece_length = pl as usize;
    if pb.len() % 20 != 0 {
        return Err(TorrentError::MetainfoError);
    }
    let count = pb.len() / 20;
    if count != int_div_with_ceil(length, piece_length) {
        return Err(TorrentError::MetainfoError);
    }
    let mut hashes: Vec<Vec<u8>> = Vec::new();
    let mut i: usize = 0;
    #[verifier::loop_isolation(false)]
    while i < count
        invariant
            i <= count,
            count == pb@.len() / 20,
            pb@.len() % 20 == 0,
            hashes@.len() == i as int,
            forall|j: int|
                0 <= j < i as int ==> (#[trigger] hashes@[j])@ == pb@.subrange(
                    20 * j,
                    20 * j + 20,
                ),
        decreases count - i,
    {
        proof {
            assert(20 * (i as int) + 20 <= pb@.len()) by (nonlinear_arith)
                requires
                    (i as int) < count as int,
                    count == pb@.len() / 20,
                    pb@.len() % 20 == 0,
            ;
        }
        let mut h: Vec<u8> = Vec::new();
        let mut t: usize = 0;
        #[verifier::loop_isolation(false)]
        while t < 20
            invariant
                t <= 20,
                20 * (i as int) + 20 <= pb@.len(),
                h@ =~= pb@.subrange(20 * (i as int), 20 * (i as int) + t as int),
            decreases 20 - t,
        {
            h.push(pb[20 * i + t]);
            proof {
                assert(pb@.subrange(20 * (i as int), 20 * (i as int) + (t + 1int)) =~= pb@.subrange(
                    20 * (i as int),
                    20 * (i as int) + t as int,
                ).push(pb@[20 * (i as int) + t as int]));
            }
            t = t + 1;
        }
        hashes.push(h);
        i = i + 1;
    }
    let name = match dict_find(pairs, &name_k) {
        Some(BencodeValue::Bytes(nb)) => utf8_bytes_to_string(nb),
        _ => None,
    };
    Ok((length, piece_length, hashes, name))
}

/// Whether a decoded metainfo file is a dictionary with a UTF-8 `announce`
/// string and a well-formed `info` dictionary.
pub open spec fn torrent_shape(v: BencodeValue) -> bool {
    &&& v matches BencodeValue::Dict(tp)
    &&& dict_get(tp@, announce_key()) matches Some(av)
    &&& av matches BencodeValue::Bytes(ab)
    &&& valid_utf8(ab@)
    &&& dict_get(tp@, info_key()) matches Some(iv)
    &&& info_fields_spec(iv) is Some
}

/// Build the descriptor from a metainfo file's bytes: a bencoded dictionary
/// with `announce` and an `info` dictionary.  The info-hash is the SHA-1 of
/// the canonical bencoding of the `info` value.  It succeeds exactly when
/// the bytes start with such a dictionary.
pub fn from_torrent_bytes(content: &Vec<u8>) -> (r: Result<MetaInfo, TorrentError>)
    ensures
        r is Ok <==> exists|v: BencodeValue|
            #[trigger] enc_at(content@, 0, v) && torrent_shape(v),
        match r {
            Ok(m) => m.wf() && exists|top: BencodeValue, end: int|
                #![trigger wf(top), content@.subrange(0, end)]
                {
                    &&& wf(top)
                    &&& 0 < end <= content@.len()
                    &&& content@.subrange(0, end) == enc(top)
                    &&& top matches BencodeValue::Dict(tp)
                    &&& dict_get(tp@, announce_key()) matches Some(av)
                    &&& av matches BencodeValue::Bytes(ab)
                    &&& valid_utf8(ab@)
                    &&& m.tracker_url@ == decode_utf8(ab@)
                    &&& dict_get(tp@, info_key()) matches Some(iv)
                    &&& m.info_hash@ == sha1_of(enc(iv))
                    &&& info_fields_spec(iv) matches Some((l, pl, pb, nb))
                    &&& m.length == l
                    &&& m.piece_length == pl
                    &&& m.piece_hashes@.len() == pb.len() / 20
                    &&& forall|i: int|
                        0 <= i < m.piece_hashes@.len() ==> (#[trigger] m.piece_hashes@[i])@
                            == pb.subrange(20 * i, 20 * i + 20)
                    &&& m.file_name is None
                },
            Err(e) => e == TorrentError::MetainfoError,
        },
{
    let decoded = match decode_bencoded_value(content) {
        Ok(t) => t,
        Err(_) => {
            proof {
                assert forall|u: BencodeValue| !(enc_at(content@, 0, u) && torrent_shape(u)) by {
                    if enc_at(content@, 0, u) {
                    }
                }
            }
            return Err(TorrentError::MetainfoError);
        },
    };
    let top = decoded.0;
    let tp = match &top {
        BencodeValue::Dict(tp) => tp,
        _ => {
            proof {
                assert forall|u: BencodeValue| !(enc_at(content@, 0, u) && torrent_shape(u)) by {
                    if enc_at(content@, 0, u) {
                        assert(structurally_equal(top, u));
                    }
                }
            }
            return Err(TorrentError::MetainfoError);
        },
    };
    let announce_k = vec![97u8, 110, 110, 111, 117, 110, 99, 101];
    let info_k = vec![105u8, 110, 102, 111];
    proof {
        assert(announce_k@ =~= announce_key());
        assert(info_k@ =~= info_key());
        // Any well-shaped torrent at the start of `content` decodes to this
        // very dictionary, so its lookups succeed here too.
        assert forall|u: BencodeValue|
            enc_at(content@, 0, u) && torrent_shape(u) implies ((match dict_get(
            tp@,
            announce_key(),
        ) {
            Some(BencodeValue::Bytes(a)) => valid_utf8(a@),
            _ => false,
        }) && (match dict_get(tp@, info_key()) {
            Some(ivv) => info_fields_spec(ivv) is Some,
            None => false,
        })) by {
            assert(structurally_equal(top, u));
            match (top, u) {
                (BencodeValue::Dict(x), BencodeValue::Dict(y)) => {
                    lemma_dict_get_congruent(x@, y@, announce_key());
                    lemma_dict_get_congruent(x@, y@, info_key());
                    match (dict_get(x@, info_key()), dict_get(y@, info_key())) {
                        (Some(i1), Some(i2)) => {
                            lemma_info_fields_congruent(i1, i2);
                        },
                        _ => {},
                    }
                },
                _ => {},
            }
        }
    }
    let ab = match dict_find(tp, &announce_k) {
        Some(BencodeValue::Bytes(ab)) => ab,
        _ => {
            proof {
                assert forall|u: BencodeValue| !(enc_at(content@, 0, u) && torrent_shape(u)) by {}
            }
            return Err(TorrentError::MetainfoError);
        },
    };
    let tracker_url = match utf8_bytes_to_string(ab) {
        Some(s) => s,
        None => {
            proof {
                assert forall|u: BencodeValue| !(enc_at(content@, 0, u) && torrent_shape(u)) by {}
            }
            return Err(TorrentError::MetainfoError);
        },
    };
    let iv = match dict_find(tp, &info_k) {
        Some(iv) => iv,
        None => {
            proof {
                assert forall|u: BencodeValue| !(enc_at(content@, 0, u) && torrent_shape(u)) by {}
            }
            return Err(TorrentError::MetainfoError);
        },
    };
    let info_bytes = encode_bencoded_value(iv);
    let info_hash = sha1_it(&info_bytes);
    let (length, piece_length, piece_hashes, _name) = match extract_info(iv) {
        Ok(t) => t,
        Err(e) => {
            proof {
                assert forall|u: BencodeValue| !(enc_at(content@, 0, u) && torrent_shape(u)) by {}
            }
            return Err(e);
        },
    };
    let m = MetaInfo {
        tracker_url,
        length,
        info_hash,
        piece_length,
        piece_hashes,
        file_name: None,
    };
    proof {
        assert(m.wf());
        assert(enc_at(content@, 0, top)) by {
            assert(content@.subrange(0, enc(top).len() as int) == enc(top));
        }
        assert(torrent_shape(top));
    }
    Ok(m)
}

/// Build the descriptor from the raw bytes of an `info` dictionary fetched
/// over the metadata extension protocol.  The bytes must hash to the
/// expected info-hash (the magnet's), and must be exactly one bencoded
/// dictionary; it succeeds exactly then.
pub fn from_info_dict_bytes(
    info_bytes: &Vec<u8>,
    tracker_url: String,
    expected_hash: &Vec<u8>,
) -> (r: Result<MetaInfo, TorrentError>)
    requires
        expected_hash@.len() == 20,
    ensures
        r is Ok <==> (sha1_of(info_bytes@) == expected_hash@ && exists|iv: BencodeValue|
            wf(iv) && info_bytes@ == #[trigger] enc(iv) && info_fields_spec(iv) is Some),
        match r {
            Ok(m) => m.wf() && sha1_of(info_bytes@) == expected_hash@ && m.info_hash@
                == expected_hash@ && exists|iv: BencodeValue|
                {
                    &&& #[trigger] wf(iv)
                    &&& info_bytes@ == enc(iv)
                    &&& info_fields_spec(iv) matches Some((l, pl, pb, nb))
                    &&& m.length == l
                    &&& m.piece_length == pl
                    &&& m.piece_hashes@.len() == pb.len() / 20
                    &&& forall|i: int|
                        0 <= i < m.piece_hashes@.len() ==> (#[trigger] m.piece_hashes@[i])@
                            == pb.subrange(20 * i, 20 * i + 20)
                    &&& (match (m.file_name, nb) {
                        (Some(s), Some(b)) => s@ == decode_utf8(b),
                        (None, None) => true,
                        _ => false,
                    })
                },
            Err(e) => e == TorrentError::MetainfoError,
        },
{
    let digest = sha1_it(info_bytes);
    if !bytes_eq(&digest, expected_hash) {
        return Err(TorrentError::MetainfoError);
    }
    proof {
        assert forall|u: BencodeValue| wf(u) && info_bytes@ == #[trigger] enc(u) implies enc_at(
            info_bytes@,
            0,
            u,
        ) by {
            assert(info_bytes@.subrange(0, enc(u).len() as int) =~= info_bytes@);
        }
    }
    let decoded = match decode_bencoded_value(info_bytes) {
        Ok(t) => t,
        Err(_) => {
            proof {
                assert forall|u: BencodeValue| !(wf(u) && info_bytes@ == #[trigger] enc(u)) by {
                    if wf(u) && info_bytes@ == enc(u) {
                        assert(enc_at(info_bytes@, 0, u));
                    }
                }
            }
            return Err(TorrentError::MetainfoError);
        },
    };
    let iv = decoded.0;
    let end = decoded.1;
    if end != info_bytes.len() {
        proof {
            assert forall|u: BencodeValue| !(wf(u) && info_bytes@ == #[trigger] enc(u)) by {
                if wf(u) && info_bytes@ == enc(u) {
                    assert(enc_at(info_bytes@, 0, u));
                }
            }
        }
        return Err(TorrentError::MetainfoError);
    }
    proof {
        assert(info_bytes@.subrange(0, info_bytes@.len() as int) =~= info_bytes@);
    }
    let (length, piece_length, piece_hashes, file_name) = match extract_info(&iv) {
        Ok(t) => t,
        Err(e) => {
            proof {
                assert forall|u: BencodeValue|
                    !(wf(u) && info_bytes@ == #[trigger] enc(u) && info_fields_spec(u)
                        is Some) by {
                    if wf(u) && info_bytes@ == enc(u) {
                        assert(enc_at(info_bytes@, 0, u));
                        assert(structurally_equal(iv, u));
                        lemma_info_fields_congruent(iv, u);
                    }
                }
            }
            return Err(e);
        },
    };
    let m = MetaInfo {
        tracker_url,
        length,
        info_hash: digest,
        piece_length,
        piece_hashes,
        file_name,
    };
    proof {
        assert(m.wf());
        assert(wf(iv));
        assert(info_bytes@ == enc(iv));
    }
    Ok(m)
}

pub open spec fn m_key() -> Seq<u8> {
    seq![109u8]
}

pub open spec fn ut_metadata_key() -> Seq<u8> {
    seq![117u8, 116, 95, 109, 101, 116, 97, 100, 97, 116, 97]
}

pub open spec fn msg_type_key() -> Seq<u8> {
    seq![109u8, 115, 103, 95, 116, 121, 112, 101]
}

pub open spec fn piece_key() -> Seq<u8> {
    seq![112u8, 105, 101, 99, 101]
}

pub open spec fn total_size_key() -> Seq<u8> {
    seq![116u8, 111, 116, 97, 108, 95, 115, 105, 122, 101]
}

/// The payload of the extension handshake this client sends: sub-id 0, then
/// the bencoding of `{ "m": { "ut_metadata": 1 } }`.
pub open spec fn extension_handshake_bytes() -> Seq<u8> {
    seq![0u8] + seq![100u8] + str_token(m_key()) + seq![100u8] + str_token(ut_metadata_key())
        + seq![105u8, 49, 101] + seq![101u8] + seq![101u8]
}

/// Build the extension handshake payload.
pub fn build_extension_handshake() -> (r: Vec<u8>)
    ensures
        r@ == extension_handshake_bytes(),
{
    let inner_key = vec![117u8, 116, 95, 109, 101, 116, 97, 100, 97, 116, 97];
    let inner = BencodeValue::Dict(vec![(inner_key, BencodeValue::Int(1))]);
    let outer_key = vec![109u8];
    let outer = BencodeValue::Dict(vec![(outer_key, inner)]);
    let mut out: Vec<u8> = Vec::new();
    out.push(0);
    let mut body = encode_bencoded_value(&outer);
    proof {
        lemma_enc_singleton_dict(outer);
        match outer {
            BencodeValue::Dict(pairs) => {
                let inner_v = pairs@[0].1;
                assert(pairs@[0].0@ =~= m_key());
                lemma_enc_singleton_dict(inner_v);
                match inner_v {
                    BencodeValue::Dict(ip) => {
                        assert(ip@[0].0@ =~= ut_metadata_key());
                        assert(crate::numbers::dec_chars(1) =~= seq![49u8]);
                        assert(enc(ip@[0].1) =~= seq![105u8, 49, 101]);
                    },
                    _ => {},
                }
            },
            _ => {},
        }
    }
    out.append(&mut body);
    proof {
        assert(out@ =~= extension_handshake_bytes());
    }
    out
}

/// The bencoding of a dictionary with one entry.
proof fn lemma_enc_singleton_dict(v: BencodeValue)
    requires
        v matches BencodeValue::Dict(pairs) && pairs@.len() == 1,
    ensures
        v matches BencodeValue::Dict(pairs) ==> enc(v) =~= seq![100u8] + str_token(pairs@[0].0@)
            + enc(pairs@[0].1) + seq![101u8],
{
    match v {
        BencodeValue::Dict(pairs) => {
            let s = pairs@;
            assert(s.subrange(1, 1) =~= Seq::<(Vec<u8>, BencodeValue)>::empty());
            assert(enc_pairs(Seq::<(Vec<u8>, BencodeValue)>::empty()) =~= Seq::empty());
            assert(enc_pairs(s) =~= str_token(s[0].0@) + enc(s[0].1));
        },
        _ => {},
    }
}

/// The payload requesting metadata piece 0 from a peer that assigned
/// `ext_id` to `ut_metadata`: the sub-id, then the bencoding of
/// `{ "msg_type": 0, "piece": 0 }`.
pub open spec fn metadata_request_bytes(ext_id: u8) -> Seq<u8> {
    seq![ext_id] + seq![100u8] + str_token(msg_type_key()) + seq![105u8, 48, 101] + str_token(
        piece_key(),
    ) + seq![105u8, 48, 101] + seq![101u8]
}

/// Build the metadata request payload.
pub fn build_metadata_request(ext_id: u8) -> (r: Vec<u8>)
    ensures
        r@ == metadata_request_bytes(ext_id),
{
    let k1 = vec![109u8, 115, 103, 95, 116, 121, 112, 101];
    let k2 = vec![112u8, 105, 101, 99, 101];
    let dict = BencodeValue::Dict(
        vec![(k1, BencodeValue::Int(0)), (k2, BencodeValue::Int(0))],
    );
    let mut out: Vec<u8> = Vec::new();
    out.push(ext_id);
    let mut body = encode_bencoded_value(&dict);
    proof {
        match dict {
            BencodeValue::Dict(pairs) => {
                let s = pairs@;
                assert(s.subrange(1, 2).subrange(1, 1) =~= Seq::<(Vec<u8>, BencodeValue)>::empty());
                assert(enc_pairs(Seq::<(Vec<u8>, BencodeValue)>::empty()) =~= Seq::empty());
                assert(s.subrange(1, 2)[0] == s[1]);
                assert(enc_pairs(s.subrange(1, 2)) =~= str_token(s[1].0@) + enc(s[1].1));
                assert(enc_pairs(s) =~= str_token(s[0].0@) + enc(s[0].1) + str_token(s[1].0@)
                    + enc(s[1].1));
            },
            _ => {},
        }
    }
    out.append(&mut body);
    proof {
        assert(out@ =~= metadata_request_bytes(ext_id));
    }
    out
}

/// Whether a decoded extension handshake carries a byte-sized sub-id under
/// `m.ut_metadata`.
pub open spec fn extension_handshake_shape(v: BencodeValue) -> bool {
    &&& v matches BencodeValue::Dict(p)
    &&& dict_get(p@, m_key()) matches Some(mv)
    &&& mv matches BencodeValue::Dict(mp)
    &&& dict_get(mp@, ut_metadata_key()) matches Some(uv)
    &&& uv matches BencodeValue::Int(n)
    &&& 0 <= n <= 255
}

/// Read the peer's extension handshake payload (sub-id, then a bencoded
/// dictionary): the sub-id the peer assigned to `ut_metadata`.  It succeeds
/// exactly when such a dictionary follows the first byte.
pub fn parse_extension_handshake(payload: &Vec<u8>) -> (r: Result<u8, TorrentError>)
    ensures
        r is Ok <==> (payload@.len() >= 1 && exists|v: BencodeValue|
            #[trigger] enc_at(payload@, 1, v) && extension_handshake_shape(v)),
        match r {
            Ok(id) => exists|v: BencodeValue, end: int|
                #![trigger wf(v), payload@.subrange(1, end)]
                {
                    &&& wf(v)
                    &&& 1 < end <= payload@.len()
                    &&& payload@.subrange(1, end) == enc(v)
                    &&& v matches BencodeValue::Dict(p)
                    &&& dict_get(p@, m_key()) matches Some(mv)
                    &&& mv matches BencodeValue::Dict(mp)
                    &&& dict_get(mp@, ut_metadata_key()) == Some(BencodeValue::Int(id as i64))
                },
            Err(e) => e == TorrentError::UnexpectedMessage,
        },
{
    if payload.len() < 1 {
        return Err(TorrentError::UnexpectedMessage);
    }
    let decoded = match decode_at(payload, 1) {
        Ok(t) => t,
        Err(_) => {
            proof {
                assert forall|u: BencodeValue|
                    !(enc_at(payload@, 1, u) && extension_handshake_shape(u)) by {
                    if enc_at(payload@, 1, u) {
                    }
                }
            }
            return Err(TorrentError::UnexpectedMessage);
        },
    };
    let v = decoded.0;
    let p = match &v {
        BencodeValue::Dict(p) => p,
        _ => {
            proof {
                assert forall|u: BencodeValue|
                    !(enc_at(payload@, 1, u) && extension_handshake_shape(u)) by {
                    if enc_at(payload@, 1, u) {
                        assert(structurally_equal(v, u));
                    }
                }
            }
            return Err(TorrentError::UnexpectedMessage);
        },
    };
    let mk = vec![109u8];
    let utk = vec![117u8, 116, 95, 109, 101, 116, 97, 100, 97, 116, 97];
    proof {
        assert(mk@ =~= m_key());
        assert(utk@ =~= ut_metadata_key());
        assert forall|u: BencodeValue|
            enc_at(payload@, 1, u) && extension_handshake_shape(u) implies (match dict_get(
            p@,
            m_key(),
        ) {
            Some(BencodeValue::Dict(mpv)) => (match dict_get(mpv@, ut_metadata_key()) {
                Some(BencodeValue::Int(nv)) => 0 <= nv <= 255,
                _ => false,
            }),
            _ => false,
        }) by {
            assert(structurally_equal(v, u));
            match (v, u) {
                (BencodeValue::Dict(x), BencodeValue::Dict(y)) => {
                    lemma_dict_get_congruent(x@, y@, m_key());
                    match (dict_get(x@, m_key()), dict_get(y@, m_key())) {
                        (Some(BencodeValue::Dict(mx)), Some(BencodeValue::Dict(my))) => {
                            lemma_dict_get_congruent(mx@, my@, ut_metadata_key());
                        },
                        _ => {},
                    }
                },
                _ => {},
            }
        }
    }
    let mp = match dict_find(p, &mk) {
        Some(BencodeValue::Dict(mp)) => mp,
        _ => {
            proof {
                assert forall|u: BencodeValue|
                    !(enc_at(payload@, 1, u) && extension_handshake_shape(u)) by {}
            }
            return Err(TorrentError::UnexpectedMessage);
        },
    };
    let n = match dict_find(mp, &utk) {
        Some(BencodeValue::Int(n)) => *n,
        _ => {
            proof {
                assert forall|u: BencodeValue|
                    !(enc_at(payload@, 1, u) && extension_handshake_shape(u)) by {}
            }
            return Err(TorrentError::UnexpectedMessage);
        },
    };
    if n < 0 || n > 255 {
        proof {
            assert forall|u: BencodeValue|
                !(enc_at(payload@, 1, u) && extension_handshake_shape(u)) by {}
        }
        return Err(TorrentError::UnexpectedMessage);
    }
    proof {
        assert(enc_at(payload@, 1, v));
        assert(extension_handshake_shape(v));
    }
    Ok(n as u8)
}

/// Whether a decoded metadata-response header announces exactly the bytes
/// that follow it in a payload of the given length.
pub open spec fn metadata_response_shape(payload: Seq<u8>, v: BencodeValue) -> bool {
    &&& v matches BencodeValue::Dict(hp)
    &&& dict_get(hp@, total_size_key()) matches Some(tv)
    &&& tv matches BencodeValue::Int(n)
    &&& n == payload.len() - (1 + enc(v).len())
}

/// Split a metadata response payload (sub-id, a bencoded header with
/// `total_size`, then the raw `info` bytes) into the raw `info` bytes; their
/// length must equal `total_size`, and it succeeds exactly when such a
/// header follows the first byte.
pub fn parse_metadata_response(payload: &Vec<u8>) -> (r: Result<Vec<u8>, TorrentError>)
    ensures
        r is Ok <==> (payload@.len() >= 1 && exists|v: BencodeValue|
            #[trigger] enc_at(payload@, 1, v) && metadata_response_shape(payload@, v)),
        match r {
            Ok(ib) => exists|h: BencodeValue, end: int|
                #![trigger wf(h), payload@.subrange(1, end)]
                {
                    &&& wf(h)
                    &&& 1 < end <= payload@.len()
                    &&& payload@.subrange(1, end) == enc(h)
                    &&& h matches BencodeValue::Dict(hp)
                    &&& dict_get(hp@, total_size_key()) == Some(
                        BencodeValue::Int(ib@.len() as i64),
                    )
                    &&& ib@ == payload@.skip(end)
                },
            Err(e) => e == TorrentError::UnexpectedMessage,
        },
{
    if payload.len() < 1 {
        return Err(TorrentError::UnexpectedMessage);
    }
    let decoded = match decode_at(payload, 1) {
        Ok(t) => t,
        Err(_) => {
            proof {
                assert forall|u: BencodeValue|
                    !(enc_at(payload@, 1, u) && metadata_response_shape(payload@, u)) by {
                    if enc_at(payload@, 1, u) {
                    }
                }
            }
            return Err(TorrentError::UnexpectedMessage);
        },
    };
    let h = decoded.0;
    let end = decoded.1;
    let hp = match &h {
        BencodeValue::Dict(hp) => hp,
        _ => {
            proof {
                assert forall|u: BencodeValue|
                    !(enc_at(payload@, 1, u) && metadata_response_shape(payload@, u)) by {
                    if enc_at(payload@, 1, u) {
                        assert(structurally_equal(h, u));
                    }
                }
            }
            return Err(TorrentError::UnexpectedMessage);
        },
    };
    let tsk = vec![116u8, 111, 116, 97, 108, 95, 115, 105, 122, 101];
    proof {
        assert(tsk@ =~= total_size_key());
        assert forall|u: BencodeValue|
            enc_at(payload@, 1, u) && metadata_response_shape(payload@, u) implies (match
            dict_get(hp@, total_size_key()) {
            Some(BencodeValue::Int(nv)) => nv == payload@.len() - end,
            _ => false,
        }) by {
            assert(structurally_equal(h, u));
            lemma_enc_congruent(h, u);
            assert(end as int == 1 + enc(h).len());
            match (h, u) {
                (BencodeValue::Dict(x), BencodeValue::Dict(y)) => {
                    lemma_dict_get_congruent(x@, y@, total_size_key());
                },
                _ => {},
            }
        }
    }
    let n = match dict_find(hp, &tsk) {
        Some(BencodeValue::Int(n)) => *n,
        _ => {
            proof {
                assert forall|u: BencodeValue|
                    !(enc_at(payload@, 1, u) && metadata_response_shape(payload@, u)) by {}
            }
            return Err(TorrentError::UnexpectedMessage);
        },
    };
    let avail = payload.len() - end;
    if n < 0 || (n as u64) != (avail as u64) {
        proof {
            assert forall|u: BencodeValue|
                !(enc_at(payload@, 1, u) && metadata_response_shape(payload@, u)) by {}
        }
        return Err(TorrentError::UnexpectedMessage);
    }
    proof {
        assert(enc_at(payload@, 1, h));
        assert(end as int == 1 + enc(h).len());
        assert(metadata_response_shape(payload@, h));
    }
    let mut ib: Vec<u8> = Vec::new();
    let mut k: usize = end;
    #[verifier::loop_isolation(false)]
    while k < payload.len()
        invariant
            end <= k <= payload.len(),
            ib@ =~= payload@.subrange(end as int, k as int),
        decreases payload.len() - k,
    {
        ib.push(payload[k]);
        proof {
            assert(payload@.subrange(end as int, k + 1int) =~= payload@.subrange(
                end as int,
                k as int,
            ).push(payload@[k as int]));
        }
        k = k + 1;
    }
    proof {
        assert(ib@ =~= payload@.skip(end as int));
    }
    Ok(ib)
}

} // verus!
