//! Tracker announce handling: the query string this client sends and the
//! decoding of the peer list the tracker returns.
//!
//! The HTTP exchange itself is the surrounding program's business; it hands
//! the response body to `parse_tracker_response` as plain bytes.
use vstd::prelude::*;

use crate::bencode::{
    BencodeValue, decode_bencoded_value, dict_get, dict_find, enc, enc_at,
    lemma_dict_get_congruent, structurally_equal, wf,
};
use crate::errors::TorrentError;
use crate::messaging::client_peer_id;
use crate::numbers::{all_digits, dec_chars, lemma_dec_chars_props, u64_to_dec};
use crate::strconv::{chars_of_ascii, utf8_bytes_to_string, lemma_ascii_decode};

verus! {

/// The textual form `a.b.c.d:port` of a 6-byte compact peer entry: four
/// octets and a big-endian 16-bit port.
pub open spec fn peer_addr_bytes(g: Seq<u8>) -> Seq<u8>
    recommends
        g.len() == 6,
{
    dec_chars(g[0] as int) + seq![46u8] + dec_chars(g[1] as int) + seq![46u8] + dec_chars(
        g[2] as int,
    ) + seq![46u8] + dec_chars(g[3] as int) + seq![58u8] + dec_chars(g[4] * 256 + g[5])
}

/// Append the decimal rendering of `n`.
fn push_dec(out: &mut Vec<u8>, n: u64)
    ensures
        final(out)@ == old(out)@ + dec_chars(n as int),
        all_digits(dec_chars(n as int)),
{
    let mut digits = u64_to_dec(n);
    out.append(&mut digits);
    proof {
        lemma_dec_chars_props(n as int);
    }
}

/// Format one compact peer entry as `a.b.c.d:port`.
pub fn parse_peer_address(encoded_peer: &[u8]) -> (r: String)
    requires
        encoded_peer@.len() == 6,
    ensures
        r@ == chars_of_ascii(peer_addr_bytes(encoded_peer@)),
{
    let mut b: Vec<u8> = Vec::new();
    push_dec(&mut b, encoded_peer[0] as u64);
    b.push(46);
    push_dec(&mut b, encoded_peer[1] as u64);
    b.push(46);
    push_dec(&mut b, encoded_peer[2] as u64);
    b.push(46);
    push_dec(&mut b, encoded_peer[3] as u64);
    b.push(58);
    let port: u64 = (encoded_peer[4] as u64) * 256 + (encoded_peer[5] as u64);
    push_dec(&mut b, port);
    proof {
        assert(b@ =~= peer_addr_bytes(encoded_peer@));
        assert forall|i: int| 0 <= i < b@.len() implies #[trigger] b@[i] < 128 by {
            lemma_dec_chars_props(encoded_peer@[0] as int);
            lemma_dec_chars_props(encoded_peer@[1] as int);
            lemma_dec_chars_props(encoded_peer@[2] as int);
            lemma_dec_chars_props(encoded_peer@[3] as int);
            lemma_dec_chars_props(encoded_peer@[4] * 256 + encoded_peer@[5]);
        }
        lemma_ascii_decode(b@);
    }
    match utf8_bytes_to_string(&b) {
        Some(s) => {
            proof {
                assert(s@ =~= chars_of_ascii(peer_addr_bytes(encoded_peer@)));
            }
            s
        },
        None => {
            proof {
                assert(false);
            }
            String::new()
        },
    }
}

/// The dictionary key `peers`.
pub open spec fn peers_key() -> Seq<u8> {
    seq![112u8, 101, 101, 114, 115]
}

/// Whether a decoded announce response is a dictionary whose `peers` value
/// is a whole number of 6-byte entries.
pub open spec fn tracker_shape(v: BencodeValue) -> bool {
    &&& v matches BencodeValue::Dict(pairs)
    &&& dict_get(pairs@, peers_key()) matches Some(pv)
    &&& pv matches BencodeValue::Bytes(pb)
    &&& pb@.len() % 6 == 0
}

/// Decode a tracker announce response: a bencoded dictionary whose `peers`
/// value is a byte string of 6-byte compact entries, each formatted as
/// `a.b.c.d:port`.  It succeeds exactly when the body starts with such a
/// dictionary.
pub fn parse_tracker_response(body: &Vec<u8>) -> (r: Result<Vec<String>, TorrentError>)
    ensures
        r is Ok <==> exists|v: BencodeValue|
            #[trigger] enc_at(body@, 0, v) && tracker_shape(v),
        match r {
            Ok(list) => exists|v: BencodeValue, end: int|
                #![trigger wf(v), body@.subrange(0, end)]
                {
                    &&& wf(v)
                    &&& 0 < end <= body@.len()
                    &&& body@.subrange(0, end) == enc(v)
                    &&& v matches BencodeValue::Dict(pairs)
                    &&& dict_get(pairs@, peers_key()) matches Some(pv)
                    &&& pv matches BencodeValue::Bytes(pb)
                    &&& pb@.len() % 6 == 0
                    &&& list@.len() == pb@.len() / 6
                    &&& forall|i: int|
                        0 <= i < list@.len() ==> (#[trigger] list@[i])@ == chars_of_ascii(
                            peer_addr_bytes(pb@.subrange(6 * i, 6 * i + 6)),
                        )
                },
            Err(e) => e == TorrentError::TrackerDecodeError || e
                == TorrentError::MalformedPeerList,
        },
{
    let decoded = match decode_bencoded_value(body) {
        Ok(t) => t,
        Err(_) => {
            proof {
                assert forall|u: BencodeValue| !(enc_at(body@, 0, u) && tracker_shape(u)) by {
                    if enc_at(body@, 0, u) {
                    }
                }
            }
            return Err(TorrentError::TrackerDecodeError);
        },
    };
    let v = decoded.0;
    let pairs = match &v {
        BencodeValue::Dict(pairs) => pairs,
        _ => {
            proof {
                assert forall|u: BencodeValue| !(enc_at(body@, 0, u) && tracker_shape(u)) by {
                    if enc_at(body@, 0, u) {
                        assert(structurally_equal(v, u));
                    }
                }
            }
            return Err(TorrentError::TrackerDecodeError);
        },
    };
    let key = vec![112u8, 101, 101, 114, 115];
    proof {
        assert(key@ =~= peers_key());
        assert forall|u: BencodeValue|
            enc_at(body@, 0, u) && tracker_shape(u) implies (match (v, u) {
            (BencodeValue::Dict(vp), BencodeValue::Dict(up)) => (match (dict_get(
                vp@,
                peers_key(),
            ), dict_get(up@, peers_key())) {
                (Some(BencodeValue::Bytes(a)), Some(BencodeValue::Bytes(b))) => a@ == b@,
                _ => false,
            }),
            _ => false,
        }) by {
            assert(structurally_equal(v, u));
            match (v, u) {
                (BencodeValue::Dict(vp), BencodeValue::Dict(up)) => {
                    lemma_dict_get_congruent(vp@, up@, peers_key());
                },
                _ => {},
            }
        }
    }
    let pb = match dict_find(pairs, &key) {
        Some(BencodeValue::Bytes(pb)) => pb,
        _ => {
            proof {
                assert forall|u: BencodeValue| !(enc_at(body@, 0, u) && tracker_shape(u)) by {}
            }
            return Err(TorrentError::TrackerDecodeError);
        },
    };
    if pb.len() % 6 != 0 {
        proof {
            assert forall|u: BencodeValue| !(enc_at(body@, 0, u) && tracker_shape(u)) by {}
        }
        return Err(TorrentError::MalformedPeerList);
    }
    proof {
        assert(enc_at(body@, 0, v)) by {
            assert(body@.subrange(0, enc(v).len() as int) == enc(v));
        }
        assert(tracker_shape(v));
    }
    let n = pb.len() / 6;
    let mut list: Vec<String> = Vec::new();
    let mut i: usize = 0;
    #[verifier::loop_isolation(false)]
    while i < n
        invariant
            i <= n,
            n == pb@.len() / 6,
            pb@.len() % 6 == 0,
            list@.len() == i as int,
            forall|j: int|
                0 <= j < i as int ==> (#[trigger] list@[j])@ == chars_of_ascii(
                    peer_addr_bytes(pb@.subrange(6 * j, 6 * j + 6)),
                ),
        decreases n - i,
    {
        proof {
            assert(6 * (i as int) + 6 <= pb@.len()) by (nonlinear_arith)
                requires
                    (i as int) < n as int,
                    n == pb@.len() / 6,
                    pb@.len() % 6 == 0,
            ;
        }
        let entry = &pb.as_slice()[6 * i..6 * i + 6];
        proof {
            assert(entry@ =~= pb@.subrange(6 * (i as int), 6 * (i as int) + 6));
        }
        let addr = parse_peer_address(entry);
        list.push(addr);
        i = i + 1;
    }
    proof {
        assert(wf(v));
    }
    Ok(list)
}

/// An uppercase hex digit byte.
pub open spec fn hex_upper(n: int) -> u8
    recommends
        0 <= n < 16,
{
    if n < 10 {
        (48 + n) as u8
    } else {
        (55 + n) as u8
    }
}

/// Every byte percent-escaped: `%XX` with uppercase hex digits.
pub open spec fn percent_enc(b: Seq<u8>) -> Seq<u8> {
    Seq::new(
        b.len() * 3,
        |i: int|
            if i % 3 == 0 {
                37u8
            } else if i % 3 == 1 {
                hex_upper((b[i / 3] >> 4) as int)
            } else {
                hex_upper((b[i / 3] & 0xf) as int)
            },
    )
}

pub open spec fn lit_info_hash() -> Seq<u8> {
    seq![105u8, 110, 102, 111, 95, 104, 97, 115, 104, 61]
}

pub open spec fn lit_peer_id() -> Seq<u8> {
    seq![38u8, 112, 101, 101, 114, 95, 105, 100, 61]
}

pub open spec fn lit_port() -> Seq<u8> {
    seq![38u8, 112, 111, 114, 116, 61]
}

pub open spec fn lit_counters() -> Seq<u8> {
    seq![
        38u8, 117, 112, 108, 111, 97, 100, 101, 100, 61, 48, 38, 100, 111, 119, 110, 108, 111, 97,
        100, 101, 100, 61, 48, 38, 108, 101, 102, 116, 61,
    ]
}

pub open spec fn lit_compact() -> Seq<u8> {
    seq![38u8, 99, 111, 109, 112, 97, 99, 116, 61, 49]
}

/// Percent-escaping produces ASCII bytes alone.
pub proof fn lemma_percent_enc_ascii(b: Seq<u8>)
    ensures
        forall|i: int| 0 <= i < percent_enc(b).len() ==> #[trigger] percent_enc(b)[i] < 128,
{
    assert forall|i: int| 0 <= i < percent_enc(b).len() implies #[trigger] percent_enc(b)[i]
        < 128 by {
        let x = b[i / 3];
        assert(x >> 4 < 16 && (x & 0xf) < 16) by (bit_vector);
    }
}

/// The announce query string: the info-hash percent-escaped byte by byte,
/// this client's id, the advertised port, zero counters, the bytes still
/// wanted, and the compact flag.
pub open spec fn announce_query_bytes(info_hash: Seq<u8>, left: int, port: int) -> Seq<u8> {
    lit_info_hash() + percent_enc(info_hash) + lit_peer_id() + client_peer_id() + lit_port()
        + dec_chars(port) + lit_counters() + dec_chars(left) + lit_compact()
}

/// Build the query string of the announce request:
/// `info_hash=...&peer_id=...&port=...&uploaded=0&downloaded=0&left=...&compact=1`.
pub fn announce_query(info_hash: &Vec<u8>, left: u64, port: u16) -> (r: String)
    requires
        info_hash@.len() == 20,
    ensures
        r@ == chars_of_ascii(announce_query_bytes(info_hash@, left as int, port as int)),
{
    let mut b: Vec<u8> = vec![105u8, 110, 102, 111, 95, 104, 97, 115, 104, 61];
    proof {
        assert(b@ =~= lit_info_hash());
    }
    let mut i: usize = 0;
    #[verifier::loop_isolation(false)]
    while i < info_hash.len()
        invariant
            i <= info_hash.len(),
            b@ =~= lit_info_hash() + percent_enc(info_hash@.take(i as int)),
        decreases info_hash.len() - i,
    {
        let x = info_hash[i];
        proof {
            assert(x >> 4 < 16 && (x & 0xf) < 16) by (bit_vector);
        }
        b.push(37);
        b.push(hex_upper_digit(x >> 4));
        b.push(hex_upper_digit(x & 0xf));
        proof {
            assert(b@ =~= lit_info_hash() + percent_enc(info_hash@.take(i + 1int)));
        }
        i = i + 1;
    }
    proof {
        assert(info_hash@.take(info_hash@.len() as int) =~= info_hash@);
    }
    let mut part = vec![38u8, 112, 101, 101, 114, 95, 105, 100, 61];
    proof {
        assert(part@ =~= lit_peer_id());
    }
    b.append(&mut part);
    let mut pid = vec![
        48u8, 48, 49, 49, 50, 50, 51, 51, 52, 52, 53, 53, 54, 54, 55, 55, 56, 56, 57, 57,
    ];
    proof {
        assert(pid@ =~= client_peer_id());
    }
    b.append(&mut pid);
    let mut part2 = vec![38u8, 112, 111, 114, 116, 61];
    proof {
        assert(part2@ =~= lit_port());
    }
    b.append(&mut part2);
    push_dec(&mut b, port as u64);
    let mut part3 = vec![
        38u8, 117, 112, 108, 111, 97, 100, 101, 100, 61, 48, 38, 100, 111, 119, 110, 108, 111, 97,
        100, 101, 100, 61, 48, 38, 108, 101, 102, 116, 61,
    ];
    proof {
        assert(part3@ =~= lit_counters());
    }
    b.append(&mut part3);
    push_dec(&mut b, left);
    let mut part4 = vec![38u8, 99, 111, 109, 112, 97, 99, 116, 61, 49];
    proof {
        assert(part4@ =~= lit_compact());
    }
    b.append(&mut part4);
    proof {
        assert(b@ =~= announce_query_bytes(info_hash@, left as int, port as int));
        assert forall|j: int| 0 <= j < b@.len() implies #[trigger] b@[j] < 128 by {
            lemma_dec_chars_props(port as int);
            lemma_dec_chars_props(left as int);
            lemma_percent_enc_ascii(info_hash@);
        }
        lemma_ascii_decode(b@);
    }
    match utf8_bytes_to_string(&b) {
        Some(s) => {
            proof {
                assert(s@ =~= chars_of_ascii(announce_query_bytes(
                    info_hash@,
                    left as int,
                    port as int,
                )));
            }
            s
        },
        None => {
            proof {
                assert(false);
            }
            String::new()
        },
    }
}

/// The uppercase hex digit byte with value `n`.
fn hex_upper_digit(n: u8) -> (r: u8)
    requires
        n < 16,
    ensures
        r == hex_upper(n as int),
{
    if n < 10 {
        48 + n
    } else {
        55 + n
    }
}

} // verus!
