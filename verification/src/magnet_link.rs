//! Magnet link parsing: `magnet:?xt=urn:btih:<40 hex>&tr=<url>&dn=<name>`.
use vstd::prelude::*;
use vstd::string::StrSliceExecFns;
use vstd::string::StringSliceAdditionalSpecFns;
use vstd::utf8::{decode_utf8, valid_utf8};

use crate::bencode::bytes_eq;
use crate::errors::TorrentError;
use crate::strconv::{hex_decode, hex_val, is_hex_digit, utf8_bytes_to_string};

verus! {

/// What a magnet link names: the tracker, the 20-byte info-hash, and a
/// display name.
#[derive(Debug, PartialEq, Eq)]
pub struct MagnetLink {
    pub tracker_url: String,
    pub hash: Vec<u8>,
    pub file_name: String,
}

/// What url::form_urlencoded::parse yields on a query string: the
/// `key=value` pairs split on `&`, percent-decoded, a function of the bytes
/// alone.
pub uninterp spec fn form_pairs_of(query: Seq<u8>) -> Seq<(Seq<u8>, Seq<u8>)>;

/// Relies on url::form_urlencoded::parse: it splits a query string into its
/// percent-decoded `key=value` pairs, in order.
#[verifier::external_body]
fn form_urlencoded_pairs(query: &Vec<u8>) -> (r: Vec<(Vec<u8>, Vec<u8>)>)
    ensures
        r@.len() == form_pairs_of(query@).len(),
        forall|i: int|
            0 <= i < r@.len() ==> (#[trigger] r@[i]).0@ == form_pairs_of(query@)[i].0 && r@[i].1@
                == form_pairs_of(query@)[i].1,
{
    url::form_urlencoded::parse(query.as_slice())
        .into_owned()
        .map(|(k, v)| (k.into_bytes(), v.into_bytes()))
        .collect()
}

/// The value of the first pair with the given key.
pub open spec fn find_param(pairs: Seq<(Seq<u8>, Seq<u8>)>, key: Seq<u8>) -> Option<Seq<u8>>
    decreases pairs.len(),
{
    if pairs.len() == 0 {
        None
    } else if pairs[0].0 == key {
        Some(pairs[0].1)
    } else {
        find_param(pairs.subrange(1, pairs.len() as int), key)
    }
}

pub open spec fn xt_key() -> Seq<u8> {
    seq![120u8, 116]
}

pub open spec fn tr_key() -> Seq<u8> {
    seq![116u8, 114]
}

pub open spec fn dn_key() -> Seq<u8> {
    seq![100u8, 110]
}

/// The prefix `urn:btih:` of the `xt` parameter.
pub open spec fn urn_btih() -> Seq<u8> {
    seq![117u8, 114, 110, 58, 98, 116, 105, 104, 58]
}

/// The view of a parameter list.
pub open spec fn pairs_view(pairs: Seq<(Vec<u8>, Vec<u8>)>) -> Seq<(Seq<u8>, Seq<u8>)> {
    Seq::new(pairs.len(), |i: int| (pairs[i].0@, pairs[i].1@))
}

/// What a well-formed parameter list of a magnet link denotes: the tracker
/// URL bytes, the 20 decoded info-hash bytes, and the display-name bytes.
/// `None` when `xt`, `tr` or `dn` is missing or `xt` is not `urn:btih:`
/// followed by 40 hex digits.
pub open spec fn magnet_spec(pairs: Seq<(Seq<u8>, Seq<u8>)>) -> Option<
    (Seq<u8>, Seq<u8>, Seq<u8>),
> {
    match (find_param(pairs, xt_key()), find_param(pairs, tr_key()), find_param(
        pairs,
        dn_key(),
    )) {
        (Some(xt), Some(tr), Some(dn)) => {
            if xt.len() == 49 && xt.take(9) == urn_btih() && (forall|i: int|
                9 <= i < 49 ==> is_hex_digit(#[trigger] xt[i]))  {
                Some(
                    (
                        tr,
                        Seq::new(
                            20,
                            |i: int| (16 * hex_val(xt[9 + 2 * i]) + hex_val(xt[10 + 2 * i])) as u8,
                        ),
                        dn,
                    ),
                )
            } else {
                None
            }
        },
        _ => None,
    }
}

/// Find the first pair with the given key, by byte-exact match.
fn find_param_exec<'a>(pairs: &'a Vec<(Vec<u8>, Vec<u8>)>, key: &Vec<u8>) -> (r: Option<
    &'a Vec<u8>,
>)
    ensures
        match r {
            Some(v) => find_param(pairs_view(pairs@), key@) == Some(v@),
            None => find_param(pairs_view(pairs@), key@) is None,
        },
{
    let ghost pv = pairs_view(pairs@);
    let mut i: usize = 0;
    proof {
        assert(pv.skip(0) =~= pv);
    }
    #[verifier::loop_isolation(false)]
    while i < pairs.len()
        invariant
            i <= pairs.len(),
            pv == pairs_view(pairs@),
            find_param(pv, key@) == find_param(pv.skip(i as int), key@),
        decreases pairs.len() - i,
    {
        proof {
            assert(pv.skip(i as int)[0] == pv[i as int]);
            assert(pv.skip(i as int).subrange(1, pv.skip(i as int).len() as int) =~= pv.skip(
                i + 1,
            ));
        }
        if bytes_eq(&pairs[i].0, key) {
            return Some(&pairs[i].1);
        }
        i = i + 1;
    }
    proof {
        assert(pv.skip(pv.len() as int) =~= Seq::<(Seq<u8>, Seq<u8>)>::empty());
    }
    None
}

/// Build a magnet link from its decoded `key=value` parameters: `xt` must be
/// `urn:btih:` followed by 40 hex digits, `tr` the tracker URL and `dn` the
/// display name, both UTF-8.
pub fn magnet_from_params(pairs: &Vec<(Vec<u8>, Vec<u8>)>) -> (r: Result<MagnetLink, TorrentError>)
    ensures
        r is Ok <==> (magnet_spec(pairs_view(pairs@)) matches Some((tb, hb, nb)) && valid_utf8(tb)
            && valid_utf8(nb)),
        match r {
            Ok(m) => magnet_spec(pairs_view(pairs@)) matches Some((tb, hb, nb))
                && m.tracker_url@ == decode_utf8(tb) && m.hash@ == hb && m.file_name@
                == decode_utf8(nb),
            Err(e) => e == TorrentError::MalformedMagnet,
        },
{
    let xt_k = vec![120u8, 116];
    let tr_k = vec![116u8, 114];
    let dn_k = vec![100u8, 110];
    proof {
        assert(xt_k@ =~= xt_key());
        assert(tr_k@ =~= tr_key());
        assert(dn_k@ =~= dn_key());
    }
    let xt = match find_param_exec(pairs, &xt_k) {
        Some(v) => v,
        None => {
            return Err(TorrentError::MalformedMagnet);
        },
    };
    let tr = match find_param_exec(pairs, &tr_k) {
        Some(v) => v,
        None => {
            return Err(TorrentError::MalformedMagnet);
        },
    };
    let dn = match find_param_exec(pairs, &dn_k) {
        Some(v) => v,
        None => {
            return Err(TorrentError::MalformedMagnet);
        },
    };
    if xt.len() != 49 {
        return Err(TorrentError::MalformedMagnet);
    }
    let prefix = vec![117u8, 114, 110, 58, 98, 116, 105, 104, 58];
    proof {
        assert(prefix@ =~= urn_btih());
    }
    let mut i: usize = 0;
    #[verifier::loop_isolation(false)]
    while i < 9
        invariant
            i <= 9,
            forall|j: int| 0 <= j < i ==> xt@[j] == urn_btih()[j],
        decreases 9 - i,
    {
        if xt[i] != prefix[i] {
            proof {
                assert(xt@.take(9)[i as int] != urn_btih()[i as int]);
            }
            return Err(TorrentError::MalformedMagnet);
        }
        i = i + 1;
    }
    proof {
        assert(xt@.take(9) =~= urn_btih());
    }
    let mut hexpart: Vec<u8> = Vec::new();
    let mut j: usize = 9;
    #[verifier::loop_isolation(false)]
    while j < 49
        invariant
            9 <= j <= 49,
            xt@.len() == 49,
            hexpart@ =~= xt@.subrange(9, j as int),
        decreases 49 - j,
    {
        hexpart.push(xt[j]);
        proof {
            assert(xt@.subrange(9, j + 1int) =~= xt@.subrange(9, j as int).push(xt@[j as int]));
        }
        j = j + 1;
    }
    let hash = match hex_decode(&hexpart) {
        Some(h) => h,
        None => {
            proof {
                let ghost bad = choose|i: int|
                    0 <= i < hexpart@.len() && !is_hex_digit(#[trigger] hexpart@[i]);
                assert(hexpart@.len() % 2 == 0);
                assert(!is_hex_digit(xt@[9 + bad]));
            }
            return Err(TorrentError::MalformedMagnet);
        },
    };
    proof {
        assert forall|i: int| 9 <= i < 49 implies is_hex_digit(#[trigger] xt@[i]) by {
            assert(is_hex_digit(hexpart@[i - 9]));
        }
        assert(hash@ =~= Seq::new(
            20,
            |i: int| (16 * hex_val(xt@[9 + 2 * i]) + hex_val(xt@[10 + 2 * i])) as u8,
        ));
    }
    let tracker_url = match utf8_bytes_to_string(tr) {
        Some(s) => s,
        None => {
            return Err(TorrentError::MalformedMagnet);
        },
    };
    let file_name = match utf8_bytes_to_string(dn) {
        Some(s) => s,
        None => {
            return Err(TorrentError::MalformedMagnet);
        },
    };
    Ok(MagnetLink { tracker_url, hash, file_name })
}

/// The prefix `magnet:?`.
pub open spec fn magnet_prefix() -> Seq<u8> {
    seq![109u8, 97, 103, 110, 101, 116, 58, 63]
}

/// Parse a magnet URI: it must start with `magnet:?`; the rest is a
/// URL-encoded parameter list with at least `xt=urn:btih:<40 hex>`, `tr` and
/// `dn`.
pub fn parse_magnet_link_url(magnet_link_url: &str) -> (r: Result<MagnetLink, TorrentError>)
    ensures
        r is Ok <==> (magnet_link_url.spec_bytes().len() >= 8 && magnet_link_url.spec_bytes().take(
            8,
        ) == magnet_prefix() && (magnet_spec(
            form_pairs_of(magnet_link_url.spec_bytes().skip(8)),
        ) matches Some((tb, hb, nb)) && valid_utf8(tb) && valid_utf8(nb))),
        match r {
            Ok(m) => magnet_spec(form_pairs_of(magnet_link_url.spec_bytes().skip(8))) matches Some(
                (tb, hb, nb),
            ) && m.tracker_url@ == decode_utf8(tb) && m.hash@ == hb && m.file_name@ == decode_utf8(
                nb,
            ),
            Err(e) => e == TorrentError::MalformedMagnet,
        },
{
    let bytes = magnet_link_url.as_bytes_vec();
    if bytes.len() < 8 {
        return Err(TorrentError::MalformedMagnet);
    }
    let prefix = vec![109u8, 97, 103, 110, 101, 116, 58, 63];
    proof {
        assert(prefix@ =~= magnet_prefix());
    }
    let mut i: usize = 0;
    #[verifier::loop_isolation(false)]
    while i < 8
        invariant
            i <= 8,
            forall|j: int| 0 <= j < i ==> bytes@[j] == magnet_prefix()[j],
        decreases 8 - i,
    {
        if bytes[i] != prefix[i] {
            proof {
                assert(bytes@.take(8)[i as int] != magnet_prefix()[i as int]);
            }
            return Err(TorrentError::MalformedMagnet);
        }
        i = i + 1;
    }
    proof {
        assert(bytes@.take(8) =~= magnet_prefix());
    }
    let mut query: Vec<u8> = Vec::new();
    let mut k: usize = 8;
    #[verifier::loop_isolation(false)]
    while k < bytes.len()
        invariant
            8 <= k <= bytes.len(),
            query@ =~= bytes@.subrange(8, k as int),
        decreases bytes.len() - k,
    {
        query.push(bytes[k]);
        proof {
            assert(bytes@.subrange(8, k + 1int) =~= bytes@.subrange(8, k as int).push(
                bytes@[k as int],
            ));
        }
        k = k + 1;
    }
    proof {
        assert(query@ =~= bytes@.skip(8));
    }
    let pairs = form_urlencoded_pairs(&query);
    proof {
        assert(pairs_view(pairs@) =~= form_pairs_of(query@));
    }
    magnet_from_params(&pairs)
}

} // verus!
