//! Bencode codec: the self-describing binary encoding used by metainfo files
//! and tracker responses.
//!
//! `enc` is the canonical encoding, a spec-level function of the value alone.
//! The decoder accepts exactly the canonical encodings (no padded integers,
//! no unsorted dictionaries), so decoding and re-encoding is the identity on
//! the consumed bytes, and encoding then decoding gives the value back.
use vstd::prelude::*;

use crate::numbers::{
    all_digits, canonical_digits, dec_chars, digits_val, is_digit, lemma_dec_chars_props,
    parse_dec_u64, u64_to_dec,
};

verus! {

/// A bencoded value: integer, raw byte string, list, or dictionary with
/// byte-string keys in insertion order.
#[derive(Debug, PartialEq, Eq)]
pub enum BencodeValue {
    Int(i64),
    Bytes(Vec<u8>),
    List(Vec<BencodeValue>),
    Dict(Vec<(Vec<u8>, BencodeValue)>),
}

/// Why a byte sequence is not a canonical bencoded value.
#[derive(Debug, PartialEq, Eq, Structural, Clone, Copy)]
pub enum BenDecodeErrors {
    /// The first byte of a value is none of `i`, a digit, `l`, `d`.
    UnexpectedByte,
    /// An `i...e` token with padding, a bare sign, `-0`, or a value outside
    /// the signed 64-bit range.
    InvalidInteger,
    /// A string length with padded zeroes, without digits, or too large for
    /// this machine.
    InvalidStringLength,
    /// The input ends inside a value.
    TruncatedInput,
    /// A dictionary key with no value following it.
    MissingDictValue,
    /// Dictionary keys not strictly increasing in byte-lexicographic order.
    UnsortedKeys,
}

/// The string token `<len>:<bytes>`.
pub open spec fn str_token(bs: Seq<u8>) -> Seq<u8> {
    dec_chars(bs.len() as int) + seq![58u8] + bs
}

/// The canonical decimal rendering of a signed integer.
pub open spec fn int_chars(i: int) -> Seq<u8> {
    if i < 0 {
        seq![45u8] + dec_chars(-i)
    } else {
        dec_chars(i)
    }
}

/// The canonical bencoding of a value.
pub open spec fn enc(v: BencodeValue) -> Seq<u8>
    decreases v,
{
    match v {
        BencodeValue::Int(i) => seq![105u8] + int_chars(i as int) + seq![101u8],
        BencodeValue::Bytes(bs) => str_token(bs@),
        BencodeValue::List(items) => seq![108u8] + enc_seq(items@) + seq![101u8],
        BencodeValue::Dict(pairs) => seq![100u8] + enc_pairs(pairs@) + seq![101u8],
    }
}

/// The concatenated encodings of the elements of a list.
pub open spec fn enc_seq(s: Seq<BencodeValue>) -> Seq<u8>
    decreases s,
{
    if s.len() == 0 {
        Seq::empty()
    } else {
        enc(s[0]) + enc_seq(s.subrange(1, s.len() as int))
    }
}

/// The concatenated `key value` encodings of the entries of a dictionary.
pub open spec fn enc_pairs(s: Seq<(Vec<u8>, BencodeValue)>) -> Seq<u8>
    decreases s,
{
    if s.len() == 0 {
        Seq::empty()
    } else {
        str_token(s[0].0@) + enc(s[0].1) + enc_pairs(s.subrange(1, s.len() as int))
    }
}

/// Strict byte-lexicographic order.
pub open spec fn lex_lt(a: Seq<u8>, b: Seq<u8>) -> bool
    decreases a.len(),
{
    if b.len() == 0 {
        false
    } else if a.len() == 0 {
        true
    } else if a[0] < b[0] {
        true
    } else if a[0] > b[0] {
        false
    } else {
        lex_lt(a.subrange(1, a.len() as int), b.subrange(1, b.len() as int))
    }
}

/// Structural validity: every dictionary, at any depth, has its keys in
/// strictly increasing byte-lexicographic order.
pub open spec fn wf(v: BencodeValue) -> bool
    decreases v,
{
    match v {
        BencodeValue::Int(_) => true,
        BencodeValue::Bytes(_) => true,
        BencodeValue::List(items) => forall|i: int|
            0 <= i < items@.len() ==> wf(#[trigger] items@[i]),
        BencodeValue::Dict(pairs) => {
            &&& forall|i: int| 0 <= i < pairs@.len() ==> wf(#[trigger] (pairs@[i].1))
            &&& forall|i: int|
                0 <= i < pairs@.len() - 1 ==> lex_lt(
                    #[trigger] (pairs@[i].0)@,
                    (pairs@[i + 1].0)@,
                )
        },
    }
}

/// The value of the first entry whose key is byte-exact `key`.
pub open spec fn dict_get(pairs: Seq<(Vec<u8>, BencodeValue)>, key: Seq<u8>) -> Option<
    BencodeValue,
>
    decreases pairs.len(),
{
    if pairs.len() == 0 {
        None
    } else if pairs[0].0@ == key {
        Some(pairs[0].1)
    } else {
        dict_get(pairs.subrange(1, pairs.len() as int), key)
    }
}

/// Byte-exact comparison.
pub fn bytes_eq(a: &Vec<u8>, b: &Vec<u8>) -> (r: bool)
    ensures
        r == (a@ == b@),
{
    if a.len() != b.len() {
        return false;
    }
    let mut i: usize = 0;
    #[verifier::loop_isolation(false)]
    while i < a.len()
        invariant
            i <= a.len(),
            a@.len() == b@.len(),
            forall|j: int| 0 <= j < i ==> a@[j] == b@[j],
        decreases a.len() - i,
    {
        if a[i] != b[i] {
            return false;
        }
        i = i + 1;
    }
    proof {
        assert(a@ =~= b@);
    }
    true
}

/// Look `key` up in a dictionary's entries, by byte-exact match on the key.
pub fn dict_find<'a>(pairs: &'a Vec<(Vec<u8>, BencodeValue)>, key: &Vec<u8>) -> (r: Option<
    &'a BencodeValue,
>)
    ensures
        match r {
            Some(v) => dict_get(pairs@, key@) == Some(*v),
            None => dict_get(pairs@, key@) is None,
        },
{
    let mut i: usize = 0;
    proof {
        assert(pairs@.skip(0) =~= pairs@);
    }
    #[verifier::loop_isolation(false)]
    while i < pairs.len()
        invariant
            i <= pairs.len(),
            dict_get(pairs@, key@) == dict_get(pairs@.skip(i as int), key@),
        decreases pairs.len() - i,
    {
        proof {
            assert(pairs@.skip(i as int)[0] == pairs@[i as int]);
            assert(pairs@.skip(i as int).subrange(
                1,
                pairs@.skip(i as int).len() as int,
            ) =~= pairs@.skip(i + 1));
        }
        if bytes_eq(&pairs[i].0, key) {
            return Some(&pairs[i].1);
        }
        i = i + 1;
    }
    proof {
        assert(pairs@.skip(pairs@.len() as int) =~= Seq::<(Vec<u8>, BencodeValue)>::empty());
    }
    None
}

pub proof fn lemma_enc_seq_concat(s1: Seq<BencodeValue>, s2: Seq<BencodeValue>)
    ensures
        enc_seq(s1 + s2) =~= enc_seq(s1) + enc_seq(s2),
    decreases s1,
{
    if s1.len() == 0 {
        assert(s1 + s2 =~= s2);
        assert(enc_seq(s1) =~= Seq::empty());
    } else {
        let t = s1.subrange(1, s1.len() as int);
        lemma_enc_seq_concat(t, s2);
        assert((s1 + s2).subrange(1, (s1 + s2).len() as int) =~= t + s2);
        assert((s1 + s2)[0] == s1[0]);
        assert(enc_seq(s1 + s2) =~= enc(s1[0]) + enc_seq(t + s2));
    }
}

pub proof fn lemma_enc_pairs_concat(s1: Seq<(Vec<u8>, BencodeValue)>, s2: Seq<(Vec<u8>, BencodeValue)>)
    ensures
        enc_pairs(s1 + s2) =~= enc_pairs(s1) + enc_pairs(s2),
    decreases s1,
{
    if s1.len() == 0 {
        assert(s1 + s2 =~= s2);
        assert(enc_pairs(s1) =~= Seq::empty());
    } else {
        let t = s1.subrange(1, s1.len() as int);
        lemma_enc_pairs_concat(t, s2);
        assert((s1 + s2).subrange(1, (s1 + s2).len() as int) =~= t + s2);
        assert((s1 + s2)[0] == s1[0]);
        assert(enc_pairs(s1 + s2) =~= str_token(s1[0].0@) + enc(s1[0].1) + enc_pairs(t + s2));
    }
}

/// Structural equality of values: equal integers, byte-equal strings and
/// keys, and equal children, position by position.
pub open spec fn structurally_equal(a: BencodeValue, b: BencodeValue) -> bool
    decreases a,
{
    match (a, b) {
        (BencodeValue::Int(x), BencodeValue::Int(y)) => x == y,
        (BencodeValue::Bytes(x), BencodeValue::Bytes(y)) => x@ == y@,
        (BencodeValue::List(x), BencodeValue::List(y)) => x@.len() == y@.len() && (forall|i: int|
            0 <= i < x@.len() ==> structurally_equal(#[trigger] x@[i], y@[i])),
        (BencodeValue::Dict(x), BencodeValue::Dict(y)) => x@.len() == y@.len() && (forall|i: int|
            0 <= i < x@.len() ==> ((#[trigger] x@[i]).0@ == y@[i].0@ && structurally_equal(
                x@[i].1,
                y@[i].1,
            ))),
        _ => false,
    }
}

/// Structurally equal values have the same canonical encoding.
pub proof fn lemma_enc_congruent(a: BencodeValue, b: BencodeValue)
    requires
        structurally_equal(a, b),
    ensures
        enc(a) == enc(b),
    decreases a,
{
    match (a, b) {
        (BencodeValue::Int(_), BencodeValue::Int(_)) => {},
        (BencodeValue::Bytes(_), BencodeValue::Bytes(_)) => {},
        (BencodeValue::List(x), BencodeValue::List(y)) => {
            lemma_enc_seq_congruent(x@, y@);
        },
        (BencodeValue::Dict(x), BencodeValue::Dict(y)) => {
            lemma_enc_pairs_congruent(x@, y@);
        },
        _ => {},
    }
}

proof fn lemma_enc_seq_congruent(x: Seq<BencodeValue>, y: Seq<BencodeValue>)
    requires
        x.len() == y.len(),
        forall|i: int| 0 <= i < x.len() ==> structurally_equal(#[trigger] x[i], y[i]),
    ensures
        enc_seq(x) == enc_seq(y),
    decreases x,
{
    if x.len() > 0 {
        lemma_enc_congruent(x[0], y[0]);
        let xt = x.subrange(1, x.len() as int);
        let yt = y.subrange(1, y.len() as int);
        assert(forall|i: int| 0 <= i < xt.len() ==> structurally_equal(#[trigger] xt[i], yt[i]))
            by {
            assert(forall|i: int|
                0 <= i < xt.len() ==> xt[i] == x[i + 1] && yt[i] == y[i + 1]);
        }
        lemma_enc_seq_congruent(xt, yt);
    }
}

proof fn lemma_enc_pairs_congruent(x: Seq<(Vec<u8>, BencodeValue)>, y: Seq<(Vec<u8>, BencodeValue)>)
    requires
        x.len() == y.len(),
        forall|i: int|
            0 <= i < x.len() ==> ((#[trigger] x[i]).0@ == y[i].0@ && structurally_equal(
                x[i].1,
                y[i].1,
            )),
    ensures
        enc_pairs(x) == enc_pairs(y),
    decreases x,
{
    if x.len() > 0 {
        lemma_enc_congruent(x[0].1, y[0].1);
        let xt = x.subrange(1, x.len() as int);
        let yt = y.subrange(1, y.len() as int);
        assert(forall|i: int|
            0 <= i < xt.len() ==> ((#[trigger] xt[i]).0@ == yt[i].0@ && structurally_equal(
                xt[i].1,
                yt[i].1,
            ))) by {
            assert(forall|i: int|
                0 <= i < xt.len() ==> xt[i] == x[i + 1] && yt[i] == y[i + 1]);
        }
        lemma_enc_pairs_congruent(xt, yt);
    }
}

/// Looking a key up in two entry lists with byte-equal keys and structurally
/// equal values gives either nothing from both, or structurally equal values.
pub proof fn lemma_dict_get_congruent(
    x: Seq<(Vec<u8>, BencodeValue)>,
    y: Seq<(Vec<u8>, BencodeValue)>,
    key: Seq<u8>,
)
    requires
        x.len() == y.len(),
        forall|i: int|
            0 <= i < x.len() ==> ((#[trigger] x[i]).0@ == y[i].0@ && structurally_equal(
                x[i].1,
                y[i].1,
            )),
    ensures
        match (dict_get(x, key), dict_get(y, key)) {
            (None, None) => true,
            (Some(a), Some(b)) => structurally_equal(a, b),
            _ => false,
        },
    decreases x.len(),
{
    if x.len() > 0 {
        if x[0].0@ != key {
            let xt = x.subrange(1, x.len() as int);
            let yt = y.subrange(1, y.len() as int);
            assert(forall|i: int|
                0 <= i < xt.len() ==> xt[i] == x[i + 1] && yt[i] == y[i + 1]);
            lemma_dict_get_congruent(xt, yt, key);
        }
    }
}

/// The first byte of an encoding names its kind: `i` for integers, a digit
/// for strings, `l` for lists, `d` for dictionaries; never `e` or `-`.
pub proof fn lemma_enc_first_byte(v: BencodeValue)
    ensures
        enc(v).len() >= 2,
        v is Int ==> enc(v)[0] == 105,
        v is Bytes ==> is_digit(enc(v)[0]),
        v is List ==> enc(v)[0] == 108,
        v is Dict ==> enc(v)[0] == 100,
        enc(v)[0] != 101,
        enc(v)[0] != 45,
{
    lemma_enc_len(v);
    match v {
        BencodeValue::Int(i) => {
            assert(enc(v)[0] == 105);
        },
        BencodeValue::Bytes(bs) => {
            lemma_dec_chars_props(bs@.len() as int);
            assert(enc(v)[0] == dec_chars(bs@.len() as int)[0]);
        },
        BencodeValue::List(_) => {
            assert(enc(v)[0] == 108);
        },
        BencodeValue::Dict(_) => {
            assert(enc(v)[0] == 100);
        },
    }
}

/// A well-formed value's canonical encoding occupies
/// `pos .. pos + enc(v).len()` of `input`.
pub open spec fn enc_at(input: Seq<u8>, pos: int, v: BencodeValue) -> bool {
    &&& wf(v)
    &&& 0 <= pos
    &&& pos + enc(v).len() <= input.len()
    &&& input.subrange(pos, pos + enc(v).len()) == enc(v)
}

/// The string token of `bs` occupies `pos .. pos + str_token(bs).len()` of
/// `input`.
pub open spec fn str_at(input: Seq<u8>, pos: int, bs: Seq<u8>) -> bool {
    &&& 0 <= pos
    &&& pos + str_token(bs).len() <= input.len()
    &&& input.subrange(pos, pos + str_token(bs).len()) == str_token(bs)
}

/// Every encoding is at least two bytes long.
pub proof fn lemma_enc_len(v: BencodeValue)
    ensures
        enc(v).len() >= 2,
{
    match v {
        BencodeValue::Int(i) => {
            if i < 0 {
                lemma_dec_chars_props(-(i as int));
            } else {
                lemma_dec_chars_props(i as int);
            }
        },
        BencodeValue::Bytes(bs) => {
            lemma_dec_chars_props(bs@.len() as int);
        },
        BencodeValue::List(_) => {},
        BencodeValue::Dict(_) => {},
    }
}

/// Compare two byte vectors in byte-lexicographic order.
pub fn bytes_lt(a: &Vec<u8>, b: &Vec<u8>) -> (r: bool)
    ensures
        r == lex_lt(a@, b@),
{
    let mut i: usize = 0;
    proof {
        assert(a@.skip(0) =~= a@);
        assert(b@.skip(0) =~= b@);
    }
    loop
        invariant
            i <= a.len(),
            i <= b.len(),
            lex_lt(a@, b@) == lex_lt(a@.skip(i as int), b@.skip(i as int)),
        decreases a.len() - i,
    {
        if i == b.len() {
            return false;
        }
        if i == a.len() {
            return true;
        }
        let x = a[i];
        let y = b[i];
        if x < y {
            return true;
        }
        if x > y {
            return false;
        }
        proof {
            let sa = a@.skip(i as int);
            let sb = b@.skip(i as int);
            assert(sa[0] == x && sb[0] == y);
            assert(sa.subrange(1, sa.len() as int) =~= a@.skip(i + 1));
            assert(sb.subrange(1, sb.len() as int) =~= b@.skip(i + 1));
        }
        i = i + 1;
    }
}

/// The decimal magnitude of a signed 64-bit integer.
fn int_magnitude(i: i64) -> (r: u64)
    ensures
        i >= 0 ==> r == i,
        i < 0 ==> r == -(i as int),
{
    if i >= 0 {
        i as u64
    } else if i == i64::MIN {
        9_223_372_036_854_775_808u64
    } else {
        (-i) as u64
    }
}

/// Emit the canonical bencoding of `v`: integers without padding, strings as
/// `<len>:<bytes>`, lists and dictionaries between `l`/`d` and `e`, with
/// dictionary entries in their stored (sorted) order.
pub fn encode_bencoded_value(v: &BencodeValue) -> (r: Vec<u8>)
    ensures
        r@ == enc(*v),
    decreases *v,
{
    match v {
        BencodeValue::Int(i) => {
            let mut out: Vec<u8> = Vec::new();
            out.push(105);
            if *i < 0 {
                out.push(45);
            }
            let mut digits = u64_to_dec(int_magnitude(*i));
            out.append(&mut digits);
            out.push(101);
            proof {
                assert(out@ =~= enc(BencodeValue::Int(*i)));
            }
            out
        },
        BencodeValue::Bytes(bs) => {
            let mut out = str_token_bytes(bs);
            proof {
                assert(out@ =~= enc(BencodeValue::Bytes(*bs)));
            }
            out
        },
        BencodeValue::List(items) => {
            let mut out: Vec<u8> = Vec::new();
            out.push(108);
            let mut idx: usize = 0;
            #[verifier::loop_isolation(false)]
            while idx < items.len()
                invariant
                    idx <= items.len(),
                    out@ =~= seq![108u8] + enc_seq(items@.take(idx as int)),
                decreases items.len() - idx,
            {
                proof {
                    assert(decreases_to!(*items => items@[idx as int]));
                }
                let mut piece = encode_bencoded_value(&items[idx]);
                out.append(&mut piece);
                proof {
                    let single = seq![items@[idx as int]];
                    assert(items@.take(idx + 1int) =~= items@.take(idx as int) + single);
                    lemma_enc_seq_concat(items@.take(idx as int), single);
                    assert(single.subrange(1, 1) =~= Seq::<BencodeValue>::empty());
                    assert(enc_seq(Seq::<BencodeValue>::empty()) =~= Seq::empty());
                    assert(enc_seq(single) =~= enc(items@[idx as int]));
                }
                idx = idx + 1;
            }
            out.push(101);
            proof {
                assert(items@.take(items@.len() as int) =~= items@);
                assert(out@ =~= enc(BencodeValue::List(*items)));
            }
            out
        },
        BencodeValue::Dict(pairs) => {
            let mut out: Vec<u8> = Vec::new();
            out.push(100);
            let mut idx: usize = 0;
            #[verifier::loop_isolation(false)]
            while idx < pairs.len()
                invariant
                    idx <= pairs.len(),
                    out@ =~= seq![100u8] + enc_pairs(pairs@.take(idx as int)),
                decreases pairs.len() - idx,
            {
                proof {
                    assert(decreases_to!(*pairs => pairs@[idx as int]));
                    assert(decreases_to!(pairs@[idx as int] => pairs@[idx as int].1));
                }
                let mut key_bytes = str_token_bytes(&pairs[idx].0);
                out.append(&mut key_bytes);
                let mut val_bytes = encode_bencoded_value(&pairs[idx].1);
                out.append(&mut val_bytes);
                proof {
                    let single = seq![pairs@[idx as int]];
                    assert(pairs@.take(idx + 1int) =~= pairs@.take(idx as int) + single);
                    lemma_enc_pairs_concat(pairs@.take(idx as int), single);
                    assert(single.subrange(1, 1) =~= Seq::<(Vec<u8>, BencodeValue)>::empty());
                    assert(enc_pairs(Seq::<(Vec<u8>, BencodeValue)>::empty()) =~= Seq::empty());
                    assert(enc_pairs(single) =~= str_token(pairs@[idx as int].0@) + enc(
                        pairs@[idx as int].1,
                    ));
                }
                idx = idx + 1;
            }
            out.push(101);
            proof {
                assert(pairs@.take(pairs@.len() as int) =~= pairs@);
                assert(out@ =~= enc(BencodeValue::Dict(*pairs)));
            }
            out
        },
    }
}

/// A digit scan that saw digits on `from .. from + d` and a non-digit at
/// `from + d` stopped exactly at `from + d`.
proof fn lemma_scan_stop(input: Seq<u8>, from: int, k: int, d: int)
    requires
        0 <= from,
        0 <= d,
        from + d < input.len(),
        all_digits(input.subrange(from, from + d)),
        !is_digit(input[from + d]),
        from <= k <= input.len(),
        all_digits(input.subrange(from, k)),
        k < input.len() ==> !is_digit(input[k]),
    ensures
        k == from + d,
{
    if k < from + d {
        assert(is_digit(input.subrange(from, from + d)[k - from]));
    }
    if k > from + d {
        assert(is_digit(input.subrange(from, k)[d]));
    }
}

/// Where a string token sits, its pieces sit: the canonical length digits,
/// the colon, then the payload.
proof fn lemma_str_at_shape(input: Seq<u8>, pos: int, bs: Seq<u8>)
    requires
        str_at(input, pos, bs),
    ensures
        ({
            let d = dec_chars(bs.len() as int).len() as int;
            &&& d >= 1
            &&& canonical_digits(dec_chars(bs.len() as int))
            &&& digits_val(dec_chars(bs.len() as int)) == bs.len()
            &&& pos + d + 1 + bs.len() == pos + str_token(bs).len() <= input.len()
            &&& input.subrange(pos, pos + d) == dec_chars(bs.len() as int)
            &&& all_digits(input.subrange(pos, pos + d))
            &&& input[pos + d] == 58
            &&& input.subrange(pos + d + 1, pos + d + 1 + bs.len() as int) == bs
        }),
{
    lemma_dec_chars_props(bs.len() as int);
    let t = str_token(bs);
    let d = dec_chars(bs.len() as int).len() as int;
    let w = input.subrange(pos, pos + t.len() as int);
    assert(w == t);
    assert(input.subrange(pos, pos + d) =~= t.subrange(0, d));
    assert(t.subrange(0, d) =~= dec_chars(bs.len() as int));
    assert(input[pos + d] == w[d]);
    assert(input.subrange(pos + d + 1, pos + d + 1 + bs.len() as int) =~= t.subrange(
        d + 1,
        t.len() as int,
    ));
    assert(t.subrange(d + 1, t.len() as int) =~= bs);
}

/// Where an integer token sits, its pieces sit: `i`, the optional sign, the
/// canonical digits of the magnitude, then `e`.
proof fn lemma_int_at_shape(input: Seq<u8>, pos: int, n: i64)
    requires
        enc_at(input, pos, BencodeValue::Int(n)),
    ensures
        ({
            let mag = if n < 0 {
                -(n as int)
            } else {
                n as int
            };
            let sstart = if n < 0 {
                pos + 2
            } else {
                pos + 1
            };
            let d = dec_chars(mag).len() as int;
            &&& input[pos] == 105
            &&& canonical_digits(dec_chars(mag))
            &&& digits_val(dec_chars(mag)) == mag
            &&& (n < 0 ==> pos + 1 < input.len() && input[pos + 1] == 45 && mag >= 1)
            &&& (n >= 0 ==> pos + 1 < input.len() && is_digit(input[pos + 1]))
            &&& sstart + d < input.len()
            &&& input.subrange(sstart, sstart + d) == dec_chars(mag)
            &&& all_digits(input.subrange(sstart, sstart + d))
            &&& input[sstart + d] == 101
            &&& sstart + d + 1 == pos + enc(BencodeValue::Int(n)).len()
        }),
{
    let v = BencodeValue::Int(n);
    let mag = if n < 0 {
        -(n as int)
    } else {
        n as int
    };
    let sstart = if n < 0 {
        pos + 2
    } else {
        pos + 1
    };
    lemma_dec_chars_props(mag);
    let d = dec_chars(mag).len() as int;
    let t = enc(v);
    let w = input.subrange(pos, pos + t.len() as int);
    assert(w == t);
    assert(input[pos] == w[0]);
    if n < 0 {
        assert(t =~= seq![105u8, 45u8] + dec_chars(mag) + seq![101u8]);
        assert(input[pos + 1] == w[1]);
    } else {
        assert(t =~= seq![105u8] + dec_chars(mag) + seq![101u8]);
        assert(input[pos + 1] == w[1]);
        assert(w[1] == dec_chars(mag)[0]);
    }
    assert(input.subrange(sstart, sstart + d) =~= t.subrange(sstart - pos, sstart - pos + d));
    assert(t.subrange(sstart - pos, sstart - pos + d) =~= dec_chars(mag));
    assert(input[sstart + d] == w[sstart + d - pos]);
}

/// The index of the first byte at or after `from` that is not a decimal
/// digit, or the input length if digits run to the end.
fn scan_digits(input: &Vec<u8>, from: usize) -> (k: usize)
    requires
        from <= input.len(),
    ensures
        from <= k <= input@.len(),
        all_digits(input@.subrange(from as int, k as int)),
        k < input@.len() ==> !is_digit(input@[k as int]),
    decreases input.len() - from,
{
    let mut k = from;
    loop
        invariant
            from <= k <= input.len(),
            all_digits(input@.subrange(from as int, k as int)),
        decreases input.len() - k,
    {
        if k == input.len() {
            return k;
        }
        let b = input[k];
        if b < 48 || b > 57 {
            return k;
        }
        proof {
            assert(input@.subrange(from as int, k + 1int).drop_last() =~= input@.subrange(
                from as int,
                k as int,
            ));
            assert(input@.subrange(from as int, k + 1int).last() == b);
        }
        k = k + 1;
    }
}

/// Decode the string token `<len>:<bytes>` at `pos`, rejecting padded or
/// oversized lengths and truncated payloads; every string token present at
/// `pos` is accepted.
pub fn decode_str_token(input: &Vec<u8>, pos: usize) -> (r: Result<(Vec<u8>, usize), BenDecodeErrors>)
    requires
        pos < input.len(),
        is_digit(input@[pos as int]),
    ensures
        match r {
            Ok((bs, end)) => {
                &&& pos < end <= input@.len()
                &&& input@.subrange(pos as int, end as int) == str_token(bs@)
            },
            Err(_) => true,
        },
        forall|bs: Seq<u8>|
            #[trigger] str_at(input@, pos as int, bs) ==> (r matches Ok(t) && t.0@ == bs && t.1
                == pos + str_token(bs).len()),
{
    let k = scan_digits(input, pos);
    if k == input.len() {
        proof {
            assert forall|bs: Seq<u8>| !str_at(input@, pos as int, bs) by {
                if str_at(input@, pos as int, bs) {
                    lemma_str_at_shape(input@, pos as int, bs);
                    let d = dec_chars(bs.len() as int).len() as int;
                    assert(is_digit(input@.subrange(pos as int, k as int)[pos + d - pos]));
                }
            }
        }
        return Err(BenDecodeErrors::TruncatedInput);
    }
    if input[k] != 58 {
        proof {
            assert forall|bs: Seq<u8>| !str_at(input@, pos as int, bs) by {
                if str_at(input@, pos as int, bs) {
                    lemma_str_at_shape(input@, pos as int, bs);
                    let d = dec_chars(bs.len() as int).len() as int;
                    lemma_scan_stop(input@, pos as int, k as int, d);
                }
            }
        }
        return Err(BenDecodeErrors::InvalidStringLength);
    }
    let n = match parse_dec_u64(input, pos, k) {
        Some(n) => n,
        None => {
            proof {
                assert forall|bs: Seq<u8>| !str_at(input@, pos as int, bs) by {
                    if str_at(input@, pos as int, bs) {
                        lemma_str_at_shape(input@, pos as int, bs);
                        let d = dec_chars(bs.len() as int).len() as int;
                        lemma_scan_stop(input@, pos as int, k as int, d);
                        let bl = bs.len() as u64;
                        assert(input@.subrange(pos as int, k as int) == dec_chars(bl as int));
                    }
                }
            }
            return Err(BenDecodeErrors::InvalidStringLength);
        },
    };
    let remaining = input.len() - (k + 1);
    if n > remaining as u64 {
        proof {
            assert forall|bs: Seq<u8>| !str_at(input@, pos as int, bs) by {
                if str_at(input@, pos as int, bs) {
                    lemma_str_at_shape(input@, pos as int, bs);
                    let d = dec_chars(bs.len() as int).len() as int;
                    lemma_scan_stop(input@, pos as int, k as int, d);
                    lemma_dec_chars_props(n as int);
                    assert(digits_val(dec_chars(n as int)) == digits_val(
                        dec_chars(bs.len() as int),
                    ));
                }
            }
        }
        return Err(BenDecodeErrors::TruncatedInput);
    }
    let count = n as usize;
    let end = k + 1 + count;
    let mut bs: Vec<u8> = Vec::new();
    let mut t: usize = 0;
    #[verifier::loop_isolation(false)]
    while t < count
        invariant
            t <= count,
            bs@ =~= input@.subrange(k + 1int, k + 1 + t as int),
        decreases count - t,
    {
        bs.push(input[k + 1 + t]);
        proof {
            assert(input@.subrange(k + 1int, k + 1 + (t + 1int)) =~= input@.subrange(
                k + 1int,
                k + 1 + t as int,
            ).push(input@[k + 1 + t as int]));
        }
        t = t + 1;
    }
    proof {
        assert(bs@.len() == n as int);
        assert(input@.subrange(pos as int, k as int) =~= dec_chars(n as int));
        assert(input@.subrange(pos as int, end as int) =~= input@.subrange(pos as int, k as int)
            + seq![58u8] + input@.subrange(k + 1int, end as int));
        assert(input@.subrange(k + 1int, end as int) =~= bs@);
        assert(input@.subrange(pos as int, end as int) =~= str_token(bs@));
        assert forall|bsx: Seq<u8>| #[trigger] str_at(input@, pos as int, bsx) implies (bsx == bs@
            && pos + str_token(bsx).len() == end as int) by {
            lemma_str_at_shape(input@, pos as int, bsx);
            let d = dec_chars(bsx.len() as int).len() as int;
            lemma_scan_stop(input@, pos as int, k as int, d);
            lemma_dec_chars_props(n as int);
            lemma_dec_chars_props(bsx.len() as int);
            assert(input@.subrange(pos as int, k as int) == dec_chars(bsx.len() as int));
            assert(digits_val(dec_chars(n as int)) == digits_val(dec_chars(bsx.len() as int)));
            assert(bsx.len() == n as int);
            assert(bsx =~= input@.subrange(k + 1int, end as int));
        }
    }
    Ok((bs, end))
}

/// What decoding at `pos` promises: the consumed bytes of a success are
/// exactly the canonical encoding of a well-formed value, and whenever a
/// well-formed value's encoding sits at `pos`, decoding succeeds with that
/// value (up to structural equality) and consumes exactly its encoding.
pub open spec fn decode_post(
    input: Seq<u8>,
    pos: int,
    r: Result<(BencodeValue, usize), BenDecodeErrors>,
) -> bool {
    &&& (match r {
        Ok((v, end)) => {
            &&& pos < end <= input.len()
            &&& wf(v)
            &&& input.subrange(pos, end as int) == enc(v)
        },
        Err(_) => true,
    })
    &&& (forall|v: BencodeValue|
        #[trigger] enc_at(input, pos, v) ==> (r matches Ok(t) && structurally_equal(t.0, v) && t.1
            == pos + enc(v).len()))
}

/// The first input byte of a placed encoding is the encoding's first byte.
proof fn lemma_enc_at_first_byte(input: Seq<u8>, pos: int, v: BencodeValue)
    requires
        enc_at(input, pos, v),
    ensures
        pos < input.len(),
        input[pos] == enc(v)[0],
{
    lemma_enc_len(v);
    assert(input[pos] == input.subrange(pos, pos + enc(v).len() as int)[0]);
}

/// Where the `k`-th element of a placed list encoding sits.
proof fn lemma_list_step(input: Seq<u8>, pos: int, v: BencodeValue, k: int)
    requires
        enc_at(input, pos, v),
        v is List,
        0 <= k,
        v matches BencodeValue::List(items) ==> k < items@.len(),
    ensures
        v matches BencodeValue::List(items) ==> ({
            let cur = pos + 1 + enc_seq(items@.take(k)).len();
            &&& enc_at(input, cur, items@[k])
            &&& cur + enc(items@[k]).len() == pos + 1 + enc_seq(items@.take(k + 1)).len()
            &&& pos + 1 + enc_seq(items@.take(k + 1)).len() + 1 <= pos + enc(v).len()
        }),
{
    match v {
        BencodeValue::List(items) => {
            let s = items@;
            let tk = s.take(k);
            let sk = s.skip(k);
            assert(s =~= tk + sk);
            lemma_enc_seq_concat(tk, sk);
            assert(sk[0] == s[k]);
            assert(sk.subrange(1, sk.len() as int) =~= s.skip(k + 1));
            assert(enc_seq(sk) =~= enc(s[k]) + enc_seq(s.skip(k + 1)));
            assert(s.take(k + 1) =~= tk + seq![s[k]]);
            lemma_enc_seq_concat(tk, seq![s[k]]);
            assert(seq![s[k]].subrange(1, 1) =~= Seq::<BencodeValue>::empty());
            assert(enc_seq(Seq::<BencodeValue>::empty()) =~= Seq::empty());
            assert(enc_seq(seq![s[k]]) =~= enc(s[k]));
            assert(wf(s[k]));
            let a = enc_seq(tk).len() as int;
            let cur = pos + 1 + a;
            let l = enc(s[k]).len() as int;
            let ev = enc(v);
            assert(ev =~= seq![108u8] + enc_seq(s) + seq![101u8]);
            assert(enc_seq(s) =~= enc_seq(tk) + enc(s[k]) + enc_seq(s.skip(k + 1)));
            assert(input.subrange(pos, pos + ev.len() as int) == ev);
            assert forall|j: int| 0 <= j < l implies input[cur + j] == enc(s[k])[j] by {
                assert(input[cur + j] == input.subrange(pos, pos + ev.len() as int)[1 + a + j]);
                assert(ev[1 + a + j] == enc_seq(s)[a + j]);
                assert(enc_seq(s)[a + j] == enc(s[k])[j]);
            }
            assert(input.subrange(cur, cur + l) =~= enc(s[k]));
        },
        _ => {},
    }
}

/// Where a placed list encoding ends, once all its elements are consumed.
proof fn lemma_list_end(input: Seq<u8>, pos: int, v: BencodeValue)
    requires
        enc_at(input, pos, v),
        v is List,
    ensures
        v matches BencodeValue::List(items) ==> ({
            let cur = pos + 1 + enc_seq(items@).len();
            &&& cur < input.len()
            &&& input[cur] == 101
            &&& cur + 1 == pos + enc(v).len()
            &&& input[pos] == 108
        }),
{
    match v {
        BencodeValue::List(items) => {
            let s = items@;
            let ev = enc(v);
            assert(ev =~= seq![108u8] + enc_seq(s) + seq![101u8]);
            let cur = pos + 1 + enc_seq(s).len() as int;
            assert(input.subrange(pos, pos + ev.len() as int) == ev);
            assert(input[cur] == input.subrange(pos, pos + ev.len() as int)[cur - pos]);
            assert(ev[cur - pos] == 101);
            assert(input[pos] == input.subrange(pos, pos + ev.len() as int)[0]);
        },
        _ => {},
    }
}

/// Where the `k`-th key and value of a placed dictionary encoding sit.
proof fn lemma_dict_step(input: Seq<u8>, pos: int, v: BencodeValue, k: int)
    requires
        enc_at(input, pos, v),
        v is Dict,
        0 <= k,
        v matches BencodeValue::Dict(ps) ==> k < ps@.len(),
    ensures
        v matches BencodeValue::Dict(ps) ==> ({
            let cur = pos + 1 + enc_pairs(ps@.take(k)).len();
            let kl = str_token(ps@[k].0@).len() as int;
            &&& str_at(input, cur, ps@[k].0@)
            &&& enc_at(input, cur + kl, ps@[k].1)
            &&& cur + kl + enc(ps@[k].1).len() == pos + 1 + enc_pairs(ps@.take(k + 1)).len()
            &&& pos + 1 + enc_pairs(ps@.take(k + 1)).len() + 1 <= pos + enc(v).len()
        }),
{
    match v {
        BencodeValue::Dict(ps) => {
            let s = ps@;
            let tk = s.take(k);
            let sk = s.skip(k);
            assert(s =~= tk + sk);
            lemma_enc_pairs_concat(tk, sk);
            assert(sk[0] == s[k]);
            assert(sk.subrange(1, sk.len() as int) =~= s.skip(k + 1));
            assert(enc_pairs(sk) =~= str_token(s[k].0@) + enc(s[k].1) + enc_pairs(s.skip(k + 1)));
            assert(s.take(k + 1) =~= tk + seq![s[k]]);
            lemma_enc_pairs_concat(tk, seq![s[k]]);
            assert(seq![s[k]].subrange(1, 1) =~= Seq::<(Vec<u8>, BencodeValue)>::empty());
            assert(enc_pairs(Seq::<(Vec<u8>, BencodeValue)>::empty()) =~= Seq::empty());
            assert(enc_pairs(seq![s[k]]) =~= str_token(s[k].0@) + enc(s[k].1));
            assert(wf(s[k].1));
            let a = enc_pairs(tk).len() as int;
            let cur = pos + 1 + a;
            let kl = str_token(s[k].0@).len() as int;
            let vl = enc(s[k].1).len() as int;
            let ev = enc(v);
            assert(ev =~= seq![100u8] + enc_pairs(s) + seq![101u8]);
            assert(enc_pairs(s) =~= enc_pairs(tk) + str_token(s[k].0@) + enc(s[k].1) + enc_pairs(
                s.skip(k + 1),
            ));
            assert(input.subrange(pos, pos + ev.len() as int) == ev);
            assert forall|j: int| 0 <= j < kl implies input[cur + j] == str_token(s[k].0@)[j] by {
                assert(input[cur + j] == input.subrange(pos, pos + ev.len() as int)[1 + a + j]);
                assert(ev[1 + a + j] == enc_pairs(s)[a + j]);
                assert(enc_pairs(s)[a + j] == str_token(s[k].0@)[j]);
            }
            assert(input.subrange(cur, cur + kl) =~= str_token(s[k].0@));
            assert forall|j: int| 0 <= j < vl implies input[cur + kl + j] == enc(s[k].1)[j] by {
                assert(input[cur + kl + j] == input.subrange(
                    pos,
                    pos + ev.len() as int,
                )[1 + a + kl + j]);
                assert(ev[1 + a + kl + j] == enc_pairs(s)[a + kl + j]);
                assert(enc_pairs(s)[a + kl + j] == enc(s[k].1)[j]);
            }
            assert(input.subrange(cur + kl, cur + kl + vl) =~= enc(s[k].1));
        },
        _ => {},
    }
}

/// Where a placed dictionary encoding ends, once all its entries are
/// consumed.
proof fn lemma_dict_end(input: Seq<u8>, pos: int, v: BencodeValue)
    requires
        enc_at(input, pos, v),
        v is Dict,
    ensures
        v matches BencodeValue::Dict(ps) ==> ({
            let cur = pos + 1 + enc_pairs(ps@).len();
            &&& cur < input.len()
            &&& input[cur] == 101
            &&& cur + 1 == pos + enc(v).len()
            &&& input[pos] == 100
        }),
{
    match v {
        BencodeValue::Dict(ps) => {
            let s = ps@;
            let ev = enc(v);
            assert(ev =~= seq![100u8] + enc_pairs(s) + seq![101u8]);
            let cur = pos + 1 + enc_pairs(s).len() as int;
            assert(input.subrange(pos, pos + ev.len() as int) == ev);
            assert(input[cur] == input.subrange(pos, pos + ev.len() as int)[cur - pos]);
            assert(ev[cur - pos] == 101);
            assert(input[pos] == input.subrange(pos, pos + ev.len() as int)[0]);
        },
        _ => {},
    }
}

/// Decode the integer token `i<signed-decimal>e` at `pos`; every integer
/// token present at `pos` is accepted, and padded digits, a bare sign, `-0`
/// and values outside the signed 64-bit range are rejected.
#[verifier::rlimit(100)]
fn decode_int(input: &Vec<u8>, pos: usize) -> (r: Result<(BencodeValue, usize), BenDecodeErrors>)
    requires
        pos < input.len(),
        input@[pos as int] == 105,
    ensures
        decode_post(input@, pos as int, r),
{
    let len = input.len();
    let mut j = pos + 1;
    let neg = j < len && input[j] == 45;
    if neg {
        j = j + 1;
    }
    let dstart = j;
    let k = scan_digits(input, dstart);
    if k == len {
        proof {
            assert forall|v: BencodeValue| !enc_at(input@, pos as int, v) by {
                if enc_at(input@, pos as int, v) {
                    lemma_enc_at_first_byte(input@, pos as int, v);
                    lemma_enc_first_byte(v);
                    match v {
                        BencodeValue::Int(n) => {
                            lemma_int_at_shape(input@, pos as int, n);
                            let mag = if n < 0 {
                                -(n as int)
                            } else {
                                n as int
                            };
                            let sstart = if n < 0 {
                                pos + 2int
                            } else {
                                pos + 1int
                            };
                            let d = dec_chars(mag).len() as int;
                            assert(dstart as int == sstart);
                            assert(is_digit(input@.subrange(dstart as int, k as int)[sstart + d
                                - dstart]));
                        },
                        _ => {},
                    }
                }
            }
        }
        return Err(BenDecodeErrors::TruncatedInput);
    }
    if input[k] != 101 || k == dstart {
        proof {
            assert forall|v: BencodeValue| !enc_at(input@, pos as int, v) by {
                if enc_at(input@, pos as int, v) {
                    lemma_enc_at_first_byte(input@, pos as int, v);
                    lemma_enc_first_byte(v);
                    match v {
                        BencodeValue::Int(n) => {
                            lemma_int_at_shape(input@, pos as int, n);
                            let mag = if n < 0 {
                                -(n as int)
                            } else {
                                n as int
                            };
                            let sstart = if n < 0 {
                                pos + 2int
                            } else {
                                pos + 1int
                            };
                            let d = dec_chars(mag).len() as int;
                            assert(dstart as int == sstart);
                            lemma_scan_stop(input@, dstart as int, k as int, d);
                            lemma_dec_chars_props(mag);
                        },
                        _ => {},
                    }
                }
            }
        }
        return Err(BenDecodeErrors::InvalidInteger);
    }
    let mag = match parse_dec_u64(input, dstart, k) {
        Some(m) => m,
        None => {
            proof {
                assert forall|v: BencodeValue| !enc_at(input@, pos as int, v) by {
                    if enc_at(input@, pos as int, v) {
                        lemma_enc_at_first_byte(input@, pos as int, v);
                        lemma_enc_first_byte(v);
                        match v {
                            BencodeValue::Int(n) => {
                                lemma_int_at_shape(input@, pos as int, n);
                                let m = if n < 0 {
                                    -(n as int)
                                } else {
                                    n as int
                                };
                                let sstart = if n < 0 {
                                    pos + 2int
                                } else {
                                    pos + 1int
                                };
                                let d = dec_chars(m).len() as int;
                                assert(dstart as int == sstart);
                                lemma_scan_stop(input@, dstart as int, k as int, d);
                                let mu = m as u64;
                                assert(input@.subrange(dstart as int, k as int) == dec_chars(
                                    mu as int,
                                ));
                            },
                            _ => {},
                        }
                    }
                }
            }
            return Err(BenDecodeErrors::InvalidInteger);
        },
    };
    proof {
        // Any integer token at `pos` has exactly these digits, hence this
        // magnitude and this sign.
        assert forall|v: BencodeValue| enc_at(input@, pos as int, v) implies (v matches
            BencodeValue::Int(n) && (if n < 0 {
            -(n as int)
        } else {
            n as int
        }) == mag as int && (n < 0 <==> neg) && pos + enc(v).len() == k + 1int) by {
            lemma_enc_at_first_byte(input@, pos as int, v);
            lemma_enc_first_byte(v);
            match v {
                BencodeValue::Int(n) => {
                    lemma_int_at_shape(input@, pos as int, n);
                    let m = if n < 0 {
                        -(n as int)
                    } else {
                        n as int
                    };
                    let sstart = if n < 0 {
                        pos + 2int
                    } else {
                        pos + 1int
                    };
                    let d = dec_chars(m).len() as int;
                    assert(dstart as int == sstart);
                    lemma_scan_stop(input@, dstart as int, k as int, d);
                    lemma_dec_chars_props(m);
                    lemma_dec_chars_props(mag as int);
                    assert(dec_chars(mag as int) == dec_chars(m));
                    assert(digits_val(dec_chars(mag as int)) == digits_val(dec_chars(m)));
                },
                _ => {},
            }
        }
    }
    let val: i64;
    if neg {
        if mag == 0 || mag > 9_223_372_036_854_775_808u64 {
            proof {
                assert forall|v: BencodeValue| !enc_at(input@, pos as int, v) by {
                    if enc_at(input@, pos as int, v) {
                        match v {
                            BencodeValue::Int(n) => {},
                            _ => {},
                        }
                    }
                }
            }
            return Err(BenDecodeErrors::InvalidInteger);
        }
        if mag == 9_223_372_036_854_775_808u64 {
            val = i64::MIN;
        } else {
            val = -(mag as i64);
        }
    } else {
        if mag > 9_223_372_036_854_775_807u64 {
            proof {
                assert forall|v: BencodeValue| !enc_at(input@, pos as int, v) by {
                    if enc_at(input@, pos as int, v) {
                        match v {
                            BencodeValue::Int(n) => {},
                            _ => {},
                        }
                    }
                }
            }
            return Err(BenDecodeErrors::InvalidInteger);
        }
        val = mag as i64;
    }
    let end = k + 1;
    proof {
        assert(input@.subrange(dstart as int, k as int) =~= dec_chars(mag as int));
        if neg {
            assert(int_chars(val as int) =~= seq![45u8] + dec_chars(mag as int));
            assert(input@.subrange(pos as int, end as int) =~= seq![105u8] + int_chars(val as int)
                + seq![101u8]);
        } else {
            assert(int_chars(val as int) =~= dec_chars(mag as int));
            assert(input@.subrange(pos as int, end as int) =~= seq![105u8] + int_chars(val as int)
                + seq![101u8]);
        }
        assert forall|v: BencodeValue| enc_at(input@, pos as int, v) implies (structurally_equal(
            BencodeValue::Int(val),
            v,
        ) && pos + enc(v).len() == end as int) by {
            match v {
                BencodeValue::Int(n) => {
                    assert(val == n);
                },
                _ => {},
            }
        }
    }
    Ok((BencodeValue::Int(val), end))
}

/// Decode the list `l<elements>e` at `pos`.
#[verifier::rlimit(100)]
fn decode_list(input: &Vec<u8>, pos: usize) -> (r: Result<(BencodeValue, usize), BenDecodeErrors>)
    requires
        pos < input.len(),
        input@[pos as int] == 108,
    ensures
        decode_post(input@, pos as int, r),
    decreases input.len() - pos, 0int,
{
    let len = input.len();
    let mut items: Vec<BencodeValue> = Vec::new();
    let mut cur = pos + 1;
    proof {
        assert forall|v: BencodeValue| enc_at(input@, pos as int, v) implies (v matches
            BencodeValue::List(vs) && enc_seq(vs@.take(0)).len() == 0) by {
            lemma_enc_at_first_byte(input@, pos as int, v);
            lemma_enc_first_byte(v);
            match v {
                BencodeValue::List(vs) => {
                    assert(vs@.take(0) =~= Seq::<BencodeValue>::empty());
                    assert(enc_seq(Seq::<BencodeValue>::empty()) =~= Seq::empty());
                },
                _ => {},
            }
        }
    }
    #[verifier::loop_isolation(false)]
    loop
        invariant
            pos + 1 <= cur <= len,
            enc_seq(items@) =~= input@.subrange(pos + 1int, cur as int),
            forall|i: int| 0 <= i < items@.len() ==> wf(#[trigger] items@[i]),
            forall|v: BencodeValue|
                #[trigger] enc_at(input@, pos as int, v) ==> (v matches BencodeValue::List(vs)
                    && items@.len() <= vs@.len() && (forall|i: int|
                    0 <= i < items@.len() ==> structurally_equal(
                        #[trigger] items@[i],
                        vs@[i],
                    )) && cur == pos + 1 + enc_seq(vs@.take(items@.len() as int)).len()),
        decreases len - cur,
    {
        if cur == len {
            proof {
                assert forall|v: BencodeValue| !enc_at(input@, pos as int, v) by {
                    if enc_at(input@, pos as int, v) {
                        match v {
                            BencodeValue::List(vs) => {
                                let k = items@.len() as int;
                                if k < vs@.len() {
                                    lemma_list_step(input@, pos as int, v, k);
                                    lemma_enc_len(vs@[k]);
                                } else {
                                    assert(vs@.take(k) =~= vs@);
                                    lemma_list_end(input@, pos as int, v);
                                }
                            },
                            _ => {},
                        }
                    }
                }
            }
            return Err(BenDecodeErrors::TruncatedInput);
        }
        if input[cur] == 101 {
            let end = cur + 1;
            proof {
                assert(input@.subrange(pos as int, end as int) =~= seq![108u8] + enc_seq(
                    items@,
                ) + seq![101u8]);
                assert forall|v: BencodeValue| enc_at(input@, pos as int, v) implies (
                structurally_equal(BencodeValue::List(items), v) && pos + enc(v).len()
                    == end as int) by {
                    match v {
                        BencodeValue::List(vs) => {
                            let k = items@.len() as int;
                            if k < vs@.len() {
                                lemma_list_step(input@, pos as int, v, k);
                                lemma_enc_at_first_byte(input@, cur as int, vs@[k]);
                                lemma_enc_first_byte(vs@[k]);
                                assert(false);
                            }
                            assert(vs@.take(k) =~= vs@);
                            lemma_list_end(input@, pos as int, v);
                            assert(structurally_equal(BencodeValue::List(items), v));
                        },
                        _ => {},
                    }
                }
                let rr = Ok::<(BencodeValue, usize), BenDecodeErrors>(
                    (BencodeValue::List(items), end),
                );
                assert(decode_post(input@, pos as int, rr));
            }
            return Ok((BencodeValue::List(items), end));
        }
        match decode_at(input, cur) {
            Ok((v, vend)) => {
                proof {
                    let single = seq![v];
                    lemma_enc_seq_concat(items@, single);
                    assert(single.subrange(1, 1) =~= Seq::<BencodeValue>::empty());
                    assert(enc_seq(Seq::<BencodeValue>::empty()) =~= Seq::empty());
                    assert(enc_seq(single) =~= enc(v));
                    assert(items@.push(v) =~= items@ + single);
                    assert(input@.subrange(pos + 1int, vend as int) =~= input@.subrange(
                        pos + 1int,
                        cur as int,
                    ) + input@.subrange(cur as int, vend as int));
                    assert forall|w: BencodeValue| enc_at(input@, pos as int, w) implies (
                    w matches BencodeValue::List(vs) && items@.len() < vs@.len()
                        && structurally_equal(v, vs@[items@.len() as int]) && vend as int == pos
                        + 1 + enc_seq(vs@.take(items@.len() as int + 1)).len()) by {
                        match w {
                            BencodeValue::List(vs) => {
                                let k = items@.len() as int;
                                if k == vs@.len() {
                                    assert(vs@.take(k) =~= vs@);
                                    lemma_list_end(input@, pos as int, w);
                                    assert(false);
                                }
                                lemma_list_step(input@, pos as int, w, k);
                                assert(enc_at(input@, cur as int, vs@[k]));
                            },
                            _ => {},
                        }
                    }
                }
                items.push(v);
                cur = vend;
            },
            Err(e) => {
                proof {
                    assert forall|w: BencodeValue| !enc_at(input@, pos as int, w) by {
                        if enc_at(input@, pos as int, w) {
                            match w {
                                BencodeValue::List(vs) => {
                                    let k = items@.len() as int;
                                    if k == vs@.len() {
                                        assert(vs@.take(k) =~= vs@);
                                        lemma_list_end(input@, pos as int, w);
                                    } else {
                                        lemma_list_step(input@, pos as int, w, k);
                                        assert(enc_at(input@, cur as int, vs@[k]));
                                    }
                                },
                                _ => {},
                            }
                        }
                    }
                }
                return Err(e);
            },
        }
    }
}

/// Decode the dictionary `d<pairs>e` at `pos`, keys strictly increasing.
#[verifier::rlimit(100)]
fn decode_dict(input: &Vec<u8>, pos: usize) -> (r: Result<(BencodeValue, usize), BenDecodeErrors>)
    requires
        pos < input.len(),
        input@[pos as int] == 100,
    ensures
        decode_post(input@, pos as int, r),
    decreases input.len() - pos, 0int,
{
    let len = input.len();
    let mut pairs: Vec<(Vec<u8>, BencodeValue)> = Vec::new();
    let mut cur = pos + 1;
    proof {
        assert forall|v: BencodeValue| enc_at(input@, pos as int, v) implies (v matches
            BencodeValue::Dict(ps) && enc_pairs(ps@.take(0)).len() == 0) by {
            lemma_enc_at_first_byte(input@, pos as int, v);
            lemma_enc_first_byte(v);
            match v {
                BencodeValue::Dict(ps) => {
                    assert(ps@.take(0) =~= Seq::<(Vec<u8>, BencodeValue)>::empty());
                    assert(enc_pairs(Seq::<(Vec<u8>, BencodeValue)>::empty())
                        =~= Seq::empty());
                },
                _ => {},
            }
        }
    }
    #[verifier::loop_isolation(false)]
    loop
        invariant
            pos + 1 <= cur <= len,
            enc_pairs(pairs@) =~= input@.subrange(pos + 1int, cur as int),
            forall|i: int| 0 <= i < pairs@.len() ==> wf(#[trigger] (pairs@[i].1)),
            forall|i: int|
                0 <= i < pairs@.len() - 1 ==> lex_lt(
                    #[trigger] (pairs@[i].0)@,
                    (pairs@[i + 1].0)@,
                ),
            forall|v: BencodeValue|
                #[trigger] enc_at(input@, pos as int, v) ==> (v matches BencodeValue::Dict(ps)
                    && pairs@.len() <= ps@.len() && (forall|i: int|
                    0 <= i < pairs@.len() ==> ((#[trigger] pairs@[i]).0@ == ps@[i].0@
                        && structurally_equal(pairs@[i].1, ps@[i].1))) && cur == pos + 1
                    + enc_pairs(ps@.take(pairs@.len() as int)).len()),
        decreases len - cur,
    {
        let ghost k = pairs@.len() as int;
        if cur == len {
            proof {
                assert forall|v: BencodeValue| !enc_at(input@, pos as int, v) by {
                    if enc_at(input@, pos as int, v) {
                        match v {
                            BencodeValue::Dict(ps) => {
                                if k < ps@.len() {
                                    lemma_dict_step(input@, pos as int, v, k);
                                } else {
                                    assert(ps@.take(k) =~= ps@);
                                    lemma_dict_end(input@, pos as int, v);
                                }
                            },
                            _ => {},
                        }
                    }
                }
            }
            return Err(BenDecodeErrors::TruncatedInput);
        }
        let c = input[cur];
        if c == 101 {
            let end = cur + 1;
            proof {
                assert(input@.subrange(pos as int, end as int) =~= seq![100u8] + enc_pairs(
                    pairs@,
                ) + seq![101u8]);
                assert forall|v: BencodeValue| enc_at(input@, pos as int, v) implies (
                structurally_equal(BencodeValue::Dict(pairs), v) && pos + enc(v).len()
                    == end as int) by {
                    match v {
                        BencodeValue::Dict(ps) => {
                            if k < ps@.len() {
                                lemma_dict_step(input@, pos as int, v, k);
                                lemma_str_at_shape(
                                    input@,
                                    pos + 1 + enc_pairs(ps@.take(k)).len() as int,
                                    ps@[k].0@,
                                );
                                lemma_dec_chars_props(ps@[k].0@.len() as int);
                                assert(is_digit(input@[cur as int]));
                                assert(false);
                            }
                            assert(ps@.take(k) =~= ps@);
                            lemma_dict_end(input@, pos as int, v);
                            assert(structurally_equal(BencodeValue::Dict(pairs), v));
                        },
                        _ => {},
                    }
                }
                let rr = Ok::<(BencodeValue, usize), BenDecodeErrors>(
                    (BencodeValue::Dict(pairs), end),
                );
                assert(decode_post(input@, pos as int, rr));
            }
            return Ok((BencodeValue::Dict(pairs), end));
        }
        proof {
            // A dictionary whose encoding sits here has a further entry,
            // whose key token starts at `cur` and whose value follows it.
            assert forall|v: BencodeValue| enc_at(input@, pos as int, v) implies (v matches
                BencodeValue::Dict(ps) && k < ps@.len() && str_at(input@, cur as int, ps@[k].0@)
                && enc_at(
                input@,
                cur + str_token(ps@[k].0@).len(),
                ps@[k].1,
            ) && cur + str_token(ps@[k].0@).len() + enc(ps@[k].1).len() == pos + 1 + enc_pairs(
                ps@.take(k + 1),
            ).len() && pos + 1 + enc_pairs(ps@.take(k + 1)).len() + 1 <= pos + enc(
                v,
            ).len()) by {
                match v {
                    BencodeValue::Dict(ps) => {
                        if k == ps@.len() {
                            assert(ps@.take(k) =~= ps@);
                            lemma_dict_end(input@, pos as int, v);
                            assert(false);
                        }
                        lemma_dict_step(input@, pos as int, v, k);
                    },
                    _ => {},
                }
            }
        }
        if c < 48 || c > 57 {
            proof {
                assert forall|v: BencodeValue| !enc_at(input@, pos as int, v) by {
                    if enc_at(input@, pos as int, v) {
                        match v {
                            BencodeValue::Dict(ps) => {
                                lemma_str_at_shape(input@, cur as int, ps@[k].0@);
                                lemma_dec_chars_props(ps@[k].0@.len() as int);
                                assert(input@[cur as int] == dec_chars(
                                    ps@[k].0@.len() as int,
                                )[0]);
                            },
                            _ => {},
                        }
                    }
                }
            }
            return Err(BenDecodeErrors::UnexpectedByte);
        }
        let str_res = decode_str_token(input, cur);
        let (key, kend) = match str_res {
            Ok(t) => t,
            Err(e) => {
                proof {
                    assert forall|v: BencodeValue| !enc_at(input@, pos as int, v) by {
                        if enc_at(input@, pos as int, v) {
                            match v {
                                BencodeValue::Dict(ps) => {
                                    assert(str_at(input@, cur as int, ps@[k].0@));
                                },
                                _ => {},
                            }
                        }
                    }
                }
                return Err(e);
            },
        };
        if pairs.len() > 0 {
            let in_order = bytes_lt(&pairs[pairs.len() - 1].0, &key);
            if !in_order {
                proof {
                    assert forall|v: BencodeValue| !enc_at(input@, pos as int, v) by {
                        if enc_at(input@, pos as int, v) {
                            match v {
                                BencodeValue::Dict(ps) => {
                                    assert(key@ == ps@[k].0@);
                                    assert(pairs@[k - 1].0@ == ps@[k - 1].0@);
                                    assert(lex_lt(ps@[k - 1].0@, ps@[k].0@));
                                },
                                _ => {},
                            }
                        }
                    }
                }
                return Err(BenDecodeErrors::UnsortedKeys);
            }
        }
        if kend == len {
            proof {
                assert forall|v: BencodeValue| !enc_at(input@, pos as int, v) by {
                    if enc_at(input@, pos as int, v) {
                        match v {
                            BencodeValue::Dict(ps) => {
                                assert(str_at(input@, cur as int, ps@[k].0@));
                                assert(kend as int == cur + str_token(ps@[k].0@).len());
                                lemma_enc_len(ps@[k].1);
                            },
                            _ => {},
                        }
                    }
                }
            }
            return Err(BenDecodeErrors::TruncatedInput);
        }
        if input[kend] == 101 {
            proof {
                assert forall|v: BencodeValue| !enc_at(input@, pos as int, v) by {
                    if enc_at(input@, pos as int, v) {
                        match v {
                            BencodeValue::Dict(ps) => {
                                assert(kend as int == cur + str_token(ps@[k].0@).len());
                                lemma_enc_at_first_byte(input@, kend as int, ps@[k].1);
                                lemma_enc_first_byte(ps@[k].1);
                            },
                            _ => {},
                        }
                    }
                }
            }
            return Err(BenDecodeErrors::MissingDictValue);
        }
        match decode_at(input, kend) {
            Ok((v, vend)) => {
                proof {
                    let single = seq![(key, v)];
                    lemma_enc_pairs_concat(pairs@, single);
                    assert(single.subrange(1, 1) =~= Seq::<(Vec<u8>, BencodeValue)>::empty());
                    assert(enc_pairs(Seq::<(Vec<u8>, BencodeValue)>::empty())
                        =~= Seq::empty());
                    assert(enc_pairs(single) =~= str_token(key@) + enc(v));
                    assert(pairs@.push((key, v)) =~= pairs@ + single);
                    assert(input@.subrange(pos + 1int, vend as int) =~= input@.subrange(
                        pos + 1int,
                        cur as int,
                    ) + input@.subrange(cur as int, kend as int) + input@.subrange(
                        kend as int,
                        vend as int,
                    ));
                    assert forall|w: BencodeValue| enc_at(input@, pos as int, w) implies (
                    w matches BencodeValue::Dict(ps) && k < ps@.len() && key@ == ps@[k].0@
                        && structurally_equal(v, ps@[k].1) && vend as int == pos + 1
                        + enc_pairs(ps@.take(k + 1)).len()) by {
                        match w {
                            BencodeValue::Dict(ps) => {
                                assert(kend as int == cur + str_token(ps@[k].0@).len());
                                assert(enc_at(input@, kend as int, ps@[k].1));
                            },
                            _ => {},
                        }
                    }
                }
                pairs.push((key, v));
                cur = vend;
            },
            Err(e) => {
                proof {
                    assert forall|w: BencodeValue| !enc_at(input@, pos as int, w) by {
                        if enc_at(input@, pos as int, w) {
                            match w {
                                BencodeValue::Dict(ps) => {
                                    assert(kend as int == cur + str_token(ps@[k].0@).len());
                                    assert(enc_at(input@, kend as int, ps@[k].1));
                                },
                                _ => {},
                            }
                        }
                    }
                }
                return Err(e);
            },
        }
    }
}

/// Decode one canonical bencoded value starting at `pos`: the consumed bytes
/// of a success are exactly the canonical encoding of the returned value,
/// and every well-formed value whose encoding sits at `pos` is returned.
#[verifier::rlimit(100)]
pub fn decode_at(input: &Vec<u8>, pos: usize) -> (r: Result<(BencodeValue, usize), BenDecodeErrors>)
    requires
        pos <= input.len(),
    ensures
        decode_post(input@, pos as int, r),
    decreases input.len() - pos, 1int,
{
    let len = input.len();
    if pos == len {
        proof {
            assert forall|v: BencodeValue| !enc_at(input@, pos as int, v) by {
                if enc_at(input@, pos as int, v) {
                    lemma_enc_len(v);
                }
            }
        }
        return Err(BenDecodeErrors::TruncatedInput);
    }
    let b = input[pos];
    if b == 105 {
        decode_int(input, pos)
    } else if 48 <= b && b <= 57 {
        // <len>:<bytes>
        let res = decode_str_token(input, pos);
        proof {
            assert forall|v: BencodeValue| enc_at(input@, pos as int, v) implies (v matches
                BencodeValue::Bytes(bsv) && str_at(input@, pos as int, bsv@)) by {
                lemma_enc_at_first_byte(input@, pos as int, v);
                lemma_enc_first_byte(v);
                match v {
                    BencodeValue::Bytes(bsv) => {
                        assert(enc(v) == str_token(bsv@));
                    },
                    _ => {},
                }
            }
        }
        match res {
            Ok((bs, end)) => {
                proof {
                    assert forall|v: BencodeValue| enc_at(input@, pos as int, v) implies (
                    structurally_equal(BencodeValue::Bytes(bs), v) && pos + enc(v).len()
                        == end as int) by {
                        match v {
                            BencodeValue::Bytes(bsv) => {
                                assert(str_at(input@, pos as int, bsv@));
                                assert(bs@ == bsv@);
                            },
                            _ => {},
                        }
                    }
                }
                Ok((BencodeValue::Bytes(bs), end))
            },
            Err(e) => {
                proof {
                    assert forall|v: BencodeValue| !enc_at(input@, pos as int, v) by {
                        if enc_at(input@, pos as int, v) {
                            match v {
                                BencodeValue::Bytes(bsv) => {
                                    assert(str_at(input@, pos as int, bsv@));
                                },
                                _ => {},
                            }
                        }
                    }
                }
                Err(e)
            },
        }
    } else if b == 108 {
        decode_list(input, pos)
    } else if b == 100 {
        decode_dict(input, pos)
    } else {
        proof {
            assert forall|v: BencodeValue| !enc_at(input@, pos as int, v) by {
                if enc_at(input@, pos as int, v) {
                    lemma_enc_at_first_byte(input@, pos as int, v);
                    lemma_enc_first_byte(v);
                }
            }
        }
        Err(BenDecodeErrors::UnexpectedByte)
    }
}

/// Decode the first value of `input`, returning it together with the position
/// of the first unconsumed byte.  The consumed bytes are exactly the
/// returned value's canonical encoding, so re-encoding the result gives the
/// consumed bytes back; and every well-formed value whose encoding starts
/// the input is returned.
pub fn decode_bencoded_value(input: &Vec<u8>) -> (r: Result<(BencodeValue, usize), BenDecodeErrors>)
    ensures
        decode_post(input@, 0, r),
        match r {
            Ok((v, end)) => {
                &&& 0 < end <= input@.len()
                &&& wf(v)
                &&& input@.subrange(0, end as int) == enc(v)
            },
            Err(_) => true,
        },
{
    decode_at(input, 0)
}

/// Decode `input` as exactly one value: trailing bytes are rejected.
/// Succeeds exactly on the canonical encodings of well-formed values, and
/// the returned value re-encodes to the whole input.
pub fn decode_complete(input: &Vec<u8>) -> (r: Result<BencodeValue, BenDecodeErrors>)
    ensures
        match r {
            Ok(v) => wf(v) && input@ == enc(v),
            Err(_) => forall|v: BencodeValue| wf(v) ==> input@ != enc(v),
        },
        forall|v: BencodeValue|
            (wf(v) && input@ == #[trigger] enc(v)) ==> (r matches Ok(w) && structurally_equal(
                w,
                v,
            )),
{
    let res = decode_at(input, 0);
    proof {
        assert forall|v: BencodeValue| wf(v) && input@ == enc(v) implies enc_at(input@, 0, v) by {
            assert(input@.subrange(0, enc(v).len() as int) =~= input@);
        }
    }
    match res {
        Ok((v, end)) => {
            if end == input.len() {
                proof {
                    assert(input@.subrange(0, input@.len() as int) =~= input@);
                }
                Ok(v)
            } else {
                proof {
                    assert forall|w: BencodeValue| wf(w) implies input@ != enc(w) by {
                        if input@ == enc(w) {
                            assert(enc_at(input@, 0, w));
                        }
                    }
                }
                Err(BenDecodeErrors::UnexpectedByte)
            }
        },
        Err(e) => {
            proof {
                assert forall|w: BencodeValue| wf(w) implies input@ != enc(w) by {
                    if input@ == enc(w) {
                        assert(enc_at(input@, 0, w));
                    }
                }
            }
            Err(e)
        },
    }
}

/// Emit the string token `<len>:<bytes>`.
fn str_token_bytes(bs: &Vec<u8>) -> (r: Vec<u8>)
    ensures
        r@ == str_token(bs@),
{
    let mut out = u64_to_dec(bs.len() as u64);
    out.push(58);
    let mut i: usize = 0;
    while i < bs.len()
        invariant
            i <= bs.len(),
            out@ =~= dec_chars(bs@.len() as int) + seq![58u8] + bs@.take(i as int),
        decreases bs.len() - i,
    {
        out.push(bs[i]);
        proof {
            assert(bs@.take(i + 1int) =~= bs@.take(i as int) + seq![bs@[i as int]]);
        }
        i = i + 1;
    }
    proof {
        assert(bs@.take(bs@.len() as int) =~= bs@);
        assert(out@ =~= str_token(bs@));
    }
    out
}

} // verus!
