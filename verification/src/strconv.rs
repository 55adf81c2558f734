//! Conversions between byte sequences and text: lowercase hex renderings of
//! digests and peer ids, and UTF-8 decoding of byte strings that carry text.
use vstd::prelude::*;
use vstd::utf8::{decode_utf8, valid_utf8};

verus! {

/// The characters of an ASCII byte sequence, one per byte.
pub open spec fn chars_of_ascii(s: Seq<u8>) -> Seq<char> {
    Seq::new(s.len(), |i: int| s[i] as char)
}

/// The lowercase hex digit with value `n`.
pub open spec fn hex_char(n: int) -> char
    recommends
        0 <= n < 16,
{
    if n < 10 {
        ((48 + n) as u8) as char
    } else {
        ((87 + n) as u8) as char
    }
}

/// The lowercase hex rendering of a byte sequence: two digits per byte, high
/// nibble first.
pub open spec fn hex_of(b: Seq<u8>) -> Seq<char> {
    Seq::new(
        b.len() * 2,
        |i: int|
            if i % 2 == 0 {
                hex_char((b[i / 2] >> 4) as int)
            } else {
                hex_char((b[i / 2] & 0xf) as int)
            },
    )
}

/// An ASCII hex digit, either case.
pub open spec fn is_hex_digit(b: u8) -> bool {
    (48 <= b <= 57) || (97 <= b <= 102) || (65 <= b <= 70)
}

/// The value of an ASCII hex digit.
pub open spec fn hex_val(b: u8) -> int
    recommends
        is_hex_digit(b),
{
    if 48 <= b <= 57 {
        b - 48
    } else if 97 <= b <= 102 {
        b - 87
    } else {
        b - 55
    }
}

/// Relies on hex::encode: two lowercase digits per byte, high nibble first.
#[verifier::external_body]
pub(crate) fn hex_encode(b: &Vec<u8>) -> (r: String)
    ensures
        r@ == hex_of(b@),
{
    hex::encode(b.as_slice())
}

/// Relies on hex::decode: succeeds exactly on an even number of hex digits
/// (either case) and pairs them into bytes, high nibble first.
#[verifier::external_body]
pub(crate) fn hex_decode(b: &Vec<u8>) -> (r: Option<Vec<u8>>)
    ensures
        r is Some <==> (b@.len() % 2 == 0 && forall|i: int|
            0 <= i < b@.len() ==> is_hex_digit(#[trigger] b@[i])),
        match r {
            Some(v) => {
                &&& v@.len() == b@.len() / 2
                &&& forall|i: int|
                    0 <= i < v@.len() ==> #[trigger] v@[i] == 16 * hex_val(b@[2 * i]) + hex_val(
                        b@[2 * i + 1],
                    )
            },
            None => true,
        },
{
    match hex::decode(b.as_slice()) {
        Ok(v) => Some(v),
        Err(_) => None,
    }
}

/// Relies on String::from_utf8: it succeeds exactly on valid UTF-8 and
/// decodes the bytes to the characters they encode.
#[verifier::external_body]
pub(crate) fn utf8_bytes_to_string(b: &Vec<u8>) -> (r: Option<String>)
    ensures
        r is Some <==> valid_utf8(b@),
        match r {
            Some(s) => s@ == decode_utf8(b@),
            None => true,
        },
{
    match String::from_utf8(b.clone()) {
        Ok(s) => Some(s),
        Err(_) => None,
    }
}

/// ASCII bytes decode to themselves, one character per byte.
pub proof fn lemma_ascii_decode(b: Seq<u8>)
    requires
        forall|i: int| 0 <= i < b.len() ==> #[trigger] b[i] < 128,
    ensures
        valid_utf8(b),
        decode_utf8(b).len() == b.len(),
        forall|i: int| 0 <= i < b.len() ==> decode_utf8(b)[i] == #[trigger] b[i] as char,
    decreases b.len(),
{
    if b.len() > 0 {
        let x = b[0];
        assert(x < 128);
        assert(vstd::utf8::is_leading_byte_width_1(x));
        assert(x & 0x7f == x) by (bit_vector)
            requires
                x < 128,
        ;
        assert(vstd::utf8::valid_first_scalar(b));
        assert(vstd::utf8::length_of_first_scalar(b) == 1);
        assert(vstd::utf8::pop_first_scalar(b) =~= b.skip(1));
        lemma_ascii_decode(b.skip(1));
        assert(valid_utf8(b));
        assert(vstd::utf8::decode_first_scalar(b) == x as u32);
        assert(decode_utf8(b) =~= seq![x as char] + decode_utf8(b.skip(1)));
        assert forall|i: int| 0 <= i < b.len() implies decode_utf8(b)[i] == #[trigger] b[i] as char by {
            if i > 0 {
                assert(decode_utf8(b)[i] == decode_utf8(b.skip(1))[i - 1]);
                assert(b.skip(1)[i - 1] == b[i]);
            }
        }
    }
}

} // verus!
