//! Decimal renderings of unsigned numbers and 32-bit big-endian byte order,
//! as both encodings appear on the wire: decimal in bencode tokens and in
//! peer addresses, big-endian in message frames and block requests.
use vstd::prelude::*;

verus! {

/// ASCII decimal digit.
pub open spec fn is_digit(b: u8) -> bool {
    48 <= b <= 57
}

pub open spec fn all_digits(s: Seq<u8>) -> bool {
    forall|i: int| 0 <= i < s.len() ==> is_digit(#[trigger] s[i])
}

/// The canonical decimal rendering of `n >= 0`: no sign, no leading zero
/// except for the single digit `0`.
pub open spec fn dec_chars(n: int) -> Seq<u8>
    recommends
        n >= 0,
    decreases n,
{
    if n < 10 {
        seq![(48 + n) as u8]
    } else {
        dec_chars(n / 10).push((48 + n % 10) as u8)
    }
}

/// The number denoted by a sequence of decimal digits (most significant
/// first).
pub open spec fn digits_val(s: Seq<u8>) -> int
    recommends
        all_digits(s),
    decreases s.len(),
{
    if s.len() == 0 {
        0
    } else {
        digits_val(s.drop_last()) * 10 + (s.last() - 48)
    }
}

/// A digit sequence that `dec_chars` can produce: nonempty and without a
/// leading zero, unless it is exactly `0`.
pub open spec fn canonical_digits(s: Seq<u8>) -> bool {
    &&& s.len() >= 1
    &&& all_digits(s)
    &&& (s[0] != 48 || s.len() == 1)
}

pub proof fn lemma_dec_chars_props(n: int)
    requires
        n >= 0,
    ensures
        canonical_digits(dec_chars(n)),
        digits_val(dec_chars(n)) == n,
        n > 0 ==> dec_chars(n)[0] != 48,
        n < 10 ==> dec_chars(n) =~= seq![(48 + n) as u8],
        n >= 10 ==> dec_chars(n).len() >= 2,
    decreases n,
{
    if n < 10 {
        let s = dec_chars(n);
        assert(s =~= seq![(48 + n) as u8]);
        assert(s.drop_last() =~= Seq::<u8>::empty());
        assert(digits_val(s.drop_last()) == 0);
        assert(digits_val(s) == (48 + n) as u8 - 48);
    } else {
        lemma_dec_chars_props(n / 10);
        let pre = dec_chars(n / 10);
        let s = pre.push((48 + n % 10) as u8);
        assert(s.drop_last() =~= pre);
        assert(s.last() == (48 + n % 10) as u8);
        assert(digits_val(s) == (n / 10) * 10 + n % 10);
        assert(s[0] == pre[0]);
    }
}

pub proof fn lemma_digits_val_bounds(s: Seq<u8>)
    requires
        all_digits(s),
    ensures
        digits_val(s) >= 0,
        s.len() >= 1 && s[0] != 48 ==> digits_val(s) >= 1,
    decreases s.len(),
{
    if s.len() > 0 {
        lemma_digits_val_bounds(s.drop_last());
        if s.len() >= 2 && s[0] != 48 {
            assert(s.drop_last()[0] == s[0]);
            assert(digits_val(s.drop_last()) >= 1);
        }
    }
}

/// A canonical digit sequence is recovered from its value.
pub proof fn lemma_digits_val_roundtrip(s: Seq<u8>)
    requires
        canonical_digits(s),
    ensures
        dec_chars(digits_val(s)) =~= s,
    decreases s.len(),
{
    lemma_digits_val_bounds(s);
    if s.len() == 1 {
        assert(s.drop_last() =~= Seq::<u8>::empty());
        assert(digits_val(s.drop_last()) == 0);
        assert(s.last() == s[0]);
        assert(digits_val(s) == s[0] - 48);
        assert(dec_chars(digits_val(s)) =~= seq![s[0]]);
        assert(s =~= seq![s[0]]);
    } else {
        let pre = s.drop_last();
        let d = s.last() - 48;
        assert(pre[0] == s[0]);
        lemma_digits_val_bounds(pre);
        lemma_digits_val_roundtrip(pre);
        let vp = digits_val(pre);
        let v = digits_val(s);
        assert(v == vp * 10 + d);
        assert(vp >= 1);
        assert(v >= 10) by (nonlinear_arith)
            requires
                v == vp * 10 + d,
                vp >= 1,
                d >= 0,
        ;
        assert(v / 10 == vp && v % 10 == d) by (nonlinear_arith)
            requires
                v == vp * 10 + d,
                0 <= d < 10,
        ;
        assert(dec_chars(v) =~= dec_chars(vp).push((48 + d) as u8));
        assert(dec_chars(v) =~= pre.push(s.last()));
        assert(pre.push(s.last()) =~= s);
    }
}

/// The value of a digit prefix never exceeds the value of the whole.
pub proof fn lemma_digits_val_take_le(s: Seq<u8>, k: int)
    requires
        all_digits(s),
        0 <= k <= s.len(),
    ensures
        digits_val(s.take(k)) <= digits_val(s),
    decreases s.len() - k,
{
    if k < s.len() {
        lemma_digits_val_take_le(s, k + 1);
        let t = s.take(k + 1);
        assert(t.drop_last() =~= s.take(k));
        lemma_digits_val_bounds(s.take(k));
        assert(is_digit(t.last()));
        assert(digits_val(t) == digits_val(s.take(k)) * 10 + (t.last() - 48));
        assert(digits_val(s.take(k)) * 10 >= digits_val(s.take(k))) by (nonlinear_arith)
            requires
                digits_val(s.take(k)) >= 0,
        ;
    } else {
        assert(s.take(k) =~= s);
    }
}

/// Render `n` in decimal, mirroring `dec_chars`.
pub fn u64_to_dec(n: u64) -> (r: Vec<u8>)
    ensures
        r@ =~= dec_chars(n as int),
    decreases n,
{
    if n < 10 {
        let mut v: Vec<u8> = Vec::new();
        v.push(48 + n as u8);
        v
    } else {
        let mut v = u64_to_dec(n / 10);
        v.push(48 + (n % 10) as u8);
        v
    }
}

/// Parse the bytes of `input` between `start` and `end` as the canonical
/// decimal rendering of a `u64`; reject every other digit string, including
/// values past `u64::MAX`, padded zeroes and empty input.
pub fn parse_dec_u64(input: &Vec<u8>, start: usize, end: usize) -> (r: Option<u64>)
    requires
        start <= end <= input.len(),
    ensures
        match r {
            Some(v) => input@.subrange(start as int, end as int) =~= dec_chars(v as int),
            None => forall|v: u64|
                input@.subrange(start as int, end as int) != dec_chars(v as int),
        },
{
    let ghost s = input@.subrange(start as int, end as int);
    if start == end {
        proof {
            assert forall|v: u64| s != dec_chars(v as int) by {
                lemma_dec_chars_props(v as int);
            }
        }
        return None;
    }
    if input[start] == 48 {
        if end == start + 1 {
            proof {
                assert(s =~= seq![48u8]);
                assert(dec_chars(0) =~= seq![48u8]);
            }
            return Some(0);
        }
        proof {
            assert forall|v: u64| s != dec_chars(v as int) by {
                lemma_dec_chars_props(v as int);
                if v > 0 {
                    assert(dec_chars(v as int)[0] != 48);
                    assert(s[0] == 48);
                } else {
                    assert(dec_chars(0).len() == 1);
                    assert(s.len() >= 2);
                }
            }
        }
        return None;
    }
    let mut acc: u64 = 0;
    let mut i: usize = start;
    while i < end
        invariant
            start <= i <= end <= input.len(),
            end > start,
            input@[start as int] != 48,
            acc as int == digits_val(input@.subrange(start as int, i as int)),
            all_digits(input@.subrange(start as int, i as int)),
        decreases end - i,
    {
        let b = input[i];
        let ghost whole = input@.subrange(start as int, end as int);
        let ghost sofar = input@.subrange(start as int, i as int);
        let ghost next = input@.subrange(start as int, i + 1int);
        proof {
            assert(next.drop_last() =~= sofar);
            assert(next.last() == b);
        }
        if b < 48 || b > 57 {
            proof {
                assert forall|v: u64| whole != dec_chars(v as int) by {
                    lemma_dec_chars_props(v as int);
                    if whole == dec_chars(v as int) {
                        assert(is_digit(whole[i as int - start as int]));
                        assert(whole[i as int - start as int] == input@[i as int]);
                    }
                }
            }
            return None;
        }
        let d = b - 48;
        let step = match acc.checked_mul(10) {
            Some(x) => x.checked_add(d as u64),
            None => None,
        };
        match step {
            Some(x) => {
                acc = x;
                proof {
                    assert(digits_val(next) == digits_val(sofar) * 10 + d);
                }
            },
            None => {
                proof {
                    assert(digits_val(next) == digits_val(sofar) * 10 + d);
                    assert(digits_val(next) > u64::MAX as int);
                    assert forall|v: u64| whole != dec_chars(v as int) by {
                        lemma_dec_chars_props(v as int);
                        if whole == dec_chars(v as int) {
                            assert(next =~= whole.take(i + 1 - start));
                            lemma_digits_val_take_le(whole, i as int + 1 - start as int);
                            assert(digits_val(whole) == v as int);
                        }
                    }
                }
                return None;
            },
        }
        i = i + 1;
    }
    proof {
        assert(s =~= input@.subrange(start as int, end as int));
        assert(canonical_digits(s));
        lemma_digits_val_roundtrip(s);
    }
    Some(acc)
}

/// Division rounding up.
pub open spec fn ceil_div(a: int, b: int) -> int
    recommends
        b >= 1,
{
    (a + b - 1) / b
}

/// How a quantity `a` split into parts of size `b` behaves: every part but
/// the last is full, and the last holds between 1 and `b`.
pub proof fn lemma_ceil_div(a: int, b: int, i: int)
    requires
        a >= 1,
        b >= 1,
        0 <= i < ceil_div(a, b),
    ensures
        i * b < a,
        i < ceil_div(a, b) - 1 ==> i * b + b <= a,
        i == ceil_div(a, b) - 1 ==> a - i * b <= b,
        ceil_div(a, b) >= 1,
{
    assert(ceil_div(a, b) * b >= a && (ceil_div(a, b) - 1) * b < a && ceil_div(a, b) >= 1)
        by (nonlinear_arith)
        requires
            a >= 1,
            b >= 1,
    ;
    assert(i * b <= (ceil_div(a, b) - 1) * b) by (nonlinear_arith)
        requires
            b >= 1,
            i <= ceil_div(a, b) - 1,
    ;
    if i < ceil_div(a, b) - 1 {
        assert((i + 1) * b <= (ceil_div(a, b) - 1) * b) by (nonlinear_arith)
            requires
                b >= 1,
                i + 1 <= ceil_div(a, b) - 1,
        ;
        assert((i + 1) * b == i * b + b) by (nonlinear_arith);
    }
    if i == ceil_div(a, b) - 1 {
        assert(a - i * b <= b) by (nonlinear_arith)
            requires
                ceil_div(a, b) * b >= a,
                i == ceil_div(a, b) - 1,
        ;
    }
}

/// The four bytes of `n` in big-endian order.
pub open spec fn be32(n: u32) -> Seq<u8> {
    seq![(n >> 24) as u8, (n >> 16) as u8, (n >> 8) as u8, n as u8]
}

/// The number denoted by four big-endian bytes.
pub open spec fn be32_val(s: Seq<u8>) -> int
    recommends
        s.len() == 4,
{
    s[0] * 0x100_0000 + s[1] * 0x1_0000 + s[2] * 0x100 + s[3]
}

pub fn u32_to_be(n: u32) -> (r: Vec<u8>)
    ensures
        r@ =~= be32(n),
{
    let mut v: Vec<u8> = Vec::new();
    v.push((n >> 24) as u8);
    v.push((n >> 16) as u8);
    v.push((n >> 8) as u8);
    v.push(n as u8);
    v
}

/// Read four big-endian bytes of `input` starting at `pos`.
pub fn be32_read(input: &Vec<u8>, pos: usize) -> (r: u32)
    requires
        pos + 4 <= input.len(),
    ensures
        r == be32_val(input@.subrange(pos as int, pos + 4)),
        be32(r) =~= input@.subrange(pos as int, pos + 4),
{
    let b0 = input[pos];
    let b1 = input[pos + 1];
    let b2 = input[pos + 2];
    let b3 = input[pos + 3];
    let r = (b0 as u32) * 0x100_0000 + (b1 as u32) * 0x1_0000 + (b2 as u32) * 0x100 + (b3 as u32);
    proof {
        let s = input@.subrange(pos as int, pos + 4);
        assert(s[0] == b0 && s[1] == b1 && s[2] == b2 && s[3] == b3);
        let m = r;
        assert((m >> 24) as u8 == b0 && (m >> 16) as u8 == b1 && (m >> 8) as u8 == b2 && m as u8
            == b3) by (bit_vector)
            requires
                m == (b0 as u32) * 0x100_0000 + (b1 as u32) * 0x1_0000 + (b2 as u32) * 0x100 + (
                b3 as u32),
        ;
        assert(be32(r) =~= s);
    }
    r
}

} // verus!
