//! Numeric literal text: the decimal model of signed 64-bit integers, a
//! verified integer reader, and the trusted bridge to 64-bit floats.
use vstd::prelude::*;

use crate::chars::{digit, num_char, MINUS, PLUS};
use rustc_apfloat::Float;

verus! {

/// The integer denoted by a sequence of decimal digit bytes (most
/// significant first); 0 for the empty sequence.
pub open spec fn digits_value(t: Seq<u8>) -> int
    decreases t.len(),
{
    if t.len() == 0 {
        0
    } else {
        digits_value(t.drop_last()) * 10 + (t.last() - 0x30)
    }
}

pub open spec fn all_digits(t: Seq<u8>) -> bool {
    forall|i: int| 0 <= i < t.len() ==> digit(t[i])
}

/// The digit run of an integer literal: everything after an optional
/// leading sign.
pub open spec fn int_literal_digits(t: Seq<u8>) -> Seq<u8> {
    if t.len() > 0 && (t[0] == MINUS || t[0] == PLUS) {
        t.drop_first()
    } else {
        t
    }
}

/// An optionally signed, non-empty run of decimal digits.
pub open spec fn is_int_literal(t: Seq<u8>) -> bool {
    let d = int_literal_digits(t);
    d.len() > 0 && all_digits(d)
}

/// The mathematical value of an integer literal.
pub open spec fn int_literal_value(t: Seq<u8>) -> int {
    if t.len() > 0 && t[0] == MINUS {
        -digits_value(int_literal_digits(t))
    } else {
        digits_value(int_literal_digits(t))
    }
}

/// What parsing a text as a signed 64-bit integer yields: its exact value
/// for every well-formed literal whose value is in range, nothing otherwise.
pub open spec fn spec_parse_i64(t: Seq<u8>) -> Option<i64> {
    if is_int_literal(t) && i64::MIN <= int_literal_value(t) <= i64::MAX {
        Some(int_literal_value(t) as i64)
    } else {
        None
    }
}

proof fn lemma_digits_value_nonneg(d: Seq<u8>)
    requires
        all_digits(d),
    ensures
        digits_value(d) >= 0,
    decreases d.len(),
{
    if d.len() > 0 {
        assert(digit(d[d.len() - 1]));
        assert(all_digits(d.drop_last()));
        lemma_digits_value_nonneg(d.drop_last());
    }
}

/// Reading more digits never makes the value smaller.
proof fn lemma_digits_value_take_le(d: Seq<u8>, k: int)
    requires
        all_digits(d),
        0 <= k <= d.len(),
    ensures
        digits_value(d.take(k)) <= digits_value(d),
    decreases d.len(),
{
    if k == d.len() {
        assert(d.take(k) =~= d);
    } else {
        assert(all_digits(d.drop_last()));
        assert(d.take(k) =~= d.drop_last().take(k));
        lemma_digits_value_take_le(d.drop_last(), k);
        lemma_digits_value_nonneg(d.drop_last());
        assert(digit(d[d.len() - 1]));
    }
}

proof fn lemma_digits_value_push(d: Seq<u8>, k: int)
    requires
        0 <= k < d.len(),
    ensures
        digits_value(d.take(k + 1)) == digits_value(d.take(k)) * 10 + (d[k] - 0x30),
{
    assert(d.take(k + 1).drop_last() =~= d.take(k));
    assert(d.take(k + 1).last() == d[k]);
}

/// Reads an optionally signed decimal literal as a signed 64-bit integer:
/// exactly the value of every in-range literal, nothing otherwise.
pub fn parse_i64(t: &[u8]) -> (r: Option<i64>)
    ensures
        r == spec_parse_i64(t@),
{
    let n = t.len();
    let ghost tv = t@;
    let (start, neg): (usize, bool) = if n > 0 && (t[0] == MINUS || t[0] == PLUS) {
        (1, t[0] == MINUS)
    } else {
        (0, false)
    };
    let ghost d = int_literal_digits(tv);
    proof {
        assert(d =~= tv.subrange(start as int, n as int));
    }
    if start >= n {
        return None;
    }
    let max_mag: u64 = if neg {
        0x8000000000000000
    } else {
        0x7fffffffffffffff
    };
    let mut mag: u64 = 0;
    let mut i: usize = start;
    while i < n
        invariant
            start <= i <= n,
            n == tv.len(),
            t@ == tv,
            start < n,
            d == tv.subrange(start as int, n as int),
            d == int_literal_digits(tv),
            tv.len() > 0 && tv[0] == MINUS <==> neg,
            neg ==> max_mag == 0x8000000000000000,
            !neg ==> max_mag == 0x7fffffffffffffff,
            all_digits(d.take(i - start)),
            mag == digits_value(d.take(i - start)),
            mag <= max_mag,
        decreases n - i,
    {
        let c = t[i];
        if !crate::chars::is_digit(c) {
            proof {
                assert(!digit(d[i - start]));
                assert(!all_digits(d));
                assert(!is_int_literal(tv));
            }
            return None;
        }
        let dv: u64 = (c - 0x30) as u64;
        let grown: Option<u64> = mag.checked_mul(10);
        let next: Option<u64> = match grown {
            Some(g) => g.checked_add(dv),
            None => None,
        };
        let out_of_range: bool = match next {
            Some(v) => v > max_mag,
            None => true,
        };
        if out_of_range {
            proof {
                lemma_digits_value_push(d, i - start);
                assert(digit(d[i - start]));
                assert(all_digits(d.take(i - start + 1)));
                assert(digits_value(d.take(i - start + 1)) > max_mag);
                if is_int_literal(tv) {
                    lemma_digits_value_take_le(d, i - start + 1);
                    if neg {
                        assert(int_literal_value(tv) == -digits_value(d));
                        assert(int_literal_value(tv) < i64::MIN);
                    } else {
                        assert(int_literal_value(tv) == digits_value(d));
                        assert(int_literal_value(tv) > i64::MAX);
                    }
                }
            }
            return None;
        }
        mag = match next {
            Some(v) => v,
            None => 0,
        };
        proof {
            lemma_digits_value_push(d, i - start);
            assert(digit(d[i - start]));
            assert(all_digits(d.take(i - start + 1)));
        }
        i = i + 1;
    }
    proof {
        assert(d.take(n - start) =~= d);
        assert(is_int_literal(tv));
    }
    if neg {
        if mag == 0x8000000000000000 {
            Some(i64::MIN)
        } else {
            Some(-(mag as i64))
        }
    } else {
        Some(mag as i64)
    }
}

/// The decimal digit run of an unsigned value, most significant first.
pub open spec fn u64_dec_text(n: nat) -> Seq<u8>
    decreases n,
{
    if n < 10 {
        seq![(0x30 + n) as u8]
    } else {
        u64_dec_text(n / 10) + seq![(0x30 + n % 10) as u8]
    }
}

/// The canonical decimal text of a signed 64-bit value: a minus sign for
/// negative values, then the digits with no leading zero.
pub open spec fn i64_dec_text(v: int) -> Seq<u8> {
    if v < 0 {
        seq![MINUS] + u64_dec_text((-v) as nat)
    } else {
        u64_dec_text(v as nat)
    }
}

/// The digit run of a value is non-empty, all digits, and reads back as
/// that value.
pub proof fn lemma_u64_dec_text(n: nat)
    ensures
        u64_dec_text(n).len() >= 1,
        all_digits(u64_dec_text(n)),
        digits_value(u64_dec_text(n)) == n,
    decreases n,
{
    if n < 10 {
        let t = u64_dec_text(n);
        assert(digit(t[0]));
        assert(t.drop_last() =~= Seq::<u8>::empty());
        assert(digits_value(Seq::<u8>::empty()) == 0);
    } else {
        lemma_u64_dec_text(n / 10);
        let prev = u64_dec_text(n / 10);
        let whole = u64_dec_text(n);
        assert(whole.drop_last() =~= prev);
        assert forall|i: int| 0 <= i < whole.len() implies digit(whole[i]) by {
            if i < prev.len() {
                assert(digit(prev[i]));
            }
        }
        assert(digits_value(whole) == digits_value(prev) * 10 + (whole.last() - 0x30));
        vstd::arithmetic::div_mod::lemma_fundamental_div_mod(n as int, 10);
    }
}

/// Reading the canonical text of any signed 64-bit value gives the value back.
pub proof fn lemma_i64_text_round_trip(v: i64)
    ensures
        spec_parse_i64(i64_dec_text(v as int)) == Some(v),
{
    let t = i64_dec_text(v as int);
    if v < 0 {
        let mag = (-(v as int)) as nat;
        lemma_u64_dec_text(mag);
        assert(t[0] == MINUS);
        assert(t.drop_first() =~= u64_dec_text(mag));
        assert(int_literal_digits(t) == u64_dec_text(mag));
        assert(is_int_literal(t));
        assert(int_literal_value(t) == v as int);
    } else {
        let mag = (v as int) as nat;
        lemma_u64_dec_text(mag);
        assert(digit(t[0]));
        assert(t[0] != MINUS && t[0] != PLUS);
        assert(int_literal_digits(t) == t);
        assert(is_int_literal(t));
        assert(int_literal_value(t) == v as int);
    }
}

/// Writes a signed 64-bit value as its canonical decimal text.
pub fn format_i64(v: i64) -> (r: Vec<u8>)
    ensures
        r@ == i64_dec_text(v as int),
{
    let neg = v < 0;
    let mag: u64 = if v == i64::MIN {
        0x8000000000000000
    } else if v < 0 {
        (-v) as u64
    } else {
        v as u64
    };
    let ghost mag0 = mag as nat;
    let mut digits_rev: Vec<u8> = Vec::new();
    let mut m: u64 = mag;
    loop
        invariant
            m > 0 ==> u64_dec_text(mag0) =~= u64_dec_text(m as nat) + digits_rev@.reverse(),
            m == 0 && digits_rev@.len() > 0 ==> u64_dec_text(mag0) =~= digits_rev@.reverse(),
            m == 0 && digits_rev@.len() == 0 ==> mag0 == 0,
            m <= mag,
        ensures
            u64_dec_text(mag0) =~= digits_rev@.reverse(),
        decreases m, (if digits_rev@.len() == 0 { 1int } else { 0int }),
    {
        if m == 0 && digits_rev.len() > 0 {
            break;
        }
        let ghost before = digits_rev@;
        let d: u8 = (m % 10) as u8;
        digits_rev.push(0x30 + d);
        proof {
            assert(digits_rev@.reverse() =~= seq![(0x30 + d) as u8] + before.reverse());
        }
        m = m / 10;
    }
    let mut out: Vec<u8> = Vec::new();
    if neg {
        out.push(MINUS);
    }
    let ghost head = out@;
    let k = digits_rev.len();
    let mut j: usize = 0;
    while j < k
        invariant
            k == digits_rev@.len(),
            0 <= j <= k,
            out@.len() == head.len() + j,
            forall|x: int| 0 <= x < head.len() ==> #[trigger] out@[x] == head[x],
            forall|x: int| 0 <= x < j ==> #[trigger] out@[head.len() + x] == digits_rev@[k - 1 - x],
        decreases k - j,
    {
        out.push(digits_rev[k - 1 - j]);
        j = j + 1;
    }
    proof {
        let whole = head + digits_rev@.reverse();
        assert forall|x: int| 0 <= x < out@.len() implies out@[x] == whole[x] by {
            if x >= head.len() {
                assert(out@[head.len() + (x - head.len())] == digits_rev@[k - 1 - (x - head.len())]);
            }
        }
        assert(out@ =~= head + digits_rev@.reverse());
        if neg {
            assert(head =~= seq![MINUS]);
            assert(out@ =~= i64_dec_text(v as int));
        } else {
            assert(head =~= Seq::<u8>::empty());
            assert(out@ =~= i64_dec_text(v as int));
        }
    }
    out
}

/// What the standard library yields when the text is read as a 64-bit
/// float, as the IEEE 754 bit pattern of the value; the outcome depends on
/// the text alone.
pub uninterp spec fn spec_parse_f64(t: Seq<u8>) -> Option<u64>;

/// Relies on `rustc_apfloat::ieee::Double::from_str` and `to_bits`: reading
/// a numeric text as an IEEE 754 binary64 value is a deterministic function
/// of the text.
#[verifier::external_body]
pub(crate) fn parse_f64_bits(t: &[u8]) -> (r: Option<u64>)
    requires
        forall|i: int| 0 <= i < t@.len() ==> num_char(t@[i]),
    ensures
        r == spec_parse_f64(t@),
{
    match core::str::from_utf8(t) {
        Ok(s) => <rustc_apfloat::ieee::Double as core::str::FromStr>::from_str(s)
            .ok()
            .map(|d| d.to_bits() as u64),
        Err(_) => None,
    }
}

/// The canonical decimal text of a 64-bit float with the given IEEE 754 bit
/// pattern; the text depends on the bits alone.
pub uninterp spec fn spec_f64_text(bits: u64) -> Seq<u8>;

/// Relies on the `Display` implementation of `rustc_apfloat::ieee::Double`
/// (reached through `from_bits`): natural decimal text, a deterministic
/// function of the bit pattern.
#[verifier::external_body]
pub(crate) fn format_f64(bits: u64) -> (r: Vec<u8>)
    ensures
        r@ == spec_f64_text(bits),
{
    format!("{}", rustc_apfloat::ieee::Double::from_bits(bits as u128)).into_bytes()
}

} // verus!
