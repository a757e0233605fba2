use vstd::prelude::*;
use crate::metrics::VALUE_LIMIT;

verus! {

/// Number of fraction digits a value may carry; values are held as integers
/// in units of `10^-FRACTION_DIGITS`.
pub const FRACTION_DIGITS: usize = 3;

pub const DOT: u8 = 46;

pub const MINUS: u8 = 45;

pub const PLUS: u8 = 43;

pub open spec fn is_digit(b: u8) -> bool {
    48 <= b <= 57
}

pub open spec fn all_digits(s: Seq<u8>) -> bool {
    forall|i: int| 0 <= i < s.len() ==> is_digit(#[trigger] s[i])
}

/// The number that a sequence of decimal digits spells.
pub open spec fn digits_value(s: Seq<u8>) -> nat
    decreases s.len(),
{
    if s.len() == 0 {
        0
    } else {
        digits_value(s.drop_last()) * 10 + (s.last() - 48) as nat
    }
}

pub open spec fn pow10(n: nat) -> nat
    decreases n,
{
    if n == 0 {
        1
    } else {
        10 * pow10((n - 1) as nat)
    }
}

pub open spec fn has_sign(s: Seq<u8>) -> bool {
    s.len() > 0 && (s[0] == MINUS || s[0] == PLUS)
}

pub open spec fn unsigned_part(s: Seq<u8>) -> Seq<u8> {
    if has_sign(s) {
        s.subrange(1, s.len() as int)
    } else {
        s
    }
}

/// The digits of `b` with the point at `d` (if any) left out.
pub open spec fn mantissa(b: Seq<u8>, d: int) -> Seq<u8> {
    if d < b.len() {
        b.subrange(0, d) + b.subrange(d + 1, b.len() as int)
    } else {
        b
    }
}

pub open spec fn fraction_len(b: Seq<u8>, d: int) -> nat {
    if d < b.len() {
        (b.len() - d - 1) as nat
    } else {
        0
    }
}

/// `b` is integer digits up to `d`, then, where `d` is not its end, a point
/// and at most `FRACTION_DIGITS` digits; at least one digit in all.
pub open spec fn is_split(b: Seq<u8>, d: int) -> bool {
    &&& 0 <= d <= b.len()
    &&& all_digits(b.subrange(0, d))
    &&& d < b.len() ==> {
        &&& b[d] == DOT
        &&& all_digits(b.subrange(d + 1, b.len() as int))
        &&& b.len() - d - 1 <= FRACTION_DIGITS
    }
    &&& mantissa(b, d).len() > 0
}

/// The magnitude of `b` split at `d`, in units of `10^-FRACTION_DIGITS`.
pub open spec fn magnitude(b: Seq<u8>, d: int) -> nat {
    digits_value(mantissa(b, d)) * pow10((FRACTION_DIGITS - fraction_len(b, d)) as nat)
}

/// The value a text spells: an optional sign, digits, and an optional point
/// followed by at most `FRACTION_DIGITS` digits; `None` where the text is not
/// of that form or its magnitude reaches `VALUE_LIMIT`.
pub open spec fn decimal_value(s: Seq<u8>) -> Option<int> {
    let b = unsigned_part(s);
    if exists|d: int| is_split(b, d) {
        let d = choose|d: int| is_split(b, d);
        let m = magnitude(b, d);
        if m < VALUE_LIMIT {
            Some(if has_sign(s) && s[0] == MINUS { -m } else { m as int })
        } else {
            None
        }
    } else {
        None
    }
}

/// A split point can only be the first byte that is not a digit.
proof fn lemma_split_unique(b: Seq<u8>, e: int)
    requires
        0 <= e <= b.len(),
        all_digits(b.subrange(0, e)),
        e == b.len() || !is_digit(b[e]),
    ensures
        forall|d: int| is_split(b, d) ==> d == e,
{
    assert forall|d: int| is_split(b, d) implies d == e by {
        if d < e {
            assert(b.subrange(0, e)[d] == b[d]);
        } else if d > e {
            assert(b.subrange(0, d)[e] == b[e]);
        }
    }
}

proof fn lemma_digits_prefix(s: Seq<u8>, k: int)
    requires
        0 <= k <= s.len(),
    ensures
        digits_value(s.subrange(0, k)) <= digits_value(s),
    decreases s.len(),
{
    if k < s.len() {
        assert(s.drop_last().subrange(0, k) == s.subrange(0, k));
        lemma_digits_prefix(s.drop_last(), k);
    } else {
        assert(s.subrange(0, k) == s);
    }
}

proof fn lemma_pow10_positive(n: nat)
    ensures
        pow10(n) >= 1,
    decreases n,
{
    if n > 0 {
        lemma_pow10_positive((n - 1) as nat);
    }
}

/// Parses a value text into an integer number of `10^-FRACTION_DIGITS` units.
pub fn parse_value(text: &[u8]) -> (r: Option<i64>)
    ensures
        r.is_some() == decimal_value(text@).is_some(),
        r.is_some() ==> r.unwrap() as int == decimal_value(text@).unwrap(),
        r.is_some() ==> -VALUE_LIMIT < r.unwrap() < VALUE_LIMIT,
{
    let n = text.len();
    let ghost s = text@;
    let mut start: usize = 0;
    let mut negative = false;
    if n > 0 && (text[0] == MINUS || text[0] == PLUS) {
        negative = text[0] == MINUS;
        start = 1;
    }
    let ghost b = unsigned_part(s);
    assert(b == s.subrange(start as int, n as int));
    // the split point: the first byte that is not a digit
    let mut e: usize = start;
    while e < n && 48 <= text[e] && text[e] <= 57
        invariant
            start <= e <= n,
            n == s.len(),
            s == text@,
            b == s.subrange(start as int, n as int),
                b == unsigned_part(s),
                start as int == (if has_sign(s) { 1int } else { 0int }),
                negative == (has_sign(s) && s[0] == MINUS),
            all_digits(b.subrange(0, e - start)),
        decreases n - e,
    {
        assert(b.subrange(0, e + 1 - start) == b.subrange(0, e - start).push(b[e - start]));
        e = e + 1;
    }
    let ghost d = e - start;
    proof {
        lemma_split_unique(b, d);
    }
    let mut fraction: usize = 0;
    if e < n {
        if text[e] != DOT {
            return None;
        }
        fraction = n - e - 1;
        if fraction > FRACTION_DIGITS {
            return None;
        }
        let mut j: usize = e + 1;
        while j < n
            invariant
                e + 1 <= j <= n,
                start <= e < n,
                d == e - start,
                n == s.len(),
                s == text@,
                forall|dd: int| is_split(b, dd) ==> dd == d,
                b == s.subrange(start as int, n as int),
                b == unsigned_part(s),
                start as int == (if has_sign(s) { 1int } else { 0int }),
                negative == (has_sign(s) && s[0] == MINUS),
                all_digits(b.subrange(d + 1, j - start)),
            decreases n - j,
        {
            if !(48 <= text[j] && text[j] <= 57) {
                assert(b.subrange(d + 1, b.len() as int)[j - start - d - 1] == b[j - start]);
                assert(!is_split(b, d));
                return None;
            }
            assert(b.subrange(d + 1, j + 1 - start) == b.subrange(d + 1, j - start).push(b[j - start]));
            j = j + 1;
        }
    }
    let mant_len: usize = n - start - if e < n { 1usize } else { 0usize };
    let ghost mant = mantissa(b, d);
    assert(mant.len() == mant_len);
    if mant_len == 0 {
        return None;
    }
    assert(is_split(b, d));
    assert(all_digits(mant)) by {
        assert forall|k: int| 0 <= k < mant.len() implies is_digit(#[trigger] mant[k]) by {
            if k < d {
                assert(b.subrange(0, d)[k] == mant[k]);
            } else {
                assert(b.subrange(d + 1, b.len() as int)[k - d] == mant[k]);
            }
        }
    }
    // the mantissa's value
    let mut m: u64 = 0;
    let mut k: usize = 0;
    while k < mant_len
        invariant
            k <= mant_len,
            mant_len == mant.len(),
            mant == mantissa(b, d),
            b == s.subrange(start as int, n as int),
                b == unsigned_part(s),
                start as int == (if has_sign(s) { 1int } else { 0int }),
                negative == (has_sign(s) && s[0] == MINUS),
            n == s.len(),
            s == text@,
            d == e - start,
            start <= e <= n,
            all_digits(mant),
            is_split(b, d),
            forall|dd: int| is_split(b, dd) ==> dd == d,
            m == digits_value(mant.subrange(0, k as int)),
            m < VALUE_LIMIT,
        decreases mant_len - k,
    {
        let byte = if k < e - start { text[start + k] } else { text[start + k + 1] };
        assert(byte == mant[k as int]);
        assert(mant.subrange(0, k + 1).drop_last() == mant.subrange(0, k as int));
        let next = m * 10 + (byte - 48) as u64;
        if next >= VALUE_LIMIT as u64 {
            proof {
                lemma_digits_prefix(mant, k + 1);
                lemma_pow10_positive((FRACTION_DIGITS - fraction_len(b, d)) as nat);
                assert(digits_value(mant) * pow10((FRACTION_DIGITS - fraction_len(b, d)) as nat) >= digits_value(mant)) by (nonlinear_arith)
                    requires pow10((FRACTION_DIGITS - fraction_len(b, d)) as nat) >= 1;
            }
            return None;
        }
        m = next;
        k = k + 1;
    }
    assert(mant.subrange(0, mant_len as int) == mant);
    assert(fraction == fraction_len(b, d));
    let scale: u128 = if fraction == 0 {
        1000
    } else if fraction == 1 {
        100
    } else if fraction == 2 {
        10
    } else {
        1
    };
    assert(scale == pow10((FRACTION_DIGITS - fraction) as nat)) by {
        reveal_with_fuel(pow10, 4);
    }
    assert(m as u128 * scale <= 1000 * VALUE_LIMIT) by (nonlinear_arith)
        requires m < VALUE_LIMIT, scale <= 1000;
    let scaled: u128 = m as u128 * scale;
    if scaled >= VALUE_LIMIT as u128 {
        return None;
    }
    let v = scaled as i64;
    if negative {
        Some(-v)
    } else {
        Some(v)
    }
}

} // verus!
