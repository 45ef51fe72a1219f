//! Fixed-point parsing of the upstream's string-encoded decimal numbers.
//!
//! A price or volume string such as `"123.4567"` is read into a `u64`
//! holding the value scaled by `10^8`, so every quantity is an exactly
//! ordered integer and no value is ever unordered.

use vstd::prelude::*;
use crate::digits::{
    all_digits, check_digits, digits_val, lemma_digits_val_bound, lemma_pow10_adds,
    lemma_pow10_mono, lemma_pow10_pos, parse_digits, pow10,
};

verus! {

/// Every parsed decimal is scaled by this factor: eight fraction digits.
pub const PRICE_SCALE: u64 = 100000000;

/// The index of the first `.` in `s`, or `s.len()` when there is none.
pub open spec fn first_dot(s: Seq<char>) -> int
    decreases s.len(),
{
    if s.len() == 0 {
        0
    } else if s[0] == '.' {
        0
    } else {
        1 + first_dot(s.subrange(1, s.len() as int))
    }
}

pub proof fn lemma_first_dot_at(s: Seq<char>, p: int)
    requires
        0 <= p <= s.len(),
        forall|j: int| 0 <= j < p ==> #[trigger] s[j] != '.',
        p == s.len() || s[p] == '.',
    ensures
        first_dot(s) == p,
    decreases s.len(),
{
    if s.len() == 0 {
    } else if p == 0 {
    } else {
        let t = s.subrange(1, s.len() as int);
        assert(forall|j: int| 0 <= j < p - 1 ==> #[trigger] t[j] == s[j + 1]);
        assert(p - 1 == t.len() || t[p - 1] == '.');
        lemma_first_dot_at(t, p - 1);
    }
}

/// The digits before the first dot.
pub open spec fn int_part(s: Seq<char>) -> Seq<char> {
    s.subrange(0, first_dot(s))
}

/// The digits after the first dot; empty when there is no dot.
pub open spec fn frac_part(s: Seq<char>) -> Seq<char> {
    if first_dot(s) == s.len() {
        Seq::empty()
    } else {
        s.subrange(first_dot(s) + 1, s.len() as int)
    }
}

/// Whether `s` is a plain decimal numeral: digits, at most one dot, and at
/// least one digit overall.
pub open spec fn decimal_format_ok(s: Seq<char>) -> bool {
    &&& all_digits(int_part(s))
    &&& all_digits(frac_part(s))
    &&& int_part(s).len() + frac_part(s).len() >= 1
}

/// Whether the numeral fits the fixed-point representation: at most eleven
/// integral digits as written and at most eight fraction digits.
pub open spec fn decimal_in_range(s: Seq<char>) -> bool {
    &&& int_part(s).len() <= 11
    &&& frac_part(s).len() <= 8
}

pub open spec fn decimal_parseable(s: Seq<char>) -> bool {
    decimal_format_ok(s) && decimal_in_range(s)
}

/// The value of the numeral `s`, scaled by `10^8` (meaningful only when
/// `decimal_parseable` holds).
pub open spec fn dec_val(s: Seq<char>) -> int {
    digits_val(int_part(s)) * pow10(8) + digits_val(frac_part(s)) * pow10(
        (8 - frac_part(s).len()) as nat,
    )
}

/// The index of the first `.` of `s`, or its length when there is none.
fn find_dot(s: &str) -> (p: usize)
    ensures
        p <= s@.len(),
        forall|j: int| 0 <= j < p ==> #[trigger] s@[j] != '.',
        p == s@.len() || s@[p as int] == '.',
{
    let n = s.unicode_len();
    let mut i: usize = 0;
    while i < n
        invariant
            i <= n,
            n == s@.len(),
            forall|j: int| 0 <= j < i ==> #[trigger] s@[j] != '.',
        decreases n - i,
    {
        if s.get_char(i) == '.' {
            return i;
        }
        i = i + 1;
    }
    i
}

/// Ten to the power `n`, for small `n`.
fn pow10_small(n: usize) -> (r: u64)
    requires
        n <= 8,
    ensures
        r as int == pow10(n as nat),
{
    proof {
        reveal_with_fuel(pow10, 10);
    }
    if n == 0 {
        1
    } else if n == 1 {
        10
    } else if n == 2 {
        100
    } else if n == 3 {
        1000
    } else if n == 4 {
        10000
    } else if n == 5 {
        100000
    } else if n == 6 {
        1000000
    } else if n == 7 {
        10000000
    } else {
        100000000
    }
}

/// Parses a decimal numeral into its value scaled by `10^8`, rejecting any
/// text that is not a plain decimal or that does not fit the fixed-point
/// representation.
pub fn parse_decimal(s: &str) -> (r: Option<u64>)
    ensures
        r is Some <==> decimal_parseable(s@),
        r is Some ==> r->0 as int == dec_val(s@),
{
    let n = s.unicode_len();
    let p = find_dot(s);
    proof {
        lemma_first_dot_at(s@, p as int);
        assert(int_part(s@) =~= s@.subrange(0, p as int));
        if p < n {
            assert(frac_part(s@) =~= s@.subrange(p as int + 1, n as int));
        } else {
            assert(frac_part(s@) =~= Seq::<char>::empty());
        }
    }
    let int_len: usize = p;
    let frac_len: usize = if p == n {
        0
    } else {
        n - p - 1
    };
    if int_len == 0 && frac_len == 0 {
        return None;
    }
    if int_len > 11 || frac_len > 8 {
        return None;
    }
    if !check_digits(s, 0, p) {
        return None;
    }
    if p < n && !check_digits(s, p + 1, n) {
        return None;
    }
    let iv = parse_digits(s, 0, p);
    let fv = if p == n {
        0
    } else {
        parse_digits(s, p + 1, n)
    };
    let pw = pow10_small(8 - frac_len);
    proof {
        lemma_decimal_value_fits(s@);
        reveal_with_fuel(pow10, 10);
    }
    Some(iv * PRICE_SCALE + fv * pw)
}

/// A parseable numeral's scaled value fits below `10^19`, and so in `u64`.
proof fn lemma_decimal_value_fits(s: Seq<char>)
    requires
        decimal_parseable(s),
    ensures
        0 <= dec_val(s) < pow10(19),
        pow10(19) == 10000000000000000000,
{
    let ip = int_part(s);
    let fp = frac_part(s);
    let fl = fp.len();
    let rest: nat = (8 - fl) as nat;
    lemma_digits_val_bound(ip);
    lemma_digits_val_bound(fp);
    lemma_pow10_mono(ip.len(), 11);
    lemma_pow10_pos(rest);
    lemma_pow10_pos(8);
    assert(pow10(11) * pow10(8) == pow10(19)) by {
        lemma_pow10_adds(11, 8);
    }
    assert(pow10(fl) * pow10(rest) == pow10(8)) by {
        lemma_pow10_adds(fl, rest);
    }
    assert(digits_val(ip) * pow10(8) <= (pow10(11) - 1) * pow10(8)) by (nonlinear_arith)
        requires
            0 <= digits_val(ip),
            digits_val(ip) < pow10(ip.len()),
            pow10(ip.len()) <= pow10(11),
            pow10(8) >= 1,
    ;
    assert(digits_val(fp) * pow10(rest) <= (pow10(fl) - 1) * pow10(rest)) by (nonlinear_arith)
        requires
            0 <= digits_val(fp),
            digits_val(fp) < pow10(fl),
            pow10(rest) >= 1,
    ;
    assert((pow10(11) - 1) * pow10(8) == pow10(11) * pow10(8) - pow10(8)) by (nonlinear_arith);
    assert((pow10(fl) - 1) * pow10(rest) == pow10(fl) * pow10(rest) - pow10(rest))
        by (nonlinear_arith);
    assert(0 <= digits_val(ip) * pow10(8)) by (nonlinear_arith)
        requires
            0 <= digits_val(ip),
            pow10(8) >= 1,
    ;
    assert(0 <= digits_val(fp) * pow10(rest)) by (nonlinear_arith)
        requires
            0 <= digits_val(fp),
            pow10(rest) >= 1,
    ;
    assert(pow10(19) == 10000000000000000000) by {
        reveal_with_fuel(pow10, 20);
    }
}

} // verus!
