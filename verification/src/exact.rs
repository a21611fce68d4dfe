//! What is written of a number reads back as it.
//!
//! Seventeen digits always tell a number from its neighbours: the distance of two
//! neighbours is more than one unit of the seventeenth digit.

use vstd::arithmetic::div_mod::lemma_fundamental_div_mod;
use vstd::prelude::*;

use crate::big::{
    lemma_ten_pow, lemma_ten_pow_add, lemma_two_pow, lemma_two_pow_add, lemma_two_pow_mono,
    lemma_two_pow_words, ten_pow, two_pow,
};
use crate::digits::{
    below_ten_pow, decade, general, is_decade, lead, lead_num, lemma_den_num, lemma_lead_positive,
    lemma_one_zeros, lemma_trimmed_first, exponent_text, magnitude, pick, reads_back, rounded,
    rounded_decade, rounded_digits, scientific, shortest_digits, shortest_exponent, shortest_len,
    shown, sign_text, trimmed, written_out, zeros,
};
use crate::numeral::{
    fraction_len, lemma_wide, mantissa, mantissa_end, parsed, spells, unsigned_bits,
    unsigned_literal, written_exponent, Literal,
};
use crate::scalar::{
    decimal_bits, decimal_den, decimal_num, is_nearest, lemma_scaled_mono, lemma_scaled_step,
    nearest_is_unique, scaled, Scalar, INFINITE, SIGN, STEP,
};
use crate::text::{decimal, digit_char, digit_run, digit_value, digits_value, is_digit, lower};

verus! {

// --------------------------------------------------------------------------
//  Neighbours
// --------------------------------------------------------------------------
/// The distances to both neighbours are more than `10^-16` of the number.
proof fn lemma_gaps(b: nat)
    requires
        0 < b < INFINITE,
    ensures
        (scaled(b + 1) - scaled(b)) * ten_pow(16) > scaled(b),
        (scaled(b) - scaled((b - 1) as nat)) * ten_pow(16) > scaled(b),
{
    let s = STEP as nat;
    let e = b / s;
    let f = b % s;
    lemma_fundamental_div_mod(b as int, s as int);
    assert(s * e == e * s) by (nonlinear_arith);
    lemma_sixteen();
    let t = ten_pow(16);
    lemma_split(b);
    lemma_split(b + 1);
    lemma_split((b - 1) as nat);
    lemma_two_pow(0);
    // Upwards.
    if f + 1 < s {
        lemma_quotient(b + 1, e, f + 1);
    } else {
        assert(b + 1 == (e + 1) * s) by (nonlinear_arith)
            requires
                b == e * s + f,
                f + 1 == s,
        ;
        lemma_quotient(b + 1, e + 1, 0);
    }
    if e == 0 {
        if f + 1 == s {
            assert((s + 0) * two_pow(0) == s) by (nonlinear_arith)
                requires
                    two_pow(0) == 1,
            ;
        }
        assert(scaled(b + 1) - scaled(b) == 1);
    } else {
        let w = two_pow((e - 1) as nat);
        lemma_two_pow((e - 1) as nat);
        if f + 1 < s {
            assert((s + (f + 1)) * w - (s + f) * w == w) by (nonlinear_arith);
        } else {
            assert(two_pow(e) == 2 * w);
            assert((s + 0) * (2 * w) - (s + f) * w == w) by (nonlinear_arith)
                requires
                    f + 1 == s,
            ;
        }
        assert(w * t > (s + f) * w) by (nonlinear_arith)
            requires
                w > 0,
                t > 2 * s,
                f < s,
        ;
    }
    // Downwards.
    if f > 0 {
        lemma_quotient((b - 1) as nat, e, (f - 1) as nat);
    } else {
        assert(b - 1 == (e - 1) * s + (s - 1)) by (nonlinear_arith)
            requires
                b == e * s,
        ;
        lemma_quotient((b - 1) as nat, (e - 1) as nat, (s - 1) as nat);
    }
    if e == 0 {
        assert(scaled(b) - scaled((b - 1) as nat) == 1);
    } else {
        let w = two_pow((e - 1) as nat);
        if f > 0 {
            assert((s + f) * w - (s + (f - 1)) * w == w) by (nonlinear_arith);
        } else if e == 1 {
            assert((s + 0) * w == s) by (nonlinear_arith)
                requires
                    w == 1,
            ;
            assert(scaled(b) - scaled((b - 1) as nat) == 1);
        } else {
            let h = two_pow((e - 2) as nat);
            lemma_two_pow((e - 2) as nat);
            assert(w == 2 * h);
            assert((s + 0) * (2 * h) - (s + (s - 1)) * h == h) by (nonlinear_arith);
            assert(h * t > (s + 0) * (2 * h)) by (nonlinear_arith)
                requires
                    h > 0,
                    t > 2 * s,
            ;
        }
    }
}

proof fn lemma_sixteen()
    ensures
        ten_pow(16) == 10_000_000_000_000_000,
        ten_pow(16) > 2 * STEP,
{
    lemma_ten_pow(0);
    lemma_ten_pow(1);
    lemma_ten_pow(2);
    lemma_ten_pow(3);
    lemma_ten_pow_add(4, 4);
    lemma_ten_pow_add(8, 8);
    assert(ten_pow(4) == 10_000);
    assert(ten_pow(8) == 100_000_000) by (nonlinear_arith)
        requires
            ten_pow(8) == ten_pow(4) * ten_pow(4),
            ten_pow(4) == 10_000,
    ;
    assert(ten_pow(16) == 10_000_000_000_000_000) by (nonlinear_arith)
        requires
            ten_pow(16) == ten_pow(8) * ten_pow(8),
            ten_pow(8) == 100_000_000,
    ;
}

proof fn lemma_quotient(b: nat, e: nat, f: nat)
    requires
        b == e * (STEP as nat) + f,
        f < STEP,
    ensures
        b / (STEP as nat) == e,
        b % (STEP as nat) == f,
{
    vstd::arithmetic::div_mod::lemma_fundamental_div_mod_converse(
        b as int,
        STEP as int,
        e as int,
        f as int,
    );
}

proof fn lemma_split(b: nat)
    ensures
        b % (STEP as nat) < STEP,
        b == (b / (STEP as nat)) * (STEP as nat) + b % (STEP as nat),
{
    lemma_fundamental_div_mod(b as int, STEP as int);
    let e = b / (STEP as nat);
    assert((STEP as nat) * e == e * (STEP as nat)) by (nonlinear_arith);
}

/// Every positive number has a decade.
proof fn lemma_has_decade(b: nat)
    requires
        0 < b < INFINITE,
    ensures
        is_decade(b, decade(b)),
{
    lemma_wide();
    lemma_scaled_step(0);
    lemma_scaled_mono(0, b);
    lemma_scaled_step((b - 1) as nat);
    lemma_scaled_mono(0, (b - 1) as nat);
    lemma_scaled_mono(b, INFINITE as nat);
    lemma_ten_pow(0);
    lemma_two_pow(1074);
    let s = scaled(b);
    let w = two_pow(1074);
    let t = ten_pow(402);
    assert(1 * 1 * w == w) by (nonlinear_arith);
    assert(s * t >= t) by (nonlinear_arith)
        requires
            s >= 1,
    ;
    let a = two_pow(1024);
    assert(1 * t * w >= a * w) by (nonlinear_arith)
        requires
            t >= a,
    ;
    assert(s * 1 == s);
    lemma_scaled_step(b);
    lemma_scaled_mono(b + 1, INFINITE as nat);
    lemma_decade_between(b, -402, 402);
}

proof fn lemma_decade_between(b: nat, lo: int, hi: int)
    requires
        lo < hi,
        !below_ten_pow(b, lo),
        below_ten_pow(b, hi),
    ensures
        is_decade(b, decade(b)),
    decreases hi - lo,
{
    if below_ten_pow(b, hi - 1) {
        if lo == hi - 1 {
        } else {
            lemma_decade_between(b, lo, hi - 1);
        }
    } else {
        assert(is_decade(b, hi));
    }
}

// --------------------------------------------------------------------------
//  Decimals that are one number
// --------------------------------------------------------------------------
/// `decimal_num(d, k)` is `d` times that of one.
proof fn lemma_times_one(d: nat, k: int)
    ensures
        decimal_num(d, k) == d * decimal_num(1, k),
        decimal_num(1, k) > 0,
        decimal_den(k) > 0,
{
    let t = ten_pow(if k > 0 { k as nat } else { 0 });
    let w = two_pow(1074);
    lemma_den_num(k);
    assert(d * t * w == d * (1 * t * w)) by (nonlinear_arith);
}

/// `10^(k + j)` is `10^k` times `10^j`.
proof fn lemma_shift(k: int, j: nat)
    ensures
        decimal_num(1, k + j) * decimal_den(k) == decimal_num(1, k) * ten_pow(j) * decimal_den(
            k + j,
        ),
{
    let w = two_pow(1074);
    lemma_ten_pow(0);
    let t = ten_pow(j);
    if k >= 0 {
        lemma_ten_pow_add(k as nat, j);
        assert((k + j) as nat == k as nat + j);
        let a = ten_pow(k as nat);
        assert(ten_pow((k + j) as nat) == a * t);
        if k == 0 {
            assert(ten_pow(if k > 0 { k as nat } else { 0 }) == a);
        }
        if k + j == 0 {
            assert(a * t == 1);
        }
        assert(1 * (a * t) * w * 1 == 1 * a * w * t * 1) by (nonlinear_arith);
    } else if k + j >= 0 {
        let a = ten_pow((-k) as nat);
        let c = ten_pow((k + j) as nat);
        lemma_ten_pow_add((-k) as nat, (k + j) as nat);
        assert((-k) as nat + (k + j) as nat == j);
        assert(t == a * c);
        if k + j == 0 {
            assert(c == 1);
        }
        assert(1 * c * w * a == 1 * 1 * w * (a * c) * 1) by (nonlinear_arith);
    } else {
        let a = ten_pow((-k) as nat);
        let c = ten_pow((-k - j) as nat);
        lemma_ten_pow_add((-k - j) as nat, j);
        assert((-k - j) as nat + j == (-k) as nat);
        assert(a == c * t);
        assert(1 * 1 * w * (c * t) == 1 * 1 * w * t * c) by (nonlinear_arith);
    }
}

/// Only the quotient matters.
proof fn lemma_same_nearest(b: nat, n: nat, m: nat, n2: nat, m2: nat)
    requires
        m > 0,
        m2 > 0,
        n * m2 == n2 * m,
        is_nearest(b, n, m),
    ensures
        is_nearest(b, n2, m2),
{
    if b > 0 {
        let s = scaled((b - 1) as nat) + scaled(b);
        if 2 * n > s * m {
            assert(2 * n2 > s * m2) by (nonlinear_arith)
                requires
                    n * m2 == n2 * m,
                    2 * n > s * m,
                    m > 0,
                    m2 > 0,
            ;
        } else {
            assert(2 * n2 == s * m2) by (nonlinear_arith)
                requires
                    n * m2 == n2 * m,
                    2 * n == s * m,
                    m > 0,
            ;
        }
    }
    if b < INFINITE {
        let s = scaled(b) + scaled(b + 1);
        if 2 * n < s * m {
            assert(2 * n2 < s * m2) by (nonlinear_arith)
                requires
                    n * m2 == n2 * m,
                    2 * n < s * m,
                    m > 0,
                    m2 > 0,
            ;
        } else {
            assert(2 * n2 == s * m2) by (nonlinear_arith)
                requires
                    n * m2 == n2 * m,
                    2 * n == s * m,
                    m > 0,
            ;
        }
    }
}

/// A decimal that is nearest to a pattern reads as it.
proof fn lemma_reads(b: nat, d: nat, k: int)
    requires
        is_nearest(b, decimal_num(d, k), decimal_den(k)),
    ensures
        decimal_bits(d, k) == b,
{
    lemma_times_one(d, k);
    let c = decimal_bits(d, k);
    assert(is_nearest(c, decimal_num(d, k), decimal_den(k)));
    nearest_is_unique(b, c, decimal_num(d, k), decimal_den(k));
}

/// Zeros at the end of the digits, or in the exponent, are the same number.
proof fn lemma_trailing(b: nat, d: nat, j: nat, k: int)
    requires
        is_nearest(b, decimal_num(d, k + j), decimal_den(k + j)) || is_nearest(
            b,
            decimal_num(d * ten_pow(j), k),
            decimal_den(k),
        ),
    ensures
        is_nearest(b, decimal_num(d, k + j), decimal_den(k + j)),
        is_nearest(b, decimal_num(d * ten_pow(j), k), decimal_den(k)),
{
    let t = ten_pow(j);
    lemma_times_one(d, k + j);
    lemma_times_one(d * t, k);
    lemma_shift(k, j);
    let x = decimal_num(1, k + j);
    let y = decimal_num(1, k);
    let m = decimal_den(k + j);
    let m2 = decimal_den(k);
    assert((d * x) * m2 == (d * t * y) * m) by (nonlinear_arith)
        requires
            x * m2 == y * t * m,
    ;
    if is_nearest(b, d * x, m) {
        lemma_same_nearest(b, d * x, m, d * t * y, m2);
    } else {
        lemma_same_nearest(b, d * t * y, m2, d * x, m);
    }
}

// --------------------------------------------------------------------------
//  Seventeen digits
// --------------------------------------------------------------------------
proof fn lemma_seventeen(b: nat)
    requires
        0 < b < INFINITE,
    ensures
        is_nearest(b, decimal_num(rounded(b, 17), decade(b) - 17), decimal_den(decade(b) - 17)),
{
    let p = decade(b);
    let e = p - 17;
    let s = scaled(b);
    let d = rounded(b, 17);
    lemma_has_decade(b);
    lemma_gaps(b);
    lemma_times_one(d, e);
    lemma_den_num(p - 1);
    lemma_ten_pow(16);
    lemma_shift(e, 16);
    let t = ten_pow(16);
    let den1 = decimal_den(p - 1);
    let bb = decimal_num(1, p - 1);
    let x = decimal_num(1, e);
    let m = decimal_den(e);
    let n = d * x;
    let num = lead_num(b, 17);
    let f = lead(b, 17);
    let r = num % bb;
    assert(num == s * den1 * t);
    lemma_fundamental_div_mod(num as int, bb as int);
    assert(bb * f == f * bb) by (nonlinear_arith);
    assert(bb * m == x * t * den1);
    assert(s * den1 >= bb);
    // Rounding leaves half a unit at most.
    assert(2 * (d * bb) <= 2 * num + bb && 2 * num <= 2 * (d * bb) + bb) by {
        assert((f + 1) * bb == f * bb + bb) by (nonlinear_arith);
    }
    // Over to a common denominator.
    let a = den1 * t;
    assert(a > 0) by (nonlinear_arith)
        requires
            den1 > 0,
            t > 0,
            a == den1 * t,
    ;
    assert(num == s * a) by (nonlinear_arith)
        requires
            num == s * den1 * t,
            a == den1 * t,
    ;
    assert(bb * m == x * a) by (nonlinear_arith)
        requires
            bb * m == x * t * den1,
            a == den1 * t,
    ;
    assert(2 * n <= 2 * (s * m) + x && 2 * (s * m) <= 2 * n + x) by {
        lemma_divide(d, bb, s, a, x, m);
    }
    assert(s * m >= x * t) by {
        lemma_lower(s, den1, bb, t, a, x, m);
    }
    // The neighbours are further away than one unit.
    let up = scaled(b + 1);
    let down = scaled((b - 1) as nat);
    lemma_scaled_step(b);
    lemma_scaled_step((b - 1) as nat);
    assert((up - s) * m > x) by (nonlinear_arith)
        requires
            (up - s) * t > s,
            s * m >= x * t,
            m > 0,
            t > 0,
            up > s,
    ;
    assert((s - down) * m > x) by (nonlinear_arith)
        requires
            (s - down) * t > s,
            s * m >= x * t,
            m > 0,
            t > 0,
            s > down,
    ;
    assert((s + up) * m == 2 * (s * m) + (up - s) * m) by (nonlinear_arith);
    assert((down + s) * m == 2 * (s * m) - (s - down) * m) by (nonlinear_arith);
}

proof fn lemma_divide(d: nat, bb: nat, s: nat, a: nat, x: nat, m: nat)
    requires
        a > 0,
        m > 0,
        bb * m == x * a,
        2 * (d * bb) <= 2 * (s * a) + bb,
        2 * (s * a) <= 2 * (d * bb) + bb,
    ensures
        2 * (d * x) <= 2 * (s * m) + x,
        2 * (s * m) <= 2 * (d * x) + x,
{
    assert((2 * (d * bb)) * m <= (2 * (s * a) + bb) * m) by (nonlinear_arith)
        requires
            2 * (d * bb) <= 2 * (s * a) + bb,
    ;
    assert((2 * (s * a)) * m <= (2 * (d * bb) + bb) * m) by (nonlinear_arith)
        requires
            2 * (s * a) <= 2 * (d * bb) + bb,
    ;
    assert((2 * (d * bb)) * m == (2 * (d * x)) * a) by (nonlinear_arith)
        requires
            bb * m == x * a,
    ;
    assert((2 * (s * a) + bb) * m == (2 * (s * m) + x) * a) by (nonlinear_arith)
        requires
            bb * m == x * a,
    ;
    assert((2 * (s * a)) * m == (2 * (s * m)) * a) by (nonlinear_arith);
    assert((2 * (d * bb) + bb) * m == (2 * (d * x) + x) * a) by (nonlinear_arith)
        requires
            bb * m == x * a,
    ;
    lemma_cancel(2 * (d * x), 2 * (s * m) + x, a);
    lemma_cancel(2 * (s * m), 2 * (d * x) + x, a);
}

proof fn lemma_cancel(u: nat, v: nat, a: nat)
    requires
        u * a <= v * a,
        a > 0,
    ensures
        u <= v,
{
    assert(u <= v) by (nonlinear_arith)
        requires
            u * a <= v * a,
            a > 0,
    ;
}

proof fn lemma_lower(s: nat, den1: nat, bb: nat, t: nat, a: nat, x: nat, m: nat)
    requires
        s * den1 >= bb,
        a == den1 * t,
        a > 0,
        bb * m == x * a,
    ensures
        s * m >= x * t,
{
    assert((s * den1) * (t * m) >= bb * (t * m)) by (nonlinear_arith)
        requires
            s * den1 >= bb,
    ;
    assert((s * den1) * (t * m) == (s * m) * a) by (nonlinear_arith)
        requires
            a == den1 * t,
    ;
    assert(bb * (t * m) == (x * t) * a) by (nonlinear_arith)
        requires
            bb * m == x * a,
    ;
    lemma_cancel(x * t, s * m, a);
}

// --------------------------------------------------------------------------
//  Digits
// --------------------------------------------------------------------------
/// Nothing but digits.
pub open spec fn all_digits(s: Seq<char>) -> bool {
    forall|i: int| 0 <= i < s.len() ==> is_digit(#[trigger] s[i])
}

/// Digits end where the first other character is.
pub proof fn lemma_run_ends(s: Seq<char>, i: int, j: int)
    requires
        0 <= i <= j <= s.len(),
        forall|k: int| i <= k < j ==> is_digit(#[trigger] s[k]),
        j < s.len() ==> !is_digit(s[j]),
    ensures
        digit_run(s, i) == j,
    decreases j - i,
{
    if i < j {
        lemma_run_ends(s, i + 1, j);
    }
}

/// The value of digits in two parts.
proof fn lemma_value_of_parts(a: Seq<char>, b: Seq<char>)
    ensures
        digits_value(a + b) == digits_value(a) * ten_pow(b.len()) + digits_value(b),
    decreases b.len(),
{
    if b.len() == 0 {
        lemma_ten_pow(0);
        assert(a + b =~= a);
        assert(digits_value(b) == 0);
        assert(digits_value(a) * 1 == digits_value(a));
    } else {
        let c = b.drop_last();
        lemma_value_of_parts(a, c);
        lemma_ten_pow(c.len());
        assert((a + b).drop_last() =~= a + c);
        assert((a + b).last() == b.last());
        let x = digits_value(a);
        let t = ten_pow(c.len());
        assert(10 * (x * t) == x * (10 * t)) by (nonlinear_arith);
    }
}

proof fn lemma_zeros(n: nat)
    ensures
        digits_value(zeros(n)) == 0,
        all_digits(zeros(n)),
    decreases n,
{
    let z = zeros(n);
    if n > 0 {
        assert(z.drop_last() =~= zeros((n - 1) as nat));
        lemma_zeros((n - 1) as nat);
    }
}

/// The decimal of a number stands for it.
pub proof fn lemma_decimal(n: nat)
    ensures
        digits_value(decimal(n)) == n,
        all_digits(decimal(n)),
        decimal(n).len() > 0,
        n > 0 ==> decimal(n)[0] != '0',
    decreases n,
{
    let d = decimal(n);
    reveal_with_fuel(digits_value, 2);
    assert(digit_value(digit_char(n % 10)) == n % 10);
    assert(is_digit(digit_char(n % 10)));
    if n >= 10 {
        lemma_decimal(n / 10);
        assert(d.drop_last() =~= decimal(n / 10));
        assert forall|i: int| 0 <= i < d.len() implies is_digit(#[trigger] d[i]) by {
            if i < d.len() - 1 {
                assert(d[i] == decimal(n / 10)[i]);
            }
        }
        assert(d[0] == decimal(n / 10)[0]);
    } else {
        assert(d.drop_last() =~= Seq::empty());
    }
}

proof fn lemma_decimal_len(n: nat, k: nat)
    requires
        k > 0,
        ten_pow((k - 1) as nat) <= n < ten_pow(k),
    ensures
        decimal(n).len() == k,
    decreases n,
{
    lemma_ten_pow((k - 1) as nat);
    lemma_ten_pow(0);
    if k == 1 {
    } else {
        lemma_ten_pow((k - 2) as nat);
        assert(n >= 10);
        lemma_decimal_len(n / 10, (k - 1) as nat);
    }
}

/// Digits without the zeros at their end, and those zeros.
proof fn lemma_trimmed(s: Seq<char>)
    ensures
        trimmed(s).len() <= s.len(),
        s == trimmed(s) + zeros((s.len() - trimmed(s).len()) as nat),
        all_digits(s) ==> all_digits(trimmed(s)),
    decreases s.len(),
{
    if s.len() > 0 && s.last() == '0' {
        let r = s.drop_last();
        lemma_trimmed(r);
        let t = trimmed(s);
        assert(s =~= t + zeros((s.len() - t.len()) as nat)) by {
            assert forall|i: int| 0 <= i < s.len() implies s[i] == (t + zeros(
                (s.len() - t.len()) as nat,
            ))[i] by {
                if i < r.len() {
                    assert(r[i] == s[i]);
                    assert(r[i] == (t + zeros((r.len() - t.len()) as nat))[i]);
                }
            }
        }
        assert(all_digits(s) ==> all_digits(r)) by {
            if all_digits(s) {
                assert forall|i: int| 0 <= i < r.len() implies is_digit(#[trigger] r[i]) by {
                    assert(r[i] == s[i]);
                }
            }
        }
    } else {
        assert(s =~= s + zeros(0));
    }
}

proof fn lemma_digits_join(a: Seq<char>, b: Seq<char>)
    requires
        all_digits(a),
        all_digits(b),
    ensures
        all_digits(a + b),
{
    assert forall|i: int| 0 <= i < (a + b).len() implies is_digit(#[trigger] (a + b)[i]) by {
        if i < a.len() {
            assert((a + b)[i] == a[i]);
        } else {
            assert((a + b)[i] == b[i - a.len()]);
        }
    }
}

// --------------------------------------------------------------------------
//  Numerals
// --------------------------------------------------------------------------
/// A whole part, a fraction where there is one, and an exponent where there is one.
pub open spec fn numeral(whole: Seq<char>, frac: Seq<char>, x: Option<int>) -> Seq<char> {
    whole + (if frac.len() > 0 {
        seq!['.'] + frac
    } else {
        Seq::empty()
    }) + (match x {
        Some(e) => seq!['e'] + exponent_text(e),
        None => Seq::empty(),
    })
}

proof fn lemma_exponent(x: int)
    ensures
        ({
            let t = exponent_text(x);
            &&& t.len() > 1
            &&& t[0] == '-' <==> x < 0
            &&& t[0] == '+' <==> x >= 0
            &&& all_digits(t.skip(1))
            &&& digits_value(t.skip(1)) == (if x < 0 { -x } else { x })
        }),
{
    let m = if x < 0 { (-x) as nat } else { x as nat };
    let t = exponent_text(x);
    lemma_decimal(m);
    lemma_zeros(1);
    if m < 10 {
        assert(t.skip(1) =~= zeros(1) + decimal(m));
        lemma_value_of_parts(zeros(1), decimal(m));
        lemma_digits_join(zeros(1), decimal(m));
        assert(0 * ten_pow(decimal(m).len()) == 0);
    } else {
        assert(t.skip(1) =~= decimal(m));
    }
}

/// What a numeral says.
proof fn lemma_numeral(whole: Seq<char>, frac: Seq<char>, x: Option<int>)
    requires
        whole.len() > 0,
        all_digits(whole),
        all_digits(frac),
    ensures
        unsigned_literal(numeral(whole, frac, x)) == Some(
            Literal::Finite {
                digits: digits_value(whole + frac),
                exponent: (match x {
                    Some(e) => e,
                    None => 0,
                }) - frac.len(),
            },
        ),
{
    let t = numeral(whole, frac, x);
    let a = whole.len() as int;
    let b = if frac.len() > 0 { a + 1 + frac.len() } else { a };
    assert(is_digit(whole[0]));
    assert(t[0] == whole[0]);
    assert(lower(t[0]) == t[0]);
    reveal_strlit("inf");
    reveal_strlit("infinity");
    reveal_strlit("nan");
    assert(!spells(t, "inf"@) && !spells(t, "infinity"@) && !spells(t, "nan"@)) by {
        assert("inf"@[0] == 'i' && "infinity"@[0] == 'i' && "nan"@[0] == 'n');
    }
    assert forall|k: int| 0 <= k < a implies is_digit(#[trigger] t[k]) by {
        assert(t[k] == whole[k]);
    }
    match x {
        Some(e) => {
            lemma_exponent(e);
            assert(t[b] == 'e');
        },
        None => {
            assert(t.len() == b);
        },
    }
    lemma_run_ends(t, 0, a);
    if frac.len() > 0 {
        assert(t[a] == '.');
        assert forall|k: int| a + 1 <= k < b implies is_digit(#[trigger] t[k]) by {
            assert(t[k] == frac[k - a - 1]);
        }
        lemma_run_ends(t, a + 1, b);
        assert(t.take(a) + t.subrange(a + 1, b) =~= whole + frac);
    } else {
        assert(t.take(a) =~= whole);
        assert(whole + frac =~= whole);
    }
    assert(mantissa_end(t) == b);
    assert(mantissa(t) == whole + frac);
    assert(fraction_len(t) == frac.len());
    match x {
        Some(e) => {
            let et = exponent_text(e);
            let c = b + 2;
            assert(t[b + 1] == et[0]);
            assert(t.skip(c) =~= et.skip(1));
            assert forall|k: int| c <= k < t.len() implies is_digit(#[trigger] t[k]) by {
                assert(t[k] == et.skip(1)[k - c]);
            }
            lemma_run_ends(t, c, t.len() as int);
            assert(written_exponent(t, b) == Some(e));
        },
        None => {},
    }
}

/// Digits times a power of ten, written out, are the number that they were.
proof fn lemma_written_out(b: nat, s: Seq<char>, e: int)
    requires
        s.len() > 0,
        all_digits(s),
        is_nearest(b, decimal_num(digits_value(s), e), decimal_den(e)),
    ensures
        unsigned_literal(written_out(s, e)) is Some,
        unsigned_bits(unsigned_literal(written_out(s, e))->Some_0) == b,
        is_digit(written_out(s, e)[0]),
        written_out(s, e).len() > 0,
{
    let d = digits_value(s);
    let t = written_out(s, e);
    lemma_zeros(1);
    if e >= 0 {
        let z = zeros(e as nat);
        lemma_zeros(e as nat);
        lemma_digits_join(s, z);
        lemma_value_of_parts(s, z);
        let whole = s + z;
        assert(t =~= numeral(whole, Seq::empty(), None));
        assert(whole + Seq::<char>::empty() =~= whole);
        lemma_numeral(whole, Seq::empty(), None);
        lemma_trailing(b, d, e as nat, 0);
        lemma_reads(b, d * ten_pow(e as nat), 0);
        assert(t[0] == s[0]);
    } else {
        let long = s.len() > -e;
        let whole = if long {
            s.take(s.len() + e)
        } else {
            seq!['0']
        };
        let fr = if long {
            s.skip(s.len() + e)
        } else {
            zeros((-e - s.len()) as nat) + s
        };
        assert(whole =~= (if long {
            s.take(s.len() + e)
        } else {
            zeros(1)
        }));
        assert(all_digits(whole)) by {
            if long {
                assert forall|i: int| 0 <= i < whole.len() implies is_digit(
                    #[trigger] whole[i],
                ) by {
                    assert(whole[i] == s[i]);
                }
            }
        }
        assert(all_digits(fr) && digits_value(whole + fr) == d) by {
            if long {
                assert(whole + fr =~= s);
                assert forall|i: int| 0 <= i < fr.len() implies is_digit(#[trigger] fr[i]) by {
                    assert(fr[i] == s[s.len() + e + i]);
                }
            } else {
                let k = (-e - s.len()) as nat;
                lemma_zeros(k);
                lemma_zeros(k + 1);
                lemma_digits_join(zeros(k), s);
                assert(whole + fr =~= zeros(k + 1) + s);
                lemma_value_of_parts(zeros(k + 1), s);
                assert(0 * ten_pow(s.len()) == 0);
            }
        }
        let frac = trimmed(fr);
        lemma_trimmed(fr);
        let j = (fr.len() - frac.len()) as nat;
        lemma_zeros(j);
        assert(whole + fr =~= (whole + frac) + zeros(j));
        lemma_value_of_parts(whole + frac, zeros(j));
        assert(t =~= numeral(whole, frac, None));
        lemma_numeral(whole, frac, None);
        let dd = digits_value(whole + frac);
        lemma_trailing(b, dd, j, e);
        lemma_reads(b, dd, e + j);
        assert(t[0] == whole[0]);
        assert(is_digit(whole[0]));
    }
}

/// So are they in scientific notation.
proof fn lemma_scientific(b: nat, s: Seq<char>, x: int)
    requires
        s.len() > 0,
        s[0] != '0',
        all_digits(s),
        is_nearest(
            b,
            decimal_num(digits_value(s), x + 1 - s.len()),
            decimal_den(x + 1 - s.len()),
        ),
    ensures
        unsigned_literal(scientific(s, x)) is Some,
        unsigned_bits(unsigned_literal(scientific(s, x))->Some_0) == b,
        scientific(s, x).len() > 0,
        is_digit(scientific(s, x)[0]),
{
    let t = trimmed(s);
    lemma_trimmed_first(s);
    lemma_trimmed(s);
    let j = (s.len() - t.len()) as nat;
    lemma_zeros(j);
    lemma_value_of_parts(t, zeros(j));
    let whole = t.take(1);
    let frac = t.skip(1);
    assert(whole + frac =~= t);
    assert(all_digits(whole)) by {
        assert(is_digit(t[0]));
    }
    assert forall|i: int| 0 <= i < frac.len() implies is_digit(#[trigger] frac[i]) by {
        assert(frac[i] == t[i + 1]);
    }
    assert(scientific(s, x) =~= numeral(whole, frac, Some(x))) by {
        if t.len() <= 1 {
            assert(t =~= whole);
        }
    }
    lemma_numeral(whole, frac, Some(x));
    let d = digits_value(t);
    lemma_trailing(b, d, j, x + 1 - s.len());
    lemma_reads(b, d, x + 1 - s.len() + j);
    assert(scientific(s, x)[0] == t[0]);
    assert(is_digit(t[0]));
}

proof fn lemma_signed(v: Scalar, t: Seq<char>)
    requires
        magnitude(v) <= INFINITE,
        t.len() > 0,
        t[0] != '-' && t[0] != '+',
        unsigned_literal(t) is Some,
        unsigned_bits(unsigned_literal(t)->Some_0) == magnitude(v),
    ensures
        parsed(sign_text(v) + t) == Some(v),
{
    let u = sign_text(v) + t;
    if v.bits >= SIGN {
        assert(u.skip(1) =~= t);
        assert(u[0] == '-');
    } else {
        assert(u =~= t);
    }
}

proof fn lemma_zero_and_infinity(v: Scalar)
    requires
        magnitude(v) == 0 || magnitude(v) == INFINITE,
    ensures
        magnitude(v) == 0 ==> parsed(sign_text(v) + "0"@) == Some(v),
        magnitude(v) == INFINITE ==> parsed(sign_text(v) + "inf"@) == Some(v),
{
    reveal_strlit("0");
    reveal_strlit("inf");
    if magnitude(v) == 0 {
        let w = seq!['0'];
        assert("0"@ =~= w);
        assert(numeral(w, Seq::empty(), None) =~= w);
        assert(w + Seq::<char>::empty() =~= w);
        lemma_numeral(w, Seq::empty(), None);
        lemma_zeros(1);
        assert(zeros(1) =~= w);
        crate::numeral::lemma_zero_nearest(0);
        lemma_reads(0, 0, 0);
        lemma_signed(v, "0"@);
    } else {
        assert(spells("inf"@, "inf"@));
        lemma_signed(v, "inf"@);
    }
}

/// The digits that are rounded to are as many as were asked for.
proof fn lemma_rounded(b: nat)
    requires
        0 < b < INFINITE,
    ensures
        ({
            let s = rounded_digits(b, 17);
            &&& s.len() == 17
            &&& all_digits(s)
            &&& s[0] != '0'
            &&& is_nearest(
                b,
                decimal_num(digits_value(s), rounded_decade(b, 17) - 17),
                decimal_den(rounded_decade(b, 17) - 17),
            )
        }),
{
    let p = decade(b);
    let n: nat = 17;
    let f = lead(b, n);
    let t = ten_pow(16);
    lemma_has_decade(b);
    lemma_seventeen(b);
    lemma_lead_positive(b, n);
    lemma_ten_pow(16);
    lemma_den_num(p - 1);
    let den1 = decimal_den(p - 1);
    let bb = decimal_num(1, p - 1);
    let s = scaled(b);
    assert(s * den1 < 10 * bb) by {
        if p - 1 >= 0 {
        } else {
            let dp = decimal_den(p);
            assert(s * (10 * dp) == 10 * (s * dp)) by (nonlinear_arith);
        }
    }
    assert(f < ten_pow(17)) by {
        let num = lead_num(b, n);
        assert((s * den1) * t < (10 * bb) * t) by (nonlinear_arith)
            requires
                s * den1 < 10 * bb,
                t > 0,
        ;
        lemma_fundamental_div_mod(num as int, bb as int);
        let r = num % bb;
        assert(bb * f + r < (10 * bb) * t);
        assert(f < 10 * t) by (nonlinear_arith)
            requires
                bb * f + r < (10 * bb) * t,
                bb > 0,
                r >= 0,
        ;
    }
    let d = rounded(b, n);
    if d == ten_pow(n) {
        let w = seq!['1'] + zeros(16);
        lemma_one_zeros(16);
        lemma_zeros(16);
        assert forall|i: int| 0 <= i < w.len() implies is_digit(#[trigger] w[i]) by {
            if i > 0 {
                assert(w[i] == zeros(16)[i - 1]);
            }
        }
        lemma_ten_pow(0);
        assert(t * ten_pow(1) == d) by (nonlinear_arith)
            requires
                ten_pow(1) == 10,
                d == 10 * t,
        ;
        lemma_trailing(b, t, 1, p - 17);
    } else {
        lemma_decimal(d);
        lemma_decimal_len(d, 17);
    }
}

/// A number that is written with seventeen digits reads back as it.
pub proof fn seventeen_digits_read_back(v: Scalar)
    requires
        !v.is_nan(),
    ensures
        parsed(general(v, 17)) == Some(v),
{
    let b = magnitude(v);
    if b == 0 || b == INFINITE {
        lemma_zero_and_infinity(v);
    } else {
        let s = rounded_digits(b, 17);
        let p = rounded_decade(b, 17);
        lemma_rounded(b);
        if p - 1 < -4 || p - 1 >= 17 {
            lemma_scientific(b, s, p - 1);
            lemma_signed(v, scientific(s, p - 1));
        } else {
            lemma_written_out(b, s, p - 17);
            lemma_signed(v, written_out(s, p - 17));
        }
    }
}

/// The shortest notation of a number reads back as it.
pub proof fn shown_numbers_read_back(v: Scalar)
    requires
        !v.is_nan(),
    ensures
        parsed(shown(v)) == Some(v),
{
    let b = magnitude(v);
    if b == 0 || b == INFINITE {
        lemma_zero_and_infinity(v);
    } else {
        lemma_seventeen(b);
        lemma_reads(b, rounded(b, 17), decade(b) - 17);
        lemma_shortest(b, 1);
        let d = shortest_digits(b);
        let e = shortest_exponent(b);
        lemma_decimal(d);
        assert(decimal_bits(d, e) == b);
        lemma_times_one(d, e);
        lemma_nearest_of(b, d, e);
        lemma_written_out(b, decimal(d), e);
        lemma_signed(v, written_out(decimal(d), e));
    }
}

/// There is a nearest pattern to every fraction.
proof fn lemma_nearest_from(b: nat, n: nat, m: nat)
    requires
        b <= INFINITE,
        b > 0 ==> {
            let mid = (scaled((b - 1) as nat) + scaled(b)) * m;
            2 * n > mid || (2 * n == mid && b % 2 == 0)
        },
    ensures
        exists|c: nat| is_nearest(c, n, m),
    decreases INFINITE - b,
{
    if b < INFINITE {
        let mid = (scaled(b) + scaled(b + 1)) * m;
        if 2 * n < mid || (2 * n == mid && b % 2 == 0) {
            assert(is_nearest(b, n, m));
        } else {
            lemma_nearest_from(b + 1, n, m);
        }
    } else {
        assert(is_nearest(b, n, m));
    }
}

proof fn lemma_nearest_of(b: nat, d: nat, k: int)
    requires
        decimal_bits(d, k) == b,
    ensures
        is_nearest(b, decimal_num(d, k), decimal_den(k)),
{
    lemma_nearest_from(0, decimal_num(d, k), decimal_den(k));
}

proof fn lemma_shortest(b: nat, n: nat)
    requires
        1 <= n <= 17,
        reads_back(b, 17),
    ensures
        ({
            let k = shortest_len(b, n);
            decimal_bits(pick(b, k), decade(b) - k) == b
        }),
    decreases 17 - n,
{
    if n < 17 && !reads_back(b, n) {
        lemma_shortest(b, n + 1);
    }
}

// --------------------------------------------------------------------------
//  Counts
// --------------------------------------------------------------------------
/// How many binary digits a number has, less one.
proof fn lemma_width(n: nat) -> (k: nat)
    requires
        n > 0,
    ensures
        two_pow(k) <= n < two_pow(k + 1),
    decreases n,
{
    lemma_two_pow(0);
    if n == 1 {
        0
    } else {
        let k = lemma_width(n / 2);
        lemma_two_pow(k);
        lemma_two_pow(k + 1);
        k + 1
    }
}

/// A whole number below `2^53` has a pattern of its own.
proof fn lemma_whole_pattern(n: nat) -> (b: nat)
    requires
        n <= i32::MAX,
    ensures
        b < INFINITE,
        scaled(b) == n * two_pow(1074),
{
    if n == 0 {
        lemma_scaled_step(0);
        assert(0 * two_pow(1074) == 0);
        0
    } else {
        let k = lemma_width(n);
        lemma_two_pow_words();
        if k > 52 {
            lemma_two_pow_mono(52, k);
        }
        let j = (52 - k) as nat;
        let h = two_pow(j);
        lemma_two_pow(j);
        lemma_two_pow_add(k, j);
        lemma_two_pow_add(k + 1, j);
        lemma_two_pow(52);
        assert(k + 1 + j == 53 && k + j == 52);
        let m = n * h;
        assert(two_pow(k) * h <= m < two_pow(k + 1) * h) by (nonlinear_arith)
            requires
                two_pow(k) <= n < two_pow(k + 1),
                m == n * h,
                h > 0,
        ;
        let f = (m - STEP) as nat;
        let e = 1023 + k;
        let b = e * (STEP as nat) + f;
        lemma_quotient(b, e, f);
        lemma_two_pow_add(j, (1022 + k) as nat);
        assert(j + (1022 + k) == 1074);
        let w = two_pow((1022 + k) as nat);
        assert(m * w == n * (h * w)) by (nonlinear_arith)
            requires
                m == n * h,
        ;
        b
    }
}

/// The decimal of a count reads back as that count.
pub proof fn counts_read_back(n: nat)
    requires
        n <= i32::MAX,
    ensures
        parsed(decimal(n)) matches Some(v) && v.label() == Some(n as int),
{
    let b = lemma_whole_pattern(n);
    let t = decimal(n);
    lemma_decimal(n);
    assert(numeral(t, Seq::empty(), None) =~= t);
    assert(t + Seq::<char>::empty() =~= t);
    lemma_numeral(t, Seq::empty(), None);
    lemma_ten_pow(0);
    let w = two_pow(1074);
    lemma_two_pow(1074);
    assert(n * 1 == n);
    assert(decimal_num(n, 0) == n * w);
    if b > 0 {
        lemma_scaled_step((b - 1) as nat);
    }
    lemma_scaled_step(b);
    assert(is_nearest(b, decimal_num(n, 0), decimal_den(0)));
    lemma_reads(b, n, 0);
    assert(is_digit(t[0]));
    vstd::arithmetic::div_mod::lemma_div_multiples_vanish(n as int, w as int);
    vstd::arithmetic::div_mod::lemma_mod_multiples_basic(n as int, w as int);
    assert(n * w == w * n) by (nonlinear_arith);
    assert(crate::scalar::whole(b) == Some(n));
}

} // verus!
