//! Narrower number formats: a number rounded to single and to half precision.
//!
//! Ties go to the even neighbour. The bit patterns of a format are in the order of
//! the numbers, so that a carry out of the fraction steps to the next exponent.

use vstd::prelude::*;

use crate::big::{lemma_two_pow_add, lemma_two_pow_mono, lemma_two_pow_words, two_pow};
use crate::scalar::{power_of_two, Scalar, INFINITE, SIGN, STEP};

verus! {

/// The integer nearest to `n / d`, and the even one of two that are as near.
pub open spec fn nearest_even(n: nat, d: nat) -> nat {
    let q = n / d;
    let r = n % d;
    if 2 * r > d || (2 * r == d && q % 2 == 1) {
        q + 1
    } else {
        q
    }
}

/// No integer is nearer to `n / d` than the one it is rounded to.
pub proof fn rounding_is_nearest(n: nat, d: nat, m: nat)
    requires
        d > 0,
    ensures
        ({
            let q = nearest_even(n, d) as int;
            let off = if n >= q * d { n - q * d } else { q * d - n };
            let other = if n >= m * d { n - m * d } else { m * d - n };
            off <= other
        }),
{
    let q = n / d;
    let r = n % d;
    vstd::arithmetic::div_mod::lemma_fundamental_div_mod(n as int, d as int);
    assert(n == q * d + r) by {
        vstd::arithmetic::mul::lemma_mul_is_commutative(q as int, d as int);
    }
    assert((q + 1) * d == q * d + d) by (nonlinear_arith);
    if m <= q {
        assert(m * d <= q * d) by (nonlinear_arith)
            requires
                m <= q,
        ;
        if m < q {
            assert(m * d + d <= q * d) by (nonlinear_arith)
                requires
                    m + 1 <= q,
            ;
        }
    } else {
        assert((q + 1) * d <= m * d) by (nonlinear_arith)
            requires
                q + 1 <= m,
        ;
    }
}

fn round_to_even(n: u64, d: u64) -> (r: u64)
    requires
        0 < d <= 0x4000_0000_0000_0000,
        n < 0x4000_0000_0000_0000,
    ensures
        r as nat == nearest_even(n as nat, d as nat),
{
    let q: u64 = n / d;
    let m: u64 = n % d;
    proof {
        assert(n / d <= n) by (nonlinear_arith)
            requires
                d > 0,
        ;
        assert(n % d < d) by (nonlinear_arith)
            requires
                d > 0,
        ;
    }
    if 2 * m > d || (2 * m == d && q % 2 == 1) {
        q + 1
    } else {
        q
    }
}

// --------------------------------------------------------------------------
//  Single precision
// --------------------------------------------------------------------------
/// The pattern of infinity in single precision.
pub const SINGLE_INFINITE: u32 = 0x7f80_0000;

/// The pattern of a quiet NaN in single precision.
pub const SINGLE_NAN: u32 = 0x7fc0_0000;

/// The magnitude's pattern in single precision. From exponent 897 on the result
/// is normal; below it counts steps of `2^-149`.
pub open spec fn single_magnitude(b: nat) -> nat {
    let e = b / STEP as nat;
    let m = b % STEP as nat;
    if b > INFINITE {
        SINGLE_NAN as nat + (m / 0x2000_0000) % 0x40_0000
    } else if e > 1150 {
        SINGLE_INFINITE as nat
    } else if e >= 897 {
        ((e - 896) as nat) * 0x80_0000 + nearest_even(m, 0x2000_0000)
    } else if e < 873 {
        0
    } else {
        nearest_even(STEP as nat + m, two_pow((926 - e) as nat))
    }
}

/// A number's pattern in single precision.
pub open spec fn single(v: Scalar) -> u32 {
    if v.bits >= SIGN {
        (0x8000_0000nat + single_magnitude((v.bits - SIGN) as nat)) as u32
    } else {
        single_magnitude(v.bits as nat) as u32
    }
}

fn narrow_magnitude(b: u64) -> (r: u32)
    requires
        b < SIGN,
    ensures
        r as nat == single_magnitude(b as nat),
        r < 0x8000_0000,
{
    let e: u64 = b / STEP;
    let m: u64 = b % STEP;
    if b > INFINITE {
        return SINGLE_NAN + ((m / 0x2000_0000) % 0x40_0000) as u32;
    }
    if e > 1150 {
        return SINGLE_INFINITE;
    }
    if e >= 897 {
        let q: u64 = round_to_even(m, 0x2000_0000);
        return ((e - 896) * 0x80_0000 + q) as u32;
    }
    if e < 873 {
        return 0;
    }
    let d: u64 = {
        proof {
            lemma_two_pow_words();
            lemma_two_pow_mono((926 - e) as nat, 62);
        }
        power_of_two(926 - e)
    };
    let q: u64 = round_to_even(STEP + m, d);
    proof {
        lemma_small_quotient((STEP + m) as nat, d as nat, (926 - e) as nat);
    }
    q as u32
}

/// A number below `2^53` over `2^30` or more rounds to a number of 24 bits.
proof fn lemma_small_quotient(n: nat, d: nat, k: nat)
    requires
        n < 2 * STEP,
        k >= 30,
        d == two_pow(k),
    ensures
        nearest_even(n, d) <= 0x80_0000,
{
    lemma_two_pow_mono(30, k);
    lemma_thirty();
    assert(n / d < 0x80_0000) by (nonlinear_arith)
        requires
            d >= 0x4000_0000,
            n < 0x20_0000_0000_0000,
    ;
}

proof fn lemma_thirty()
    ensures
        two_pow(30) == 0x4000_0000,
{
    lemma_two_pow_words();
    lemma_two_pow_add(30, 32);
    lemma_two_pow_add(32, 32);
    let a = two_pow(32);
    assert(a == 0x1_0000_0000) by (nonlinear_arith)
        requires
            a * a == 0x1_0000_0000_0000_0000,
            a >= 0,
    ;
    let t = two_pow(30);
    assert(t == 0x4000_0000) by (nonlinear_arith)
        requires
            t * a == 0x4000_0000_0000_0000,
            a == 0x1_0000_0000,
    ;
}

/// A number in single precision, as its bit pattern.
pub fn to_single(v: Scalar) -> (r: u32)
    ensures
        r == single(v),
{
    if v.bits >= SIGN {
        0x8000_0000 + narrow_magnitude(v.bits - SIGN)
    } else {
        narrow_magnitude(v.bits)
    }
}

// --------------------------------------------------------------------------
//  Half precision
// --------------------------------------------------------------------------
/// The pattern of infinity in half precision.
pub const HALF_INFINITE: u16 = 0x7c00;

/// The pattern of a quiet NaN in half precision.
pub const HALF_NAN: u16 = 0x7e00;

/// The magnitude's pattern in half precision. From exponent 113 on the result is
/// normal; below it counts steps of `2^-24`.
pub open spec fn half_magnitude(b: nat) -> nat {
    let e = b / 0x80_0000;
    let m = b % 0x80_0000;
    if b > SINGLE_INFINITE {
        HALF_NAN as nat
    } else if e > 142 {
        HALF_INFINITE as nat
    } else if e >= 113 {
        ((e - 112) as nat) * 0x400 + nearest_even(m, 0x2000)
    } else if e < 102 {
        0
    } else {
        nearest_even(0x80_0000 + m, two_pow((126 - e) as nat))
    }
}

/// The half-precision pattern of a single-precision one.
pub open spec fn half(b: u32) -> u16 {
    if b >= 0x8000_0000 {
        (0x8000nat + half_magnitude((b - 0x8000_0000) as nat)) as u16
    } else {
        half_magnitude(b as nat) as u16
    }
}

fn halve_magnitude(b: u32) -> (r: u16)
    requires
        b < 0x8000_0000,
    ensures
        r as nat == half_magnitude(b as nat),
        r < 0x8000,
{
    let e: u64 = (b / 0x80_0000) as u64;
    let m: u64 = (b % 0x80_0000) as u64;
    if b > SINGLE_INFINITE {
        return HALF_NAN;
    }
    if e > 142 {
        return HALF_INFINITE;
    }
    if e >= 113 {
        let q: u64 = round_to_even(m, 0x2000);
        return ((e - 112) * 0x400 + q) as u16;
    }
    if e < 102 {
        return 0;
    }
    proof {
        lemma_two_pow_words();
        lemma_two_pow_mono((126 - e) as nat, 62);
        lemma_fourteen();
        lemma_two_pow_mono(14, (126 - e) as nat);
    }
    let d: u64 = power_of_two(126 - e);
    let q: u64 = round_to_even(0x80_0000 + m, d);
    proof {
        let n = (0x80_0000 + m) as nat;
        assert(n / d as nat <= 0x400) by (nonlinear_arith)
            requires
                d >= 0x4000,
                n < 0x100_0000,
        ;
    }
    q as u16
}

proof fn lemma_fourteen()
    ensures
        two_pow(14) == 0x4000,
{
    reveal_with_fuel(crate::big::npow, 8);
    assert(two_pow(7) == 128);
    lemma_two_pow_add(7, 7);
    assert(128nat * 128 == 0x4000);
}

/// A single-precision number in half precision, both as bit patterns.
pub fn f32_to_f16_bits(b: u32) -> (r: u16)
    ensures
        r == half(b),
{
    if b >= 0x8000_0000 {
        0x8000 + halve_magnitude(b - 0x8000_0000)
    } else {
        halve_magnitude(b)
    }
}

/// The single-precision pattern of a half-precision magnitude that is zero,
/// normal or infinite.
pub open spec fn widened(h: nat) -> nat {
    if h == 0 {
        0
    } else if h == HALF_INFINITE {
        SINGLE_INFINITE as nat
    } else {
        h * 0x2000 + 112 * 0x80_0000
    }
}

/// A normal half-precision number, zero and infinity narrow back to themselves.
pub proof fn exact_halves_come_back(h: nat)
    requires
        h == 0 || 0x400 <= h <= HALF_INFINITE,
    ensures
        half_magnitude(widened(h)) == h,
{
    let b = widened(h);
    if 0x400 <= h < HALF_INFINITE {
        assert(b % 0x80_0000 == (h % 0x400) * 0x2000);
        assert(b / 0x80_0000 == h / 0x400 + 112);
        assert(((h % 0x400) * 0x2000) % 0x2000 == 0);
        assert(((h % 0x400) * 0x2000) / 0x2000 == h % 0x400);
    }
}

/// How far two patterns are apart.
pub open spec fn apart(a: int, b: int) -> int {
    if a >= b {
        a - b
    } else {
        b - a
    }
}

/// The double-precision pattern of a normal single-precision number.
pub open spec fn doubled(s: int) -> int {
    s * 0x2000_0000 + 896 * STEP
}

proof fn lemma_rounded(e: int, m: nat, step: nat, d: nat, k: nat)
    requires
        e >= 0,
        d > 0,
        step == k * d,
        k % 2 == 0,
        m < step,
    ensures
        nearest_even((e * step + m) as nat, d) == e * k + nearest_even(m, d),
{
    let n = (e * step + m) as nat;
    let q = m / d;
    let r = m % d;
    vstd::arithmetic::div_mod::lemma_fundamental_div_mod(m as int, d as int);
    assert(e * step == (e * k) * d) by (nonlinear_arith)
        requires
            step == k * d,
    ;
    assert(m == q * d + r) by {
        vstd::arithmetic::mul::lemma_mul_is_commutative(q as int, d as int);
    }
    let c = e * k + q;
    assert(n == c * d + r) by (nonlinear_arith)
        requires
            n == (e * k) * d + m,
            m == q * d + r,
            c == e * k + q,
    ;
    assert(0 <= e * k) by (nonlinear_arith)
        requires
            e >= 0,
            k >= 0,
    ;
    vstd::arithmetic::div_mod::lemma_fundamental_div_mod_converse(n as int, d as int, c, r as int);
    let h = (k / 2) as int;
    assert(e * k == 2 * (e * h)) by (nonlinear_arith)
        requires
            k == 2 * h,
    ;
    assert(c % 2 == q as int % 2);
}

/// A number of the range of single precision becomes the nearest of its numbers: no other
/// pattern, widened again, lies nearer.
pub proof fn singles_are_nearest(b: nat, s: nat)
    requires
        897 * STEP <= b < 1151 * STEP,
    ensures
        apart(doubled(single_magnitude(b) as int), b as int) <= apart(
            doubled(s as int),
            b as int,
        ),
{
    let e = b / STEP as nat;
    let m = b % STEP as nat;
    let n = (b - 896 * STEP) as nat;
    lemma_rounded(e - 896, m, STEP as nat, 0x2000_0000, 0x80_0000);
    assert(n == (e - 896) * STEP + m);
    assert(single_magnitude(b) == nearest_even(n, 0x2000_0000));
    rounding_is_nearest(n, 0x2000_0000, s);
}

/// And so it is from single to half precision.
pub proof fn halves_are_nearest(b: nat, h: nat)
    requires
        113 * 0x80_0000 <= b < 143 * 0x80_0000,
    ensures
        apart((half_magnitude(b) * 0x2000 + 112 * 0x80_0000) as int, b as int) <= apart(
            (h * 0x2000 + 112 * 0x80_0000) as int,
            b as int,
        ),
{
    let e = b / 0x80_0000;
    let m = b % 0x80_0000;
    let n = (b - 112 * 0x80_0000) as nat;
    lemma_rounded(e - 112, m, 0x80_0000, 0x2000, 0x400);
    assert(n == (e - 112) * 0x80_0000 + m);
    assert(half_magnitude(b) == nearest_even(n, 0x2000));
    rounding_is_nearest(n, 0x2000, h);
}

/// A normal single-precision number and zero narrow back to themselves.
pub proof fn exact_singles_come_back(s: nat)
    requires
        s == 0 || 0x80_0000 <= s < SINGLE_INFINITE,
    ensures
        s == 0 ==> single_magnitude(0) == 0,
        s > 0 ==> single_magnitude(doubled(s as int) as nat) == s,
{
    if s > 0 {
        let b = doubled(s as int) as nat;
        assert(b % STEP as nat == (s % 0x80_0000) * 0x2000_0000);
        assert(b / STEP as nat == s / 0x80_0000 + 896);
        assert(((s % 0x80_0000) * 0x2000_0000) % 0x2000_0000 == 0);
        assert(((s % 0x80_0000) * 0x2000_0000) / 0x2000_0000 == s % 0x80_0000);
    }
}

} // verus!
