//! Double-precision numbers by their bit pattern.
//!
//! A [`Scalar`] is an IEEE 754 binary64 number held as the 64 bits that store
//! it. Reading one from decimal text and writing one in decimal are exact:
//! both are stated, and proved, over the integer that a number becomes when it
//! is multiplied by `2^1074`.

use vstd::arithmetic::div_mod::{lemma_fundamental_div_mod, lemma_fundamental_div_mod_converse};
use vstd::prelude::*;

use crate::big::{
    from_word, lemma_ten_pow, lemma_two_pow, lemma_two_pow_add, lemma_two_pow_mono,
    lemma_two_pow_words, minus, mul_add, mul_two_pow, npow, plus, side, ten_pow, two_pow, value,
    Side,
};

verus! {

/// The sign bit alone.
pub const SIGN: u64 = 0x8000_0000_0000_0000;

/// The pattern of positive infinity; every larger magnitude is a NaN.
pub const INFINITE: u64 = 0x7ff0_0000_0000_0000;

/// The pattern that reading `nan` gives.
pub const NOT_A_NUMBER: u64 = 0x7ff8_0000_0000_0000;

/// `2^52`: one step of the exponent field.
pub const STEP: u64 = 0x10_0000_0000_0000;

/// A double-precision number, by its bits.
#[derive(Clone, Copy, Debug, PartialEq, Eq, Structural)]
pub struct Scalar {
    pub bits: u64,
}

/// `2^1074` times the number whose pattern is `b`, for a pattern without sign.
///
/// Infinity counts as the power of two that follows the largest number.
pub open spec fn scaled(b: nat) -> nat {
    let e = b / STEP as nat;
    let f = b % STEP as nat;
    if e == 0 {
        f
    } else {
        (STEP as nat + f) * two_pow((e - 1) as nat)
    }
}

/// The numerator of `d * 10^k`, times `2^1074`.
pub open spec fn decimal_num(d: nat, k: int) -> nat {
    d * ten_pow(if k > 0 { k as nat } else { 0 }) * two_pow(1074)
}

/// The denominator of `d * 10^k`.
pub open spec fn decimal_den(k: int) -> nat {
    ten_pow(if k < 0 { (-k) as nat } else { 0 })
}

/// Is `b` the pattern nearest to `n / m / 2^1074`? Of two patterns equally near
/// the even one is.
pub open spec fn is_nearest(b: nat, n: nat, m: nat) -> bool {
    &&& b <= INFINITE
    &&& b > 0 ==> {
        let mid = (scaled((b - 1) as nat) + scaled(b)) * m;
        2 * n > mid || (2 * n == mid && b % 2 == 0)
    }
    &&& b < INFINITE ==> {
        let mid = (scaled(b) + scaled(b + 1)) * m;
        2 * n < mid || (2 * n == mid && b % 2 == 0)
    }
}

/// The pattern nearest to `d * 10^k`.
pub open spec fn decimal_bits(d: nat, k: int) -> nat {
    choose|b: nat| is_nearest(b, decimal_num(d, k), decimal_den(k))
}

pub proof fn lemma_scaled_step(b: nat)
    ensures
        scaled(b) < scaled(b + 1),
        scaled(0) == 0,
{
    let s = STEP as nat;
    let e = b / s;
    let f = b % s;
    assert(0nat / s == 0 && 0nat % s == 0) by (nonlinear_arith)
        requires
            s == 0x10_0000_0000_0000nat,
    ;
    if f + 1 < s {
        assert((b + 1) / s == e && (b + 1) % s == f + 1) by {
            lemma_fundamental_div_mod(b as int, s as int);
            assert(s as int * e as int == e as int * s as int) by (nonlinear_arith);
            lemma_fundamental_div_mod_converse((b + 1) as int, s as int, e as int, (f + 1) as int);
        }
        if e > 0 {
            lemma_two_pow((e - 1) as nat);
            let p = two_pow((e - 1) as nat);
            assert((s + f) * p < (s + (f + 1)) * p) by (nonlinear_arith)
                requires
                    p > 0,
            ;
        }
    } else {
        assert((b + 1) / s == e + 1 && (b + 1) % s == 0) by {
            lemma_fundamental_div_mod(b as int, s as int);
            assert(s * e + s == (e + 1) * s) by (nonlinear_arith);
            lemma_fundamental_div_mod_converse((b + 1) as int, s as int, (e + 1) as int, 0);
        }
        if e > 0 {
            lemma_two_pow((e - 1) as nat);
            let p = two_pow((e - 1) as nat);
            assert(two_pow(e) == 2 * p);
            assert((s + f) * p < (s + 0) * (2 * p)) by (nonlinear_arith)
                requires
                    p > 0,
                    f + 1 == s,
            ;
        } else {
            lemma_two_pow(0);
            assert((s + 0) * 1 == s);
        }
    }
}

pub proof fn lemma_scaled_mono(a: nat, b: nat)
    requires
        a <= b,
    ensures
        scaled(a) <= scaled(b),
        a < b ==> scaled(a) < scaled(b),
    decreases b - a,
{
    if a < b {
        lemma_scaled_mono(a, (b - 1) as nat);
        lemma_scaled_step((b - 1) as nat);
    }
}

/// Rounding to the nearest pattern has one answer.
pub proof fn nearest_is_unique(a: nat, b: nat, n: nat, m: nat)
    requires
        m > 0,
        is_nearest(a, n, m),
        is_nearest(b, n, m),
    ensures
        a == b,
{
    if a < b {
        lemma_nearest_order(a, b, n, m);
    } else if b < a {
        lemma_nearest_order(b, a, n, m);
    }
}

proof fn lemma_nearest_order(a: nat, b: nat, n: nat, m: nat)
    requires
        m > 0,
        is_nearest(a, n, m),
        a < b,
    ensures
        !is_nearest(b, n, m),
{
    let low = scaled(a) + scaled(a + 1);
    let high = scaled((b - 1) as nat) + scaled(b);
    lemma_scaled_mono(a, (b - 1) as nat);
    lemma_scaled_mono(a + 1, b);
    assert(low * m <= high * m) by (nonlinear_arith)
        requires
            low <= high,
    ;
    if a + 1 < b {
        assert(low * m < high * m) by (nonlinear_arith)
            requires
                low < high,
                m > 0,
        ;
    }
}

/// `scaled(b) * v`.
pub fn scaled_times(b: u64, v: &Vec<u64>) -> (r: Vec<u64>)
    requires
        b <= INFINITE,
    ensures
        value(r@) == scaled(b as nat) * value(v@),
{
    let e: u64 = b / STEP;
    let f: u64 = b % STEP;
    if e == 0 {
        let r = mul_add(v, f, 0);
        assert(value(v@) * f as nat == f as nat * value(v@)) by (nonlinear_arith);
        r
    } else {
        let m = mul_add(v, STEP + f, 0);
        let r = mul_two_pow(&m, e - 1);
        proof {
            let w = value(v@);
            let c = (STEP + f) as nat;
            let p = two_pow((e - 1) as nat);
            assert(w * c * p == (c * p) * w) by (nonlinear_arith);
        }
        r
    }
}

proof fn lemma_times_order(a: nat, b: nat, m: nat)
    requires
        a < b,
        m > 0,
    ensures
        a * m < b * m,
{
    assert(a * m < b * m) by (nonlinear_arith)
        requires
            a < b,
            m > 0,
    ;
}

/// Round `n / m / 2^1074` to the nearest pattern.
pub fn nearest(n: &Vec<u64>, m: &Vec<u64>) -> (b: u64)
    requires
        value(m@) > 0,
    ensures
        is_nearest(b as nat, value(n@), value(m@)),
{
    let ghost nv = value(n@);
    let ghost mv = value(m@);
    let top = scaled_times(INFINITE, m);
    if side(&top, n) != Side::Above {
        proof {
            let i = INFINITE as nat;
            lemma_scaled_mono((i - 1) as nat, i);
            let mid = scaled((i - 1) as nat) + scaled(i);
            lemma_times_order(mid, 2 * scaled(i), mv);
            assert(2 * scaled(i) * mv == 2 * (scaled(i) * mv)) by (nonlinear_arith);
        }
        return INFINITE;
    }
    let mut lo: u64 = 0;
    let mut hi: u64 = INFINITE;
    proof {
        lemma_scaled_step(0);
        assert(0 * mv == 0);
    }
    while hi - lo > 1
        invariant
            lo < hi <= INFINITE,
            nv == value(n@),
            mv == value(m@),
            scaled(lo as nat) * mv <= nv,
            nv < scaled(hi as nat) * mv,
        decreases hi - lo,
    {
        let mid: u64 = lo + (hi - lo) / 2;
        let at = scaled_times(mid, m);
        if side(&at, n) == Side::Above {
            hi = mid;
        } else {
            lo = mid;
        }
    }
    let below = scaled_times(lo, m);
    let above = scaled_times(hi, m);
    let down = minus(n, &below);
    let up = minus(&above, n);
    let which = side(&down, &up);
    proof {
        let l = lo as nat;
        let h = hi as nat;
        let sl = scaled(l);
        let sh = scaled(h);
        assert((sl + sh) * mv == sl * mv + sh * mv) by (nonlinear_arith);
        if l > 0 {
            let sp = scaled((l - 1) as nat);
            lemma_scaled_mono((l - 1) as nat, l);
            lemma_times_order(sp, sl, mv);
            assert((sp + sl) * mv == sp * mv + sl * mv) by (nonlinear_arith);
        }
        if h < INFINITE {
            let sn = scaled(h + 1);
            lemma_scaled_mono(h, h + 1);
            lemma_times_order(sh, sn, mv);
            assert((sh + sn) * mv == sh * mv + sn * mv) by (nonlinear_arith);
        }
    }
    match which {
        Side::Below => lo,
        Side::Above => hi,
        Side::Same => if lo % 2 == 0 {
            lo
        } else {
            hi
        },
    }
}

/// The integer that the pattern `b` (without sign) stands for, if it is one.
pub open spec fn whole(b: nat) -> Option<nat> {
    if b < INFINITE && scaled(b) % two_pow(1074) == 0 {
        Some(scaled(b) / two_pow(1074))
    } else {
        None
    }
}

impl Scalar {
    /// The number as an `i32`, where it has no fraction and fits.
    pub open spec fn label(self) -> Option<int> {
        let neg = self.bits >= SIGN;
        let b = (if neg { self.bits - SIGN } else { self.bits as int }) as nat;
        match whole(b) {
            None => None,
            Some(n) => {
                let v = if neg { -n } else { n as int };
                if i32::MIN <= v <= i32::MAX {
                    Some(v)
                } else {
                    None
                }
            },
        }
    }

    /// The number as an `i32`, where it has no fraction and fits.
    pub fn as_label(self) -> (r: Option<i32>)
        ensures
            match (r, self.label()) {
                (Some(a), Some(b)) => a == b,
                (None, None) => true,
                _ => false,
            },
    {
        let neg: bool = self.bits >= SIGN;
        let b: u64 = if neg { self.bits - SIGN } else { self.bits };
        match small_whole(b) {
            None => None,
            Some(n) => {
                if neg {
                    if n <= 0x8000_0000 {
                        Some((-(n as i64)) as i32)
                    } else {
                        None
                    }
                } else if n <= 0x7fff_ffff {
                    Some(n as i32)
                } else {
                    None
                }
            },
        }
    }
}

proof fn lemma_whole_bounds(b: nat)
    requires
        b < INFINITE,
    ensures
        0 < b / (STEP as nat) < 1023 ==> whole(b) is None,
        b / STEP as nat == 0 && b > 0 ==> whole(b) is None,
        b == 0 ==> whole(b) == Some(0nat),
        b / STEP as nat >= 1055 && whole(b) is Some ==> whole(b)->Some_0 >= 0x1_0000_0000,
        1023 <= b / STEP as nat <= 1054 ==> {
            let k = (1075 - b / STEP as nat) as nat;
            let m = STEP as nat + b % STEP as nat;
            whole(b) == (if m % two_pow(k) == 0 { Some(m / two_pow(k)) } else { None::<nat> })
        },
{
    let e = b / STEP as nat;
    let f = b % STEP as nat;
    let w = two_pow(1074);
    let m = STEP as nat + f;
    lemma_two_pow(1074);
    lemma_two_pow_words();
    assert(two_pow(53) == 2 * STEP as nat) by {
        lemma_two_pow(52);
    }
    if b == 0 {
        assert(scaled(0) == 0);
        vstd::arithmetic::div_mod::lemma_small_mod(0, w);
        vstd::arithmetic::div_mod::lemma_basic_div(0, w as int);
    } else if e == 0 {
        assert(f == b) by {
            lemma_fundamental_div_mod(b as int, STEP as int);
        }
        lemma_two_pow_mono(52, 1074);
        vstd::arithmetic::div_mod::lemma_small_mod(f, w);
    } else {
        let p = two_pow((e - 1) as nat);
        lemma_two_pow((e - 1) as nat);
        if e < 1023 {
            lemma_two_pow_add((e - 1) as nat, 53);
            lemma_two_pow_mono((e - 1) as nat + 53, 1074);
            assert(0 < m * p < two_pow(53) * p) by (nonlinear_arith)
                requires
                    0 < m < two_pow(53),
                    p > 0,
            ;
            assert(two_pow(53) * p == p * two_pow(53)) by (nonlinear_arith);
            vstd::arithmetic::div_mod::lemma_small_mod(m * p, w);
        } else if e <= 1054 {
            let k = (1075 - e) as nat;
            let t = two_pow(k);
            lemma_two_pow(k);
            lemma_two_pow_add((e - 1) as nat, k);
            assert((e - 1) as nat + k == 1074);
            assert(w == p * t);
            lemma_fundamental_div_mod(m as int, t as int);
            let q = m / t;
            let r = m % t;
            assert(m * p == q * w + r * p) by (nonlinear_arith)
                requires
                    m == t * q + r,
                    w == p * t,
            ;
            assert(r * p < w) by (nonlinear_arith)
                requires
                    r < t,
                    w == p * t,
                    p > 0,
            ;
            lemma_fundamental_div_mod_converse((m * p) as int, w as int, q as int, (r * p) as int);
            assert(r * p == 0 <==> r == 0) by (nonlinear_arith)
                requires
                    p > 0,
            ;
        } else {
            // at least 2^32
            lemma_two_pow_add(1074, 32);
            lemma_two_pow_mono(1106, (e - 1) as nat + 52);
            lemma_two_pow_add((e - 1) as nat, 52);
            assert(m * p >= STEP as nat * p) by (nonlinear_arith)
                requires
                    m >= STEP as nat,
            ;
            assert(p * two_pow(52) == STEP as nat * p) by (nonlinear_arith)
                requires
                    two_pow(52) == STEP as nat,
            ;
            assert(two_pow(32) == 0x1_0000_0000nat) by {
                lemma_two_pow_add(32, 32);
                lemma_two_pow_thirty_two();
            }
            vstd::arithmetic::div_mod::lemma_div_is_ordered(
                (w * two_pow(32)) as int,
                (m * p) as int,
                w as int,
            );
            vstd::arithmetic::div_mod::lemma_div_multiples_vanish(two_pow(32) as int, w as int);
        }
    }
}

proof fn lemma_two_pow_thirty_two()
    ensures
        two_pow(32) == 0x1_0000_0000nat,
{
    assert(two_pow(4) == 16) by {
        reveal_with_fuel(npow, 5);
    }
    lemma_two_pow_add(4, 4);
    lemma_two_pow_add(8, 8);
    lemma_two_pow_add(16, 16);
    assert(16nat * 16 == 256);
    assert(256nat * 256 == 65536);
    assert(65536nat * 65536 == 0x1_0000_0000);
}

/// The integer below `2^32` that a pattern without sign stands for, if it is one.
fn small_whole(b: u64) -> (r: Option<u64>)
    requires
        b < SIGN,
    ensures
        match (r, whole(b as nat)) {
            (Some(a), Some(n)) => a == n && n < 0x1_0000_0000,
            (None, Some(n)) => n >= 0x1_0000_0000,
            (None, None) => true,
            _ => false,
        },
{
    if b == 0 {
        proof {
            lemma_whole_bounds(0);
        }
        return Some(0);
    }
    if b >= INFINITE {
        return None;
    }
    let e: u64 = b / STEP;
    proof {
        lemma_whole_bounds(b as nat);
    }
    if e < 1023 || e > 1054 {
        return None;
    }
    let k: u64 = 1075 - e;
    let m: u64 = STEP + b % STEP;
    let mut t: u64 = 1;
    let mut i: u64 = 0;
    proof {
        lemma_two_pow(0);
        lemma_two_pow_words();
    }
    while i < k
        invariant
            i <= k <= 52,
            t as nat == two_pow(i as nat),
            two_pow(52) == 0x10_0000_0000_0000nat,
        decreases k - i,
    {
        proof {
            lemma_two_pow(i as nat);
            lemma_two_pow_mono(i as nat, 52);
        }
        t = t * 2;
        i = i + 1;
    }
    proof {
        lemma_two_pow(k as nat);
        lemma_two_pow_add(k as nat, (53 - k) as nat);
        lemma_two_pow_mono((53 - k) as nat, 32);
        lemma_two_pow_thirty_two();
        lemma_two_pow(52);
        let q = m as nat / t as nat;
        lemma_fundamental_div_mod(m as int, t as int);
        vstd::arithmetic::mul::lemma_mul_is_commutative(t as int, q as int);
        assert(q * t as nat <= m as nat);
        let u = two_pow((53 - k) as nat);
        assert(q < u) by (nonlinear_arith)
            requires
                q * t as nat <= m as nat,
                (m as nat) < (t as nat) * u,
                t > 0,
        ;
    }
    if m % t == 0 {
        Some(m / t)
    } else {
        None
    }
}

// --------------------------------------------------------------------------
//  Rounding to an integer
// --------------------------------------------------------------------------
/// `2^1074` times a number, with its sign.
pub open spec fn signed_scaled(v: Scalar) -> int {
    if v.bits >= SIGN {
        -(scaled((v.bits - SIGN) as nat) as int)
    } else {
        scaled(v.bits as nat) as int
    }
}

/// The pattern (without sign) nearest to `n / 2^1074`.
pub open spec fn nearest_bits(n: nat) -> nat {
    choose|b: nat| is_nearest(b, n, 1)
}

/// A number with one half added, rounded as addition rounds, and cut to an
/// integer; beyond the integers of 32 bits the nearest of these, and 0 for a NaN.
pub open spec fn half_up(v: Scalar) -> int {
    let m = if v.bits >= SIGN { v.bits - SIGN } else { v.bits as int };
    if m > INFINITE {
        0
    } else {
        let x = signed_scaled(v) + two_pow(1073);
        let b = nearest_bits((if x < 0 { -x } else { x }) as nat);
        let n = scaled(b) / two_pow(1074);
        let w = if x < 0 { -n } else { n as int };
        if w < i32::MIN {
            i32::MIN as int
        } else if w > i32::MAX {
            i32::MAX as int
        } else {
            w
        }
    }
}

/// The whole part of the number with pattern `b`, cut off at `2^32`.
fn whole_part(b: u64) -> (r: u64)
    requires
        b <= INFINITE,
    ensures
        r == (if scaled(b as nat) / two_pow(1074) < 0x1_0000_0000 {
            scaled(b as nat) / two_pow(1074)
        } else {
            0x1_0000_0000
        }),
{
    let one = from_word(1);
    let s = scaled_times(b, &one);
    assert(scaled(b as nat) * 1 == scaled(b as nat));
    let unit = mul_two_pow(&one, 1074);
    let ghost u = two_pow(1074);
    assert(1 * u == u);
    proof {
        lemma_two_pow(1074);
    }
    let mut q: u64 = 0;
    let mut step: u64 = 0x1_0000_0000;
    let ghost sv = scaled(b as nat);
    let limit = mul_add(&unit, 0x1_0000_0000, 0);
    if side(&limit, &s) != Side::Above {
        proof {
            lemma_div_at_least(sv, u, 0x1_0000_0000);
        }
        return 0x1_0000_0000;
    }
    proof {
        assert(0 * u == 0);
        assert(u * 0x1_0000_0000 == 0x1_0000_0000 * u) by (nonlinear_arith);
        assert((q + step) as nat == 0x1_0000_0000);
    }
    while step > 1
        invariant
            0 < step <= 0x1_0000_0000,
            q + step <= 0x1_0000_0000,
            u > 0,
            value(unit@) == u,
            value(s@) == sv,
            q as nat * u <= sv,
            sv < (q + step) as nat * u,
        decreases step,
    {
        let half: u64 = step / 2;
        let mid: u64 = q + half;
        let at = mul_add(&unit, mid, 0);
        proof {
            assert(u * mid as nat == mid as nat * u) by (nonlinear_arith);
        }
        if side(&at, &s) == Side::Above {
            step = half;
        } else {
            step = step - half;
            q = mid;
        }
    }
    proof {
        let qv = q as nat;
        assert((q + step) as nat * u == qv * u + u) by (nonlinear_arith)
            requires
                step == 1,
                qv == q as nat,
        ;
        lemma_fundamental_div_mod_converse(sv as int, u as int, qv as int, sv - qv * u);
    }
    q
}

proof fn lemma_div_at_least(s: nat, u: nat, k: nat)
    requires
        u > 0,
        s >= u * k,
    ensures
        s / u >= k,
{
    vstd::arithmetic::div_mod::lemma_div_is_ordered((u * k) as int, s as int, u as int);
    vstd::arithmetic::div_mod::lemma_div_multiples_vanish(k as int, u as int);
}

impl Scalar {
    /// One half added, then cut to an integer.
    pub fn rounded_half_up(self) -> (r: i32)
        ensures
            r == half_up(self),
    {
        let neg: bool = self.bits >= SIGN;
        let m: u64 = if neg { self.bits - SIGN } else { self.bits };
        if m > INFINITE {
            return 0;
        }
        let one = from_word(1);
        let half = mul_two_pow(&one, 1073);
        let mag = scaled_times(m, &one);
        proof {
            assert(1 * two_pow(1073) == two_pow(1073));
            assert(scaled(m as nat) * 1 == scaled(m as nat));
        }
        let (x, below): (Vec<u64>, bool) = if !neg {
            (plus(&mag, &half), false)
        } else if side(&mag, &half) == Side::Above {
            (minus(&mag, &half), true)
        } else {
            (minus(&half, &mag), false)
        };
        let b: u64 = nearest(&x, &one);
        proof {
            assert(is_nearest(b as nat, value(x@), 1));
            nearest_is_unique(b as nat, nearest_bits(value(x@)), value(x@), 1);
        }
        let n: u64 = whole_part(b);
        if below {
            if n > 0x8000_0000 {
                i32::MIN
            } else {
                (-(n as i64)) as i32
            }
        } else if n > 0x7fff_ffff {
            i32::MAX
        } else {
            n as i32
        }
    }
}

// --------------------------------------------------------------------------
//  Order
// --------------------------------------------------------------------------
proof fn lemma_whole_wide(b: nat)
    requires
        b < INFINITE,
        b / STEP as nat >= 1023,
    ensures
        ({
            let e = b / STEP as nat;
            let m = STEP as nat + b % STEP as nat;
            &&& e <= 1075 ==> {
                let t = two_pow((1075 - e) as nat);
                whole(b) == (if m % t == 0 { Some(m / t) } else { None::<nat> })
            }
            &&& e > 1075 ==> whole(b) == Some(m * two_pow((e - 1075) as nat))
        }),
{
    let e = b / STEP as nat;
    let m = STEP as nat + b % STEP as nat;
    let w = two_pow(1074);
    let p = two_pow((e - 1) as nat);
    lemma_two_pow(1074);
    lemma_two_pow((e - 1) as nat);
    if e <= 1075 {
        let k = (1075 - e) as nat;
        let t = two_pow(k);
        lemma_two_pow(k);
        lemma_two_pow_add((e - 1) as nat, k);
        assert((e - 1) as nat + k == 1074);
        lemma_fundamental_div_mod(m as int, t as int);
        let q = m / t;
        let r = m % t;
        assert(m * p == q * w + r * p) by (nonlinear_arith)
            requires
                m == t * q + r,
                w == p * t,
        ;
        assert(r * p < w) by (nonlinear_arith)
            requires
                r < t,
                w == p * t,
                p > 0,
        ;
        lemma_fundamental_div_mod_converse((m * p) as int, w as int, q as int, (r * p) as int);
        assert(r * p == 0 <==> r == 0) by (nonlinear_arith)
            requires
                p > 0,
        ;
    } else {
        let u = two_pow((e - 1075) as nat);
        lemma_two_pow_add((e - 1075) as nat, 1074);
        assert(m * p == (m * u) * w) by (nonlinear_arith)
            requires
                p == u * w,
        ;
        lemma_fundamental_div_mod_converse((m * p) as int, w as int, (m * u) as int, 0);
    }
}

/// `2^k`.
pub fn power_of_two(k: u64) -> (r: u64)
    requires
        k <= 62,
    ensures
        r as nat == two_pow(k as nat),
        r > 0,
{
    let mut r: u64 = 1;
    let mut i: u64 = 0;
    proof {
        lemma_two_pow(0);
        lemma_two_pow_words();
    }
    while i < k
        invariant
            i <= k <= 62,
            r > 0,
            r as nat == two_pow(i as nat),
            two_pow(62) == 0x4000_0000_0000_0000nat,
        decreases k - i,
    {
        proof {
            lemma_two_pow(i as nat);
            lemma_two_pow_mono((i + 1) as nat, 62);
        }
        r = r * 2;
        i = i + 1;
    }
    r
}

/// The integer that a pattern without sign stands for, `2^63` at most.
fn wide_whole(b: u64) -> (r: Option<u64>)
    requires
        b < SIGN,
    ensures
        match (r, whole(b as nat)) {
            (Some(a), Some(n)) => a as nat == (if n < 0x8000_0000_0000_0000 {
                n
            } else {
                0x8000_0000_0000_0000
            }),
            (None, None) => true,
            _ => false,
        },
{
    if b >= INFINITE {
        return None;
    }
    proof {
        lemma_whole_bounds(b as nat);
    }
    if b == 0 {
        return Some(0);
    }
    let e: u64 = b / STEP;
    let m: u64 = STEP + b % STEP;
    if e < 1023 {
        return None;
    }
    proof {
        lemma_whole_wide(b as nat);
        lemma_two_pow_words();
    }
    if e <= 1075 {
        let t: u64 = power_of_two(1075 - e);
        proof {
            assert(m / t <= m) by (nonlinear_arith)
                requires
                    t > 0,
            ;
        }
        if m % t == 0 {
            return Some(m / t);
        }
        return None;
    }
    if e <= 1085 {
        let u: u64 = power_of_two(e - 1075);
        proof {
            lemma_two_pow_mono((e - 1075) as nat, 10);
            assert(two_pow(10) == 1024) by {
                reveal_with_fuel(npow, 6);
                assert(two_pow(5) == 32);
                lemma_two_pow_add(5, 5);
            }
            assert(m * u < 0x8000_0000_0000_0000) by (nonlinear_arith)
                requires
                    m < 0x20_0000_0000_0000,
                    0 < u <= 1024,
            ;
        }
        return Some(m * u);
    }
    proof {
        lemma_two_pow_mono(11, (e - 1075) as nat);
        assert(two_pow(11) == 2048) by {
            reveal_with_fuel(npow, 7);
            assert(two_pow(5) == 32 && two_pow(6) == 64);
            lemma_two_pow_add(5, 6);
        }
        let u = two_pow((e - 1075) as nat);
        assert(m * u >= 0x8000_0000_0000_0000) by (nonlinear_arith)
            requires
                m >= 0x10_0000_0000_0000,
                u >= 2048,
        ;
    }
    Some(0x8000_0000_0000_0000)
}

impl Scalar {
    /// The number as an `i64`, where it has no fraction: the nearest one there is.
    pub open spec fn wide_label(self) -> Option<int> {
        match whole(self.magnitude()) {
            None => None,
            Some(n) => Some(
                if self.bits >= SIGN {
                    if n <= 0x8000_0000_0000_0000 {
                        -n
                    } else {
                        i64::MIN as int
                    }
                } else {
                    if n <= i64::MAX {
                        n as int
                    } else {
                        i64::MAX as int
                    }
                },
            ),
        }
    }

    /// The number as an `i64`, where it has no fraction.
    pub fn as_wide_label(self) -> (r: Option<i64>)
        ensures
            match (r, self.wide_label()) {
                (Some(a), Some(b)) => a == b,
                (None, None) => true,
                _ => false,
            },
    {
        let neg: bool = self.bits >= SIGN;
        let b: u64 = if neg { self.bits - SIGN } else { self.bits };
        match wide_whole(b) {
            None => None,
            Some(n) => {
                if neg {
                    if n < 0x8000_0000_0000_0000 {
                        Some(-(n as i64))
                    } else {
                        Some(i64::MIN)
                    }
                } else if n < 0x8000_0000_0000_0000 {
                    Some(n as i64)
                } else {
                    Some(i64::MAX)
                }
            },
        }
    }
}

/// The number nearest to a whole one.
pub open spec fn of_whole(n: nat) -> Scalar {
    Scalar { bits: decimal_bits(n, 0) as u64 }
}

/// A whole number as a number.
pub fn whole_number(n: u64) -> (r: Scalar)
    ensures
        r == of_whole(n as nat),
{
    let a = mul_two_pow(&from_word(n), 1074);
    let one = from_word(1);
    let b: u64 = nearest(&a, &one);
    proof {
        lemma_ten_pow(0);
        assert(n as nat * ten_pow(0) == n as nat) by (nonlinear_arith)
            requires
                ten_pow(0) == 1,
        ;
        assert(is_nearest(b as nat, decimal_num(n as nat, 0), decimal_den(0)));
        nearest_is_unique(
            b as nat,
            decimal_bits(n as nat, 0),
            decimal_num(n as nat, 0),
            decimal_den(0),
        );
    }
    Scalar { bits: b }
}

/// The pattern of `1`.
pub const ONE: u64 = 0x3ff0_0000_0000_0000;

/// The pattern of `2`.
pub const TWO: u64 = 0x4000_0000_0000_0000;

impl Scalar {
    pub open spec fn magnitude(self) -> nat {
        (if self.bits >= SIGN { self.bits - SIGN } else { self.bits as int }) as nat
    }

    pub open spec fn is_nan(self) -> bool {
        self.magnitude() > INFINITE
    }

    /// Neither infinite nor a NaN?
    pub open spec fn is_finite(self) -> bool {
        self.magnitude() < INFINITE
    }

    /// Is the number below another? A NaN is below nothing, and nothing is below it.
    pub open spec fn less(self, other: Scalar) -> bool {
        !self.is_nan() && !other.is_nan() && signed_scaled(self) < signed_scaled(other)
    }

    /// `==` as numbers compare: the two zeros are equal, and a NaN equals nothing.
    pub open spec fn equal(self, other: Scalar) -> bool {
        !self.is_nan() && !other.is_nan() && (self == other || (self.magnitude() == 0
            && other.magnitude() == 0))
    }

    /// `==` as numbers compare.
    pub fn equals(self, other: Scalar) -> (r: bool)
        ensures
            r == self.equal(other),
    {
        let a: u64 = if self.bits >= SIGN { self.bits - SIGN } else { self.bits };
        let b: u64 = if other.bits >= SIGN { other.bits - SIGN } else { other.bits };
        a <= INFINITE && b <= INFINITE && (self.bits == other.bits || (a == 0 && b == 0))
    }

    pub fn finite(self) -> (r: bool)
        ensures
            r == self.is_finite(),
    {
        let m: u64 = if self.bits >= SIGN { self.bits - SIGN } else { self.bits };
        m < INFINITE
    }

    /// Not a number?
    pub fn nan(self) -> (r: bool)
        ensures
            r == self.is_nan(),
    {
        let m: u64 = if self.bits >= SIGN { self.bits - SIGN } else { self.bits };
        m > INFINITE
    }

    /// `<` as numbers compare.
    pub fn below(self, other: Scalar) -> (r: bool)
        ensures
            r == self.less(other),
    {
        let an: bool = self.bits >= SIGN;
        let bn: bool = other.bits >= SIGN;
        let a: u64 = if an { self.bits - SIGN } else { self.bits };
        let b: u64 = if bn { other.bits - SIGN } else { other.bits };
        if a > INFINITE || b > INFINITE {
            return false;
        }
        proof {
            lemma_scaled_step(0);
            lemma_scaled_mono(0, a as nat);
            lemma_scaled_mono(0, b as nat);
            if a <= b {
                lemma_scaled_mono(a as nat, b as nat);
            } else {
                lemma_scaled_mono(b as nat, a as nat);
            }
        }
        if !an && !bn {
            a < b
        } else if an && bn {
            b < a
        } else if an {
            a > 0 || b > 0
        } else {
            false
        }
    }
}

} // verus!
