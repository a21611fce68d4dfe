//! Reading a number from decimal text.

use vstd::prelude::*;

use crate::big::{
    from_word, lemma_ten_pow, lemma_ten_pow_add, lemma_ten_pow_mono, lemma_two_pow,
    lemma_two_pow_add, lemma_two_pow_mono, lemma_two_pow_words, mul_add, mul_ten_pow, mul_two_pow,
    npow, ten_pow, two_pow, value,
};
use crate::scalar::{
    decimal_bits, decimal_den, decimal_num, is_nearest, lemma_scaled_mono, lemma_scaled_step,
    nearest, nearest_is_unique, scaled, Scalar, INFINITE, NOT_A_NUMBER, SIGN, STEP,
};
use crate::text::{chars_of, digit_run, digits_value, is_digit, lower, lower_case, skip_digits};

verus! {

/// What a piece of text says, sign aside.
pub enum Literal {
    Nan,
    Infinite,
    /// `digits * 10^exponent`.
    Finite { digits: nat, exponent: int },
}

/// Does `t` spell the lower-case word `w`, in letters of either case?
pub open spec fn spells(t: Seq<char>, w: Seq<char>) -> bool {
    &&& t.len() == w.len()
    &&& forall|i: int| 0 <= i < t.len() ==> lower(#[trigger] t[i]) == w[i]
}

/// Where the digits of a numeral end: behind the fraction, or behind the whole
/// part where there is none.
pub open spec fn mantissa_end(t: Seq<char>) -> int {
    let a = digit_run(t, 0);
    if a < t.len() && t[a] == '.' {
        digit_run(t, a + 1)
    } else {
        a
    }
}

/// The digits of a numeral, without the point.
pub open spec fn mantissa(t: Seq<char>) -> Seq<char> {
    let a = digit_run(t, 0);
    let b = mantissa_end(t);
    if b > a {
        t.take(a) + t.subrange(a + 1, b)
    } else {
        t.take(a)
    }
}

/// How many digits stand behind the point.
pub open spec fn fraction_len(t: Seq<char>) -> int {
    let a = digit_run(t, 0);
    let b = mantissa_end(t);
    if b > a {
        b - a - 1
    } else {
        0
    }
}

/// The written exponent from position `b` on: nothing, or `e`, an optional sign
/// and digits up to the end.
pub open spec fn written_exponent(t: Seq<char>, b: int) -> Option<int> {
    if b == t.len() {
        Some(0int)
    } else if t[b] == 'e' || t[b] == 'E' {
        let s = b + 1;
        let c = if s < t.len() && (t[s] == '-' || t[s] == '+') {
            s + 1
        } else {
            s
        };
        if c < t.len() && digit_run(t, c) == t.len() {
            let v = digits_value(t.skip(c)) as int;
            Some(if t[s] == '-' { -v } else { v })
        } else {
            None
        }
    } else {
        None
    }
}

/// The reading of a numeral without a sign.
pub open spec fn unsigned_literal(t: Seq<char>) -> Option<Literal> {
    if spells(t, "inf"@) || spells(t, "infinity"@) {
        Some(Literal::Infinite)
    } else if spells(t, "nan"@) {
        Some(Literal::Nan)
    } else if mantissa(t).len() == 0 {
        None
    } else {
        match written_exponent(t, mantissa_end(t)) {
            None => None,
            Some(e) => Some(
                Literal::Finite { digits: digits_value(mantissa(t)), exponent: e - fraction_len(t) },
            ),
        }
    }
}

pub open spec fn unsigned_bits(l: Literal) -> nat {
    match l {
        Literal::Nan => NOT_A_NUMBER as nat,
        Literal::Infinite => INFINITE as nat,
        Literal::Finite { digits, exponent } => decimal_bits(digits, exponent),
    }
}

/// The number that a text stands for: an optional sign, then a numeral, `inf`,
/// `infinity` or `nan`. A decimal numeral gives the nearest number, and of two
/// equally near the one with the even pattern.
pub open spec fn parsed(t: Seq<char>) -> Option<Scalar> {
    let signed = t.len() > 0 && (t[0] == '-' || t[0] == '+');
    let body = if signed {
        t.skip(1)
    } else {
        t
    };
    match unsigned_literal(body) {
        None => None,
        Some(l) => {
            let u = unsigned_bits(l);
            Some(Scalar { bits: (if signed && t[0] == '-' { u + SIGN } else { u as int }) as u64 })
        },
    }
}

proof fn lemma_ten_two(n: nat)
    ensures
        ten_pow(3 * n) >= two_pow(9 * n),
    decreases n,
{
    if n == 0 {
        lemma_ten_pow(0);
        lemma_two_pow(0);
    } else {
        let m = (n - 1) as nat;
        lemma_ten_two(m);
        lemma_ten_pow_add(3, 3 * m);
        lemma_two_pow_add(9, 9 * m);
        assert(ten_pow(3) == 1000) by {
            reveal_with_fuel(npow, 4);
        }
        assert(two_pow(9) == 512) by {
            reveal_with_fuel(npow, 10);
        }
        let x = ten_pow(3 * m);
        let y = two_pow(9 * m);
        assert(1000 * x >= 512 * y) by (nonlinear_arith)
            requires
                x >= y,
        ;
    }
}

pub proof fn lemma_wide()
    ensures
        ten_pow(402) >= two_pow(1075),
        two_pow(1075) == 2 * two_pow(1074),
        ten_pow(402) >= two_pow(1024),
        scaled(INFINITE as nat) == two_pow(1024) * two_pow(1074),
{
    lemma_ten_two(134);
    lemma_two_pow_mono(1075, 1206);
    lemma_two_pow_mono(1024, 1206);
    lemma_two_pow(1074);
    lemma_two_pow_words();
    lemma_two_pow_add(52, 2046);
    lemma_two_pow_add(1024, 1074);
    assert(INFINITE as nat / STEP as nat == 2047);
    assert(INFINITE as nat % STEP as nat == 0);
}

proof fn lemma_huge(d: nat, nd: nat, k: int)
    requires
        nd > 0,
        ten_pow((nd - 1) as nat) <= d,
        k + nd > 402,
    ensures
        is_nearest(INFINITE as nat, decimal_num(d, k), decimal_den(k)),
{
    lemma_wide();
    let i = INFINITE as nat;
    let a = two_pow(1024);
    let b = two_pow(1074);
    let m = decimal_den(k);
    let t = ten_pow(402);
    lemma_two_pow(1074);
    lemma_ten_pow(0);
    let kp = if k > 0 { k as nat } else { 0 };
    let kn = if k < 0 { (-k) as nat } else { 0 };
    let p = ten_pow(kp);
    lemma_ten_pow(kp);
    lemma_ten_pow(kn);
    // d * 10^kp >= 10^402 * m
    assert(d * p >= t * m) by {
        let x = ten_pow((nd - 1) as nat);
        assert(d * p >= x * p) by (nonlinear_arith)
            requires
                d >= x,
        ;
        lemma_ten_pow_add((nd - 1) as nat, kp);
        lemma_ten_pow_add(402, kn);
        lemma_ten_pow_mono(402 + kn, (nd - 1) as nat + kp);
    }
    assert(t * m >= a * m) by (nonlinear_arith)
        requires
            t >= a,
    ;
    assert(d * p * b >= (a * m) * b) by (nonlinear_arith)
        requires
            d * p >= a * m,
    ;
    assert((a * m) * b == (a * b) * m) by (nonlinear_arith);
    let s = scaled(i);
    let r = scaled((i - 1) as nat);
    lemma_scaled_mono((i - 1) as nat, i);
    assert((r + s) * m < 2 * (s * m)) by (nonlinear_arith)
        requires
            r < s,
            m > 0,
    ;
}

proof fn lemma_tiny(d: nat, nd: nat, k: int)
    requires
        d < ten_pow(nd),
        k + nd < -402,
    ensures
        is_nearest(0, decimal_num(d, k), decimal_den(k)),
{
    lemma_wide();
    let b = two_pow(1074);
    let m = decimal_den(k);
    let t = ten_pow(402);
    let x = ten_pow(nd);
    lemma_two_pow(1074);
    lemma_ten_pow(0);
    lemma_ten_pow_add(402, nd);
    lemma_ten_pow_mono(402 + nd, (-k) as nat);
    assert(m >= t * x);
    assert(d * 1 * b < x * b) by (nonlinear_arith)
        requires
            d < x,
            b > 0,
    ;
    assert(t * x >= (2 * b) * x) by (nonlinear_arith)
        requires
            t >= 2 * b,
    ;
    assert((2 * b) * x == 2 * (x * b)) by (nonlinear_arith);
    lemma_scaled_step(0);
    lemma_scaled_mono(0, 1);
    assert((scaled(0) + scaled(1)) * m >= m) by (nonlinear_arith)
        requires
            scaled(0) + scaled(1) >= 1,
    ;
}

/// Round `d * 10^k`, where `d` has `nd` digits.
pub fn bits_of_decimal(d: &Vec<u64>, nd: usize, k: i128) -> (b: u64)
    requires
        nd == 0 ==> value(d@) == 0,
        nd > 0 ==> ten_pow((nd - 1) as nat) <= value(d@) < ten_pow(nd as nat),
        -0x1_0000_0000_0000_0000_0000_0000_0000 <= k <= 0x1_0000_0000_0000_0000_0000_0000_0000,
    ensures
        b as nat == decimal_bits(value(d@), k as int),
        b <= INFINITE,
{
    let ghost dv = value(d@);
    let ghost num = decimal_num(dv, k as int);
    let ghost den = decimal_den(k as int);
    let b: u64;
    proof {
        lemma_ten_pow(0);
        lemma_ten_pow(if k < 0 { (-k) as nat } else { 0 });
    }
    if nd == 0 {
        b = 0;
        proof {
            lemma_scaled_step(0);
            assert(0 * ten_pow(if k > 0 { k as nat } else { 0 }) == 0);
            assert(0 * two_pow(1074) == 0);
            assert((scaled(0) + scaled(1)) * den > 0) by (nonlinear_arith)
                requires
                    scaled(0) + scaled(1) >= 1,
                    den > 0,
            ;
        }
    } else {
        let t: i128 = k + (nd as i128);
        if t > 402 {
            b = INFINITE;
            proof {
                lemma_huge(dv, nd as nat, k as int);
            }
        } else if t < -402 {
            b = 0;
            proof {
                lemma_tiny(dv, nd as nat, k as int);
            }
        } else if k >= 0 {
            let scaled_up = mul_ten_pow(d, k as u128);
            let n = mul_two_pow(&scaled_up, 1074);
            let m = from_word(1);
            b = nearest(&n, &m);
        } else {
            let n0 = mul_two_pow(d, 1074);
            let one = from_word(1);
            let m = mul_ten_pow(&one, (-k) as u128);
            proof {
                assert(1 * ten_pow((-k) as nat) == ten_pow((-k) as nat));
                assert(dv * ten_pow(0) == dv);
            }
            b = nearest(&n0, &m);
        }
    }
    proof {
        assert(is_nearest(b as nat, decimal_num(dv, k as int), decimal_den(k as int)));
        nearest_is_unique(b as nat, decimal_bits(dv, k as int), num, den);
    }
    b
}

/// The digits from `a` up to `b` behind those already in `d`.
pub(crate) fn take_digits(
    t: &[char],
    a: usize,
    b: usize,
    d: Vec<u64>,
    nd: usize,
    Ghost(before): Ghost<Seq<char>>,
) -> (r: (Vec<u64>, usize))
    requires
        a <= b <= t.len(),
        forall|i: int| a <= i < b ==> is_digit(t[i]),
        value(d@) == digits_value(before),
        nd == 0 ==> value(d@) == 0,
        nd > 0 ==> ten_pow((nd - 1) as nat) <= value(d@) < ten_pow(nd as nat),
        nd <= a,
    ensures
        value(r.0@) == digits_value(before + t@.subrange(a as int, b as int)),
        r.1 == 0 ==> value(r.0@) == 0,
        r.1 > 0 ==> ten_pow((r.1 - 1) as nat) <= value(r.0@) < ten_pow(r.1 as nat),
        r.1 <= b,
{
    let mut d = d;
    let mut nd: usize = nd;
    let mut i: usize = a;
    assert(before + t@.subrange(a as int, a as int) =~= before);
    while i < b
        invariant
            a <= i <= b <= t.len(),
            forall|j: int| a <= j < b ==> is_digit(t[j]),
            value(d@) == digits_value(before + t@.subrange(a as int, i as int)),
            nd == 0 ==> value(d@) == 0,
            nd > 0 ==> ten_pow((nd - 1) as nat) <= value(d@) < ten_pow(nd as nat),
            nd <= i,
        decreases b - i,
    {
        let x: u64 = (t[i] as u32 - '0' as u32) as u64;
        d = mul_add(&d, 10, x);
        proof {
            let s = before + t@.subrange(a as int, i + 1);
            assert(s.drop_last() =~= before + t@.subrange(a as int, i as int));
            lemma_ten_pow(nd as nat);
            if nd > 0 {
                lemma_ten_pow((nd - 1) as nat);
            } else {
                lemma_ten_pow(0);
            }
        }
        if nd > 0 || x > 0 {
            nd = nd + 1;
        }
        i = i + 1;
    }
    (d, nd)
}

/// The written exponent, kept within what the decision needs: one beyond
/// `10^28` comes back as `10^28`, with its sign.
fn read_exponent(t: &[char], b: usize) -> (r: Option<(i128, bool)>)
    requires
        b <= t.len(),
    ensures
        match (r, written_exponent(t@, b as int)) {
            (None, None) => true,
            (Some((e, false)), Some(w)) => e == w && -10_000_000_000_000_000_000_000_000_000
                <= e <= 10_000_000_000_000_000_000_000_000_000,
            (Some((e, true)), Some(w)) => {
                ||| e == 10_000_000_000_000_000_000_000_000_000 && w >= e
                ||| e == -10_000_000_000_000_000_000_000_000_000 && w <= e
            },
            _ => false,
        },
{
    if b == t.len() {
        return Some((0, false));
    }
    if t[b] != 'e' && t[b] != 'E' {
        return None;
    }
    let s: usize = b + 1;
    let mut c: usize = s;
    let mut neg: bool = false;
    if s < t.len() && (t[s] == '-' || t[s] == '+') {
        neg = t[s] == '-';
        c = s + 1;
    }
    if c >= t.len() {
        return None;
    }
    let end: usize = skip_digits(t, c);
    if end != t.len() {
        return None;
    }
    let mut v: i128 = 0;
    let mut over: bool = false;
    let mut i: usize = c;
    while i < t.len()
        invariant
            c <= i <= t.len(),
            forall|j: int| c <= j < t.len() ==> is_digit(t[j]),
            0 <= v <= 10_000_000_000_000_000_000_000_000_000,
            !over ==> v == digits_value(t@.subrange(c as int, i as int)),
            over ==> v == 10_000_000_000_000_000_000_000_000_000 && v <= digits_value(
                t@.subrange(c as int, i as int),
            ),
        decreases t.len() - i,
    {
        let x: i128 = (t[i] as u32 - '0' as u32) as i128;
        assert(t@.subrange(c as int, i + 1).drop_last() =~= t@.subrange(c as int, i as int));
        let next: i128 = v * 10 + x;
        if over || next > 10_000_000_000_000_000_000_000_000_000 {
            over = true;
            v = 10_000_000_000_000_000_000_000_000_000;
        } else {
            v = next;
        }
        i = i + 1;
    }
    assert(t@.subrange(c as int, i as int) =~= t@.skip(c as int));
    if neg {
        v = -v;
    }
    proof {
        if !neg {
            assert(t[s as int] != '-');
        }
    }
    Some((v, over))
}

fn spells_word(t: &[char], w: &str) -> (r: bool)
    ensures
        r == spells(t@, w@),
{
    let x = chars_of(w);
    if t.len() != x.len() {
        return false;
    }
    let mut i: usize = 0;
    while i < t.len()
        invariant
            i <= t.len(),
            t.len() == x.len(),
            x@ == w@,
            forall|k: int| 0 <= k < i ==> lower(#[trigger] t[k]) == x[k],
        decreases t.len() - i,
    {
        let c: char = t[i];
        let l: char = lower_case(c);
        if l != x[i] {
            assert(lower(t@[i as int]) != w@[i as int]);
            return false;
        }
        i = i + 1;
    }
    true
}

fn unsigned_number(t: &[char]) -> (r: Option<u64>)
    ensures
        match (r, unsigned_literal(t@)) {
            (None, None) => true,
            (Some(b), Some(l)) => b as nat == unsigned_bits(l) && b < SIGN,
            _ => false,
        },
{
    if spells_word(t, "inf") || spells_word(t, "infinity") {
        return Some(INFINITE);
    }
    if spells_word(t, "nan") {
        return Some(NOT_A_NUMBER);
    }
    let a: usize = skip_digits(t, 0);
    let d0: Vec<u64> = Vec::new();
    let (mut d, mut nd) = take_digits(t, 0, a, d0, 0, Ghost(Seq::empty()));
    assert(Seq::<char>::empty() + t@.subrange(0, a as int) =~= t@.take(a as int));
    let mut b: usize = a;
    let mut frac: usize = 0;
    if a < t.len() && t[a] == '.' {
        b = skip_digits(t, a + 1);
        frac = b - a - 1;
        let (d2, nd2) = take_digits(t, a + 1, b, d, nd, Ghost(t@.take(a as int)));
        d = d2;
        nd = nd2;
    }
    let digits: usize = a + frac;
    assert(mantissa(t@).len() == digits);
    if digits == 0 {
        return None;
    }
    match read_exponent(t, b) {
        None => None,
        Some((e, over)) => {
            let k: i128 = e - (frac as i128);
            let bits: u64 = bits_of_decimal(&d, nd, k);
            proof {
                if over {
                    let w = written_exponent(t@, b as int)->Some_0;
                    lemma_far(value(d@), nd as nat, e as int, w, frac as int);
                }
            }
            Some(bits)
        },
    }
}

/// Beyond `10^28` the size of the exponent no longer matters.
proof fn lemma_far(d: nat, nd: nat, e: int, w: int, frac: int)
    requires
        nd == 0 ==> d == 0,
        nd > 0 ==> ten_pow((nd - 1) as nat) <= d < ten_pow(nd),
        nd < 0x1_0000_0000_0000_0000,
        0 <= frac < 0x1_0000_0000_0000_0000,
        (e == 10_000_000_000_000_000_000_000_000_000 && w >= e) || (e
            == -10_000_000_000_000_000_000_000_000_000 && w <= e),
    ensures
        decimal_bits(d, w - frac) == decimal_bits(d, e - frac),
{
    let k1 = e - frac;
    let k2 = w - frac;
    lemma_ten_pow(0);
    lemma_ten_pow(if k1 < 0 { (-k1) as nat } else { 0 });
    lemma_ten_pow(if k2 < 0 { (-k2) as nat } else { 0 });
    let m1 = decimal_den(k1);
    let m2 = decimal_den(k2);
    let n1 = decimal_num(d, k1);
    let n2 = decimal_num(d, k2);
    if nd == 0 {
        lemma_zero_nearest(k1);
        lemma_zero_nearest(k2);
        nearest_is_unique(0, decimal_bits(d, k1), n1, m1);
        nearest_is_unique(0, decimal_bits(d, k2), n2, m2);
    } else if e > 0 {
        lemma_huge(d, nd, k1);
        lemma_huge(d, nd, k2);
        nearest_is_unique(INFINITE as nat, decimal_bits(d, k1), n1, m1);
        nearest_is_unique(INFINITE as nat, decimal_bits(d, k2), n2, m2);
    } else {
        lemma_tiny(d, nd, k1);
        lemma_tiny(d, nd, k2);
        nearest_is_unique(0, decimal_bits(d, k1), n1, m1);
        nearest_is_unique(0, decimal_bits(d, k2), n2, m2);
    }
}

pub(crate) proof fn lemma_zero_nearest(k: int)
    ensures
        is_nearest(0, decimal_num(0, k), decimal_den(k)),
{
    let den = decimal_den(k);
    lemma_ten_pow(if k < 0 { (-k) as nat } else { 0 });
    lemma_scaled_step(0);
    assert(0 * ten_pow(if k > 0 { k as nat } else { 0 }) == 0);
    assert(0 * two_pow(1074) == 0);
    assert((scaled(0) + scaled(1)) * den > 0) by (nonlinear_arith)
        requires
            scaled(0) + scaled(1) >= 1,
            den > 0,
    ;
}

/// Read a number from characters.
pub fn parse_chars(t: &[char]) -> (r: Option<Scalar>)
    ensures
        r == parsed(t@),
{
    let signed: bool = t.len() > 0 && (t[0] == '-' || t[0] == '+');
    if signed {
        let neg: bool = t[0] == '-';
        let mut body: Vec<char> = Vec::new();
        let mut i: usize = 1;
        while i < t.len()
            invariant
                1 <= i <= t.len(),
                body@ =~= t@.subrange(1, i as int),
            decreases t.len() - i,
        {
            body.push(t[i]);
            i = i + 1;
        }
        assert(body@ =~= t@.skip(1));
        match unsigned_number(&body) {
            None => None,
            Some(b) => Some(Scalar { bits: if neg { b + SIGN } else { b } }),
        }
    } else {
        match unsigned_number(t) {
            None => None,
            Some(b) => Some(Scalar { bits: b }),
        }
    }
}

/// Read a number from text.
pub fn parse_number(t: &str) -> (r: Option<Scalar>)
    ensures
        r == parsed(t@),
{
    let v = chars_of(t);
    parse_chars(&v)
}

} // verus!
