//! Writing a number in decimal.
//!
//! A positive number `v` has a decade, the `p` with `10^(p-1) <= v < 10^p`, and
//! for each `n` its leading `n` digits, the whole part of `v / 10^(p-n)`. Both
//! notations here are stated over these.

use vstd::arithmetic::div_mod::lemma_fundamental_div_mod_converse;
use vstd::prelude::*;

use crate::big::{
    from_word, lemma_ten_pow, lemma_two_pow, minus, mul_add, mul_ten_pow, mul_two_pow, side,
    side_of, ten_pow, two_pow, value, Side,
};
use crate::numeral::{bits_of_decimal, lemma_wide, take_digits};
use crate::scalar::{
    decimal_bits, decimal_den, decimal_num, lemma_scaled_mono, lemma_scaled_step, scaled,
    scaled_times, Scalar, INFINITE, SIGN,
};
use crate::text::{
    char_of_digit, chars_of, decimal, digit_char, digit_value, digits_value, has_char, is_digit,
    push_decimal, push_signed, push_text, signed_decimal,
};

verus! {

/// Is the number with pattern `b` below `10^p`?
pub open spec fn below_ten_pow(b: nat, p: int) -> bool {
    scaled(b) * decimal_den(p) < decimal_num(1, p)
}

pub open spec fn is_decade(b: nat, p: int) -> bool {
    below_ten_pow(b, p) && !below_ten_pow(b, p - 1)
}

/// The `p` with `10^(p-1) <= v < 10^p`.
pub open spec fn decade(b: nat) -> int {
    choose|p: int| is_decade(b, p)
}

/// `v / 10^(p-n)` as a fraction, for the decade `p`: the numerator.
pub open spec fn lead_num(b: nat, n: nat) -> nat {
    scaled(b) * decimal_den(decade(b) - 1) * ten_pow((n - 1) as nat)
}

/// The denominator.
pub open spec fn lead_den(b: nat) -> nat {
    decimal_num(1, decade(b) - 1)
}

/// The leading `n` digits, as a number.
pub open spec fn lead(b: nat, n: nat) -> nat {
    lead_num(b, n) / lead_den(b)
}

/// What is left behind the leading `n` digits, against one half.
pub open spec fn tail(b: nat, n: nat) -> Side {
    side_of(2 * (lead_num(b, n) % lead_den(b)) as int, lead_den(b) as int)
}

pub(crate) proof fn lemma_den_num(p: int)
    ensures
        decimal_den(p) > 0,
        decimal_num(1, p) > 0,
        p >= 0 ==> decimal_den(p) == 1 && decimal_den(p + 1) == 1 && decimal_num(1, p + 1) == 10
            * decimal_num(1, p),
        p < 0 ==> decimal_den(p) == 10 * decimal_den(p + 1) && decimal_num(1, p) == two_pow(1074)
            && decimal_num(1, p + 1) == two_pow(1074),
{
    lemma_ten_pow(0);
    lemma_two_pow(1074);
    let w = two_pow(1074);
    if p >= 0 {
        lemma_ten_pow(p as nat);
        let t = ten_pow(p as nat);
        assert(1 * t * w > 0) by (nonlinear_arith)
            requires
                t > 0,
                w > 0,
        ;
        assert(1 * (10 * t) * w == 10 * (1 * t * w)) by (nonlinear_arith);
        assert(ten_pow((p + 1) as nat) == 10 * t);
        if p == 0 {
            assert(1 * ten_pow(0) * w == 1 * t * w);
        }
    } else {
        lemma_ten_pow((-p - 1) as nat);
        assert((-p - 1) as nat + 1 == (-p) as nat);
        assert(1 * 1 * w == w) by (nonlinear_arith);
    }
}

proof fn lemma_below_step(b: nat, p: int)
    requires
        below_ten_pow(b, p),
    ensures
        below_ten_pow(b, p + 1),
{
    lemma_den_num(p);
    let s = scaled(b);
    let d = decimal_den(p);
    let e = decimal_den(p + 1);
    assert(s * e <= s * d) by (nonlinear_arith)
        requires
            e <= d,
    ;
}

pub(crate) proof fn lemma_below_mono(b: nat, p: int, q: int)
    requires
        below_ten_pow(b, p),
        p <= q,
    ensures
        below_ten_pow(b, q),
    decreases q - p,
{
    if p < q {
        lemma_below_mono(b, p, q - 1);
        lemma_below_step(b, q - 1);
    }
}

/// A number has one decade.
pub proof fn decade_is_unique(b: nat, p: int, q: int)
    requires
        is_decade(b, p),
        is_decade(b, q),
    ensures
        p == q,
{
    if p < q {
        lemma_below_mono(b, p, q - 1);
    } else if q < p {
        lemma_below_mono(b, q, p - 1);
    }
}

/// `10^k` over `2^-1074`, as a fraction.
fn ten_fraction(p: i64) -> (r: (Vec<u64>, Vec<u64>))
    requires
        -1000 <= p <= 1000,
    ensures
        value(r.0@) == decimal_num(1, p as int),
        value(r.1@) == decimal_den(p as int),
{
    let one = from_word(1);
    proof {
        lemma_ten_pow(0);
    }
    if p >= 0 {
        let t = mul_ten_pow(&one, p as u128);
        let n = mul_two_pow(&t, 1074);
        (n, one)
    } else {
        let n = mul_two_pow(&one, 1074);
        let t = mul_ten_pow(&one, (-p) as u128);
        proof {
            let q = ten_pow((-p) as nat);
            assert(1 * q == q);
        }
        (n, t)
    }
}

fn is_below(b: u64, p: i64) -> (r: bool)
    requires
        b <= INFINITE,
        -1000 <= p <= 1000,
    ensures
        r == below_ten_pow(b as nat, p as int),
{
    let (n, d) = ten_fraction(p);
    let a = scaled_times(b, &d);
    side(&a, &n) == Side::Below
}

/// The decade of a positive number.
fn find_decade(b: u64) -> (p: i64)
    requires
        0 < b < INFINITE,
    ensures
        p == decade(b as nat),
        is_decade(b as nat, p as int),
        -402 < p <= 402,
{
    let ghost bb = b as nat;
    let mut lo: i64 = -402;
    let mut hi: i64 = 402;
    proof {
        lemma_wide();
        lemma_scaled_step(0);
        lemma_scaled_mono(0, bb);
        lemma_scaled_mono(bb, INFINITE as nat);
        lemma_ten_pow(0);
        lemma_two_pow(1074);
        let s = scaled(bb);
        let w = two_pow(1074);
        let t = ten_pow(402);
        assert(1 * 1 * w == w) by (nonlinear_arith);
        assert(s * t >= t) by (nonlinear_arith)
            requires
                s >= 1,
        ;
        let a = two_pow(1024);
        assert(1 * t * w >= a * w) by (nonlinear_arith)
            requires
                t >= a,
        ;
        assert(s * 1 == s);
    }
    while hi - lo > 1
        invariant
            -402 <= lo < hi <= 402,
            bb == b as nat,
            b < INFINITE,
            below_ten_pow(bb, hi as int),
            !below_ten_pow(bb, lo as int),
        decreases hi - lo,
    {
        let mid: i64 = lo + (hi - lo) / 2;
        if is_below(b, mid) {
            hi = mid;
        } else {
            lo = mid;
        }
    }
    proof {
        assert(is_decade(bb, hi as int));
        decade_is_unique(bb, hi as int, decade(bb));
    }
    hi
}

/// One digit of a quotient: `r == q * d + rest` with `rest` below `d`.
fn one_digit(r: Vec<u64>, d: &Vec<u64>) -> (out: (u64, Vec<u64>))
    requires
        value(r@) < 10 * value(d@),
    ensures
        out.0 < 10,
        value(r@) == out.0 as nat * value(d@) + value(out.1@),
        value(out.1@) < value(d@),
{
    let ghost whole = value(r@);
    let ghost dv = value(d@);
    let mut q: u64 = 0;
    let mut rest = r;
    proof {
        assert(0 * dv == 0);
    }
    while side(&rest, d) != Side::Below
        invariant
            dv == value(d@),
            whole < 10 * dv,
            whole == q as nat * dv + value(rest@),
            q < 10,
        decreases value(rest@),
    {
        rest = minus(&rest, d);
        proof {
            let q1 = (q + 1) as nat;
            let q0 = q as nat;
            assert(q1 * dv == q0 * dv + dv) by (nonlinear_arith)
                requires
                    q1 == q0 + 1,
            ;
            assert(q1 < 10) by (nonlinear_arith)
                requires
                    q1 * dv <= whole,
                    whole < 10 * dv,
            ;
            if dv == 0 {
                assert(false);
            }
        }
        q = q + 1;
    }
    (q, rest)
}

/// The leading `n` digits of a positive number with decade `p`, and what is left.
fn leading(b: u64, p: i64, n: usize) -> (r: (Vec<char>, Side))
    requires
        0 < b < INFINITE,
        is_decade(b as nat, p as int),
        p == decade(b as nat),
        -402 < p <= 402,
        n > 0,
    ensures
        r.0.len() == n,
        forall|i: int| 0 <= i < n ==> is_digit(#[trigger] r.0[i]),
        digits_value(r.0@) == lead(b as nat, n as nat),
        r.1 == tail(b as nat, n as nat),
{
    let ghost bb = b as nat;
    let (d, m) = ten_fraction(p - 1);
    let a = scaled_times(b, &m);
    let ghost dv = value(d@);
    let ghost av = value(a@);
    proof {
        lemma_den_num(p - 1);
        lemma_ten_pow(0);
        let s = scaled(bb);
        let x = decimal_den(p as int);
        assert(s * (10 * x) == 10 * (s * x)) by (nonlinear_arith);
        assert(av * ten_pow(0) == av);
    }
    let (q0, r0) = one_digit(a, &d);
    let mut out: Vec<char> = Vec::new();
    out.push(char_of_digit(q0));
    let mut rest = r0;
    let mut i: usize = 1;
    proof {
        assert(out@.drop_last() =~= Seq::empty());
        assert(digits_value(Seq::<char>::empty()) == 0);
        assert(digits_value(out@) == q0);
    }
    while i < n
        invariant
            1 <= i <= n,
            out.len() == i,
            dv == value(d@),
            value(rest@) < dv,
            forall|j: int| 0 <= j < i ==> is_digit(#[trigger] out[j]),
            av * ten_pow((i - 1) as nat) == digits_value(out@) * dv + value(rest@),
        decreases n - i,
    {
        let ghost before = value(rest@);
        let ghost q = digits_value(out@);
        let up = mul_add(&rest, 10, 0);
        let (x, next) = one_digit(up, &d);
        let c = char_of_digit(x);
        let ghost old_out = out@;
        out.push(c);
        proof {
            assert(out@.drop_last() =~= old_out);
            lemma_ten_pow((i - 1) as nat);
            let t = ten_pow((i - 1) as nat);
            assert(av * (10 * t) == 10 * (av * t)) by (nonlinear_arith);
            assert((10 * q + x as nat) * dv == 10 * (q * dv) + x as nat * dv) by (nonlinear_arith);
            assert(10 * (q * dv + before) == 10 * (q * dv) + 10 * before);
            assert(((i - 1) as nat + 1) as nat == i as nat);
        }
        rest = next;
        i = i + 1;
    }
    let twice = mul_add(&rest, 2, 0);
    let s = side(&twice, &d);
    proof {
        let num = lead_num(bb, n as nat);
        lemma_fundamental_div_mod_converse(
            num as int,
            dv as int,
            digits_value(out@) as int,
            value(rest@) as int,
        );
    }
    (out, s)
}

// --------------------------------------------------------------------------
//  Shortest notation
// --------------------------------------------------------------------------
/// Does one of the two `n`-digit decimals round the number read back as it?
pub open spec fn reads_back(b: nat, n: nat) -> bool {
    let e = decade(b) - n;
    decimal_bits(lead(b, n), e) == b || decimal_bits(lead(b, n) + 1, e) == b
}

/// The fewest digits, from `n` on, that read back; 17 always do.
pub open spec fn shortest_len(b: nat, n: nat) -> nat
    decreases 17 - n,
{
    if n >= 17 || reads_back(b, n) {
        n
    } else {
        shortest_len(b, n + 1)
    }
}

/// Of the two decimals with `n` digits the one to write: the one that reads
/// back, and the nearer where both do.
pub open spec fn pick(b: nat, n: nat) -> nat {
    let e = decade(b) - n;
    let f = lead(b, n);
    if decimal_bits(f + 1, e) != b {
        f
    } else if decimal_bits(f, e) != b {
        f + 1
    } else if tail(b, n) == Side::Below {
        f
    } else {
        f + 1
    }
}

/// The digits of the shortest notation, as a number.
pub open spec fn shortest_digits(b: nat) -> nat {
    pick(b, shortest_len(b, 1))
}

/// The power of ten that those digits count.
pub open spec fn shortest_exponent(b: nat) -> int {
    decade(b) - shortest_len(b, 1)
}

/// `n` zeros.
pub open spec fn zeros(n: nat) -> Seq<char> {
    Seq::new(n, |i: int| '0')
}

/// Digits without the zeros at their end.
pub open spec fn trimmed(s: Seq<char>) -> Seq<char>
    decreases s.len(),
{
    if s.len() > 0 && s.last() == '0' {
        trimmed(s.drop_last())
    } else {
        s
    }
}

/// The digits `s`, times `10^e`, written out: no exponent, and no zeros at the
/// end of the fraction.
pub open spec fn written_out(s: Seq<char>, e: int) -> Seq<char> {
    if e >= 0 {
        s + zeros(e as nat)
    } else {
        let whole = if s.len() > -e {
            s.take(s.len() + e)
        } else {
            seq!['0']
        };
        let frac = trimmed(
            if s.len() > -e {
                s.skip(s.len() + e)
            } else {
                zeros((-e - s.len()) as nat) + s
            },
        );
        if frac.len() == 0 {
            whole
        } else {
            whole + seq!['.'] + frac
        }
    }
}

/// The magnitude without the sign bit.
pub open spec fn magnitude(v: Scalar) -> nat {
    if v.bits >= SIGN {
        (v.bits - SIGN) as nat
    } else {
        v.bits as nat
    }
}

pub open spec fn sign_text(v: Scalar) -> Seq<char> {
    if v.bits >= SIGN {
        seq!['-']
    } else {
        Seq::empty()
    }
}

/// The shortest decimal that reads back as the number, written out in full.
pub open spec fn shown(v: Scalar) -> Seq<char> {
    let b = magnitude(v);
    if b > INFINITE {
        "NaN"@
    } else if b == INFINITE {
        sign_text(v) + "inf"@
    } else if b == 0 {
        sign_text(v) + "0"@
    } else {
        sign_text(v) + written_out(decimal(shortest_digits(b)), shortest_exponent(b))
    }
}

/// Digits that do not begin with a zero are the decimal of what they stand for.
pub proof fn lemma_decimal_of_digits(s: Seq<char>)
    requires
        s.len() > 0,
        forall|i: int| 0 <= i < s.len() ==> is_digit(#[trigger] s[i]),
        s[0] != '0',
    ensures
        decimal(digits_value(s)) == s,
        digits_value(s) >= 1,
    decreases s.len(),
{
    let t = s.drop_last();
    let d = digit_value(s.last());
    assert(digit_char(d) == s.last());
    if s.len() == 1 {
        assert(t =~= Seq::empty());
        assert(digits_value(t) == 0);
        assert(decimal(d) =~= s);
    } else {
        assert(t[0] == s[0]);
        assert forall|i: int| 0 <= i < t.len() implies is_digit(#[trigger] t[i]) by {
            assert(t[i] == s[i]);
        }
        lemma_decimal_of_digits(t);
        let v = digits_value(t);
        let n = digits_value(s);
        assert(n == 10 * v + d);
        assert(n / 10 == v && n % 10 == d);
        assert(t.push(s.last()) =~= s);
    }
}

pub(crate) proof fn lemma_digits_bound(s: Seq<char>)
    requires
        forall|i: int| 0 <= i < s.len() ==> is_digit(#[trigger] s[i]),
    ensures
        digits_value(s) < ten_pow(s.len()),
    decreases s.len(),
{
    if s.len() == 0 {
        lemma_ten_pow(0);
    } else {
        let t = s.drop_last();
        assert forall|i: int| 0 <= i < t.len() implies is_digit(#[trigger] t[i]) by {
            assert(t[i] == s[i]);
        }
        lemma_digits_bound(t);
        lemma_ten_pow(t.len());
        assert(is_digit(s[s.len() - 1]));
    }
}

/// A zero in front changes nothing.
proof fn lemma_leading_zero(s: Seq<char>)
    ensures
        digits_value(seq!['0'] + s) == digits_value(s),
    decreases s.len(),
{
    let w = seq!['0'] + s;
    if s.len() == 0 {
        assert(w.drop_last() =~= Seq::empty());
        assert(digits_value(Seq::<char>::empty()) == 0);
        assert(w.last() == '0');
        assert(s =~= Seq::empty());
    } else {
        assert(w.drop_last() =~= seq!['0'] + s.drop_last());
        lemma_leading_zero(s.drop_last());
    }
}

/// Add one to a number given by its digits.
fn increment(s: &Vec<char>) -> (r: Vec<char>)
    requires
        s.len() > 0,
        forall|i: int| 0 <= i < s.len() ==> is_digit(#[trigger] s[i]),
        s[0] != '0',
    ensures
        forall|i: int| 0 <= i < r.len() ==> is_digit(#[trigger] r[i]),
        r.len() > 0,
        r[0] != '0',
        digits_value(r@) == digits_value(s@) + 1,
        r.len() == s.len() || r@ == seq!['1'] + zeros(s.len() as nat),
        r.len() <= s.len() + 1,
{
    let mut i: usize = s.len();
    while i > 0 && s[i - 1] == '9'
        invariant
            i <= s.len(),
            forall|k: int| i <= k < s.len() ==> s[k] == '9',
        decreases i,
    {
        i = i - 1;
    }
    let mut out: Vec<char> = Vec::new();
    if i == 0 {
        out.push('1');
    } else {
        let mut j: usize = 0;
        while j + 1 < i
            invariant
                j + 1 <= i <= s.len(),
                out@ =~= s@.take(j as int),
            decreases i - j,
        {
            out.push(s[j]);
            j = j + 1;
        }
        let c: char = s[i - 1];
        assert(is_digit(s[i - 1]));
        out.push(char_of_digit((c as u32 - '0' as u32 + 1) as u64));
    }
    let ghost stem = out@;
    let ghost base = s@.take(i as int);
    proof {
        if i == 0 {
            assert(base =~= Seq::empty());
            assert(stem.drop_last() =~= Seq::empty());
            assert(digits_value(Seq::<char>::empty()) == 0);
        } else {
            assert(base.drop_last() =~= s@.take(i - 1));
            assert(stem.drop_last() =~= s@.take(i - 1));
        }
        assert(digits_value(stem) == digits_value(base) + 1);
        assert forall|k: int| 0 <= k < stem.len() implies is_digit(#[trigger] stem[k]) by {
            if i > 0 && k < i - 1 {
                assert(stem[k] == s[k]);
            }
        }
        if i > 1 {
            assert(stem[0] == s[0]);
        }
    }
    let mut k: usize = i;
    while k < s.len()
        invariant
            i <= k <= s.len(),
            forall|x: int| i <= x < s.len() ==> s[x] == '9',
            out@ == stem + zeros((k - i) as nat),
            stem.len() == (if i == 0 { 1 } else { i as int }),
            digits_value(out@) == digits_value(s@.take(k as int)) + 1,
        decreases s.len() - k,
    {
        let ghost before = out@;
        out.push('0');
        proof {
            assert(out@ =~= stem + zeros((k + 1 - i) as nat));
            assert(out@.drop_last() =~= before);
            assert(s@.take(k + 1).drop_last() =~= s@.take(k as int));
            assert(s@.take(k + 1).last() == '9');
        }
        k = k + 1;
    }
    proof {
        assert(s@.take(s.len() as int) =~= s@);
        assert forall|x: int| 0 <= x < out.len() implies is_digit(#[trigger] out[x]) by {
            if x < stem.len() {
                assert(out[x] == stem[x]);
                assert(is_digit(stem[x]));
            }
        }
        assert(out[0] == stem[0]);
    }
    out
}

/// The number of some digits.
fn number_of_digits(s: &Vec<char>) -> (r: (Vec<u64>, usize))
    requires
        forall|i: int| 0 <= i < s.len() ==> is_digit(#[trigger] s[i]),
    ensures
        value(r.0@) == digits_value(s@),
        r.1 == 0 ==> value(r.0@) == 0,
        r.1 > 0 ==> ten_pow((r.1 - 1) as nat) <= value(r.0@) < ten_pow(r.1 as nat),
{
    let d: Vec<u64> = Vec::new();
    assert(digits_value(Seq::<char>::empty()) == 0);
    let r = take_digits(s, 0, s.len(), d, 0, Ghost(Seq::empty()));
    assert(Seq::<char>::empty() + s@.subrange(0, s.len() as int) =~= s@);
    r
}

/// The shortest digits of a positive number, and the power of ten they count.
fn shortest(b: u64) -> (r: (Vec<char>, i64))
    requires
        0 < b < INFINITE,
    ensures
        r.0@ == decimal(shortest_digits(b as nat)),
        r.1 == shortest_exponent(b as nat),
        -500 < r.1 < 500,
        0 < r.0.len() <= 18,
{
    let ghost bb = b as nat;
    let p: i64 = find_decade(b);
    let mut n: usize = 1;
    loop
        invariant
            1 <= n <= 17,
            0 < b < INFINITE,
            bb == b as nat,
            p == decade(bb),
            is_decade(bb, p as int),
            -402 < p <= 402,
            shortest_len(bb, 1) == shortest_len(bb, n as nat),
        decreases 18 - n,
    {
        let (c, s) = leading(b, p, n);
        proof {
            lemma_lead_positive(bb, n as nat);
            lemma_first_digit(c@, bb);
        }
        let up = increment(&c);
        let e: i64 = p - (n as i64);
        let (cn, cd) = number_of_digits(&c);
        let (un, ud) = number_of_digits(&up);
        let lo: bool = bits_of_decimal(&cn, cd, e as i128) == b;
        let hi: bool = bits_of_decimal(&un, ud, e as i128) == b;
        if lo || hi || n >= 17 {
            proof {
                lemma_decimal_of_digits(c@);
                lemma_decimal_of_digits(up@);
            }
            return if !hi {
                (c, e)
            } else if !lo {
                (up, e)
            } else if s == Side::Below {
                (c, e)
            } else {
                (up, e)
            };
        }
        n = n + 1;
    }
}

/// The leading digits reach the power of ten that their count allows.
pub(crate) proof fn lemma_lead_positive(b: nat, n: nat)
    requires
        is_decade(b, decade(b)),
        n > 0,
    ensures
        lead(b, n) >= ten_pow((n - 1) as nat),
{
    let p = decade(b);
    let a = scaled(b) * decimal_den(p - 1);
    let d = lead_den(b);
    let t = ten_pow((n - 1) as nat);
    lemma_den_num(p - 1);
    lemma_ten_pow((n - 1) as nat);
    assert(a * t >= d * t) by (nonlinear_arith)
        requires
            a >= d,
    ;
    assert((a * t) / d >= t) by {
        vstd::arithmetic::div_mod::lemma_div_is_ordered((d * t) as int, (a * t) as int, d as int);
        vstd::arithmetic::div_mod::lemma_div_multiples_vanish(t as int, d as int);
    }
}

proof fn lemma_first_digit(c: Seq<char>, b: nat)
    requires
        c.len() > 0,
        forall|i: int| 0 <= i < c.len() ==> is_digit(#[trigger] c[i]),
        digits_value(c) >= ten_pow((c.len() - 1) as nat),
    ensures
        c[0] != '0',
{
    if c[0] == '0' {
        let t = c.skip(1);
        assert(c =~= seq!['0'] + t);
        lemma_leading_zero(t);
        assert forall|i: int| 0 <= i < t.len() implies is_digit(#[trigger] t[i]) by {
            assert(t[i] == c[i + 1]);
        }
        lemma_digits_bound(t);
    }
}

/// How many characters are left when the zeros at the end of `s` are dropped.
fn trimmed_len(s: &Vec<char>) -> (n: usize)
    ensures
        n <= s.len(),
        s@.take(n as int) == trimmed(s@),
{
    let mut n: usize = s.len();
    assert(s@.take(n as int) =~= s@);
    while n > 0 && s[n - 1] == '0'
        invariant
            n <= s.len(),
            trimmed(s@.take(n as int)) == trimmed(s@),
        decreases n,
    {
        assert(s@.take(n as int).drop_last() =~= s@.take(n - 1));
        n = n - 1;
    }
    n
}

fn push_part(out: &mut String, s: &Vec<char>, a: usize, b: usize)
    requires
        a <= b <= s.len(),
    ensures
        final(out)@ == old(out)@ + s@.subrange(a as int, b as int),
{
    let mut i: usize = a;
    assert(out@ =~= old(out)@ + s@.subrange(a as int, a as int));
    while i < b
        invariant
            a <= i <= b <= s.len(),
            out@ == old(out)@ + s@.subrange(a as int, i as int),
        decreases b - i,
    {
        out.push(s[i]);
        i = i + 1;
        assert(out@ =~= old(out)@ + s@.subrange(a as int, i as int));
    }
}

/// Append digits times a power of ten, written out.
fn push_written_out(out: &mut String, s: &Vec<char>, e: i64)
    requires
        -0x1_0000_0000 < e < 0x1_0000_0000,
        s.len() < 0x1_0000_0000,
    ensures
        final(out)@ == old(out)@ + written_out(s@, e as int),
{
    let ghost start = out@;
    if e >= 0 {
        push_part(out, s, 0, s.len());
        assert(s@.subrange(0, s.len() as int) =~= s@);
        let mut i: i64 = 0;
        assert(out@ =~= start + (s@ + zeros(0)));
        while i < e
            invariant
                0 <= i <= e,
                out@ == start + (s@ + zeros(i as nat)),
            decreases e - i,
        {
            out.push('0');
            i = i + 1;
            assert(out@ =~= start + (s@ + zeros(i as nat)));
        }
        return;
    }
    let m: usize = (-e) as usize;
    let mut frac: Vec<char> = Vec::new();
    let ghost whole: Seq<char>;
    if s.len() > m {
        let cut: usize = s.len() - m;
        push_part(out, s, 0, cut);
        proof {
            whole = s@.take(cut as int);
            assert(s@.subrange(0, cut as int) =~= whole);
        }
        let mut i: usize = cut;
        while i < s.len()
            invariant
                cut <= i <= s.len(),
                frac@ =~= s@.subrange(cut as int, i as int),
            decreases s.len() - i,
        {
            frac.push(s[i]);
            i = i + 1;
        }
        assert(frac@ =~= s@.skip(cut as int));
    } else {
        out.push('0');
        proof {
            whole = seq!['0'];
            assert(start.push('0') =~= start + whole);
        }
        let pad: usize = m - s.len();
        let mut i: usize = 0;
        while i < pad
            invariant
                i <= pad,
                frac@ =~= zeros(i as nat),
            decreases pad - i,
        {
            frac.push('0');
            i = i + 1;
        }
        let mut j: usize = 0;
        while j < s.len()
            invariant
                j <= s.len(),
                frac@ =~= zeros(pad as nat) + s@.take(j as int),
            decreases s.len() - j,
        {
            frac.push(s[j]);
            j = j + 1;
        }
        assert(frac@ =~= zeros(pad as nat) + s@);
    }
    let k: usize = trimmed_len(&frac);
    assert(out@ == start + whole);
    if k > 0 {
        out.push('.');
        push_part(out, &frac, 0, k);
        assert(frac@.subrange(0, k as int) =~= frac@.take(k as int));
        assert(out@ =~= start + (whole + seq!['.'] + trimmed(frac@)));
    }
}

/// The number in decimal: the fewest digits that read back as it, written out.
pub fn show(v: Scalar) -> (r: String)
    ensures
        r@ == shown(v),
{
    let neg: bool = v.bits >= SIGN;
    let b: u64 = if neg { v.bits - SIGN } else { v.bits };
    let mut out: String = String::new();
    if b > INFINITE {
        push_text(&mut out, "NaN");
        assert(out@ =~= "NaN"@);
        return out;
    }
    if neg {
        out.push('-');
    }
    assert(out@ =~= sign_text(v));
    if b == INFINITE {
        push_text(&mut out, "inf");
    } else if b == 0 {
        push_text(&mut out, "0");
    } else {
        let (s, e) = shortest(b);
        push_written_out(&mut out, &s, e);
    }
    out
}

/// A notation that shows a point.
pub open spec fn with_point(w: Seq<char>) -> Seq<char> {
    if w.contains('.') {
        w
    } else {
        w + ".0"@
    }
}

/// Digits with a point behind the first one, and a power of ten.
pub open spec fn powered(s: Seq<char>, x: int) -> Seq<char> {
    (if s.len() <= 1 { s } else { s.take(1) + seq!['.'] + s.skip(1) }) + seq!['e'] + signed_decimal(x)
}

/// The shortest decimal, with a point or, from `1e16` on and below `1e-4`, with a
/// power of ten.
pub open spec fn pointed(v: Scalar) -> Seq<char> {
    let b = magnitude(v);
    if b > INFINITE {
        "NaN"@
    } else if b == INFINITE {
        sign_text(v) + "inf"@
    } else if b == 0 {
        sign_text(v) + "0.0"@
    } else {
        let s = decimal(shortest_digits(b));
        let e = shortest_exponent(b);
        let x = e + s.len() - 1;
        sign_text(v) + (if x < -4 || x >= 16 {
            powered(s, x)
        } else {
            with_point(written_out(s, e))
        })
    }
}

/// The number in decimal, so that it shows that it is no integer.
pub fn show_pointed(v: Scalar) -> (r: String)
    ensures
        r@ == pointed(v),
{
    let neg: bool = v.bits >= SIGN;
    let b: u64 = if neg { v.bits - SIGN } else { v.bits };
    let mut out: String = String::new();
    if b > INFINITE {
        push_text(&mut out, "NaN");
        assert(out@ =~= "NaN"@);
        return out;
    }
    if neg {
        out.push('-');
    }
    assert(out@ =~= sign_text(v));
    if b == INFINITE {
        push_text(&mut out, "inf");
        return out;
    }
    if b == 0 {
        push_text(&mut out, "0.0");
        return out;
    }
    let (s, e) = shortest(b);
    let x: i64 = e + (s.len() as i64) - 1;
    let mut t = String::new();
    assert(t@ =~= Seq::empty());
    if x < -4 || x >= 16 {
        if s.len() <= 1 {
            push_part(&mut t, &s, 0, s.len());
            assert(s@.subrange(0, s.len() as int) =~= s@);
            assert(t@ =~= s@);
        } else {
            push_part(&mut t, &s, 0, 1);
            t.push('.');
            push_part(&mut t, &s, 1, s.len());
            assert(t@ =~= s@.take(1) + seq!['.'] + s@.skip(1));
        }
        t.push('e');
        push_signed(&mut t, x);
        assert(t@ =~= powered(s@, x as int));
    } else {
        push_written_out(&mut t, &s, e);
        assert(t@ =~= written_out(s@, e as int));
        if !has_char(&chars_of(&t), '.') {
            push_text(&mut t, ".0");
        }
    }
    push_text(&mut out, &t);
    out
}

// --------------------------------------------------------------------------
//  A number of significant digits
// --------------------------------------------------------------------------
/// The leading `n` digits, rounded: up beyond one half, and at one half to the
/// even digit.
pub open spec fn rounded(b: nat, n: nat) -> nat {
    let f = lead(b, n);
    if tail(b, n) == Side::Above || (tail(b, n) == Side::Same && f % 2 == 1) {
        f + 1
    } else {
        f
    }
}

/// The `n` digits to write.
pub open spec fn rounded_digits(b: nat, n: nat) -> Seq<char> {
    if rounded(b, n) == ten_pow(n) {
        seq!['1'] + zeros((n - 1) as nat)
    } else {
        decimal(rounded(b, n))
    }
}

/// The decade after rounding.
pub open spec fn rounded_decade(b: nat, n: nat) -> int {
    if rounded(b, n) == ten_pow(n) {
        decade(b) + 1
    } else {
        decade(b)
    }
}

/// An exponent, with its sign and at least two digits.
pub open spec fn exponent_text(x: int) -> Seq<char> {
    let m = if x < 0 { (-x) as nat } else { x as nat };
    (if x < 0 { seq!['-'] } else { seq!['+'] }) + (if m < 10 { seq!['0'] } else { Seq::empty() })
        + decimal(m)
}

/// One digit, a point and the rest, without zeros at the end.
pub open spec fn scientific(s: Seq<char>, x: int) -> Seq<char> {
    let t = trimmed(s);
    (if t.len() <= 1 { t } else { t.take(1) + seq!['.'] + t.skip(1) }) + seq!['e'] + exponent_text(x)
}

/// A number with `n` significant digits: with an exponent outside
/// `[1e-4, 1e{n})`, else written out; no zeros at the end of the fraction.
pub open spec fn general(v: Scalar, n: nat) -> Seq<char> {
    let b = magnitude(v);
    if b > INFINITE {
        "nan"@
    } else if b == INFINITE {
        sign_text(v) + "inf"@
    } else if b == 0 {
        sign_text(v) + "0"@
    } else {
        let s = rounded_digits(b, n);
        let p = rounded_decade(b, n);
        sign_text(v) + (if p - 1 < -4 || p - 1 >= n {
            scientific(s, p - 1)
        } else {
            written_out(s, p - n)
        })
    }
}

fn is_odd(c: &Vec<char>) -> (r: bool)
    requires
        c.len() > 0,
        forall|i: int| 0 <= i < c.len() ==> is_digit(#[trigger] c[i]),
    ensures
        r == (digits_value(c@) % 2 == 1),
{
    let last: char = c[c.len() - 1];
    assert(is_digit(c[c.len() - 1]));
    let d: u32 = last as u32 - '0' as u32;
    proof {
        let q = digits_value(c@.drop_last());
        let f = digits_value(c@);
        assert(f == 10 * q + d as nat);
    }
    d % 2 == 1
}

/// The `n` digits to write of a positive number, and its decade after rounding.
fn round_to(b: u64, n: usize) -> (r: (Vec<char>, i64))
    requires
        0 < b < INFINITE,
        n > 0,
    ensures
        r.0@ == rounded_digits(b as nat, n as nat),
        r.1 == rounded_decade(b as nat, n as nat),
        -403 < r.1 < 404,
        r.0.len() == n,
        r.0[0] != '0',
{
    let ghost bb = b as nat;
    let p: i64 = find_decade(b);
    let (c, s) = leading(b, p, n);
    proof {
        lemma_lead_positive(bb, n as nat);
        lemma_first_digit(c@, bb);
        lemma_decimal_of_digits(c@);
        lemma_digits_bound(c@);
    }
    let odd: bool = is_odd(&c);
    if s == Side::Above || (s == Side::Same && odd) {
        let up = increment(&c);
        proof {
            lemma_decimal_of_digits(up@);
            lemma_digits_bound(up@);
        }
        if up.len() > n {
            let mut out: Vec<char> = Vec::new();
            out.push('1');
            let mut i: usize = 1;
            while i < n
                invariant
                    1 <= i <= n,
                    out@ =~= seq!['1'] + zeros((i - 1) as nat),
                decreases n - i,
            {
                out.push('0');
                i = i + 1;
            }
            proof {
                lemma_one_zeros(n as nat);
            }
            return (out, p + 1);
        }
        proof {
            lemma_digits_bound(up@);
        }
        return (up, p);
    }
    (c, p)
}

pub(crate) proof fn lemma_one_zeros(n: nat)
    ensures
        digits_value(seq!['1'] + zeros(n)) == ten_pow(n),
    decreases n,
{
    let w = seq!['1'] + zeros(n);
    if n == 0 {
        lemma_ten_pow(0);
        assert(w.drop_last() =~= Seq::empty());
        assert(digits_value(Seq::<char>::empty()) == 0);
        assert(w.last() == '1');
    } else {
        let m = (n - 1) as nat;
        lemma_one_zeros(m);
        lemma_ten_pow(m);
        assert(w.drop_last() =~= seq!['1'] + zeros(m));
        assert(w.last() == '0');
    }
}

/// Append digits in scientific notation.
fn push_scientific(out: &mut String, s: &Vec<char>, x: i64)
    requires
        s.len() > 0,
        s[0] != '0',
        -1000 < x < 1000,
    ensures
        final(out)@ == old(out)@ + scientific(s@, x as int),
{
    let ghost start = out@;
    let k: usize = trimmed_len(s);
    proof {
        lemma_trimmed_first(s@);
    }
    push_part(out, s, 0, 1);
    if k > 1 {
        out.push('.');
        push_part(out, s, 1, k);
    }
    let ghost t = trimmed(s@);
    let ghost m0 = if t.len() <= 1 { t } else { t.take(1) + seq!['.'] + t.skip(1) };
    proof {
        assert(s@.take(k as int) == t);
        assert(t.take(1) =~= s@.subrange(0, 1));
        if k > 1 {
            assert(t.skip(1) =~= s@.subrange(1, k as int));
        } else {
            assert(t =~= s@.subrange(0, 1));
        }
        assert(out@ =~= start + m0);
    }
    out.push('e');
    let m: u64;
    if x < 0 {
        out.push('-');
        m = (-x) as u64;
    } else {
        out.push('+');
        m = x as u64;
    }
    if m < 10 {
        out.push('0');
    }
    push_decimal(out, m);
    assert(out@ =~= start + (m0 + seq!['e'] + exponent_text(x as int)));
}

/// A number with a given number of significant digits, as `%g` writes it; at
/// least one digit is written.
pub fn format_general(v: Scalar, precision: usize) -> (r: String)
    requires
        precision <= 0xffff,
    ensures
        r@ == general(v, if precision == 0 { 1 } else { precision as nat }),
{
    let n: usize = if precision == 0 { 1 } else { precision };
    let neg: bool = v.bits >= SIGN;
    let b: u64 = if neg { v.bits - SIGN } else { v.bits };
    let mut out: String = String::new();
    if b > INFINITE {
        push_text(&mut out, "nan");
        assert(out@ =~= "nan"@);
        return out;
    }
    if neg {
        out.push('-');
    }
    assert(out@ =~= sign_text(v));
    if b == INFINITE {
        push_text(&mut out, "inf");
    } else if b == 0 {
        push_text(&mut out, "0");
    } else {
        let (s, p) = round_to(b, n);
        let x: i64 = p - 1;
        if x < -4 || x >= n as i64 {
            push_scientific(&mut out, &s, x);
        } else {
            push_written_out(&mut out, &s, p - (n as i64));
        }
    }
    out
}

pub(crate) proof fn lemma_trimmed_first(s: Seq<char>)
    requires
        s.len() > 0,
        s[0] != '0',
    ensures
        trimmed(s).len() > 0,
    decreases s.len(),
{
    if s.last() == '0' {
        lemma_trimmed_first(s.drop_last());
    }
}

} // verus!
