//! Natural numbers of any size, as little-endian sequences of 64-bit limbs.
//!
//! Only the operations that exact conversion between decimal and binary
//! numbers needs are here: multiply by a word and add a word, multiply by a
//! power of two or ten, subtract, and compare.

use vstd::prelude::*;

verus! {

/// One more than the largest limb.
pub const LIMB: u128 = 0x1_0000_0000_0000_0000;

/// The number that a little-endian sequence of limbs stands for.
pub open spec fn value(s: Seq<u64>) -> nat
    decreases s.len(),
{
    if s.len() == 0 {
        0
    } else {
        value(s.drop_last()) + s.last() as nat * limb_pow((s.len() - 1) as nat)
    }
}

/// `base^n`.
pub open spec fn npow(base: nat, n: nat) -> nat
    decreases n,
{
    if n == 0 {
        1
    } else {
        base * npow(base, (n - 1) as nat)
    }
}

/// `2^(64 * n)`.
pub open spec fn limb_pow(n: nat) -> nat {
    npow(LIMB as nat, n)
}

/// `10^n`.
pub open spec fn ten_pow(n: nat) -> nat {
    npow(10, n)
}

/// `2^n`.
pub open spec fn two_pow(n: nat) -> nat {
    npow(2, n)
}

/// How two numbers stand to each other.
#[derive(Clone, Copy, Debug, PartialEq, Eq, Structural)]
pub enum Side {
    Below,
    Same,
    Above,
}

pub open spec fn side_of(a: int, b: int) -> Side {
    if a < b {
        Side::Below
    } else if a == b {
        Side::Same
    } else {
        Side::Above
    }
}

pub proof fn lemma_npow(base: nat, n: nat)
    requires
        base > 0,
    ensures
        npow(base, n) > 0,
        npow(base, n + 1) == base * npow(base, n),
        npow(base, 0) == 1,
    decreases n,
{
    if n > 0 {
        let m = (n - 1) as nat;
        lemma_npow(base, m);
        assert(base * npow(base, m) > 0) by (nonlinear_arith)
            requires
                base > 0,
                npow(base, m) > 0,
        ;
    }
}

pub proof fn lemma_npow_add(base: nat, a: nat, b: nat)
    ensures
        npow(base, a + b) == npow(base, a) * npow(base, b),
    decreases a,
{
    if a == 0 {
        assert(1 * npow(base, b) == npow(base, b));
    } else {
        let c = (a - 1) as nat;
        lemma_npow_add(base, c, b);
        assert((a + b - 1) as nat == c + b);
        let x = npow(base, c);
        let y = npow(base, b);
        assert(base * (x * y) == (base * x) * y) by (nonlinear_arith);
    }
}

pub proof fn lemma_npow_mono(base: nat, a: nat, b: nat)
    requires
        base > 0,
        a <= b,
    ensures
        npow(base, a) <= npow(base, b),
{
    let c = (b - a) as nat;
    lemma_npow_add(base, a, c);
    lemma_npow(base, c);
    let x = npow(base, a);
    let y = npow(base, c);
    assert(x <= x * y) by (nonlinear_arith)
        requires
            y >= 1,
    ;
}

pub proof fn lemma_limb_pow(n: nat)
    ensures
        limb_pow(n) > 0,
        limb_pow(n + 1) == LIMB as nat * limb_pow(n),
        limb_pow(0) == 1,
{
    lemma_npow(LIMB as nat, n);
}

pub proof fn lemma_ten_pow(n: nat)
    ensures
        ten_pow(n) > 0,
        ten_pow(n + 1) == 10 * ten_pow(n),
        ten_pow(0) == 1,
{
    lemma_npow(10, n);
}

pub proof fn lemma_two_pow(n: nat)
    ensures
        two_pow(n) > 0,
        two_pow(n + 1) == 2 * two_pow(n),
        two_pow(0) == 1,
{
    lemma_npow(2, n);
}

pub proof fn lemma_ten_pow_add(a: nat, b: nat)
    ensures
        ten_pow(a + b) == ten_pow(a) * ten_pow(b),
{
    lemma_npow_add(10, a, b);
}

pub proof fn lemma_two_pow_add(a: nat, b: nat)
    ensures
        two_pow(a + b) == two_pow(a) * two_pow(b),
{
    lemma_npow_add(2, a, b);
}

pub proof fn lemma_ten_pow_mono(a: nat, b: nat)
    requires
        a <= b,
    ensures
        ten_pow(a) <= ten_pow(b),
{
    lemma_npow_mono(10, a, b);
}

pub proof fn lemma_two_pow_mono(a: nat, b: nat)
    requires
        a <= b,
    ensures
        two_pow(a) <= two_pow(b),
{
    lemma_npow_mono(2, a, b);
}

pub proof fn lemma_two_pow_words()
    ensures
        two_pow(52) == 0x10_0000_0000_0000nat,
        two_pow(62) == 0x4000_0000_0000_0000nat,
        two_pow(64) == LIMB as nat,
{
    assert(two_pow(4) == 16) by {
        reveal_with_fuel(npow, 5);
    }
    assert(two_pow(2) == 4) by {
        reveal_with_fuel(npow, 3);
    }
    lemma_two_pow_add(4, 4);
    lemma_two_pow_add(8, 8);
    lemma_two_pow_add(16, 16);
    lemma_two_pow_add(32, 32);
    lemma_two_pow_add(62, 2);
    lemma_two_pow_add(32, 16);
    lemma_two_pow_add(48, 4);
    assert(16nat * 16 == 256);
    assert(256nat * 256 == 65536);
    assert(65536nat * 65536 == 0x1_0000_0000);
    assert(0x1_0000_0000nat * 0x1_0000_0000 == 0x1_0000_0000_0000_0000);
    assert(0x1_0000_0000nat * 65536 == 0x1_0000_0000_0000);
    assert(0x1_0000_0000_0000nat * 16 == 0x10_0000_0000_0000);
}

/// A sequence of limbs stays below the next power.
pub proof fn lemma_value_bound(s: Seq<u64>)
    ensures
        value(s) < limb_pow(s.len()),
    decreases s.len(),
{
    if s.len() == 0 {
        lemma_limb_pow(0);
    } else {
        let n = (s.len() - 1) as nat;
        lemma_value_bound(s.drop_last());
        lemma_limb_pow(n);
        let p = limb_pow(n);
        assert(s.last() as nat * p <= (LIMB - 1) as nat * p) by (nonlinear_arith)
            requires
                s.last() as nat <= (LIMB - 1) as nat,
        ;
        assert((LIMB - 1) as nat * p + p == LIMB as nat * p) by (nonlinear_arith);
    }
}

pub proof fn lemma_value_push(s: Seq<u64>, x: u64)
    ensures
        value(s.push(x)) == value(s) + x as nat * limb_pow(s.len()),
{
    assert(s.push(x).drop_last() =~= s);
}

/// Leading zero limbs do not count.
proof fn lemma_value_zero_top(s: Seq<u64>, n: nat)
    requires
        n <= s.len(),
        forall|i: int| n <= i < s.len() ==> s[i] == 0,
    ensures
        value(s) == value(s.take(n as int)),
    decreases s.len() - n,
{
    if n == s.len() {
        assert(s.take(n as int) =~= s);
    } else {
        lemma_value_zero_top(s.drop_last(), n);
        assert(s.drop_last().take(n as int) =~= s.take(n as int));
        assert(s.last() as nat * limb_pow((s.len() - 1) as nat) == 0);
    }
}

/// `v * m + a`.
pub fn mul_add(v: &Vec<u64>, m: u64, a: u64) -> (r: Vec<u64>)
    ensures
        value(r@) == value(v@) * m as nat + a as nat,
{
    let mut out: Vec<u64> = Vec::new();
    let mut carry: u64 = a;
    let mut i: usize = 0;
    proof {
        lemma_limb_pow(0);
        assert(v@.take(0) =~= Seq::empty());
        assert(value(v@.take(0)) == 0);
        assert(0 * m as nat == 0);
        assert(carry as nat * 1 == carry as nat);
    }
    while i < v.len()
        invariant
            i <= v.len(),
            out.len() == i,
            value(out@) + carry as nat * limb_pow(i as nat) == value(v@.take(i as int)) * m as nat
                + a as nat,
        decreases v.len() - i,
    {
        let d: u64 = v[i];
        assert(d as int * m as int + carry as int <= (LIMB - 1) * (LIMB - 1) + (LIMB - 1))
            by (nonlinear_arith)
            requires
                0 <= d as int <= LIMB - 1,
                0 <= m as int <= LIMB - 1,
                0 <= carry as int <= LIMB - 1,
        ;
        assert(0 <= d as int * m as int) by (nonlinear_arith)
            requires
                0 <= d as int,
                0 <= m as int,
        ;
        let t: u128 = (d as u128) * (m as u128) + (carry as u128);
        let low: u64 = (t % LIMB) as u64;
        let high: u64 = (t / LIMB) as u64;
        proof {
            let p = limb_pow(i as nat);
            let old_out = out@;
            let old_carry = carry as nat;
            lemma_limb_pow(i as nat);
            lemma_value_push(out@, low);
            assert(v@.take(i + 1).drop_last() =~= v@.take(i as int));
            assert(v@.take(i + 1).last() == d);
            let dv = d as nat;
            let mv = m as nat;
            let tv = value(v@.take(i as int));
            assert(high as nat * (LIMB as nat * p) + low as nat * p == t as nat * p)
                by (nonlinear_arith)
                requires
                    t as nat == high as nat * LIMB as nat + low as nat,
            ;
            assert(t as nat * p == dv * mv * p + old_carry * p) by (nonlinear_arith)
                requires
                    t as nat == dv * mv + old_carry,
            ;
            assert((tv + dv * p) * mv == tv * mv + dv * mv * p) by (nonlinear_arith);
        }
        out.push(low);
        carry = high;
        i = i + 1;
    }
    assert(v@.take(i as int) =~= v@);
    if carry != 0 {
        proof {
            lemma_value_push(out@, carry);
        }
        out.push(carry);
    }
    out
}

/// `10^k * v`.
pub fn mul_ten_pow(v: &Vec<u64>, k: u128) -> (r: Vec<u64>)
    ensures
        value(r@) == value(v@) * ten_pow(k as nat),
{
    let mut out: Vec<u64> = mul_add(v, 1, 0);
    let mut i: u128 = 0;
    proof {
        lemma_ten_pow(0);
    }
    while i < k
        invariant
            i <= k,
            value(out@) == value(v@) * ten_pow(i as nat),
        decreases k - i,
    {
        out = mul_add(&out, 10, 0);
        proof {
            lemma_ten_pow(i as nat);
            let p = ten_pow(i as nat);
            assert(value(v@) * p * 10 == value(v@) * (10 * p)) by (nonlinear_arith);
        }
        i = i + 1;
    }
    out
}

spec fn zeros(n: nat) -> Seq<u64> {
    Seq::new(n, |i: int| 0u64)
}

proof fn lemma_value_shift(s: Seq<u64>, n: nat)
    ensures
        value(zeros(n) + s) == value(s) * limb_pow(n),
    decreases s.len(),
{
    if s.len() == 0 {
        assert(zeros(n) + s =~= zeros(n));
        lemma_value_zero_top(zeros(n), 0);
        assert(zeros(n).take(0) =~= Seq::empty());
        assert(0 * limb_pow(n) == 0);
    } else {
        let t = s.drop_last();
        lemma_value_shift(t, n);
        let w = zeros(n) + s;
        assert(w.drop_last() =~= zeros(n) + t);
        let k = (s.len() - 1) as nat;
        lemma_npow_add(LIMB as nat, n, k);
        lemma_limb_pow(n);
        lemma_limb_pow(k);
        lemma_limb_pow((n + k) as nat);
        let a = limb_pow(n);
        let b = limb_pow(k);
        let x = s.last() as nat;
        assert(limb_pow((n + k) as nat) == a * b);
        assert((value(t) + x * b) * a == value(t) * a + x * (a * b)) by (nonlinear_arith);
    }
}

proof fn lemma_limb_is_two_pow(n: nat)
    ensures
        limb_pow(n) == two_pow((64 * n) as nat),
    decreases n,
{
    if n == 0 {
        lemma_limb_pow(0);
        lemma_two_pow(0);
    } else {
        let m = (n - 1) as nat;
        lemma_limb_is_two_pow(m);
        lemma_limb_pow(m);
        lemma_two_pow_add(64, (64 * m) as nat);
        assert(two_pow(64) == LIMB as nat) by {
            lemma_two_pow_words();
        }
    }
}

/// `2^k * v`.
pub fn mul_two_pow(v: &Vec<u64>, k: u64) -> (r: Vec<u64>)
    requires
        k <= 4096,
    ensures
        value(r@) == value(v@) * two_pow(k as nat),
{
    let whole: u64 = k / 64;
    let rest: u64 = k % 64;
    let mut word: u64 = 1;
    let mut i: u64 = 0;
    proof {
        lemma_two_pow(0);
    }
    while i < rest
        invariant
            i <= rest < 64,
            word as nat == two_pow(i as nat),
        decreases rest - i,
    {
        proof {
            lemma_two_pow(i as nat);
            lemma_two_pow_mono(i as nat, 62);
            assert(two_pow(62) == 0x4000_0000_0000_0000nat) by {
                lemma_two_pow_words();
            }
        }
        word = word * 2;
        i = i + 1;
    }
    let scaled = mul_add(v, word, 0);
    let mut out: Vec<u64> = Vec::new();
    let mut j: u64 = 0;
    while j < whole
        invariant
            j <= whole <= 64,
            out@ =~= zeros(j as nat),
        decreases whole - j,
    {
        out.push(0);
        j = j + 1;
    }
    let mut n: usize = 0;
    while n < scaled.len()
        invariant
            n <= scaled.len(),
            out@ =~= zeros(whole as nat) + scaled@.take(n as int),
        decreases scaled.len() - n,
    {
        out.push(scaled[n]);
        n = n + 1;
    }
    proof {
        assert(scaled@.take(n as int) =~= scaled@);
        lemma_value_shift(scaled@, whole as nat);
        lemma_limb_is_two_pow(whole as nat);
        lemma_two_pow_add(rest as nat, (64 * whole) as nat);
        let a = two_pow(rest as nat);
        let b = two_pow((64 * whole) as nat);
        assert(value(v@) * a * b == value(v@) * (a * b)) by (nonlinear_arith);
    }
    out
}

fn significant(v: &Vec<u64>) -> (n: usize)
    ensures
        n <= v.len(),
        value(v@) == value(v@.take(n as int)),
        n > 0 ==> v[n - 1] != 0,
{
    let mut n: usize = v.len();
    while n > 0 && v[n - 1] == 0
        invariant
            n <= v.len(),
            forall|i: int| n <= i < v.len() ==> v[i] == 0,
        decreases n,
    {
        n = n - 1;
    }
    proof {
        lemma_value_zero_top(v@, n as nat);
    }
    n
}

proof fn lemma_lead(s: Seq<u64>)
    requires
        s.len() > 0,
        s.last() != 0,
    ensures
        value(s) >= limb_pow((s.len() - 1) as nat),
{
    let p = limb_pow((s.len() - 1) as nat);
    assert(s.last() as nat * p >= p) by (nonlinear_arith)
        requires
            s.last() as nat >= 1,
    ;
}

/// Compare two numbers.
pub fn side(a: &Vec<u64>, b: &Vec<u64>) -> (r: Side)
    ensures
        r == side_of(value(a@) as int, value(b@) as int),
{
    let la: usize = significant(a);
    let lb: usize = significant(b);
    if la != lb {
        proof {
            let sa = a@.take(la as int);
            let sb = b@.take(lb as int);
            lemma_value_bound(sa);
            lemma_value_bound(sb);
            if la < lb {
                lemma_lead(sb);
                lemma_npow_mono(LIMB as nat, la as nat, (lb - 1) as nat);
                lemma_limb_pow(la as nat);
            } else {
                lemma_lead(sa);
                lemma_npow_mono(LIMB as nat, lb as nat, (la - 1) as nat);
                lemma_limb_pow(lb as nat);
            }
        }
        return if la < lb { Side::Below } else { Side::Above };
    }
    let mut i: usize = la;
    while i > 0
        invariant
            i <= la,
            la <= a.len(),
            la <= b.len(),
            value(a@) - value(b@) == value(a@.take(i as int)) - value(b@.take(i as int)),
        decreases i,
    {
        let x: u64 = a[i - 1];
        let y: u64 = b[i - 1];
        proof {
            let k = (i - 1) as nat;
            let sa = a@.take(i as int);
            let sb = b@.take(i as int);
            assert(sa.drop_last() =~= a@.take(i - 1));
            assert(sb.drop_last() =~= b@.take(i - 1));
            lemma_value_bound(sa.drop_last());
            lemma_value_bound(sb.drop_last());
            let p = limb_pow(k);
            if x < y {
                assert(x as nat * p + p <= y as nat * p) by (nonlinear_arith)
                    requires
                        x as nat + 1 <= y as nat,
                ;
            } else if y < x {
                assert(y as nat * p + p <= x as nat * p) by (nonlinear_arith)
                    requires
                        y as nat + 1 <= x as nat,
                ;
            }
        }
        if x < y {
            return Side::Below;
        }
        if y < x {
            return Side::Above;
        }
        i = i - 1;
    }
    Side::Same
}

/// `a - b`, where `b` is not the larger.
pub fn minus(a: &Vec<u64>, b: &Vec<u64>) -> (r: Vec<u64>)
    requires
        value(b@) <= value(a@),
    ensures
        value(r@) == value(a@) - value(b@),
{
    let lb: usize = significant(b);
    let mut out: Vec<u64> = Vec::new();
    let mut borrow: u64 = 0;
    let mut i: usize = 0;
    let ghost mut done: nat = 0;
    proof {
        lemma_limb_pow(0);
        assert(a@.take(0) =~= Seq::empty());
        assert(b@.take(0) =~= Seq::empty());
        if lb > a.len() {
            lemma_lead(b@.take(lb as int));
            lemma_value_bound(a@);
            lemma_npow_mono(LIMB as nat, a.len() as nat, (lb - 1) as nat);
            lemma_limb_pow(a.len() as nat);
        }
    }
    while i < a.len()
        invariant
            i <= a.len(),
            lb <= b.len(),
            lb <= a.len(),
            out.len() == i,
            borrow <= 1,
            done == value(b@.take(if i <= lb { i as int } else { lb as int })),
            value(out@) + done == value(a@.take(i as int)) + borrow as nat * limb_pow(i as nat),
        decreases a.len() - i,
    {
        let x: u64 = a[i];
        let y: u64 = if i < lb { b[i] } else { 0 };
        let need: u128 = (y as u128) + (borrow as u128);
        let (z, nb): (u64, u64) = if (x as u128) >= need {
            (((x as u128) - need) as u64, 0u64)
        } else {
            ((((x as u128) + LIMB) - need) as u64, 1u64)
        };
        proof {
            let p = limb_pow(i as nat);
            lemma_limb_pow(i as nat);
            lemma_value_push(out@, z);
            assert(a@.take(i + 1).drop_last() =~= a@.take(i as int));
            let xv = x as nat;
            let yv = y as nat;
            let zv = z as nat;
            let ob = borrow as nat;
            let nbv = nb as nat;
            assert(zv + yv + ob == xv + nbv * LIMB as nat);
            assert(zv * p + yv * p + ob * p == xv * p + nbv * (LIMB as nat * p))
                by (nonlinear_arith)
                requires
                    zv + yv + ob == xv + nbv * LIMB as nat,
            ;
            if i < lb {
                assert(b@.take(i + 1).drop_last() =~= b@.take(i as int));
            } else {
                assert(yv * p == 0);
            }
            done = value(b@.take(if i + 1 <= lb { i + 1 } else { lb as int }));
        }
        out.push(z);
        borrow = nb;
        i = i + 1;
    }
    proof {
        assert(a@.take(i as int) =~= a@);
        lemma_value_bound(out@);
        if borrow == 1 {
            assert(1 * limb_pow(i as nat) == limb_pow(i as nat));
        }
    }
    out
}

/// A number of one word.
pub fn from_word(w: u64) -> (r: Vec<u64>)
    ensures
        value(r@) == w as nat,
{
    let v: Vec<u64> = Vec::new();
    let r = mul_add(&v, 1, w);
    proof {
        assert(value(v@) == 0);
    }
    r
}

/// `a + b`.
pub fn plus(a: &Vec<u64>, b: &Vec<u64>) -> (r: Vec<u64>)
    ensures
        value(r@) == value(a@) + value(b@),
{
    let n: usize = if a.len() >= b.len() { a.len() } else { b.len() };
    let mut out: Vec<u64> = Vec::new();
    let mut carry: u64 = 0;
    let mut i: usize = 0;
    proof {
        lemma_limb_pow(0);
        assert(a@.take(0) =~= Seq::empty());
        assert(b@.take(0) =~= Seq::empty());
    }
    while i < n
        invariant
            i <= n,
            n == (if a.len() >= b.len() { a.len() } else { b.len() }),
            out.len() == i,
            carry <= 1,
            value(out@) + carry as nat * limb_pow(i as nat) == value(
                a@.take(if i <= a.len() { i as int } else { a.len() as int }),
            ) + value(b@.take(if i <= b.len() { i as int } else { b.len() as int })),
        decreases n - i,
    {
        let x: u64 = if i < a.len() { a[i] } else { 0 };
        let y: u64 = if i < b.len() { b[i] } else { 0 };
        let t: u128 = (x as u128) + (y as u128) + (carry as u128);
        let (z, nc): (u64, u64) = if t >= LIMB {
            ((t - LIMB) as u64, 1u64)
        } else {
            (t as u64, 0u64)
        };
        proof {
            let p = limb_pow(i as nat);
            lemma_limb_pow(i as nat);
            lemma_value_push(out@, z);
            let xv = x as nat;
            let yv = y as nat;
            let zv = z as nat;
            let oc = carry as nat;
            let ncv = nc as nat;
            assert(zv * p + ncv * (LIMB as nat * p) == xv * p + yv * p + oc * p)
                by (nonlinear_arith)
                requires
                    zv + ncv * LIMB as nat == xv + yv + oc,
            ;
            if i < a.len() {
                assert(a@.take(i + 1).drop_last() =~= a@.take(i as int));
            } else {
                assert(xv * p == 0);
            }
            if i < b.len() {
                assert(b@.take(i + 1).drop_last() =~= b@.take(i as int));
            } else {
                assert(yv * p == 0);
            }
        }
        out.push(z);
        carry = nc;
        i = i + 1;
    }
    proof {
        assert(a@.take(a.len() as int) =~= a@);
        assert(b@.take(b.len() as int) =~= b@);
    }
    if carry != 0 {
        proof {
            lemma_value_push(out@, carry);
        }
        out.push(carry);
    }
    out
}

} // verus!
