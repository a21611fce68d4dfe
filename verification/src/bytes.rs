//! Bytes of binary files: little-endian numbers, padding and bit masks.

use vstd::prelude::*;

verus! {

/// The `k` low bytes of a number, the lowest first.
pub open spec fn le(n: nat, k: nat) -> Seq<u8>
    decreases k,
{
    if k == 0 {
        Seq::empty()
    } else {
        seq![(n % 256) as u8] + le(n / 256, (k - 1) as nat)
    }
}

/// The number that some bytes spell, the lowest first.
pub open spec fn le_value(b: Seq<u8>) -> nat
    decreases b.len(),
{
    if b.len() == 0 {
        0
    } else {
        b[0] as nat + 256 * le_value(b.skip(1))
    }
}

pub open spec fn byte_pow(k: nat) -> nat
    decreases k,
{
    if k == 0 {
        1
    } else {
        256 * byte_pow((k - 1) as nat)
    }
}

pub broadcast proof fn lemma_le_len(n: nat, k: nat)
    ensures
        #[trigger] le(n, k).len() == k,
    decreases k,
{
    if k > 0 {
        lemma_le_len(n / 256, (k - 1) as nat);
    }
}

/// A number that fits its bytes reads back from them.
pub proof fn le_reads_back(n: nat, k: nat)
    requires
        n < byte_pow(k),
    ensures
        le(n, k).len() == k,
        le_value(le(n, k)) == n,
    decreases k,
{
    if k > 0 {
        let m = (k - 1) as nat;
        assert(n / 256 < byte_pow(m));
        le_reads_back(n / 256, m);
        assert(le(n, k).skip(1) =~= le(n / 256, m));
    }
}

pub open spec fn zeros(n: nat) -> Seq<u8> {
    Seq::new(n, |i: int| 0u8)
}

/// Some bytes, with zeros behind them up to an offset.
pub open spec fn padded(b: Seq<u8>, to: int) -> Seq<u8> {
    if b.len() < to {
        b + zeros((to - b.len()) as nat)
    } else {
        b
    }
}

/// The bytes of the first `n` of some pieces, one behind the other.
pub open spec fn stacked(n: int, piece: spec_fn(int) -> Seq<u8>) -> Seq<u8>
    decreases n,
{
    if n <= 0 {
        Seq::empty()
    } else {
        stacked(n - 1, piece) + piece(n - 1)
    }
}

/// Pieces of one size stand at multiples of it.
pub proof fn stacked_in_place(n: int, piece: spec_fn(int) -> Seq<u8>, size: nat, i: int)
    requires
        forall|k: int| 0 <= k < n ==> (#[trigger] piece(k)).len() == size,
        0 <= n,
    ensures
        stacked(n, piece).len() == n * size,
        0 <= i < n ==> 0 <= i * size && (i + 1) * size <= n * size && stacked(n, piece).subrange(
            i * size,
            (i + 1) * size,
        ) == piece(i),
    decreases n,
{
    if n > 0 {
        stacked_in_place(n - 1, piece, size, i);
        assert((n - 1) * size + size == n * size) by (nonlinear_arith);
        if 0 <= i < n {
            assert(0 <= i * size && i * size + size == (i + 1) * size) by (nonlinear_arith)
                requires
                    0 <= i,
            ;
            assert((i + 1) * size <= n * size) by (nonlinear_arith)
                requires
                    i + 1 <= n,
            ;
            let a = stacked(n - 1, piece);
            if i < n - 1 {
                assert((i + 1) * size <= (n - 1) * size) by (nonlinear_arith)
                    requires
                        i + 1 <= n - 1,
                ;
                assert(stacked(n, piece).subrange(i * size, (i + 1) * size) =~= a.subrange(
                    i * size,
                    (i + 1) * size,
                ));
            } else {
                assert(stacked(n, piece).subrange(i * size, (i + 1) * size) =~= piece(i));
            }
        }
    } else {
        assert(n * size == 0) by (nonlinear_arith)
            requires
                n == 0,
        ;
    }
}

/// Each piece stands where those before it end.
pub proof fn pieces_follow_each_other(n: int, piece: spec_fn(int) -> Seq<u8>, i: int)
    requires
        0 <= i < n,
    ensures
        ({
            let at = stacked(i, piece).len() as int;
            let end = at + piece(i).len();
            end <= stacked(n, piece).len() && stacked(n, piece).subrange(at, end) == piece(i)
        }),
    decreases n,
{
    let at = stacked(i, piece).len() as int;
    let end = at + piece(i).len();
    if i == n - 1 {
        assert(stacked(n, piece).subrange(at, end) =~= piece(i));
    } else {
        pieces_follow_each_other(n - 1, piece, i);
        assert(stacked(n, piece).subrange(at, end) =~= stacked(n - 1, piece).subrange(at, end));
    }
}

/// The first `n` bits of a byte that are set, as a number.
pub open spec fn bits_value(at: int, n: int, on: spec_fn(int) -> bool) -> nat
    decreases n,
{
    if n <= 0 {
        0
    } else {
        bits_value(at, n - 1, on) + (if on(at + n - 1) {
            bit(n - 1)
        } else {
            0
        })
    }
}

/// The value of a bit of a byte.
pub open spec fn bit(k: int) -> nat
    decreases k,
{
    if k <= 0 {
        1
    } else {
        2 * bit(k - 1)
    }
}

/// A mask of `n` bytes: bit `i` stands in byte `i / 8`, at place `i % 8`.
pub open spec fn mask(n: nat, on: spec_fn(int) -> bool) -> Seq<u8> {
    Seq::new(n, |i: int| bits_value(8 * i, 8, on) as u8)
}

proof fn lemma_bits_bound(at: int, n: int, on: spec_fn(int) -> bool)
    requires
        0 <= n <= 8,
    ensures
        bits_value(at, n, on) < bit(n),
        bit(n) <= 256,
    decreases n,
{
    reveal_with_fuel(bit, 9);
    if n > 0 {
        lemma_bits_bound(at, n - 1, on);
    }
}

proof fn lemma_eight_bits(d: Seq<nat>)
    requires
        d.len() == 8,
        forall|k: int| 0 <= k < 8 ==> #[trigger] d[k] <= 1,
    ensures
        ({
            let v = d[0] + 2 * d[1] + 4 * d[2] + 8 * d[3] + 16 * d[4] + 32 * d[5] + 64 * d[6] + 128
                * d[7];
            &&& v % 2 == d[0]
            &&& (v / 2) % 2 == d[1]
            &&& (v / 4) % 2 == d[2]
            &&& (v / 8) % 2 == d[3]
            &&& (v / 16) % 2 == d[4]
            &&& (v / 32) % 2 == d[5]
            &&& (v / 64) % 2 == d[6]
            &&& (v / 128) % 2 == d[7]
        }),
{
    let r6 = d[6] + 2 * d[7];
    let r5 = d[5] + 2 * r6;
    let r4 = d[4] + 2 * r5;
    let r3 = d[3] + 2 * r4;
    let r2 = d[2] + 2 * r3;
    let r1 = d[1] + 2 * r2;
    let v = d[0] + 2 * r1;
    assert(v / 2 == r1);
    assert(v / 4 == r2);
    assert(v / 8 == r3);
    assert(v / 16 == r4);
    assert(v / 32 == r5);
    assert(v / 64 == r6);
    assert(v / 128 == d[7]);
}

pub open spec fn bit_at(on: spec_fn(int) -> bool, i: int) -> nat {
    if on(i) {
        1
    } else {
        0
    }
}

proof fn lemma_byte_bits(at: int, on: spec_fn(int) -> bool)
    ensures
        bits_value(at, 8, on) == bit_at(on, at) + 2 * bit_at(on, at + 1) + 4 * bit_at(on, at + 2)
            + 8 * bit_at(on, at + 3) + 16 * bit_at(on, at + 4) + 32 * bit_at(on, at + 5) + 64
            * bit_at(on, at + 6) + 128 * bit_at(on, at + 7),
{
    reveal_with_fuel(bit, 8);
    assert(bits_value(at, 0, on) == 0);
    assert(bits_value(at, 1, on) == bit_at(on, at));
    assert(bits_value(at, 2, on) == bits_value(at, 1, on) + 2 * bit_at(on, at + 1));
    assert(bits_value(at, 3, on) == bits_value(at, 2, on) + 4 * bit_at(on, at + 2));
    assert(bits_value(at, 4, on) == bits_value(at, 3, on) + 8 * bit_at(on, at + 3));
    assert(bits_value(at, 5, on) == bits_value(at, 4, on) + 16 * bit_at(on, at + 4));
    assert(bits_value(at, 6, on) == bits_value(at, 5, on) + 32 * bit_at(on, at + 5));
    assert(bits_value(at, 7, on) == bits_value(at, 6, on) + 64 * bit_at(on, at + 6));
    assert(bits_value(at, 8, on) == bits_value(at, 7, on) + 128 * bit_at(on, at + 7));
}

/// A bit of a mask is set where its slot is on, and only there.
pub proof fn mask_holds_its_bits(n: nat, on: spec_fn(int) -> bool, i: int)
    requires
        0 <= i < 8 * n,
    ensures
        (mask(n, on)[i / 8] as nat / bit(i % 8)) % 2 == bit_at(on, i),
{
    let at = 8 * (i / 8);
    let d = Seq::new(8, |k: int| bit_at(on, at + k));
    lemma_byte_bits(at, on);
    lemma_bits_bound(at, 8, on);
    lemma_eight_bits(d);
    reveal_with_fuel(bit, 8);
    let k = i % 8;
    let v = bits_value(at, 8, on);
    assert(mask(n, on)[i / 8] as nat == v);
    assert(d[0] == bit_at(on, at + 0));
    assert(i == at + k && d[k] == bit_at(on, i));
    if k == 0 {
        assert(bit(k) == 1 && (v / 1) % 2 == d[0]);
    } else if k == 1 {
        assert(bit(k) == 2);
    } else if k == 2 {
        assert(bit(k) == 4);
    } else if k == 3 {
        assert(bit(k) == 8);
    } else if k == 4 {
        assert(bit(k) == 16);
    } else if k == 5 {
        assert(bit(k) == 32);
    } else if k == 6 {
        assert(bit(k) == 64);
    } else {
        assert(bit(k) == 128);
    }
}

/// Append the `k` low bytes of a number.
pub fn push_le(b: &mut Vec<u8>, n: u64, k: usize)
    ensures
        final(b)@ == old(b)@ + le(n as nat, k as nat),
{
    let ghost start = b@;
    let mut m: u64 = n;
    let mut i: usize = 0;
    assert(b@ + le(m as nat, k as nat) =~= start + le(n as nat, k as nat));
    while i < k
        invariant
            i <= k,
            b@ + le(m as nat, (k - i) as nat) == start + le(n as nat, k as nat),
        decreases k - i,
    {
        let ghost was = b@;
        b.push((m % 256) as u8);
        proof {
            let rest = le(m as nat / 256, (k - i - 1) as nat);
            assert(was + (seq![(m as nat % 256) as u8] + rest) =~= b@ + rest);
        }
        m = m / 256;
        i = i + 1;
    }
    assert(b@ =~= b@ + le(m as nat, 0));
}

/// The mask of a list of flags.
pub open spec fn mask_of(flags: Seq<bool>) -> Seq<u8> {
    mask(flags.len() / 8, |i: int| flags[i])
}

/// Append the mask of a list of flags.
pub fn push_mask(b: &mut Vec<u8>, flags: &Vec<bool>)
    requires
        flags.len() % 8 == 0,
    ensures
        final(b)@ == old(b)@ + mask_of(flags@),
{
    let ghost start = b@;
    let ghost on = |i: int| flags@[i];
    let n: usize = flags.len() / 8;
    let mut i: usize = 0;
    assert(b@ =~= start + mask_of(flags@).take(0));
    while i < n
        invariant
            i <= n,
            n == flags.len() / 8,
            on == (|i: int| flags@[i]),
            b@ == start + mask_of(flags@).take(i as int),
        decreases n - i,
    {
        let mut v: u8 = 0;
        let mut w: u8 = 1;
        let mut k: usize = 0;
        proof {
            reveal_with_fuel(bit, 9);
        }
        while k < 8
            invariant
                k <= 8,
                i < n,
                n == flags.len() / 8,
                on == (|i: int| flags@[i]),
                v as nat == bits_value(8 * i, k as int, on),
                k < 8 ==> w as nat == bit(k as int),
            decreases 8 - k,
        {
            proof {
                lemma_bits_bound(8 * i, k as int, on);
                lemma_bits_bound(8 * i, k + 1, on);
                reveal_with_fuel(bit, 9);
            }
            if flags[8 * i + k] {
                v = v + w;
            }
            k = k + 1;
            if k < 8 {
                w = w * 2;
            }
        }
        b.push(v);
        assert(mask_of(flags@)[i as int] == v);
        assert(mask_of(flags@).take(i + 1) =~= mask_of(flags@).take(i as int).push(v));
        i = i + 1;
        assert(b@ =~= start + mask_of(flags@).take(i as int));
    }
    assert(mask_of(flags@).take(n as int) =~= mask_of(flags@));
}

/// Append bytes as they are.
pub fn push_all(b: &mut Vec<u8>, more: &Vec<u8>)
    ensures
        final(b)@ == old(b)@ + more@,
{
    let mut i: usize = 0;
    assert(b@ =~= old(b)@ + more@.take(0));
    while i < more.len()
        invariant
            i <= more.len(),
            b@ == old(b)@ + more@.take(i as int),
        decreases more.len() - i,
    {
        b.push(more[i]);
        i = i + 1;
        assert(more@.take(i as int) =~= more@.take(i - 1).push(more@[i - 1]));
        assert(b@ =~= old(b)@ + more@.take(i as int));
    }
    assert(more@.take(i as int) =~= more@);
}

/// Append zeros.
pub fn push_zeros(b: &mut Vec<u8>, n: usize)
    ensures
        final(b)@ == old(b)@ + zeros(n as nat),
{
    let mut i: usize = 0;
    assert(b@ =~= old(b)@ + zeros(0));
    while i < n
        invariant
            i <= n,
            b@ == old(b)@ + zeros(i as nat),
        decreases n - i,
    {
        b.push(0u8);
        i = i + 1;
        assert(b@ =~= old(b)@ + zeros(i as nat));
    }
}

/// Append zeros up to an offset.
pub fn pad_to(b: &mut Vec<u8>, to: usize)
    ensures
        final(b)@ == padded(old(b)@, to as int),
{
    if b.len() < to {
        let n: usize = to - b.len();
        push_zeros(b, n);
    }
}

/// The bytes of a text, as it is encoded.
pub open spec fn encoded(s: Seq<char>) -> Seq<u8> {
    vstd::utf8::encode_utf8(s)
}

/// The bytes of a text.
pub fn bytes_of(s: &str) -> (b: Vec<u8>)
    ensures
        b@ == encoded(s@),
{
    s.as_bytes_vec()
}

} // verus!
