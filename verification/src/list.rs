//! Lists of lists, and where things are in a list.

use vstd::prelude::*;

verus! {

/// The first index from `i` on that has a property, or `n`.
pub open spec fn first(n: int, i: int, p: spec_fn(int) -> bool) -> int
    decreases n - i,
{
    if i >= n || p(i) {
        i
    } else {
        first(n, i + 1, p)
    }
}

pub proof fn lemma_first(n: int, i: int, p: spec_fn(int) -> bool)
    requires
        i <= n,
    ensures
        i <= first(n, i, p) <= n,
        first(n, i, p) < n ==> p(first(n, i, p)),
        forall|k: int| i <= k < first(n, i, p) ==> !(#[trigger] p(k)),
    decreases n - i,
{
    if i < n && !p(i) {
        lemma_first(n, i + 1, p);
    }
}

/// The contents of a list of lists.
pub open spec fn rows<T>(v: Seq<Vec<T>>) -> Seq<Seq<T>> {
    v.map_values(|r: Vec<T>| r@)
}

/// The first `n` lists, one behind the other.
pub open spec fn flat<T>(b: Seq<Seq<T>>, n: int) -> Seq<T>
    decreases n,
{
    if n <= 0 {
        Seq::empty()
    } else {
        flat(b, n - 1) + b[n - 1]
    }
}

pub proof fn lemma_flat_len<T>(b: Seq<Seq<T>>, m: int, n: int)
    requires
        0 <= m <= n,
    ensures
        flat(b, m).len() <= flat(b, n).len(),
    decreases n - m,
{
    if m < n {
        lemma_flat_len(b, m, n - 1);
    }
}

/// List `k` is found in the joined list between where it starts and where the
/// next one does.
pub proof fn flat_holds_every_list<T>(b: Seq<Seq<T>>, k: int, n: int)
    requires
        0 <= k < n <= b.len(),
    ensures
        flat(b, k).len() + b[k].len() == flat(b, k + 1).len(),
        flat(b, k + 1).len() <= flat(b, n).len(),
        flat(b, n).subrange(flat(b, k).len() as int, flat(b, k + 1).len() as int) == b[k],
    decreases n,
{
    lemma_flat_len(b, k + 1, n);
    if k == n - 1 {
        assert(flat(b, n).subrange(flat(b, k).len() as int, flat(b, n).len() as int) =~= b[k]);
    } else {
        flat_holds_every_list(b, k, n - 1);
        lemma_flat_len(b, k + 1, n - 1);
        assert(flat(b, n).subrange(flat(b, k).len() as int, flat(b, k + 1).len() as int)
            =~= flat(b, n - 1).subrange(flat(b, k).len() as int, flat(b, k + 1).len() as int));
    }
}

/// Which of the first `i` items have the key `k`, in ascending order.
pub open spec fn bucket(keys: Seq<usize>, k: int, i: int) -> Seq<usize>
    decreases i,
{
    if i <= 0 {
        Seq::empty()
    } else if keys[i - 1] == k {
        bucket(keys, k, i - 1).push((i - 1) as usize)
    } else {
        bucket(keys, k, i - 1)
    }
}

/// A bucket holds exactly the items with its key, in ascending order.
pub proof fn bucket_is_complete(keys: Seq<usize>, k: int, i: int)
    requires
        0 <= i <= keys.len() <= usize::MAX,
    ensures
        forall|a: int, b: int|
            0 <= a < b < bucket(keys, k, i).len() ==> bucket(keys, k, i)[a] < bucket(keys, k, i)[b],
        forall|a: int| #![trigger bucket(keys, k, i)[a]]
            0 <= a < bucket(keys, k, i).len() ==> bucket(keys, k, i)[a] < i && keys[bucket(
                keys,
                k,
                i,
            )[a] as int] == k,
        forall|j: int| #![trigger keys[j]]
            0 <= j < i && keys[j] == k ==> bucket(keys, k, i).contains(j as usize),
    decreases i,
{
    if i > 0 {
        bucket_is_complete(keys, k, i - 1);
        let shorter = bucket(keys, k, i - 1);
        let b = bucket(keys, k, i);
        assert forall|j: int| #![trigger keys[j]] 0 <= j < i && keys[j] == k implies b.contains(
            j as usize,
        ) by {
            if j == i - 1 {
                assert(b[b.len() - 1] == j as usize);
            } else {
                assert(shorter.contains(j as usize));
                let a = choose|a: int| 0 <= a < shorter.len() && shorter[a] == j as usize;
                assert(b[a] == j as usize);
            }
        }
    }
}

/// The buckets of all keys below `n`.
pub open spec fn all_buckets(keys: Seq<usize>, n: nat) -> Seq<Seq<usize>> {
    Seq::new(n, |k: int| bucket(keys, k, keys.len() as int))
}

/// Sort items into buckets by their keys.
pub fn buckets(keys: &Vec<usize>, n: usize) -> (r: Vec<Vec<usize>>)
    requires
        forall|i: int| 0 <= i < keys.len() ==> keys[i] < n,
    ensures
        r.len() == n,
        rows(r@) == all_buckets(keys@, n as nat),
{
    let mut r: Vec<Vec<usize>> = Vec::new();
    let mut k: usize = 0;
    while k < n
        invariant
            k <= n,
            r.len() == k,
            forall|j: int| 0 <= j < k ==> (#[trigger] r[j])@ == Seq::<usize>::empty(),
        decreases n - k,
    {
        r.push(Vec::new());
        k = k + 1;
    }
    let mut i: usize = 0;
    while i < keys.len()
        invariant
            i <= keys.len(),
            r.len() == n,
            forall|j: int| 0 <= j < keys.len() ==> keys[j] < n,
            forall|j: int| 0 <= j < n ==> (#[trigger] r[j])@ == bucket(keys@, j, i as int),
        decreases keys.len() - i,
    {
        let at: usize = keys[i];
        r[at].push(i);
        i = i + 1;
    }
    assert(rows(r@) =~= all_buckets(keys@, n as nat));
    r
}

/// Where one list changes its length, the joined list changes by as much.
pub proof fn lemma_one_row<T>(a: Seq<Seq<T>>, b: Seq<Seq<T>>, at: int, n: int)
    requires
        0 <= n <= a.len() == b.len(),
        0 <= at < a.len(),
        forall|k: int| #![trigger b[k]] 0 <= k < b.len() && k != at ==> b[k].len() == a[k].len(),
    ensures
        flat(b, n).len() == flat(a, n).len() + (if at < n {
            b[at].len() - a[at].len()
        } else {
            0
        }),
    decreases n,
{
    if n > 0 {
        lemma_one_row(a, b, at, n - 1);
    }
}

pub proof fn lemma_empty_rows<T>(b: Seq<Seq<T>>, n: int)
    requires
        0 <= n <= b.len(),
        forall|k: int| 0 <= k < b.len() ==> (#[trigger] b[k]).len() == 0,
    ensures
        flat(b, n).len() == 0,
    decreases n,
{
    if n > 0 {
        lemma_empty_rows(b, n - 1);
    }
}

} // verus!
