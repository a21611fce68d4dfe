//! A table of values keyed by texts, kept in the order of its keys.

use vstd::prelude::*;

use crate::text::{chars_of, same};

verus! {

/// Does `a` come before `b`, character by character?
pub open spec fn before(a: Seq<char>, b: Seq<char>) -> bool
    decreases a.len(),
{
    if b.len() == 0 {
        false
    } else if a.len() == 0 {
        true
    } else if a[0] != b[0] {
        a[0] < b[0]
    } else {
        before(a.skip(1), b.skip(1))
    }
}

/// Does text `a` come before text `b`?
pub fn comes_before(a: &str, b: &str) -> (r: bool)
    ensures
        r == before(a@, b@),
{
    let x = chars_of(a);
    let y = chars_of(b);
    let mut i: usize = 0;
    assert(x@.skip(0) =~= x@);
    assert(y@.skip(0) =~= y@);
    loop
        invariant
            i <= x.len(),
            i <= y.len(),
            x@ == a@,
            y@ == b@,
            before(a@, b@) == before(x@.skip(i as int), y@.skip(i as int)),
        decreases x.len() - i,
    {
        if i >= y.len() {
            return false;
        }
        if i >= x.len() {
            return true;
        }
        if x[i] != y[i] {
            return x[i] < y[i];
        }
        assert(x@.skip(i as int).skip(1) =~= x@.skip(i + 1));
        assert(y@.skip(i as int).skip(1) =~= y@.skip(i + 1));
        i = i + 1;
    }
}

pub proof fn lemma_before_irreflexive(a: Seq<char>)
    ensures
        !before(a, a),
    decreases a.len(),
{
    if a.len() > 0 {
        lemma_before_irreflexive(a.skip(1));
    }
}

pub proof fn lemma_before_transitive(a: Seq<char>, b: Seq<char>, c: Seq<char>)
    requires
        before(a, b),
        before(b, c),
    ensures
        before(a, c),
    decreases a.len(),
{
    if a.len() > 0 && b.len() > 0 && c.len() > 0 && a[0] == b[0] && b[0] == c[0] {
        lemma_before_transitive(a.skip(1), b.skip(1), c.skip(1));
    }
}

pub proof fn lemma_before_total(a: Seq<char>, b: Seq<char>)
    ensures
        a == b || before(a, b) || before(b, a),
    decreases a.len(),
{
    if a.len() > 0 && b.len() > 0 && a[0] == b[0] {
        lemma_before_total(a.skip(1), b.skip(1));
        if a.skip(1) == b.skip(1) {
            assert(a =~= seq![a[0]] + a.skip(1));
            assert(b =~= seq![b[0]] + b.skip(1));
        }
    } else if a.len() == 0 && b.len() == 0 {
        assert(a =~= b);
    }
}

/// One entry of a table.
pub type Entry<V> = (Seq<char>, V);

/// One entry of a table of texts.
pub type Pair = Entry<Seq<char>>;

/// The contents of a table.
pub open spec fn pairs<T: View>(t: Seq<(String, T)>) -> Seq<Entry<T::V>> {
    t.map_values(|e: (String, T)| (e.0@, e.1@))
}

/// Are the keys in order, each one once?
pub open spec fn in_order<V>(t: Seq<Entry<V>>) -> bool {
    forall|i: int, j: int| 0 <= i < j < t.len() ==> before(#[trigger] t[i].0, #[trigger] t[j].0)
}

/// The value under a key.
pub open spec fn lookup<V>(t: Seq<Entry<V>>, k: Seq<char>) -> Option<V>
    decreases t.len(),
{
    if t.len() == 0 {
        None
    } else if t.last().0 == k {
        Some(t.last().1)
    } else {
        lookup(t.drop_last(), k)
    }
}

/// The table with a value put under a key, in its place.
pub open spec fn put<V>(t: Seq<Entry<V>>, k: Seq<char>, v: V) -> Seq<Entry<V>>
    decreases t.len(),
{
    if t.len() == 0 || before(t.last().0, k) {
        t.push((k, v))
    } else if t.last().0 == k {
        t.drop_last().push((k, v))
    } else {
        put(t.drop_last(), k, v).push(t.last())
    }
}

/// The table with a value put under a key that has none.
pub open spec fn put_new<V>(t: Seq<Entry<V>>, k: Seq<char>, v: V) -> Seq<Entry<V>> {
    if lookup(t, k) is Some {
        t
    } else {
        put(t, k, v)
    }
}

proof fn lemma_put_keys<V>(t: Seq<Entry<V>>, k: Seq<char>, v: V, i: int)
    requires
        0 <= i < put(t, k, v).len(),
    ensures
        put(t, k, v)[i].0 == k || exists|j: int|
            0 <= j < t.len() && (#[trigger] t[j]).0 == put(t, k, v)[i].0,
    decreases t.len(),
{
    if t.len() == 0 {
    } else if before(t.last().0, k) {
        if i < t.len() {
            assert(t[i].0 == put(t, k, v)[i].0);
        }
    } else if t.last().0 == k {
        if i < t.len() - 1 {
            assert(t[i].0 == put(t, k, v)[i].0);
        }
    } else {
        let p = put(t.drop_last(), k, v);
        if i < p.len() {
            lemma_put_keys(t.drop_last(), k, v, i);
            if p[i].0 != k {
                let j = choose|j: int|
                    0 <= j < t.drop_last().len() && (#[trigger] t.drop_last()[j]).0 == p[i].0;
                assert(t[j].0 == p[i].0);
            }
        } else {
            assert(t[t.len() - 1].0 == put(t, k, v)[i].0);
        }
    }
}

/// Putting a value keeps the keys in order, each one once.
pub proof fn put_keeps_order<V>(t: Seq<Entry<V>>, k: Seq<char>, v: V)
    requires
        in_order(t),
    ensures
        in_order(put(t, k, v)),
    decreases t.len(),
{
    let r = put(t, k, v);
    if t.len() == 0 {
    } else if before(t.last().0, k) {
        assert forall|i: int, j: int| 0 <= i < j < r.len() implies before(
            #[trigger] r[i].0,
            #[trigger] r[j].0,
        ) by {
            if j == t.len() && i < t.len() - 1 {
                assert(before(t[i].0, t[t.len() - 1].0));
                lemma_before_transitive(t[i].0, t.last().0, k);
            }
        }
    } else if t.last().0 == k {
        assert forall|i: int, j: int| 0 <= i < j < r.len() implies before(
            #[trigger] r[i].0,
            #[trigger] r[j].0,
        ) by {
            assert(before(t[i].0, t[j].0));
        }
    } else {
        let h = t.drop_last();
        let p = put(h, k, v);
        assert(in_order(h)) by {
            assert forall|i: int, j: int| 0 <= i < j < h.len() implies before(
                #[trigger] h[i].0,
                #[trigger] h[j].0,
            ) by {
                assert(before(t[i].0, t[j].0));
            }
        }
        put_keeps_order(h, k, v);
        lemma_before_total(t.last().0, k);
        assert forall|i: int, j: int| 0 <= i < j < r.len() implies before(
            #[trigger] r[i].0,
            #[trigger] r[j].0,
        ) by {
            if j < p.len() {
                assert(before(p[i].0, p[j].0));
            } else {
                lemma_put_keys(h, k, v, i);
                if p[i].0 != k {
                    let m = choose|m: int| 0 <= m < h.len() && (#[trigger] h[m]).0 == p[i].0;
                    assert(before(t[m].0, t[t.len() - 1].0));
                }
            }
        }
    }
}

/// What is put under a key is what a lookup gives back; other keys are left.
pub proof fn lookup_after_put<V>(t: Seq<Entry<V>>, k: Seq<char>, v: V, q: Seq<char>)
    requires
        in_order(t),
    ensures
        lookup(put(t, k, v), q) == (if q == k { Some(v) } else { lookup(t, q) }),
    decreases t.len(),
{
    let r = put(t, k, v);
    if t.len() == 0 {
        assert(r.drop_last() =~= t);
    } else if before(t.last().0, k) {
        assert(r.drop_last() =~= t);
    } else if t.last().0 == k {
        assert(r.drop_last() =~= t.drop_last());
    } else {
        let h = t.drop_last();
        assert(in_order(h)) by {
            assert forall|i: int, j: int| 0 <= i < j < h.len() implies before(
                #[trigger] h[i].0,
                #[trigger] h[j].0,
            ) by {
                assert(before(t[i].0, t[j].0));
            }
        }
        lookup_after_put(h, k, v, q);
        assert(r.drop_last() =~= put(h, k, v));
    }
}

/// Look a key up.
pub fn find_value<'a, T: View>(t: &'a Vec<(String, T)>, k: &str) -> (r: Option<&'a T>)
    ensures
        match (r, lookup(pairs(t@), k@)) {
            (Some(a), Some(b)) => a@ == b,
            (None, None) => true,
            _ => false,
        },
{
    let ghost p = pairs(t@);
    let mut i: usize = t.len();
    assert(p.take(i as int) =~= p);
    while i > 0
        invariant
            i <= t.len(),
            p == pairs(t@),
            lookup(p, k@) == lookup(p.take(i as int), k@),
        decreases i,
    {
        assert(p.take(i as int).drop_last() =~= p.take(i - 1));
        assert(p.take(i as int).last() == (t@[i - 1].0@, t@[i - 1].1@));
        if same(&t[i - 1].0, k) {
            return Some(&t[i - 1].1);
        }
        i = i - 1;
    }
    None
}

/// Put a value under a key.
pub fn put_value<T: View>(t: &mut Vec<(String, T)>, k: String, v: T)
    ensures
        pairs(final(t)@) == put(pairs(old(t)@), k@, v@),
{
    let ghost p = pairs(t@);
    let ghost kk = k@;
    let ghost vv = v@;
    let n: usize = t.len();
    let mut i: usize = n;
    assert(p.take(n as int) =~= p);
    assert(put(p, kk, vv) =~= put(p.take(n as int), kk, vv) + p.skip(n as int));
    while i > 0
        invariant
            i <= n,
            n == t.len(),
            p == pairs(t@),
            t@ == old(t)@,
            kk == k@,
            vv == v@,
            put(p, kk, vv) == put(p.take(i as int), kk, vv) + p.skip(i as int),
        ensures
            i == 0 || before(p.take(i as int).last().0, kk),
        decreases i,
    {
        let ghost h = p.take(i as int);
        assert(h.drop_last() =~= p.take(i - 1));
        assert(h.last() == (t@[i - 1].0@, t@[i - 1].1@));
        if comes_before(&t[i - 1].0, &k) {
            break;
        }
        if same(&t[i - 1].0, &k) {
            t.set(i - 1, (k, v));
            assert(pairs(t@) =~= put(h, kk, vv) + p.skip(i as int));
            return;
        }
        assert(put(p.take(i - 1), kk, vv).push(h.last()) + p.skip(i as int) =~= put(
            p.take(i - 1),
            kk,
            vv,
        ) + p.skip(i - 1));
        i = i - 1;
    }
    proof {
        let h = p.take(i as int);
        assert(put(h, kk, vv) == h.push((kk, vv)));
    }
    t.insert(i, (k, v));
    assert(pairs(t@) =~= p.take(i as int).push((kk, vv)) + p.skip(i as int));
}

/// Put a value under a key that has none.
pub fn put_new_value<T: View>(t: &mut Vec<(String, T)>, k: String, v: T)
    ensures
        pairs(final(t)@) == put_new(pairs(old(t)@), k@, v@),
{
    if find_value(t, &k).is_none() {
        put_value(t, k, v);
    }
}

} // verus!
