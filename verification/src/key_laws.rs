//! What is read under a key is what the key is called after, and what is looked up is what
//! stands there.

use vstd::prelude::*;

use crate::contract::Policy;
use crate::dict::{children, first_segment, last_number, lowered, starts_with, switch};
use crate::error::Failure;
use crate::fields::{all_types, expanded, keyed, scalar_entry, vector_entry, PatchEntry};
use crate::numeral::parsed;
use crate::reader::raw_at;
use crate::scalar::Scalar;
use crate::schemes::interpolation_entry;
use crate::table::{Entry, Pair};
use crate::text::words;
use crate::tokenizer::Stream;

verus! {

// --------------------------------------------------------------------------
//  Conditions
// --------------------------------------------------------------------------
proof fn lemma_keys()
    ensures
        "value"@.len() == 5,
        "gradient"@.len() == 8 && "gradient"@[0] == 'g',
        "refValue"@.len() == 8 && "refValue"@[0] == 'r',
        "refGradient"@.len() == 11,
        "refGrad"@.len() == 7,
        "inletValue"@.len() == 10,
        "valueFraction"@.len() == 13,
        "type"@.len() == 4,
        "neighbourPatch"@.len() == 14,
{
    reveal_strlit("value");
    reveal_strlit("gradient");
    reveal_strlit("refValue");
    reveal_strlit("refGradient");
    reveal_strlit("refGrad");
    reveal_strlit("inletValue");
    reveal_strlit("valueFraction");
    reveal_strlit("type");
    reveal_strlit("neighbourPatch");
}

/// A key of a patch's condition fills the list that is called after it, and no other:
/// `refGrad` is another word for `refGradient`, and the fraction is a list of numbers
/// whatever the field holds.
#[verifier::rlimit(30)]
pub proof fn keys_fill_their_own_list(s: Stream, k: Seq<char>, e: PatchEntry, vector: bool)
    requires
        !starts_with(k, "#"@),
        keyed(s, k, e, vector) is Ok,
    ensures
        ({
            let (q, x) = keyed(s, k, e, vector)->Ok_0;
            let numbers = |v: Seq<Scalar>| scalar_entry(s) == Ok::<_, Failure>((v, x));
            &&& !vector && k == "value"@ ==> numbers(q.value)
            &&& vector || k != "value"@ ==> q.value == e.value
            &&& !vector && k == "gradient"@ ==> numbers(q.gradient)
            &&& vector || k != "gradient"@ ==> q.gradient == e.gradient
            &&& !vector && k == "refValue"@ ==> numbers(q.ref_value)
            &&& vector || k != "refValue"@ ==> q.ref_value == e.ref_value
            &&& !vector && (k == "refGradient"@ || k == "refGrad"@) ==> numbers(q.ref_gradient)
            &&& vector || (k != "refGradient"@ && k != "refGrad"@) ==> q.ref_gradient
                == e.ref_gradient
            &&& !vector && k == "inletValue"@ ==> numbers(q.inlet_value)
            &&& vector || k != "inletValue"@ ==> q.inlet_value == e.inlet_value
            &&& k == "valueFraction"@ ==> numbers(q.value_fraction)
            &&& k != "valueFraction"@ ==> q.value_fraction == e.value_fraction
        }),
{
    lemma_keys();
}

/// The lists of vectors are filled in the same way.
#[verifier::rlimit(30)]
pub proof fn keys_fill_their_own_vectors(s: Stream, k: Seq<char>, e: PatchEntry, vector: bool)
    requires
        !starts_with(k, "#"@),
        keyed(s, k, e, vector) is Ok,
    ensures
        ({
            let (q, x) = keyed(s, k, e, vector)->Ok_0;
            let vectors = |v: Seq<crate::mesh::Vec3>| vector_entry(s) == Ok::<_, Failure>((v, x));
            &&& vector && k == "value"@ ==> vectors(q.value_v)
            &&& !vector || k != "value"@ ==> q.value_v == e.value_v
            &&& vector && k == "gradient"@ ==> vectors(q.gradient_v)
            &&& !vector || k != "gradient"@ ==> q.gradient_v == e.gradient_v
            &&& vector && k == "refValue"@ ==> vectors(q.ref_value_v)
            &&& !vector || k != "refValue"@ ==> q.ref_value_v == e.ref_value_v
            &&& vector && (k == "refGradient"@ || k == "refGrad"@) ==> vectors(q.ref_gradient_v)
            &&& !vector || (k != "refGradient"@ && k != "refGrad"@) ==> q.ref_gradient_v
                == e.ref_gradient_v
            &&& vector && k == "inletValue"@ ==> vectors(q.inlet_value_v)
            &&& !vector || k != "inletValue"@ ==> q.inlet_value_v == e.inlet_value_v
        }),
{
    lemma_keys();
}

/// The type and the partner of a patch are what stands behind their keys.
#[verifier::rlimit(30)]
pub proof fn types_and_partners_are_read(s: Stream, k: Seq<char>, e: PatchEntry, vector: bool)
    requires
        !starts_with(k, "#"@),
        keyed(s, k, e, vector) is Ok,
    ensures
        ({
            let (q, x) = keyed(s, k, e, vector)->Ok_0;
            &&& k == "type"@ ==> raw_at(s, Seq::empty()) == Ok::<_, Failure>((q.patch_type, x))
            &&& k != "type"@ ==> q.patch_type == e.patch_type
            &&& k == "neighbourPatch"@ ==> q.neighbour_patch is Some && raw_at(s, Seq::empty())
                == Ok::<_, Failure>((q.neighbour_patch->Some_0, x))
            &&& k != "neighbourPatch"@ ==> q.neighbour_patch == e.neighbour_patch
        }),
{
    lemma_keys();
}

/// Of a boundary without its values every patch keeps its name, its type and its other keys,
/// and nothing else.
pub proof fn types_alone_are_kept(b: Seq<Entry<PatchEntry>>, i: int)
    requires
        0 <= i < b.len(),
    ensures
        ({
            let t = all_types(b);
            let e = t[i].1;
            &&& t.len() == b.len()
            &&& t[i].0 == b[i].0
            &&& e.patch_type == b[i].1.patch_type
            &&& e.extra == b[i].1.extra
            &&& e.neighbour_patch is None
            &&& e.value.len() == 0 && e.value_v.len() == 0
            &&& e.gradient.len() == 0 && e.gradient_v.len() == 0
            &&& e.ref_value.len() == 0 && e.ref_value_v.len() == 0
            &&& e.ref_gradient.len() == 0 && e.ref_gradient_v.len() == 0
            &&& e.inlet_value.len() == 0 && e.inlet_value_v.len() == 0
            &&& e.value_fraction.len() == 0
        }),
{
}

/// A list is grown entry by entry: it stays where it has the entries, one value goes to
/// every entry, and where there is none the zero does. Any other list is refused.
pub proof fn lists_grow_evenly<T>(v: Seq<T>, n: nat, zero: T, what: Seq<char>, i: int)
    requires
        0 <= i < n,
    ensures
        (expanded(v, n, zero, what) is Ok) == (v.len() == n || v.len() <= 1),
        expanded(v, n, zero, what) matches Ok(w) ==> {
            &&& w.len() == n
            &&& v.len() == n ==> w[i] == v[i]
            &&& v.len() == 1 ==> w[i] == v[0]
            &&& v.len() == 0 ==> w[i] == zero
        },
{
}

// --------------------------------------------------------------------------
//  Look-ups
// --------------------------------------------------------------------------
/// The number of a value is its last word that is a number.
pub proof fn the_last_number_counts(ws: Seq<Seq<char>>)
    ensures
        last_number(ws) matches Some(v) ==> exists|i: int|
            0 <= i < ws.len() && parsed(#[trigger] ws[i]) == Some(v) && forall|j: int|
                i < j < ws.len() ==> parsed(#[trigger] ws[j]) is None,
        last_number(ws) is None ==> forall|j: int|
            0 <= j < ws.len() ==> parsed(#[trigger] ws[j]) is None,
    decreases ws.len(),
{
    if ws.len() > 0 {
        let n = ws.len() - 1;
        assert(ws.last() == ws[n]);
        if parsed(ws.last()) is None {
            let rest = ws.drop_last();
            the_last_number_counts(rest);
            assert(forall|j: int| 0 <= j < n ==> rest[j] == #[trigger] ws[j]);
            if last_number(rest) is Some {
                let v = last_number(rest)->Some_0;
                let i = choose|i: int|
                    0 <= i < rest.len() && parsed(#[trigger] rest[i]) == Some(v) && forall|j: int|
                        i < j < rest.len() ==> parsed(#[trigger] rest[j]) is None;
                assert(parsed(ws[i]) == Some(v));
                assert forall|j: int| i < j < ws.len() implies parsed(#[trigger] ws[j]) is None by {
                    if j < n {
                        assert(parsed(rest[j]) is None);
                    }
                }
            }
        }
    }
}

/// A word for yes.
pub open spec fn means_yes(l: Seq<char>) -> bool {
    l == "yes"@ || l == "true"@ || l == "on"@ || l == "y"@ || l == "t"@ || l == "1"@
}

/// A word for no.
pub open spec fn means_no(l: Seq<char>) -> bool {
    l == "no"@ || l == "false"@ || l == "off"@ || l == "n"@ || l == "f"@ || l == "0"@
}

/// A switch says yes or no by the words for them, in capitals or not, and nothing by any
/// other word.
pub proof fn switches_say_yes_or_no(w: Seq<char>)
    ensures
        (switch(w) == Some(true)) == means_yes(lowered(w)),
        (switch(w) == Some(false)) == means_no(lowered(w)),
{
    reveal_strlit("yes");
    reveal_strlit("true");
    reveal_strlit("on");
    reveal_strlit("y");
    reveal_strlit("t");
    reveal_strlit("1");
    reveal_strlit("no");
    reveal_strlit("false");
    reveal_strlit("off");
    reveal_strlit("n");
    reveal_strlit("f");
    reveal_strlit("0");
    assert("yes"@.len() == 3 && "yes"@[0] == 'y' && "off"@.len() == 3 && "off"@[0] == 'o');
    assert("true"@.len() == 4 && "false"@.len() == 5);
    assert("on"@.len() == 2 && "on"@[0] == 'o' && "no"@.len() == 2 && "no"@[0] == 'n');
    assert("y"@.len() == 1 && "y"@[0] == 'y' && "n"@.len() == 1 && "n"@[0] == 'n');
    assert("t"@.len() == 1 && "t"@[0] == 't' && "f"@.len() == 1 && "f"@[0] == 'f');
    assert("1"@.len() == 1 && "1"@[0] == '1' && "0"@.len() == 1 && "0"@[0] == '0');
}

proof fn lemma_segment(s: Seq<char>, i: int)
    requires
        0 <= i <= s.len(),
        forall|j: int| 0 <= j < i ==> (#[trigger] s[j]) != '/',
    ensures
        ({
            let t = first_segment(s, i);
            &&& t.len() <= s.len()
            &&& t == s.take(t.len() as int)
            &&& t.len() < s.len() ==> s[t.len() as int] == '/'
            &&& forall|j: int| 0 <= j < t.len() ==> (#[trigger] s[j]) != '/'
        }),
    decreases s.len() - i,
{
    if i < s.len() && s[i] != '/' {
        lemma_segment(s, i + 1);
    }
}

/// A key lies below a prefix: the next part of it is `c`.
pub open spec fn lies_below(k: Seq<char>, p: Seq<char>, c: Seq<char>) -> bool {
    let n = p.len() + c.len();
    &&& n <= k.len()
    &&& k.take(n as int) == p + c
    &&& n < k.len() ==> k[n as int] == '/'
}

proof fn lemma_below(k: Seq<char>, p: Seq<char>)
    requires
        starts_with(k, p),
    ensures
        ({
            let c = first_segment(k.skip(p.len() as int), 0);
            &&& lies_below(k, p, c)
            &&& forall|j: int| 0 <= j < c.len() ==> (#[trigger] c[j]) != '/'
        }),
{
    let s = k.skip(p.len() as int);
    lemma_segment(s, 0);
    let c = first_segment(s, 0);
    let n = p.len() + c.len();
    assert(k.take(n as int) =~= p + c) by {
        assert forall|j: int| 0 <= j < n implies k.take(n as int)[j] == (p + c)[j] by {
            if j >= p.len() {
                assert(c[j - p.len()] == s[j - p.len()]);
            }
        }
    }
    assert forall|j: int| 0 <= j < c.len() implies (#[trigger] c[j]) != '/' by {
        assert(c[j] == s[j]);
    }
}

/// What is listed below a prefix are the next parts of the keys that begin with it, each
/// once: every part is one of a key.
pub proof fn listed_keys_lie_below(t: Seq<Pair>, p: Seq<char>, i: int)
    requires
        0 <= i < children(t, p).len(),
    ensures
        children(t, p)[i].len() > 0,
        forall|j: int| 0 <= j < children(t, p)[i].len() ==> (#[trigger] children(t, p)[i][j]) != '/',
        exists|a: int| 0 <= a < t.len() && lies_below((#[trigger] t[a]).0, p, children(t, p)[i]),
        forall|j: int| 0 <= j < i ==> children(t, p)[j] != children(t, p)[i],
    decreases t.len(),
{
    let rest = t.drop_last();
    let r = children(rest, p);
    if i < r.len() {
        listed_keys_lie_below(rest, p, i);
        let a = choose|a: int| 0 <= a < rest.len() && lies_below((#[trigger] rest[a]).0, p, r[i]);
        assert(t[a] == rest[a]);
        assert(children(t, p)[i] == r[i]);
        assert(forall|j: int| 0 <= j < i ==> children(t, p)[j] == r[j]);
    } else {
        lemma_below(t.last().0, p);
        assert(t[t.len() - 1] == t.last());
        assert(lies_below(t[t.len() - 1].0, p, children(t, p)[i]));
        assert(forall|j: int| 0 <= j < i ==> children(t, p)[j] == r[j] && r.contains(r[j]));
    }
}

/// And the next part of every such key is listed.
pub proof fn keys_below_are_listed(t: Seq<Pair>, p: Seq<char>, a: int)
    requires
        0 <= a < t.len(),
        starts_with(t[a].0, p),
        t[a].0.len() > p.len(),
        t[a].0[p.len() as int] != '/',
    ensures
        exists|i: int|
            0 <= i < children(t, p).len() && lies_below(t[a].0, p, #[trigger] children(t, p)[i]),
    decreases t.len(),
{
    let rest = t.drop_last();
    let r = children(rest, p);
    let all = children(t, p);
    if a < rest.len() {
        keys_below_are_listed(rest, p, a);
        let i = choose|i: int| 0 <= i < r.len() && lies_below(rest[a].0, p, #[trigger] r[i]);
        assert(all[i] == r[i]);
    } else {
        let k = t[a].0;
        let s = k.skip(p.len() as int);
        let c = first_segment(s, 0);
        lemma_below(k, p);
        lemma_segment(s, 0);
        assert(s[0] == k[p.len() as int]);
        assert(c.len() > 0);
        if r.contains(c) {
            let i = choose|i: int| 0 <= i < r.len() && r[i] == c;
            assert(all[i] == c);
        } else {
            assert(all[r.len() as int] == c);
        }
    }
}

/// Interpolation is linear: a strict run takes `linear` and what stands behind it, and
/// refuses every other word.
pub proof fn interpolation_is_linear(p: Policy, setting: Seq<char>, raw: Seq<char>)
    ensures
        (interpolation_entry(p, setting, raw) is Ok) == (p.permissive || (words(raw, 0).len() > 0
            && words(raw, 0)[0] == "linear"@)),
{
}

} // verus!
