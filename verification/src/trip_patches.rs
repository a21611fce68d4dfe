//! The entries of a boundary, and what is read of them.

use vstd::prelude::*;

use crate::dict::starts_with;
use crate::error::Failure;
use crate::fields::{
    blank_patch, is_valueless, keyed, lists_text, patch_body, patch_numbers_text, patch_step,
    patch_vectors_text, slot_of, with_numbers, with_vectors, written_type, Collapse, PatchEntry,
    Slot,
};
use crate::mesh::Vec3;
use crate::pieces::{gives, has_no_parens, is_one_word, lemma_joint, lemma_one_word, lemma_spaces};
use crate::reader::Read;
use crate::scalar::Scalar;
use crate::tokenizer::{Stream, Token};
use crate::trip_head::{lemma_head_literals, lemma_next, lemma_split, stands};
use crate::trip_lists::{
    kept_scalars, kept_vectors, lemma_read_scalars, lemma_read_vectors, lemma_scalar_entry,
    lemma_vector_entry, read_scalars, read_vectors, scalar_entry_toks, scalar_value_toks,
    scalars_kept, vector_entry_toks, vector_value_toks, vectors_kept,
};

verus! {

// --------------------------------------------------------------------------
//  Patches
// --------------------------------------------------------------------------
/// The key of a list of a patch.
pub open spec fn slot_word(slot: Slot) -> Seq<char> {
    match slot {
        Slot::Value => "value"@,
        Slot::Gradient => "gradient"@,
        Slot::RefValue => "refValue"@,
        Slot::RefGradient => "refGradient"@,
        Slot::InletValue => "inletValue"@,
    }
}

pub(crate) proof fn lemma_no_directive(w: Seq<char>)
    requires
        w.len() > 0,
        w[0] != '#',
    ensures
        !starts_with(w, "#"@),
{
    reveal_strlit("#");
    if starts_with(w, "#"@) {
        assert(w.take(1)[0] == "#"@[0]);
    }
}

pub(crate) proof fn lemma_slot_word(slot: Slot)
    ensures
        slot_of(slot_word(slot)) == Some(slot),
        is_one_word(slot_word(slot)),
        !starts_with(slot_word(slot), "#"@),
        slot_word(slot) != "type"@,
        slot_word(slot) != "neighbourPatch"@,
        slot_word(slot) != "valueFraction"@,
{
    reveal_strlit("value");
    reveal_strlit("gradient");
    reveal_strlit("refValue");
    reveal_strlit("refGradient");
    reveal_strlit("inletValue");
    reveal_strlit("type");
    reveal_strlit("neighbourPatch");
    reveal_strlit("valueFraction");
    reveal_strlit("refGrad");
    reveal_strlit("calculated");
    let w = slot_word(slot);
    lemma_one_word(w);
    lemma_no_directive(w);
    assert("value"@.len() == 5 && "gradient"@.len() == 8 && "refValue"@.len() == 8);
    assert("refGradient"@.len() == 11 && "refGrad"@.len() == 7 && "inletValue"@.len() == 10);
    assert("type"@.len() == 4 && "neighbourPatch"@.len() == 14 && "valueFraction"@.len() == 13);
    assert("gradient"@[0] == 'g' && "refValue"@[0] == 'r');
}

pub(crate) proof fn lemma_patch_words()
    ensures
        is_one_word("type"@),
        is_one_word("neighbourPatch"@),
        is_one_word("valueFraction"@),
        is_one_word("calculated"@) && has_no_parens("calculated"@),
        !starts_with("type"@, "#"@),
        !starts_with("neighbourPatch"@, "#"@),
        !starts_with("valueFraction"@, "#"@),
        "neighbourPatch"@ != "type"@,
        "valueFraction"@ != "type"@,
        "valueFraction"@ != "neighbourPatch"@,
{
    reveal_strlit("type");
    reveal_strlit("neighbourPatch");
    reveal_strlit("valueFraction");
    reveal_strlit("calculated");
    lemma_no_directive("type"@);
    lemma_no_directive("neighbourPatch"@);
    lemma_no_directive("valueFraction"@);
    lemma_one_word("type"@);
    lemma_one_word("neighbourPatch"@);
    lemma_one_word("valueFraction"@);
    lemma_one_word("calculated"@);
    assert("type"@[0] == 't' && "neighbourPatch"@[0] == 'n' && "valueFraction"@[0] == 'v');
}

/// What the rest of a patch is read as.
#[verifier::opaque]
pub open spec fn rest_of_patch(s: Stream, e: PatchEntry, vector: bool) -> Read<PatchEntry> {
    patch_body(s, e, vector)
}

/// What a key and its value are read as.
#[verifier::opaque]
pub open spec fn keyed_value(s: Stream, kw: Seq<char>, e: PatchEntry, vector: bool) -> Read<PatchEntry> {
    keyed(s, kw, e, vector)
}

/// One key of a patch and its value are read, and the rest follows.
pub(crate) proof fn lemma_one_key(s: Stream, kw: Seq<char>, e: PatchEntry, u: PatchEntry, x: int, vector: bool)
    requires
        s.ahead(0) == Some(Token::Word(kw)),
        keyed_value(s.to(s.pos + 1), kw, e, vector) == Ok::<_, Failure>((u, x)),
        s.pos < x <= s.toks.len(),
        0 <= s.pos,
    ensures
        rest_of_patch(s, e, vector) == rest_of_patch(s.to(x), u, vector),
{
    reveal(rest_of_patch);
    reveal(keyed_value);
    assert(patch_step(s, e, vector) == Ok::<_, Failure>((u, x)));
}

/// A list that a file can hold, and whose numbers come back.
pub open spec fn scalar_list_kept(v: Seq<Scalar>, p: nat) -> bool {
    scalars_kept(v, p) && v.len() <= i32::MAX
}

pub open spec fn vector_list_kept(v: Seq<Vec3>, p: nat) -> bool {
    vectors_kept(v, p) && v.len() <= i32::MAX
}

/// A neighbour without a name is not written.
pub open spec fn carried_neighbour(n: Option<Seq<char>>) -> Option<Seq<char>> {
    match n {
        Some(np) => if np.len() == 0 {
            None
        } else {
            Some(np)
        },
        None => None,
    }
}

pub(crate) proof fn lemma_keyed_fraction(s: Stream, e: PatchEntry, v: Seq<Scalar>, x: int, vector: bool)
    requires
        read_scalars(s) == Ok::<_, Failure>((v, x)),
    ensures
        keyed_value(s, "valueFraction"@, e, vector) == Ok::<_, Failure>(
            (PatchEntry { value_fraction: v, ..e }, x),
        ),
{
    reveal(read_scalars);
    reveal(keyed_value);
    lemma_patch_words();
}

pub(crate) proof fn lemma_read_fraction(
    s: Stream,
    v: Seq<Scalar>,
    e: PatchEntry,
    p: nat,
    collapse: Collapse,
    vector: bool,
)
    requires
        stands(s, patch_scalar_toks("valueFraction"@, v, p, collapse)),
        scalars_kept(v, p),
        v.len() <= i32::MAX,
        e.value_fraction.len() == 0,
    ensures
        rest_of_patch(s, e, vector) == rest_of_patch(
            s.to(s.pos + patch_scalar_toks("valueFraction"@, v, p, collapse).len()),
            PatchEntry { value_fraction: kept_scalars(v, collapse), ..e },
            vector,
        ),
{
    let kw = "valueFraction"@;
    let u = PatchEntry { value_fraction: kept_scalars(v, collapse), ..e };
    if v.len() == 0 {
        assert(u =~= e);
        assert(s.to(s.pos + 0) == s);
    } else {
        let k = seq![Token::Word(kw)];
        let j = scalar_value_toks(v, p, collapse);
        lemma_split(s, k, j);
        lemma_next(s, k, 0);
        let t = s.to(s.pos + 1);
        lemma_read_scalars(t, v, p, collapse);
        lemma_next(t, j, j.len() - 1);
        lemma_keyed_fraction(t, e, kept_scalars(v, collapse), t.pos + j.len(), vector);
        lemma_one_key(s, kw, e, u, t.pos + j.len(), vector);
    }
}

pub open spec fn patch_scalar_toks(kw: Seq<char>, v: Seq<Scalar>, p: nat, collapse: Collapse) -> Seq<Token> {
    if v.len() == 0 {
        Seq::empty()
    } else {
        scalar_entry_toks(kw, v, p, collapse)
    }
}

pub(crate) proof fn lemma_patch_scalars(kw: Seq<char>, v: Seq<Scalar>, p: nat, collapse: Collapse)
    requires
        is_one_word(kw),
        scalars_kept(v, p),
        v.len() <= i32::MAX,
    ensures
        gives(patch_numbers_text(kw, v, p, collapse), patch_scalar_toks(kw, v, p, collapse)),
{
    lemma_head_literals();
    if v.len() == 0 {
        lemma_spaces(patch_numbers_text(kw, v, p, collapse));
    } else {
        lemma_scalar_entry("        "@, kw, v, p, collapse);
    }
}

/// The list of a patch in its place.
pub open spec fn numbers_of(e: PatchEntry, slot: Slot) -> Seq<Scalar> {
    match slot {
        Slot::Value => e.value,
        Slot::Gradient => e.gradient,
        Slot::RefValue => e.ref_value,
        Slot::RefGradient => e.ref_gradient,
        Slot::InletValue => e.inlet_value,
    }
}

pub(crate) proof fn lemma_keyed_numbers(s: Stream, slot: Slot, e: PatchEntry, v: Seq<Scalar>, x: int)
    requires
        read_scalars(s) == Ok::<_, Failure>((v, x)),
    ensures
        keyed_value(s, slot_word(slot), e, false) == Ok::<_, Failure>((with_numbers(e, slot, v), x)),
{
    reveal(read_scalars);
    reveal(keyed_value);
    lemma_slot_word(slot);
}

/// A list of a patch is read into its place.
pub(crate) proof fn lemma_read_patch_scalars(
    s: Stream,
    slot: Slot,
    v: Seq<Scalar>,
    e: PatchEntry,
    p: nat,
    collapse: Collapse,
)
    requires
        stands(s, patch_scalar_toks(slot_word(slot), v, p, collapse)),
        scalars_kept(v, p),
        v.len() <= i32::MAX,
        numbers_of(e, slot).len() == 0,
    ensures
        rest_of_patch(s, e, false) == rest_of_patch(
            s.to(s.pos + patch_scalar_toks(slot_word(slot), v, p, collapse).len()),
            with_numbers(e, slot, kept_scalars(v, collapse)),
            false,
        ),
{
    let kw = slot_word(slot);
    if v.len() == 0 {
        assert(with_numbers(e, slot, v) =~= e) by {
            assert(v =~= numbers_of(e, slot));
        }
        assert(s.to(s.pos + 0) == s);
    } else {
        let k = seq![Token::Word(kw)];
        let j = scalar_value_toks(v, p, collapse);
        lemma_split(s, k, j);
        lemma_next(s, k, 0);
        let t = s.to(s.pos + 1);
        lemma_read_scalars(t, v, p, collapse);
        lemma_next(t, j, j.len() - 1);
        lemma_keyed_numbers(t, slot, e, kept_scalars(v, collapse), t.pos + j.len());
        lemma_one_key(s, kw, e, with_numbers(e, slot, kept_scalars(v, collapse)), t.pos + j.len(), false);
    }
}

/// The tokens of the lists of an entry.
pub open spec fn scalar_lists_toks(e: PatchEntry, p: nat, collapse: Collapse) -> Seq<Token> {
    patch_scalar_toks("refValue"@, e.ref_value, p, collapse) + patch_scalar_toks(
        "refGradient"@,
        e.ref_gradient,
        p,
        collapse,
    ) + patch_scalar_toks("valueFraction"@, e.value_fraction, p, collapse) + patch_scalar_toks(
        "inletValue"@,
        e.inlet_value,
        p,
        collapse,
    ) + patch_scalar_toks("gradient"@, e.gradient, p, collapse) + patch_scalar_toks(
        "value"@,
        shown_numbers(e),
        p,
        collapse,
    )
}

/// The values that are written of an entry.
pub open spec fn shown_numbers(e: PatchEntry) -> Seq<Scalar> {
    if is_valueless(written_type(e)) {
        Seq::empty()
    } else {
        e.value
    }
}

pub open spec fn scalar_lists_kept(e: PatchEntry, p: nat) -> bool {
    &&& scalar_list_kept(e.ref_value, p)
    &&& scalar_list_kept(e.ref_gradient, p)
    &&& scalar_list_kept(e.value_fraction, p)
    &&& scalar_list_kept(e.inlet_value, p)
    &&& scalar_list_kept(e.gradient, p)
    &&& scalar_list_kept(e.value, p)
}

pub(crate) proof fn lemma_scalar_lists(e: PatchEntry, p: nat, collapse: Collapse)
    requires
        scalar_lists_kept(e, p),
    ensures
        gives(lists_text(e, false, p, collapse), scalar_lists_toks(e, p, collapse)),
{
    lemma_slot_word(Slot::RefValue);
    lemma_slot_word(Slot::RefGradient);
    lemma_slot_word(Slot::InletValue);
    lemma_slot_word(Slot::Gradient);
    lemma_slot_word(Slot::Value);
    lemma_patch_words();
    lemma_patch_scalars("refValue"@, e.ref_value, p, collapse);
    lemma_patch_scalars("refGradient"@, e.ref_gradient, p, collapse);
    lemma_patch_scalars("valueFraction"@, e.value_fraction, p, collapse);
    lemma_patch_scalars("inletValue"@, e.inlet_value, p, collapse);
    lemma_patch_scalars("gradient"@, e.gradient, p, collapse);
    lemma_patch_scalars("value"@, shown_numbers(e), p, collapse);
    let x1 = patch_numbers_text("refValue"@, e.ref_value, p, collapse);
    let k1 = patch_scalar_toks("refValue"@, e.ref_value, p, collapse);
    let x2 = patch_numbers_text("refGradient"@, e.ref_gradient, p, collapse);
    let k2 = patch_scalar_toks("refGradient"@, e.ref_gradient, p, collapse);
    let x3 = patch_numbers_text("valueFraction"@, e.value_fraction, p, collapse);
    let k3 = patch_scalar_toks("valueFraction"@, e.value_fraction, p, collapse);
    let x4 = patch_numbers_text("inletValue"@, e.inlet_value, p, collapse);
    let k4 = patch_scalar_toks("inletValue"@, e.inlet_value, p, collapse);
    let x5 = patch_numbers_text("gradient"@, e.gradient, p, collapse);
    let k5 = patch_scalar_toks("gradient"@, e.gradient, p, collapse);
    let x6 = patch_numbers_text("value"@, shown_numbers(e), p, collapse);
    let k6 = patch_scalar_toks("value"@, shown_numbers(e), p, collapse);
    lemma_joint(x1, k1, x2, k2);
    lemma_joint(x1 + x2, k1 + k2, x3, k3);
    lemma_joint(x1 + x2 + x3, k1 + k2 + k3, x4, k4);
    lemma_joint(x1 + x2 + x3 + x4, k1 + k2 + k3 + k4, x5, k5);
    lemma_joint(x1 + x2 + x3 + x4 + x5, k1 + k2 + k3 + k4 + k5, x6, k6);
    assert(x6 =~= (if is_valueless(written_type(e)) {
        Seq::empty()
    } else {
        patch_numbers_text("value"@, e.value, p, collapse)
    }));
}

/// The entry that a patch of this kind is read as.
pub open spec fn carried_numbers(e: PatchEntry, collapse: Collapse) -> PatchEntry {
    PatchEntry {
        patch_type: written_type(e),
        neighbour_patch: carried_neighbour(e.neighbour_patch),
        ref_value: kept_scalars(e.ref_value, collapse),
        ref_gradient: kept_scalars(e.ref_gradient, collapse),
        value_fraction: kept_scalars(e.value_fraction, collapse),
        inlet_value: kept_scalars(e.inlet_value, collapse),
        gradient: kept_scalars(e.gradient, collapse),
        value: if is_valueless(written_type(e)) {
            Seq::empty()
        } else {
            kept_scalars(e.value, collapse)
        },
        ..blank_patch()
    }
}

pub(crate) proof fn lemma_read_scalar_lists(s: Stream, e: PatchEntry, b: PatchEntry, p: nat, collapse: Collapse)
    requires
        stands(s, scalar_lists_toks(e, p, collapse)),
        scalar_lists_kept(e, p),
        b == (PatchEntry {
            patch_type: written_type(e),
            neighbour_patch: carried_neighbour(e.neighbour_patch),
            ..blank_patch()
        }),
    ensures
        rest_of_patch(s, b, false) == rest_of_patch(
            s.to(s.pos + scalar_lists_toks(e, p, collapse).len()),
            carried_numbers(e, collapse),
            false,
        ),
{
    let k1 = patch_scalar_toks("refValue"@, e.ref_value, p, collapse);
    let k2 = patch_scalar_toks("refGradient"@, e.ref_gradient, p, collapse);
    let k3 = patch_scalar_toks("valueFraction"@, e.value_fraction, p, collapse);
    let k4 = patch_scalar_toks("inletValue"@, e.inlet_value, p, collapse);
    let k5 = patch_scalar_toks("gradient"@, e.gradient, p, collapse);
    let k6 = patch_scalar_toks("value"@, shown_numbers(e), p, collapse);
    lemma_split(s, k1 + k2 + k3 + k4 + k5, k6);
    lemma_split(s, k1 + k2 + k3 + k4, k5);
    lemma_split(s, k1 + k2 + k3, k4);
    lemma_split(s, k1 + k2, k3);
    lemma_split(s, k1, k2);
    let s2 = s.to(s.pos + k1.len());
    let s3 = s.to(s.pos + (k1 + k2).len());
    let s4 = s.to(s.pos + (k1 + k2 + k3).len());
    let s5 = s.to(s.pos + (k1 + k2 + k3 + k4).len());
    let s6 = s.to(s.pos + (k1 + k2 + k3 + k4 + k5).len());
    let b1 = with_numbers(b, Slot::RefValue, kept_scalars(e.ref_value, collapse));
    let b2 = with_numbers(b1, Slot::RefGradient, kept_scalars(e.ref_gradient, collapse));
    let b3 = PatchEntry { value_fraction: kept_scalars(e.value_fraction, collapse), ..b2 };
    let b4 = with_numbers(b3, Slot::InletValue, kept_scalars(e.inlet_value, collapse));
    let b5 = with_numbers(b4, Slot::Gradient, kept_scalars(e.gradient, collapse));
    let b6 = with_numbers(b5, Slot::Value, kept_scalars(shown_numbers(e), collapse));
    lemma_read_patch_scalars(s, Slot::RefValue, e.ref_value, b, p, collapse);
    lemma_read_patch_scalars(s2, Slot::RefGradient, e.ref_gradient, b1, p, collapse);
    lemma_read_fraction(s3, e.value_fraction, b2, p, collapse, false);
    lemma_read_patch_scalars(s4, Slot::InletValue, e.inlet_value, b3, p, collapse);
    lemma_read_patch_scalars(s5, Slot::Gradient, e.gradient, b4, p, collapse);
    lemma_read_patch_scalars(s6, Slot::Value, shown_numbers(e), b5, p, collapse);
    assert(b6 =~= carried_numbers(e, collapse));
}

pub open spec fn patch_vector_toks(kw: Seq<char>, v: Seq<Vec3>, p: nat, collapse: Collapse) -> Seq<Token> {
    if v.len() == 0 {
        Seq::empty()
    } else {
        vector_entry_toks(kw, v, p, collapse)
    }
}

pub(crate) proof fn lemma_patch_vectors(kw: Seq<char>, v: Seq<Vec3>, p: nat, collapse: Collapse)
    requires
        is_one_word(kw),
        vectors_kept(v, p),
        v.len() <= i32::MAX,
    ensures
        gives(patch_vectors_text(kw, v, p, collapse), patch_vector_toks(kw, v, p, collapse)),
{
    lemma_head_literals();
    if v.len() == 0 {
        lemma_spaces(patch_vectors_text(kw, v, p, collapse));
    } else {
        lemma_vector_entry("        "@, kw, v, p, collapse);
    }
}

/// The list of a patch in its place.
pub open spec fn vectors_of(e: PatchEntry, slot: Slot) -> Seq<Vec3> {
    match slot {
        Slot::Value => e.value_v,
        Slot::Gradient => e.gradient_v,
        Slot::RefValue => e.ref_value_v,
        Slot::RefGradient => e.ref_gradient_v,
        Slot::InletValue => e.inlet_value_v,
    }
}

pub(crate) proof fn lemma_keyed_vectors(s: Stream, slot: Slot, e: PatchEntry, v: Seq<Vec3>, x: int)
    requires
        read_vectors(s) == Ok::<_, Failure>((v, x)),
    ensures
        keyed_value(s, slot_word(slot), e, true) == Ok::<_, Failure>((with_vectors(e, slot, v), x)),
{
    reveal(read_vectors);
    reveal(keyed_value);
    lemma_slot_word(slot);
}

/// A list of a patch is read into its place.
pub(crate) proof fn lemma_read_patch_vectors(
    s: Stream,
    slot: Slot,
    v: Seq<Vec3>,
    e: PatchEntry,
    p: nat,
    collapse: Collapse,
)
    requires
        stands(s, patch_vector_toks(slot_word(slot), v, p, collapse)),
        vectors_kept(v, p),
        v.len() <= i32::MAX,
        vectors_of(e, slot).len() == 0,
    ensures
        rest_of_patch(s, e, true) == rest_of_patch(
            s.to(s.pos + patch_vector_toks(slot_word(slot), v, p, collapse).len()),
            with_vectors(e, slot, kept_vectors(v, collapse)),
            true,
        ),
{
    let kw = slot_word(slot);
    if v.len() == 0 {
        assert(with_vectors(e, slot, v) =~= e) by {
            assert(v =~= vectors_of(e, slot));
        }
        assert(s.to(s.pos + 0) == s);
    } else {
        let k = seq![Token::Word(kw)];
        let j = vector_value_toks(v, p, collapse);
        lemma_split(s, k, j);
        lemma_next(s, k, 0);
        let t = s.to(s.pos + 1);
        lemma_read_vectors(t, v, p, collapse);
        lemma_next(t, j, j.len() - 1);
        lemma_keyed_vectors(t, slot, e, kept_vectors(v, collapse), t.pos + j.len());
        lemma_one_key(s, kw, e, with_vectors(e, slot, kept_vectors(v, collapse)), t.pos + j.len(), true);
    }
}

/// The tokens of the lists of an entry.
pub open spec fn vector_lists_toks(e: PatchEntry, p: nat, collapse: Collapse) -> Seq<Token> {
    patch_vector_toks("refValue"@, e.ref_value_v, p, collapse) + patch_vector_toks(
        "refGradient"@,
        e.ref_gradient_v,
        p,
        collapse,
    ) + patch_scalar_toks("valueFraction"@, e.value_fraction, p, collapse) + patch_vector_toks(
        "inletValue"@,
        e.inlet_value_v,
        p,
        collapse,
    ) + patch_vector_toks("gradient"@, e.gradient_v, p, collapse) + patch_vector_toks(
        "value"@,
        shown_vectors(e),
        p,
        collapse,
    )
}

/// The values that are written of an entry.
pub open spec fn shown_vectors(e: PatchEntry) -> Seq<Vec3> {
    if is_valueless(written_type(e)) {
        Seq::empty()
    } else {
        e.value_v
    }
}

pub open spec fn vector_lists_kept(e: PatchEntry, p: nat) -> bool {
    &&& vector_list_kept(e.ref_value_v, p)
    &&& vector_list_kept(e.ref_gradient_v, p)
    &&& scalar_list_kept(e.value_fraction, p)
    &&& vector_list_kept(e.inlet_value_v, p)
    &&& vector_list_kept(e.gradient_v, p)
    &&& vector_list_kept(e.value_v, p)
}

pub(crate) proof fn lemma_vector_lists(e: PatchEntry, p: nat, collapse: Collapse)
    requires
        vector_lists_kept(e, p),
    ensures
        gives(lists_text(e, true, p, collapse), vector_lists_toks(e, p, collapse)),
{
    lemma_slot_word(Slot::RefValue);
    lemma_slot_word(Slot::RefGradient);
    lemma_slot_word(Slot::InletValue);
    lemma_slot_word(Slot::Gradient);
    lemma_slot_word(Slot::Value);
    lemma_patch_words();
    lemma_patch_vectors("refValue"@, e.ref_value_v, p, collapse);
    lemma_patch_vectors("refGradient"@, e.ref_gradient_v, p, collapse);
    lemma_patch_scalars("valueFraction"@, e.value_fraction, p, collapse);
    lemma_patch_vectors("inletValue"@, e.inlet_value_v, p, collapse);
    lemma_patch_vectors("gradient"@, e.gradient_v, p, collapse);
    lemma_patch_vectors("value"@, shown_vectors(e), p, collapse);
    let x1 = patch_vectors_text("refValue"@, e.ref_value_v, p, collapse);
    let k1 = patch_vector_toks("refValue"@, e.ref_value_v, p, collapse);
    let x2 = patch_vectors_text("refGradient"@, e.ref_gradient_v, p, collapse);
    let k2 = patch_vector_toks("refGradient"@, e.ref_gradient_v, p, collapse);
    let x3 = patch_numbers_text("valueFraction"@, e.value_fraction, p, collapse);
    let k3 = patch_scalar_toks("valueFraction"@, e.value_fraction, p, collapse);
    let x4 = patch_vectors_text("inletValue"@, e.inlet_value_v, p, collapse);
    let k4 = patch_vector_toks("inletValue"@, e.inlet_value_v, p, collapse);
    let x5 = patch_vectors_text("gradient"@, e.gradient_v, p, collapse);
    let k5 = patch_vector_toks("gradient"@, e.gradient_v, p, collapse);
    let x6 = patch_vectors_text("value"@, shown_vectors(e), p, collapse);
    let k6 = patch_vector_toks("value"@, shown_vectors(e), p, collapse);
    lemma_joint(x1, k1, x2, k2);
    lemma_joint(x1 + x2, k1 + k2, x3, k3);
    lemma_joint(x1 + x2 + x3, k1 + k2 + k3, x4, k4);
    lemma_joint(x1 + x2 + x3 + x4, k1 + k2 + k3 + k4, x5, k5);
    lemma_joint(x1 + x2 + x3 + x4 + x5, k1 + k2 + k3 + k4 + k5, x6, k6);
    assert(x6 =~= (if is_valueless(written_type(e)) {
        Seq::empty()
    } else {
        patch_vectors_text("value"@, e.value_v, p, collapse)
    }));
}

/// The entry that a patch of this kind is read as.
pub open spec fn carried_vectors(e: PatchEntry, collapse: Collapse) -> PatchEntry {
    PatchEntry {
        patch_type: written_type(e),
        neighbour_patch: carried_neighbour(e.neighbour_patch),
        ref_value_v: kept_vectors(e.ref_value_v, collapse),
        ref_gradient_v: kept_vectors(e.ref_gradient_v, collapse),
        value_fraction: kept_scalars(e.value_fraction, collapse),
        inlet_value_v: kept_vectors(e.inlet_value_v, collapse),
        gradient_v: kept_vectors(e.gradient_v, collapse),
        value_v: if is_valueless(written_type(e)) {
            Seq::empty()
        } else {
            kept_vectors(e.value_v, collapse)
        },
        ..blank_patch()
    }
}

pub(crate) proof fn lemma_read_vector_lists(s: Stream, e: PatchEntry, b: PatchEntry, p: nat, collapse: Collapse)
    requires
        stands(s, vector_lists_toks(e, p, collapse)),
        vector_lists_kept(e, p),
        b == (PatchEntry {
            patch_type: written_type(e),
            neighbour_patch: carried_neighbour(e.neighbour_patch),
            ..blank_patch()
        }),
    ensures
        rest_of_patch(s, b, true) == rest_of_patch(
            s.to(s.pos + vector_lists_toks(e, p, collapse).len()),
            carried_vectors(e, collapse),
            true,
        ),
{
    let k1 = patch_vector_toks("refValue"@, e.ref_value_v, p, collapse);
    let k2 = patch_vector_toks("refGradient"@, e.ref_gradient_v, p, collapse);
    let k3 = patch_scalar_toks("valueFraction"@, e.value_fraction, p, collapse);
    let k4 = patch_vector_toks("inletValue"@, e.inlet_value_v, p, collapse);
    let k5 = patch_vector_toks("gradient"@, e.gradient_v, p, collapse);
    let k6 = patch_vector_toks("value"@, shown_vectors(e), p, collapse);
    lemma_split(s, k1 + k2 + k3 + k4 + k5, k6);
    lemma_split(s, k1 + k2 + k3 + k4, k5);
    lemma_split(s, k1 + k2 + k3, k4);
    lemma_split(s, k1 + k2, k3);
    lemma_split(s, k1, k2);
    let s2 = s.to(s.pos + k1.len());
    let s3 = s.to(s.pos + (k1 + k2).len());
    let s4 = s.to(s.pos + (k1 + k2 + k3).len());
    let s5 = s.to(s.pos + (k1 + k2 + k3 + k4).len());
    let s6 = s.to(s.pos + (k1 + k2 + k3 + k4 + k5).len());
    let b1 = with_vectors(b, Slot::RefValue, kept_vectors(e.ref_value_v, collapse));
    let b2 = with_vectors(b1, Slot::RefGradient, kept_vectors(e.ref_gradient_v, collapse));
    let b3 = PatchEntry { value_fraction: kept_scalars(e.value_fraction, collapse), ..b2 };
    let b4 = with_vectors(b3, Slot::InletValue, kept_vectors(e.inlet_value_v, collapse));
    let b5 = with_vectors(b4, Slot::Gradient, kept_vectors(e.gradient_v, collapse));
    let b6 = with_vectors(b5, Slot::Value, kept_vectors(shown_vectors(e), collapse));
    lemma_read_patch_vectors(s, Slot::RefValue, e.ref_value_v, b, p, collapse);
    lemma_read_patch_vectors(s2, Slot::RefGradient, e.ref_gradient_v, b1, p, collapse);
    lemma_read_fraction(s3, e.value_fraction, b2, p, collapse, true);
    lemma_read_patch_vectors(s4, Slot::InletValue, e.inlet_value_v, b3, p, collapse);
    lemma_read_patch_vectors(s5, Slot::Gradient, e.gradient_v, b4, p, collapse);
    lemma_read_patch_vectors(s6, Slot::Value, shown_vectors(e), b5, p, collapse);
    assert(b6 =~= carried_vectors(e, collapse));
}

} // verus!
