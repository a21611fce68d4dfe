//! What is written of a field reads back.
//!
//! The text of a field's file is cut into pieces, each with the tokens that it
//! gives, and the reader is followed over those tokens.

use vstd::prelude::*;

use crate::dict::{spaced, starts_with, stored_key, unquoted};
use crate::error::Failure;
use crate::exact::{seventeen_digits_read_back, shown_numbers_read_back};
use crate::fields::{
    assembled, banner, blank_patch, boundary_at, boundary_body, boundary_step, boundary_text,
    dimensions_text, expanded, file_head, footer, header_at, is_name_char, is_valueless, keyword,
    lists_text, neighbour_text, no_parts, noted_once, nought, object_name, patch_at, patch_body,
    patch_text, patches_text, precise, scalar_entries, scalar_entry, scalar_entry_text,
    scalar_field_in, scalar_field_text, separator, shrinks, shrinks_vectors, surface_boundary,
    surface_field, surface_field_text, top_body, top_keyed, top_step, vector_entries, vector_entry,
    vector_entry_text, vector_field_in, vector_field_text, wants_quotes, written_key, written_type,
    Collapse, Edges, FieldFile, Parts, PatchEntry, PHI_PRECISION,
};
use crate::mesh::{origin, repeated, Vec3};
use crate::pieces::{
    gives, in_quotes, is_enclosed, is_one_word, is_quotable, is_single, is_spelled, is_value,
    is_value_token, joined, lemma_joint, lemma_mark, lemma_number, lemma_one_word, lemma_single,
    lemma_spaces, lemma_spelled, lemma_string, lemma_whole, lemma_word_is_spelled, spelling,
};
use crate::reader::Read;
use crate::scalar::Scalar;
use crate::table::{before, in_order, lemma_before_irreflexive, lookup, put, Entry};
use crate::text::decimal;
use crate::tokenizer::{fresh, is_binary, Stream, Token};
use crate::trip_head::{
    head_toks, is_running, lemma_head, lemma_head_literals, lemma_keyword, lemma_next,
    lemma_not_binary, lemma_raw, lemma_read_head, lemma_separators, lemma_split, lemma_value_line,
    lemma_value_runs, stands,
};
use crate::trip_lists::{
    kept_scalars, kept_vectors, lemma_read_scalars, lemma_read_vectors, lemma_scalar_entry,
    lemma_vector_entry, read_scalars, read_vectors, scalar_entry_toks, scalar_kept,
    scalar_value_toks, vector_entry_toks, vector_value_toks,
};
use crate::trip_patches::{
    carried_neighbour, carried_numbers, carried_vectors, keyed_value, lemma_no_directive,
    lemma_one_key, lemma_patch_words, lemma_read_scalar_lists, lemma_read_vector_lists,
    lemma_scalar_lists, lemma_vector_lists, rest_of_patch, scalar_list_kept, scalar_lists_kept,
    scalar_lists_toks, vector_list_kept, vector_lists_kept, vector_lists_toks,
};

verus! {

// --------------------------------------------------------------------------
//  Boundaries
// --------------------------------------------------------------------------
/// Is the name of a patch written so that it is read as one? A name has the characters
/// that need no quotes and is no number; a pattern stands in quotes and holds
/// neither quotes nor backslashes.
pub open spec fn is_key(name: Seq<char>) -> bool {
    match unquoted(name) {
        Some(t) => is_quotable(t),
        None => !wants_quotes(name) && is_one_word(name),
    }
}

spec fn key_tok(name: Seq<char>) -> Token {
    match unquoted(name) {
        Some(t) => Token::Str(t),
        None => Token::Word(name),
    }
}

proof fn lemma_key(name: Seq<char>)
    requires
        is_key(name),
    ensures
        gives(written_key(name), seq![key_tok(name)]),
        stored_key(key_tok(name)) == name,
        !starts_with(name, "#"@),
        (key_tok(name) is Str) == (unquoted(name) is Some),
{
    let none = Seq::<Token>::empty();
    let k = seq![key_tok(name)];
    let nl = seq!['\n'];
    reveal_strlit("    ");
    reveal_strlit("\n");
    assert("\n"@ =~= nl);
    lemma_spaces("    "@);
    lemma_spaces(nl);
    match unquoted(name) {
        Some(t) => {
            assert(name =~= in_quotes(t));
            lemma_string(t);
            lemma_joint(name, k, nl, none);
            assert(k + none =~= k);
        },
        None => {
            lemma_single(name, '\n');
            reveal(is_single);
            assert(is_name_char(name[0]));
        },
    }
    lemma_no_directive(name);
    lemma_joint("    "@, none, name + nl, k);
    assert(none + k =~= k);
    assert("    "@ + (name + nl) =~= "    "@ + name + "\n"@);
}

/// The tokens of the neighbour of a patch.
spec fn neighbour_toks(n: Option<Seq<char>>) -> Seq<Token> {
    match carried_neighbour(n) {
        Some(np) => seq![Token::Word("neighbourPatch"@)] + spelling(np).push(Token::Punct(';')),
        None => Seq::empty(),
    }
}

proof fn lemma_neighbour(n: Option<Seq<char>>)
    requires
        carried_neighbour(n) matches Some(np) ==> is_spelled(np),
    ensures
        gives(neighbour_text(n), neighbour_toks(n)),
{
    lemma_head_literals();
    lemma_patch_words();
    match carried_neighbour(n) {
        Some(np) => {
            let x = keyword("        "@, "neighbourPatch"@, 16);
            lemma_keyword("        "@, "neighbourPatch"@, 16);
            lemma_value_line(x, seq![Token::Word("neighbourPatch"@)], np);
        },
        None => {
            lemma_spaces(neighbour_text(n));
        },
    }
}

/// Is an entry of a boundary such that it comes back: its texts are read as they are
/// written, and so are its numbers?
pub open spec fn is_entry_kept(name: Seq<char>, e: PatchEntry, vector: bool, p: nat) -> bool {
    &&& is_key(name)
    &&& e.patch_type.len() == 0 || is_spelled(e.patch_type)
    &&& carried_neighbour(e.neighbour_patch) matches Some(np) ==> is_spelled(np)
    &&& if vector {
        vector_lists_kept(e, p)
    } else {
        scalar_lists_kept(e, p)
    }
}

/// The entry that is read.
pub open spec fn carried_entry(e: PatchEntry, vector: bool, collapse: Collapse) -> PatchEntry {
    if vector {
        carried_vectors(e, collapse)
    } else {
        carried_numbers(e, collapse)
    }
}

spec fn lists_toks(e: PatchEntry, vector: bool, p: nat, collapse: Collapse) -> Seq<Token> {
    if vector {
        vector_lists_toks(e, p, collapse)
    } else {
        scalar_lists_toks(e, p, collapse)
    }
}

#[verifier::opaque]
spec fn patch_toks(
    name: Seq<char>,
    e: PatchEntry,
    vector: bool,
    p: nat,
    collapse: Collapse,
) -> Seq<Token> {
    seq![key_tok(name)] + seq![Token::Punct('{')] + seq![Token::Word("type"@)] + spelling(
        written_type(e),
    ).push(Token::Punct(';')) + neighbour_toks(e.neighbour_patch) + lists_toks(
        e,
        vector,
        p,
        collapse,
    ) + seq![Token::Punct('}')]
}

proof fn lemma_type_is_spelled(e: PatchEntry)
    requires
        e.patch_type.len() == 0 || is_spelled(e.patch_type),
    ensures
        is_spelled(written_type(e)),
{
    lemma_patch_words();
    reveal_strlit("calculated");
    lemma_word_is_spelled("calculated"@);
}

proof fn lemma_braces()
    ensures
        gives("    {\n"@, seq![Token::Punct('{')]),
        gives("    }\n"@, seq![Token::Punct('}')]),
{
    let none = Seq::<Token>::empty();
    reveal_strlit("    {\n");
    reveal_strlit("    }\n");
    reveal_strlit("    ");
    let nl = seq!['\n'];
    lemma_spaces("    "@);
    lemma_spaces(nl);
    lemma_mark('{');
    lemma_mark('}');
    let o = seq![Token::Punct('{')];
    let c = seq![Token::Punct('}')];
    lemma_joint("    "@, none, seq!['{'], o);
    lemma_joint("    "@ + seq!['{'], none + o, nl, none);
    assert("    "@ + seq!['{'] + nl =~= "    {\n"@);
    assert(none + o + none =~= o);
    lemma_joint("    "@, none, seq!['}'], c);
    lemma_joint("    "@ + seq!['}'], none + c, nl, none);
    assert("    "@ + seq!['}'] + nl =~= "    }\n"@);
    assert(none + c + none =~= c);
}

proof fn lemma_patch(name: Seq<char>, e: PatchEntry, vector: bool, p: nat, collapse: Collapse)
    requires
        is_entry_kept(name, e, vector, p),
    ensures
        gives(patch_text(name, e, vector, p, collapse), patch_toks(name, e, vector, p, collapse)),
{
    reveal(patch_toks);
    lemma_key(name);
    lemma_braces();
    lemma_head_literals();
    lemma_patch_words();
    lemma_type_is_spelled(e);
    lemma_keyword("        "@, "type"@, 16);
    lemma_neighbour(e.neighbour_patch);
    if vector {
        lemma_vector_lists(e, p, collapse);
    } else {
        lemma_scalar_lists(e, p, collapse);
    }
    let t = written_type(e);
    let x1 = written_key(name);
    let k1 = seq![key_tok(name)];
    lemma_joint(x1, k1, "    {\n"@, seq![Token::Punct('{')]);
    let x2 = x1 + "    {\n"@;
    let k2 = k1 + seq![Token::Punct('{')];
    let y = keyword("        "@, "type"@, 16);
    lemma_joint(x2, k2, y, seq![Token::Word("type"@)]);
    let x3 = x2 + y;
    let k3 = k2 + seq![Token::Word("type"@)];
    lemma_value_line(x3, k3, t);
    let x4 = x3 + t + ";\n"@;
    let k4 = k3 + spelling(t).push(Token::Punct(';'));
    lemma_joint(x4, k4, neighbour_text(e.neighbour_patch), neighbour_toks(e.neighbour_patch));
    let x5 = x4 + neighbour_text(e.neighbour_patch);
    let k5 = k4 + neighbour_toks(e.neighbour_patch);
    lemma_joint(x5, k5, lists_text(e, vector, p, collapse), lists_toks(e, vector, p, collapse));
    let x6 = x5 + lists_text(e, vector, p, collapse);
    let k6 = k5 + lists_toks(e, vector, p, collapse);
    lemma_joint(x6, k6, "    }\n"@, seq![Token::Punct('}')]);
}

/// A key with a text for its value.
proof fn lemma_text_key(s: Stream, kw: Seq<char>, k: Seq<Token>, e: PatchEntry, vector: bool)
    requires
        stands(s, seq![Token::Word(kw)] + k.push(Token::Punct(';'))),
        is_running(k),
        kw == "type"@ || kw == "neighbourPatch"@,
    ensures
        rest_of_patch(s, e, vector) == rest_of_patch(
            s.to(s.pos + k.len() + 2),
            if kw == "type"@ {
                PatchEntry { patch_type: joined(k), ..e }
            } else {
                PatchEntry { neighbour_patch: Some(joined(k)), ..e }
            },
            vector,
        ),
{
    let w = seq![Token::Word(kw)];
    let m = k.push(Token::Punct(';'));
    lemma_split(s, w, m);
    lemma_next(s, w, 0);
    let t = s.to(s.pos + 1);
    lemma_next(t, m, k.len() as int);
    lemma_raw(t, k, "missing ';'"@, "expected ';'"@);
    lemma_patch_words();
    let u = if kw == "type"@ {
        PatchEntry { patch_type: joined(k), ..e }
    } else {
        PatchEntry { neighbour_patch: Some(joined(k)), ..e }
    };
    assert(keyed_value(t, kw, e, vector) == Ok::<_, Failure>((u, t.pos + k.len() + 1))) by {
        reveal(keyed_value);
    }
    lemma_one_key(s, kw, e, u, t.pos + k.len() + 1, vector);
}

/// What the block of a patch is read as.
#[verifier::opaque]
spec fn read_patch(s: Stream, vector: bool) -> Read<PatchEntry> {
    patch_at(s, vector)
}

proof fn lemma_patch_block(s: Stream, e: PatchEntry, x: int, vector: bool)
    requires
        s.is_punct('{'),
        rest_of_patch(s.to(s.pos + 1), blank_patch(), vector) == rest_of_patch(s.to(x), e, vector),
        s.to(x).is_punct('}'),
    ensures
        read_patch(s, vector) == Ok::<_, Failure>((e, x + 1)),
{
    reveal(read_patch);
    reveal(rest_of_patch);
    assert(patch_body(s.to(x), e, vector) == Ok::<_, Failure>((e, x)));
}

proof fn lemma_read_lists(
    s: Stream,
    e: PatchEntry,
    b: PatchEntry,
    vector: bool,
    p: nat,
    collapse: Collapse,
)
    requires
        stands(s, lists_toks(e, vector, p, collapse)),
        if vector {
            vector_lists_kept(e, p)
        } else {
            scalar_lists_kept(e, p)
        },
        b == (PatchEntry {
            patch_type: written_type(e),
            neighbour_patch: carried_neighbour(e.neighbour_patch),
            ..blank_patch()
        }),
    ensures
        rest_of_patch(s, b, vector) == rest_of_patch(
            s.to(s.pos + lists_toks(e, vector, p, collapse).len()),
            carried_entry(e, vector, collapse),
            vector,
        ),
{
    if vector {
        lemma_read_vector_lists(s, e, b, p, collapse);
    } else {
        lemma_read_scalar_lists(s, e, b, p, collapse);
    }
}

/// The block of a patch is read as the entry that it carries; the stream is behind the key.
proof fn lemma_read_patch(
    s: Stream,
    name: Seq<char>,
    e: PatchEntry,
    vector: bool,
    p: nat,
    collapse: Collapse,
)
    requires
        stands(s, patch_toks(name, e, vector, p, collapse)),
        is_entry_kept(name, e, vector, p),
    ensures
        s.ahead(0) == Some(key_tok(name)),
        s.to(s.pos + 1).is_punct('{'),
        0 <= s.pos,
        s.pos + patch_toks(name, e, vector, p, collapse).len() <= s.toks.len(),
        patch_toks(name, e, vector, p, collapse).len() > 0,
        read_patch(s.to(s.pos + 1), vector) == Ok::<_, Failure>(
            (
                carried_entry(e, vector, collapse),
                s.pos + patch_toks(name, e, vector, p, collapse).len(),
            ),
        ),
{
    reveal(patch_toks);
    let t = written_type(e);
    lemma_type_is_spelled(e);
    lemma_spelled(t);
    lemma_value_runs(spelling(t));
    let kt = spelling(t);
    let k1 = seq![key_tok(name)];
    let k2 = seq![Token::Punct('{')];
    let k3 = seq![Token::Word("type"@)];
    let k4 = kt.push(Token::Punct(';'));
    let k5 = neighbour_toks(e.neighbour_patch);
    let k6 = lists_toks(e, vector, p, collapse);
    let k7 = seq![Token::Punct('}')];
    assert(k1 + k2 + k3 + k4 + k5 + k6 + k7 =~= k1 + k2 + (k3 + k4) + k5 + k6 + k7);
    lemma_split(s, k1 + k2 + (k3 + k4) + k5 + k6, k7);
    lemma_split(s, k1 + k2 + (k3 + k4) + k5, k6);
    lemma_split(s, k1 + k2 + (k3 + k4), k5);
    lemma_split(s, k1 + k2, k3 + k4);
    lemma_split(s, k1, k2);
    lemma_next(s, k1, 0);
    lemma_next(s.to(s.pos + 1), k2, 0);
    let s3 = s.to(s.pos + 2);
    let s5 = s.to(s.pos + 4 + kt.len());
    let s6 = s.to(s5.pos + k5.len());
    let s7 = s.to(s6.pos + k6.len());
    lemma_next(s7, k7, 0);
    let b1 = PatchEntry { patch_type: t, ..blank_patch() };
    lemma_text_key(s3, "type"@, kt, blank_patch(), vector);
    let b2 = PatchEntry { neighbour_patch: carried_neighbour(e.neighbour_patch), ..b1 };
    match carried_neighbour(e.neighbour_patch) {
        Some(np) => {
            lemma_spelled(np);
            lemma_value_runs(spelling(np));
            lemma_text_key(s5, "neighbourPatch"@, spelling(np), b1, vector);
            lemma_patch_words();
        },
        None => {
            assert(b2 =~= b1);
        },
    }
    lemma_read_lists(s6, e, b2, vector, p, collapse);
    lemma_patch_block(s.to(s.pos + 1), carried_entry(e, vector, collapse), s7.pos, vector);
}

// --------------------------------------------------------------------------
//  The boundary
// --------------------------------------------------------------------------
spec fn patches_toks(
    b: Seq<Entry<PatchEntry>>,
    n: int,
    vector: bool,
    p: nat,
    collapse: Collapse,
) -> Seq<Token>
    decreases n,
{
    if n <= 0 {
        Seq::empty()
    } else {
        patches_toks(b, n - 1, vector, p, collapse) + patch_toks(
            b[n - 1].0,
            b[n - 1].1,
            vector,
            p,
            collapse,
        )
    }
}

/// Is a boundary such that every entry comes back?
pub open spec fn is_boundary_kept(b: Seq<Entry<PatchEntry>>, vector: bool, p: nat) -> bool {
    &&& in_order(b)
    &&& forall|i: int| 0 <= i < b.len() ==> is_entry_kept((#[trigger] b[i]).0, b[i].1, vector, p)
}

/// The boundary that is read.
pub open spec fn carried_boundary(b: Seq<Entry<PatchEntry>>, vector: bool, collapse: Collapse) -> Seq<
    Entry<PatchEntry>,
> {
    b.map_values(|x: Entry<PatchEntry>| (x.0, carried_entry(x.1, vector, collapse)))
}

/// The patterns among the first `n` keys.
pub open spec fn pattern_keys(b: Seq<Entry<PatchEntry>>, n: int) -> Seq<Seq<char>>
    decreases n,
{
    if n <= 0 {
        Seq::empty()
    } else if unquoted(b[n - 1].0) is Some {
        pattern_keys(b, n - 1).push(b[n - 1].0)
    } else {
        pattern_keys(b, n - 1)
    }
}

proof fn lemma_patches(b: Seq<Entry<PatchEntry>>, n: int, vector: bool, p: nat, collapse: Collapse)
    requires
        0 <= n <= b.len(),
        is_boundary_kept(b, vector, p),
    ensures
        gives(patches_text(b, n, vector, p, collapse), patches_toks(b, n, vector, p, collapse)),
    decreases n,
{
    if n == 0 {
        lemma_spaces(patches_text(b, n, vector, p, collapse));
    } else {
        lemma_patches(b, n - 1, vector, p, collapse);
        assert(is_entry_kept(b[n - 1].0, b[n - 1].1, vector, p));
        lemma_patch(b[n - 1].0, b[n - 1].1, vector, p, collapse);
        lemma_joint(
            patches_text(b, n - 1, vector, p, collapse),
            patches_toks(b, n - 1, vector, p, collapse),
            patch_text(b[n - 1].0, b[n - 1].1, vector, p, collapse),
            patch_toks(b[n - 1].0, b[n - 1].1, vector, p, collapse),
        );
    }
}

/// The tokens of one patch stand behind those of the patches before it.
proof fn lemma_patch_place(
    s: Stream,
    b: Seq<Entry<PatchEntry>>,
    i: int,
    n: int,
    vector: bool,
    p: nat,
    collapse: Collapse,
)
    requires
        0 <= i < n <= b.len(),
        stands(s, patches_toks(b, n, vector, p, collapse)),
    ensures
        stands(
            s.to(s.pos + patches_toks(b, i, vector, p, collapse).len()),
            patch_toks(b[i].0, b[i].1, vector, p, collapse),
        ),
    decreases n,
{
    lemma_split(
        s,
        patches_toks(b, n - 1, vector, p, collapse),
        patch_toks(b[n - 1].0, b[n - 1].1, vector, p, collapse),
    );
    if i < n - 1 {
        lemma_patch_place(s, b, i, n - 1, vector, p, collapse);
    }
}

/// What the rest of a boundary is read as.
#[verifier::opaque]
spec fn rest_of_boundary(s: Stream, b: Edges, vector: bool) -> Read<Edges> {
    boundary_body(s, b, vector)
}

proof fn lemma_one_patch(s: Stream, b: Edges, name: Seq<char>, e: PatchEntry, x: int, vector: bool)
    requires
        is_key(name),
        s.ahead(0) == Some(key_tok(name)),
        s.to(s.pos + 1).is_punct('{'),
        read_patch(s.to(s.pos + 1), vector) == Ok::<_, Failure>((e, x)),
        s.pos < x <= s.toks.len(),
        0 <= s.pos,
    ensures
        rest_of_boundary(s, b, vector) == rest_of_boundary(
            s.to(x),
            (put(b.0, name, e), noted_once(b.1, unquoted(name) is Some, name)),
            vector,
        ),
{
    reveal(rest_of_boundary);
    reveal(read_patch);
    lemma_key(name);
    assert(boundary_step(s, b, vector) == Ok::<_, Failure>(
        ((put(b.0, name, e), noted_once(b.1, unquoted(name) is Some, name)), x),
    ));
}

/// A pattern is a key.
proof fn lemma_pattern_is_key(b: Seq<Entry<PatchEntry>>, n: int, i: int)
    requires
        0 <= n <= b.len(),
        0 <= i < pattern_keys(b, n).len(),
    ensures
        exists|j: int| 0 <= j < n && (#[trigger] b[j]).0 == pattern_keys(b, n)[i],
    decreases n,
{
    if n > 0 {
        let q = pattern_keys(b, n - 1);
        if i < q.len() {
            lemma_pattern_is_key(b, n - 1, i);
            let j = choose|j: int| 0 <= j < n - 1 && (#[trigger] b[j]).0 == q[i];
            assert(b[j].0 == pattern_keys(b, n)[i]);
        } else {
            assert(b[n - 1].0 == pattern_keys(b, n)[i]);
        }
    }
}

/// The next entry goes behind those before it.
proof fn lemma_next_entry(b: Seq<Entry<PatchEntry>>, i: int, vector: bool, collapse: Collapse)
    requires
        in_order(b),
        0 <= i < b.len(),
    ensures
        put(
            carried_boundary(b.take(i), vector, collapse),
            b[i].0,
            carried_entry(b[i].1, vector, collapse),
        ) == carried_boundary(b.take(i + 1), vector, collapse),
        noted_once(pattern_keys(b, i), unquoted(b[i].0) is Some, b[i].0) == pattern_keys(b, i + 1),
{
    let c = carried_boundary(b.take(i), vector, collapse);
    let e = carried_entry(b[i].1, vector, collapse);
    if i > 0 {
        assert(c.last().0 == b[i - 1].0);
        assert(before(b[i - 1].0, b[i].0));
    }
    assert(c.push((b[i].0, e)) =~= carried_boundary(b.take(i + 1), vector, collapse));
    let q = pattern_keys(b, i);
    if q.contains(b[i].0) {
        let m = choose|m: int| 0 <= m < q.len() && q[m] == b[i].0;
        lemma_pattern_is_key(b, i, m);
        let j = choose|j: int| 0 <= j < i && (#[trigger] b[j]).0 == q[m];
        assert(before(b[j].0, b[i].0));
        lemma_before_irreflexive(b[i].0);
    }
}

proof fn lemma_read_patches(
    s: Stream,
    b: Seq<Entry<PatchEntry>>,
    i: int,
    vector: bool,
    p: nat,
    collapse: Collapse,
)
    requires
        0 <= i <= b.len(),
        stands(s, patches_toks(b, b.len() as int, vector, p, collapse)),
        is_boundary_kept(b, vector, p),
    ensures
        rest_of_boundary(
            s.to(s.pos + patches_toks(b, i, vector, p, collapse).len()),
            (carried_boundary(b.take(i), vector, collapse), pattern_keys(b, i)),
            vector,
        ) == rest_of_boundary(
            s.to(s.pos + patches_toks(b, b.len() as int, vector, p, collapse).len()),
            (carried_boundary(b, vector, collapse), pattern_keys(b, b.len() as int)),
            vector,
        ),
    decreases b.len() - i,
{
    if i == b.len() {
        assert(b.take(i) =~= b);
    } else {
        let k = patches_toks(b, i, vector, p, collapse);
        let j = patch_toks(b[i].0, b[i].1, vector, p, collapse);
        let t = s.to(s.pos + k.len());
        lemma_patch_place(s, b, i, b.len() as int, vector, p, collapse);
        assert(is_entry_kept(b[i].0, b[i].1, vector, p));
        lemma_read_patch(t, b[i].0, b[i].1, vector, p, collapse);
        lemma_next_entry(b, i, vector, collapse);
        lemma_one_patch(
            t,
            (carried_boundary(b.take(i), vector, collapse), pattern_keys(b, i)),
            b[i].0,
            carried_entry(b[i].1, vector, collapse),
            t.pos + j.len(),
            vector,
        );
        lemma_read_patches(s, b, i + 1, vector, p, collapse);
    }
}

spec fn boundary_toks(b: Seq<Entry<PatchEntry>>, vector: bool, p: nat, collapse: Collapse) -> Seq<
    Token,
> {
    seq![Token::Word("boundaryField"@), Token::Punct('{')] + patches_toks(
        b,
        b.len() as int,
        vector,
        p,
        collapse,
    ) + seq![Token::Punct('}')]
}

proof fn lemma_top_words()
    ensures
        is_one_word("dimensions"@) && !starts_with("dimensions"@, "#"@),
        is_one_word("internalField"@) && !starts_with("internalField"@, "#"@),
        is_one_word("boundaryField"@) && !starts_with("boundaryField"@, "#"@),
        "internalField"@ != "dimensions"@,
        "boundaryField"@ != "dimensions"@,
        "boundaryField"@ != "internalField"@,
        "dimensions"@ != "FoamFile"@,
        gives("boundaryField\n{\n"@, seq![Token::Word("boundaryField"@), Token::Punct('{')]),
{
    let none = Seq::<Token>::empty();
    reveal_strlit("dimensions");
    reveal_strlit("internalField");
    reveal_strlit("boundaryField");
    reveal_strlit("FoamFile");
    reveal_strlit("boundaryField\n{\n");
    lemma_one_word("dimensions"@);
    lemma_one_word("internalField"@);
    lemma_one_word("boundaryField"@);
    lemma_no_directive("dimensions"@);
    lemma_no_directive("internalField"@);
    lemma_no_directive("boundaryField"@);
    assert("dimensions"@[0] == 'd' && "internalField"@[0] == 'i' && "boundaryField"@[0] == 'b');
    assert("FoamFile"@[0] == 'F');
    let f = "boundaryField"@;
    let nl = seq!['\n'];
    lemma_single(f, '\n');
    lemma_spaces(nl);
    lemma_mark('{');
    let o = seq![Token::Punct('{')];
    lemma_joint(f + nl, seq![Token::Word(f)], seq!['{'], o);
    lemma_joint(f + nl + seq!['{'], seq![Token::Word(f)] + o, nl, none);
    assert(f + nl + seq!['{'] + nl =~= "boundaryField\n{\n"@);
    assert(seq![Token::Word(f)] + o + none =~= seq![Token::Word(f), Token::Punct('{')]);
}

proof fn lemma_boundary(b: Seq<Entry<PatchEntry>>, vector: bool, p: nat, collapse: Collapse)
    requires
        is_boundary_kept(b, vector, p),
    ensures
        gives(boundary_text(b, vector, p, collapse), boundary_toks(b, vector, p, collapse)),
{
    let n = b.len() as int;
    lemma_top_words();
    lemma_head_literals();
    lemma_patches(b, n, vector, p, collapse);
    let k = seq![Token::Word("boundaryField"@), Token::Punct('{')];
    let x = "boundaryField\n{\n"@;
    let y = patches_text(b, n, vector, p, collapse);
    let j = patches_toks(b, n, vector, p, collapse);
    lemma_joint(x, k, y, j);
    lemma_joint(x + y, k + j, "}\n"@, seq![Token::Punct('}')]);
}

/// What the block of a boundary is read as.
#[verifier::opaque]
spec fn read_boundary(s: Stream, b: Edges, vector: bool) -> Read<Edges> {
    boundary_at(s, b, vector)
}

proof fn lemma_boundary_block(s: Stream, a: Edges, b: Edges, x: int, vector: bool)
    requires
        s.is_punct('{'),
        rest_of_boundary(s.to(s.pos + 1), a, vector) == rest_of_boundary(s.to(x), b, vector),
        s.to(x).is_punct('}'),
    ensures
        read_boundary(s, a, vector) == Ok::<_, Failure>((b, x + 1)),
{
    reveal(read_boundary);
    reveal(rest_of_boundary);
    assert(boundary_body(s.to(x), b, vector) == Ok::<_, Failure>((b, x)));
}

/// The boundary is read as what it carries.
proof fn lemma_read_boundary(
    s: Stream,
    b: Seq<Entry<PatchEntry>>,
    vector: bool,
    p: nat,
    collapse: Collapse,
)
    requires
        stands(s, boundary_toks(b, vector, p, collapse)),
        is_boundary_kept(b, vector, p),
    ensures
        s.ahead(0) == Some(Token::Word("boundaryField"@)),
        0 <= s.pos,
        s.pos + boundary_toks(b, vector, p, collapse).len() <= s.toks.len(),
        read_boundary(s.to(s.pos + 1), (Seq::empty(), Seq::empty()), vector) == Ok::<_, Failure>(
            (
                (carried_boundary(b, vector, collapse), pattern_keys(b, b.len() as int)),
                s.pos + boundary_toks(b, vector, p, collapse).len(),
            ),
        ),
{
    let n = b.len() as int;
    let k = seq![Token::Word("boundaryField"@), Token::Punct('{')];
    let j = patches_toks(b, n, vector, p, collapse);
    let e = seq![Token::Punct('}')];
    lemma_split(s, k + j, e);
    lemma_split(s, k, j);
    lemma_next(s, k, 0);
    lemma_next(s, k, 1);
    let t = s.to(s.pos + 2);
    let u = s.to(s.pos + (k + j).len());
    lemma_next(u, e, 0);
    lemma_read_patches(t, b, 0, vector, p, collapse);
    assert(carried_boundary(b.take(0), vector, collapse) =~= Seq::empty());
    assert(t.to(t.pos + 0) == t);
    lemma_boundary_block(
        s.to(s.pos + 1),
        (Seq::empty(), Seq::empty()),
        (carried_boundary(b, vector, collapse), pattern_keys(b, n)),
        u.pos,
        vector,
    );
}

// --------------------------------------------------------------------------
//  Files
// --------------------------------------------------------------------------
/// The beginning of every file, up to its format.
spec fn plain_start() -> Seq<char> {
    banner() + "FoamFile\n{\n"@ + keyword("    "@, "format"@, 12) + "ascii;\n"@
}

#[verifier::opaque]
spec fn begins(x: Seq<char>, a: Seq<char>) -> bool {
    exists|r: Seq<char>| x == #[trigger] (a + r)
}

proof fn lemma_begins_more(x: Seq<char>, y: Seq<char>, a: Seq<char>)
    requires
        begins(x, a),
    ensures
        begins(x + y, a),
{
    reveal(begins);
    let r = choose|r: Seq<char>| x == #[trigger] (a + r);
    assert(x + y =~= a + (r + y));
}

proof fn lemma_begins_plain(x: Seq<char>)
    requires
        begins(x, plain_start()),
    ensures
        !is_binary(x),
{
    reveal(begins);
    let r = choose|r: Seq<char>| x == #[trigger] (plain_start() + r);
    lemma_not_binary(r);
}

proof fn lemma_head_begins(class: Seq<char>, time: Seq<char>, object: Seq<char>)
    ensures
        begins(file_head(class, time, object), plain_start()),
{
    let a = plain_start();
    let kc = keyword("    "@, "class"@, 12);
    let kl = keyword("    "@, "location"@, 12);
    let ko = keyword("    "@, "object"@, 12);
    assert(begins(a, a)) by {
        reveal(begins);
        assert(a =~= a + Seq::<char>::empty());
    }
    let x1 = a + kc;
    let x2 = x1 + class;
    let x3 = x2 + ";\n"@;
    let x4 = x3 + kl;
    let x5 = x4 + "\""@;
    let x6 = x5 + time;
    let x7 = x6 + "\";\n"@;
    let x8 = x7 + ko;
    let x9 = x8 + object;
    let x10 = x9 + ";\n"@;
    let x11 = x10 + "}\n"@;
    lemma_begins_more(a, kc, a);
    lemma_begins_more(x1, class, a);
    lemma_begins_more(x2, ";\n"@, a);
    lemma_begins_more(x3, kl, a);
    lemma_begins_more(x4, "\""@, a);
    lemma_begins_more(x5, time, a);
    lemma_begins_more(x6, "\";\n"@, a);
    lemma_begins_more(x7, ko, a);
    lemma_begins_more(x8, object, a);
    lemma_begins_more(x9, ";\n"@, a);
    lemma_begins_more(x10, "}\n"@, a);
    lemma_begins_more(x11, separator(), a);
}

/// The dimensions as they are written.
pub open spec fn written_dimensions(dims: Seq<char>) -> Seq<char> {
    if dims.len() == 0 {
        "[0 0 0 0 0 0 0]"@
    } else {
        dims
    }
}

proof fn lemma_zero_token()
    ensures
        Token::Num(nought()).text() == seq!['0'],
        is_value_token(Token::Num(nought())),
{
    reveal_strlit("0");
    let t = Token::Num(nought()).text();
    assert(t =~= seq!['0']);
    assert(t =~= decimal(0));
    shown_numbers_read_back(nought());
    lemma_number(t);
}

/// A field without dimensions is written with zeros, which are read as they stand.
proof fn lemma_dimensions_are_spelled(dims: Seq<char>)
    requires
        dims.len() == 0 || is_spelled(dims),
    ensures
        is_spelled(written_dimensions(dims)),
{
    if dims.len() == 0 {
        let z = Token::Num(nought());
        lemma_zero_token();
        reveal_strlit("[0 0 0 0 0 0 0]");
        let k0 = Seq::<Token>::empty();
        let k1 = k0.push(Token::Punct('['));
        let k2 = k1.push(z);
        let k3 = k2.push(z);
        let k4 = k3.push(z);
        let k5 = k4.push(z);
        let k6 = k5.push(z);
        let k7 = k6.push(z);
        let k8 = k7.push(z);
        let k9 = k8.push(Token::Punct(']'));
        assert(joined(k0) =~= Seq::<char>::empty());
        assert(k1.drop_last() =~= k0);
        assert(k1.last().text() == seq!['[']);
        assert(joined(k1) == spaced(joined(k0), k1.last(), seq!['[']));
        assert(joined(k1) =~= seq!['[']);
        assert(k2.drop_last() =~= k1);
        assert(joined(k2) =~= seq!['[', '0']);
        assert(k3.drop_last() =~= k2);
        assert(joined(k3) =~= seq!['[', '0', ' ', '0']);
        assert(k4.drop_last() =~= k3);
        assert(joined(k4) =~= seq!['[', '0', ' ', '0', ' ', '0']);
        assert(k5.drop_last() =~= k4);
        assert(joined(k5) =~= seq!['[', '0', ' ', '0', ' ', '0', ' ', '0']);
        assert(k6.drop_last() =~= k5);
        assert(joined(k6) =~= seq!['[', '0', ' ', '0', ' ', '0', ' ', '0', ' ', '0']);
        assert(k7.drop_last() =~= k6);
        assert(joined(k7) =~= joined(k6) + seq![' ', '0']);
        assert(k8.drop_last() =~= k7);
        assert(joined(k8) =~= joined(k7) + seq![' ', '0']);
        assert(k9.drop_last() =~= k8);
        assert(joined(k9) =~= joined(k8) + seq![']']);
        assert(joined(k9) =~= "[0 0 0 0 0 0 0]"@);
        assert(is_value(k9));
    }
}

proof fn lemma_dimensions(dims: Seq<char>)
    requires
        dims.len() == 0 || is_spelled(dims),
    ensures
        gives(
            dimensions_text(dims),
            seq![Token::Word("dimensions"@)] + spelling(written_dimensions(dims)).push(
                Token::Punct(';'),
            ),
        ),
{
    let none = Seq::<Token>::empty();
    let d = written_dimensions(dims);
    let x = keyword(""@, "dimensions"@, 16);
    let k = seq![Token::Word("dimensions"@)];
    let j = k + spelling(d).push(Token::Punct(';'));
    lemma_head_literals();
    lemma_top_words();
    lemma_dimensions_are_spelled(dims);
    lemma_keyword(""@, "dimensions"@, 16);
    lemma_value_line(x, k, d);
    lemma_spaces(seq!['\n']);
    lemma_joint(x + d + ";\n"@, j, seq!['\n'], none);
    assert(j + none =~= j);
    reveal_strlit(";\n");
    reveal_strlit(";\n\n");
    assert(x + d + ";\n"@ + seq!['\n'] =~= x + d + ";\n\n"@);
}

/// What the rest of a file is read as.
#[verifier::opaque]
spec fn rest_of_scalar_file(s: Stream, f: Parts<Scalar>) -> Result<Parts<Scalar>, Failure> {
    top_body(s, f, false, scalar_entries())
}

/// What a key of a file and its value are read as.
#[verifier::opaque]
spec fn top_scalar_value(s: Stream, kw: Seq<char>, f: Parts<Scalar>) -> Read<Parts<Scalar>> {
    top_keyed(s, kw, f, false, scalar_entries())
}

proof fn lemma_top_scalar_key(s: Stream, kw: Seq<char>, f: Parts<Scalar>, g: Parts<Scalar>, x: int)
    requires
        s.ahead(0) == Some(Token::Word(kw)),
        top_scalar_value(s.to(s.pos + 1), kw, f) == Ok::<_, Failure>((g, x)),
        s.pos < x <= s.toks.len(),
        0 <= s.pos,
    ensures
        rest_of_scalar_file(s, f) == rest_of_scalar_file(s.to(x), g),
{
    reveal(rest_of_scalar_file);
    reveal(top_scalar_value);
    assert(top_step(s, f, false, scalar_entries()) == Ok::<_, Failure>((g, x)));
}

proof fn lemma_top_scalar_end(s: Stream, f: Parts<Scalar>)
    requires
        s.done(),
        s.unclosed is None,
    ensures
        rest_of_scalar_file(s, f) == Ok::<_, Failure>(f),
{
    reveal(rest_of_scalar_file);
}

proof fn lemma_scalar_dimensions(s: Stream, k: Seq<Token>, f: Parts<Scalar>)
    requires
        stands(s, seq![Token::Word("dimensions"@)] + k.push(Token::Punct(';'))),
        is_running(k),
    ensures
        rest_of_scalar_file(s, f) == rest_of_scalar_file(
            s.to(s.pos + k.len() + 2),
            Parts { dimensions: joined(k), ..f },
        ),
{
    let w = seq![Token::Word("dimensions"@)];
    let m = k.push(Token::Punct(';'));
    lemma_split(s, w, m);
    lemma_next(s, w, 0);
    let t = s.to(s.pos + 1);
    lemma_next(t, m, k.len() as int);
    lemma_raw(t, k, "missing ';'"@, "expected ';'"@);
    lemma_top_words();
    let g = Parts { dimensions: joined(k), ..f };
    let x = t.pos + k.len() + 1;
    assert(top_scalar_value(t, "dimensions"@, f) == Ok::<_, Failure>((g, x))) by {
        reveal(top_scalar_value);
    }
    lemma_top_scalar_key(s, "dimensions"@, f, g, x);
}

proof fn lemma_scalar_internal_value(s: Stream, v: Seq<Scalar>, x: int, f: Parts<Scalar>)
    requires
        read_scalars(s) == Ok::<_, Failure>((v, x)),
    ensures
        top_scalar_value(s, "internalField"@, f) == Ok::<_, Failure>(
            (Parts { internal: Some(v), ..f }, x),
        ),
{
    reveal(read_scalars);
    reveal(top_scalar_value);
    lemma_top_words();
    assert(scalar_entries()(s) == scalar_entry(s));
}

proof fn lemma_scalar_internal(s: Stream, v: Seq<Scalar>, p: nat, collapse: Collapse, f: Parts<Scalar>)
    requires
        stands(s, scalar_entry_toks("internalField"@, v, p, collapse)),
        scalar_list_kept(v, p),
    ensures
        rest_of_scalar_file(s, f) == rest_of_scalar_file(
            s.to(s.pos + scalar_entry_toks("internalField"@, v, p, collapse).len()),
            Parts { internal: Some(kept_scalars(v, collapse)), ..f },
        ),
{
    let w = seq![Token::Word("internalField"@)];
    let j = scalar_value_toks(v, p, collapse);
    lemma_split(s, w, j);
    lemma_next(s, w, 0);
    let t = s.to(s.pos + 1);
    lemma_read_scalars(t, v, p, collapse);
    lemma_next(t, j, j.len() - 1);
    let x = t.pos + j.len();
    lemma_scalar_internal_value(t, kept_scalars(v, collapse), x, f);
    lemma_top_scalar_key(
        s,
        "internalField"@,
        f,
        Parts { internal: Some(kept_scalars(v, collapse)), ..f },
        x,
    );
}

proof fn lemma_scalar_boundary(s: Stream, b: Edges, x: int, f: Parts<Scalar>)
    requires
        s.ahead(0) == Some(Token::Word("boundaryField"@)),
        read_boundary(s.to(s.pos + 1), (f.boundary, f.patterns), false) == Ok::<_, Failure>((b, x)),
        s.pos < x <= s.toks.len(),
        0 <= s.pos,
    ensures
        rest_of_scalar_file(s, f) == rest_of_scalar_file(
            s.to(x),
            Parts { boundary: b.0, patterns: b.1, ..f },
        ),
{
    lemma_top_words();
    let g = Parts { boundary: b.0, patterns: b.1, ..f };
    assert(top_scalar_value(s.to(s.pos + 1), "boundaryField"@, f) == Ok::<_, Failure>((g, x))) by {
        reveal(read_boundary);
        reveal(top_scalar_value);
    }
    lemma_top_scalar_key(s, "boundaryField"@, f, g, x);
}

/// The tokens of the file of a field.
spec fn scalar_file_toks(
    f: FieldFile<Scalar>,
    class: Seq<char>,
    base: Seq<char>,
    time: Seq<char>,
    p: nat,
    collapse: Collapse,
) -> Seq<Token> {
    head_toks(class, time, object_name(f.name, base)) + (seq![Token::Word("dimensions"@)]
        + spelling(written_dimensions(f.dimensions)).push(Token::Punct(';')))
        + scalar_entry_toks("internalField"@, f.internal, p, collapse) + Seq::<Token>::empty()
        + boundary_toks(f.boundary, false, p, collapse) + Seq::<Token>::empty()
}

/// Is a field such that its file is read as it is written: its texts are such that
/// they are read as they stand, and its numbers such that their digits tell them?
pub open spec fn is_scalar_field_kept(f: FieldFile<Scalar>, p: nat) -> bool {
    &&& f.dimensions.len() == 0 || is_spelled(f.dimensions)
    &&& scalar_list_kept(f.internal, p)
    &&& is_boundary_kept(f.boundary, false, p)
}

proof fn lemma_scalar_file(
    f: FieldFile<Scalar>,
    class: Seq<char>,
    base: Seq<char>,
    time: Seq<char>,
    p: nat,
    collapse: Collapse,
)
    requires
        is_scalar_field_kept(f, p),
        is_spelled(class),
        is_enclosed(time),
        is_spelled(object_name(f.name, base)),
    ensures
        gives(
            scalar_field_text(f, class, base, time, p, collapse),
            scalar_file_toks(f, class, base, time, p, collapse),
        ),
{
    let none = Seq::<Token>::empty();
    let x1 = file_head(class, time, object_name(f.name, base));
    let k1 = head_toks(class, time, object_name(f.name, base));
    let x2 = dimensions_text(f.dimensions);
    let k2 = seq![Token::Word("dimensions"@)] + spelling(written_dimensions(f.dimensions)).push(
        Token::Punct(';'),
    );
    let x3 = scalar_entry_text(""@, "internalField"@, f.internal, p, collapse);
    let k3 = scalar_entry_toks("internalField"@, f.internal, p, collapse);
    let x5 = boundary_text(f.boundary, false, p, collapse);
    let k5 = boundary_toks(f.boundary, false, p, collapse);
    lemma_head(class, time, object_name(f.name, base));
    lemma_dimensions(f.dimensions);
    lemma_top_words();
    lemma_head_literals();
    lemma_scalar_entry(""@, "internalField"@, f.internal, p, collapse);
    reveal_strlit("\n");
    lemma_spaces("\n"@);
    lemma_boundary(f.boundary, false, p, collapse);
    lemma_separators();
    lemma_joint(x1, k1, x2, k2);
    lemma_joint(x1 + x2, k1 + k2, x3, k3);
    lemma_joint(x1 + x2 + x3, k1 + k2 + k3, "\n"@, none);
    lemma_joint(x1 + x2 + x3 + "\n"@, k1 + k2 + k3 + none, x5, k5);
    lemma_joint(x1 + x2 + x3 + "\n"@ + x5, k1 + k2 + k3 + none + k5, footer(), none);
}

/// The parts that a file is read as.
spec fn carried_scalar_parts(f: FieldFile<Scalar>, collapse: Collapse) -> Parts<Scalar> {
    Parts {
        dimensions: written_dimensions(f.dimensions),
        internal: Some(kept_scalars(f.internal, collapse)),
        boundary: carried_boundary(f.boundary, false, collapse),
        patterns: pattern_keys(f.boundary, f.boundary.len() as int),
    }
}

proof fn lemma_read_scalar_file(
    s: Stream,
    f: FieldFile<Scalar>,
    class: Seq<char>,
    base: Seq<char>,
    time: Seq<char>,
    p: nat,
    collapse: Collapse,
)
    requires
        s.pos == 0,
        s.toks == scalar_file_toks(f, class, base, time, p, collapse),
        s.unclosed is None,
        is_scalar_field_kept(f, p),
        is_spelled(class),
        is_spelled(object_name(f.name, base)),
    ensures
        header_at(s) matches Ok((h, x)) && lookup(h, "object"@) == Some(object_name(f.name, base))
            && rest_of_scalar_file(s.to(x), no_parts()) == Ok::<_, Failure>(
            carried_scalar_parts(f, collapse),
        ),
{
    let none = Seq::<Token>::empty();
    let o = object_name(f.name, base);
    let d = written_dimensions(f.dimensions);
    let kd = spelling(d);
    let k1 = head_toks(class, time, o);
    let k2 = seq![Token::Word("dimensions"@)] + kd.push(Token::Punct(';'));
    let k3 = scalar_entry_toks("internalField"@, f.internal, p, collapse);
    let k5 = boundary_toks(f.boundary, false, p, collapse);
    assert(stands(s, k1 + k2 + k3 + none + k5 + none)) by {
        reveal(stands);
    }
    lemma_split(s, k1 + k2 + k3 + none + k5, none);
    lemma_split(s, k1 + k2 + k3 + none, k5);
    lemma_split(s, k1 + k2 + k3, none);
    lemma_split(s, k1 + k2, k3);
    lemma_split(s, k1, k2);
    lemma_read_head(s, class, time, o);
    lemma_dimensions_are_spelled(f.dimensions);
    lemma_spelled(d);
    lemma_value_runs(kd);
    let s2 = s.to(k1.len() as int);
    let s3 = s.to((k1 + k2).len() as int);
    let s5 = s.to((k1 + k2 + k3).len() as int);
    let s6 = s.to((k1 + k2 + k3 + none + k5).len() as int);
    let f1 = Parts { dimensions: d, ..no_parts::<Scalar>() };
    let f2 = Parts { internal: Some(kept_scalars(f.internal, collapse)), ..f1 };
    lemma_scalar_dimensions(s2, kd, no_parts());
    lemma_scalar_internal(s3, f.internal, p, collapse, f1);
    assert((k1 + k2 + k3 + none).len() == (k1 + k2 + k3).len());
    lemma_read_boundary(s5, f.boundary, false, p, collapse);
    let b = (
        carried_boundary(f.boundary, false, collapse),
        pattern_keys(f.boundary, f.boundary.len() as int),
    );
    lemma_scalar_boundary(s5, b, s6.pos, f2);
    let f3 = Parts { boundary: b.0, patterns: b.1, ..f2 };
    lemma_top_scalar_end(s6, f3);
    assert(f3 =~= carried_scalar_parts(f, collapse));
}

/// What is written of a field is what is read of its file: its name, its dimensions,
/// the lists with the very numbers, and the entries of its boundary with their keys.
///
/// A list whose entries are all equal may have been collapsed into one value, which
/// a known number of cells grows again; an empty type is written as `calculated`;
/// what is not written (the `value` of a condition that has none, the other keys of
/// an entry) is not there when it is read; and the patterns are noted in the order
/// of the keys.
pub proof fn written_scalar_fields_read_back(
    f: FieldFile<Scalar>,
    class: Seq<char>,
    base: Seq<char>,
    time: Seq<char>,
    p: nat,
    collapse: Collapse,
    path: Seq<char>,
    other: Seq<char>,
    cells: nat,
)
    requires
        is_scalar_field_kept(f, p),
        is_spelled(class),
        is_enclosed(time),
        is_spelled(object_name(f.name, base)),
    ensures
        scalar_field_in(
            scalar_field_text(f, class, base, time, p, collapse),
            path,
            other,
            cells,
        ) == assembled(
            Parts {
                dimensions: written_dimensions(f.dimensions),
                internal: Some(kept_scalars(f.internal, collapse)),
                boundary: carried_boundary(f.boundary, false, collapse),
                patterns: pattern_keys(f.boundary, f.boundary.len() as int),
            },
            object_name(f.name, base),
            path,
            cells,
            nought(),
        ),
{
    let text = scalar_field_text(f, class, base, time, p, collapse);
    let k = scalar_file_toks(f, class, base, time, p, collapse);
    lemma_scalar_file(f, class, base, time, p, collapse);
    lemma_whole(text, k);
    let s = fresh(text, path);
    assert(s.toks == k && s.unclosed is None);
    lemma_scalar_text_is_plain(f, class, base, time, p, collapse);
    lemma_read_scalar_file(s, f, class, base, time, p, collapse);
    let x = header_at(s)->Ok_0.1;
    assert(top_body(s.to(x), no_parts(), false, scalar_entries()) == Ok::<_, Failure>(
        carried_scalar_parts(f, collapse),
    )) by {
        reveal(rest_of_scalar_file);
    }
}

proof fn lemma_scalar_text_is_plain(
    f: FieldFile<Scalar>,
    class: Seq<char>,
    base: Seq<char>,
    time: Seq<char>,
    p: nat,
    collapse: Collapse,
)
    ensures
        !is_binary(scalar_field_text(f, class, base, time, p, collapse)),
{
    let o = object_name(f.name, base);
    let a = plain_start();
    let h = file_head(class, time, o);
    let d = dimensions_text(f.dimensions);
    let v = scalar_entry_text(""@, "internalField"@, f.internal, p, collapse);
    let b = boundary_text(f.boundary, false, p, collapse);
    lemma_head_begins(class, time, o);
    lemma_begins_more(h, d, a);
    lemma_begins_more(h + d, v, a);
    lemma_begins_more(h + d + v, "\n"@, a);
    lemma_begins_more(h + d + v + "\n"@, b, a);
    lemma_begins_more(h + d + v + "\n"@ + b, footer(), a);
    lemma_begins_plain(scalar_field_text(f, class, base, time, p, collapse));
}

/// What the rest of a file is read as.
#[verifier::opaque]
spec fn rest_of_vector_file(s: Stream, f: Parts<Vec3>) -> Result<Parts<Vec3>, Failure> {
    top_body(s, f, true, vector_entries())
}

/// What a key of a file and its value are read as.
#[verifier::opaque]
spec fn top_vector_value(s: Stream, kw: Seq<char>, f: Parts<Vec3>) -> Read<Parts<Vec3>> {
    top_keyed(s, kw, f, true, vector_entries())
}

proof fn lemma_top_vector_key(s: Stream, kw: Seq<char>, f: Parts<Vec3>, g: Parts<Vec3>, x: int)
    requires
        s.ahead(0) == Some(Token::Word(kw)),
        top_vector_value(s.to(s.pos + 1), kw, f) == Ok::<_, Failure>((g, x)),
        s.pos < x <= s.toks.len(),
        0 <= s.pos,
    ensures
        rest_of_vector_file(s, f) == rest_of_vector_file(s.to(x), g),
{
    reveal(rest_of_vector_file);
    reveal(top_vector_value);
    assert(top_step(s, f, true, vector_entries()) == Ok::<_, Failure>((g, x)));
}

proof fn lemma_top_vector_end(s: Stream, f: Parts<Vec3>)
    requires
        s.done(),
        s.unclosed is None,
    ensures
        rest_of_vector_file(s, f) == Ok::<_, Failure>(f),
{
    reveal(rest_of_vector_file);
}

proof fn lemma_vector_dimensions(s: Stream, k: Seq<Token>, f: Parts<Vec3>)
    requires
        stands(s, seq![Token::Word("dimensions"@)] + k.push(Token::Punct(';'))),
        is_running(k),
    ensures
        rest_of_vector_file(s, f) == rest_of_vector_file(
            s.to(s.pos + k.len() + 2),
            Parts { dimensions: joined(k), ..f },
        ),
{
    let w = seq![Token::Word("dimensions"@)];
    let m = k.push(Token::Punct(';'));
    lemma_split(s, w, m);
    lemma_next(s, w, 0);
    let t = s.to(s.pos + 1);
    lemma_next(t, m, k.len() as int);
    lemma_raw(t, k, "missing ';'"@, "expected ';'"@);
    lemma_top_words();
    let g = Parts { dimensions: joined(k), ..f };
    let x = t.pos + k.len() + 1;
    assert(top_vector_value(t, "dimensions"@, f) == Ok::<_, Failure>((g, x))) by {
        reveal(top_vector_value);
    }
    lemma_top_vector_key(s, "dimensions"@, f, g, x);
}

proof fn lemma_vector_internal_value(s: Stream, v: Seq<Vec3>, x: int, f: Parts<Vec3>)
    requires
        read_vectors(s) == Ok::<_, Failure>((v, x)),
    ensures
        top_vector_value(s, "internalField"@, f) == Ok::<_, Failure>(
            (Parts { internal: Some(v), ..f }, x),
        ),
{
    reveal(read_vectors);
    reveal(top_vector_value);
    lemma_top_words();
    assert(vector_entries()(s) == vector_entry(s));
}

proof fn lemma_vector_internal(s: Stream, v: Seq<Vec3>, p: nat, collapse: Collapse, f: Parts<Vec3>)
    requires
        stands(s, vector_entry_toks("internalField"@, v, p, collapse)),
        vector_list_kept(v, p),
    ensures
        rest_of_vector_file(s, f) == rest_of_vector_file(
            s.to(s.pos + vector_entry_toks("internalField"@, v, p, collapse).len()),
            Parts { internal: Some(kept_vectors(v, collapse)), ..f },
        ),
{
    let w = seq![Token::Word("internalField"@)];
    let j = vector_value_toks(v, p, collapse);
    lemma_split(s, w, j);
    lemma_next(s, w, 0);
    let t = s.to(s.pos + 1);
    lemma_read_vectors(t, v, p, collapse);
    lemma_next(t, j, j.len() - 1);
    let x = t.pos + j.len();
    lemma_vector_internal_value(t, kept_vectors(v, collapse), x, f);
    lemma_top_vector_key(
        s,
        "internalField"@,
        f,
        Parts { internal: Some(kept_vectors(v, collapse)), ..f },
        x,
    );
}

proof fn lemma_vector_boundary(s: Stream, b: Edges, x: int, f: Parts<Vec3>)
    requires
        s.ahead(0) == Some(Token::Word("boundaryField"@)),
        read_boundary(s.to(s.pos + 1), (f.boundary, f.patterns), true) == Ok::<_, Failure>((b, x)),
        s.pos < x <= s.toks.len(),
        0 <= s.pos,
    ensures
        rest_of_vector_file(s, f) == rest_of_vector_file(
            s.to(x),
            Parts { boundary: b.0, patterns: b.1, ..f },
        ),
{
    lemma_top_words();
    let g = Parts { boundary: b.0, patterns: b.1, ..f };
    assert(top_vector_value(s.to(s.pos + 1), "boundaryField"@, f) == Ok::<_, Failure>((g, x))) by {
        reveal(read_boundary);
        reveal(top_vector_value);
    }
    lemma_top_vector_key(s, "boundaryField"@, f, g, x);
}

/// The tokens of the file of a field.
spec fn vector_file_toks(
    f: FieldFile<Vec3>,
    class: Seq<char>,
    base: Seq<char>,
    time: Seq<char>,
    p: nat,
    collapse: Collapse,
) -> Seq<Token> {
    head_toks(class, time, object_name(f.name, base)) + (seq![Token::Word("dimensions"@)]
        + spelling(written_dimensions(f.dimensions)).push(Token::Punct(';')))
        + vector_entry_toks("internalField"@, f.internal, p, collapse) + Seq::<Token>::empty()
        + boundary_toks(f.boundary, true, p, collapse) + Seq::<Token>::empty()
}

/// Is a field such that its file is read as it is written: its texts are such that
/// they are read as they stand, and its numbers such that their digits tell them?
pub open spec fn is_vector_field_kept(f: FieldFile<Vec3>, p: nat) -> bool {
    &&& f.dimensions.len() == 0 || is_spelled(f.dimensions)
    &&& vector_list_kept(f.internal, p)
    &&& is_boundary_kept(f.boundary, true, p)
}

proof fn lemma_vector_file(
    f: FieldFile<Vec3>,
    class: Seq<char>,
    base: Seq<char>,
    time: Seq<char>,
    p: nat,
    collapse: Collapse,
)
    requires
        is_vector_field_kept(f, p),
        is_spelled(class),
        is_enclosed(time),
        is_spelled(object_name(f.name, base)),
    ensures
        gives(
            vector_field_text(f, class, base, time, p, collapse),
            vector_file_toks(f, class, base, time, p, collapse),
        ),
{
    let none = Seq::<Token>::empty();
    let x1 = file_head(class, time, object_name(f.name, base));
    let k1 = head_toks(class, time, object_name(f.name, base));
    let x2 = dimensions_text(f.dimensions);
    let k2 = seq![Token::Word("dimensions"@)] + spelling(written_dimensions(f.dimensions)).push(
        Token::Punct(';'),
    );
    let x3 = vector_entry_text(""@, "internalField"@, f.internal, p, collapse);
    let k3 = vector_entry_toks("internalField"@, f.internal, p, collapse);
    let x5 = boundary_text(f.boundary, true, p, collapse);
    let k5 = boundary_toks(f.boundary, true, p, collapse);
    lemma_head(class, time, object_name(f.name, base));
    lemma_dimensions(f.dimensions);
    lemma_top_words();
    lemma_head_literals();
    lemma_vector_entry(""@, "internalField"@, f.internal, p, collapse);
    reveal_strlit("\n");
    lemma_spaces("\n"@);
    lemma_boundary(f.boundary, true, p, collapse);
    lemma_separators();
    lemma_joint(x1, k1, x2, k2);
    lemma_joint(x1 + x2, k1 + k2, x3, k3);
    lemma_joint(x1 + x2 + x3, k1 + k2 + k3, "\n"@, none);
    lemma_joint(x1 + x2 + x3 + "\n"@, k1 + k2 + k3 + none, x5, k5);
    lemma_joint(x1 + x2 + x3 + "\n"@ + x5, k1 + k2 + k3 + none + k5, footer(), none);
}

/// The parts that a file is read as.
spec fn carried_vector_parts(f: FieldFile<Vec3>, collapse: Collapse) -> Parts<Vec3> {
    Parts {
        dimensions: written_dimensions(f.dimensions),
        internal: Some(kept_vectors(f.internal, collapse)),
        boundary: carried_boundary(f.boundary, true, collapse),
        patterns: pattern_keys(f.boundary, f.boundary.len() as int),
    }
}

proof fn lemma_read_vector_file(
    s: Stream,
    f: FieldFile<Vec3>,
    class: Seq<char>,
    base: Seq<char>,
    time: Seq<char>,
    p: nat,
    collapse: Collapse,
)
    requires
        s.pos == 0,
        s.toks == vector_file_toks(f, class, base, time, p, collapse),
        s.unclosed is None,
        is_vector_field_kept(f, p),
        is_spelled(class),
        is_spelled(object_name(f.name, base)),
    ensures
        header_at(s) matches Ok((h, x)) && lookup(h, "object"@) == Some(object_name(f.name, base))
            && rest_of_vector_file(s.to(x), no_parts()) == Ok::<_, Failure>(
            carried_vector_parts(f, collapse),
        ),
{
    let none = Seq::<Token>::empty();
    let o = object_name(f.name, base);
    let d = written_dimensions(f.dimensions);
    let kd = spelling(d);
    let k1 = head_toks(class, time, o);
    let k2 = seq![Token::Word("dimensions"@)] + kd.push(Token::Punct(';'));
    let k3 = vector_entry_toks("internalField"@, f.internal, p, collapse);
    let k5 = boundary_toks(f.boundary, true, p, collapse);
    assert(stands(s, k1 + k2 + k3 + none + k5 + none)) by {
        reveal(stands);
    }
    lemma_split(s, k1 + k2 + k3 + none + k5, none);
    lemma_split(s, k1 + k2 + k3 + none, k5);
    lemma_split(s, k1 + k2 + k3, none);
    lemma_split(s, k1 + k2, k3);
    lemma_split(s, k1, k2);
    lemma_read_head(s, class, time, o);
    lemma_dimensions_are_spelled(f.dimensions);
    lemma_spelled(d);
    lemma_value_runs(kd);
    let s2 = s.to(k1.len() as int);
    let s3 = s.to((k1 + k2).len() as int);
    let s5 = s.to((k1 + k2 + k3).len() as int);
    let s6 = s.to((k1 + k2 + k3 + none + k5).len() as int);
    let f1 = Parts { dimensions: d, ..no_parts::<Vec3>() };
    let f2 = Parts { internal: Some(kept_vectors(f.internal, collapse)), ..f1 };
    lemma_vector_dimensions(s2, kd, no_parts());
    lemma_vector_internal(s3, f.internal, p, collapse, f1);
    assert((k1 + k2 + k3 + none).len() == (k1 + k2 + k3).len());
    lemma_read_boundary(s5, f.boundary, true, p, collapse);
    let b = (
        carried_boundary(f.boundary, true, collapse),
        pattern_keys(f.boundary, f.boundary.len() as int),
    );
    lemma_vector_boundary(s5, b, s6.pos, f2);
    let f3 = Parts { boundary: b.0, patterns: b.1, ..f2 };
    lemma_top_vector_end(s6, f3);
    assert(f3 =~= carried_vector_parts(f, collapse));
}

/// What is written of a field is what is read of its file: its name, its dimensions,
/// the lists with the very numbers, and the entries of its boundary with their keys.
///
/// A list whose entries are all equal may have been collapsed into one value, which
/// a known number of cells grows again; an empty type is written as `calculated`;
/// what is not written (the `value` of a condition that has none, the other keys of
/// an entry) is not there when it is read; and the patterns are noted in the order
/// of the keys.
pub proof fn written_vector_fields_read_back(
    f: FieldFile<Vec3>,
    class: Seq<char>,
    base: Seq<char>,
    time: Seq<char>,
    p: nat,
    collapse: Collapse,
    path: Seq<char>,
    other: Seq<char>,
    cells: nat,
)
    requires
        is_vector_field_kept(f, p),
        is_spelled(class),
        is_enclosed(time),
        is_spelled(object_name(f.name, base)),
    ensures
        vector_field_in(
            vector_field_text(f, class, base, time, p, collapse),
            path,
            other,
            cells,
        ) == assembled(
            Parts {
                dimensions: written_dimensions(f.dimensions),
                internal: Some(kept_vectors(f.internal, collapse)),
                boundary: carried_boundary(f.boundary, true, collapse),
                patterns: pattern_keys(f.boundary, f.boundary.len() as int),
            },
            object_name(f.name, base),
            path,
            cells,
            origin(),
        ),
{
    let text = vector_field_text(f, class, base, time, p, collapse);
    let k = vector_file_toks(f, class, base, time, p, collapse);
    lemma_vector_file(f, class, base, time, p, collapse);
    lemma_whole(text, k);
    let s = fresh(text, path);
    assert(s.toks == k && s.unclosed is None);
    lemma_vector_text_is_plain(f, class, base, time, p, collapse);
    lemma_read_vector_file(s, f, class, base, time, p, collapse);
    let x = header_at(s)->Ok_0.1;
    assert(top_body(s.to(x), no_parts(), true, vector_entries()) == Ok::<_, Failure>(
        carried_vector_parts(f, collapse),
    )) by {
        reveal(rest_of_vector_file);
    }
}

proof fn lemma_vector_text_is_plain(
    f: FieldFile<Vec3>,
    class: Seq<char>,
    base: Seq<char>,
    time: Seq<char>,
    p: nat,
    collapse: Collapse,
)
    ensures
        !is_binary(vector_field_text(f, class, base, time, p, collapse)),
{
    let o = object_name(f.name, base);
    let a = plain_start();
    let h = file_head(class, time, o);
    let d = dimensions_text(f.dimensions);
    let v = vector_entry_text(""@, "internalField"@, f.internal, p, collapse);
    let b = boundary_text(f.boundary, true, p, collapse);
    lemma_head_begins(class, time, o);
    lemma_begins_more(h, d, a);
    lemma_begins_more(h + d, v, a);
    lemma_begins_more(h + d + v, "\n"@, a);
    lemma_begins_more(h + d + v + "\n"@, b, a);
    lemma_begins_more(h + d + v + "\n"@ + b, footer(), a);
    lemma_begins_plain(vector_field_text(f, class, base, time, p, collapse));
}

/// With the digits of a face flux every number comes back.
pub proof fn full_precision_keeps_numbers(v: Scalar)
    requires
        !v.is_nan(),
    ensures
        scalar_kept(v, PHI_PRECISION as nat),
{
    reveal(scalar_kept);
    reveal(precise);
    seventeen_digits_read_back(v);
}

/// A field that has nothing but what a file holds comes back whole.
pub proof fn whole_scalar_fields_come_back(
    f: FieldFile<Scalar>,
    class: Seq<char>,
    base: Seq<char>,
    time: Seq<char>,
    p: nat,
    collapse: Collapse,
    path: Seq<char>,
    other: Seq<char>,
)
    requires
        is_scalar_field_kept(f, p),
        is_spelled(class),
        is_enclosed(time),
        is_spelled(f.name),
        f.dimensions.len() > 0,
        f.internal.len() > 0,
        shrinks(collapse, f.internal) ==> forall|i: int|
            0 <= i < f.internal.len() ==> #[trigger] f.internal[i] == f.internal[0],
        carried_boundary(f.boundary, false, collapse) == f.boundary,
        pattern_keys(f.boundary, f.boundary.len() as int) == f.patterns,
    ensures
        scalar_field_in(
            scalar_field_text(f, class, base, time, p, collapse),
            path,
            other,
            f.internal.len(),
        ) == Ok::<_, Failure>(f),
{
    let n = f.internal.len();
    lemma_spelled(f.name);
    written_scalar_fields_read_back(f, class, base, time, p, collapse, path, other, n);
    let v = kept_scalars(f.internal, collapse);
    if v.len() != n {
        assert(repeated(v[0], n as int) =~= f.internal);
    }
}

/// A field that has nothing but what a file holds comes back whole.
pub proof fn whole_vector_fields_come_back(
    f: FieldFile<Vec3>,
    class: Seq<char>,
    base: Seq<char>,
    time: Seq<char>,
    p: nat,
    collapse: Collapse,
    path: Seq<char>,
    other: Seq<char>,
)
    requires
        is_vector_field_kept(f, p),
        is_spelled(class),
        is_enclosed(time),
        is_spelled(f.name),
        f.dimensions.len() > 0,
        f.internal.len() > 0,
        shrinks_vectors(collapse, f.internal) ==> forall|i: int|
            0 <= i < f.internal.len() ==> #[trigger] f.internal[i] == f.internal[0],
        carried_boundary(f.boundary, true, collapse) == f.boundary,
        pattern_keys(f.boundary, f.boundary.len() as int) == f.patterns,
    ensures
        vector_field_in(
            vector_field_text(f, class, base, time, p, collapse),
            path,
            other,
            f.internal.len(),
        ) == Ok::<_, Failure>(f),
{
    let n = f.internal.len();
    lemma_spelled(f.name);
    written_vector_fields_read_back(f, class, base, time, p, collapse, path, other, n);
    let v = kept_vectors(f.internal, collapse);
    if v.len() != n {
        assert(repeated(v[0], n as int) =~= f.internal);
    }
}

/// What is written of a face flux is what is read of its file. An `empty` patch
/// comes back `empty` and without a value; every other patch, whatever its type,
/// comes back `calculated` with the flux of its faces.
pub proof fn written_surface_fields_read_back(
    f: FieldFile<Scalar>,
    base: Seq<char>,
    time: Seq<char>,
    p: nat,
    collapse: bool,
    path: Seq<char>,
    other: Seq<char>,
    faces: nat,
)
    requires
        is_scalar_field_kept(surface_field(f), p),
        is_enclosed(time),
        is_spelled(object_name(f.name, base)),
    ensures
        ({
            let c = if collapse { Collapse::Same } else { Collapse::Never };
            let b = carried_boundary(surface_boundary(f.boundary), false, c);
            &&& scalar_field_in(
                surface_field_text(f, base, time, p, collapse),
                path,
                other,
                faces,
            ) == assembled(
                Parts {
                    dimensions: written_dimensions(f.dimensions),
                    internal: Some(kept_scalars(f.internal, c)),
                    boundary: b,
                    patterns: pattern_keys(f.boundary, f.boundary.len() as int),
                },
                object_name(f.name, base),
                path,
                faces,
                nought(),
            )
            &&& forall|i: int|
                0 <= i < f.boundary.len() ==> is_carried_flux(f.boundary[i], #[trigger] b[i], c)
        }),
{
    let g = surface_field(f);
    let c = if collapse { Collapse::Same } else { Collapse::Never };
    let b = carried_boundary(surface_boundary(f.boundary), false, c);
    lemma_flux_class();
    written_scalar_fields_read_back(
        g,
        "surfaceScalarField"@,
        base,
        time,
        p,
        c,
        path,
        other,
        faces,
    );
    lemma_surface_patterns(f.boundary, f.boundary.len() as int);
    lemma_carried_fluxes(f.boundary, c);
}

proof fn lemma_carried_fluxes(f: Seq<Entry<PatchEntry>>, c: Collapse)
    ensures
        ({
            let b = carried_boundary(surface_boundary(f), false, c);
            &&& b.len() == f.len()
            &&& forall|i: int| 0 <= i < f.len() ==> is_carried_flux(f[i], #[trigger] b[i], c)
        }),
{
    let b = carried_boundary(surface_boundary(f), false, c);
    assert forall|i: int| 0 <= i < f.len() implies is_carried_flux(f[i], #[trigger] b[i], c) by {
        lemma_flux_types();
    }
}

/// Is `r` what is read of the entry `x` of a flux?
pub open spec fn is_carried_flux(x: Entry<PatchEntry>, r: Entry<PatchEntry>, c: Collapse) -> bool {
    &&& r.0 == x.0
    &&& if x.1.patch_type == "empty"@ {
        r.1.patch_type == "empty"@ && r.1.value.len() == 0
    } else {
        r.1.patch_type == "calculated"@ && r.1.value == kept_scalars(x.1.value, c)
    }
}

proof fn lemma_flux_class()
    ensures
        is_spelled("surfaceScalarField"@),
{
    reveal_strlit("surfaceScalarField");
    lemma_one_word("surfaceScalarField"@);
    lemma_word_is_spelled("surfaceScalarField"@);
}

/// A `calculated` patch has a value, an `empty` one has none.
proof fn lemma_flux_types()
    ensures
        "empty"@.len() > 0,
        "calculated"@.len() > 0,
        is_valueless("empty"@),
        !is_valueless("calculated"@),
{
    reveal_strlit("calculated");
    reveal_strlit("empty");
    reveal_strlit("cyclic");
    reveal_strlit("cyclicSlip");
    reveal_strlit("processor");
    reveal_strlit("wedge");
    reveal_strlit("symmetry");
    reveal_strlit("symmetryPlane");
    reveal_strlit("zeroGradient");
    reveal_strlit("noSlip");
    reveal_strlit("slip");
    assert("calculated"@[1] == 'a' && "cyclicSlip"@[1] == 'y');
}

proof fn lemma_surface_patterns(b: Seq<Entry<PatchEntry>>, n: int)
    requires
        0 <= n <= b.len(),
    ensures
        pattern_keys(surface_boundary(b), n) == pattern_keys(b, n),
    decreases n,
{
    if n > 0 {
        lemma_surface_patterns(b, n - 1);
        assert(surface_boundary(b)[n - 1].0 == b[n - 1].0);
    }
}

/// Are the numbers of a list numbers, and no more than a file can count?
pub open spec fn is_flux_list(v: Seq<Scalar>) -> bool {
    v.len() <= i32::MAX && forall|i: int| 0 <= i < v.len() ==> !(#[trigger] v[i]).is_nan()
}

/// Is a face flux such that its file is read as it is written? Its texts are such
/// that they are read as they stand, and it holds no value that is not a number.
pub open spec fn is_flux(f: FieldFile<Scalar>) -> bool {
    &&& f.dimensions.len() == 0 || is_spelled(f.dimensions)
    &&& is_flux_list(f.internal)
    &&& in_order(f.boundary)
    &&& forall|i: int|
        0 <= i < f.boundary.len() ==> {
            let e = (#[trigger] f.boundary[i]).1;
            &&& is_key(f.boundary[i].0)
            &&& carried_neighbour(e.neighbour_patch) matches Some(np) ==> is_spelled(np)
            &&& is_flux_list(e.ref_value) && is_flux_list(e.ref_gradient)
            &&& is_flux_list(e.value_fraction) && is_flux_list(e.inlet_value)
            &&& is_flux_list(e.gradient) && is_flux_list(e.value)
        }
}

proof fn lemma_flux_list(v: Seq<Scalar>)
    requires
        is_flux_list(v),
    ensures
        scalar_list_kept(v, PHI_PRECISION as nat),
{
    assert forall|i: int| 0 <= i < v.len() implies scalar_kept(
        #[trigger] v[i],
        PHI_PRECISION as nat,
    ) by {
        full_precision_keeps_numbers(v[i]);
    }
}

/// With the digits of [`PHI_PRECISION`] a face flux needs no more to come back than
/// numbers for values, whatever the types of its patches.
pub proof fn fluxes_are_kept(f: FieldFile<Scalar>)
    requires
        is_flux(f),
    ensures
        is_scalar_field_kept(surface_field(f), PHI_PRECISION as nat),
{
    let b = surface_boundary(f.boundary);
    lemma_flux_list(f.internal);
    assert(in_order(b)) by {
        assert forall|i: int, j: int| 0 <= i < j < b.len() implies before(
            #[trigger] b[i].0,
            #[trigger] b[j].0,
        ) by {
            assert(before(f.boundary[i].0, f.boundary[j].0));
        }
    }
    assert forall|i: int| 0 <= i < b.len() implies is_entry_kept(
        (#[trigger] b[i]).0,
        b[i].1,
        false,
        PHI_PRECISION as nat,
    ) by {
        let e = f.boundary[i].1;
        lemma_flux_list(e.ref_value);
        lemma_flux_list(e.ref_gradient);
        lemma_flux_list(e.value_fraction);
        lemma_flux_list(e.inlet_value);
        lemma_flux_list(e.gradient);
        lemma_flux_list(e.value);
        lemma_patch_words();
        reveal_strlit("calculated");
        lemma_word_is_spelled("calculated"@);
        reveal_strlit("empty");
        lemma_one_word("empty"@);
        lemma_word_is_spelled("empty"@);
    }
}

/// A list of a flux that is read, grown to its length, is the list that was written.
pub proof fn flux_lists_grow_back(v: Seq<Scalar>, c: Collapse, what: Seq<char>)
    requires
        v.len() > 0,
        c != Collapse::Equal,
    ensures
        expanded(kept_scalars(v, c), v.len(), nought(), what) == Ok::<Seq<Scalar>, Failure>(v),
{
    let k = kept_scalars(v, c);
    if k.len() != v.len() {
        assert(repeated(k[0], v.len() as int) =~= v);
    }
}

/// The entries of a flux that is read have the flux that was written.
pub open spec fn has_the_flux(
    f: Seq<Entry<PatchEntry>>,
    g: Seq<Entry<PatchEntry>>,
    what: Seq<char>,
) -> bool {
    &&& g.len() == f.len()
    &&& forall|i: int|
        0 <= i < f.len() ==> (#[trigger] g[i]).0 == f[i].0 && (f[i].1.patch_type != "empty"@
            && f[i].1.value.len() > 0 ==> expanded(
            g[i].1.value,
            f[i].1.value.len(),
            nought(),
            what,
        ) == Ok::<Seq<Scalar>, Failure>(f[i].1.value))
}

proof fn lemma_has_the_flux(
    f: Seq<Entry<PatchEntry>>,
    g: Seq<Entry<PatchEntry>>,
    c: Collapse,
    what: Seq<char>,
)
    requires
        c != Collapse::Equal,
        g.len() == f.len(),
        forall|i: int| 0 <= i < f.len() ==> is_carried_flux(f[i], #[trigger] g[i], c),
    ensures
        has_the_flux(f, g, what),
{
    assert forall|i: int| 0 <= i < f.len() implies (#[trigger] g[i]).0 == f[i].0 && (
    f[i].1.patch_type != "empty"@ && f[i].1.value.len() > 0 ==> expanded(
        g[i].1.value,
        f[i].1.value.len(),
        nought(),
        what,
    ) == Ok::<Seq<Scalar>, Failure>(f[i].1.value)) by {
        assert(is_carried_flux(f[i], g[i], c));
        if f[i].1.value.len() > 0 {
            flux_lists_grow_back(f[i].1.value, c, what);
        }
    }
}

/// What is assembled of parts whose internal list grows to `v`.
proof fn lemma_assembled(parts: Parts<Scalar>, name: Seq<char>, path: Seq<char>, v: Seq<Scalar>)
    requires
        v.len() > 0,
        parts.internal is Some,
        expanded(parts.internal->Some_0, v.len(), nought(), path + ": internalField"@) == Ok::<
            Seq<Scalar>,
            Failure,
        >(v),
    ensures
        assembled(parts, name, path, v.len(), nought()) == Ok::<FieldFile<Scalar>, Failure>(
            FieldFile {
                name,
                dimensions: parts.dimensions,
                internal: v,
                boundary: parts.boundary,
                patterns: parts.patterns,
            },
        ),
{
}

/// What is read of a face flux, before its lists grow.
spec fn flux_parts(f: FieldFile<Scalar>, c: Collapse) -> Parts<Scalar> {
    Parts {
        dimensions: written_dimensions(f.dimensions),
        internal: Some(kept_scalars(f.internal, c)),
        boundary: carried_boundary(surface_boundary(f.boundary), false, c),
        patterns: pattern_keys(f.boundary, f.boundary.len() as int),
    }
}

#[verifier::opaque]
spec fn flux_back(
    f: FieldFile<Scalar>,
    base: Seq<char>,
    time: Seq<char>,
    collapse: bool,
    path: Seq<char>,
    other: Seq<char>,
) -> Result<FieldFile<Scalar>, Failure> {
    scalar_field_in(
        surface_field_text(f, base, time, PHI_PRECISION as nat, collapse),
        path,
        other,
        f.internal.len(),
    )
}

#[verifier::rlimit(60)]
#[verifier::spinoff_prover]
proof fn lemma_flux_read(
    f: FieldFile<Scalar>,
    base: Seq<char>,
    time: Seq<char>,
    collapse: bool,
    path: Seq<char>,
    other: Seq<char>,
)
    requires
        is_flux(f),
        is_enclosed(time),
        is_spelled(object_name(f.name, base)),
    ensures
        flux_back(f, base, time, collapse, path, other) == assembled(
            flux_parts(f, if collapse { Collapse::Same } else { Collapse::Never }),
            object_name(f.name, base),
            path,
            f.internal.len(),
            nought(),
        ),
{
    reveal(flux_back);
    fluxes_are_kept(f);
    written_surface_fields_read_back(
        f,
        base,
        time,
        PHI_PRECISION as nat,
        collapse,
        path,
        other,
        f.internal.len(),
    );
}

/// What is assembled of the parts of a flux is the flux.
proof fn lemma_flux_assembled(
    f: FieldFile<Scalar>,
    name: Seq<char>,
    c: Collapse,
    path: Seq<char>,
    other: Seq<char>,
)
    requires
        f.internal.len() > 0,
        c != Collapse::Equal,
    ensures
        assembled(flux_parts(f, c), name, path, f.internal.len(), nought()) matches Ok(g)
            && g.internal == f.internal && has_the_flux(f.boundary, g.boundary, other),
{
    flux_lists_grow_back(f.internal, c, path + ": internalField"@);
    lemma_assembled(flux_parts(f, c), name, path, f.internal);
    lemma_carried_fluxes(f.boundary, c);
    lemma_has_the_flux(f.boundary, flux_parts(f, c).boundary, c, other);
}

/// A face flux is read back bit for bit: the flux of every internal face, and of every
/// face of every patch but the `empty` ones, which have none.
pub proof fn fluxes_come_back(
    f: FieldFile<Scalar>,
    base: Seq<char>,
    time: Seq<char>,
    collapse: bool,
    path: Seq<char>,
    other: Seq<char>,
)
    requires
        is_flux(f),
        is_enclosed(time),
        is_spelled(object_name(f.name, base)),
        f.internal.len() > 0,
    ensures
        scalar_field_in(
            surface_field_text(f, base, time, PHI_PRECISION as nat, collapse),
            path,
            other,
            f.internal.len(),
        ) matches Ok(g) && g.internal == f.internal && has_the_flux(f.boundary, g.boundary, other),
{
    let c = if collapse { Collapse::Same } else { Collapse::Never };
    lemma_flux_read(f, base, time, collapse, path, other);
    lemma_flux_assembled(f, object_name(f.name, base), c, path, other);
    reveal(flux_back);
}

} // verus!
