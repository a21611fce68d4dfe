//! Cell fields and face fluxes, as a case's files hold them.
//!
//! An entry is `uniform <v>;`, `nonuniform List<scalar> N ( ... );` (the list's
//! type may be missing, as in the `nonuniform 0()` of a patch without faces), the
//! all-equal `N{v}`, or a bare list. Lists are kept as they are written: length
//! one stands for `uniform`, and nothing here knows the size of a patch.
//!
//! A quoted patch key is a regular expression. It keeps its quotes, so that it
//! can never be taken for a patch of that name, and the order of the file is kept
//! as the tie-break between two expressions that both match.

use vstd::prelude::*;

use crate::dict::{
    find_last_number, has_prefix, ignored_text, last_number, note_ignored, starts_with, stored_key,
    unquoted,
};
use crate::digits::{format_general, general};
use crate::error::{Error, Failure};
use crate::mesh::{copy_list, filled, origin, repeated, Vec3};
use crate::reader::{
    closed_by, gather_raw, gather_until, list_at, no_punct, number_at, number_reader, raw_at,
    raw_until, read_numbers, read_vector, read_vectors, vector_at, vector_reader, Read,
};
use crate::regex::{compiled, derives, Regex};
use crate::scalar::Scalar;
use crate::table::{
    find_value, in_order, lookup, pairs, put, put_keeps_order, put_value, Entry, Pair,
};
use crate::text::{
    chars_of, copy, decimal, digit, is_digit, is_letter, letter, push_decimal, push_text, same,
    string_between, texts, words,
};
use crate::tokenizer::{
    binary_message, check_ascii_format, entry_end, fresh, is_binary, Stream, Tok, Token, Tokenizer,
};

verus! {

// --------------------------------------------------------------------------
//  What a file holds
// --------------------------------------------------------------------------
/// One `boundaryField` entry, with the keys it carried.
///
/// Every list is as written: length one means `uniform`. An empty list is a key
/// that is absent, or a patch without faces.
#[derive(Debug, Clone)]
pub struct PatchFieldSpec {
    pub patch_type: String,
    /// On a `cyclic` patch only.
    pub neighbour_patch: Option<String>,
    pub value: Vec<Scalar>,
    pub value_v: Vec<Vec3>,
    pub gradient: Vec<Scalar>,
    pub gradient_v: Vec<Vec3>,
    pub ref_value: Vec<Scalar>,
    pub ref_value_v: Vec<Vec3>,
    pub ref_gradient: Vec<Scalar>,
    pub ref_gradient_v: Vec<Vec3>,
    pub inlet_value: Vec<Scalar>,
    pub inlet_value_v: Vec<Vec3>,
    /// A number whatever the rank: a mixed condition blends every component
    /// with the same fraction.
    pub value_fraction: Vec<Scalar>,
    /// Every other key, as written: what it means is known to the condition
    /// that wants it. Sub-dictionaries are left out.
    pub extra: Vec<(String, String)>,
}

/// The contents of a [`PatchFieldSpec`].
#[verifier::ext_equal]
pub struct PatchEntry {
    pub patch_type: Seq<char>,
    pub neighbour_patch: Option<Seq<char>>,
    pub value: Seq<Scalar>,
    pub value_v: Seq<Vec3>,
    pub gradient: Seq<Scalar>,
    pub gradient_v: Seq<Vec3>,
    pub ref_value: Seq<Scalar>,
    pub ref_value_v: Seq<Vec3>,
    pub ref_gradient: Seq<Scalar>,
    pub ref_gradient_v: Seq<Vec3>,
    pub inlet_value: Seq<Scalar>,
    pub inlet_value_v: Seq<Vec3>,
    pub value_fraction: Seq<Scalar>,
    pub extra: Seq<Pair>,
}

pub open spec fn text_in(t: Option<String>) -> Option<Seq<char>> {
    match t {
        Some(s) => Some(s@),
        None => None,
    }
}

impl View for PatchFieldSpec {
    type V = PatchEntry;

    open spec fn view(&self) -> PatchEntry {
        PatchEntry {
            patch_type: self.patch_type@,
            neighbour_patch: text_in(self.neighbour_patch),
            value: self.value@,
            value_v: self.value_v@,
            gradient: self.gradient@,
            gradient_v: self.gradient_v@,
            ref_value: self.ref_value@,
            ref_value_v: self.ref_value_v@,
            ref_gradient: self.ref_gradient@,
            ref_gradient_v: self.ref_gradient_v@,
            inlet_value: self.inlet_value@,
            inlet_value_v: self.inlet_value_v@,
            value_fraction: self.value_fraction@,
            extra: pairs(self.extra@),
        }
    }
}

/// An entry without a key.
pub open spec fn blank_patch() -> PatchEntry {
    PatchEntry {
        patch_type: Seq::empty(),
        neighbour_patch: None,
        value: Seq::empty(),
        value_v: Seq::empty(),
        gradient: Seq::empty(),
        gradient_v: Seq::empty(),
        ref_value: Seq::empty(),
        ref_value_v: Seq::empty(),
        ref_gradient: Seq::empty(),
        ref_gradient_v: Seq::empty(),
        inlet_value: Seq::empty(),
        inlet_value_v: Seq::empty(),
        value_fraction: Seq::empty(),
        extra: Seq::empty(),
    }
}

/// What [`PatchFieldSpec::number`] finds.
pub open spec fn extra_number(e: PatchEntry, key: Seq<char>, patch: Seq<char>) -> Result<
    Option<Scalar>,
    Failure,
> {
    match lookup(e.extra, key) {
        None => Ok(None),
        Some(raw) => match last_number(words(raw, 0)) {
            Some(v) => Ok(Some(v)),
            None => Err(Failure::Field { field: patch, msg: not_a_number_text(key, raw) }),
        },
    }
}

pub open spec fn not_a_number_text(key: Seq<char>, raw: Seq<char>) -> Seq<char> {
    key
        + ": \""@
        + raw
        + "\" is not a number"@
}

fn not_a_number_message(key: &str, raw: &str) -> (r: String)
    ensures
        r@ == not_a_number_text(key@, raw@),
{
    let mut s = copy(key);
    push_text(&mut s, ": \"");
    push_text(&mut s, raw);
    push_text(&mut s, "\" is not a number");
    s
}

pub open spec fn wanted_key_text(wanted_by: Seq<char>, key: Seq<char>) -> Seq<char> {
    wanted_by
        + " needs a `"@
        + key
        + "` entry and the patch has none"@
}

fn wanted_key_message(wanted_by: &str, key: &str) -> (r: String)
    ensures
        r@ == wanted_key_text(wanted_by@, key@),
{
    let mut s = copy(wanted_by);
    push_text(&mut s, " needs a `");
    push_text(&mut s, key);
    push_text(&mut s, "` entry and the patch has none");
    s
}

impl PatchFieldSpec {
    /// An entry without a key.
    pub fn blank() -> (r: PatchFieldSpec)
        ensures
            r@ == blank_patch(),
    {
        let r = PatchFieldSpec {
            patch_type: String::new(),
            neighbour_patch: None,
            value: Vec::new(),
            value_v: Vec::new(),
            gradient: Vec::new(),
            gradient_v: Vec::new(),
            ref_value: Vec::new(),
            ref_value_v: Vec::new(),
            ref_gradient: Vec::new(),
            ref_gradient_v: Vec::new(),
            inlet_value: Vec::new(),
            inlet_value_v: Vec::new(),
            value_fraction: Vec::new(),
            extra: Vec::new(),
        };
        assert(r@ =~= blank_patch());
        r
    }

    /// One number out of the other keys: the last one of the text, so that
    /// `uniform 0.05`, `0.05` and a dimensioned value all read. `None` is a key
    /// that is absent; one that does not read is an error.
    pub fn number(&self, key: &str, patch: &str) -> (r: Result<Option<Scalar>, Error>)
        ensures
            match (r, extra_number(self@, key@, patch@)) {
                (Ok(a), Ok(b)) => a == b,
                (Err(e), Err(f)) => e@ == f,
                _ => false,
            },
    {
        match find_value(&self.extra, key) {
            None => Ok(None),
            Some(raw) => match find_last_number(raw) {
                Some(v) => Ok(Some(v)),
                None => Err(
                    Error::Field { field: copy(patch), msg: not_a_number_message(key, raw) },
                ),
            },
        }
    }

    /// [`Self::number`] for a key that has to be there.
    pub fn required_number(&self, key: &str, patch: &str, wanted_by: &str) -> (r: Result<
        Scalar,
        Error,
    >)
        ensures
            match (r, extra_number(self@, key@, patch@)) {
                (Ok(a), Ok(Some(b))) => a == b,
                (Err(e), Ok(None)) => e@ == (Failure::Field {
                    field: patch@,
                    msg: wanted_key_text(wanted_by@, key@),
                }),
                (Err(e), Err(f)) => e@ == f,
                _ => false,
            },
    {
        match self.number(key, patch) {
            Ok(Some(v)) => Ok(v),
            Ok(None) => Err(
                Error::Field { field: copy(patch), msg: wanted_key_message(wanted_by, key) },
            ),
            Err(e) => Err(e),
        }
    }

    /// The entry with nothing but its type and its other keys.
    fn types_only(&self) -> (r: PatchFieldSpec)
        ensures
            r@ == only_types(self@),
    {
        let mut r = PatchFieldSpec::blank();
        r.patch_type = copy(&self.patch_type);
        r.extra = copy_texts(&self.extra);
        assert(r@ =~= only_types(self@));
        r
    }
}

pub open spec fn only_types(e: PatchEntry) -> PatchEntry {
    PatchEntry { patch_type: e.patch_type, extra: e.extra, ..blank_patch() }
}

/// The boundary of [`RawScalarField::types_only`].
pub open spec fn all_types(b: Seq<Entry<PatchEntry>>) -> Seq<Entry<PatchEntry>> {
    b.map_values(|e: Entry<PatchEntry>| (e.0, only_types(e.1)))
}

fn copy_texts(t: &Vec<(String, String)>) -> (r: Vec<(String, String)>)
    ensures
        pairs(r@) == pairs(t@),
{
    let mut r: Vec<(String, String)> = Vec::new();
    let mut i: usize = 0;
    while i < t.len()
        invariant
            i <= t.len(),
            r.len() == i,
            forall|k: int|
                0 <= k < i ==> (#[trigger] r@[k]).0@ == t@[k].0@ && r@[k].1@ == t@[k].1@,
        decreases t.len() - i,
    {
        let k = copy(&t[i].0);
        let v = copy(&t[i].1);
        r.push((k, v));
        i = i + 1;
    }
    assert(pairs(r@) =~= pairs(t@));
    r
}

fn copy_types(t: &Vec<(String, PatchFieldSpec)>) -> (r: Vec<(String, PatchFieldSpec)>)
    ensures
        pairs(r@) == all_types(pairs(t@)),
{
    let mut r: Vec<(String, PatchFieldSpec)> = Vec::new();
    let mut i: usize = 0;
    while i < t.len()
        invariant
            i <= t.len(),
            r.len() == i,
            forall|k: int|
                0 <= k < i ==> (#[trigger] r@[k]).0@ == t@[k].0@ && r@[k].1@ == only_types(
                    t@[k].1@,
                ),
        decreases t.len() - i,
    {
        let k = copy(&t[i].0);
        let v = t[i].1.types_only();
        r.push((k, v));
        i = i + 1;
    }
    assert(pairs(r@) =~= all_types(pairs(t@)));
    r
}

fn copy_names(t: &Vec<String>) -> (r: Vec<String>)
    ensures
        texts(r@) == texts(t@),
{
    let mut r: Vec<String> = Vec::new();
    let mut i: usize = 0;
    while i < t.len()
        invariant
            i <= t.len(),
            r.len() == i,
            forall|k: int| 0 <= k < i ==> (#[trigger] r@[k])@ == t@[k]@,
        decreases t.len() - i,
    {
        r.push(copy(&t[i]));
        i = i + 1;
    }
    assert(texts(r@) =~= texts(t@));
    r
}

/// The contents of a field's file.
#[verifier::ext_equal]
pub struct FieldFile<T> {
    pub name: Seq<char>,
    pub dimensions: Seq<char>,
    pub internal: Seq<T>,
    pub boundary: Seq<Entry<PatchEntry>>,
    pub patterns: Seq<Seq<char>>,
}

/// The key of the entry that governs a patch.
pub open spec fn governing_entry(
    boundary: Seq<Entry<PatchEntry>>,
    patterns: Seq<Seq<char>>,
    patch: Seq<char>,
) -> Result<Option<Seq<char>>, Failure> {
    if lookup(boundary, patch) is Some {
        Ok(Some(patch))
    } else {
        first_pattern(patterns, patch, 0)
    }
}

/// The first quoted key, from the `i`-th on, whose expression matches.
pub open spec fn first_pattern(patterns: Seq<Seq<char>>, patch: Seq<char>, i: int) -> Result<
    Option<Seq<char>>,
    Failure,
>
    decreases patterns.len() - i,
{
    if i < 0 || i >= patterns.len() {
        Ok(None)
    } else {
        match unquoted(patterns[i]) {
            None => first_pattern(patterns, patch, i + 1),
            Some(text) => match compiled(text) {
                Err(e) => Err(Failure::Config(e)),
                Ok(re) => if derives(re, patch, 0, patch.len() as int) {
                    Ok(Some(patterns[i]))
                } else {
                    first_pattern(patterns, patch, i + 1)
                },
            },
        }
    }
}

/// Which entry governs `patch`: the one under its own name, else the first quoted
/// key, in the order of the file, whose expression matches. The key comes back as
/// it is stored; a malformed expression is an error.
pub fn governing_key(
    boundary: &Vec<(String, PatchFieldSpec)>,
    patterns: &Vec<String>,
    patch: &str,
) -> (r: Result<Option<String>, Error>)
    requires
        patch@.len() < usize::MAX,
    ensures
        match (r, governing_entry(pairs(boundary@), texts(patterns@), patch@)) {
            (Ok(Some(a)), Ok(Some(b))) => a@ == b,
            (Ok(None), Ok(None)) => true,
            (Err(e), Err(f)) => e@ == f,
            _ => false,
        },
{
    if find_value(boundary, patch).is_some() {
        return Ok(Some(copy(patch)));
    }
    let ghost pats = texts(patterns@);
    let mut i: usize = 0;
    while i < patterns.len()
        invariant
            i <= patterns.len(),
            pats == texts(patterns@),
            patch@.len() < usize::MAX,
            governing_entry(pairs(boundary@), pats, patch@) == first_pattern(pats, patch@, i as int),
        decreases patterns.len() - i,
    {
        let key = chars_of(&patterns[i]);
        assert(pats[i as int] == key@);
        if key.len() >= 2 && key[0] == '"' && key[key.len() - 1] == '"' {
            let text = string_between(&key, 1, key.len() - 1);
            match Regex::new(&text) {
                Err(e) => {
                    return Err(Error::Config(e));
                },
                Ok(re) => {
                    if re.is_match(patch) {
                        return Ok(Some(copy(&patterns[i])));
                    }
                },
            }
        }
        i = i + 1;
    }
    Ok(None)
}

/// A patch with an entry of its own is governed by it, whatever the patterns.
pub proof fn own_entry_governs(
    boundary: Seq<Entry<PatchEntry>>,
    patterns: Seq<Seq<char>>,
    patch: Seq<char>,
)
    requires
        lookup(boundary, patch) is Some,
    ensures
        governing_entry(boundary, patterns, patch) == Ok::<_, Failure>(Some(patch)),
{
}

impl Default for PatchFieldSpec {
    fn default() -> (r: PatchFieldSpec)
        ensures
            r@ == blank_patch(),
    {
        PatchFieldSpec::blank()
    }
}

/// A field of numbers, as its file holds it.
#[derive(Debug, Clone)]
pub struct RawScalarField {
    pub name: String,
    /// As text: nothing checks dimensions, and what is read is written back.
    pub dimensions: String,
    pub internal: Vec<Scalar>,
    /// The entries in the order of their keys: patch names, and patterns with
    /// their quotes.
    pub boundary: Vec<(String, PatchFieldSpec)>,
    /// The quoted keys, in the order of the file.
    pub boundary_patterns: Vec<String>,
}

impl View for RawScalarField {
    type V = FieldFile<Scalar>;

    open spec fn view(&self) -> FieldFile<Scalar> {
        FieldFile {
            name: self.name@,
            dimensions: self.dimensions@,
            internal: self.internal@,
            boundary: pairs(self.boundary@),
            patterns: texts(self.boundary_patterns@),
        }
    }
}

impl Default for RawScalarField {
    /// A field of nothing.
    fn default() -> (r: RawScalarField)
        ensures
            r@.name.len() == 0,
            r@.dimensions.len() == 0,
            r@.internal == Seq::<Scalar>::empty(),
            r@.boundary.len() == 0,
            r@.patterns.len() == 0,
    {
        RawScalarField {
            name: String::new(),
            dimensions: String::new(),
            internal: Vec::new(),
            boundary: Vec::new(),
            boundary_patterns: Vec::new(),
        }
    }
}

impl RawScalarField {
    /// The entry that governs `patch`.
    pub fn patch_spec(&self, patch: &str) -> (r: Result<Option<&PatchFieldSpec>, Error>)
        requires
            patch@.len() < usize::MAX,
        ensures
            match (r, governing_entry(self@.boundary, self@.patterns, patch@)) {
                (Ok(Some(a)), Ok(Some(k))) => lookup(self@.boundary, k) == Some(a@),
                (Ok(None), Ok(Some(k))) => lookup(self@.boundary, k) is None,
                (Ok(None), Ok(None)) => true,
                (Err(e), Err(f)) => e@ == f,
                _ => false,
            },
    {
        match governing_key(&self.boundary, &self.boundary_patterns, patch) {
            Ok(Some(k)) => Ok(find_value(&self.boundary, &k)),
            Ok(None) => Ok(None),
            Err(e) => Err(e),
        }
    }

    /// The key of that entry.
    pub fn spec_key(&self, patch: &str) -> (r: Result<Option<String>, Error>)
        requires
            patch@.len() < usize::MAX,
        ensures
            match (r, governing_entry(self@.boundary, self@.patterns, patch@)) {
                (Ok(Some(a)), Ok(Some(b))) => a@ == b,
                (Ok(None), Ok(None)) => true,
                (Err(e), Err(f)) => e@ == f,
                _ => false,
            },
    {
        governing_key(&self.boundary, &self.boundary_patterns, patch)
    }

    /// A copy with the types of the boundary only: what an output field starts
    /// from, so that it still names the conditions of the input.
    pub fn types_only(&self) -> (r: RawScalarField)
        ensures
            r@ == (FieldFile {
                name: Seq::empty(),
                dimensions: Seq::empty(),
                internal: Seq::<Scalar>::empty(),
                boundary: all_types(self@.boundary),
                patterns: self@.patterns,
            }),
    {
        RawScalarField {
            name: String::new(),
            dimensions: String::new(),
            internal: Vec::new(),
            boundary: copy_types(&self.boundary),
            boundary_patterns: copy_names(&self.boundary_patterns),
        }
    }
}

/// A field of vectors, as its file holds it.
#[derive(Debug, Clone)]
pub struct RawVectorField {
    pub name: String,
    /// As text: nothing checks dimensions, and what is read is written back.
    pub dimensions: String,
    pub internal: Vec<Vec3>,
    /// The entries in the order of their keys: patch names, and patterns with
    /// their quotes.
    pub boundary: Vec<(String, PatchFieldSpec)>,
    /// The quoted keys, in the order of the file.
    pub boundary_patterns: Vec<String>,
}

impl View for RawVectorField {
    type V = FieldFile<Vec3>;

    open spec fn view(&self) -> FieldFile<Vec3> {
        FieldFile {
            name: self.name@,
            dimensions: self.dimensions@,
            internal: self.internal@,
            boundary: pairs(self.boundary@),
            patterns: texts(self.boundary_patterns@),
        }
    }
}

impl Default for RawVectorField {
    /// A field of nothing.
    fn default() -> (r: RawVectorField)
        ensures
            r@.name.len() == 0,
            r@.dimensions.len() == 0,
            r@.internal == Seq::<Vec3>::empty(),
            r@.boundary.len() == 0,
            r@.patterns.len() == 0,
    {
        RawVectorField {
            name: String::new(),
            dimensions: String::new(),
            internal: Vec::new(),
            boundary: Vec::new(),
            boundary_patterns: Vec::new(),
        }
    }
}

impl RawVectorField {
    /// The entry that governs `patch`.
    pub fn patch_spec(&self, patch: &str) -> (r: Result<Option<&PatchFieldSpec>, Error>)
        requires
            patch@.len() < usize::MAX,
        ensures
            match (r, governing_entry(self@.boundary, self@.patterns, patch@)) {
                (Ok(Some(a)), Ok(Some(k))) => lookup(self@.boundary, k) == Some(a@),
                (Ok(None), Ok(Some(k))) => lookup(self@.boundary, k) is None,
                (Ok(None), Ok(None)) => true,
                (Err(e), Err(f)) => e@ == f,
                _ => false,
            },
    {
        match governing_key(&self.boundary, &self.boundary_patterns, patch) {
            Ok(Some(k)) => Ok(find_value(&self.boundary, &k)),
            Ok(None) => Ok(None),
            Err(e) => Err(e),
        }
    }

    /// The key of that entry.
    pub fn spec_key(&self, patch: &str) -> (r: Result<Option<String>, Error>)
        requires
            patch@.len() < usize::MAX,
        ensures
            match (r, governing_entry(self@.boundary, self@.patterns, patch@)) {
                (Ok(Some(a)), Ok(Some(b))) => a@ == b,
                (Ok(None), Ok(None)) => true,
                (Err(e), Err(f)) => e@ == f,
                _ => false,
            },
    {
        governing_key(&self.boundary, &self.boundary_patterns, patch)
    }

    /// A copy with the types of the boundary only: what an output field starts
    /// from, so that it still names the conditions of the input.
    pub fn types_only(&self) -> (r: RawVectorField)
        ensures
            r@ == (FieldFile {
                name: Seq::empty(),
                dimensions: Seq::empty(),
                internal: Seq::<Vec3>::empty(),
                boundary: all_types(self@.boundary),
                patterns: self@.patterns,
            }),
    {
        RawVectorField {
            name: String::new(),
            dimensions: String::new(),
            internal: Vec::new(),
            boundary: copy_types(&self.boundary),
            boundary_patterns: copy_names(&self.boundary_patterns),
        }
    }
}

// --------------------------------------------------------------------------
//  Expansion
// --------------------------------------------------------------------------
pub open spec fn size_mismatch_text(n: nat, got: nat) -> Seq<char> {
    "expected "@
        + decimal(n)
        + " values (or one uniform value), got "@
        + decimal(got)
}

fn size_mismatch_message(n: usize, got: usize) -> (r: String)
    ensures
        r@ == size_mismatch_text(n as nat, got as nat),
{
    let mut s = copy("expected ");
    push_decimal(&mut s, n as u64);
    push_text(&mut s, " values (or one uniform value), got ");
    push_decimal(&mut s, got as u64);
    s
}

/// A list grown to `n` entries: one that has them stays, one value is repeated,
/// and an absent list is `zero` throughout.
pub open spec fn expanded<T>(v: Seq<T>, n: nat, zero: T, what: Seq<char>) -> Result<Seq<T>, Failure> {
    if v.len() == n {
        Ok(v)
    } else if v.len() == 1 {
        Ok(repeated(v[0], n as int))
    } else if v.len() == 0 {
        Ok(repeated(zero, n as int))
    } else {
        Err(Failure::Field { field: what, msg: size_mismatch_text(n, v.len()) })
    }
}

fn size_mismatch(what: &str, n: usize, got: usize) -> (e: Error)
    ensures
        e@ == (Failure::Field { field: what@, msg: size_mismatch_text(n as nat, got as nat) }),
{
    Error::Field { field: copy(what), msg: size_mismatch_message(n, got) }
}

/// The zero of numbers.
pub open spec fn nought() -> Scalar {
    Scalar { bits: 0 }
}

/// Grow a `uniform` list or one as written to exactly `n` entries.
pub fn expand_scalars(v: &Vec<Scalar>, n: usize, what: &str) -> (r: Result<Vec<Scalar>, Error>)
    ensures
        match (r, expanded(v@, n as nat, nought(), what@)) {
            (Ok(a), Ok(b)) => a@ == b,
            (Err(e), Err(f)) => e@ == f,
            _ => false,
        },
{
    if v.len() == n {
        return Ok(copy_list(v));
    }
    if v.len() == 1 {
        return Ok(filled(v[0], n));
    }
    if v.len() == 0 {
        return Ok(filled(Scalar { bits: 0 }, n));
    }
    Err(size_mismatch(what, n, v.len()))
}

/// Grow a `uniform` list or one as written to exactly `n` entries.
pub fn expand_vectors(v: &Vec<Vec3>, n: usize, what: &str) -> (r: Result<Vec<Vec3>, Error>)
    ensures
        match (r, expanded(v@, n as nat, origin(), what@)) {
            (Ok(a), Ok(b)) => a@ == b,
            (Err(e), Err(f)) => e@ == f,
            _ => false,
        },
{
    if v.len() == n {
        return Ok(copy_list(v));
    }
    if v.len() == 1 {
        return Ok(filled(v[0], n));
    }
    if v.len() == 0 {
        return Ok(filled(Vec3::zero(), n));
    }
    Err(size_mismatch(what, n, v.len()))
}

// --------------------------------------------------------------------------
//  Entries
// --------------------------------------------------------------------------
/// One value as a list of one.
pub open spec fn single<T>(r: Read<T>) -> Read<Seq<T>> {
    match r {
        Ok((v, e)) => Ok((seq![v], e)),
        Err(f) => Err(f),
    }
}

/// Behind `nonuniform`, the list's type is optional.
pub open spec fn list_start(s: Stream) -> Stream {
    if s.ahead(0) matches Some(t) && t is Word {
        s.to(s.pos + 1)
    } else {
        s
    }
}

/// The list of numbers that an entry holds, up to its `;`.
pub open spec fn scalar_entry(s: Stream) -> Read<Seq<Scalar>> {
    let next = s.to(s.pos + 1);
    if s.is_word("uniform"@) {
        closed_by(s, single(number_at(next)), ';')
    } else if s.is_word("nonuniform"@) {
        closed_by(s, list_at(list_start(next), "negative list size"@, true, number_reader()), ';')
    } else if s.is_punct('(') {
        closed_by(s, list_at(s, "negative list size"@, true, number_reader()), ';')
    } else if s.ahead(0) matches Some(t) && t is Num {
        if s.ahead(1) == Some(Token::Punct(';')) {
            closed_by(s, single(number_at(s)), ';')
        } else {
            closed_by(s, list_at(s, "negative list size"@, true, number_reader()), ';')
        }
    } else {
        Err(s.failure("expected 'uniform' or 'nonuniform'"@))
    }
}

/// The list of vectors that an entry holds, up to its `;`.
pub open spec fn vector_entry(s: Stream) -> Read<Seq<Vec3>> {
    let next = s.to(s.pos + 1);
    if s.is_word("uniform"@) {
        closed_by(s, single(vector_at(next)), ';')
    } else if s.is_word("nonuniform"@) {
        closed_by(s, list_at(list_start(next), "negative list size"@, true, vector_reader()), ';')
    } else if s.is_punct('(') {
        if s.ahead(1) == Some(Token::Punct('(')) {
            closed_by(s, list_at(s, "negative list size"@, true, vector_reader()), ';')
        } else {
            closed_by(s, single(vector_at(s)), ';')
        }
    } else if s.ahead(0) matches Some(t) && t is Num {
        closed_by(s, list_at(s, "negative list size"@, true, vector_reader()), ';')
    } else {
        Err(s.failure("expected 'uniform' or 'nonuniform'"@))
    }
}

/// What was read of an entry agrees with what is there, and the stream moves on.
pub open spec fn takes<T>(before: Stream, r: Result<Vec<T>, Error>, after: Stream, want: Read<Seq<T>>) -> bool {
    match (r, want) {
        (Ok(v), Ok((w, e))) => v@ == w && after == before.to(e) && before.pos < e,
        (Err(e), Err(f)) => e@ == f,
        _ => false,
    }
}

fn at_number(ts: &Tokenizer) -> (r: bool)
    requires
        ts.wf(),
    ensures
        r == (ts@.ahead(0) matches Some(t) && t is Num),
{
    match ts.peek_at(0) {
        Some(Tok::Num(_)) => true,
        _ => false,
    }
}

fn at_word(ts: &Tokenizer) -> (r: bool)
    requires
        ts.wf(),
    ensures
        r == (ts@.ahead(0) matches Some(t) && t is Word),
{
    match ts.peek_at(0) {
        Some(Tok::Word(_)) => true,
        _ => false,
    }
}

fn at_mark(ts: &Tokenizer) -> (r: bool)
    requires
        ts.wf(),
    ensures
        r == (ts@.ahead(0) matches Some(t) && t is Punct),
{
    match ts.peek_at(0) {
        Some(t) => t.is_punct_any(),
        None => false,
    }
}

fn parse_scalar_entry(ts: &mut Tokenizer) -> (r: Result<Vec<Scalar>, Error>)
    requires
        old(ts).wf(),
    ensures
        final(ts).wf(),
        takes(old(ts)@, r, final(ts)@, scalar_entry(old(ts)@)),
{
    let ghost s = ts@;
    proof {
        ts.lemma_wf();
    }
    let one: bool;
    if ts.is_word("uniform") {
        ts.advance();
        one = true;
    } else if ts.is_word("nonuniform") {
        ts.advance();
        if at_word(ts) {
            ts.advance();
        }
        one = false;
    } else if ts.is_punct('(') {
        one = false;
    } else if at_number(ts) {
        one = ts.is_punct_at(';', 1);
    } else {
        return Err(ts.err("expected 'uniform' or 'nonuniform'"));
    }
    let out: Vec<Scalar> = if one {
        match ts.expect_num() {
            Ok(v) => {
                let list = vec![v];
                assert(list@ =~= seq![v]);
                list
            },
            Err(e) => {
                return Err(e);
            },
        }
    } else {
        match read_numbers(ts, "negative list size", true) {
            Ok(v) => v,
            Err(e) => {
                return Err(e);
            },
        }
    };
    match ts.expect_punct(';') {
        Ok(_) => Ok(out),
        Err(e) => Err(e),
    }
}

fn parse_vector_entry(ts: &mut Tokenizer) -> (r: Result<Vec<Vec3>, Error>)
    requires
        old(ts).wf(),
    ensures
        final(ts).wf(),
        takes(old(ts)@, r, final(ts)@, vector_entry(old(ts)@)),
{
    let ghost s = ts@;
    proof {
        ts.lemma_wf();
    }
    let one: bool;
    if ts.is_word("uniform") {
        ts.advance();
        one = true;
    } else if ts.is_word("nonuniform") {
        ts.advance();
        if at_word(ts) {
            ts.advance();
        }
        one = false;
    } else if ts.is_punct('(') {
        one = !ts.is_punct_at('(', 1);
    } else if at_number(ts) {
        one = false;
    } else {
        return Err(ts.err("expected 'uniform' or 'nonuniform'"));
    }
    let out: Vec<Vec3> = if one {
        match read_vector(ts) {
            Ok(v) => {
                let list = vec![v];
                assert(list@ =~= seq![v]);
                list
            },
            Err(e) => {
                return Err(e);
            },
        }
    } else {
        match read_vectors(ts, "negative list size", true) {
            Ok(v) => v,
            Err(e) => {
                return Err(e);
            },
        }
    };
    match ts.expect_punct(';') {
        Ok(_) => Ok(out),
        Err(e) => Err(e),
    }
}

// --------------------------------------------------------------------------
//  Directives and the header
// --------------------------------------------------------------------------
/// Behind a directive that is not evaluated. One that names a file carries no
/// `;`, so that what follows it is an entry of its own.
pub open spec fn directive_end(s: Stream, key: Seq<char>) -> Result<int, Failure> {
    if starts_with(key, "#include"@) {
        let a = if s.ahead(0) matches Some(t) && !(t is Punct) {
            s.pos + 1
        } else {
            s.pos
        };
        Ok(
            if s.to(a).is_punct(';') {
                a + 1
            } else {
                a
            },
        )
    } else if s.done() || s.is_punct('}') {
        Ok(s.pos)
    } else {
        entry_end(s)
    }
}

fn skip_directive(ts: &mut Tokenizer, key: &str, notes: &mut Vec<String>) -> (r: Result<(), Error>)
    requires
        old(ts).wf(),
    ensures
        final(ts).wf(),
        texts(final(notes)@) == texts(old(notes)@).push(ignored_text(old(ts)@.path, key@)),
        old(ts)@.pos <= final(ts)@.pos || r is Err,
        match (r, directive_end(old(ts)@, key@)) {
            (Ok(_), Ok(e)) => final(ts)@ == old(ts)@.to(e),
            (Err(e), Err(f)) => e@ == f,
            _ => false,
        },
{
    let ghost s = ts@;
    proof {
        ts.lemma_wf();
        assert(s.to(s.pos) == s);
    }
    note_ignored(notes, ts.path(), key);
    if has_prefix(key, "#include") {
        if !ts.done() && !at_mark(ts) {
            ts.advance();
        }
        if ts.is_punct(';') {
            ts.advance();
        }
        return Ok(());
    }
    if ts.done() || ts.is_punct('}') {
        return Ok(());
    }
    ts.skip_entry()
}

/// The entries of a `FoamFile` block from here to its brace.
pub open spec fn header_body(s: Stream, t: Seq<Pair>) -> Read<Seq<Pair>>
    decreases s.toks.len() - s.pos,
{
    if s.done() || s.is_punct('}') {
        Ok((t, s.pos))
    } else {
        match header_step(s, t) {
            Err(f) => Err(f),
            Ok((u, e)) => if e <= s.pos || e > s.toks.len() {
                Ok((t, s.pos))
            } else {
                header_body(s.to(e), u)
            },
        }
    }
}

/// One entry of a `FoamFile` block.
pub open spec fn header_step(s: Stream, t: Seq<Pair>) -> Read<Seq<Pair>> {
    if s.is_punct(';') {
        Ok((t, s.pos + 1))
    } else {
        match s.ahead(0) {
            None => Err(s.failure("expected a name"@)),
            Some(k) => if k is Punct {
                Err(s.failure("expected a name"@))
            } else {
                let v = s.to(s.pos + 1);
                if v.is_punct('{') {
                    match entry_end(v) {
                        Ok(e) => Ok((t, e)),
                        Err(f) => Err(f),
                    }
                } else {
                    match raw_until(
                        v,
                        Seq::empty(),
                        "missing ';' in FoamFile header"@,
                        "expected ';' in FoamFile header"@,
                    ) {
                        Ok((w, e)) => Ok((put(t, k.text(), w), e)),
                        Err(f) => Err(f),
                    }
                }
            },
        }
    }
}

/// The `FoamFile` header, where there is one.
pub open spec fn header_at(s: Stream) -> Read<Seq<Pair>> {
    if !s.is_word("FoamFile"@) {
        Ok((Seq::empty(), s.pos))
    } else if !s.to(s.pos + 1).is_punct('{') {
        Err(no_punct(s.to(s.pos + 1), '{'))
    } else {
        closed_by(s, header_body(s.to(s.pos + 2), Seq::empty()), '}')
    }
}

fn read_header_entry(ts: &mut Tokenizer, t: &mut Vec<(String, String)>) -> (r: Result<(), Error>)
    requires
        old(ts).wf(),
        !old(ts)@.done(),
    ensures
        final(ts).wf(),
        match (r, header_step(old(ts)@, pairs(old(t)@))) {
            (Ok(_), Ok((u, e))) => pairs(final(t)@) == u && final(ts)@ == old(ts)@.to(e) && e
                > old(ts)@.pos,
            (Err(e), Err(f)) => e@ == f,
            _ => false,
        },
{
    proof {
        ts.lemma_wf();
    }
    if ts.is_punct(';') {
        ts.advance();
        return Ok(());
    }
    let k: String = match ts.expect_word() {
        Ok(k) => k,
        Err(e) => {
            return Err(e);
        },
    };
    if ts.is_punct('{') {
        return ts.skip_entry();
    }
    let v: String = match gather_until(
        ts,
        "missing ';' in FoamFile header",
        "expected ';' in FoamFile header",
    ) {
        Ok(v) => v,
        Err(e) => {
            return Err(e);
        },
    };
    put_value(t, k, v);
    Ok(())
}

/// Read the header and keep it: its `object` names the field.
fn read_header(ts: &mut Tokenizer) -> (r: Result<Vec<(String, String)>, Error>)
    requires
        old(ts).wf(),
    ensures
        final(ts).wf(),
        match (r, header_at(old(ts)@)) {
            (Ok(v), Ok((w, e))) => pairs(v@) == w && final(ts)@ == old(ts)@.to(e),
            (Err(e), Err(f)) => e@ == f,
            _ => false,
        },
{
    let ghost s = ts@;
    let mut t: Vec<(String, String)> = Vec::new();
    assert(pairs(t@) =~= Seq::empty());
    if !ts.is_word("FoamFile") {
        assert(s.to(s.pos) == s);
        return Ok(t);
    }
    ts.advance();
    match ts.expect_punct('{') {
        Ok(_) => {},
        Err(e) => {
            return Err(e);
        },
    }
    let ghost whole = header_body(ts@, Seq::empty());
    while !ts.done() && !ts.is_punct('}')
        invariant
            ts.wf(),
            ts@ == s.to(ts@.pos),
            s.is_word("FoamFile"@),
            s.to(s.pos + 1).is_punct('{'),
            whole == header_body(s.to(s.pos + 2), Seq::empty()),
            whole == header_body(ts@, pairs(t@)),
            header_at(s) == closed_by(s, whole, '}'),
            s == old(ts)@,
        decreases ts@.toks.len() - ts@.pos,
    {
        match read_header_entry(ts, &mut t) {
            Ok(_) => {},
            Err(e) => {
                return Err(e);
            },
        }
        proof {
            ts.lemma_wf();
        }
    }
    match ts.expect_punct('}') {
        Ok(_) => Ok(t),
        Err(e) => Err(e),
    }
}

// --------------------------------------------------------------------------
//  Boundary entries
// --------------------------------------------------------------------------
/// Which of its lists a key of a patch fills.
#[derive(Debug, Clone, Copy, PartialEq, Eq, Structural)]
pub enum Slot {
    Value,
    Gradient,
    RefValue,
    RefGradient,
    InletValue,
}

/// The list that a key fills; `refGrad` is an older spelling.
pub open spec fn slot_of(k: Seq<char>) -> Option<Slot> {
    if k == "value"@ {
        Some(Slot::Value)
    } else if k == "gradient"@ {
        Some(Slot::Gradient)
    } else if k == "refValue"@ {
        Some(Slot::RefValue)
    } else if k == "refGradient"@ || k == "refGrad"@ {
        Some(Slot::RefGradient)
    } else if k == "inletValue"@ {
        Some(Slot::InletValue)
    } else {
        None
    }
}

fn find_slot(k: &str) -> (r: Option<Slot>)
    ensures
        r == slot_of(k@),
{
    if same(k, "value") {
        Some(Slot::Value)
    } else if same(k, "gradient") {
        Some(Slot::Gradient)
    } else if same(k, "refValue") {
        Some(Slot::RefValue)
    } else if same(k, "refGradient") || same(k, "refGrad") {
        Some(Slot::RefGradient)
    } else if same(k, "inletValue") {
        Some(Slot::InletValue)
    } else {
        None
    }
}

/// The entry with a list of numbers in its place.
pub open spec fn with_numbers(e: PatchEntry, slot: Slot, v: Seq<Scalar>) -> PatchEntry {
    match slot {
        Slot::Value => PatchEntry { value: v, ..e },
        Slot::Gradient => PatchEntry { gradient: v, ..e },
        Slot::RefValue => PatchEntry { ref_value: v, ..e },
        Slot::RefGradient => PatchEntry { ref_gradient: v, ..e },
        Slot::InletValue => PatchEntry { inlet_value: v, ..e },
    }
}

fn put_numbers(e: &mut PatchFieldSpec, slot: Slot, v: Vec<Scalar>)
    ensures
        final(e)@ == with_numbers(old(e)@, slot, v@),
{
    match slot {
        Slot::Value => {
            e.value = v;
        },
        Slot::Gradient => {
            e.gradient = v;
        },
        Slot::RefValue => {
            e.ref_value = v;
        },
        Slot::RefGradient => {
            e.ref_gradient = v;
        },
        Slot::InletValue => {
            e.inlet_value = v;
        },
    }
}

/// The entry with a list of vectors in its place.
pub open spec fn with_vectors(e: PatchEntry, slot: Slot, v: Seq<Vec3>) -> PatchEntry {
    match slot {
        Slot::Value => PatchEntry { value_v: v, ..e },
        Slot::Gradient => PatchEntry { gradient_v: v, ..e },
        Slot::RefValue => PatchEntry { ref_value_v: v, ..e },
        Slot::RefGradient => PatchEntry { ref_gradient_v: v, ..e },
        Slot::InletValue => PatchEntry { inlet_value_v: v, ..e },
    }
}

fn put_vectors(e: &mut PatchFieldSpec, slot: Slot, v: Vec<Vec3>)
    ensures
        final(e)@ == with_vectors(old(e)@, slot, v@),
{
    match slot {
        Slot::Value => {
            e.value_v = v;
        },
        Slot::Gradient => {
            e.gradient_v = v;
        },
        Slot::RefValue => {
            e.ref_value_v = v;
        },
        Slot::RefGradient => {
            e.ref_gradient_v = v;
        },
        Slot::InletValue => {
            e.inlet_value_v = v;
        },
    }
}

/// What a key and its value make of a patch's entry; the stream is behind the key.
pub open spec fn keyed(s: Stream, k: Seq<char>, e: PatchEntry, vector: bool) -> Read<PatchEntry> {
    if starts_with(k, "#"@) {
        match directive_end(s, k) {
            Ok(x) => Ok((e, x)),
            Err(f) => Err(f),
        }
    } else if k == "type"@ {
        match raw_at(s, Seq::empty()) {
            Ok((v, x)) => Ok((PatchEntry { patch_type: v, ..e }, x)),
            Err(f) => Err(f),
        }
    } else if k == "neighbourPatch"@ {
        match raw_at(s, Seq::empty()) {
            Ok((v, x)) => Ok((PatchEntry { neighbour_patch: Some(v), ..e }, x)),
            Err(f) => Err(f),
        }
    } else if k == "valueFraction"@ {
        match scalar_entry(s) {
            Ok((v, x)) => Ok((PatchEntry { value_fraction: v, ..e }, x)),
            Err(f) => Err(f),
        }
    } else if slot_of(k) is Some {
        let slot = slot_of(k)->Some_0;
        if vector {
            match vector_entry(s) {
                Ok((v, x)) => Ok((with_vectors(e, slot, v), x)),
                Err(f) => Err(f),
            }
        } else {
            match scalar_entry(s) {
                Ok((v, x)) => Ok((with_numbers(e, slot, v), x)),
                Err(f) => Err(f),
            }
        }
    } else if s.is_punct('{') {
        match entry_end(s) {
            Ok(x) => Ok((e, x)),
            Err(f) => Err(f),
        }
    } else {
        match raw_at(s, Seq::empty()) {
            Ok((v, x)) => Ok((PatchEntry { extra: put(e.extra, k, v), ..e }, x)),
            Err(f) => Err(f),
        }
    }
}

/// One entry of a patch.
pub open spec fn patch_step(s: Stream, e: PatchEntry, vector: bool) -> Read<PatchEntry> {
    match s.ahead(0) {
        None => Err(s.failure("expected a name"@)),
        Some(t) => if t == Token::Punct(';') {
            Ok((e, s.pos + 1))
        } else if t is Punct {
            Err(s.failure("expected a keyword"@))
        } else {
            keyed(s.to(s.pos + 1), t.text(), e, vector)
        },
    }
}

/// The entries of a patch from here to its brace.
pub open spec fn patch_body(s: Stream, e: PatchEntry, vector: bool) -> Read<PatchEntry>
    decreases s.toks.len() - s.pos,
{
    if s.done() || s.is_punct('}') {
        Ok((e, s.pos))
    } else {
        match patch_step(s, e, vector) {
            Err(f) => Err(f),
            Ok((u, x)) => if x <= s.pos || x > s.toks.len() {
                Ok((e, s.pos))
            } else {
                patch_body(s.to(x), u, vector)
            },
        }
    }
}

/// The block of a patch.
pub open spec fn patch_at(s: Stream, vector: bool) -> Read<PatchEntry> {
    if !s.is_punct('{') {
        Err(no_punct(s, '{'))
    } else {
        closed_by(s, patch_body(s.to(s.pos + 1), blank_patch(), vector), '}')
    }
}

/// What is said of a key: that it is a directive which is not evaluated.
pub open spec fn key_notices(s: Stream, key: Seq<char>) -> Seq<Seq<char>> {
    if starts_with(key, "#"@) {
        seq![ignored_text(s.path, key)]
    } else {
        Seq::empty()
    }
}

/// What is said of one entry of a patch.
pub open spec fn patch_step_notices(s: Stream) -> Seq<Seq<char>> {
    match s.ahead(0) {
        Some(t) => if t is Punct {
            Seq::empty()
        } else {
            key_notices(s, t.text())
        },
        None => Seq::empty(),
    }
}

/// What is said of the entries of a patch from here to its brace, or up to the one
/// that fails.
pub open spec fn patch_notices(s: Stream, e: PatchEntry, vector: bool) -> Seq<Seq<char>>
    decreases s.toks.len() - s.pos,
{
    if s.done() || s.is_punct('}') {
        Seq::empty()
    } else {
        patch_step_notices(s) + (match patch_step(s, e, vector) {
            Err(_) => Seq::empty(),
            Ok((u, x)) => if x <= s.pos || x > s.toks.len() {
                Seq::empty()
            } else {
                patch_notices(s.to(x), u, vector)
            },
        })
    }
}

/// What is said of the block of a patch.
pub open spec fn patch_at_notices(s: Stream, vector: bool) -> Seq<Seq<char>> {
    if s.is_punct('{') {
        patch_notices(s.to(s.pos + 1), blank_patch(), vector)
    } else {
        Seq::empty()
    }
}

fn read_keyed(
    ts: &mut Tokenizer,
    k: String,
    e: &mut PatchFieldSpec,
    vector: bool,
    notes: &mut Vec<String>,
) -> (r: Result<(), Error>)
    requires
        old(ts).wf(),
    ensures
        final(ts).wf(),
        texts(final(notes)@) == texts(old(notes)@) + key_notices(old(ts)@, k@),
        match (r, keyed(old(ts)@, k@, old(e)@, vector)) {
            (Ok(_), Ok((u, x))) => final(e)@ == u && final(ts)@ == old(ts)@.to(x) && x >= old(
                ts,
            )@.pos,
            (Err(e), Err(f)) => e@ == f,
            _ => false,
        },
{
    if has_prefix(&k, "#") {
        return skip_directive(ts, &k, notes);
    }
    assert(texts(notes@) =~= texts(notes@) + Seq::<Seq<char>>::empty());
    if same(&k, "type") {
        return match gather_raw(ts) {
            Ok(v) => {
                e.patch_type = v;
                Ok(())
            },
            Err(x) => Err(x),
        };
    }
    if same(&k, "neighbourPatch") {
        return match gather_raw(ts) {
            Ok(v) => {
                e.neighbour_patch = Some(v);
                Ok(())
            },
            Err(x) => Err(x),
        };
    }
    if same(&k, "valueFraction") {
        return match parse_scalar_entry(ts) {
            Ok(v) => {
                e.value_fraction = v;
                Ok(())
            },
            Err(x) => Err(x),
        };
    }
    match find_slot(&k) {
        Some(slot) => {
            if vector {
                return match parse_vector_entry(ts) {
                    Ok(v) => {
                        put_vectors(e, slot, v);
                        Ok(())
                    },
                    Err(x) => Err(x),
                };
            }
            return match parse_scalar_entry(ts) {
                Ok(v) => {
                    put_numbers(e, slot, v);
                    Ok(())
                },
                Err(x) => Err(x),
            };
        },
        None => {},
    }
    if ts.is_punct('{') {
        return ts.skip_entry();
    }
    match gather_raw(ts) {
        Ok(v) => {
            put_value(&mut e.extra, k, v);
            Ok(())
        },
        Err(x) => Err(x),
    }
}

fn read_patch_entry(
    ts: &mut Tokenizer,
    e: &mut PatchFieldSpec,
    vector: bool,
    notes: &mut Vec<String>,
) -> (r: Result<(), Error>)
    requires
        old(ts).wf(),
        !old(ts)@.done(),
    ensures
        final(ts).wf(),
        texts(final(notes)@) == texts(old(notes)@) + patch_step_notices(old(ts)@),
        match (r, patch_step(old(ts)@, old(e)@, vector)) {
            (Ok(_), Ok((u, x))) => final(e)@ == u && final(ts)@ == old(ts)@.to(x) && x > old(
                ts,
            )@.pos,
            (Err(e), Err(f)) => e@ == f,
            _ => false,
        },
{
    proof {
        ts.lemma_wf();
        assert(texts(notes@) =~= texts(notes@) + Seq::<Seq<char>>::empty());
    }
    if ts.is_punct(';') {
        ts.advance();
        return Ok(());
    }
    if at_mark(ts) {
        return Err(ts.err("expected a keyword"));
    }
    let k: String = match ts.expect_word() {
        Ok(k) => k,
        Err(x) => {
            return Err(x);
        },
    };
    read_keyed(ts, k, e, vector, notes)
}

/// Read the block of a patch.
fn parse_patch_spec(ts: &mut Tokenizer, vector: bool, notes: &mut Vec<String>) -> (r: Result<
    PatchFieldSpec,
    Error,
>)
    requires
        old(ts).wf(),
    ensures
        final(ts).wf(),
        texts(final(notes)@) == texts(old(notes)@) + patch_at_notices(old(ts)@, vector),
        match (r, patch_at(old(ts)@, vector)) {
            (Ok(v), Ok((w, x))) => v@ == w && final(ts)@ == old(ts)@.to(x) && x > old(ts)@.pos,
            (Err(e), Err(f)) => e@ == f,
            _ => false,
        },
{
    let ghost s = ts@;
    let ghost before = texts(notes@);
    assert(before =~= before + Seq::<Seq<char>>::empty());
    match ts.expect_punct('{') {
        Ok(_) => {},
        Err(e) => {
            return Err(e);
        },
    }
    let mut e = PatchFieldSpec::blank();
    let ghost whole = patch_body(s.to(s.pos + 1), blank_patch(), vector);
    let ghost said = patch_notices(s.to(s.pos + 1), blank_patch(), vector);
    while !ts.done() && !ts.is_punct('}')
        invariant
            ts.wf(),
            s == old(ts)@,
            before == texts(old(notes)@),
            said == patch_at_notices(s, vector),
            texts(notes@) + patch_notices(ts@, e@, vector) == before + said,
            s.is_punct('{'),
            s.pos < ts@.pos,
            ts@ == s.to(ts@.pos),
            whole == patch_body(s.to(s.pos + 1), blank_patch(), vector),
            whole == patch_body(ts@, e@, vector),
        decreases ts@.toks.len() - ts@.pos,
    {
        let ghost so_far = texts(notes@);
        let ghost here = patch_step_notices(ts@);
        let ghost all = patch_notices(ts@, e@, vector);
        match read_patch_entry(ts, &mut e, vector, notes) {
            Ok(_) => {},
            Err(x) => {
                assert(here + Seq::<Seq<char>>::empty() =~= here);
                return Err(x);
            },
        }
        proof {
            ts.lemma_wf();
            let rest = patch_notices(ts@, e@, vector);
            assert(so_far + (here + rest) =~= (so_far + here) + rest);
            assert(all == here + rest);
        }
    }
    assert(texts(notes@) + Seq::<Seq<char>>::empty() =~= texts(notes@));
    match ts.expect_punct('}') {
        Ok(_) => Ok(e),
        Err(x) => Err(x),
    }
}

/// What a boundary holds so far: its entries, and the order of its patterns.
pub type Edges = (Seq<Entry<PatchEntry>>, Seq<Seq<char>>);

/// A quoted key is noted the first time it is written.
pub open spec fn noted_once(p: Seq<Seq<char>>, quoted: bool, key: Seq<char>) -> Seq<Seq<char>> {
    if quoted && !p.contains(key) {
        p.push(key)
    } else {
        p
    }
}

/// One entry of a boundary.
pub open spec fn boundary_step(s: Stream, b: Edges, vector: bool) -> Read<Edges> {
    match s.ahead(0) {
        None => Err(s.failure("expected a name"@)),
        Some(t) => if t == Token::Punct(';') {
            Ok((b, s.pos + 1))
        } else if t is Punct {
            Err(s.failure("expected a patch name"@))
        } else {
            let v = s.to(s.pos + 1);
            let key = stored_key(t);
            if starts_with(key, "#"@) {
                match directive_end(v, key) {
                    Ok(x) => Ok((b, x)),
                    Err(f) => Err(f),
                }
            } else if !v.is_punct('{') {
                match entry_end(v) {
                    Ok(x) => Ok((b, x)),
                    Err(f) => Err(f),
                }
            } else {
                match patch_at(v, vector) {
                    Ok((e, x)) => Ok(((put(b.0, key, e), noted_once(b.1, t is Str, key)), x)),
                    Err(f) => Err(f),
                }
            }
        },
    }
}

/// The entries of a boundary from here to its brace.
pub open spec fn boundary_body(s: Stream, b: Edges, vector: bool) -> Read<Edges>
    decreases s.toks.len() - s.pos,
{
    if s.done() || s.is_punct('}') {
        Ok((b, s.pos))
    } else {
        match boundary_step(s, b, vector) {
            Err(f) => Err(f),
            Ok((u, x)) => if x <= s.pos || x > s.toks.len() {
                Ok((b, s.pos))
            } else {
                boundary_body(s.to(x), u, vector)
            },
        }
    }
}

/// The block of a boundary, added to what is known of it.
pub open spec fn boundary_at(s: Stream, b: Edges, vector: bool) -> Read<Edges> {
    if !s.is_punct('{') {
        Err(no_punct(s, '{'))
    } else {
        closed_by(s, boundary_body(s.to(s.pos + 1), b, vector), '}')
    }
}

/// What is said of one entry of a boundary.
pub open spec fn boundary_step_notices(s: Stream, vector: bool) -> Seq<Seq<char>> {
    match s.ahead(0) {
        Some(t) => if t is Punct {
            Seq::empty()
        } else if starts_with(stored_key(t), "#"@) {
            seq![ignored_text(s.path, stored_key(t))]
        } else {
            patch_at_notices(s.to(s.pos + 1), vector)
        },
        None => Seq::empty(),
    }
}

/// What is said of the entries of a boundary from here to its brace, or up to the
/// one that fails.
pub open spec fn boundary_notices(s: Stream, b: Edges, vector: bool) -> Seq<Seq<char>>
    decreases s.toks.len() - s.pos,
{
    if s.done() || s.is_punct('}') {
        Seq::empty()
    } else {
        boundary_step_notices(s, vector) + (match boundary_step(s, b, vector) {
            Err(_) => Seq::empty(),
            Ok((u, x)) => if x <= s.pos || x > s.toks.len() {
                Seq::empty()
            } else {
                boundary_notices(s.to(x), u, vector)
            },
        })
    }
}

/// What is said of the block of a boundary.
pub open spec fn boundary_at_notices(s: Stream, b: Edges, vector: bool) -> Seq<Seq<char>> {
    if s.is_punct('{') {
        boundary_notices(s.to(s.pos + 1), b, vector)
    } else {
        Seq::empty()
    }
}

fn quoted_key(raw: String, quoted: bool) -> (r: String)
    ensures
        r@ == (if quoted { seq!['"'] + raw@ + seq!['"'] } else { raw@ }),
{
    if !quoted {
        return raw;
    }
    let mut k = String::new();
    k.push('"');
    push_text(&mut k, &raw);
    k.push('"');
    assert(k@ =~= seq!['"'] + raw@ + seq!['"']);
    k
}

fn holds(p: &Vec<String>, key: &str) -> (r: bool)
    ensures
        r == texts(p@).contains(key@),
{
    let mut i: usize = 0;
    while i < p.len()
        invariant
            i <= p.len(),
            forall|k: int| 0 <= k < i ==> (#[trigger] texts(p@)[k]) != key@,
        decreases p.len() - i,
    {
        if same(&p[i], key) {
            assert(texts(p@)[i as int] == key@);
            return true;
        }
        i = i + 1;
    }
    false
}

fn read_boundary_entry(
    ts: &mut Tokenizer,
    b: &mut Vec<(String, PatchFieldSpec)>,
    patterns: &mut Vec<String>,
    vector: bool,
    notes: &mut Vec<String>,
) -> (r: Result<(), Error>)
    requires
        old(ts).wf(),
        !old(ts)@.done(),
    ensures
        final(ts).wf(),
        texts(final(notes)@) == texts(old(notes)@) + boundary_step_notices(old(ts)@, vector),
        match (r, boundary_step(old(ts)@, (pairs(old(b)@), texts(old(patterns)@)), vector)) {
            (Ok(_), Ok((u, x))) => pairs(final(b)@) == u.0 && texts(final(patterns)@) == u.1
                && final(ts)@ == old(ts)@.to(x) && x > old(ts)@.pos,
            (Err(e), Err(f)) => e@ == f,
            _ => false,
        },
{
    proof {
        ts.lemma_wf();
        assert(texts(notes@) =~= texts(notes@) + Seq::<Seq<char>>::empty());
    }
    if ts.is_punct(';') {
        ts.advance();
        return Ok(());
    }
    if at_mark(ts) {
        return Err(ts.err("expected a patch name"));
    }
    let (raw, quoted) = match ts.expect_key() {
        Ok(k) => k,
        Err(x) => {
            return Err(x);
        },
    };
    let key = quoted_key(raw, quoted);
    if has_prefix(&key, "#") {
        return skip_directive(ts, &key, notes);
    }
    if !ts.is_punct('{') {
        return ts.skip_entry();
    }
    let e: PatchFieldSpec = match parse_patch_spec(ts, vector, notes) {
        Ok(e) => e,
        Err(x) => {
            return Err(x);
        },
    };
    if quoted && !holds(patterns, &key) {
        let k = copy(&key);
        proof {
            crate::text::lemma_texts_push(patterns@, k);
        }
        patterns.push(k);
    }
    put_value(b, key, e);
    Ok(())
}

/// Read the block of a boundary.
fn parse_boundary_field(
    ts: &mut Tokenizer,
    b: &mut Vec<(String, PatchFieldSpec)>,
    patterns: &mut Vec<String>,
    vector: bool,
    notes: &mut Vec<String>,
) -> (r: Result<(), Error>)
    requires
        old(ts).wf(),
    ensures
        final(ts).wf(),
        texts(final(notes)@) == texts(old(notes)@) + boundary_at_notices(
            old(ts)@,
            (pairs(old(b)@), texts(old(patterns)@)),
            vector,
        ),
        match (r, boundary_at(old(ts)@, (pairs(old(b)@), texts(old(patterns)@)), vector)) {
            (Ok(_), Ok((u, x))) => pairs(final(b)@) == u.0 && texts(final(patterns)@) == u.1
                && final(ts)@ == old(ts)@.to(x) && x > old(ts)@.pos,
            (Err(e), Err(f)) => e@ == f,
            _ => false,
        },
{
    let ghost s = ts@;
    let ghost start = (pairs(b@), texts(patterns@));
    let ghost before = texts(notes@);
    assert(before =~= before + Seq::<Seq<char>>::empty());
    match ts.expect_punct('{') {
        Ok(_) => {},
        Err(e) => {
            return Err(e);
        },
    }
    let ghost whole = boundary_body(s.to(s.pos + 1), start, vector);
    let ghost said = boundary_notices(s.to(s.pos + 1), start, vector);
    while !ts.done() && !ts.is_punct('}')
        invariant
            ts.wf(),
            s == old(ts)@,
            before == texts(old(notes)@),
            said == boundary_at_notices(s, start, vector),
            texts(notes@) + boundary_notices(ts@, (pairs(b@), texts(patterns@)), vector) == before
                + said,
            start == (pairs(old(b)@), texts(old(patterns)@)),
            s.is_punct('{'),
            s.pos < ts@.pos,
            ts@ == s.to(ts@.pos),
            whole == boundary_body(s.to(s.pos + 1), start, vector),
            whole == boundary_body(ts@, (pairs(b@), texts(patterns@)), vector),
        decreases ts@.toks.len() - ts@.pos,
    {
        let ghost so_far = texts(notes@);
        let ghost here = boundary_step_notices(ts@, vector);
        let ghost all = boundary_notices(ts@, (pairs(b@), texts(patterns@)), vector);
        match read_boundary_entry(ts, b, patterns, vector, notes) {
            Ok(_) => {},
            Err(x) => {
                assert(here + Seq::<Seq<char>>::empty() =~= here);
                return Err(x);
            },
        }
        proof {
            ts.lemma_wf();
            let rest = boundary_notices(ts@, (pairs(b@), texts(patterns@)), vector);
            assert(so_far + (here + rest) =~= (so_far + here) + rest);
            assert(all == here + rest);
        }
    }
    assert(texts(notes@) + Seq::<Seq<char>>::empty() =~= texts(notes@));
    ts.expect_punct('}')
}

// --------------------------------------------------------------------------
//  Files
// --------------------------------------------------------------------------
/// What a field's file holds so far; `internal` is `None` until it is read.
#[verifier::ext_equal]
pub struct Parts<T> {
    pub dimensions: Seq<char>,
    pub internal: Option<Seq<T>>,
    pub boundary: Seq<Entry<PatchEntry>>,
    pub patterns: Seq<Seq<char>>,
}

/// What a key of the file and its value add; the stream is behind the key.
pub open spec fn top_keyed<T>(
    s: Stream,
    k: Seq<char>,
    f: Parts<T>,
    vector: bool,
    entry: spec_fn(Stream) -> Read<Seq<T>>,
) -> Read<Parts<T>> {
    if starts_with(k, "#"@) {
        match directive_end(s, k) {
            Ok(x) => Ok((f, x)),
            Err(e) => Err(e),
        }
    } else if k == "dimensions"@ {
        match raw_at(s, Seq::empty()) {
            Ok((v, x)) => Ok((Parts { dimensions: v, ..f }, x)),
            Err(e) => Err(e),
        }
    } else if k == "internalField"@ {
        match entry(s) {
            Ok((v, x)) => Ok((Parts { internal: Some(v), ..f }, x)),
            Err(e) => Err(e),
        }
    } else if k == "boundaryField"@ {
        match boundary_at(s, (f.boundary, f.patterns), vector) {
            Ok((b, x)) => Ok((Parts { boundary: b.0, patterns: b.1, ..f }, x)),
            Err(e) => Err(e),
        }
    } else {
        match entry_end(s) {
            Ok(x) => Ok((f, x)),
            Err(e) => Err(e),
        }
    }
}

/// One entry of the file.
pub open spec fn top_step<T>(
    s: Stream,
    f: Parts<T>,
    vector: bool,
    entry: spec_fn(Stream) -> Read<Seq<T>>,
) -> Read<Parts<T>> {
    match s.ahead(0) {
        None => Err(s.failure("expected a name"@)),
        Some(t) => if t == Token::Punct(';') {
            Ok((f, s.pos + 1))
        } else if t is Punct {
            Err(s.failure("expected a keyword"@))
        } else {
            top_keyed(s.to(s.pos + 1), t.text(), f, vector, entry)
        },
    }
}

/// The file from here on.
pub open spec fn top_body<T>(
    s: Stream,
    f: Parts<T>,
    vector: bool,
    entry: spec_fn(Stream) -> Read<Seq<T>>,
) -> Result<Parts<T>, Failure>
    decreases s.toks.len() - s.pos,
{
    if s.done() {
        match s.unclosed_failure() {
            Some(e) => Err(e),
            None => Ok(f),
        }
    } else {
        match top_step(s, f, vector, entry) {
            Err(e) => Err(e),
            Ok((u, x)) => if x <= s.pos || x > s.toks.len() {
                Ok(f)
            } else {
                top_body(s.to(x), u, vector, entry)
            },
        }
    }
}

/// The field of a file's parts: `cells` other than zero grows a `uniform` internal
/// field to that length, and refuses a list of another.
pub open spec fn assembled<T>(
    f: Parts<T>,
    name: Seq<char>,
    path: Seq<char>,
    cells: nat,
    zero: T,
) -> Result<FieldFile<T>, Failure> {
    match f.internal {
        None => Err(Failure::Parse { path, msg: "no internalField entry"@ }),
        Some(v) => match (if cells > 0 {
            expanded(v, cells, zero, path + ": internalField"@)
        } else {
            Ok(v)
        }) {
            Err(e) => Err(e),
            Ok(internal) => Ok(
                FieldFile {
                    name,
                    dimensions: f.dimensions,
                    internal,
                    boundary: f.boundary,
                    patterns: f.patterns,
                },
            ),
        },
    }
}

/// The field that a file holds; `base` names one whose header does not.
pub open spec fn field_in<T>(
    text: Seq<char>,
    path: Seq<char>,
    base: Seq<char>,
    cells: nat,
    vector: bool,
    entry: spec_fn(Stream) -> Read<Seq<T>>,
    zero: T,
) -> Result<FieldFile<T>, Failure> {
    if is_binary(text) {
        Err(Failure::Parse { path, msg: binary_message() })
    } else {
        let s = fresh(text, path);
        match header_at(s) {
            Err(e) => Err(e),
            Ok((h, x)) => {
                let name = match lookup(h, "object"@) {
                    Some(n) => n,
                    None => base,
                };
                match top_body(s.to(x), no_parts(), vector, entry) {
                    Err(e) => Err(e),
                    Ok(f) => assembled(f, name, path, cells, zero),
                }
            },
        }
    }
}

/// What is said of one entry of the file.
pub open spec fn top_step_notices<T>(s: Stream, f: Parts<T>, vector: bool) -> Seq<Seq<char>> {
    match s.ahead(0) {
        Some(t) => if t is Punct {
            Seq::empty()
        } else if starts_with(t.text(), "#"@) {
            seq![ignored_text(s.path, t.text())]
        } else if t.text() == "dimensions"@ || t.text() == "internalField"@ {
            Seq::empty()
        } else if t.text() == "boundaryField"@ {
            boundary_at_notices(s.to(s.pos + 1), (f.boundary, f.patterns), vector)
        } else {
            Seq::empty()
        },
        None => Seq::empty(),
    }
}

/// What is said of the file from here on, or up to the entry that fails.
pub open spec fn top_notices<T>(
    s: Stream,
    f: Parts<T>,
    vector: bool,
    entry: spec_fn(Stream) -> Read<Seq<T>>,
) -> Seq<Seq<char>>
    decreases s.toks.len() - s.pos,
{
    if s.done() {
        Seq::empty()
    } else {
        top_step_notices(s, f, vector) + (match top_step(s, f, vector, entry) {
            Err(_) => Seq::empty(),
            Ok((u, x)) => if x <= s.pos || x > s.toks.len() {
                Seq::empty()
            } else {
                top_notices(s.to(x), u, vector, entry)
            },
        })
    }
}

/// What is said of a field's file: one notice for every directive that is not
/// evaluated, in the order of the file.
pub open spec fn field_notices<T>(
    text: Seq<char>,
    path: Seq<char>,
    vector: bool,
    entry: spec_fn(Stream) -> Read<Seq<T>>,
) -> Seq<Seq<char>> {
    let s = fresh(text, path);
    match header_at(s) {
        Ok((_, x)) => if is_binary(text) {
            Seq::empty()
        } else {
            top_notices(s.to(x), no_parts(), vector, entry)
        },
        Err(_) => Seq::empty(),
    }
}

pub open spec fn no_parts<T>() -> Parts<T> {
    Parts {
        dimensions: Seq::empty(),
        internal: None,
        boundary: Seq::empty(),
        patterns: Seq::empty(),
    }
}

pub open spec fn scalar_entries() -> spec_fn(Stream) -> Read<Seq<Scalar>> {
    |s: Stream| scalar_entry(s)
}

pub open spec fn vector_entries() -> spec_fn(Stream) -> Read<Seq<Vec3>> {
    |s: Stream| vector_entry(s)
}

/// The field of numbers that a file holds.
pub open spec fn scalar_field_in(text: Seq<char>, path: Seq<char>, base: Seq<char>, cells: nat) -> Result<
    FieldFile<Scalar>,
    Failure,
> {
    field_in(text, path, base, cells, false, scalar_entries(), nought())
}

/// The field of vectors that a file holds.
pub open spec fn vector_field_in(text: Seq<char>, path: Seq<char>, base: Seq<char>, cells: nat) -> Result<
    FieldFile<Vec3>,
    Failure,
> {
    field_in(text, path, base, cells, true, vector_entries(), origin())
}

// --------------------------------------------------------------------------
//  The order of what is read
// --------------------------------------------------------------------------
/// Are the keys of every entry in order?
pub open spec fn extras_in_order(b: Seq<Entry<PatchEntry>>) -> bool {
    forall|i: int| 0 <= i < b.len() ==> in_order((#[trigger] b[i]).1.extra)
}

/// Are the keys of a field's boundary in order, each one once, and those of every
/// entry too?
pub open spec fn is_in_order<T>(f: FieldFile<T>) -> bool {
    in_order(f.boundary) && extras_in_order(f.boundary)
}

proof fn lemma_patch_order(s: Stream, e: PatchEntry, vector: bool)
    requires
        in_order(e.extra),
    ensures
        patch_body(s, e, vector) matches Ok((u, _)) ==> in_order(u.extra),
    decreases s.toks.len() - s.pos,
{
    if !(s.done() || s.is_punct('}')) {
        match patch_step(s, e, vector) {
            Err(_) => {},
            Ok((u, x)) => {
                match s.ahead(0) {
                    Some(t) => {
                        let v = raw_at(s.to(s.pos + 1), Seq::empty());
                        if v is Ok {
                            put_keeps_order(e.extra, t.text(), v->Ok_0.0);
                        }
                    },
                    None => {},
                }
                assert(in_order(u.extra));
                if s.pos < x <= s.toks.len() {
                    lemma_patch_order(s.to(x), u, vector);
                }
            },
        }
    }
}

proof fn lemma_put_extras(t: Seq<Entry<PatchEntry>>, k: Seq<char>, v: PatchEntry)
    requires
        extras_in_order(t),
        in_order(v.extra),
    ensures
        extras_in_order(put(t, k, v)),
    decreases t.len(),
{
    let h = t.drop_last();
    if t.len() > 0 {
        assert(extras_in_order(h)) by {
            assert forall|i: int| 0 <= i < h.len() implies in_order((#[trigger] h[i]).1.extra) by {
                assert(h[i] == t[i]);
            }
        }
        lemma_put_extras(h, k, v);
    }
    let r = put(t, k, v);
    assert forall|i: int| 0 <= i < r.len() implies in_order((#[trigger] r[i]).1.extra) by {
        if t.len() > 0 {
            let p = put(h, k, v);
            if i < t.len() {
                assert(in_order(t[i].1.extra));
            }
            if i < p.len() {
                assert(in_order(p[i].1.extra));
            }
            assert(in_order(t[t.len() - 1].1.extra));
        }
    }
}

proof fn lemma_boundary_order(s: Stream, b: Edges, vector: bool)
    requires
        in_order(b.0),
        extras_in_order(b.0),
    ensures
        boundary_body(s, b, vector) matches Ok((u, _)) ==> in_order(u.0) && extras_in_order(u.0),
    decreases s.toks.len() - s.pos,
{
    if !(s.done() || s.is_punct('}')) {
        match boundary_step(s, b, vector) {
            Err(_) => {},
            Ok((u, x)) => {
                match s.ahead(0) {
                    Some(t) => {
                        let v = s.to(s.pos + 1);
                        lemma_patch_order(v.to(v.pos + 1), blank_patch(), vector);
                        match patch_at(v, vector) {
                            Ok((e, _)) => {
                                put_keeps_order(b.0, stored_key(t), e);
                                lemma_put_extras(b.0, stored_key(t), e);
                            },
                            Err(_) => {},
                        }
                    },
                    None => {},
                }
                if s.pos < x <= s.toks.len() {
                    lemma_boundary_order(s.to(x), u, vector);
                }
            },
        }
    }
}

proof fn lemma_top_order<T>(
    s: Stream,
    f: Parts<T>,
    vector: bool,
    entry: spec_fn(Stream) -> Read<Seq<T>>,
)
    requires
        in_order(f.boundary),
        extras_in_order(f.boundary),
    ensures
        top_body(s, f, vector, entry) matches Ok(u) ==> in_order(u.boundary) && extras_in_order(
            u.boundary,
        ),
    decreases s.toks.len() - s.pos,
{
    if !s.done() {
        match top_step(s, f, vector, entry) {
            Err(_) => {},
            Ok((u, x)) => {
                let v = s.to(s.pos + 1);
                lemma_boundary_order(v.to(v.pos + 1), (f.boundary, f.patterns), vector);
                if s.pos < x <= s.toks.len() {
                    lemma_top_order(s.to(x), u, vector, entry);
                }
            },
        }
    }
}

/// The boundary of a field that is read is in the order of its keys, each one once,
/// and so are the other keys of every entry.
pub proof fn read_fields_are_in_order<T>(
    text: Seq<char>,
    path: Seq<char>,
    base: Seq<char>,
    cells: nat,
    vector: bool,
    entry: spec_fn(Stream) -> Read<Seq<T>>,
    zero: T,
)
    ensures
        field_in(text, path, base, cells, vector, entry, zero) matches Ok(f) ==> is_in_order(f),
{
    let s = fresh(text, path);
    match header_at(s) {
        Ok((_, x)) => {
            lemma_top_order(s.to(x), no_parts::<T>(), vector, entry);
        },
        Err(_) => {},
    }
}

struct ScalarParts {
    dimensions: String,
    internal: Option<Vec<Scalar>>,
    boundary: Vec<(String, PatchFieldSpec)>,
    patterns: Vec<String>,
}

impl ScalarParts {
    spec fn parts(self) -> Parts<Scalar> {
        Parts {
            dimensions: self.dimensions@,
            internal: match self.internal {
                Some(v) => Some(v@),
                None => None,
            },
            boundary: pairs(self.boundary@),
            patterns: texts(self.patterns@),
        }
    }

    fn new() -> (r: ScalarParts)
        ensures
            r.parts() == no_parts::<Scalar>(),
    {
        let r = ScalarParts {
            dimensions: String::new(),
            internal: None,
            boundary: Vec::new(),
            patterns: Vec::new(),
        };
        assert(r.parts() =~= no_parts::<Scalar>());
        r
    }

    fn read_entry(&mut self, ts: &mut Tokenizer, notes: &mut Vec<String>) -> (r: Result<(), Error>)
        requires
            old(ts).wf(),
            !old(ts)@.done(),
        ensures
            final(ts).wf(),
            texts(final(notes)@) == texts(old(notes)@) + top_step_notices(
                old(ts)@,
                old(self).parts(),
                false,
            ),
            match (r, top_step(old(ts)@, old(self).parts(), false, scalar_entries())) {
                (Ok(_), Ok((u, x))) => final(self).parts() == u && final(ts)@ == old(ts)@.to(x) && x
                    > old(ts)@.pos,
                (Err(e), Err(f)) => e@ == f,
                _ => false,
            },
    {
        proof {
            ts.lemma_wf();
            assert(texts(notes@) =~= texts(notes@) + Seq::<Seq<char>>::empty());
        }
        if ts.is_punct(';') {
            ts.advance();
            return Ok(());
        }
        if at_mark(ts) {
            return Err(ts.err("expected a keyword"));
        }
        let k: String = match ts.expect_word() {
            Ok(k) => k,
            Err(e) => {
                return Err(e);
            },
        };
        if has_prefix(&k, "#") {
            return skip_directive(ts, &k, notes);
        }
        if same(&k, "dimensions") {
            return match gather_raw(ts) {
                Ok(v) => {
                    self.dimensions = v;
                    Ok(())
                },
                Err(e) => Err(e),
            };
        }
        if same(&k, "internalField") {
            proof {
                assert(scalar_entries()(ts@) == scalar_entry(ts@));
            }
            return match parse_scalar_entry(ts) {
                Ok(v) => {
                    self.internal = Some(v);
                    Ok(())
                },
                Err(e) => Err(e),
            };
        }
        if same(&k, "boundaryField") {
            return parse_boundary_field(
                ts,
                &mut self.boundary,
                &mut self.patterns,
                false,
                notes,
            );
        }
        ts.skip_entry()
    }
}

/// Read a field of numbers out of a file's text; `base` names one whose header does not.
///
/// `n_cells` of zero keeps the internal field as written; any other value grows a
/// `uniform` one to that length and refuses a list of another.
pub fn read_scalar_field(text: &str, path: &str, base: &str, n_cells: usize) -> (r: Result<
    RawScalarField,
    Error,
>)
    requires
        text@.len() < usize::MAX,
    ensures
        match (r, scalar_field_in(text@, path@, base@, n_cells as nat)) {
            (Ok(a), Ok(b)) => a@ == b && is_in_order(b),
            (Err(e), Err(f)) => e@ == f,
            _ => false,
        },
{
    let mut notes: Vec<String> = Vec::new();
    read_scalar_field_noting(text, path, base, n_cells, &mut notes)
}

/// The same, with a notice for every directive in the file that is not evaluated.
pub fn read_scalar_field_noting(
    text: &str,
    path: &str,
    base: &str,
    n_cells: usize,
    notes: &mut Vec<String>,
) -> (r: Result<RawScalarField, Error>)
    requires
        text@.len() < usize::MAX,
    ensures
        match (r, scalar_field_in(text@, path@, base@, n_cells as nat)) {
            (Ok(a), Ok(b)) => a@ == b && is_in_order(b),
            (Err(e), Err(f)) => e@ == f,
            _ => false,
        },
        texts(final(notes)@) == texts(old(notes)@) + field_notices(
            text@,
            path@,
            false,
            scalar_entries(),
        ),
{
    proof {
        read_fields_are_in_order(text@, path@, base@, n_cells as nat, false, scalar_entries(), nought());
        assert(texts(notes@) =~= texts(notes@) + Seq::<Seq<char>>::empty());
    }
    match check_ascii_format(text, path) {
        Ok(_) => {},
        Err(e) => {
            return Err(e);
        },
    }
    let mut ts = Tokenizer::new(text, path);
    let header: Vec<(String, String)> = match read_header(&mut ts) {
        Ok(h) => h,
        Err(e) => {
            return Err(e);
        },
    };
    let name: String = match find_value(&header, "object") {
        Some(n) => copy(n),
        None => copy(base),
    };
    let parts: ScalarParts = match read_scalar_parts(&mut ts, notes) {
        Ok(p) => p,
        Err(e) => {
            return Err(e);
        },
    };
    let mut internal: Vec<Scalar> = match parts.internal {
        Some(v) => v,
        None => {
            return Err(Error::Parse { path: copy(path), msg: copy("no internalField entry") });
        },
    };
    if n_cells > 0 {
        let mut what = copy(path);
        push_text(&mut what, ": internalField");
        internal = match expand_scalars(&internal, n_cells, &what) {
            Ok(v) => v,
            Err(e) => {
                return Err(e);
            },
        };
    }
    Ok(
        RawScalarField {
            name,
            dimensions: parts.dimensions,
            internal,
            boundary: parts.boundary,
            boundary_patterns: parts.patterns,
        },
    )
}

fn read_scalar_parts(ts: &mut Tokenizer, notes: &mut Vec<String>) -> (r: Result<ScalarParts, Error>)
    requires
        old(ts).wf(),
    ensures
        texts(final(notes)@) == texts(old(notes)@) + top_notices(
            old(ts)@,
            no_parts(),
            false,
            scalar_entries(),
        ),
        match (r, top_body(old(ts)@, no_parts(), false, scalar_entries())) {
            (Ok(a), Ok(b)) => a.parts() == b,
            (Err(e), Err(f)) => e@ == f,
            _ => false,
        },
{
    let ghost whole = top_body(ts@, no_parts(), false, scalar_entries());
    let mut parts = ScalarParts::new();
    let ghost before = texts(notes@);
    let ghost said = top_notices(ts@, no_parts(), false, scalar_entries());
    while !ts.done()
        invariant
            ts.wf(),
            before == texts(old(notes)@),
            said == top_notices(old(ts)@, no_parts(), false, scalar_entries()),
            texts(notes@) + top_notices(ts@, parts.parts(), false, scalar_entries()) == before + said,
            whole == top_body(old(ts)@, no_parts(), false, scalar_entries()),
            whole == top_body(ts@, parts.parts(), false, scalar_entries()),
        decreases ts@.toks.len() - ts@.pos,
    {
        let ghost so_far = texts(notes@);
        let ghost here = top_step_notices(ts@, parts.parts(), false);
        let ghost all = top_notices(ts@, parts.parts(), false, scalar_entries());
        match parts.read_entry(ts, notes) {
            Ok(_) => {},
            Err(e) => {
                assert(here + Seq::<Seq<char>>::empty() =~= here);
                return Err(e);
            },
        }
        proof {
            ts.lemma_wf();
            let rest = top_notices(ts@, parts.parts(), false, scalar_entries());
            assert(so_far + (here + rest) =~= (so_far + here) + rest);
            assert(all == here + rest);
        }
    }
    assert(texts(notes@) + Seq::<Seq<char>>::empty() =~= texts(notes@));
    match ts.check_scan_error() {
        Ok(_) => Ok(parts),
        Err(e) => Err(e),
    }
}

struct VectorParts {
    dimensions: String,
    internal: Option<Vec<Vec3>>,
    boundary: Vec<(String, PatchFieldSpec)>,
    patterns: Vec<String>,
}

impl VectorParts {
    spec fn parts(self) -> Parts<Vec3> {
        Parts {
            dimensions: self.dimensions@,
            internal: match self.internal {
                Some(v) => Some(v@),
                None => None,
            },
            boundary: pairs(self.boundary@),
            patterns: texts(self.patterns@),
        }
    }

    fn new() -> (r: VectorParts)
        ensures
            r.parts() == no_parts::<Vec3>(),
    {
        let r = VectorParts {
            dimensions: String::new(),
            internal: None,
            boundary: Vec::new(),
            patterns: Vec::new(),
        };
        assert(r.parts() =~= no_parts::<Vec3>());
        r
    }

    fn read_entry(&mut self, ts: &mut Tokenizer, notes: &mut Vec<String>) -> (r: Result<(), Error>)
        requires
            old(ts).wf(),
            !old(ts)@.done(),
        ensures
            final(ts).wf(),
            texts(final(notes)@) == texts(old(notes)@) + top_step_notices(
                old(ts)@,
                old(self).parts(),
                true,
            ),
            match (r, top_step(old(ts)@, old(self).parts(), true, vector_entries())) {
                (Ok(_), Ok((u, x))) => final(self).parts() == u && final(ts)@ == old(ts)@.to(x) && x
                    > old(ts)@.pos,
                (Err(e), Err(f)) => e@ == f,
                _ => false,
            },
    {
        proof {
            ts.lemma_wf();
            assert(texts(notes@) =~= texts(notes@) + Seq::<Seq<char>>::empty());
        }
        if ts.is_punct(';') {
            ts.advance();
            return Ok(());
        }
        if at_mark(ts) {
            return Err(ts.err("expected a keyword"));
        }
        let k: String = match ts.expect_word() {
            Ok(k) => k,
            Err(e) => {
                return Err(e);
            },
        };
        if has_prefix(&k, "#") {
            return skip_directive(ts, &k, notes);
        }
        if same(&k, "dimensions") {
            return match gather_raw(ts) {
                Ok(v) => {
                    self.dimensions = v;
                    Ok(())
                },
                Err(e) => Err(e),
            };
        }
        if same(&k, "internalField") {
            proof {
                assert(vector_entries()(ts@) == vector_entry(ts@));
            }
            return match parse_vector_entry(ts) {
                Ok(v) => {
                    self.internal = Some(v);
                    Ok(())
                },
                Err(e) => Err(e),
            };
        }
        if same(&k, "boundaryField") {
            return parse_boundary_field(
                ts,
                &mut self.boundary,
                &mut self.patterns,
                true,
                notes,
            );
        }
        ts.skip_entry()
    }
}

/// Read a field of vectors out of a file's text; `base` names one whose header does not.
///
/// `n_cells` of zero keeps the internal field as written; any other value grows a
/// `uniform` one to that length and refuses a list of another.
pub fn read_vector_field(text: &str, path: &str, base: &str, n_cells: usize) -> (r: Result<
    RawVectorField,
    Error,
>)
    requires
        text@.len() < usize::MAX,
    ensures
        match (r, vector_field_in(text@, path@, base@, n_cells as nat)) {
            (Ok(a), Ok(b)) => a@ == b && is_in_order(b),
            (Err(e), Err(f)) => e@ == f,
            _ => false,
        },
{
    let mut notes: Vec<String> = Vec::new();
    read_vector_field_noting(text, path, base, n_cells, &mut notes)
}

/// The same, with a notice for every directive in the file that is not evaluated.
pub fn read_vector_field_noting(
    text: &str,
    path: &str,
    base: &str,
    n_cells: usize,
    notes: &mut Vec<String>,
) -> (r: Result<RawVectorField, Error>)
    requires
        text@.len() < usize::MAX,
    ensures
        match (r, vector_field_in(text@, path@, base@, n_cells as nat)) {
            (Ok(a), Ok(b)) => a@ == b && is_in_order(b),
            (Err(e), Err(f)) => e@ == f,
            _ => false,
        },
        texts(final(notes)@) == texts(old(notes)@) + field_notices(
            text@,
            path@,
            true,
            vector_entries(),
        ),
{
    proof {
        read_fields_are_in_order(text@, path@, base@, n_cells as nat, true, vector_entries(), origin());
        assert(texts(notes@) =~= texts(notes@) + Seq::<Seq<char>>::empty());
    }
    match check_ascii_format(text, path) {
        Ok(_) => {},
        Err(e) => {
            return Err(e);
        },
    }
    let mut ts = Tokenizer::new(text, path);
    let header: Vec<(String, String)> = match read_header(&mut ts) {
        Ok(h) => h,
        Err(e) => {
            return Err(e);
        },
    };
    let name: String = match find_value(&header, "object") {
        Some(n) => copy(n),
        None => copy(base),
    };
    let parts: VectorParts = match read_vector_parts(&mut ts, notes) {
        Ok(p) => p,
        Err(e) => {
            return Err(e);
        },
    };
    let mut internal: Vec<Vec3> = match parts.internal {
        Some(v) => v,
        None => {
            return Err(Error::Parse { path: copy(path), msg: copy("no internalField entry") });
        },
    };
    if n_cells > 0 {
        let mut what = copy(path);
        push_text(&mut what, ": internalField");
        internal = match expand_vectors(&internal, n_cells, &what) {
            Ok(v) => v,
            Err(e) => {
                return Err(e);
            },
        };
    }
    Ok(
        RawVectorField {
            name,
            dimensions: parts.dimensions,
            internal,
            boundary: parts.boundary,
            boundary_patterns: parts.patterns,
        },
    )
}

fn read_vector_parts(ts: &mut Tokenizer, notes: &mut Vec<String>) -> (r: Result<VectorParts, Error>)
    requires
        old(ts).wf(),
    ensures
        texts(final(notes)@) == texts(old(notes)@) + top_notices(
            old(ts)@,
            no_parts(),
            true,
            vector_entries(),
        ),
        match (r, top_body(old(ts)@, no_parts(), true, vector_entries())) {
            (Ok(a), Ok(b)) => a.parts() == b,
            (Err(e), Err(f)) => e@ == f,
            _ => false,
        },
{
    let ghost whole = top_body(ts@, no_parts(), true, vector_entries());
    let mut parts = VectorParts::new();
    let ghost before = texts(notes@);
    let ghost said = top_notices(ts@, no_parts(), true, vector_entries());
    while !ts.done()
        invariant
            ts.wf(),
            before == texts(old(notes)@),
            said == top_notices(old(ts)@, no_parts(), true, vector_entries()),
            texts(notes@) + top_notices(ts@, parts.parts(), true, vector_entries()) == before + said,
            whole == top_body(old(ts)@, no_parts(), true, vector_entries()),
            whole == top_body(ts@, parts.parts(), true, vector_entries()),
        decreases ts@.toks.len() - ts@.pos,
    {
        let ghost so_far = texts(notes@);
        let ghost here = top_step_notices(ts@, parts.parts(), true);
        let ghost all = top_notices(ts@, parts.parts(), true, vector_entries());
        match parts.read_entry(ts, notes) {
            Ok(_) => {},
            Err(e) => {
                assert(here + Seq::<Seq<char>>::empty() =~= here);
                return Err(e);
            },
        }
        proof {
            ts.lemma_wf();
            let rest = top_notices(ts@, parts.parts(), true, vector_entries());
            assert(so_far + (here + rest) =~= (so_far + here) + rest);
            assert(all == here + rest);
        }
    }
    assert(texts(notes@) + Seq::<Seq<char>>::empty() =~= texts(notes@));
    match ts.check_scan_error() {
        Ok(_) => Ok(parts),
        Err(e) => Err(e),
    }
}

// --------------------------------------------------------------------------
//  Writing
// --------------------------------------------------------------------------
/// The digits with which a face flux is written.
///
/// A flux is a constraint rather than a number: in every cell its face values
/// cancel. Rounded to six digits they cancel to six digits only, so that a restart
/// begins with an error that the first pressure solve has to remove. Seventeen
/// digits read back as the very number that was written.
pub const PHI_PRECISION: usize = 17;

/// The comment at the head of a file.
pub open spec fn banner() -> Seq<char> {
    "/*---------------------------------------------------------------------------*\\\n"@
        + "| ofgpu  --  GPU-native finite volume CFD                                     |\n"@
        + "|                                                                             |\n"@
        + "| Written in the OpenFOAM ASCII case format so that existing pre- and         |\n"@
        + "| post-processing tools can read it. A file format is not a work: ofgpu is    |\n"@
        + "| an independent implementation, neither derived from nor affiliated with     |\n"@
        + "| OpenFOAM.                                                                   |\n"@
        + "\\*---------------------------------------------------------------------------*/\n"@
}

fn write_banner() -> (s: String)
    ensures
        s@ == banner(),
{
    let mut s = copy(
        "/*---------------------------------------------------------------------------*\\\n",
    );
    push_text(
        &mut s,
        "| ofgpu  --  GPU-native finite volume CFD                                     |\n",
    );
    push_text(
        &mut s,
        "|                                                                             |\n",
    );
    push_text(
        &mut s,
        "| Written in the OpenFOAM ASCII case format so that existing pre- and         |\n",
    );
    push_text(
        &mut s,
        "| post-processing tools can read it. A file format is not a work: ofgpu is    |\n",
    );
    push_text(
        &mut s,
        "| an independent implementation, neither derived from nor affiliated with     |\n",
    );
    push_text(
        &mut s,
        "| OpenFOAM.                                                                   |\n",
    );
    push_text(
        &mut s,
        "\\*---------------------------------------------------------------------------*/\n",
    );
    s
}

pub open spec fn separator() -> Seq<char> {
    "// * * * * * * * * * * * * * * * * * * * * * * * * * * * * * * * * * * * * * //\n\n"@
}

pub open spec fn footer() -> Seq<char> {
    "\n\n// ************************************************************************* //\n"@
}

pub open spec fn blanks(n: nat) -> Seq<char> {
    Seq::new(n, |i: int| ' ')
}

/// A keyword, with blanks up to a width, one at least.
pub open spec fn keyword(indent: Seq<char>, kw: Seq<char>, width: nat) -> Seq<char> {
    indent + kw + blanks(
        if kw.len() < width {
            (width - kw.len()) as nat
        } else {
            1
        },
    )
}

fn write_blanks(n: usize) -> (s: String)
    ensures
        s@ == blanks(n as nat),
{
    let mut s = String::new();
    let mut i: usize = 0;
    assert(s@ =~= blanks(0));
    while i < n
        invariant
            i <= n,
            s@ == blanks(i as nat),
        decreases n - i,
    {
        s.push(' ');
        i = i + 1;
        assert(s@ =~= blanks(i as nat));
    }
    s
}

fn write_keyword(indent: &str, kw: &str, width: usize) -> (s: String)
    ensures
        s@ == keyword(indent@, kw@, width as nat),
{
    let n: usize = chars_of(kw).len();
    let gap = write_blanks(
        if n < width {
            width - n
        } else {
            1
        },
    );
    let mut s = copy(indent);
    push_text(&mut s, kw);
    push_text(&mut s, &gap);
    s
}

/// The head of a file: its class, the time it belongs to and the field's name.
pub open spec fn file_head(class: Seq<char>, time: Seq<char>, object: Seq<char>) -> Seq<char> {
    banner() + "FoamFile\n{\n"@ + keyword("    "@, "format"@, 12) + "ascii;\n"@ + keyword(
        "    "@,
        "class"@,
        12,
    ) + class + ";\n"@ + keyword("    "@, "location"@, 12) + "\""@ + time + "\";\n"@ + keyword(
        "    "@,
        "object"@,
        12,
    ) + object + ";\n"@ + "}\n"@ + separator()
}

fn write_foamfile_header(class: &str, time: &str, object: &str) -> (s: String)
    ensures
        s@ == file_head(class@, time@, object@),
{
    let mut s = write_banner();
    push_text(&mut s, "FoamFile\n{\n");
    push_text(&mut s, &write_keyword("    ", "format", 12));
    push_text(&mut s, "ascii;\n");
    push_text(&mut s, &write_keyword("    ", "class", 12));
    push_text(&mut s, class);
    push_text(&mut s, ";\n");
    push_text(&mut s, &write_keyword("    ", "location", 12));
    push_text(&mut s, "\"");
    push_text(&mut s, time);
    push_text(&mut s, "\";\n");
    push_text(&mut s, &write_keyword("    ", "object", 12));
    push_text(&mut s, object);
    push_text(&mut s, ";\n");
    push_text(&mut s, "}\n");
    push_text(
        &mut s,
        "// * * * * * * * * * * * * * * * * * * * * * * * * * * * * * * * * * * * * * //\n\n",
    );
    s
}

/// The dimensions; a field without them still needs the entry.
pub open spec fn dimensions_text(dims: Seq<char>) -> Seq<char> {
    keyword(""@, "dimensions"@, 16) + (if dims.len() == 0 {
        "[0 0 0 0 0 0 0]"@
    } else {
        dims
    }) + ";\n\n"@
}

fn write_dimensions(dims: &String) -> (s: String)
    ensures
        s@ == dimensions_text(dims@),
{
    let mut s = write_keyword("", "dimensions", 16);
    if chars_of(dims).len() == 0 {
        push_text(&mut s, "[0 0 0 0 0 0 0]");
    } else {
        push_text(&mut s, dims);
    }
    push_text(&mut s, ";\n\n");
    s
}

/// A number with at least one significant digit.
#[verifier::opaque]
pub open spec fn precise(v: Scalar, p: nat) -> Seq<char> {
    general(v, if p == 0 { 1 } else { p })
}

fn write_number(v: Scalar, p: usize) -> (s: String)
    requires
        p <= 0xffff,
    ensures
        s@ == precise(v, p as nat),
{
    reveal(precise);
    format_general(v, p)
}

pub open spec fn precise_vector(v: Vec3, p: nat) -> Seq<char> {
    "("@ + precise(v.x, p) + " "@ + precise(v.y, p) + " "@ + precise(v.z, p) + ")"@
}

fn write_vec3(v: Vec3, p: usize) -> (s: String)
    requires
        p <= 0xffff,
    ensures
        s@ == precise_vector(v, p as nat),
{
    let mut s = copy("(");
    push_text(&mut s, &write_number(v.x, p));
    push_text(&mut s, " ");
    push_text(&mut s, &write_number(v.y, p));
    push_text(&mut s, " ");
    push_text(&mut s, &write_number(v.z, p));
    push_text(&mut s, ")");
    s
}

/// Do two vectors compare equal, component by component?
pub open spec fn same_vector(a: Vec3, b: Vec3) -> bool {
    a.x.equal(b.x) && a.y.equal(b.y) && a.z.equal(b.z)
}

/// The first `n` numbers of a list, one to a line.
pub open spec fn scalar_lines(v: Seq<Scalar>, n: int, p: nat) -> Seq<char>
    decreases n,
{
    if n <= 0 {
        Seq::empty()
    } else {
        scalar_lines(v, n - 1, p) + precise(v[n - 1], p) + "\n"@
    }
}

/// Does every entry compare equal to the first?
pub open spec fn all_equal_scalars(v: Seq<Scalar>) -> bool {
    forall|i: int| 0 <= i < v.len() ==> (#[trigger] v[i]).equal(v[0])
}

/// Which lists are written as one value.
#[derive(Debug, Clone, Copy, PartialEq, Eq, Structural)]
pub enum Collapse {
    /// None.
    Never,
    /// Those whose entries compare equal, a zero to a negative zero too.
    Equal,
    /// Those whose entries are the very same numbers.
    Same,
}

/// Is a list written as its first value?
pub open spec fn shrinks(collapse: Collapse, v: Seq<Scalar>) -> bool {
    match collapse {
        Collapse::Never => false,
        Collapse::Equal => all_equal_scalars(v),
        Collapse::Same => all_equal_scalars(v) && forall|i: int|
            0 <= i < v.len() ==> #[trigger] v[i] == v[0],
    }
}

/// An entry with a list of numbers: `uniform` where it holds one value, or where the
/// list is collapsed.
pub open spec fn scalar_entry_text(
    indent: Seq<char>,
    kw: Seq<char>,
    v: Seq<Scalar>,
    p: nat,
    collapse: Collapse,
) -> Seq<char> {
    keyword(indent, kw, 16) + (if v.len() == 0 {
        "nonuniform 0();\n"@
    } else if v.len() == 1 || shrinks(collapse, v) {
        "uniform "@ + precise(v[0], p) + ";\n"@
    } else {
        "nonuniform List<scalar> \n"@ + decimal(v.len()) + "\n(\n"@ + scalar_lines(
            v,
            v.len() as int,
            p,
        ) + ")\n;\n"@
    })
}

fn scalars_are_equal(v: &Vec<Scalar>) -> (r: bool)
    ensures
        r == all_equal_scalars(v@),
{
    let mut i: usize = 0;
    while i < v.len()
        invariant
            i <= v.len(),
            forall|k: int| 0 <= k < i ==> (#[trigger] v@[k]).equal(v@[0]),
        decreases v.len() - i,
    {
        if !(v[i].equals(v[0])) {
            assert(!v@[i as int].equal(v@[0]));
            return false;
        }
        i = i + 1;
    }
    true
}

fn scalars_shrink(collapse: Collapse, v: &Vec<Scalar>) -> (r: bool)
    ensures
        r == shrinks(collapse, v@),
{
    match collapse {
        Collapse::Never => false,
        Collapse::Equal => scalars_are_equal(v),
        Collapse::Same => {
            let mut i: usize = 0;
            while i < v.len()
                invariant
                    collapse == Collapse::Same,
                    i <= v.len(),
                    forall|k: int| 0 <= k < i ==> #[trigger] v@[k] == v@[0],
                decreases v.len() - i,
            {
                if v[i].bits != v[0].bits {
                    assert(v@[i as int] != v@[0]);
                    return false;
                }
                i = i + 1;
            }
            scalars_are_equal(v)
        },
    }
}

fn write_scalar_lines(v: &Vec<Scalar>, p: usize) -> (s: String)
    requires
        p <= 0xffff,
    ensures
        s@ == scalar_lines(v@, v.len() as int, p as nat),
{
    let mut s = String::new();
    let mut i: usize = 0;
    assert(s@ =~= Seq::empty());
    while i < v.len()
        invariant
            i <= v.len(),
            p <= 0xffff,
            s@ == scalar_lines(v@, i as int, p as nat),
        decreases v.len() - i,
    {
        push_text(&mut s, &write_number(v[i], p));
        push_text(&mut s, "\n");
        i = i + 1;
    }
    s
}

fn write_scalar_entry(indent: &str, kw: &str, v: &Vec<Scalar>, p: usize, collapse: Collapse) -> (s: String)
    requires
        p <= 0xffff,
    ensures
        s@ == scalar_entry_text(indent@, kw@, v@, p as nat, collapse),
{
    let mut s = write_keyword(indent, kw, 16);
    if v.len() == 0 {
        push_text(&mut s, "nonuniform 0();\n");
        return s;
    }
    if v.len() == 1 || scalars_shrink(collapse, v) {
        let mut t = copy("uniform ");
        push_text(&mut t, &write_number(v[0], p));
        push_text(&mut t, ";\n");
        push_text(&mut s, &t);
        return s;
    }
    let mut t = copy("nonuniform List<scalar> \n");
    push_decimal(&mut t, v.len() as u64);
    push_text(&mut t, "\n(\n");
    push_text(&mut t, &write_scalar_lines(v, p));
    push_text(&mut t, ")\n;\n");
    push_text(&mut s, &t);
    s
}

/// An entry of a patch; a key that is absent is not written.
pub open spec fn patch_numbers_text(kw: Seq<char>, v: Seq<Scalar>, p: nat, collapse: Collapse) -> Seq<char> {
    if v.len() == 0 {
        Seq::empty()
    } else {
        scalar_entry_text("        "@, kw, v, p, collapse)
    }
}

fn write_patch_numbers(kw: &str, v: &Vec<Scalar>, p: usize, collapse: Collapse) -> (s: String)
    requires
        p <= 0xffff,
    ensures
        s@ == patch_numbers_text(kw@, v@, p as nat, collapse),
{
    if v.len() == 0 {
        let s = String::new();
        assert(s@ =~= Seq::empty());
        return s;
    }
    write_scalar_entry("        ", kw, v, p, collapse)
}

/// The first `n` vectors of a list, one to a line.
pub open spec fn vector_lines(v: Seq<Vec3>, n: int, p: nat) -> Seq<char>
    decreases n,
{
    if n <= 0 {
        Seq::empty()
    } else {
        vector_lines(v, n - 1, p) + precise_vector(v[n - 1], p) + "\n"@
    }
}

/// Does every entry compare equal to the first?
pub open spec fn all_equal_vectors(v: Seq<Vec3>) -> bool {
    forall|i: int| 0 <= i < v.len() ==> same_vector(#[trigger] v[i], v[0])
}

/// Is a list of vectors written as its first one?
pub open spec fn shrinks_vectors(collapse: Collapse, v: Seq<Vec3>) -> bool {
    match collapse {
        Collapse::Never => false,
        Collapse::Equal => all_equal_vectors(v),
        Collapse::Same => all_equal_vectors(v) && forall|i: int|
            0 <= i < v.len() ==> #[trigger] v[i] == v[0],
    }
}

/// An entry with a list of vectors: `uniform` where it holds one value, or where the
/// list is collapsed.
pub open spec fn vector_entry_text(
    indent: Seq<char>,
    kw: Seq<char>,
    v: Seq<Vec3>,
    p: nat,
    collapse: Collapse,
) -> Seq<char> {
    keyword(indent, kw, 16) + (if v.len() == 0 {
        "nonuniform 0();\n"@
    } else if v.len() == 1 || shrinks_vectors(collapse, v) {
        "uniform "@ + precise_vector(v[0], p) + ";\n"@
    } else {
        "nonuniform List<vector> \n"@ + decimal(v.len()) + "\n(\n"@ + vector_lines(
            v,
            v.len() as int,
            p,
        ) + ")\n;\n"@
    })
}

fn vectors_are_equal(v: &Vec<Vec3>) -> (r: bool)
    ensures
        r == all_equal_vectors(v@),
{
    let mut i: usize = 0;
    while i < v.len()
        invariant
            i <= v.len(),
            forall|k: int| 0 <= k < i ==> same_vector(#[trigger] v@[k], v@[0]),
        decreases v.len() - i,
    {
        if !(v[i].x.equals(v[0].x) && v[i].y.equals(v[0].y) && v[i].z.equals(v[0].z)) {
            assert(!same_vector(v@[i as int], v@[0]));
            return false;
        }
        i = i + 1;
    }
    true
}

fn vectors_shrink(collapse: Collapse, v: &Vec<Vec3>) -> (r: bool)
    ensures
        r == shrinks_vectors(collapse, v@),
{
    match collapse {
        Collapse::Never => false,
        Collapse::Equal => vectors_are_equal(v),
        Collapse::Same => {
            let mut i: usize = 0;
            while i < v.len()
                invariant
                    collapse == Collapse::Same,
                    i <= v.len(),
                    forall|k: int| 0 <= k < i ==> #[trigger] v@[k] == v@[0],
                decreases v.len() - i,
            {
                let (a, b) = (v[i], v[0]);
                if a.x.bits != b.x.bits || a.y.bits != b.y.bits || a.z.bits != b.z.bits {
                    assert(v@[i as int] != v@[0]);
                    return false;
                }
                assert(a.x == b.x && a.y == b.y && a.z == b.z);
                i = i + 1;
            }
            vectors_are_equal(v)
        },
    }
}

fn write_vector_lines(v: &Vec<Vec3>, p: usize) -> (s: String)
    requires
        p <= 0xffff,
    ensures
        s@ == vector_lines(v@, v.len() as int, p as nat),
{
    let mut s = String::new();
    let mut i: usize = 0;
    assert(s@ =~= Seq::empty());
    while i < v.len()
        invariant
            i <= v.len(),
            p <= 0xffff,
            s@ == vector_lines(v@, i as int, p as nat),
        decreases v.len() - i,
    {
        push_text(&mut s, &write_vec3(v[i], p));
        push_text(&mut s, "\n");
        i = i + 1;
    }
    s
}

fn write_vector_entry(indent: &str, kw: &str, v: &Vec<Vec3>, p: usize, collapse: Collapse) -> (s: String)
    requires
        p <= 0xffff,
    ensures
        s@ == vector_entry_text(indent@, kw@, v@, p as nat, collapse),
{
    let mut s = write_keyword(indent, kw, 16);
    if v.len() == 0 {
        push_text(&mut s, "nonuniform 0();\n");
        return s;
    }
    if v.len() == 1 || vectors_shrink(collapse, v) {
        let mut t = copy("uniform ");
        push_text(&mut t, &write_vec3(v[0], p));
        push_text(&mut t, ";\n");
        push_text(&mut s, &t);
        return s;
    }
    let mut t = copy("nonuniform List<vector> \n");
    push_decimal(&mut t, v.len() as u64);
    push_text(&mut t, "\n(\n");
    push_text(&mut t, &write_vector_lines(v, p));
    push_text(&mut t, ")\n;\n");
    push_text(&mut s, &t);
    s
}

/// An entry of a patch; a key that is absent is not written.
pub open spec fn patch_vectors_text(kw: Seq<char>, v: Seq<Vec3>, p: nat, collapse: Collapse) -> Seq<char> {
    if v.len() == 0 {
        Seq::empty()
    } else {
        vector_entry_text("        "@, kw, v, p, collapse)
    }
}

fn write_patch_vectors(kw: &str, v: &Vec<Vec3>, p: usize, collapse: Collapse) -> (s: String)
    requires
        p <= 0xffff,
    ensures
        s@ == patch_vectors_text(kw@, v@, p as nat, collapse),
{
    if v.len() == 0 {
        let s = String::new();
        assert(s@ =~= Seq::empty());
        return s;
    }
    write_vector_entry("        ", kw, v, p, collapse)
}

/// Types whose `value` is not written: constraints, and conditions that are a
/// derivative throughout.
pub open spec fn is_valueless(t: Seq<char>) -> bool {
    t == "empty"@ || t == "cyclic"@ || t == "cyclicSlip"@ || t == "processor"@ || t == "wedge"@ || t
        == "symmetry"@ || t == "symmetryPlane"@ || t == "zeroGradient"@ || t == "noSlip"@ || t
        == "slip"@
}

fn suppress_value(t: &str) -> (r: bool)
    ensures
        r == is_valueless(t@),
{
    same(t, "empty") || same(t, "cyclic") || same(t, "cyclicSlip") || same(t, "processor") || same(
        t,
        "wedge",
    ) || same(t, "symmetry") || same(t, "symmetryPlane") || same(t, "zeroGradient") || same(
        t,
        "noSlip",
    ) || same(t, "slip")
}

/// A character that a name holds without quotes.
pub open spec fn is_name_char(c: char) -> bool {
    is_letter(c) || is_digit(c) || c == '_' || c == '.' || c == '-'
}

/// Does a name read back as one only in quotes?
pub open spec fn wants_quotes(s: Seq<char>) -> bool {
    s.len() == 0 || exists|i: int| 0 <= i < s.len() && !is_name_char(#[trigger] s[i])
}

fn needs_quoting(s: &Vec<char>) -> (r: bool)
    ensures
        r == wants_quotes(s@),
{
    if s.len() == 0 {
        return true;
    }
    let mut i: usize = 0;
    while i < s.len()
        invariant
            i <= s.len(),
            forall|k: int| 0 <= k < i ==> is_name_char(#[trigger] s@[k]),
        decreases s.len() - i,
    {
        let c: char = s[i];
        if !(letter(c) || digit(c) || c == '_' || c == '.' || c == '-') {
            assert(!is_name_char(s@[i as int]));
            return true;
        }
        i = i + 1;
    }
    false
}

/// The key of an entry as it is written. A pattern is stored with its quotes.
pub open spec fn written_key(name: Seq<char>) -> Seq<char> {
    if unquoted(name) is Some || !wants_quotes(name) {
        "    "@ + name + "\n"@
    } else {
        "    \""@ + name + "\"\n"@
    }
}

fn write_key(name: &str) -> (s: String)
    ensures
        s@ == written_key(name@),
{
    let c = chars_of(name);
    let quoted: bool = c.len() >= 2 && c[0] == '"' && c[c.len() - 1] == '"';
    if quoted || !needs_quoting(&c) {
        let mut s = copy("    ");
        push_text(&mut s, name);
        push_text(&mut s, "\n");
        return s;
    }
    let mut s = copy("    \"");
    push_text(&mut s, name);
    push_text(&mut s, "\"\n");
    s
}

/// The type that an entry is written with.
pub open spec fn written_type(e: PatchEntry) -> Seq<char> {
    if e.patch_type.len() == 0 {
        "calculated"@
    } else {
        e.patch_type
    }
}

pub open spec fn neighbour_text(n: Option<Seq<char>>) -> Seq<char> {
    match n {
        Some(np) => if np.len() == 0 {
            Seq::empty()
        } else {
            keyword("        "@, "neighbourPatch"@, 16) + np + ";\n"@
        },
        None => Seq::empty(),
    }
}

fn write_neighbour(n: &Option<String>) -> (s: String)
    ensures
        s@ == neighbour_text(text_in(*n)),
{
    match n {
        Some(np) => {
            if chars_of(np).len() > 0 {
                let mut s = write_keyword("        ", "neighbourPatch", 16);
                push_text(&mut s, np);
                push_text(&mut s, ";\n");
                return s;
            }
        },
        None => {},
    }
    let s = String::new();
    assert(s@ =~= Seq::empty());
    s
}

/// The lists of an entry, in the order in which they are written.
pub open spec fn lists_text(e: PatchEntry, vector: bool, p: nat, collapse: Collapse) -> Seq<char> {
    let bare = is_valueless(written_type(e));
    if vector {
        patch_vectors_text("refValue"@, e.ref_value_v, p, collapse) + patch_vectors_text(
            "refGradient"@,
            e.ref_gradient_v,
            p,
            collapse,
        ) + patch_numbers_text("valueFraction"@, e.value_fraction, p, collapse)
            + patch_vectors_text("inletValue"@, e.inlet_value_v, p, collapse) + patch_vectors_text(
            "gradient"@,
            e.gradient_v,
            p,
            collapse,
        ) + (if bare {
            Seq::empty()
        } else {
            patch_vectors_text("value"@, e.value_v, p, collapse)
        })
    } else {
        patch_numbers_text("refValue"@, e.ref_value, p, collapse) + patch_numbers_text(
            "refGradient"@,
            e.ref_gradient,
            p,
            collapse,
        ) + patch_numbers_text("valueFraction"@, e.value_fraction, p, collapse)
            + patch_numbers_text("inletValue"@, e.inlet_value, p, collapse) + patch_numbers_text(
            "gradient"@,
            e.gradient,
            p,
            collapse,
        ) + (if bare {
            Seq::empty()
        } else {
            patch_numbers_text("value"@, e.value, p, collapse)
        })
    }
}

fn write_lists(
    e: &PatchFieldSpec,
    Ghost(shown): Ghost<PatchEntry>,
    bare: bool,
    vector: bool,
    p: usize,
    collapse: Collapse,
) -> (s: String)
    requires
        p <= 0xffff,
        shown == (PatchEntry { patch_type: shown.patch_type, ..e@ }),
        bare == is_valueless(written_type(shown)),
    ensures
        s@ == lists_text(shown, vector, p as nat, collapse),
{
    if vector {
        let mut s = write_patch_vectors("refValue", &e.ref_value_v, p, collapse);
        push_text(&mut s, &write_patch_vectors("refGradient", &e.ref_gradient_v, p, collapse));
        push_text(&mut s, &write_patch_numbers("valueFraction", &e.value_fraction, p, collapse));
        push_text(&mut s, &write_patch_vectors("inletValue", &e.inlet_value_v, p, collapse));
        push_text(&mut s, &write_patch_vectors("gradient", &e.gradient_v, p, collapse));
        if !bare {
            push_text(&mut s, &write_patch_vectors("value", &e.value_v, p, collapse));
        }
        assert(s@ =~= lists_text(shown, vector, p as nat, collapse));
        s
    } else {
        let mut s = write_patch_numbers("refValue", &e.ref_value, p, collapse);
        push_text(&mut s, &write_patch_numbers("refGradient", &e.ref_gradient, p, collapse));
        push_text(&mut s, &write_patch_numbers("valueFraction", &e.value_fraction, p, collapse));
        push_text(&mut s, &write_patch_numbers("inletValue", &e.inlet_value, p, collapse));
        push_text(&mut s, &write_patch_numbers("gradient", &e.gradient, p, collapse));
        if !bare {
            push_text(&mut s, &write_patch_numbers("value", &e.value, p, collapse));
        }
        assert(s@ =~= lists_text(shown, vector, p as nat, collapse));
        s
    }
}

/// One entry of a boundary.
pub open spec fn patch_text(
    name: Seq<char>,
    e: PatchEntry,
    vector: bool,
    p: nat,
    collapse: Collapse,
) -> Seq<char> {
    written_key(name) + "    {\n"@ + keyword("        "@, "type"@, 16) + written_type(e) + ";\n"@
        + neighbour_text(e.neighbour_patch) + lists_text(e, vector, p, collapse) + "    }\n"@
}

/// The first `n` entries of a boundary.
pub open spec fn patches_text(
    b: Seq<Entry<PatchEntry>>,
    n: int,
    vector: bool,
    p: nat,
    collapse: Collapse,
) -> Seq<char>
    decreases n,
{
    if n <= 0 {
        Seq::empty()
    } else {
        patches_text(b, n - 1, vector, p, collapse) + patch_text(
            b[n - 1].0,
            b[n - 1].1,
            vector,
            p,
            collapse,
        )
    }
}

/// The boundary of a file.
pub open spec fn boundary_text(b: Seq<Entry<PatchEntry>>, vector: bool, p: nat, collapse: Collapse) -> Seq<
    char,
> {
    "boundaryField\n{\n"@ + patches_text(b, b.len() as int, vector, p, collapse) + "}\n"@
}

/// The entry of a flux as it is written: an `empty` patch keeps its type, every
/// other one is `calculated`.
pub open spec fn surface_entry(e: PatchEntry) -> PatchEntry {
    PatchEntry {
        patch_type: if e.patch_type == "empty"@ {
            e.patch_type
        } else {
            "calculated"@
        },
        ..e
    }
}

/// The boundary of a flux as it is written.
pub open spec fn surface_boundary(b: Seq<Entry<PatchEntry>>) -> Seq<Entry<PatchEntry>> {
    b.map_values(|x: Entry<PatchEntry>| (x.0, surface_entry(x.1)))
}

/// The boundary that is written, of a flux or of another field.
pub open spec fn shown_boundary(b: Seq<Entry<PatchEntry>>, surface: bool) -> Seq<
    Entry<PatchEntry>,
> {
    if surface {
        surface_boundary(b)
    } else {
        b
    }
}

fn write_patch(
    name: &str,
    e: &PatchFieldSpec,
    surface: bool,
    vector: bool,
    p: usize,
    collapse: Collapse,
) -> (s: String)
    requires
        p <= 0xffff,
    ensures
        s@ == patch_text(
            name@,
            if surface {
                surface_entry(e@)
            } else {
                e@
            },
            vector,
            p as nat,
            collapse,
        ),
{
    let kind: String = if (surface && !same(&e.patch_type, "empty")) || chars_of(
        &e.patch_type,
    ).len() == 0 {
        copy("calculated")
    } else {
        copy(&e.patch_type)
    };
    let bare: bool = suppress_value(&kind);
    let ghost shown = if surface {
        surface_entry(e@)
    } else {
        e@
    };
    assert(kind@ == written_type(shown));
    let mut s = write_key(name);
    push_text(&mut s, "    {\n");
    push_text(&mut s, &write_keyword("        ", "type", 16));
    push_text(&mut s, &kind);
    push_text(&mut s, ";\n");
    push_text(&mut s, &write_neighbour(&e.neighbour_patch));
    push_text(&mut s, &write_lists(e, Ghost(shown), bare, vector, p, collapse));
    push_text(&mut s, "    }\n");
    s
}

#[verifier::rlimit(40)]
#[verifier::spinoff_prover]
fn write_boundary_field(
    b: &Vec<(String, PatchFieldSpec)>,
    surface: bool,
    vector: bool,
    p: usize,
    collapse: Collapse,
) -> (s: String)
    requires
        p <= 0xffff,
    ensures
        s@ == boundary_text(shown_boundary(pairs(b@), surface), vector, p as nat, collapse),
{
    let mut t = String::new();
    let mut i: usize = 0;
    let ghost shown = shown_boundary(pairs(b@), surface);
    assert(t@ =~= Seq::empty());
    while i < b.len()
        invariant
            i <= b.len(),
            p <= 0xffff,
            shown == shown_boundary(pairs(b@), surface),
            shown.len() == b.len(),
            t@ == patches_text(shown, i as int, vector, p as nat, collapse),
        decreases b.len() - i,
    {
        let one = write_patch(&b[i].0, &b[i].1, surface, vector, p, collapse);
        assert(shown[i as int].0 == b@[i as int].0@);
        assert(one@ == patch_text(
            shown[i as int].0,
            shown[i as int].1,
            vector,
            p as nat,
            collapse,
        ));
        push_text(&mut t, &one);
        i = i + 1;
    }
    let mut s = copy("boundaryField\n{\n");
    push_text(&mut s, &t);
    push_text(&mut s, "}\n");
    s
}

/// The name that a field is written under.
pub open spec fn object_name(name: Seq<char>, base: Seq<char>) -> Seq<char> {
    if name.len() == 0 {
        base
    } else {
        name
    }
}

fn name_or<'a>(name: &'a String, base: &'a str) -> (r: &'a str)
    ensures
        r@ == object_name(name@, base@),
{
    if chars_of(name).len() == 0 {
        base
    } else {
        name.as_str()
    }
}

/// The text of a field's file.
pub open spec fn scalar_field_text(
    f: FieldFile<Scalar>,
    class: Seq<char>,
    base: Seq<char>,
    time: Seq<char>,
    p: nat,
    collapse: Collapse,
) -> Seq<char> {
    file_head(class, time, object_name(f.name, base)) + dimensions_text(f.dimensions)
        + scalar_entry_text(""@, "internalField"@, f.internal, p, collapse) + "\n"@ + boundary_text(
        f.boundary,
        false,
        p,
        collapse,
    ) + footer()
}

/// The text of a field's file.
pub open spec fn vector_field_text(
    f: FieldFile<Vec3>,
    class: Seq<char>,
    base: Seq<char>,
    time: Seq<char>,
    p: nat,
    collapse: Collapse,
) -> Seq<char> {
    file_head(class, time, object_name(f.name, base)) + dimensions_text(f.dimensions)
        + vector_entry_text(""@, "internalField"@, f.internal, p, collapse) + "\n"@ + boundary_text(
        f.boundary,
        true,
        p,
        collapse,
    ) + footer()
}

/// A face flux as it is written.
pub open spec fn surface_field(f: FieldFile<Scalar>) -> FieldFile<Scalar> {
    FieldFile { boundary: surface_boundary(f.boundary), ..f }
}

/// The text of a face flux.
pub open spec fn surface_field_text(
    f: FieldFile<Scalar>,
    base: Seq<char>,
    time: Seq<char>,
    p: nat,
    collapse: bool,
) -> Seq<char> {
    scalar_field_text(
        surface_field(f),
        "surfaceScalarField"@,
        base,
        time,
        p,
        if collapse {
            Collapse::Same
        } else {
            Collapse::Never
        },
    )
}

/// How lists are collapsed where equal values may stand for each other.
pub open spec fn collapsing(collapse: bool) -> Collapse {
    if collapse {
        Collapse::Equal
    } else {
        Collapse::Never
    }
}

/// The file of a face flux: one number per internal face, and per face of each
/// patch, with the digits that read back as the very numbers; `base` is the name
/// of the file, and names a field that has none.
///
/// An `empty` patch keeps its type and carries no value: its flux is zero. Every
/// other patch, a `cyclic` one too, is written `calculated` with its face values,
/// so that no flux is lost where a run starts from the file. A list is collapsed only
/// where its entries are the very same number: a flux comes back bit for bit.
pub fn write_surface_scalar_field(base: &str, f: &RawScalarField, time: &str) -> (s: String)
    ensures
        s@ == surface_field_text(f@, base@, time@, PHI_PRECISION as nat, true),
{
    write_surface_scalar_field_prec(base, f, time, PHI_PRECISION, true)
}

/// The same with a given number of digits, and the choice of writing a list whose
/// entries are the very same number as `uniform`.
pub fn write_surface_scalar_field_prec(
    base: &str,
    f: &RawScalarField,
    time: &str,
    precision: usize,
    collapse_uniform: bool,
) -> (s: String)
    requires
        precision <= 0xffff,
    ensures
        s@ == surface_field_text(f@, base@, time@, precision as nat, collapse_uniform),
{
    let c: Collapse = if collapse_uniform {
        Collapse::Same
    } else {
        Collapse::Never
    };
    let mut s = write_foamfile_header("surfaceScalarField", time, name_or(&f.name, base));
    push_text(&mut s, &write_dimensions(&f.dimensions));
    push_text(
        &mut s,
        &write_scalar_entry("", "internalField", &f.internal, precision, c),
    );
    push_text(&mut s, "\n");
    push_text(
        &mut s,
        &write_boundary_field(&f.boundary, true, false, precision, c),
    );
    push_text(
        &mut s,
        "\n\n// ************************************************************************* //\n",
    );
    s
}

/// The file of a field of numbers, with six digits;
/// `base` is the name of the file, and names a field that has none.
pub fn write_scalar_field(base: &str, f: &RawScalarField, time: &str) -> (s: String)
    ensures
        s@ == scalar_field_text(f@, "volScalarField"@, base@, time@, 6, Collapse::Equal),
{
    write_scalar_field_prec(base, f, time, 6, true)
}

/// The same with a given number of digits, and the choice of writing a list whose
/// entries are all equal as `uniform`.
pub fn write_scalar_field_prec(
    base: &str,
    f: &RawScalarField,
    time: &str,
    precision: usize,
    collapse_uniform: bool,
) -> (s: String)
    requires
        precision <= 0xffff,
    ensures
        s@ == scalar_field_text(
            f@,
            "volScalarField"@,
            base@,
            time@,
            precision as nat,
            collapsing(collapse_uniform),
        ),
{
    let c: Collapse = if collapse_uniform {
        Collapse::Equal
    } else {
        Collapse::Never
    };
    let mut s = write_foamfile_header("volScalarField", time, name_or(&f.name, base));
    push_text(&mut s, &write_dimensions(&f.dimensions));
    push_text(
        &mut s,
        &write_scalar_entry("", "internalField", &f.internal, precision, c),
    );
    push_text(&mut s, "\n");
    push_text(
        &mut s,
        &write_boundary_field(&f.boundary, false, false, precision, c),
    );
    push_text(
        &mut s,
        "\n\n// ************************************************************************* //\n",
    );
    s
}

/// The file of a field of vectors, with six digits;
/// `base` is the name of the file, and names a field that has none.
pub fn write_vector_field(base: &str, f: &RawVectorField, time: &str) -> (s: String)
    ensures
        s@ == vector_field_text(f@, "volVectorField"@, base@, time@, 6, Collapse::Equal),
{
    write_vector_field_prec(base, f, time, 6, true)
}

/// The same with a given number of digits, and the choice of writing a list whose
/// entries are all equal as `uniform`.
pub fn write_vector_field_prec(
    base: &str,
    f: &RawVectorField,
    time: &str,
    precision: usize,
    collapse_uniform: bool,
) -> (s: String)
    requires
        precision <= 0xffff,
    ensures
        s@ == vector_field_text(
            f@,
            "volVectorField"@,
            base@,
            time@,
            precision as nat,
            collapsing(collapse_uniform),
        ),
{
    let c: Collapse = if collapse_uniform {
        Collapse::Equal
    } else {
        Collapse::Never
    };
    let mut s = write_foamfile_header("volVectorField", time, name_or(&f.name, base));
    push_text(&mut s, &write_dimensions(&f.dimensions));
    push_text(
        &mut s,
        &write_vector_entry("", "internalField", &f.internal, precision, c),
    );
    push_text(&mut s, "\n");
    push_text(
        &mut s,
        &write_boundary_field(&f.boundary, false, true, precision, c),
    );
    push_text(
        &mut s,
        "\n\n// ************************************************************************* //\n",
    );
    s
}

} // verus!
