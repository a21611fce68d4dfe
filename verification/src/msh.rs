//! Meshes in Gmsh's format, version 4.1, in ASCII.
//!
//! Such a file holds elements: its faces are found by their vertices. A face of one
//! cell is a boundary face; a face of two is an internal face, and the cell that
//! comes first owns it. Triangles and quadrangles give boundary faces their patch.

use std::collections::HashMap;

use vstd::prelude::*;

use crate::contract::{decided, passed_over, refusal, strict, unsupported, Policy};
use crate::error::{Error, Failure};
use crate::list::{all_buckets, buckets, flat, rows};
use crate::mesh::{patches_of, Label, Patch, PatchInfo, PatchKind, Vec3};
use crate::numeral::{parse_chars, parsed};
use crate::polymesh::{faces_of, PolyMeshRaw, RawMesh};
use crate::scalar::Scalar;
use crate::text::{
    chars_of, copy, decimal, digit_run, digits_value, is_digit, join, lemma_push_join,
    lemma_texts_push, push_decimal, push_signed, push_text, push_wide, same, signed_decimal,
    string_between, texts,
};

verus! {

// --------------------------------------------------------------------------
//  Words
// --------------------------------------------------------------------------
/// A blank between words.
pub open spec fn is_blank(c: char) -> bool {
    c == ' ' || c == '\t' || c == '\n' || c == '\r' || c == '\u{c}'
}

fn blank(c: char) -> (r: bool)
    ensures
        r == is_blank(c),
{
    c == ' ' || c == '\t' || c == '\n' || c == '\r' || c == '\u{c}'
}

/// The first quote from `i` on, or the end.
pub open spec fn quote_at(s: Seq<char>, i: int) -> int
    decreases s.len() - i,
{
    if i < 0 || i >= s.len() || s[i] == '"' {
        i
    } else {
        quote_at(s, i + 1)
    }
}

/// The first blank or quote from `i` on, or the end.
pub open spec fn word_stop(s: Seq<char>, i: int) -> int
    decreases s.len() - i,
{
    if i < 0 || i >= s.len() || is_blank(s[i]) || s[i] == '"' {
        i
    } else {
        word_stop(s, i + 1)
    }
}

pub proof fn lemma_quote_at(s: Seq<char>, i: int)
    requires
        0 <= i <= s.len(),
    ensures
        i <= quote_at(s, i) <= s.len(),
    decreases s.len() - i,
{
    if i < s.len() && s[i] != '"' {
        lemma_quote_at(s, i + 1);
    }
}

pub proof fn lemma_word_stop(s: Seq<char>, i: int)
    requires
        0 <= i <= s.len(),
    ensures
        i <= word_stop(s, i) <= s.len(),
    decreases s.len() - i,
{
    if i < s.len() && !is_blank(s[i]) && s[i] != '"' {
        lemma_word_stop(s, i + 1);
    }
}

/// The words of a text from `i` on; what stands in quotes is one word.
pub open spec fn pieces(s: Seq<char>, i: int) -> Seq<Seq<char>>
    decreases s.len() - i + 1,
{
    if i < 0 || i >= s.len() {
        Seq::empty()
    } else if is_blank(s[i]) {
        pieces(s, i + 1)
    } else if s[i] == '"' {
        let j = quote_at(s, i + 1);
        if j < i + 1 || j > s.len() {
            Seq::empty()
        } else {
            seq![s.subrange(i + 1, j)] + pieces(s, j + 1)
        }
    } else {
        let j = word_stop(s, i);
        if j <= i || j > s.len() {
            Seq::empty()
        } else {
            seq![s.subrange(i, j)] + pieces(s, j)
        }
    }
}

/// A text has no more words than characters.
pub proof fn words_take_characters(s: Seq<char>, i: int)
    requires
        0 <= i,
    ensures
        i <= s.len() ==> pieces(s, i).len() <= s.len() - i,
        i > s.len() ==> pieces(s, i).len() == 0,
    decreases s.len() - i + 1,
{
    if i < s.len() {
        if is_blank(s[i]) {
            words_take_characters(s, i + 1);
        } else if s[i] == '"' {
            lemma_quote_at(s, i + 1);
            words_take_characters(s, quote_at(s, i + 1) + 1);
        } else {
            lemma_word_stop(s, i);
            if word_stop(s, i) > i {
                words_take_characters(s, word_stop(s, i));
            }
        }
    }
}

/// Split a text into its words.
fn tokenize(text: &str) -> (r: Vec<String>)
    ensures
        texts(r@) == pieces(text@, 0),
{
    let s = chars_of(text);
    let ghost sv = text@;
    let mut out: Vec<String> = Vec::new();
    let mut i: usize = 0;
    assert(texts(out@) + pieces(sv, 0) =~= pieces(sv, 0));
    while i < s.len()
        invariant
            i <= s.len(),
            s@ == sv,
            texts(out@) + pieces(sv, i as int) == pieces(sv, 0),
        decreases s.len() - i,
    {
        if blank(s[i]) {
            i = i + 1;
        } else if s[i] == '"' {
            let mut j: usize = i + 1;
            while j < s.len() && s[j] != '"'
                invariant
                    i + 1 <= j <= s.len(),
                    s@ == sv,
                    quote_at(sv, i + 1) == quote_at(sv, j as int),
                decreases s.len() - j,
            {
                j = j + 1;
            }
            let w = string_between(&s, i + 1, j);
            proof {
                lemma_push_join(texts(out@), w@, pieces(sv, j + 1));
                lemma_texts_push(out@, w);
            }
            out.push(w);
            if j < s.len() {
                i = j + 1;
            } else {
                i = j;
                assert(pieces(sv, j + 1) =~= pieces(sv, j as int));
            }
        } else {
            let mut j: usize = i;
            while j < s.len() && !blank(s[j]) && s[j] != '"'
                invariant
                    i <= j <= s.len(),
                    s@ == sv,
                    i < s.len(),
                    !is_blank(sv[i as int]) && sv[i as int] != '"',
                    word_stop(sv, i as int) == word_stop(sv, j as int),
                decreases s.len() - j,
            {
                j = j + 1;
            }
            assert(j > i);
            let w = string_between(&s, i, j);
            proof {
                lemma_push_join(texts(out@), w@, pieces(sv, j as int));
                lemma_texts_push(out@, w);
            }
            out.push(w);
            i = j;
        }
    }
    assert(texts(out@) + Seq::<Seq<char>>::empty() =~= texts(out@));
    out
}

/// The integer that a word spells: a sign, then digits, within 64 bits.
pub open spec fn integer_in(w: Seq<char>) -> Option<int> {
    let signed = w.len() > 0 && (w[0] == '-' || w[0] == '+');
    let from = if signed { 1int } else { 0 };
    if from >= w.len() || digit_run(w, from) < w.len() {
        None
    } else {
        let v = digits_value(w.skip(from)) as int;
        let n = if w[0] == '-' { -v } else { v };
        if i64::MIN <= n <= i64::MAX {
            Some(n)
        } else {
            None
        }
    }
}

proof fn lemma_digits_grow(s: Seq<char>, n: int)
    requires
        0 <= n <= s.len(),
        forall|k: int| 0 <= k < s.len() ==> is_digit(#[trigger] s[k]),
    ensures
        digits_value(s.take(n)) <= digits_value(s),
    decreases s.len() - n,
{
    if n < s.len() {
        lemma_digits_grow(s, n + 1);
        assert(s.take(n + 1).drop_last() =~= s.take(n));
    } else {
        assert(s.take(n) =~= s);
    }
}

fn integer_of(w: &str) -> (r: Option<i64>)
    ensures
        match (r, integer_in(w@)) {
            (Some(a), Some(b)) => a == b,
            (None, None) => true,
            _ => false,
        },
{
    let s = chars_of(w);
    let signed: bool = s.len() > 0 && (s[0] == '-' || s[0] == '+');
    let from: usize = if signed {
        1
    } else {
        0
    };
    if from >= s.len() {
        return None;
    }
    let end: usize = crate::text::skip_digits(&s, from);
    if end < s.len() {
        return None;
    }
    let ghost ds = w@.skip(from as int);
    let mut v: i128 = 0;
    let mut i: usize = from;
    assert(ds.take(0) =~= Seq::empty());
    while i < s.len()
        invariant
            from <= i <= s.len(),
            s@ == w@,
            ds == w@.skip(from as int),
            forall|k: int| from <= k < s.len() ==> is_digit(#[trigger] s[k]),
            v == digits_value(ds.take(i - from)),
            0 <= v <= 0x1_0000_0000_0000_0000,
            integer_in(w@) == (if i64::MIN <= (if w@[0] == '-' {
                -(digits_value(ds) as int)
            } else {
                digits_value(ds) as int
            }) <= i64::MAX {
                Some(
                    if w@[0] == '-' {
                        -(digits_value(ds) as int)
                    } else {
                        digits_value(ds) as int
                    },
                )
            } else {
                None
            }),
        decreases s.len() - i,
    {
        let d: i128 = (s[i] as u32 - 48) as i128;
        v = 10 * v + d;
        i = i + 1;
        proof {
            let p = ds.take(i - from);
            assert(p.drop_last() =~= ds.take(i - from - 1));
            assert(p.last() == s[i - 1]);
            assert forall|k: int| 0 <= k < ds.len() implies is_digit(#[trigger] ds[k]) by {
                assert(ds[k] == s[k + from]);
            }
            lemma_digits_grow(ds, i - from);
        }
        if v > 0x1_0000_0000_0000_0000 {
            return None;
        }
    }
    assert(ds.take(i - from) =~= ds);
    let n: i128 = if s[0] == '-' {
        -v
    } else {
        v
    };
    if -0x8000_0000_0000_0000 <= n && n <= 0x7fff_ffff_ffff_ffff {
        Some(n as i64)
    } else {
        None
    }
}

// --------------------------------------------------------------------------
//  Reading words
// --------------------------------------------------------------------------
/// The words of a file, and how far they have been read.
pub struct Reel {
    pub origin: Seq<char>,
    pub toks: Seq<Seq<char>>,
    pub pos: int,
}

/// A value and where it ends, or why there is none.
pub type Take<T> = Result<(T, int), Failure>;

impl Reel {
    pub open spec fn to(self, pos: int) -> Reel {
        Reel { pos, ..self }
    }

    pub open spec fn failure(self, msg: Seq<char>) -> Failure {
        Failure::Parse { path: self.origin, msg }
    }

    /// The next word.
    pub open spec fn word(self) -> Take<Seq<char>> {
        if 0 <= self.pos < self.toks.len() {
            Ok((self.toks[self.pos], self.pos + 1))
        } else {
            Err(self.failure("unexpected end of file"@))
        }
    }

    /// The next word is a given one.
    pub open spec fn is_next(self, w: Seq<char>) -> bool {
        0 <= self.pos < self.toks.len() && self.toks[self.pos] == w
    }

    /// A given word.
    pub open spec fn given(self, w: Seq<char>) -> Result<int, Failure> {
        match self.word() {
            Err(f) => Err(f),
            Ok((t, e)) => if t == w {
                Ok(e)
            } else {
                Err(self.failure(wrong_word_text(w, t)))
            },
        }
    }

    /// An integer.
    pub open spec fn integer(self) -> Take<i64> {
        match self.word() {
            Err(f) => Err(f),
            Ok((t, e)) => match integer_in(t) {
                Some(v) => Ok((v as i64, e)),
                None => Err(self.failure(no_integer_text(t))),
            },
        }
    }

    /// A number.
    pub open spec fn number(self) -> Take<Scalar> {
        match self.word() {
            Err(f) => Err(f),
            Ok((t, e)) => match parsed(t) {
                Some(v) => Ok((v, e)),
                None => Err(self.failure(no_number_text(t))),
            },
        }
    }
}

pub open spec fn wrong_word_text(want: Seq<char>, got: Seq<char>) -> Seq<char> {
    "expected \""@
        + want
        + "\", found \""@
        + got
        + "\""@
}

pub(crate) fn wrong_word_message(want: &str, got: &str) -> (r: String)
    ensures
        r@ == wrong_word_text(want@, got@),
{
    let mut s = copy("expected \"");
    push_text(&mut s, want);
    push_text(&mut s, "\", found \"");
    push_text(&mut s, got);
    push_text(&mut s, "\"");
    s
}

pub open spec fn no_integer_text(got: Seq<char>) -> Seq<char> {
    "expected an integer, found \""@
        + got
        + "\""@
}

pub(crate) fn no_integer_message(got: &str) -> (r: String)
    ensures
        r@ == no_integer_text(got@),
{
    let mut s = copy("expected an integer, found \"");
    push_text(&mut s, got);
    push_text(&mut s, "\"");
    s
}

pub open spec fn no_number_text(got: Seq<char>) -> Seq<char> {
    "expected a number, found \""@
        + got
        + "\""@
}

pub(crate) fn no_number_message(got: &str) -> (r: String)
    ensures
        r@ == no_number_text(got@),
{
    let mut s = copy("expected a number, found \"");
    push_text(&mut s, got);
    push_text(&mut s, "\"");
    s
}

/// The words of a file, and how far they have been read.
struct Lex {
    toks: Vec<String>,
    pos: usize,
    origin: String,
}

impl Lex {
    spec fn reel(&self) -> Reel {
        Reel { origin: self.origin@, toks: texts(self.toks@), pos: self.pos as int }
    }

    spec fn wf(&self) -> bool {
        self.pos <= self.toks.len()
    }

    fn new(text: &str, origin: &str) -> (r: Lex)
        ensures
            r.wf(),
            r.reel() == (Reel { origin: origin@, toks: pieces(text@, 0), pos: 0 }),
    {
        Lex { toks: tokenize(text), pos: 0, origin: copy(origin) }
    }

    fn err(&self, msg: String) -> (e: Error)
        ensures
            e@ == self.reel().failure(msg@),
    {
        Error::Parse { path: copy(&self.origin), msg }
    }

    fn is_next(&self, w: &str) -> (r: bool)
        requires
            self.wf(),
        ensures
            r == self.reel().is_next(w@),
    {
        if self.pos < self.toks.len() {
            assert(texts(self.toks@)[self.pos as int] == self.toks[self.pos as int]@);
            same(&self.toks[self.pos], w)
        } else {
            false
        }
    }

    fn tok(&mut self) -> (r: Result<String, Error>)
        requires
            old(self).wf(),
        ensures
            final(self).wf(),
            match (r, old(self).reel().word()) {
                (Ok(w), Ok((v, e))) => w@ == v && final(self).reel() == old(self).reel().to(e),
                (Err(e), Err(f)) => e@ == f && final(self).reel() == old(self).reel(),
                _ => false,
            },
    {
        if self.pos >= self.toks.len() {
            return Err(self.err(copy("unexpected end of file")));
        }
        assert(texts(self.toks@)[self.pos as int] == self.toks[self.pos as int]@);
        let w = copy(&self.toks[self.pos]);
        self.pos = self.pos + 1;
        Ok(w)
    }

    fn expect_tok(&mut self, want: &str) -> (r: Result<(), Error>)
        requires
            old(self).wf(),
        ensures
            final(self).wf(),
            match (r, old(self).reel().given(want@)) {
                (Ok(_), Ok(e)) => final(self).reel() == old(self).reel().to(e),
                (Err(e), Err(f)) => e@ == f,
                _ => false,
            },
    {
        let t: String = match self.tok() {
            Ok(t) => t,
            Err(e) => {
                return Err(e);
            },
        };
        if !same(&t, want) {
            let m = wrong_word_message(want, &t);
            return Err(self.err(m));
        }
        Ok(())
    }

    fn integer(&mut self) -> (r: Result<i64, Error>)
        requires
            old(self).wf(),
        ensures
            final(self).wf(),
            match (r, old(self).reel().integer()) {
                (Ok(v), Ok((w, e))) => v == w && final(self).reel() == old(self).reel().to(e),
                (Err(e), Err(f)) => e@ == f,
                _ => false,
            },
    {
        let t: String = match self.tok() {
            Ok(t) => t,
            Err(e) => {
                return Err(e);
            },
        };
        match integer_of(&t) {
            Some(v) => Ok(v),
            None => {
                let m = no_integer_message(&t);
                Err(self.err(m))
            },
        }
    }

    fn number(&mut self) -> (r: Result<Scalar, Error>)
        requires
            old(self).wf(),
        ensures
            final(self).wf(),
            match (r, old(self).reel().number()) {
                (Ok(v), Ok((w, e))) => v == w && final(self).reel() == old(self).reel().to(e),
                (Err(e), Err(f)) => e@ == f,
                _ => false,
            },
    {
        let t: String = match self.tok() {
            Ok(t) => t,
            Err(e) => {
                return Err(e);
            },
        };
        let parts = chars_of(&t);
        match parse_chars(&parts) {
            Some(v) => Ok(v),
            None => {
                let m = no_number_message(&t);
                Err(self.err(m))
            },
        }
    }
}

// --------------------------------------------------------------------------
//  Lists
// --------------------------------------------------------------------------
/// Values in front of those that are read next.
pub open spec fn in_front<T>(v: Seq<T>, r: Take<Seq<T>>) -> Take<Seq<T>> {
    match r {
        Ok((w, e)) => Ok((v + w, e)),
        Err(f) => Err(f),
    }
}

proof fn lemma_in_front<T>(v: Seq<T>, x: T, r: Take<Seq<T>>)
    ensures
        in_front(v.push(x), r) == in_front(v, in_front(seq![x], r)),
        in_front(Seq::<T>::empty(), r) == r,
{
    match r {
        Ok((w, e)) => {
            assert(v.push(x) + w =~= v + (seq![x] + w));
            assert(Seq::<T>::empty() + w =~= w);
        },
        Err(_) => {},
    }
}

/// `n` values, one behind the other.
pub open spec fn many<T>(s: Reel, n: int, one: spec_fn(Reel) -> Take<T>) -> Take<Seq<T>>
    decreases n,
{
    if n <= 0 {
        Ok((Seq::empty(), s.pos))
    } else {
        match one(s) {
            Err(f) => Err(f),
            Ok((v, e)) => in_front(seq![v], many(s.to(e), n - 1, one)),
        }
    }
}

pub open spec fn integers() -> spec_fn(Reel) -> Take<i64> {
    |s: Reel| s.integer()
}

pub open spec fn numbers() -> spec_fn(Reel) -> Take<Scalar> {
    |s: Reel| s.number()
}

impl Lex {
    fn read_integers(&mut self, n: i64) -> (r: Result<Vec<i64>, Error>)
        requires
            old(self).wf(),
        ensures
            final(self).wf(),
            match (r, many(old(self).reel(), n as int, integers())) {
                (Ok(v), Ok((w, e))) => v@ == w && final(self).reel() == old(self).reel().to(e),
                (Err(e), Err(f)) => e@ == f,
                _ => false,
            },
    {
        let ghost s = self.reel();
        let ghost whole = many(s, n as int, integers());
        let mut v: Vec<i64> = Vec::new();
        let mut i: i64 = 0;
        proof {
            lemma_in_front::<i64>(Seq::empty(), arbitrary(), whole);
        }
        while i < n
            invariant
                0 <= i,
                i <= n || n < 0,
                self.wf(),
                s == old(self).reel(),
                self.reel() == s.to(self.reel().pos),
                whole == many(s, n as int, integers()),
                whole == in_front(v@, many(self.reel(), n - i, integers())),
            decreases n - i,
        {
            let ghost here = self.reel();
            let x: i64 = match self.integer() {
                Ok(x) => x,
                Err(e) => {
                    return Err(e);
                },
            };
            proof {
                lemma_in_front(v@, x, many(self.reel(), n - i - 1, integers()));
                assert(integers()(here) == here.integer());
            }
            v.push(x);
            i = i + 1;
        }
        assert(v@ + Seq::<i64>::empty() =~= v@);
        Ok(v)
    }
}

impl Lex {
    fn read_numbers(&mut self, n: i64) -> (r: Result<Vec<Scalar>, Error>)
        requires
            old(self).wf(),
        ensures
            final(self).wf(),
            match (r, many(old(self).reel(), n as int, numbers())) {
                (Ok(v), Ok((w, e))) => v@ == w && final(self).reel() == old(self).reel().to(e),
                (Err(e), Err(f)) => e@ == f,
                _ => false,
            },
    {
        let ghost s = self.reel();
        let ghost whole = many(s, n as int, numbers());
        let mut v: Vec<Scalar> = Vec::new();
        let mut i: i64 = 0;
        proof {
            lemma_in_front::<Scalar>(Seq::empty(), arbitrary(), whole);
        }
        while i < n
            invariant
                0 <= i,
                i <= n || n < 0,
                self.wf(),
                s == old(self).reel(),
                self.reel() == s.to(self.reel().pos),
                whole == many(s, n as int, numbers()),
                whole == in_front(v@, many(self.reel(), n - i, numbers())),
            decreases n - i,
        {
            let ghost here = self.reel();
            let x: Scalar = match self.number() {
                Ok(x) => x,
                Err(e) => {
                    return Err(e);
                },
            };
            proof {
                lemma_in_front(v@, x, many(self.reel(), n - i - 1, numbers()));
                assert(numbers()(here) == here.number());
            }
            v.push(x);
            i = i + 1;
        }
        assert(v@ + Seq::<Scalar>::empty() =~= v@);
        Ok(v)
    }
}

// --------------------------------------------------------------------------
//  Physical names
// --------------------------------------------------------------------------
/// The name of a physical group.
#[derive(Debug, Clone)]
struct PhysName {
    dim: i64,
    tag: i64,
    name: String,
}

/// The contents of a physical name.
pub struct Named {
    pub dim: i64,
    pub tag: i64,
    pub name: Seq<char>,
}

spec fn named_of(v: Seq<PhysName>) -> Seq<Named> {
    v.map_values(|p: PhysName| Named { dim: p.dim, tag: p.tag, name: p.name@ })
}

/// `dim tag "name"`
pub open spec fn name_line(s: Reel) -> Take<Named> {
    match s.integer() {
        Err(f) => Err(f),
        Ok((dim, a)) => match s.to(a).integer() {
            Err(f) => Err(f),
            Ok((tag, b)) => match s.to(b).word() {
                Err(f) => Err(f),
                Ok((name, c)) => Ok((Named { dim, tag, name }, c)),
            },
        },
    }
}

pub open spec fn name_lines() -> spec_fn(Reel) -> Take<Named> {
    |s: Reel| name_line(s)
}

/// The names, where there is a section of names.
pub open spec fn names_at(s: Reel) -> Take<Option<Seq<Named>>> {
    if !s.is_next("$PhysicalNames"@) {
        Ok((None, s.pos))
    } else {
        match s.to(s.pos + 1).integer() {
            Err(f) => Err(f),
            Ok((n, a)) => match many(s.to(a), n as int, name_lines()) {
                Err(f) => Err(f),
                Ok((v, b)) => match s.to(b).given("$EndPhysicalNames"@) {
                    Err(f) => Err(f),
                    Ok(e) => Ok((Some(v), e)),
                },
            },
        }
    }
}

/// The name of a group: the last one given to it.
pub open spec fn name_of(v: Seq<Named>, dim: i64, tag: i64) -> Option<Seq<char>>
    decreases v.len(),
{
    if v.len() == 0 {
        None
    } else if v.last().dim == dim && v.last().tag == tag {
        Some(v.last().name)
    } else {
        name_of(v.drop_last(), dim, tag)
    }
}

fn find_name(v: &Vec<PhysName>, dim: i64, tag: i64) -> (r: Option<String>)
    ensures
        match (r, name_of(named_of(v@), dim, tag)) {
            (Some(a), Some(b)) => a@ == b,
            (None, None) => true,
            _ => false,
        },
{
    let ghost nv = named_of(v@);
    let mut k: usize = v.len();
    assert(nv.take(k as int) =~= nv);
    while k > 0
        invariant
            k <= v.len(),
            nv == named_of(v@),
            name_of(nv, dim, tag) == name_of(nv.take(k as int), dim, tag),
        decreases k,
    {
        let ghost p = nv.take(k as int);
        assert(p.last() == nv[k - 1]);
        assert(p.drop_last() =~= nv.take(k - 1));
        if v[k - 1].dim == dim && v[k - 1].tag == tag {
            return Some(copy(&v[k - 1].name));
        }
        k = k - 1;
    }
    None
}

impl Lex {
    fn read_names(&mut self, n: i64) -> (r: Result<Vec<PhysName>, Error>)
        requires
            old(self).wf(),
        ensures
            final(self).wf(),
            match (r, many(old(self).reel(), n as int, name_lines())) {
                (Ok(v), Ok((w, e))) => named_of(v@) == w && final(self).reel()
                    == old(self).reel().to(e),
                (Err(e), Err(f)) => e@ == f,
                _ => false,
            },
    {
        let ghost s = self.reel();
        let ghost whole = many(s, n as int, name_lines());
        let mut v: Vec<PhysName> = Vec::new();
        let mut i: i64 = 0;
        proof {
            assert(named_of(v@) =~= Seq::empty());
            lemma_in_front::<Named>(Seq::empty(), arbitrary(), whole);
        }
        while i < n
            invariant
                0 <= i,
                i <= n || n < 0,
                self.wf(),
                s == old(self).reel(),
                self.reel() == s.to(self.reel().pos),
                whole == many(s, n as int, name_lines()),
                whole == in_front(named_of(v@), many(self.reel(), n - i, name_lines())),
            decreases n - i,
        {
            let ghost here = self.reel();
            assert(name_lines()(here) == name_line(here));
            let dim: i64 = match self.integer() {
                Ok(x) => x,
                Err(e) => {
                    return Err(e);
                },
            };
            let tag: i64 = match self.integer() {
                Ok(x) => x,
                Err(e) => {
                    return Err(e);
                },
            };
            let name: String = match self.tok() {
                Ok(x) => x,
                Err(e) => {
                    return Err(e);
                },
            };
            let x = PhysName { dim, tag, name };
            proof {
                let xv = Named { dim, tag, name: x.name@ };
                lemma_in_front(named_of(v@), xv, many(self.reel(), n - i - 1, name_lines()));
                assert(named_of(v@.push(x)) =~= named_of(v@).push(xv));
            }
            v.push(x);
            i = i + 1;
        }
        assert(named_of(v@) + Seq::<Named>::empty() =~= named_of(v@));
        Ok(v)
    }

    fn names_section(&mut self) -> (r: Result<Option<Vec<PhysName>>, Error>)
        requires
            old(self).wf(),
        ensures
            final(self).wf(),
            match (r, names_at(old(self).reel())) {
                (Ok(None), Ok((None, e))) => final(self).reel() == old(self).reel().to(e),
                (Ok(Some(v)), Ok((Some(w), e))) => named_of(v@) == w && final(self).reel()
                    == old(self).reel().to(e),
                (Err(e), Err(f)) => e@ == f,
                _ => false,
            },
    {
        if !self.is_next("$PhysicalNames") {
            assert(self.reel() == old(self).reel().to(self.reel().pos));
            return Ok(None);
        }
        self.pos = self.pos + 1;
        let n: i64 = match self.integer() {
            Ok(n) => n,
            Err(e) => {
                return Err(e);
            },
        };
        let v: Vec<PhysName> = match self.read_names(n) {
            Ok(v) => v,
            Err(e) => {
                return Err(e);
            },
        };
        match self.expect_tok("$EndPhysicalNames") {
            Ok(_) => Ok(Some(v)),
            Err(e) => Err(e),
        }
    }
}

// --------------------------------------------------------------------------
//  Entities
// --------------------------------------------------------------------------
/// A point entity: `tag x y z n tag*`; nothing in it is used.
pub open spec fn point_entity(s: Reel) -> Take<()> {
    match s.integer() {
        Err(f) => Err(f),
        Ok((_, a)) => match many(s.to(a), 3, numbers()) {
            Err(f) => Err(f),
            Ok((_, b)) => match s.to(b).integer() {
                Err(f) => Err(f),
                Ok((n, c)) => match many(s.to(c), n as int, integers()) {
                    Err(f) => Err(f),
                    Ok((_, e)) => Ok(((), e)),
                },
            },
        },
    }
}

/// A curve, a surface or a volume: its tag and its physical tags.
pub open spec fn box_entity(s: Reel) -> Take<(i64, Seq<i64>)> {
    match s.integer() {
        Err(f) => Err(f),
        Ok((tag, a)) => match many(s.to(a), 6, numbers()) {
            Err(f) => Err(f),
            Ok((_, b)) => match s.to(b).integer() {
                Err(f) => Err(f),
                Ok((n, c)) => match many(s.to(c), n as int, integers()) {
                    Err(f) => Err(f),
                    Ok((phys, d)) => match s.to(d).integer() {
                        Err(f) => Err(f),
                        Ok((k, g)) => match many(s.to(g), k as int, integers()) {
                            Err(f) => Err(f),
                            Ok((_, e)) => Ok(((tag, phys), e)),
                        },
                    },
                },
            },
        },
    }
}

/// Where `n` point entities end.
pub open spec fn past_points(s: Reel, n: int) -> Result<int, Failure>
    decreases n,
{
    if n <= 0 {
        Ok(s.pos)
    } else {
        match point_entity(s) {
            Err(f) => Err(f),
            Ok((_, e)) => past_points(s.to(e), n - 1),
        }
    }
}

/// Where `n` curves or volumes end.
pub open spec fn past_boxes(s: Reel, n: int) -> Result<int, Failure>
    decreases n,
{
    if n <= 0 {
        Ok(s.pos)
    } else {
        match box_entity(s) {
            Err(f) => Err(f),
            Ok((_, e)) => past_boxes(s.to(e), n - 1),
        }
    }
}

/// The first of some tags.
pub open spec fn first_tag(v: Seq<i64>) -> Option<i64> {
    if v.len() == 0 {
        None
    } else {
        Some(v[0])
    }
}

/// `n` surfaces: the first physical tag of each.
pub open spec fn surfaces_at(s: Reel, n: int, m: Map<i64, Option<i64>>) -> Take<
    Map<i64, Option<i64>>,
>
    decreases n,
{
    if n <= 0 {
        Ok((m, s.pos))
    } else {
        match box_entity(s) {
            Err(f) => Err(f),
            Ok(((tag, phys), e)) => surfaces_at(s.to(e), n - 1, m.insert(tag, first_tag(phys))),
        }
    }
}

/// The entities: the first physical tag of every surface.
pub open spec fn entities_at(s: Reel) -> Take<Map<i64, Option<i64>>> {
    match many(s, 4, integers()) {
        Err(f) => Err(f),
        Ok((n, a)) => match past_points(s.to(a), n[0] as int) {
            Err(f) => Err(f),
            Ok(b) => match past_boxes(s.to(b), n[1] as int) {
                Err(f) => Err(f),
                Ok(c) => match surfaces_at(s.to(c), n[2] as int, Map::empty()) {
                    Err(f) => Err(f),
                    Ok((m, d)) => match past_boxes(s.to(d), n[3] as int) {
                        Err(f) => Err(f),
                        Ok(e) => Ok((m, e)),
                    },
                },
            },
        },
    }
}

proof fn lemma_many_len<T>(s: Reel, n: int, one: spec_fn(Reel) -> Take<T>)
    requires
        0 <= n,
    ensures
        many(s, n, one) matches Ok((v, _)) ==> v.len() == n,
    decreases n,
{
    if n > 0 {
        match one(s) {
            Ok((v, e)) => {
                lemma_many_len(s.to(e), n - 1, one);
            },
            Err(_) => {},
        }
    }
}

impl Lex {
    fn skip_point(&mut self) -> (r: Result<(), Error>)
        requires
            old(self).wf(),
        ensures
            final(self).wf(),
            match (r, point_entity(old(self).reel())) {
                (Ok(_), Ok((_, e))) => final(self).reel() == old(self).reel().to(e),
                (Err(e), Err(f)) => e@ == f,
                _ => false,
            },
    {
        match self.integer() {
            Ok(_) => {},
            Err(e) => {
                return Err(e);
            },
        }
        match self.read_numbers(3) {
            Ok(_) => {},
            Err(e) => {
                return Err(e);
            },
        }
        let n: i64 = match self.integer() {
            Ok(n) => n,
            Err(e) => {
                return Err(e);
            },
        };
        match self.read_integers(n) {
            Ok(_) => Ok(()),
            Err(e) => Err(e),
        }
    }

    fn read_bbox_entity(&mut self) -> (r: Result<(i64, Vec<i64>), Error>)
        requires
            old(self).wf(),
        ensures
            final(self).wf(),
            match (r, box_entity(old(self).reel())) {
                (Ok((t, v)), Ok(((u, w), e))) => t == u && v@ == w && final(self).reel()
                    == old(self).reel().to(e),
                (Err(e), Err(f)) => e@ == f,
                _ => false,
            },
    {
        let tag: i64 = match self.integer() {
            Ok(t) => t,
            Err(e) => {
                return Err(e);
            },
        };
        match self.read_numbers(6) {
            Ok(_) => {},
            Err(e) => {
                return Err(e);
            },
        }
        let n: i64 = match self.integer() {
            Ok(n) => n,
            Err(e) => {
                return Err(e);
            },
        };
        let phys: Vec<i64> = match self.read_integers(n) {
            Ok(v) => v,
            Err(e) => {
                return Err(e);
            },
        };
        let k: i64 = match self.integer() {
            Ok(n) => n,
            Err(e) => {
                return Err(e);
            },
        };
        match self.read_integers(k) {
            Ok(_) => Ok((tag, phys)),
            Err(e) => Err(e),
        }
    }

    fn skip_points(&mut self, n: i64) -> (r: Result<(), Error>)
        requires
            old(self).wf(),
        ensures
            final(self).wf(),
            match (r, past_points(old(self).reel(), n as int)) {
                (Ok(_), Ok(e)) => final(self).reel() == old(self).reel().to(e),
                (Err(e), Err(f)) => e@ == f,
                _ => false,
            },
    {
        let ghost s = self.reel();
        let mut i: i64 = 0;
        while i < n
            invariant
                0 <= i,
                i <= n || n < 0,
                self.wf(),
                s == old(self).reel(),
                self.reel() == s.to(self.reel().pos),
                past_points(s, n as int) == past_points(self.reel(), n - i),
            decreases n - i,
        {
            match self.skip_point() {
                Ok(_) => {},
                Err(e) => {
                    return Err(e);
                },
            }
            i = i + 1;
        }
        Ok(())
    }

    fn skip_boxes(&mut self, n: i64) -> (r: Result<(), Error>)
        requires
            old(self).wf(),
        ensures
            final(self).wf(),
            match (r, past_boxes(old(self).reel(), n as int)) {
                (Ok(_), Ok(e)) => final(self).reel() == old(self).reel().to(e),
                (Err(e), Err(f)) => e@ == f,
                _ => false,
            },
    {
        let ghost s = self.reel();
        let mut i: i64 = 0;
        while i < n
            invariant
                0 <= i,
                i <= n || n < 0,
                self.wf(),
                s == old(self).reel(),
                self.reel() == s.to(self.reel().pos),
                past_boxes(s, n as int) == past_boxes(self.reel(), n - i),
            decreases n - i,
        {
            match self.read_bbox_entity() {
                Ok(_) => {},
                Err(e) => {
                    return Err(e);
                },
            }
            i = i + 1;
        }
        Ok(())
    }

    fn read_surfaces(&mut self, n: i64) -> (r: Result<HashMap<i64, Option<i64>>, Error>)
        requires
            old(self).wf(),
        ensures
            final(self).wf(),
            match (r, surfaces_at(old(self).reel(), n as int, Map::empty())) {
                (Ok(v), Ok((m, e))) => v@ == m && final(self).reel() == old(self).reel().to(e),
                (Err(e), Err(f)) => e@ == f,
                _ => false,
            },
    {
        broadcast use vstd::std_specs::hash::group_hash_axioms;

        let ghost s = self.reel();
        let mut m: HashMap<i64, Option<i64>> = HashMap::new();
        let mut i: i64 = 0;
        while i < n
            invariant
                0 <= i,
                i <= n || n < 0,
                self.wf(),
                s == old(self).reel(),
                self.reel() == s.to(self.reel().pos),
                surfaces_at(s, n as int, Map::empty()) == surfaces_at(self.reel(), n - i, m@),
            decreases n - i,
        {
            broadcast use vstd::std_specs::hash::group_hash_axioms;

            let (tag, phys) = match self.read_bbox_entity() {
                Ok(v) => v,
                Err(e) => {
                    return Err(e);
                },
            };
            let t: Option<i64> = if phys.len() > 0 {
                Some(phys[0])
            } else {
                None
            };
            m.insert(tag, t);
            i = i + 1;
        }
        Ok(m)
    }

    fn read_entities(&mut self) -> (r: Result<HashMap<i64, Option<i64>>, Error>)
        requires
            old(self).wf(),
        ensures
            final(self).wf(),
            match (r, entities_at(old(self).reel())) {
                (Ok(v), Ok((m, e))) => v@ == m && final(self).reel() == old(self).reel().to(e),
                (Err(e), Err(f)) => e@ == f,
                _ => false,
            },
    {
        proof {
            lemma_many_len(self.reel(), 4, integers());
        }
        let n: Vec<i64> = match self.read_integers(4) {
            Ok(n) => n,
            Err(e) => {
                return Err(e);
            },
        };
        match self.skip_points(n[0]) {
            Ok(_) => {},
            Err(e) => {
                return Err(e);
            },
        }
        match self.skip_boxes(n[1]) {
            Ok(_) => {},
            Err(e) => {
                return Err(e);
            },
        }
        let m: HashMap<i64, Option<i64>> = match self.read_surfaces(n[2]) {
            Ok(m) => m,
            Err(e) => {
                return Err(e);
            },
        };
        match self.skip_boxes(n[3]) {
            Ok(_) => Ok(m),
            Err(e) => Err(e),
        }
    }
}

// --------------------------------------------------------------------------
//  Nodes
// --------------------------------------------------------------------------
/// The points so far, and the number of each node tag.
pub struct Nodes {
    pub points: Seq<Vec3>,
    pub index: Map<i64, u32>,
}

pub open spec fn twice_tag_text(tag: int) -> Seq<char> {
    "node tag "@
        + signed_decimal(tag)
        + " appears more than once"@
}

pub(crate) fn twice_tag_message(tag: i64) -> (r: String)
    ensures
        r@ == twice_tag_text(tag as int),
{
    let mut s = copy("node tag ");
    push_signed(&mut s, tag);
    push_text(&mut s, " appears more than once");
    s
}

pub open spec fn node_total_text(want: int, got: nat) -> Seq<char> {
    "$Nodes declared "@
        + signed_decimal(want)
        + " nodes but the blocks contained "@
        + decimal(got)
}

pub(crate) fn node_total_message(want: i64, got: usize) -> (r: String)
    ensures
        r@ == node_total_text(want as int, got as nat),
{
    let mut s = copy("$Nodes declared ");
    push_signed(&mut s, want);
    push_text(&mut s, " nodes but the blocks contained ");
    push_decimal(&mut s, got as u64);
    s
}

/// The coordinates of a node, and its parametric ones behind them.
pub open spec fn node_line(s: Reel, tag: i64, extra: int, st: Nodes) -> Take<Nodes> {
    match many(s, 3, numbers()) {
        Err(f) => Err(f),
        Ok((c, a)) => match many(s.to(a), extra, numbers()) {
            Err(f) => Err(f),
            Ok((_, e)) => if st.index.contains_key(tag) {
                Err(s.failure(twice_tag_text(tag as int)))
            } else {
                Ok(
                    (
                        Nodes {
                            points: st.points.push(Vec3 { x: c[0], y: c[1], z: c[2] }),
                            index: st.index.insert(tag, st.points.len() as u32),
                        },
                        e,
                    ),
                )
            },
        },
    }
}

/// The nodes of the tags from `i` on.
pub open spec fn node_lines(s: Reel, tags: Seq<i64>, i: int, extra: int, st: Nodes) -> Take<Nodes>
    decreases tags.len() - i,
{
    if i < 0 || i >= tags.len() {
        Ok((st, s.pos))
    } else {
        match node_line(s, tags[i], extra, st) {
            Err(f) => Err(f),
            Ok((nx, e)) => node_lines(s.to(e), tags, i + 1, extra, nx),
        }
    }
}

/// A block of nodes: how many, their tags, and their coordinates.
pub open spec fn node_block(s: Reel, st: Nodes) -> Take<Nodes> {
    match many(s, 4, integers()) {
        Err(f) => Err(f),
        Ok((h, a)) => match many(s.to(a), h[3] as int, integers()) {
            Err(f) => Err(f),
            Ok((tags, b)) => node_lines(
                s.to(b),
                tags,
                0,
                if h[2] != 0 {
                    h[0] as int
                } else {
                    0
                },
                st,
            ),
        },
    }
}

pub open spec fn node_blocks(s: Reel, n: int, st: Nodes) -> Take<Nodes>
    decreases n,
{
    if n <= 0 {
        Ok((st, s.pos))
    } else {
        match node_block(s, st) {
            Err(f) => Err(f),
            Ok((nx, e)) => node_blocks(s.to(e), n - 1, nx),
        }
    }
}

/// All nodes: as many as declared, each tag once.
pub open spec fn nodes_at(s: Reel) -> Take<Nodes> {
    match many(s, 4, integers()) {
        Err(f) => Err(f),
        Ok((h, a)) => match node_blocks(
            s.to(a),
            h[0] as int,
            Nodes { points: Seq::empty(), index: Map::empty() },
        ) {
            Err(f) => Err(f),
            Ok((st, e)) => if st.points.len() != (if h[1] > 0 {
                h[1] as int
            } else {
                0
            }) {
                Err(s.failure(node_total_text(h[1] as int, st.points.len())))
            } else {
                Ok((st, e))
            },
        },
    }
}

/// The points so far, and the number of each node tag.
struct NodeList {
    points: Vec<Vec3>,
    index: HashMap<i64, u32>,
}

impl NodeList {
    spec fn nodes(&self) -> Nodes {
        Nodes { points: self.points@, index: self.index@ }
    }

    /// Every number is that of a point.
    spec fn wf(&self) -> bool {
        forall|t: i64| #[trigger] self.index@.contains_key(t) ==> self.index@[t] < self.points.len()
    }
}

/// Reading a number of words takes as many words.
proof fn lemma_many_end<T>(s: Reel, n: int, one: spec_fn(Reel) -> Take<T>)
    requires
        forall|r: Reel| #![trigger one(r)] one(r) matches Ok((_, e)) ==> e == r.pos + 1,
    ensures
        many(s, n, one) matches Ok((_, e)) ==> e == s.pos + (if n > 0 {
            n
        } else {
            0
        }),
    decreases n,
{
    if n > 0 {
        match one(s) {
            Ok((v, e)) => {
                lemma_many_end(s.to(e), n - 1, one);
            },
            Err(_) => {},
        }
    }
}

/// The most words that a file may have: a node takes four of them, and a point has
/// a 32-bit number.
pub const MOST_WORDS: u64 = 0x1_ffff_fffc;

impl Lex {
    fn read_node(&mut self, tag: i64, extra: i64, st: &mut NodeList) -> (r: Result<(), Error>)
        requires
            old(self).wf(),
            old(st).wf(),
            old(st).points.len() < 0x7fff_ffff,
        ensures
            final(self).wf(),
            match (r, node_line(old(self).reel(), tag, extra as int, old(st).nodes())) {
                (Ok(_), Ok((n, e))) => final(st).nodes() == n && final(st).wf()
                    && final(self).reel() == old(self).reel().to(e) && e >= old(self).reel().pos
                    + 3 && final(st).points.len() == old(st).points.len() + 1,
                (Err(e), Err(f)) => e@ == f,
                _ => false,
            },
    {
        broadcast use vstd::std_specs::hash::group_hash_axioms;

        proof {
            lemma_many_len(self.reel(), 3, numbers());
            lemma_many_end(self.reel(), 3, numbers());
        }
        let c: Vec<Scalar> = match self.read_numbers(3) {
            Ok(c) => c,
            Err(e) => {
                return Err(e);
            },
        };
        proof {
            lemma_many_end(self.reel(), extra as int, numbers());
        }
        match self.read_numbers(extra) {
            Ok(_) => {},
            Err(e) => {
                return Err(e);
            },
        }
        if st.index.contains_key(&tag) {
            let m = twice_tag_message(tag as i64);
            return Err(self.err(m));
        }
        let at: u32 = st.points.len() as u32;
        st.index.insert(tag, at);
        st.points.push(Vec3 { x: c[0], y: c[1], z: c[2] });
        Ok(())
    }

    fn read_node_lines(&mut self, tags: &Vec<i64>, extra: i64, st: &mut NodeList) -> (r: Result<
        (),
        Error,
    >)
        requires
            old(self).wf(),
            old(st).wf(),
            4 * old(st).points.len() + tags.len() <= old(self).reel().pos,
            old(self).reel().toks.len() <= MOST_WORDS,
        ensures
            final(self).wf(),
            match (
                r,
                node_lines(old(self).reel(), tags@, 0, extra as int, old(st).nodes()),
            ) {
                (Ok(_), Ok((n, e))) => final(st).nodes() == n && final(st).wf()
                    && final(self).reel() == old(self).reel().to(e) && 4 * final(st).points.len()
                    <= e,
                (Err(e), Err(f)) => e@ == f,
                _ => false,
            },
    {
        let ghost s = self.reel();
        let ghost st0 = st.nodes();
        let ghost before = st.points.len() as int;
        let mut i: usize = 0;
        while i < tags.len()
            invariant
                i <= tags.len(),
                self.wf(),
                st.wf(),
                s == old(self).reel(),
                st0 == old(st).nodes(),
                s.toks.len() <= MOST_WORDS,
                self.reel() == s.to(self.reel().pos),
                st.points.len() == before + i,
                4 * before + tags.len() + 3 * i <= self.reel().pos,
                node_lines(s, tags@, 0, extra as int, st0) == node_lines(
                    self.reel(),
                    tags@,
                    i as int,
                    extra as int,
                    st.nodes(),
                ),
            decreases tags.len() - i,
        {
            assert(self.reel().pos <= s.toks.len());
            match self.read_node(tags[i], extra, st) {
                Ok(_) => {},
                Err(e) => {
                    return Err(e);
                },
            }
            i = i + 1;
        }
        Ok(())
    }

    fn read_node_block(&mut self, st: &mut NodeList) -> (r: Result<(), Error>)
        requires
            old(self).wf(),
            old(st).wf(),
            4 * old(st).points.len() <= old(self).reel().pos,
            old(self).reel().toks.len() <= MOST_WORDS,
        ensures
            final(self).wf(),
            match (r, node_block(old(self).reel(), old(st).nodes())) {
                (Ok(_), Ok((n, e))) => final(st).nodes() == n && final(st).wf()
                    && final(self).reel() == old(self).reel().to(e) && 4 * final(st).points.len()
                    <= e,
                (Err(e), Err(f)) => e@ == f,
                _ => false,
            },
    {
        proof {
            lemma_many_len(self.reel(), 4, integers());
            lemma_many_end(self.reel(), 4, integers());
        }
        let h: Vec<i64> = match self.read_integers(4) {
            Ok(h) => h,
            Err(e) => {
                return Err(e);
            },
        };
        proof {
            lemma_many_end(self.reel(), h[3] as int, integers());
            if h[3] > 0 {
                lemma_many_len(self.reel(), h[3] as int, integers());
            }
        }
        let tags: Vec<i64> = match self.read_integers(h[3]) {
            Ok(t) => t,
            Err(e) => {
                return Err(e);
            },
        };
        let extra: i64 = if h[2] != 0 {
            h[0]
        } else {
            0
        };
        self.read_node_lines(&tags, extra, st)
    }

    fn read_node_blocks(&mut self, n: i64) -> (r: Result<NodeList, Error>)
        requires
            old(self).wf(),
            old(self).reel().toks.len() <= MOST_WORDS,
        ensures
            final(self).wf(),
            match (
                r,
                node_blocks(
                    old(self).reel(),
                    n as int,
                    (Nodes { points: Seq::empty(), index: Map::empty() }),
                ),
            ) {
                (Ok(l), Ok((m, e))) => l.nodes() == m && l.wf() && 4 * l.points.len() <= e
                    && final(self).reel() == old(self).reel().to(e),
                (Err(e), Err(f)) => e@ == f,
                _ => false,
            },
    {
        broadcast use vstd::std_specs::hash::group_hash_axioms;

        let ghost s = self.reel();
        let mut st = NodeList { points: Vec::new(), index: HashMap::new() };
        let ghost none = Nodes { points: Seq::<Vec3>::empty(), index: Map::<i64, u32>::empty() };
        assert(st.nodes().points =~= none.points);
        let mut i: i64 = 0;
        while i < n
            invariant
                0 <= i,
                i <= n || n < 0,
                self.wf(),
                st.wf(),
                s == old(self).reel(),
                s.toks.len() <= MOST_WORDS,
                self.reel() == s.to(self.reel().pos),
                4 * st.points.len() <= self.reel().pos,
                none == (Nodes { points: Seq::<Vec3>::empty(), index: Map::<i64, u32>::empty() }),
                node_blocks(s, n as int, none) == node_blocks(self.reel(), n - i, st.nodes()),
            decreases n - i,
        {
            match self.read_node_block(&mut st) {
                Ok(_) => {},
                Err(e) => {
                    return Err(e);
                },
            }
            i = i + 1;
        }
        Ok(st)
    }

    fn read_nodes(&mut self) -> (r: Result<NodeList, Error>)
        requires
            old(self).wf(),
            old(self).reel().toks.len() <= MOST_WORDS,
        ensures
            final(self).wf(),
            match (r, nodes_at(old(self).reel())) {
                (Ok(l), Ok((n, e))) => l.nodes() == n && l.wf() && l.points.len() <= 0x7fff_ffff
                    && final(self).reel() == old(self).reel().to(e),
                (Err(e), Err(f)) => e@ == f,
                _ => false,
            },
    {
        proof {
            lemma_many_len(self.reel(), 4, integers());
        }
        let h: Vec<i64> = match self.read_integers(4) {
            Ok(h) => h,
            Err(e) => {
                return Err(e);
            },
        };
        let st: NodeList = match self.read_node_blocks(h[0]) {
            Ok(st) => st,
            Err(e) => {
                return Err(e);
            },
        };
        let want: i64 = if h[1] > 0 {
            h[1]
        } else {
            0
        };
        if st.points.len() as u64 != want as u64 {
            let m = node_total_message(h[1], st.points.len());
            return Err(self.err(m));
        }
        Ok(st)
    }
}

// --------------------------------------------------------------------------
//  Elements
// --------------------------------------------------------------------------
/// The shapes of cells.
#[derive(Debug, Clone, Copy, PartialEq, Eq, Structural)]
pub enum CellKind {
    Tet,
    Hex,
    Prism,
    Pyramid,
}

impl CellKind {
    /// The faces of a cell by its vertices, each with its normal pointing outward.
    pub open spec fn face_table(self) -> Seq<Seq<usize>> {
        match self {
            CellKind::Tet => seq![
                seq![0usize, 2, 1],
                seq![0usize, 1, 3],
                seq![0usize, 3, 2],
                seq![1usize, 2, 3],
            ],
            CellKind::Hex => seq![
                seq![0usize, 3, 2, 1],
                seq![4usize, 5, 6, 7],
                seq![0usize, 1, 5, 4],
                seq![3usize, 7, 6, 2],
                seq![0usize, 4, 7, 3],
                seq![1usize, 2, 6, 5],
            ],
            CellKind::Prism => seq![
                seq![0usize, 2, 1],
                seq![3usize, 4, 5],
                seq![0usize, 1, 4, 3],
                seq![1usize, 2, 5, 4],
                seq![0usize, 3, 5, 2],
            ],
            CellKind::Pyramid => seq![
                seq![0usize, 3, 2, 1],
                seq![0usize, 1, 4],
                seq![1usize, 2, 4],
                seq![2usize, 3, 4],
                seq![3usize, 0, 4],
            ],
        }
    }

    /// The number of vertices.
    pub open spec fn corners(self) -> nat {
        match self {
            CellKind::Tet => 4,
            CellKind::Hex => 8,
            CellKind::Prism => 6,
            CellKind::Pyramid => 5,
        }
    }

    pub fn faces(self) -> (r: Vec<Vec<usize>>)
        ensures
            rows(r@) == self.face_table(),
    {
        let r = match self {
            CellKind::Tet => vec![vec![0, 2, 1], vec![0, 1, 3], vec![0, 3, 2], vec![1, 2, 3]],
            CellKind::Hex => vec![
                vec![0, 3, 2, 1],
                vec![4, 5, 6, 7],
                vec![0, 1, 5, 4],
                vec![3, 7, 6, 2],
                vec![0, 4, 7, 3],
                vec![1, 2, 6, 5],
            ],
            CellKind::Prism => vec![
                vec![0, 2, 1],
                vec![3, 4, 5],
                vec![0, 1, 4, 3],
                vec![1, 2, 5, 4],
                vec![0, 3, 5, 2],
            ],
            CellKind::Pyramid => vec![
                vec![0, 3, 2, 1],
                vec![0, 1, 4],
                vec![1, 2, 4],
                vec![2, 3, 4],
                vec![3, 0, 4],
            ],
        };
        assert(rows(r@) =~~= self.face_table());
        r
    }
}

/// What an element is, and how many nodes it has.
#[derive(Debug, Clone, Copy, PartialEq, Eq, Structural)]
pub enum ElemShape {
    Cell(CellKind, usize),
    Surface(usize),
    Ignored(usize),
}

/// The shape of an element type.
pub open spec fn shape_of(t: i64) -> Option<ElemShape> {
    if t == 1 {
        Some(ElemShape::Ignored(2))
    } else if t == 2 {
        Some(ElemShape::Surface(3))
    } else if t == 3 {
        Some(ElemShape::Surface(4))
    } else if t == 4 {
        Some(ElemShape::Cell(CellKind::Tet, 4))
    } else if t == 5 {
        Some(ElemShape::Cell(CellKind::Hex, 8))
    } else if t == 6 {
        Some(ElemShape::Cell(CellKind::Prism, 6))
    } else if t == 7 {
        Some(ElemShape::Cell(CellKind::Pyramid, 5))
    } else if t == 15 {
        Some(ElemShape::Ignored(1))
    } else {
        None
    }
}

pub fn elem_shape(t: i64) -> (r: Option<ElemShape>)
    ensures
        r == shape_of(t),
{
    match t {
        1 => Some(ElemShape::Ignored(2)),
        2 => Some(ElemShape::Surface(3)),
        3 => Some(ElemShape::Surface(4)),
        4 => Some(ElemShape::Cell(CellKind::Tet, 4)),
        5 => Some(ElemShape::Cell(CellKind::Hex, 8)),
        6 => Some(ElemShape::Cell(CellKind::Prism, 6)),
        7 => Some(ElemShape::Cell(CellKind::Pyramid, 5)),
        15 => Some(ElemShape::Ignored(1)),
        _ => None,
    }
}

impl ElemShape {
    pub open spec fn nodes(self) -> usize {
        match self {
            ElemShape::Cell(_, n) => n,
            ElemShape::Surface(n) => n,
            ElemShape::Ignored(n) => n,
        }
    }

    fn node_count(self) -> (r: usize)
        ensures
            r == self.nodes(),
    {
        match self {
            ElemShape::Cell(_, n) => n,
            ElemShape::Surface(n) => n,
            ElemShape::Ignored(n) => n,
        }
    }
}

// --------------------------------------------------------------------------
//  Faces by their vertices
// --------------------------------------------------------------------------
/// A value put where it belongs among ascending ones.
pub open spec fn with_vertex(s: Seq<u32>, v: u32) -> Seq<u32>
    decreases s.len(),
{
    if s.len() == 0 || s.last() <= v {
        s.push(v)
    } else {
        with_vertex(s.drop_last(), v).push(s.last())
    }
}

/// Vertices in ascending order.
pub open spec fn sorted(s: Seq<u32>) -> Seq<u32>
    decreases s.len(),
{
    if s.len() == 0 {
        s
    } else {
        with_vertex(sorted(s.drop_last()), s.last())
    }
}

/// One of four vertices, or the number that stands for none.
pub open spec fn vertex_or_none(s: Seq<u32>, i: int) -> int {
    if i < s.len() {
        s[i] as int
    } else {
        0xffff_ffff
    }
}

/// Three or four vertices as one number.
pub open spec fn packed(s: Seq<u32>) -> u128 {
    (((vertex_or_none(s, 0) * 0x1_0000_0000 + vertex_or_none(s, 1)) * 0x1_0000_0000
        + vertex_or_none(s, 2)) * 0x1_0000_0000 + vertex_or_none(s, 3)) as u128
}

/// What identifies a face: its vertices, in whatever order.
pub open spec fn face_key(s: Seq<u32>) -> u128 {
    packed(sorted(s))
}

/// No value above a later one.
pub open spec fn ascends(s: Seq<u32>) -> bool {
    forall|i: int, j: int| 0 <= i < j < s.len() ==> s[i] <= s[j]
}

proof fn lemma_with_vertex(s: Seq<u32>, v: u32)
    requires
        ascends(s),
    ensures
        ascends(with_vertex(s, v)),
        with_vertex(s, v).to_multiset() == s.to_multiset().insert(v),
        with_vertex(s, v).len() == s.len() + 1,
        forall|i: int|
            0 <= i < with_vertex(s, v).len() ==> s.contains(#[trigger] with_vertex(s, v)[i])
                || with_vertex(s, v)[i] == v,
    decreases s.len(),
{
    broadcast use vstd::seq_lib::group_to_multiset_ensures;

    let p = with_vertex(s, v);
    if s.len() == 0 || s.last() <= v {
        assert forall|i: int, j: int| 0 <= i < j < p.len() implies p[i] <= p[j] by {
            if j == s.len() && i < s.len() - 1 {
                assert(s[i] <= s[s.len() - 1]);
            }
        }
        assert forall|i: int| 0 <= i < p.len() implies s.contains(#[trigger] p[i]) || p[i] == v by {
            if i < s.len() {
                assert(s[i] == p[i]);
            }
        }
    } else {
        let d = s.drop_last();
        let q = with_vertex(d, v);
        lemma_with_vertex(d, v);
        assert(s =~= d.push(s.last()));
        assert forall|i: int| 0 <= i < p.len() implies s.contains(#[trigger] p[i]) || p[i] == v by {
            if i < q.len() {
                assert(p[i] == q[i]);
                if d.contains(q[i]) {
                    let k = choose|k: int| 0 <= k < d.len() && d[k] == q[i];
                    assert(s[k] == q[i]);
                }
            } else {
                assert(s[s.len() - 1] == p[i]);
            }
        }
        assert forall|i: int, j: int| 0 <= i < j < p.len() implies p[i] <= p[j] by {
            if j < q.len() {
                assert(p[i] == q[i] && p[j] == q[j]);
            } else {
                assert(p[i] == q[i]);
                if d.contains(q[i]) {
                    let k = choose|k: int| 0 <= k < d.len() && d[k] == q[i];
                    assert(s[k] <= s[s.len() - 1]);
                }
            }
        }
        assert(p.to_multiset() =~= s.to_multiset().insert(v));
    }
}

proof fn lemma_sorted(s: Seq<u32>)
    ensures
        ascends(sorted(s)),
        sorted(s).to_multiset() == s.to_multiset(),
        sorted(s).len() == s.len(),
    decreases s.len(),
{
    broadcast use vstd::seq_lib::group_to_multiset_ensures;

    if s.len() > 0 {
        let d = s.drop_last();
        lemma_sorted(d);
        lemma_with_vertex(sorted(d), s.last());
        assert(s =~= d.push(s.last()));
    }
}

/// Two faces have one key exactly where they have the same vertices.
pub proof fn faces_are_known_by_their_vertices(a: Seq<u32>, b: Seq<u32>)
    requires
        3 <= a.len() <= 4,
        3 <= b.len() <= 4,
        forall|i: int| 0 <= i < a.len() ==> #[trigger] a[i] < 0xffff_ffff,
        forall|i: int| 0 <= i < b.len() ==> #[trigger] b[i] < 0xffff_ffff,
    ensures
        face_key(a) == face_key(b) <==> a.to_multiset() == b.to_multiset(),
{
    broadcast use vstd::seq_lib::group_to_multiset_ensures;

    lemma_sorted(a);
    lemma_sorted(b);
    let x = sorted(a);
    let y = sorted(b);
    assert forall|i: int| 0 <= i < x.len() implies #[trigger] x[i] < 0xffff_ffff by {
        assert(x.contains(x[i]));
        assert(a.to_multiset().count(x[i]) > 0);
        assert(a.contains(x[i]));
    }
    assert forall|i: int| 0 <= i < y.len() implies #[trigger] y[i] < 0xffff_ffff by {
        assert(y.contains(y[i]));
        assert(b.to_multiset().count(y[i]) > 0);
        assert(b.contains(y[i]));
    }
    if face_key(a) == face_key(b) {
        let p = vertex_or_none(x, 3);
        let q = vertex_or_none(y, 3);
        assert(p == q);
        assert(vertex_or_none(x, 2) == vertex_or_none(y, 2));
        assert(vertex_or_none(x, 1) == vertex_or_none(y, 1));
        assert(vertex_or_none(x, 0) == vertex_or_none(y, 0));
        if x.len() == 4 {
            assert(x[3] < 0xffff_ffff);
        }
        if y.len() == 4 {
            assert(y[3] < 0xffff_ffff);
        }
        assert(x.len() == y.len());
        assert(x =~= y);
    }
    if a.to_multiset() == b.to_multiset() {
        let leq = |i: u32, j: u32| i <= j;
        assert(vstd::relations::sorted_by(x, leq));
        assert(vstd::relations::sorted_by(y, leq));
        assert(vstd::relations::total_ordering(leq));
        vstd::seq_lib::lemma_sorted_unique(x, y, leq);
    }
}

fn sort_vertices(s: &Vec<u32>) -> (r: Vec<u32>)
    ensures
        r@ == sorted(s@),
{
    let mut out: Vec<u32> = Vec::new();
    let mut i: usize = 0;
    assert(s@.take(0) =~= Seq::empty());
    while i < s.len()
        invariant
            i <= s.len(),
            out@ == sorted(s@.take(i as int)),
        decreases s.len() - i,
    {
        let v: u32 = s[i];
        let ghost before = out@;
        let mut at: usize = out.len();
        assert(before.take(at as int) =~= before);
        assert(with_vertex(before.take(at as int), v) + before.skip(at as int) =~= with_vertex(
            before,
            v,
        ));
        while at > 0 && out[at - 1] > v
            invariant
                at <= out.len(),
                out@ == before,
                with_vertex(before, v) == with_vertex(before.take(at as int), v) + before.skip(
                    at as int,
                ),
            decreases at,
        {
            at = at - 1;
            proof {
                let p = before.take(at + 1);
                assert(p.last() == before[at as int]);
                assert(p.drop_last() =~= before.take(at as int));
                assert(with_vertex(before.take(at as int), v).push(p.last()) + before.skip(at + 1)
                    =~= with_vertex(before.take(at as int), v) + before.skip(at as int));
            }
        }
        out.insert(at, v);
        proof {
            if at > 0 {
                assert(before.take(at as int).last() == before[at - 1]);
            }
            assert(before.take(at as int).push(v) + before.skip(at as int) =~= before.insert(
                at as int,
                v,
            ));
            let more = s@.take(i + 1);
            assert(more.drop_last() =~= s@.take(i as int));
            assert(more.last() == v);
        }
        i = i + 1;
    }
    assert(s@.take(i as int) =~= s@);
    out
}

fn pick(s: &Vec<u32>, i: usize) -> (r: u128)
    ensures
        r == vertex_or_none(s@, i as int),
        r <= 0xffff_ffff,
{
    if i < s.len() {
        s[i] as u128
    } else {
        0xffff_ffff
    }
}

fn key_of(s: &Vec<u32>) -> (r: u128)
    ensures
        r == face_key(s@),
{
    let k = sort_vertices(s);
    let a: u128 = pick(&k, 0);
    let b: u128 = pick(&k, 1);
    let c: u128 = pick(&k, 2);
    let d: u128 = pick(&k, 3);
    ((a * 0x1_0000_0000 + b) * 0x1_0000_0000 + c) * 0x1_0000_0000 + d
}

spec fn text_of(t: Option<String>) -> Option<Seq<char>> {
    match t {
        Some(t) => Some(t@),
        None => None,
    }
}

/// A cell by its vertices.
struct Cell {
    kind: CellKind,
    verts: Vec<u32>,
}

/// The contents of a cell.
pub struct Solid {
    pub kind: CellKind,
    pub verts: Seq<u32>,
}

spec fn solids(v: Seq<Cell>) -> Seq<Solid> {
    v.map_values(|c: Cell| Solid { kind: c.kind, verts: c.verts@ })
}

/// The cells so far, and the patches of the faces that were named.
pub struct Parts {
    pub cells: Seq<Solid>,
    pub names: Map<u128, Seq<char>>,
}

pub open spec fn lost_node_text(tag: int) -> Seq<char> {
    "element references node tag "@
        + signed_decimal(tag)
        + ", which $Nodes never defined"@
}

pub(crate) fn lost_node_message(tag: i64) -> (r: String)
    ensures
        r@ == lost_node_text(tag as int),
{
    let mut s = copy("element references node tag ");
    push_signed(&mut s, tag);
    push_text(&mut s, ", which $Nodes never defined");
    s
}

pub open spec fn bad_element_text(t: int) -> Seq<char> {
    "unsupported Gmsh element type "@
        + signed_decimal(t)
        + " (ofgpu reads point/line/triangle/quadrangle/tetrahedron/hexahedron/prism/pyramid, types 1,2,3,4,5,6,7,15 - not a higher-order element)"@
}

pub(crate) fn bad_element_message(t: i64) -> (r: String)
    ensures
        r@ == bad_element_text(t as int),
{
    let mut s = copy("unsupported Gmsh element type ");
    push_signed(&mut s, t);
    push_text(&mut s, " (ofgpu reads point/line/triangle/quadrangle/tetrahedron/hexahedron/prism/pyramid, types 1,2,3,4,5,6,7,15 - not a higher-order element)");
    s
}

/// `n` node tags, as points.
pub open spec fn vertices_at(s: Reel, n: int, index: Map<i64, u32>) -> Take<Seq<u32>>
    decreases n,
{
    if n <= 0 {
        Ok((Seq::empty(), s.pos))
    } else {
        match s.integer() {
            Err(f) => Err(f),
            Ok((t, e)) => if !index.contains_key(t) {
                Err(s.failure(lost_node_text(t as int)))
            } else {
                in_front(seq![index[t]], vertices_at(s.to(e), n - 1, index))
            },
        }
    }
}

/// One element more: a cell, or a name for a face that has none yet.
pub open spec fn with_element(
    st: Parts,
    shape: ElemShape,
    patch: Option<Seq<char>>,
    v: Seq<u32>,
) -> Parts {
    match shape {
        ElemShape::Cell(kind, _) => Parts { cells: st.cells.push(Solid { kind, verts: v }), ..st },
        ElemShape::Surface(_) => match patch {
            Some(name) => if st.names.contains_key(face_key(v)) {
                st
            } else {
                Parts { names: st.names.insert(face_key(v), name), ..st }
            },
            None => st,
        },
        ElemShape::Ignored(_) => st,
    }
}

/// `n` elements of one shape.
pub open spec fn elements_of(
    s: Reel,
    n: int,
    shape: ElemShape,
    patch: Option<Seq<char>>,
    index: Map<i64, u32>,
    st: Parts,
) -> Take<Parts>
    decreases n,
{
    if n <= 0 {
        Ok((st, s.pos))
    } else {
        match s.integer() {
            Err(f) => Err(f),
            Ok((_, a)) => match vertices_at(s.to(a), shape.nodes() as int, index) {
                Err(f) => Err(f),
                Ok((v, e)) => elements_of(
                    s.to(e),
                    n - 1,
                    shape,
                    patch,
                    index,
                    with_element(st, shape, patch, v),
                ),
            },
        }
    }
}

/// The patch that the elements of a surface name.
pub open spec fn patch_name(
    shape: ElemShape,
    dim: i64,
    entity: i64,
    surfaces: Map<i64, Option<i64>>,
    names: Seq<Named>,
) -> Option<Seq<char>> {
    if shape is Surface && surfaces.contains_key(entity) {
        match surfaces[entity] {
            Some(tag) => name_of(names, dim, tag),
            None => None,
        }
    } else {
        None
    }
}

/// What elements refer to.
pub struct Around {
    pub index: Map<i64, u32>,
    pub surfaces: Map<i64, Option<i64>>,
    pub names: Seq<Named>,
}

/// A block of elements; with it, how many it declares.
pub open spec fn element_block(s: Reel, w: Around, st: Parts) -> Take<(Parts, int)> {
    match many(s, 4, integers()) {
        Err(f) => Err(f),
        Ok((h, a)) => match shape_of(h[2]) {
            None => Err(s.failure(bad_element_text(h[2] as int))),
            Some(shape) => match elements_of(
                s.to(a),
                h[3] as int,
                shape,
                patch_name(shape, h[0], h[1], w.surfaces, w.names),
                w.index,
                st,
            ) {
                Err(f) => Err(f),
                Ok((nx, e)) => Ok(((nx, h[3] as int), e)),
            },
        },
    }
}

pub open spec fn element_blocks(s: Reel, n: int, w: Around, st: Parts, count: int) -> Take<
    (Parts, int),
>
    decreases n,
{
    if n <= 0 {
        Ok(((st, count), s.pos))
    } else {
        match element_block(s, w, st) {
            Err(f) => Err(f),
            Ok(((nx, k), e)) => element_blocks(s.to(e), n - 1, w, nx, count + k),
        }
    }
}

/// What is said where the elements are not as many as declared.
pub open spec fn element_total_text(want: int, got: int) -> Seq<char> {
    "$Elements declared "@ + signed_decimal(want) + " elements but the blocks contained "@
        + signed_decimal(got)
}

pub open spec fn no_parts() -> Parts {
    Parts { cells: Seq::empty(), names: Map::empty() }
}

/// All elements, as many as declared.
pub open spec fn elements_at(s: Reel, w: Around) -> Take<Parts> {
    match many(s, 4, integers()) {
        Err(f) => Err(f),
        Ok((h, a)) => match element_blocks(s.to(a), h[0] as int, w, no_parts(), 0) {
            Err(f) => Err(f),
            Ok(((st, count), e)) => if count != h[1] {
                Err(s.failure(element_total_text(h[1] as int, count)))
            } else {
                Ok((st, e))
            },
        },
    }
}

/// The cells so far, and the patches of the faces that were named.
struct PartList {
    cells: Vec<Cell>,
    names: HashMap<u128, String>,
}

/// A cell has the vertices of its kind, and they are points.
pub open spec fn well_made(c: Solid, points: int) -> bool {
    c.verts.len() == c.kind.corners() && forall|i: int|
        0 <= i < c.verts.len() ==> #[trigger] c.verts[i] < points
}

impl PartList {
    spec fn parts(&self) -> Parts {
        Parts { cells: solids(self.cells@), names: self.names@.map_values(|t: String| t@) }
    }

    spec fn wf(&self, points: int) -> bool {
        forall|i: int|
            0 <= i < self.cells.len() ==> well_made(#[trigger] solids(self.cells@)[i], points)
    }
}

/// What elements refer to.
struct Lookup {
    nodes: NodeList,
    surfaces: HashMap<i64, Option<i64>>,
    names: Vec<PhysName>,
}

impl Lookup {
    spec fn around(&self) -> Around {
        Around {
            index: self.nodes.index@,
            surfaces: self.surfaces@,
            names: named_of(self.names@),
        }
    }
}

impl Lex {
    fn read_vertices(&mut self, n: usize, nodes: &NodeList) -> (r: Result<Vec<u32>, Error>)
        requires
            old(self).wf(),
            nodes.wf(),
        ensures
            final(self).wf(),
            match (r, vertices_at(old(self).reel(), n as int, nodes.index@)) {
                (Ok(v), Ok((w, e))) => v@ == w && v.len() == n && final(self).reel()
                    == old(self).reel().to(e) && e == old(self).reel().pos + n && forall|i: int|
                    0 <= i < v.len() ==> #[trigger] v[i] < nodes.points.len(),
                (Err(e), Err(f)) => e@ == f,
                _ => false,
            },
    {
        broadcast use vstd::std_specs::hash::group_hash_axioms;

        let ghost s = self.reel();
        let ghost index = nodes.index@;
        let ghost whole = vertices_at(s, n as int, index);
        let mut v: Vec<u32> = Vec::new();
        let mut i: usize = 0;
        proof {
            lemma_in_front::<u32>(Seq::empty(), arbitrary(), whole);
        }
        while i < n
            invariant
                i <= n,
                self.wf(),
                nodes.wf(),
                s == old(self).reel(),
                index == nodes.index@,
                self.reel() == s.to(self.reel().pos),
                self.reel().pos == s.pos + i,
                whole == vertices_at(s, n as int, index),
                whole == in_front(v@, vertices_at(self.reel(), n - i, index)),
                v.len() == i,
                forall|k: int| 0 <= k < v.len() ==> #[trigger] v[k] < nodes.points.len(),
            decreases n - i,
        {
            broadcast use vstd::std_specs::hash::group_hash_axioms;

            let t: i64 = match self.integer() {
                Ok(t) => t,
                Err(e) => {
                    return Err(e);
                },
            };
            let x: u32 = match nodes.index.get(&t) {
                Some(x) => *x,
                None => {
                    let m = lost_node_message(t);
                    return Err(self.err(m));
                },
            };
            proof {
                lemma_in_front(v@, x, vertices_at(self.reel(), n - i - 1, index));
            }
            v.push(x);
            i = i + 1;
        }
        assert(v@ + Seq::<u32>::empty() =~= v@);
        Ok(v)
    }

    fn add_element(
        st: &mut PartList,
        shape: ElemShape,
        patch: &Option<String>,
        v: Vec<u32>,
        Ghost(points): Ghost<int>,
    )
        requires
            old(st).wf(points),
            v.len() == shape.nodes(),
            shape matches ElemShape::Cell(k, n) ==> n == k.corners(),
            forall|i: int| 0 <= i < v.len() ==> #[trigger] v[i] < points,
        ensures
            final(st).wf(points),
            final(st).parts() == with_element(
                old(st).parts(),
                shape,
                text_of(*patch),
                v@,
            ),
            final(st).cells.len() <= old(st).cells.len() + 1,
            shape !is Cell ==> final(st).cells.len() == old(st).cells.len(),
    {
        broadcast use vstd::std_specs::hash::group_hash_axioms;

        match shape {
            ElemShape::Cell(kind, _) => {
                let c = Cell { kind, verts: v };
                let ghost cv = Solid { kind, verts: c.verts@ };
                let ghost was = solids(st.cells@);
                assert(solids(st.cells@.push(c)) =~= was.push(cv));
                st.cells.push(c);
                assert forall|i: int| 0 <= i < st.cells.len() implies well_made(
                    #[trigger] solids(st.cells@)[i],
                    points,
                ) by {
                    if i < was.len() {
                        assert(solids(st.cells@)[i] == was[i]);
                    }
                }
            },
            ElemShape::Surface(_) => {
                match patch {
                    Some(name) => {
                        let k: u128 = key_of(&v);
                        if !st.names.contains_key(&k) {
                            let t = copy(name);
                            let ghost was = st.names@;
                            st.names.insert(k, t);
                            assert(was.insert(k, t).map_values(|t: String| t@) =~= was.map_values(
                                |t: String| t@,
                            ).insert(k, name@));
                        }
                    },
                    None => {},
                }
            },
            ElemShape::Ignored(_) => {},
        }
    }

    fn read_elements_of(
        &mut self,
        n: i64,
        shape: ElemShape,
        patch: &Option<String>,
        nodes: &NodeList,
        st: &mut PartList,
    ) -> (r: Result<(), Error>)
        requires
            old(self).wf(),
            nodes.wf(),
            old(st).wf(nodes.points.len() as int),
            shape matches ElemShape::Cell(k, m) ==> m == k.corners(),
            5 * old(st).cells.len() <= old(self).reel().pos,
        ensures
            final(self).wf(),
            match (
                r,
                elements_of(
                    old(self).reel(),
                    n as int,
                    shape,
                    text_of(*patch),
                    nodes.index@,
                    old(st).parts(),
                ),
            ) {
                (Ok(_), Ok((q, e))) => final(st).parts() == q && final(st).wf(
                    nodes.points.len() as int,
                ) && final(self).reel() == old(self).reel().to(e) && 5 * final(st).cells.len() <= e
                    && e >= old(self).reel().pos,
                (Err(e), Err(f)) => e@ == f,
                _ => false,
            },
    {
        let ghost s = self.reel();
        let ghost pv = text_of(*patch);
        let ghost whole = elements_of(s, n as int, shape, pv, nodes.index@, st.parts());
        let mut i: i64 = 0;
        while i < n
            invariant
                0 <= i,
                i <= n || n < 0,
                self.wf(),
                nodes.wf(),
                st.wf(nodes.points.len() as int),
                shape matches ElemShape::Cell(k, m) ==> m == k.corners(),
                s == old(self).reel(),
                pv == text_of(*patch),
                self.reel() == s.to(self.reel().pos),
                self.reel().pos >= s.pos,
                5 * st.cells.len() <= self.reel().pos,
                whole == elements_of(s, n as int, shape, pv, nodes.index@, old(st).parts()),
                whole == elements_of(self.reel(), n - i, shape, pv, nodes.index@, st.parts()),
            decreases n - i,
        {
            match self.integer() {
                Ok(_) => {},
                Err(e) => {
                    return Err(e);
                },
            }
            let v: Vec<u32> = match self.read_vertices(shape.node_count(), nodes) {
                Ok(v) => v,
                Err(e) => {
                    return Err(e);
                },
            };
            Self::add_element(st, shape, patch, v, Ghost(nodes.points.len() as int));
            i = i + 1;
        }
        Ok(())
    }

    fn read_element_block(&mut self, look: &Lookup, st: &mut PartList) -> (r: Result<i64, Error>)
        requires
            old(self).wf(),
            look.nodes.wf(),
            old(st).wf(look.nodes.points.len() as int),
            5 * old(st).cells.len() <= old(self).reel().pos,
        ensures
            final(self).wf(),
            match (r, element_block(old(self).reel(), look.around(), old(st).parts())) {
                (Ok(k), Ok(((q, c), e))) => k == c && final(st).parts() == q && final(st).wf(
                    look.nodes.points.len() as int,
                ) && final(self).reel() == old(self).reel().to(e) && 5 * final(st).cells.len() <= e
                    && e >= old(self).reel().pos + 4,
                (Err(e), Err(f)) => e@ == f,
                _ => false,
            },
    {
        broadcast use vstd::std_specs::hash::group_hash_axioms;

        proof {
            lemma_many_len(self.reel(), 4, integers());
            lemma_many_end(self.reel(), 4, integers());
        }
        let h: Vec<i64> = match self.read_integers(4) {
            Ok(h) => h,
            Err(e) => {
                return Err(e);
            },
        };
        let shape: ElemShape = match elem_shape(h[2]) {
            Some(x) => x,
            None => {
                let m = bad_element_message(h[2]);
                return Err(self.err(m));
            },
        };
        let is_surface: bool = match shape {
            ElemShape::Surface(_) => true,
            _ => false,
        };
        let mut patch: Option<String> = None;
        if is_surface {
            match look.surfaces.get(&h[1]) {
                Some(Some(tag)) => {
                    patch = find_name(&look.names, h[0], *tag);
                },
                _ => {},
            }
        }
        match self.read_elements_of(h[3], shape, &patch, &look.nodes, st) {
            Ok(_) => Ok(h[3]),
            Err(e) => Err(e),
        }
    }

    fn read_element_blocks(&mut self, n: i64, look: &Lookup) -> (r: Result<
        (PartList, i128),
        Error,
    >)
        requires
            old(self).wf(),
            old(self).reel().toks.len() <= MOST_WORDS,
            look.nodes.wf(),
        ensures
            final(self).wf(),
            match (r, element_blocks(old(self).reel(), n as int, look.around(), no_parts(), 0)) {
                (Ok((l, k)), Ok(((q, c), e))) => k == c && k > i128::MIN && l.parts() == q && l.wf(
                    look.nodes.points.len() as int,
                ) && final(self).reel() == old(self).reel().to(e) && 5 * l.cells.len() <= e,
                (Err(e), Err(f)) => e@ == f,
                _ => false,
            },
    {
        broadcast use vstd::std_specs::hash::group_hash_axioms;

        let ghost s = self.reel();
        let mut st = PartList { cells: Vec::new(), names: HashMap::new() };
        let mut count: i128 = 0;
        proof {
            assert(st.parts().cells =~= no_parts().cells);
            assert(st.parts().names =~= no_parts().names);
        }
        let mut i: i64 = 0;
        while i < n
            invariant
                0 <= i,
                i <= n || n < 0,
                self.wf(),
                look.nodes.wf(),
                st.wf(look.nodes.points.len() as int),
                s == old(self).reel(),
                s.toks.len() <= MOST_WORDS,
                self.reel() == s.to(self.reel().pos),
                5 * st.cells.len() <= self.reel().pos,
                -(self.reel().pos * 0x8000_0000_0000_0000) <= count <= self.reel().pos
                    * 0x8000_0000_0000_0000,
                element_blocks(s, n as int, look.around(), no_parts(), 0) == element_blocks(
                    self.reel(),
                    n - i,
                    look.around(),
                    st.parts(),
                    count as int,
                ),
            decreases n - i,
        {
            assert(self.reel().pos <= MOST_WORDS);
            let k: i64 = match self.read_element_block(look, &mut st) {
                Ok(k) => k,
                Err(e) => {
                    return Err(e);
                },
            };
            count = count + k as i128;
            i = i + 1;
        }
        Ok((st, count))
    }

    fn read_elements(&mut self, look: &Lookup) -> (r: Result<PartList, Error>)
        requires
            old(self).wf(),
            old(self).reel().toks.len() <= MOST_WORDS,
            look.nodes.wf(),
        ensures
            final(self).wf(),
            match (r, elements_at(old(self).reel(), look.around())) {
                (Ok(l), Ok((q, e))) => l.parts() == q && l.wf(look.nodes.points.len() as int)
                    && final(self).reel() == old(self).reel().to(e) && 5 * l.cells.len() <= e,
                (Err(e), Err(f)) => e@ == f,
                _ => false,
            },
    {
        proof {
            lemma_many_len(self.reel(), 4, integers());
        }
        let h: Vec<i64> = match self.read_integers(4) {
            Ok(h) => h,
            Err(e) => {
                return Err(e);
            },
        };
        let (st, count) = match self.read_element_blocks(h[0], look) {
            Ok(v) => v,
            Err(e) => {
                return Err(e);
            },
        };
        if count != h[1] as i128 {
            let mut m = copy("$Elements declared ");
            push_signed(&mut m, h[1]);
            push_text(&mut m, " elements but the blocks contained ");
            push_wide(&mut m, count);
            return Err(self.err(m));
        }
        Ok(st)
    }
}

// --------------------------------------------------------------------------
//  From cells to faces
// --------------------------------------------------------------------------
/// A face as one cell has it, with its normal pointing out of the cell.
pub struct Occurrence {
    pub cell: int,
    pub verts: Seq<u32>,
}

/// Some of the vertices of a cell.
pub open spec fn chosen(v: Seq<u32>, at: Seq<usize>) -> Seq<u32> {
    at.map_values(|i: usize| v[i as int])
}

/// The first `k` faces of cell `c`.
pub open spec fn cell_faces(cells: Seq<Solid>, c: int, k: int) -> Seq<Occurrence>
    decreases k,
{
    if k <= 0 {
        Seq::empty()
    } else {
        cell_faces(cells, c, k - 1).push(
            Occurrence {
                cell: c,
                verts: chosen(cells[c].verts, cells[c].kind.face_table()[k - 1]),
            },
        )
    }
}

/// The faces of the first `n` cells, cell by cell.
pub open spec fn all_faces(cells: Seq<Solid>, n: int) -> Seq<Occurrence>
    decreases n,
{
    if n <= 0 {
        Seq::empty()
    } else {
        all_faces(cells, n - 1) + cell_faces(
            cells,
            n - 1,
            cells[n - 1].kind.face_table().len() as int,
        )
    }
}

/// A face, the cell that has it first, and the cell that has it next.
pub struct Rec {
    pub verts: Seq<u32>,
    pub owner: int,
    pub neighbour: Option<int>,
}

/// Faces in the order in which they come, and where each is.
pub struct Recs {
    pub list: Seq<Rec>,
    pub index: Map<u128, usize>,
}

/// A list of numbers as it is written.
pub open spec fn listed(v: Seq<u32>) -> Seq<char> {
    "["@ + join(v.map_values(|x: u32| decimal(x as nat)), ", "@) + "]"@
}

pub open spec fn three_cells_text(key: Seq<char>) -> Seq<char> {
    "face with vertices "@
        + key
        + " is shared by more than two cells; the mesh is not a valid volume mesh"@
}

pub(crate) fn three_cells_message(key: &str) -> (r: String)
    ensures
        r@ == three_cells_text(key@),
{
    let mut s = copy("face with vertices ");
    push_text(&mut s, key);
    push_text(&mut s, " is shared by more than two cells; the mesh is not a valid volume mesh");
    s
}

/// One occurrence more.
pub open spec fn noted(r: Recs, f: Occurrence) -> Result<Recs, Seq<char>> {
    let key = face_key(f.verts);
    if !r.index.contains_key(key) {
        Ok(
            Recs {
                list: r.list.push(Rec { verts: f.verts, owner: f.cell, neighbour: None }),
                index: r.index.insert(key, r.list.len() as usize),
            },
        )
    } else {
        let at = r.index[key] as int;
        if r.list[at].neighbour is Some {
            Err(three_cells_text(listed(sorted(f.verts))))
        } else {
            Ok(
                Recs {
                    list: r.list.update(at, Rec { neighbour: Some(f.cell), ..r.list[at] }),
                    index: r.index,
                },
            )
        }
    }
}

/// The faces that the first `k` occurrences are of.
pub open spec fn recorded(f: Seq<Occurrence>, k: int) -> Result<Recs, Seq<char>>
    decreases k,
{
    if k <= 0 {
        Ok(Recs { list: Seq::empty(), index: Map::empty() })
    } else {
        match recorded(f, k - 1) {
            Err(m) => Err(m),
            Ok(r) => noted(r, f[k - 1]),
        }
    }
}

/// The faces of all cells.
pub open spec fn faces_found(cells: Seq<Solid>) -> Result<Seq<Rec>, Seq<char>> {
    let f = all_faces(cells, cells.len() as int);
    match recorded(f, f.len() as int) {
        Err(m) => Err(m),
        Ok(r) => Ok(r.list),
    }
}

/// The internal faces among the first `n`, or the boundary faces.
pub open spec fn some_of(r: Seq<Rec>, n: int, inner: bool) -> Seq<Rec>
    decreases n,
{
    if n <= 0 {
        Seq::empty()
    } else if (r[n - 1].neighbour is Some) == inner {
        some_of(r, n - 1, inner).push(r[n - 1])
    } else {
        some_of(r, n - 1, inner)
    }
}

/// An internal face that is to stand behind another.
pub open spec fn behind(a: Rec, b: Rec) -> bool {
    a.owner > b.owner || (a.owner == b.owner && a.neighbour->Some_0 > b.neighbour->Some_0)
}

pub open spec fn with_face(s: Seq<Rec>, f: Rec) -> Seq<Rec>
    decreases s.len(),
{
    if s.len() == 0 || !behind(s.last(), f) {
        s.push(f)
    } else {
        with_face(s.drop_last(), f).push(s.last())
    }
}

/// Internal faces by owner, then by neighbour; equals stay as they are.
pub open spec fn by_cells(s: Seq<Rec>) -> Seq<Rec>
    decreases s.len(),
{
    if s.len() == 0 {
        s
    } else {
        with_face(by_cells(s.drop_last()), s.last())
    }
}

/// The patch of a boundary face.
pub open spec fn face_patch(r: Rec, names: Map<u128, Seq<char>>) -> Seq<char> {
    if names.contains_key(face_key(r.verts)) {
        names[face_key(r.verts)]
    } else {
        "defaultFaces"@
    }
}

/// The patches of boundary faces.
pub open spec fn face_patches(b: Seq<Rec>, names: Map<u128, Seq<char>>) -> Seq<Seq<char>> {
    b.map_values(|r: Rec| face_patch(r, names))
}

/// The names among the first `n`, each once, in the order in which they come.
pub open spec fn each_once(v: Seq<Seq<char>>, n: int) -> Seq<Seq<char>>
    decreases n,
{
    if n <= 0 {
        Seq::empty()
    } else if each_once(v, n - 1).contains(v[n - 1]) {
        each_once(v, n - 1)
    } else {
        each_once(v, n - 1).push(v[n - 1])
    }
}

/// The number of the patch of every boundary face.
pub open spec fn patch_numbers(v: Seq<Seq<char>>, order: Seq<Seq<char>>) -> Seq<usize> {
    v.map_values(|n: Seq<char>| order.index_of(n) as usize)
}

pub open spec fn labels_of(v: Seq<u32>) -> Seq<Label> {
    v.map_values(|x: u32| x as Label)
}

/// The mesh of some cells.
pub open spec fn mesh_of(
    points: Seq<Vec3>,
    recs: Seq<Rec>,
    names: Map<u128, Seq<char>>,
) -> RawMesh {
    let inner = by_cells(some_of(recs, recs.len() as int, true));
    let outer = some_of(recs, recs.len() as int, false);
    let patch = face_patches(outer, names);
    let order = each_once(patch, patch.len() as int);
    let groups = all_buckets(patch_numbers(patch, order), order.len());
    let placed = flat(groups, groups.len() as int);
    RawMesh {
        points,
        faces: inner.map_values(|r: Rec| labels_of(r.verts)) + placed.map_values(
            |i: usize| labels_of(outer[i as int].verts),
        ),
        owner: inner.map_values(|r: Rec| r.owner as Label) + placed.map_values(
            |i: usize| outer[i as int].owner as Label,
        ),
        neighbour: inner.map_values(|r: Rec| r.neighbour->Some_0 as Label),
        patches: Seq::new(
            order.len(),
            |k: int|
                Patch {
                    name: order[k],
                    patch_type: "patch"@,
                    kind: PatchKind::Generic,
                    start: flat(groups, k).len() as int,
                    size: groups[k].len() as int,
                    nbr_patch: None,
                },
        ),
    }
}

/// What is said of a file without cells.
pub open spec fn no_cells_text() -> Seq<char> {
    "the MSH file has no tetrahedron/hexahedron/prism/pyramid elements; there is no volume mesh to build"@
}

/// The mesh of some cells, or why there is none.
pub open spec fn built(points: Seq<Vec3>, p: Parts) -> Result<RawMesh, Failure> {
    if p.cells.len() == 0 {
        Err(Failure::Mesh(no_cells_text()))
    } else {
        match faces_found(p.cells) {
            Err(m) => Err(Failure::Mesh(m)),
            Ok(recs) => Ok(mesh_of(points, recs, p.names)),
        }
    }
}

/// How many of the first `n` faces are on the boundary and in no patch that the file
/// names.
pub open spec fn uncovered(recs: Seq<Rec>, names: Map<u128, Seq<char>>, n: int) -> nat
    decreases n,
{
    if n <= 0 {
        0
    } else {
        uncovered(recs, names, n - 1) + (if recs[n - 1].neighbour is None && !names.contains_key(
            face_key(recs[n - 1].verts),
        ) {
            1nat
        } else {
            0
        })
    }
}

/// What is said of faces that no physical surface covers.
pub open spec fn uncovered_text(n: nat) -> Seq<char> {
    decimal(n)
        + " boundary face(s) were not covered by any physical surface; assigned to patch 'defaultFaces'"@
}

/// What is said of a mesh.
pub open spec fn built_notices(p: Parts) -> Seq<Seq<char>> {
    match faces_found(p.cells) {
        Err(_) => Seq::empty(),
        Ok(recs) => {
            let k = uncovered(recs, p.names, recs.len() as int);
            if p.cells.len() > 0 && k > 0 {
                seq![uncovered_text(k)]
            } else {
                Seq::empty()
            }
        },
    }
}

/// A face, the cell that has it first, and the cell that has it next.
struct FaceRec {
    verts: Vec<u32>,
    owner: usize,
    neighbour: Option<usize>,
}

impl FaceRec {
    spec fn rec(&self) -> Rec {
        Rec {
            verts: self.verts@,
            owner: self.owner as int,
            neighbour: match self.neighbour {
                Some(n) => Some(n as int),
                None => None,
            },
        }
    }
}

spec fn recs_of(v: Seq<FaceRec>) -> Seq<Rec> {
    v.map_values(|r: FaceRec| r.rec())
}

/// Faces in the order in which they come, and where each is.
struct FaceList {
    list: Vec<FaceRec>,
    index: HashMap<u128, usize>,
}

impl FaceList {
    spec fn recs(&self) -> Recs {
        Recs { list: recs_of(self.list@), index: self.index@ }
    }

    spec fn wf(&self) -> bool {
        forall|k: u128|
            #[trigger] self.index@.contains_key(k) ==> self.index@[k] < self.list.len()
    }

    fn note(&mut self, cell: usize, verts: Vec<u32>) -> (r: Result<(), String>)
        requires
            old(self).wf(),
        ensures
            match (
                r,
                noted(old(self).recs(), (Occurrence { cell: cell as int, verts: verts@ })),
            ) {
                (Ok(_), Ok(n)) => final(self).recs() == n && final(self).wf(),
                (Err(m), Err(n)) => m@ == n,
                _ => false,
            },
    {
        broadcast use vstd::std_specs::hash::group_hash_axioms;

        let key: u128 = key_of(&verts);
        let found: Option<usize> = match self.index.get(&key) {
            Some(i) => Some(*i),
            None => None,
        };
        match found {
            None => {
                let at: usize = self.list.len();
                let ghost was = self.list@;
                let f = FaceRec { verts, owner: cell, neighbour: None };
                self.index.insert(key, at);
                self.list.push(f);
                assert(recs_of(self.list@) =~= recs_of(was).push(f.rec()));
                Ok(())
            },
            Some(at) => {
                if self.list[at].neighbour.is_some() {
                    let k = sort_vertices(&verts);
                    let t = list_text(&k);
                    return Err(three_cells_message(&t));
                }
                let ghost was = self.list@;
                let f = FaceRec {
                    verts: crate::mesh::copy_list(&self.list[at].verts),
                    owner: self.list[at].owner,
                    neighbour: Some(cell),
                };
                self.list.set(at, f);
                assert(recs_of(self.list@) =~= recs_of(was).update(at as int, f.rec()));
                Ok(())
            },
        }
    }
}

/// A list of numbers as it is written.
fn list_text(v: &Vec<u32>) -> (r: String)
    ensures
        r@ == listed(v@),
{
    let mut parts: Vec<String> = Vec::new();
    let ghost want = v@.map_values(|x: u32| decimal(x as nat));
    let mut i: usize = 0;
    while i < v.len()
        invariant
            i <= v.len(),
            want == v@.map_values(|x: u32| decimal(x as nat)),
            texts(parts@) == want.take(i as int),
        decreases v.len() - i,
    {
        let mut t = String::new();
        push_decimal(&mut t, v[i] as u64);
        proof {
            assert(t@ =~= decimal(v[i as int] as nat));
            lemma_texts_push(parts@, t);
        }
        parts.push(t);
        i = i + 1;
        assert(texts(parts@) =~= want.take(i as int));
    }
    assert(texts(parts@) =~= want);
    assert(texts(parts@).skip(0) =~= want);
    let mut s = copy("[");
    let all = crate::text::join_from(&parts, 0, ", ");
    push_text(&mut s, &all);
    push_text(&mut s, "]");
    s
}

proof fn lemma_recorded_err(f: Seq<Occurrence>, k: int, n: int)
    requires
        0 <= k <= n,
        recorded(f, k) is Err,
    ensures
        recorded(f, n) == recorded(f, k),
    decreases n - k,
{
    if k < n {
        lemma_recorded_err(f, k, n - 1);
    }
}

proof fn lemma_all_faces(cells: Seq<Solid>, c: int, n: int)
    requires
        0 <= c < n <= cells.len(),
    ensures
        all_faces(cells, c).len() + cells[c].kind.face_table().len() <= all_faces(cells, n).len(),
        forall|k: int|
            #![trigger all_faces(cells, n)[all_faces(cells, c).len() + k]]
            0 <= k < cells[c].kind.face_table().len() ==> all_faces(cells, n)[all_faces(
                cells,
                c,
            ).len() + k] == (Occurrence {
                cell: c,
                verts: chosen(cells[c].verts, cells[c].kind.face_table()[k]),
            }),
    decreases n,
{
    let t = cells[c].kind.face_table().len() as int;
    lemma_cell_faces(cells, c, t);
    if c < n - 1 {
        lemma_all_faces(cells, c, n - 1);
        lemma_cell_faces(cells, n - 1, cells[n - 1].kind.face_table().len() as int);
        assert forall|k: int|
            #![trigger all_faces(cells, n)[all_faces(cells, c).len() + k]]
            0 <= k < t implies all_faces(cells, n)[all_faces(cells, c).len() + k] == (Occurrence {
            cell: c,
            verts: chosen(cells[c].verts, cells[c].kind.face_table()[k]),
        }) by {
            assert(all_faces(cells, n - 1)[all_faces(cells, c).len() + k] == (Occurrence {
                cell: c,
                verts: chosen(cells[c].verts, cells[c].kind.face_table()[k]),
            }));
        }
    }
}

pub(crate) proof fn lemma_cell_faces(cells: Seq<Solid>, c: int, k: int)
    requires
        0 <= k,
    ensures
        cell_faces(cells, c, k).len() == k,
        forall|i: int|
            0 <= i < k ==> #[trigger] cell_faces(cells, c, k)[i] == (Occurrence {
                cell: c,
                verts: chosen(cells[c].verts, cells[c].kind.face_table()[i]),
            }),
    decreases k,
{
    if k > 0 {
        lemma_cell_faces(cells, c, k - 1);
    }
}

/// The faces of a cell name its own vertices.
proof fn lemma_table_in_range(k: CellKind)
    ensures
        forall|f: int, i: int|
            0 <= f < k.face_table().len() && 0 <= i < k.face_table()[f].len()
                ==> #[trigger] k.face_table()[f][i] < k.corners(),
        4 <= k.face_table().len() <= 6,
{
}

/// Find the faces of all cells.
fn find_faces(cells: &Vec<Cell>, Ghost(points): Ghost<int>) -> (r: Result<Vec<FaceRec>, String>)
    requires
        forall|i: int| 0 <= i < cells.len() ==> well_made(#[trigger] solids(cells@)[i], points),
    ensures
        match (r, faces_found(solids(cells@))) {
            (Ok(v), Ok(w)) => recs_of(v@) == w,
            (Err(m), Err(n)) => m@ == n,
            _ => false,
        },
{
    broadcast use vstd::std_specs::hash::group_hash_axioms;

    let ghost cv = solids(cells@);
    let ghost all = all_faces(cv, cv.len() as int);
    let mut l = FaceList { list: Vec::new(), index: HashMap::new() };
    assert(recs_of(l.list@) =~= Seq::empty());
    let mut c: usize = 0;
    while c < cells.len()
        invariant
            c <= cells.len(),
            cv == solids(cells@),
            all == all_faces(cv, cv.len() as int),
            forall|i: int| 0 <= i < cells.len() ==> well_made(#[trigger] cv[i], points),
            l.wf(),
            recorded(all, all_faces(cv, c as int).len() as int) == Ok::<Recs, Seq<char>>(l.recs()),
            all_faces(cv, c as int).len() <= all.len(),
        decreases cells.len() - c,
    {
        let kind: CellKind = cells[c].kind;
        let table = kind.faces();
        let ghost base = all_faces(cv, c as int).len() as int;
        proof {
            assert(cv[c as int] == (Solid { kind, verts: cells[c as int].verts@ }));
            assert(well_made(cv[c as int], points));
            lemma_table_in_range(kind);
            lemma_all_faces(cv, c as int, cv.len() as int);
            assert(table.len() == kind.face_table().len());
        }
        let mut k: usize = 0;
        while k < table.len()
            invariant
                c < cells.len(),
                k <= table.len(),
                cv == solids(cells@),
                cv[c as int] == (Solid { kind, verts: cells[c as int].verts@ }),
                well_made(cv[c as int], points),
                all == all_faces(cv, cv.len() as int),
                rows(table@) == kind.face_table(),
                base == all_faces(cv, c as int).len(),
                base + table.len() <= all.len(),
                forall|k: int|
                    #![trigger all[base + k]]
                    0 <= k < table.len() ==> all[base + k] == (Occurrence {
                        cell: c as int,
                        verts: chosen(cv[c as int].verts, kind.face_table()[k]),
                    }),
                l.wf(),
                recorded(all, base + k) == Ok::<Recs, Seq<char>>(l.recs()),
            decreases table.len() - k,
        {
            let at = &table[k];
            assert(rows(table@)[k as int] == at@);
            proof {
                lemma_table_in_range(kind);
            }
            let mut verts: Vec<u32> = Vec::new();
            let mut i: usize = 0;
            while i < at.len()
                invariant
                    c < cells.len(),
                    i <= at.len(),
                    at@ == kind.face_table()[k as int],
                    k < kind.face_table().len(),
                    cells[c as int].verts.len() == kind.corners(),
                    forall|f: int, i: int|
                        0 <= f < kind.face_table().len() && 0 <= i < kind.face_table()[f].len()
                            ==> #[trigger] kind.face_table()[f][i] < kind.corners(),
                    verts@ == chosen(cells[c as int].verts@, at@.take(i as int)),
                decreases at.len() - i,
            {
                let j: usize = at[i];
                assert(kind.face_table()[k as int][i as int] < kind.corners());
                verts.push(cells[c].verts[j]);
                i = i + 1;
                assert(verts@ =~= chosen(cells[c as int].verts@, at@.take(i as int)));
            }
            assert(at@.take(i as int) =~= at@);
            proof {
                let o = all[base + k];
                assert(o.verts == verts@);
            }
            match l.note(c, verts) {
                Ok(_) => {},
                Err(m) => {
                    proof {
                        assert(recorded(all, base + k + 1) is Err);
                        lemma_recorded_err(all, base + k + 1, all.len() as int);
                    }
                    return Err(m);
                },
            }
            k = k + 1;
        }
        proof {
            assert(all_faces(cv, c + 1).len() == base + table.len()) by {
                lemma_cell_faces(cv, c as int, kind.face_table().len() as int);
            }
        }
        c = c + 1;
    }
    Ok(l.list)
}

/// The faces of some numbers.
spec fn taken(r: Seq<Rec>, at: Seq<usize>) -> Seq<Rec> {
    at.map_values(|i: usize| r[i as int])
}

/// The internal faces in order, and the boundary faces.
fn part_faces(recs: &Vec<FaceRec>) -> (r: (Vec<usize>, Vec<usize>))
    ensures
        taken(recs_of(recs@), r.0@) == by_cells(
            some_of(recs_of(recs@), recs.len() as int, true),
        ),
        taken(recs_of(recs@), r.1@) == some_of(recs_of(recs@), recs.len() as int, false),
        forall|i: int| 0 <= i < r.0.len() ==> #[trigger] r.0[i] < recs.len(),
        forall|i: int|
            0 <= i < r.0.len() ==> recs_of(recs@)[#[trigger] r.0[i] as int].neighbour is Some,
        forall|i: int| 0 <= i < r.1.len() ==> #[trigger] r.1[i] < recs.len(),
{
    let ghost rv = recs_of(recs@);
    let mut ins: Vec<usize> = Vec::new();
    let mut outs: Vec<usize> = Vec::new();
    assert(taken(rv, ins@) =~= Seq::empty());
    assert(taken(rv, outs@) =~= Seq::empty());
    let mut k: usize = 0;
    while k < recs.len()
        invariant
            k <= recs.len(),
            rv == recs_of(recs@),
            taken(rv, ins@) == by_cells(some_of(rv, k as int, true)),
            taken(rv, outs@) == some_of(rv, k as int, false),
            forall|i: int| 0 <= i < ins.len() ==> #[trigger] ins[i] < recs.len(),
            forall|i: int| 0 <= i < ins.len() ==> rv[#[trigger] ins[i] as int].neighbour is Some,
            forall|i: int| 0 <= i < outs.len() ==> #[trigger] outs[i] < recs.len(),
        decreases recs.len() - k,
    {
        assert(rv[k as int] == recs[k as int].rec());
        match recs[k].neighbour {
            None => {
                let ghost was = outs@;
                outs.push(k);
                assert(taken(rv, outs@) =~= taken(rv, was).push(rv[k as int]));
            },
            Some(nb) => {
                let own: usize = recs[k].owner;
                let ghost f = rv[k as int];
                let ghost before = ins@;
                let ghost old_list = taken(rv, before);
                let mut at: usize = ins.len();
                assert(old_list.take(at as int) =~= old_list);
                assert(with_face(old_list.take(at as int), f) + old_list.skip(at as int)
                    =~= with_face(old_list, f));
                while at > 0 && later_face(recs, ins[at - 1], own, nb)
                    invariant
                        at <= ins.len(),
                        ins@ == before,
                        rv == recs_of(recs@),
                        old_list == taken(rv, before),
                        f.owner == own,
                        f.neighbour == Some(nb as int),
                        forall|i: int| 0 <= i < ins.len() ==> #[trigger] ins[i] < recs.len(),
                        forall|i: int|
                            0 <= i < ins.len() ==> rv[#[trigger] ins[i] as int].neighbour is Some,
                        with_face(old_list, f) == with_face(old_list.take(at as int), f)
                            + old_list.skip(at as int),
                    decreases at,
                {
                    at = at - 1;
                    proof {
                        let p = old_list.take(at + 1);
                        assert(p.last() == old_list[at as int]);
                        assert(p.drop_last() =~= old_list.take(at as int));
                        assert(with_face(old_list.take(at as int), f).push(p.last())
                            + old_list.skip(at + 1) =~= with_face(old_list.take(at as int), f)
                            + old_list.skip(at as int));
                    }
                }
                ins.insert(at, k);
                proof {
                    if at > 0 {
                        assert(old_list.take(at as int).last() == old_list[at - 1]);
                        assert(old_list[at - 1] == rv[before[at - 1] as int]);
                    }
                    assert(ins@ =~= before.insert(at as int, k));
                    assert(taken(rv, ins@) =~= old_list.take(at as int).push(f) + old_list.skip(
                        at as int,
                    ));
                    let more = some_of(rv, k + 1, true);
                    assert(more.drop_last() =~= some_of(rv, k as int, true));
                    assert(more.last() == f);
                    assert forall|i: int| 0 <= i < ins.len() implies #[trigger] ins[i] < recs.len()
                        && rv[ins[i] as int].neighbour is Some by {
                        if i < at {
                            assert(ins[i] == before[i]);
                        } else if i > at {
                            assert(ins[i] == before[i - 1]);
                        }
                    }
                }
            },
        }
        k = k + 1;
    }
    (ins, outs)
}

/// Does an internal face belong behind one between two given cells?
fn later_face(recs: &Vec<FaceRec>, i: usize, own: usize, nb: usize) -> (r: bool)
    requires
        i < recs.len(),
        recs[i as int].neighbour is Some,
    ensures
        r == (recs[i as int].owner > own || (recs[i as int].owner == own
            && recs[i as int].neighbour->Some_0 > nb)),
{
    match recs[i].neighbour {
        Some(n) => recs[i].owner > own || (recs[i].owner == own && n > nb),
        None => false,
    }
}

fn find_text(v: &Vec<String>, w: &str) -> (r: Option<usize>)
    ensures
        match r {
            Some(i) => i < v.len() && v[i as int]@ == w@,
            None => !texts(v@).contains(w@),
        },
{
    let mut i: usize = 0;
    while i < v.len()
        invariant
            i <= v.len(),
            forall|k: int| 0 <= k < i ==> (#[trigger] v[k])@ != w@,
        decreases v.len() - i,
    {
        if same(&v[i], w) {
            return Some(i);
        }
        i = i + 1;
    }
    assert(!texts(v@).contains(w@)) by {
        if texts(v@).contains(w@) {
            let k = choose|k: int| 0 <= k < texts(v@).len() && texts(v@)[k] == w@;
            assert(v[k]@ == w@);
        }
    }
    None
}

/// The patches of the boundary faces in order, and the patch of each.
fn name_faces(recs: &Vec<FaceRec>, outs: &Vec<usize>, names: &HashMap<u128, String>) -> (r: (
    Vec<String>,
    Vec<usize>,
))
    requires
        forall|i: int| 0 <= i < outs.len() ==> #[trigger] outs[i] < recs.len(),
    ensures
        ({
            let patch = face_patches(
                taken(recs_of(recs@), outs@),
                names@.map_values(|t: String| t@),
            );
            let order = each_once(patch, patch.len() as int);
            &&& texts(r.0@) == order
            &&& r.1@ == patch_numbers(patch, order)
            &&& forall|i: int| 0 <= i < r.1.len() ==> #[trigger] r.1[i] < r.0.len()
        }),
{
    broadcast use vstd::std_specs::hash::group_hash_axioms;

    let ghost rv = recs_of(recs@);
    let ghost nv = names@.map_values(|t: String| t@);
    let ghost patch = face_patches(taken(rv, outs@), nv);
    let mut order: Vec<String> = Vec::new();
    let mut keys: Vec<usize> = Vec::new();
    let mut i: usize = 0;
    assert(texts(order@) =~= Seq::empty());
    while i < outs.len()
        invariant
            i <= outs.len(),
            rv == recs_of(recs@),
            nv == names@.map_values(|t: String| t@),
            patch == face_patches(taken(rv, outs@), nv),
            forall|k: int| 0 <= k < outs.len() ==> #[trigger] outs[k] < recs.len(),
            texts(order@) == each_once(patch, i as int),
            texts(order@).no_duplicates(),
            keys.len() == i,
            forall|k: int|
                0 <= k < i ==> #[trigger] keys[k] < order.len() && order[keys[k] as int]@
                    == patch[k],
        decreases outs.len() - i,
    {
        broadcast use vstd::std_specs::hash::group_hash_axioms;

        let f = &recs[outs[i]];
        let key: u128 = key_of(&f.verts);
        let name: String = match names.get(&key) {
            Some(t) => copy(t),
            None => copy("defaultFaces"),
        };
        proof {
            assert(rv[outs[i as int] as int] == f.rec());
            assert(patch[i as int] == face_patch(f.rec(), nv));
            assert(name@ == patch[i as int]);
        }
        match find_text(&order, &name) {
            Some(k) => {
                assert(texts(order@)[k as int] == name@);
                assert(texts(order@).contains(name@));
                keys.push(k);
            },
            None => {
                let ghost was = texts(order@);
                let k: usize = order.len();
                proof {
                    lemma_texts_push(order@, name);
                }
                order.push(name);
                keys.push(k);
                proof {
                    let now = texts(order@);
                    assert forall|a: int, b: int|
                        0 <= a < now.len() && 0 <= b < now.len() && a != b implies now[a]
                        != now[b] by {
                        if a == was.len() {
                            assert(was.contains(was[b]));
                        } else if b == was.len() {
                            assert(was.contains(was[a]));
                        }
                    }
                }
            },
        }
        i = i + 1;
    }
    proof {
        let ord = each_once(patch, patch.len() as int);
        assert(texts(order@) == ord);
        assert forall|k: int| 0 <= k < keys.len() implies #[trigger] keys[k] == patch_numbers(
            patch,
            ord,
        )[k] by {
            assert(ord[keys[k] as int] == order[keys[k] as int]@);
            assert(ord.contains(patch[k]));
            let j = ord.index_of(patch[k]);
            assert(0 <= j < ord.len() && ord[j] == patch[k]);
        }
        assert(keys@ =~= patch_numbers(patch, ord));
    }
    (order, keys)
}

fn labels(v: &Vec<u32>) -> (r: Vec<Label>)
    ensures
        r@ == labels_of(v@),
{
    let mut out: Vec<Label> = Vec::new();
    let mut i: usize = 0;
    while i < v.len()
        invariant
            i <= v.len(),
            out@ == labels_of(v@.take(i as int)),
        decreases v.len() - i,
    {
        out.push(v[i] as Label);
        i = i + 1;
        assert(out@ =~= labels_of(v@.take(i as int)));
    }
    assert(v@.take(i as int) =~= v@);
    out
}

/// Faces and owners so far.
struct Draft {
    faces: Vec<Vec<Label>>,
    owner: Vec<Label>,
}

impl Draft {
    spec fn holds(&self, r: Seq<Rec>) -> bool {
        &&& faces_of(self.faces@) == r.map_values(|f: Rec| labels_of(f.verts))
        &&& self.owner@ == r.map_values(|f: Rec| f.owner as Label)
    }

    fn add(&mut self, f: &FaceRec, Ghost(done): Ghost<Seq<Rec>>)
        requires
            old(self).holds(done),
        ensures
            final(self).holds(done.push(f.rec())),
    {
        let ghost was = *self;
        let l = labels(&f.verts);
        self.faces.push(l);
        self.owner.push(f.owner as Label);
        proof {
            let more = done.push(f.rec());
            assert(faces_of(self.faces@) =~= faces_of(was.faces@).push(l@));
            assert(faces_of(was.faces@).len() == done.len());
            assert forall|i: int| 0 <= i < more.len() implies #[trigger] faces_of(self.faces@)[i]
                == labels_of(more[i].verts) by {
                if i < done.len() {
                    assert(faces_of(was.faces@)[i] == labels_of(done[i].verts));
                }
            }
            assert(faces_of(self.faces@) =~= more.map_values(|f: Rec| labels_of(f.verts)));
            assert(self.owner@ =~= more.map_values(|f: Rec| f.owner as Label));
        }
    }
}

/// The mesh of some faces.
fn assemble(points: Vec<Vec3>, recs: &Vec<FaceRec>, names: &HashMap<u128, String>) -> (r:
    PolyMeshRaw)
    ensures
        r@ == mesh_of(points@, recs_of(recs@), names@.map_values(|t: String| t@)),
{
    let ghost rv = recs_of(recs@);
    let ghost nv = names@.map_values(|t: String| t@);
    let (ins, outs) = part_faces(recs);
    let ghost inner = taken(rv, ins@);
    let ghost outer = taken(rv, outs@);
    let (order, keys) = name_faces(recs, &outs, names);
    let n: usize = order.len();
    let groups = buckets(&keys, n);
    let ghost gv = rows(groups@);
    let ghost placed = flat(gv, gv.len() as int);
    let mut d = Draft { faces: Vec::new(), owner: Vec::new() };
    let mut neighbour: Vec<Label> = Vec::new();
    let mut i: usize = 0;
    proof {
        assert(faces_of(d.faces@) =~= Seq::<Rec>::empty().map_values(
            |f: Rec| labels_of(f.verts),
        ));
        assert(d.owner@ =~= Seq::<Rec>::empty().map_values(|f: Rec| f.owner as Label));
        assert(inner.take(0) =~= Seq::empty());
    }
    while i < ins.len()
        invariant
            i <= ins.len(),
            rv == recs_of(recs@),
            inner == taken(rv, ins@),
            forall|k: int| 0 <= k < ins.len() ==> #[trigger] ins[k] < recs.len(),
            forall|k: int| 0 <= k < ins.len() ==> rv[#[trigger] ins[k] as int].neighbour is Some,
            d.holds(inner.take(i as int)),
            neighbour@ == inner.take(i as int).map_values(|f: Rec| f.neighbour->Some_0 as Label),
        decreases ins.len() - i,
    {
        let f = &recs[ins[i]];
        assert(rv[ins[i as int] as int] == f.rec());
        assert(inner.take(i + 1) =~= inner.take(i as int).push(f.rec()));
        d.add(f, Ghost(inner.take(i as int)));
        let nb: usize = match f.neighbour {
            Some(x) => x,
            None => 0,
        };
        neighbour.push(nb as Label);
        i = i + 1;
        assert(neighbour@ =~= inner.take(i as int).map_values(
            |f: Rec| f.neighbour->Some_0 as Label,
        ));
    }
    assert(inner.take(i as int) =~= inner);
    let mut patches: Vec<PatchInfo> = Vec::new();
    let mut total: usize = 0;
    let mut g: usize = 0;
    let ghost want = mesh_of(points@, rv, nv);
    proof {
        assert(taken(outer, flat(gv, 0)) =~= Seq::empty());
        assert(inner + Seq::<Rec>::empty() =~= inner);
        assert(patches_of(patches@) =~= want.patches.take(0));
        crate::mesh::lemma_buckets_total(keys@, n as nat, keys.len() as int);
        assert(Seq::new(n as nat, |k: int| crate::list::bucket(keys@, k, keys.len() as int)) =~= gv);
    }
    while g < n
        invariant
            g <= n == order.len(),
            rv == recs_of(recs@),
            nv == names@.map_values(|t: String| t@),
            want == mesh_of(points@, rv, nv),
            outer == taken(rv, outs@),
            outer == some_of(rv, rv.len() as int, false),
            gv == rows(groups@),
            groups.len() == n,
            keys.len() == outs.len(),
            gv == all_buckets(keys@, n as nat),
            flat(gv, n as int).len() == keys.len(),
            ({
                let patch = face_patches(outer, nv);
                let ord = each_once(patch, patch.len() as int);
                texts(order@) == ord && keys@ == patch_numbers(patch, ord)
            }),
            forall|k: int| 0 <= k < outs.len() ==> #[trigger] outs[k] < recs.len(),
            d.holds(inner + taken(outer, flat(gv, g as int))),
            total == flat(gv, g as int).len(),
            patches_of(patches@) == want.patches.take(g as int),
        decreases n - g,
    {
        let group = &groups[g];
        proof {
            assert(gv[g as int] == group@);
            crate::list::flat_holds_every_list(gv, g as int, n as int);
            crate::list::bucket_is_complete(keys@, g as int, keys.len() as int);
        }
        let ghost before = inner + taken(outer, flat(gv, g as int));
        let mut j: usize = 0;
        assert(before + taken(outer, group@.take(0)) =~= before);
        while j < group.len()
            invariant
                g < n,
                j <= group.len(),
                rv == recs_of(recs@),
                outer == taken(rv, outs@),
                forall|k: int| 0 <= k < group.len() ==> #[trigger] group[k] < outs.len(),
                forall|k: int| 0 <= k < outs.len() ==> #[trigger] outs[k] < recs.len(),
                d.holds(before + taken(outer, group@.take(j as int))),
            decreases group.len() - j,
        {
            let o: usize = outs[group[j]];
            let f = &recs[o];
            proof {
                assert(rv[o as int] == f.rec());
                assert(outer[group[j as int] as int] == f.rec());
                assert(before + taken(outer, group@.take(j + 1)) =~= (before + taken(
                    outer,
                    group@.take(j as int),
                )).push(f.rec()));
            }
            d.add(f, Ghost(before + taken(outer, group@.take(j as int))));
            j = j + 1;
        }
        proof {
            assert(group@.take(j as int) =~= group@);
            assert(before + taken(outer, group@) =~= inner + taken(outer, flat(gv, g + 1)));
        }
        let p = PatchInfo {
            name: copy(&order[g]),
            patch_type: copy("patch"),
            kind: PatchKind::Generic,
            start: total,
            size: group.len(),
            nbr_patch: None,
        };
        proof {
            assert(texts(order@)[g as int] == order[g as int]@);
            assert(p@ == want.patches[g as int]);
            assert(patches_of(patches@.push(p)) =~= patches_of(patches@).push(p@));
            assert(want.patches.take(g as int).push(p@) =~= want.patches.take(g + 1));
        }
        patches.push(p);
        total = total + group.len();
        g = g + 1;
    }
    proof {
        let all = inner + taken(outer, placed);
        assert(want.patches.take(n as int) =~= want.patches);
        assert(all.map_values(|f: Rec| labels_of(f.verts)) =~= want.faces);
        assert(all.map_values(|f: Rec| f.owner as Label) =~= want.owner);
        assert(neighbour@ =~= want.neighbour);
    }
    PolyMeshRaw { points, faces: d.faces, owner: d.owner, neighbour, patches }
}

fn count_uncovered(recs: &Vec<FaceRec>, names: &HashMap<u128, String>) -> (r: usize)
    ensures
        r == uncovered(
            recs_of(recs@),
            names@.map_values(|t: String| t@),
            recs.len() as int,
        ),
{
    broadcast use vstd::std_specs::hash::group_hash_axioms;

    let ghost rv = recs_of(recs@);
    let ghost nv = names@.map_values(|t: String| t@);
    let mut k: usize = 0;
    let mut i: usize = 0;
    while i < recs.len()
        invariant
            i <= recs.len(),
            k <= i,
            rv == recs_of(recs@),
            nv == names@.map_values(|t: String| t@),
            k == uncovered(rv, nv, i as int),
        decreases recs.len() - i,
    {
        broadcast use vstd::std_specs::hash::group_hash_axioms;

        let f = &recs[i];
        assert(rv[i as int] == f.rec());
        if f.neighbour.is_none() {
            let key: u128 = key_of(&f.verts);
            if names.get(&key).is_none() {
                k = k + 1;
            }
        }
        i = i + 1;
    }
    k
}

fn build_raw_mesh(points: Vec<Vec3>, parts: &PartList, notes: &mut Vec<String>) -> (r: Result<
    PolyMeshRaw,
    Error,
>)
    requires
        parts.wf(points.len() as int),
    ensures
        texts(final(notes)@) == texts(old(notes)@) + built_notices(parts.parts()),
        match (r, built(points@, parts.parts())) {
            (Ok(m), Ok(w)) => m@ == w,
            (Err(e), Err(f)) => e@ == f,
            _ => false,
        },
{
    if parts.cells.len() == 0 {
        return Err(
            Error::Mesh(
                copy(
                    "the MSH file has no tetrahedron/hexahedron/prism/pyramid elements; there is no volume mesh to build",
                ),
            ),
        );
    }
    match find_faces(&parts.cells, Ghost(points.len() as int)) {
        Err(m) => Err(Error::Mesh(m)),
        Ok(recs) => {
            let k: usize = count_uncovered(&recs, &parts.names);
            if k > 0 {
                let mut m = String::new();
                push_decimal(&mut m, k as u64);
                push_text(
                    &mut m,
                    " boundary face(s) were not covered by any physical surface; assigned to patch 'defaultFaces'",
                );
                assert(m@ =~= uncovered_text(k as nat));
                proof {
                    lemma_texts_push(notes@, m);
                }
                notes.push(m);
            }
            Ok(assemble(points, &recs, &parts.names))
        },
    }
}

// --------------------------------------------------------------------------
//  The whole file
// --------------------------------------------------------------------------
pub open spec fn bad_version_text(v: Seq<char>) -> Seq<char> {
    "unsupported MSH version \""@
        + v
        + "\" (ofgpu reads MSH 4.1 ASCII only; re-export from Gmsh with `-format msh41`)"@
}

pub(crate) fn bad_version_message(v: &str) -> (r: String)
    ensures
        r@ == bad_version_text(v@),
{
    let mut s = copy("unsupported MSH version \"");
    push_text(&mut s, v);
    push_text(&mut s, "\" (ofgpu reads MSH 4.1 ASCII only; re-export from Gmsh with `-format msh41`)");
    s
}

/// What is said of a binary file.
pub open spec fn binary_text() -> Seq<char> {
    "binary MSH is not supported; re-export as ASCII (Gmsh: File > Export > .msh, uncheck \"Binary\")"@
}

/// The head of the file: the version and the kind of file.
pub open spec fn head_at(s: Reel) -> Result<int, Failure> {
    match s.given("$MeshFormat"@) {
        Err(f) => Err(f),
        Ok(a) => match s.to(a).word() {
            Err(f) => Err(f),
            Ok((v, b)) => if v != "4.1"@ {
                Err(s.failure(bad_version_text(v)))
            } else {
                match many(s.to(b), 2, integers()) {
                    Err(f) => Err(f),
                    Ok((h, c)) => if h[0] != 0 {
                        Err(s.failure(binary_text()))
                    } else {
                        s.to(c).given("$EndMeshFormat"@)
                    },
                }
            },
        },
    }
}

/// What is said of a file without physical names.
pub open spec fn nameless() -> Seq<char> {
    refusal(
        "msh/physicalNames"@,
        "(section absent)"@,
        Seq::empty(),
        Seq::empty(),
        "one 'defaultFaces' patch covering every boundary face"@,
    )
}

/// A section between two words.
pub open spec fn section<T>(s: Reel, head: Seq<char>, tail: Seq<char>, body: spec_fn(Reel) -> Take<T>) -> Take<T> {
    match s.given(head) {
        Err(f) => Err(f),
        Ok(a) => match body(s.to(a)) {
            Err(f) => Err(f),
            Ok((v, b)) => match s.to(b).given(tail) {
                Err(f) => Err(f),
                Ok(e) => Ok((v, e)),
            },
        },
    }
}

pub open spec fn elements_with(w: Around) -> spec_fn(Reel) -> Take<Parts> {
    |s: Reel| elements_at(s, w)
}

/// What a file behind its names holds.
pub open spec fn body_of(s: Reel, names: Seq<Named>) -> Result<RawMesh, Failure> {
    match section(s, "$Entities"@, "$EndEntities"@, |r: Reel| entities_at(r)) {
        Err(f) => Err(f),
        Ok((surfaces, a)) => match section(
            s.to(a),
            "$Nodes"@,
            "$EndNodes"@,
            |r: Reel| nodes_at(r),
        ) {
            Err(f) => Err(f),
            Ok((nodes, b)) => match section(
                s.to(b),
                "$Elements"@,
                "$EndElements"@,
                elements_with(Around { index: nodes.index, surfaces, names }),
            ) {
                Err(f) => Err(f),
                Ok((parts, _)) => built(nodes.points, parts),
            },
        },
    }
}

/// What is said of what a file behind its names holds.
pub open spec fn body_notices(s: Reel, names: Seq<Named>) -> Seq<Seq<char>> {
    match section(s, "$Entities"@, "$EndEntities"@, |r: Reel| entities_at(r)) {
        Err(_) => Seq::empty(),
        Ok((surfaces, a)) => match section(
            s.to(a),
            "$Nodes"@,
            "$EndNodes"@,
            |r: Reel| nodes_at(r),
        ) {
            Err(_) => Seq::empty(),
            Ok((nodes, b)) => match section(
                s.to(b),
                "$Elements"@,
                "$EndElements"@,
                elements_with(Around { index: nodes.index, surfaces, names }),
            ) {
                Err(_) => Seq::empty(),
                Ok((parts, _)) => built_notices(parts),
            },
        },
    }
}

/// What is said of a file: that its missing names were passed over, and how many faces
/// went into the patch for those that are in no other.
pub open spec fn msh_notices(p: Policy, text: Seq<char>, origin: Seq<char>) -> Seq<Seq<char>> {
    let s = Reel { origin, toks: pieces(text, 0), pos: 0 };
    match head_at(s) {
        Err(_) => Seq::empty(),
        Ok(a) => match names_at(s.to(a)) {
            Err(_) => Seq::empty(),
            Ok((Some(names), b)) => body_notices(s.to(b), names),
            Ok((None, b)) => passed_over(
                decided(strict(), nameless(), ()),
                decided(p, nameless(), ()),
            ) + (if p.permissive {
                body_notices(s.to(b), Seq::empty())
            } else {
                Seq::empty()
            }),
        },
    }
}

/// The mesh that a file holds. Without physical names it has no patches: that is
/// refused, or accepted with one patch for all.
pub open spec fn msh_mesh(p: Policy, text: Seq<char>, origin: Seq<char>) -> Result<
    RawMesh,
    Failure,
> {
    let s = Reel { origin, toks: pieces(text, 0), pos: 0 };
    match head_at(s) {
        Err(f) => Err(f),
        Ok(a) => match names_at(s.to(a)) {
            Err(f) => Err(f),
            Ok((Some(names), b)) => body_of(s.to(b), names),
            Ok((None, b)) => match decided(p, nameless(), ()) {
                Err(f) => Err(f),
                Ok(_) => body_of(s.to(b), Seq::empty()),
            },
        },
    }
}

impl Lex {
    fn read_head(&mut self) -> (r: Result<(), Error>)
        requires
            old(self).wf(),
        ensures
            final(self).wf(),
            match (r, head_at(old(self).reel())) {
                (Ok(_), Ok(e)) => final(self).reel() == old(self).reel().to(e),
                (Err(e), Err(f)) => e@ == f,
                _ => false,
            },
    {
        match self.expect_tok("$MeshFormat") {
            Ok(_) => {},
            Err(e) => {
                return Err(e);
            },
        }
        let v: String = match self.tok() {
            Ok(v) => v,
            Err(e) => {
                return Err(e);
            },
        };
        if !same(&v, "4.1") {
            let m = bad_version_message(&v);
            return Err(self.err(m));
        }
        proof {
            lemma_many_len(self.reel(), 2, integers());
        }
        let h: Vec<i64> = match self.read_integers(2) {
            Ok(h) => h,
            Err(e) => {
                return Err(e);
            },
        };
        if h[0] != 0 {
            return Err(
                self.err(
                    copy(
                        "binary MSH is not supported; re-export as ASCII (Gmsh: File > Export > .msh, uncheck \"Binary\")",
                    ),
                ),
            );
        }
        self.expect_tok("$EndMeshFormat")
    }

    fn read_body(&mut self, names: Vec<PhysName>, notes: &mut Vec<String>) -> (r: Result<
        PolyMeshRaw,
        Error,
    >)
        requires
            old(self).wf(),
            old(self).reel().toks.len() <= MOST_WORDS,
        ensures
            texts(final(notes)@) == texts(old(notes)@) + body_notices(
                old(self).reel(),
                named_of(names@),
            ),
            match (r, body_of(old(self).reel(), named_of(names@))) {
                (Ok(m), Ok(w)) => m@ == w,
                (Err(e), Err(f)) => e@ == f,
                _ => false,
            },
    {
        match self.expect_tok("$Entities") {
            Ok(_) => {},
            Err(e) => {
                return Err(e);
            },
        }
        let surfaces: HashMap<i64, Option<i64>> = match self.read_entities() {
            Ok(m) => m,
            Err(e) => {
                return Err(e);
            },
        };
        match self.expect_tok("$EndEntities") {
            Ok(_) => {},
            Err(e) => {
                return Err(e);
            },
        }
        match self.expect_tok("$Nodes") {
            Ok(_) => {},
            Err(e) => {
                return Err(e);
            },
        }
        let nodes: NodeList = match self.read_nodes() {
            Ok(n) => n,
            Err(e) => {
                return Err(e);
            },
        };
        match self.expect_tok("$EndNodes") {
            Ok(_) => {},
            Err(e) => {
                return Err(e);
            },
        }
        match self.expect_tok("$Elements") {
            Ok(_) => {},
            Err(e) => {
                return Err(e);
            },
        }
        let look = Lookup { nodes, surfaces, names };
        let parts: PartList = match self.read_elements(&look) {
            Ok(p) => p,
            Err(e) => {
                return Err(e);
            },
        };
        match self.expect_tok("$EndElements") {
            Ok(_) => {},
            Err(e) => {
                return Err(e);
            },
        }
        build_raw_mesh(look.nodes.points, &parts, notes)
    }
}

/// Read a mesh from a file's text. What there is to say of it goes to `notes`.
pub fn parse_msh(
    p: Policy,
    text: &str,
    origin: &str,
    notes: &mut Vec<String>,
) -> (r: Result<PolyMeshRaw, Error>)
    requires
        pieces(text@, 0).len() <= MOST_WORDS,
    ensures
        texts(final(notes)@) == texts(old(notes)@) + msh_notices(p, text@, origin@),
        match (r, msh_mesh(p, text@, origin@)) {
            (Ok(m), Ok(w)) => m@ == w,
            (Err(e), Err(f)) => e@ == f,
            _ => false,
        },
{
    let mut lx = Lex::new(text, origin);
    match lx.read_head() {
        Ok(_) => {},
        Err(e) => {
            return Err(e);
        },
    }
    let names: Vec<PhysName> = match lx.names_section() {
        Err(e) => {
            return Err(e);
        },
        Ok(Some(v)) => v,
        Ok(None) => {
            proof {
                reveal_strlit("");
                assert(""@ =~= Seq::<char>::empty());
            }
            match unsupported(
                p,
                "msh/physicalNames",
                "(section absent)",
                "",
                "one 'defaultFaces' patch covering every boundary face",
                (),
                notes,
            ) {
                Err(e) => {
                    return Err(e);
                },
                Ok(_) => {},
            }
            let none: Vec<PhysName> = Vec::new();
            assert(named_of(none@) =~= Seq::empty());
            none
        },
    };
    lx.read_body(names, notes)
}

// --------------------------------------------------------------------------
//  What is found
// --------------------------------------------------------------------------
/// The same face.
pub open spec fn same_face(f: Seq<Occurrence>, i: int, j: int) -> bool {
    face_key(f[i].verts) == face_key(f[j].verts)
}

/// Occurrence `i` is the first of a face, and `j` the only other one, if there is
/// another among the first `k`.
pub open spec fn describes(f: Seq<Occurrence>, k: int, r: Rec, i: int, j: int) -> bool {
    &&& 0 <= i < k
    &&& f[i].verts == r.verts
    &&& f[i].cell == r.owner
    &&& match r.neighbour {
        None => forall|l: int| 0 <= l < k && #[trigger] same_face(f, i, l) ==> l == i,
        Some(n) => {
            &&& i < j < k
            &&& same_face(f, i, j)
            &&& f[j].cell == n
            &&& forall|l: int| 0 <= l < k && #[trigger] same_face(f, i, l) ==> l == i || l == j
        },
    }
}

/// Where a face of a list stands among the occurrences.
pub open spec fn is_found(f: Seq<Occurrence>, k: int, r: Rec) -> bool {
    exists|i: int, j: int| #[trigger] describes(f, k, r, i, j)
}

/// The index leads to a face with the key.
spec fn leads(r: Recs, key: u128) -> bool {
    r.index[key] < r.list.len() && face_key(r.list[r.index[key] as int].verts) == key
}

spec fn indexed(f: Seq<Occurrence>, k: int, r: Recs) -> bool {
    &&& forall|key: u128| #[trigger] r.index.contains_key(key) ==> leads(r, key)
    &&& forall|l: int|
        0 <= l < k ==> r.index.contains_key(face_key((#[trigger] f[l]).verts))
    &&& forall|a: int|
        0 <= a < r.list.len() ==> r.index.contains_key(face_key((#[trigger] r.list[a]).verts))
            && r.index[face_key(r.list[a].verts)] == a
}

proof fn lemma_found(f: Seq<Occurrence>, k: int)
    requires
        0 <= k <= f.len() <= usize::MAX,
        recorded(f, k) is Ok,
    ensures
        indexed(f, k, recorded(f, k)->Ok_0),
        recorded(f, k)->Ok_0.list.len() <= k,
        forall|a: int|
            0 <= a < recorded(f, k)->Ok_0.list.len() ==> is_found(
                f,
                k,
                #[trigger] recorded(f, k)->Ok_0.list[a],
            ),
    decreases k,
{
    if k > 0 {
        lemma_found(f, k - 1);
        let p = recorded(f, k - 1)->Ok_0;
        let r = recorded(f, k)->Ok_0;
        let o = f[k - 1];
        let key = face_key(o.verts);
        if !p.index.contains_key(key) {
            let fresh = p.list.len() as int;
            assert forall|q: u128| #[trigger] r.index.contains_key(q) implies leads(r, q) by {
                if q != key {
                    assert(p.index.contains_key(q));
                    assert(leads(p, q));
                }
            }
            assert forall|a: int| 0 <= a < r.list.len() implies is_found(
                f,
                k,
                #[trigger] r.list[a],
            ) && r.index.contains_key(face_key(r.list[a].verts))
                && r.index[face_key(r.list[a].verts)] == a by {
                if a < fresh {
                    assert(r.list[a] == p.list[a]);
                    assert(p.index.contains_key(face_key(p.list[a].verts)));
                    assert(is_found(f, k - 1, p.list[a]));
                    let (i, j) = choose|i: int, j: int| #[trigger]
                        describes(f, k - 1, p.list[a], i, j);
                    assert forall|l: int| 0 <= l < k && #[trigger] same_face(f, i, l) implies l
                        < k - 1 by {
                        if l == k - 1 {
                            assert(p.index.contains_key(face_key(f[i].verts)));
                        }
                    }
                    assert(describes(f, k, r.list[a], i, j));
                } else {
                    assert forall|l: int| 0 <= l < k && #[trigger] same_face(
                        f,
                        k - 1,
                        l,
                    ) implies l == k - 1 by {
                        if l < k - 1 {
                            assert(p.index.contains_key(face_key(f[l].verts)));
                        }
                    }
                    assert(describes(f, k, r.list[a], k - 1, k - 1));
                }
            }
            assert forall|l: int| 0 <= l < k implies r.index.contains_key(
                face_key((#[trigger] f[l]).verts),
            ) by {
                if l < k - 1 {
                    assert(p.index.contains_key(face_key(f[l].verts)));
                }
            }
        } else {
            let at = p.index[key] as int;
            assert(leads(p, key));
            assert(is_found(f, k - 1, p.list[at]));
            let (i, j) = choose|i: int, j: int| #[trigger] describes(f, k - 1, p.list[at], i, j);
            assert(describes(f, k, r.list[at], i, k - 1)) by {
                assert(same_face(f, i, k - 1));
                assert forall|l: int| 0 <= l < k && #[trigger] same_face(f, i, l) implies l == i
                    || l == k - 1 by {}
            }
            assert forall|q: u128| #[trigger] r.index.contains_key(q) implies leads(r, q) by {
                assert(leads(p, q));
            }
            assert forall|a: int| 0 <= a < r.list.len() implies is_found(
                f,
                k,
                #[trigger] r.list[a],
            ) && r.index.contains_key(face_key(r.list[a].verts))
                && r.index[face_key(r.list[a].verts)] == a by {
                assert(p.index.contains_key(face_key(p.list[a].verts)));
                if a != at {
                    assert(r.list[a] == p.list[a]);
                    assert(is_found(f, k - 1, p.list[a]));
                    let (x, y) = choose|x: int, y: int| #[trigger]
                        describes(f, k - 1, p.list[a], x, y);
                    assert(face_key(p.list[a].verts) != key);
                    assert forall|l: int| 0 <= l < k && #[trigger] same_face(f, x, l) implies l
                        < k - 1 by {}
                    assert(describes(f, k, r.list[a], x, y));
                }
            }
            assert forall|l: int| 0 <= l < k implies r.index.contains_key(
                face_key((#[trigger] f[l]).verts),
            ) by {
                if l < k - 1 {
                    assert(p.index.contains_key(face_key(f[l].verts)));
                }
            }
        }
    }
}

/// Every face that is found has one cell or two, the first of which owns it, and
/// every face of a cell is found.
pub proof fn every_face_has_one_cell_or_two(cells: Seq<Solid>)
    requires
        all_faces(cells, cells.len() as int).len() <= usize::MAX,
        faces_found(cells) is Ok,
    ensures
        ({
            let f = all_faces(cells, cells.len() as int);
            let r = faces_found(cells)->Ok_0;
            &&& forall|a: int|
                0 <= a < r.len() ==> is_found(f, f.len() as int, #[trigger] r[a])
            &&& forall|l: int|
                0 <= l < f.len() ==> exists|a: int|
                    0 <= a < r.len() && face_key((#[trigger] r[a]).verts) == face_key(
                        (#[trigger] f[l]).verts,
                    )
        }),
{
    let f = all_faces(cells, cells.len() as int);
    lemma_found(f, f.len() as int);
    let q = recorded(f, f.len() as int)->Ok_0;
    let r = faces_found(cells)->Ok_0;
    assert(r == q.list);
    assert forall|a: int| 0 <= a < r.len() implies is_found(
        f,
        f.len() as int,
        #[trigger] r[a],
    ) by {
        assert(is_found(f, f.len() as int, q.list[a]));
    }
    assert forall|l: int| 0 <= l < f.len() implies exists|a: int|
        0 <= a < r.len() && face_key((#[trigger] r[a]).verts) == face_key(
            (#[trigger] f[l]).verts,
        ) by {
        let key = face_key(f[l].verts);
        assert(q.index.contains_key(key));
        assert(leads(q, key));
        assert(face_key(r[q.index[key] as int].verts) == key);
    }
}

proof fn lemma_cells_ascend(cells: Seq<Solid>, n: int, i: int, j: int)
    requires
        0 <= n <= cells.len(),
        0 <= i <= j < all_faces(cells, n).len(),
    ensures
        0 <= all_faces(cells, n)[i].cell <= all_faces(cells, n)[j].cell < n,
    decreases n,
{
    if n > 0 {
        let before = all_faces(cells, n - 1);
        lemma_cell_faces(cells, n - 1, cells[n - 1].kind.face_table().len() as int);
        if j < before.len() {
            lemma_cells_ascend(cells, n - 1, i, j);
        } else if i < before.len() {
            lemma_cells_ascend(cells, n - 1, i, i);
        }
    }
}

/// No cell has two faces with the same vertices.
pub open spec fn unfolded(cells: Seq<Solid>) -> bool {
    let f = all_faces(cells, cells.len() as int);
    forall|i: int, j: int|
        0 <= i < j < f.len() && #[trigger] same_face(f, i, j) ==> f[i].cell != f[j].cell
}

/// The owner of an internal face does not come behind its neighbour, and comes before it
/// where no cell has two faces with the same vertices.
pub proof fn owners_come_first(cells: Seq<Solid>, a: int)
    requires
        all_faces(cells, cells.len() as int).len() <= usize::MAX,
        faces_found(cells) is Ok,
        0 <= a < faces_found(cells)->Ok_0.len(),
    ensures
        ({
            let r = faces_found(cells)->Ok_0[a];
            &&& 0 <= r.owner < cells.len()
            &&& r.neighbour is Some ==> r.owner <= r.neighbour->Some_0 < cells.len()
            &&& r.neighbour is Some && unfolded(cells) ==> r.owner < r.neighbour->Some_0
        }),
{
    let f = all_faces(cells, cells.len() as int);
    let r = faces_found(cells)->Ok_0[a];
    every_face_has_one_cell_or_two(cells);
    assert(is_found(f, f.len() as int, r));
    let (i, j) = choose|i: int, j: int| #[trigger] describes(f, f.len() as int, r, i, j);
    lemma_cells_ascend(cells, cells.len() as int, i, i);
    if r.neighbour is Some {
        lemma_cells_ascend(cells, cells.len() as int, i, j);
    }
}

/// Internal faces in order: no face belongs behind a later one.
pub open spec fn faces_in_order(s: Seq<Rec>) -> bool {
    forall|i: int, j: int| 0 <= i < j < s.len() ==> !behind(#[trigger] s[i], #[trigger] s[j])
}

proof fn lemma_with_face(s: Seq<Rec>, f: Rec)
    requires
        faces_in_order(s),
    ensures
        faces_in_order(with_face(s, f)),
        with_face(s, f).to_multiset() == s.to_multiset().insert(f),
        forall|i: int|
            0 <= i < with_face(s, f).len() ==> s.contains(#[trigger] with_face(s, f)[i])
                || with_face(s, f)[i] == f,
    decreases s.len(),
{
    broadcast use vstd::seq_lib::group_to_multiset_ensures;

    let p = with_face(s, f);
    if s.len() == 0 || !behind(s.last(), f) {
        assert forall|i: int, j: int| 0 <= i < j < p.len() implies !behind(
            #[trigger] p[i],
            #[trigger] p[j],
        ) by {
            if j == s.len() && i < s.len() - 1 {
                assert(!behind(s[i], s[s.len() - 1]));
            }
        }
        assert forall|i: int| 0 <= i < p.len() implies s.contains(#[trigger] p[i]) || p[i] == f by {
            if i < s.len() {
                assert(s[i] == p[i]);
            }
        }
    } else {
        let d = s.drop_last();
        let q = with_face(d, f);
        lemma_with_face(d, f);
        assert(s =~= d.push(s.last()));
        assert forall|i: int| 0 <= i < p.len() implies s.contains(#[trigger] p[i]) || p[i] == f by {
            if i < q.len() {
                assert(p[i] == q[i]);
                if d.contains(q[i]) {
                    let k = choose|k: int| 0 <= k < d.len() && d[k] == q[i];
                    assert(s[k] == q[i]);
                }
            } else {
                assert(s[s.len() - 1] == p[i]);
            }
        }
        assert forall|i: int, j: int| 0 <= i < j < p.len() implies !behind(
            #[trigger] p[i],
            #[trigger] p[j],
        ) by {
            if j < q.len() {
                assert(p[i] == q[i] && p[j] == q[j]);
            } else {
                assert(p[i] == q[i]);
                if d.contains(q[i]) {
                    let k = choose|k: int| 0 <= k < d.len() && d[k] == q[i];
                    assert(!behind(s[k], s[s.len() - 1]));
                }
            }
        }
        assert(p.to_multiset() =~= s.to_multiset().insert(f));
    }
}

/// Ordering internal faces by their cells keeps the faces and sorts them.
pub proof fn internal_faces_are_sorted(s: Seq<Rec>)
    ensures
        faces_in_order(by_cells(s)),
        by_cells(s).to_multiset() == s.to_multiset(),
    decreases s.len(),
{
    broadcast use vstd::seq_lib::group_to_multiset_ensures;

    if s.len() > 0 {
        let d = s.drop_last();
        internal_faces_are_sorted(d);
        lemma_with_face(by_cells(d), s.last());
        assert(s =~= d.push(s.last()));
    }
}

} // verus!
