//! Reading values and lists off a token stream.

use vstd::prelude::*;

use crate::dict::spaced;
use crate::error::{Error, Failure};
use crate::mesh::{filled, repeated, Label, Vec3};
use crate::scalar::Scalar;
use crate::text::{chars_of, string_of};
use crate::tokenizer::{
    binary_message, check_ascii_format, fresh, header_end, is_binary, token_label, token_number,
    Stream, Tok, Token, Tokenizer,
};

verus! {

/// A value and where it ends, or why there is none.
pub type Read<T> = Result<(T, int), Failure>;

/// Does what was read agree with what is there?
pub open spec fn reads<T>(before: Stream, r: Result<T, Error>, after: Stream, want: Read<T>) -> bool {
    match (r, want) {
        (Ok(v), Ok((w, e))) => v == w && after == before.to(e),
        (Err(e), Err(f)) => e@ == f,
        _ => false,
    }
}

/// The failure of a missing mark.
pub open spec fn no_punct(s: Stream, c: char) -> Failure {
    s.failure("expected '"@ + seq![c] + "'"@)
}

/// The label at the head of a stream.
pub open spec fn label_at(s: Stream) -> Read<Label> {
    match s.ahead(0) {
        Some(t) => match token_label(t) {
            Some(v) => Ok((v as Label, s.pos + 1)),
            None => Err(s.failure("expected an integer"@)),
        },
        None => Err(s.failure("expected an integer"@)),
    }
}

/// The number at the head of a stream.
pub open spec fn number_at(s: Stream) -> Read<Scalar> {
    match s.ahead(0) {
        Some(t) => match token_number(t) {
            Some(v) => Ok((v, s.pos + 1)),
            None => Err(s.failure("expected a number"@)),
        },
        None => Err(s.failure("expected a number"@)),
    }
}

/// The name at the head of a stream.
pub open spec fn name_at(s: Stream) -> Read<Seq<char>> {
    match s.ahead(0) {
        Some(t) => if t is Punct {
            Err(s.failure("expected a name"@))
        } else {
            Ok((t.text(), s.pos + 1))
        },
        None => Err(s.failure("expected a name"@)),
    }
}

/// `(x y z)`
pub open spec fn vector_at(s: Stream) -> Read<Vec3> {
    if !s.is_punct('(') {
        Err(no_punct(s, '('))
    } else {
        match number_at(s.to(s.pos + 1)) {
            Err(f) => Err(f),
            Ok((x, a)) => match number_at(s.to(a)) {
                Err(f) => Err(f),
                Ok((y, b)) => match number_at(s.to(b)) {
                    Err(f) => Err(f),
                    Ok((z, c)) => if !s.to(c).is_punct(')') {
                        Err(no_punct(s.to(c), ')'))
                    } else {
                        Ok((Vec3 { x, y, z }, c + 1))
                    },
                },
            },
        }
    }
}

pub open spec fn label_reader() -> spec_fn(Stream) -> Read<Label> {
    |s: Stream| label_at(s)
}

pub open spec fn number_reader() -> spec_fn(Stream) -> Read<Scalar> {
    |s: Stream| number_at(s)
}

pub open spec fn vector_reader() -> spec_fn(Stream) -> Read<Vec3> {
    |s: Stream| vector_at(s)
}

/// `n` values, one behind the other.
pub open spec fn several<T>(s: Stream, n: int, one: spec_fn(Stream) -> Read<T>) -> Read<Seq<T>>
    decreases n,
{
    if n <= 0 {
        Ok((Seq::empty(), s.pos))
    } else {
        match one(s) {
            Err(f) => Err(f),
            Ok((v, e)) => ahead_of(seq![v], several(s.to(e), n - 1, one)),
        }
    }
}

/// Values up to a closing mark or the end.
pub open spec fn until<T>(s: Stream, c: char, one: spec_fn(Stream) -> Read<T>) -> Read<Seq<T>>
    decreases s.toks.len() - s.pos,
{
    if s.done() || s.is_punct(c) {
        Ok((Seq::empty(), s.pos))
    } else {
        match one(s) {
            Err(f) => Err(f),
            Ok((v, e)) => if e <= s.pos || e > s.toks.len() {
                Ok((Seq::empty(), s.pos))
            } else {
                ahead_of(seq![v], until(s.to(e), c, one))
            },
        }
    }
}

/// Values in front of those that are read next.
pub open spec fn ahead_of<T>(v: Seq<T>, r: Read<Seq<T>>) -> Read<Seq<T>> {
    match r {
        Ok((w, e)) => Ok((v + w, e)),
        Err(f) => Err(f),
    }
}

pub proof fn lemma_ahead_of<T>(v: Seq<T>, x: T, r: Read<Seq<T>>)
    ensures
        ahead_of(v.push(x), r) == ahead_of(v, ahead_of(seq![x], r)),
        ahead_of(Seq::<T>::empty(), r) == r,
{
    match r {
        Ok((w, e)) => {
            assert(v.push(x) + w =~= v + (seq![x] + w));
            assert(Seq::<T>::empty() + w =~= w);
        },
        Err(_) => {},
    }
}

/// Nothing more behind the values read so far.
pub proof fn lemma_nothing_behind<T>(v: Seq<T>, e: int)
    ensures
        ahead_of(v, Ok((Seq::<T>::empty(), e))) == Ok::<(Seq<T>, int), Failure>((v, e)),
{
    assert(v + Seq::<T>::empty() =~= v);
}

/// A value behind which a mark has to stand.
pub open spec fn closed_by<T>(s: Stream, r: Read<T>, c: char) -> Read<T> {
    match r {
        Err(f) => Err(f),
        Ok((v, e)) => if !s.to(e).is_punct(c) {
            Err(no_punct(s.to(e), c))
        } else {
            Ok((v, e + 1))
        },
    }
}

/// `( v v v )`, or with the count `n ( v v v )`; `short` allows `n{v}`.
pub open spec fn list_at<T>(
    s: Stream,
    negative: Seq<char>,
    short: bool,
    one: spec_fn(Stream) -> Read<T>,
) -> Read<Seq<T>> {
    if s.is_punct('(') {
        closed_by(s, until(s.to(s.pos + 1), ')', one), ')')
    } else {
        match label_at(s) {
            Err(f) => Err(f),
            Ok((n, a)) => if n < 0 {
                Err(s.to(a).failure(negative))
            } else if short && s.to(a).is_punct('{') {
                match one(s.to(a + 1)) {
                    Err(f) => Err(f),
                    Ok((v, b)) => closed_by(s, Ok((repeated(v, n as int), b)), '}'),
                }
            } else if !s.to(a).is_punct('(') {
                Err(no_punct(s.to(a), '('))
            } else {
                closed_by(s, several(s.to(a + 1), n as int, one), ')')
            },
        }
    }
}

/// What a whole file gives: an unclosed string at its end spoils it.
pub open spec fn to_the_end<T>(s: Stream, r: Read<T>) -> Result<T, Failure> {
    match r {
        Err(f) => Err(f),
        Ok((v, e)) => match s.unclosed_failure() {
            Some(f) => Err(f),
            None => Ok(v),
        },
    }
}

/// A file behind its header.
pub open spec fn opened(text: Seq<char>, path: Seq<char>) -> Result<Stream, Failure> {
    if is_binary(text) {
        Err(Failure::Parse { path, msg: binary_message() })
    } else {
        let s = fresh(text, path);
        match header_end(s) {
            Ok(e) => Ok(s.to(e)),
            Err(f) => Err(f),
        }
    }
}

/// Open a file's text: refuse a binary file, tokenise, and drop the header.
pub fn open(text: &str, path: &str) -> (r: Result<Tokenizer, Error>)
    requires
        text@.len() < usize::MAX,
    ensures
        match (r, opened(text@, path@)) {
            (Ok(ts), Ok(s)) => ts.wf() && ts@ == s,
            (Err(e), Err(f)) => e@ == f,
            _ => false,
        },
{
    match check_ascii_format(text, path) {
        Ok(_) => {},
        Err(e) => {
            return Err(e);
        },
    }
    let mut ts = Tokenizer::new(text, path);
    match ts.skip_header() {
        Ok(_) => Ok(ts),
        Err(e) => Err(e),
    }
}

/// Read `(x y z)`.
pub fn read_vector(ts: &mut Tokenizer) -> (r: Result<Vec3, Error>)
    requires
        old(ts).wf(),
    ensures
        final(ts).wf(),
        old(ts)@.pos <= final(ts)@.pos,
        reads(old(ts)@, r, final(ts)@, vector_at(old(ts)@)),
{
    match ts.expect_punct('(') {
        Ok(_) => {},
        Err(e) => {
            return Err(e);
        },
    }
    let x: Scalar = match ts.expect_num() {
        Ok(v) => v,
        Err(e) => {
            return Err(e);
        },
    };
    let y: Scalar = match ts.expect_num() {
        Ok(v) => v,
        Err(e) => {
            return Err(e);
        },
    };
    let z: Scalar = match ts.expect_num() {
        Ok(v) => v,
        Err(e) => {
            return Err(e);
        },
    };
    match ts.expect_punct(')') {
        Ok(_) => {},
        Err(e) => {
            return Err(e);
        },
    }
    Ok(Vec3 { x, y, z })
}

/// Read `n` of them.
pub fn read_several_labels(ts: &mut Tokenizer, n: usize) -> (r: Result<Vec<Label>, Error>)
    requires
        old(ts).wf(),
    ensures
        final(ts).wf(),
        old(ts)@.pos <= final(ts)@.pos,
        match (r, several(old(ts)@, n as int, label_reader())) {
            (Ok(v), Ok((w, e))) => v@ == w && final(ts)@ == old(ts)@.to(e),
            (Err(e), Err(f)) => e@ == f,
            _ => false,
        },
{
    let ghost s = ts@;
    let ghost whole = several(s, n as int, label_reader());
    let mut v: Vec<Label> = Vec::new();
    let mut i: usize = 0;
    proof {
        lemma_ahead_of::<Label>(Seq::empty(), arbitrary(), whole);
    }
    while i < n
        invariant
            i <= n,
            ts.wf(),
            s == old(ts)@,
            s.pos <= ts@.pos,
            ts@ == s.to(ts@.pos),
            whole == several(s, n as int, label_reader()),
            whole == ahead_of(v@, several(ts@, n - i, label_reader())),
        decreases n - i,
    {
        let ghost here = ts@;
        let x: Label = match ts.expect_label() {
            Ok(x) => x,
            Err(e) => {
                return Err(e);
            },
        };
        proof {
            lemma_ahead_of(v@, x, several(ts@, n - i - 1, label_reader()));
            assert(label_reader()(here) == label_at(here));
        }
        v.push(x);
        i = i + 1;
    }
    proof {
        lemma_nothing_behind(v@, ts@.pos);
    }
    Ok(v)
}

/// Read up to a closing mark.
fn read_labels_until(ts: &mut Tokenizer, c: char) -> (r: Result<Vec<Label>, Error>)
    requires
        old(ts).wf(),
    ensures
        final(ts).wf(),
        old(ts)@.pos <= final(ts)@.pos,
        match (r, until(old(ts)@, c, label_reader())) {
            (Ok(v), Ok((w, e))) => v@ == w && final(ts)@ == old(ts)@.to(e),
            (Err(e), Err(f)) => e@ == f,
            _ => false,
        },
{
    let ghost s = ts@;
    let ghost whole = until(s, c, label_reader());
    let mut v: Vec<Label> = Vec::new();
    proof {
        lemma_ahead_of::<Label>(Seq::empty(), arbitrary(), whole);
    }
    while !ts.done() && !ts.is_punct(c)
        invariant
            ts.wf(),
            s == old(ts)@,
            s.pos <= ts@.pos,
            ts@ == s.to(ts@.pos),
            whole == until(s, c, label_reader()),
            whole == ahead_of(v@, until(ts@, c, label_reader())),
        decreases ts@.toks.len() - ts@.pos,
    {
        let ghost here = ts@;
        let x: Label = match ts.expect_label() {
            Ok(x) => x,
            Err(e) => {
                return Err(e);
            },
        };
        proof {
            ts.lemma_wf();
            lemma_ahead_of(v@, x, until(ts@, c, label_reader()));
            assert(label_reader()(here) == label_at(here));
        }
        v.push(x);
    }
    proof {
        lemma_nothing_behind(v@, ts@.pos);
    }
    Ok(v)
}

/// Read `( v v v )`, or with the count `n ( v v v )`; `short` allows `n{v}`.
pub fn read_labels(ts: &mut Tokenizer, negative: &str, short: bool) -> (r: Result<Vec<Label>, Error>)
    requires
        old(ts).wf(),
    ensures
        final(ts).wf(),
        old(ts)@.pos <= final(ts)@.pos,
        match (r, list_at(old(ts)@, negative@, short, label_reader())) {
            (Ok(v), Ok((w, e))) => v@ == w && final(ts)@ == old(ts)@.to(e),
            (Err(e), Err(f)) => e@ == f,
            _ => false,
        },
{
    if ts.is_punct('(') {
        ts.advance();
        return match read_labels_until(ts, ')') {
            Err(e) => Err(e),
            Ok(v) => match ts.expect_punct(')') {
                Ok(_) => Ok(v),
                Err(e) => Err(e),
            },
        };
    }
    let n: Label = match ts.expect_label() {
        Ok(n) => n,
        Err(e) => {
            return Err(e);
        },
    };
    if n < 0 {
        return Err(ts.err(negative));
    }
    if short && ts.is_punct('{') {
        ts.advance();
        let ghost here = ts@;
        assert(label_reader()(here) == label_at(here));
        let x: Label = match ts.expect_label() {
            Ok(x) => x,
            Err(e) => {
                return Err(e);
            },
        };
        return match ts.expect_punct('}') {
            Ok(_) => Ok(filled(x, n as usize)),
            Err(e) => Err(e),
        };
    }
    match ts.expect_punct('(') {
        Ok(_) => {},
        Err(e) => {
            return Err(e);
        },
    }
    match read_several_labels(ts, n as usize) {
        Err(e) => Err(e),
        Ok(v) => match ts.expect_punct(')') {
            Ok(_) => Ok(v),
            Err(e) => Err(e),
        },
    }
}

/// Read `n` of them.
fn read_several_numbers(ts: &mut Tokenizer, n: usize) -> (r: Result<Vec<Scalar>, Error>)
    requires
        old(ts).wf(),
    ensures
        final(ts).wf(),
        old(ts)@.pos <= final(ts)@.pos,
        match (r, several(old(ts)@, n as int, number_reader())) {
            (Ok(v), Ok((w, e))) => v@ == w && final(ts)@ == old(ts)@.to(e),
            (Err(e), Err(f)) => e@ == f,
            _ => false,
        },
{
    let ghost s = ts@;
    let ghost whole = several(s, n as int, number_reader());
    let mut v: Vec<Scalar> = Vec::new();
    let mut i: usize = 0;
    proof {
        lemma_ahead_of::<Scalar>(Seq::empty(), arbitrary(), whole);
    }
    while i < n
        invariant
            i <= n,
            ts.wf(),
            s == old(ts)@,
            s.pos <= ts@.pos,
            ts@ == s.to(ts@.pos),
            whole == several(s, n as int, number_reader()),
            whole == ahead_of(v@, several(ts@, n - i, number_reader())),
        decreases n - i,
    {
        let ghost here = ts@;
        let x: Scalar = match ts.expect_num() {
            Ok(x) => x,
            Err(e) => {
                return Err(e);
            },
        };
        proof {
            lemma_ahead_of(v@, x, several(ts@, n - i - 1, number_reader()));
            assert(number_reader()(here) == number_at(here));
        }
        v.push(x);
        i = i + 1;
    }
    proof {
        lemma_nothing_behind(v@, ts@.pos);
    }
    Ok(v)
}

/// Read up to a closing mark.
fn read_numbers_until(ts: &mut Tokenizer, c: char) -> (r: Result<Vec<Scalar>, Error>)
    requires
        old(ts).wf(),
    ensures
        final(ts).wf(),
        old(ts)@.pos <= final(ts)@.pos,
        match (r, until(old(ts)@, c, number_reader())) {
            (Ok(v), Ok((w, e))) => v@ == w && final(ts)@ == old(ts)@.to(e),
            (Err(e), Err(f)) => e@ == f,
            _ => false,
        },
{
    let ghost s = ts@;
    let ghost whole = until(s, c, number_reader());
    let mut v: Vec<Scalar> = Vec::new();
    proof {
        lemma_ahead_of::<Scalar>(Seq::empty(), arbitrary(), whole);
    }
    while !ts.done() && !ts.is_punct(c)
        invariant
            ts.wf(),
            s == old(ts)@,
            s.pos <= ts@.pos,
            ts@ == s.to(ts@.pos),
            whole == until(s, c, number_reader()),
            whole == ahead_of(v@, until(ts@, c, number_reader())),
        decreases ts@.toks.len() - ts@.pos,
    {
        let ghost here = ts@;
        let x: Scalar = match ts.expect_num() {
            Ok(x) => x,
            Err(e) => {
                return Err(e);
            },
        };
        proof {
            ts.lemma_wf();
            lemma_ahead_of(v@, x, until(ts@, c, number_reader()));
            assert(number_reader()(here) == number_at(here));
        }
        v.push(x);
    }
    proof {
        lemma_nothing_behind(v@, ts@.pos);
    }
    Ok(v)
}

/// Read `( v v v )`, or with the count `n ( v v v )`; `short` allows `n{v}`.
pub fn read_numbers(ts: &mut Tokenizer, negative: &str, short: bool) -> (r: Result<Vec<Scalar>, Error>)
    requires
        old(ts).wf(),
    ensures
        final(ts).wf(),
        old(ts)@.pos <= final(ts)@.pos,
        match (r, list_at(old(ts)@, negative@, short, number_reader())) {
            (Ok(v), Ok((w, e))) => v@ == w && final(ts)@ == old(ts)@.to(e),
            (Err(e), Err(f)) => e@ == f,
            _ => false,
        },
{
    if ts.is_punct('(') {
        ts.advance();
        return match read_numbers_until(ts, ')') {
            Err(e) => Err(e),
            Ok(v) => match ts.expect_punct(')') {
                Ok(_) => Ok(v),
                Err(e) => Err(e),
            },
        };
    }
    let n: Label = match ts.expect_label() {
        Ok(n) => n,
        Err(e) => {
            return Err(e);
        },
    };
    if n < 0 {
        return Err(ts.err(negative));
    }
    if short && ts.is_punct('{') {
        ts.advance();
        let ghost here = ts@;
        assert(number_reader()(here) == number_at(here));
        let x: Scalar = match ts.expect_num() {
            Ok(x) => x,
            Err(e) => {
                return Err(e);
            },
        };
        return match ts.expect_punct('}') {
            Ok(_) => Ok(filled(x, n as usize)),
            Err(e) => Err(e),
        };
    }
    match ts.expect_punct('(') {
        Ok(_) => {},
        Err(e) => {
            return Err(e);
        },
    }
    match read_several_numbers(ts, n as usize) {
        Err(e) => Err(e),
        Ok(v) => match ts.expect_punct(')') {
            Ok(_) => Ok(v),
            Err(e) => Err(e),
        },
    }
}

/// Read `n` of them.
fn read_several_vectors(ts: &mut Tokenizer, n: usize) -> (r: Result<Vec<Vec3>, Error>)
    requires
        old(ts).wf(),
    ensures
        final(ts).wf(),
        old(ts)@.pos <= final(ts)@.pos,
        match (r, several(old(ts)@, n as int, vector_reader())) {
            (Ok(v), Ok((w, e))) => v@ == w && final(ts)@ == old(ts)@.to(e),
            (Err(e), Err(f)) => e@ == f,
            _ => false,
        },
{
    let ghost s = ts@;
    let ghost whole = several(s, n as int, vector_reader());
    let mut v: Vec<Vec3> = Vec::new();
    let mut i: usize = 0;
    proof {
        lemma_ahead_of::<Vec3>(Seq::empty(), arbitrary(), whole);
    }
    while i < n
        invariant
            i <= n,
            ts.wf(),
            s == old(ts)@,
            s.pos <= ts@.pos,
            ts@ == s.to(ts@.pos),
            whole == several(s, n as int, vector_reader()),
            whole == ahead_of(v@, several(ts@, n - i, vector_reader())),
        decreases n - i,
    {
        let ghost here = ts@;
        let x: Vec3 = match read_vector(ts) {
            Ok(x) => x,
            Err(e) => {
                return Err(e);
            },
        };
        proof {
            lemma_ahead_of(v@, x, several(ts@, n - i - 1, vector_reader()));
            assert(vector_reader()(here) == vector_at(here));
        }
        v.push(x);
        i = i + 1;
    }
    proof {
        lemma_nothing_behind(v@, ts@.pos);
    }
    Ok(v)
}

/// Read up to a closing mark.
fn read_vectors_until(ts: &mut Tokenizer, c: char) -> (r: Result<Vec<Vec3>, Error>)
    requires
        old(ts).wf(),
    ensures
        final(ts).wf(),
        old(ts)@.pos <= final(ts)@.pos,
        match (r, until(old(ts)@, c, vector_reader())) {
            (Ok(v), Ok((w, e))) => v@ == w && final(ts)@ == old(ts)@.to(e),
            (Err(e), Err(f)) => e@ == f,
            _ => false,
        },
{
    let ghost s = ts@;
    let ghost whole = until(s, c, vector_reader());
    let mut v: Vec<Vec3> = Vec::new();
    proof {
        lemma_ahead_of::<Vec3>(Seq::empty(), arbitrary(), whole);
    }
    while !ts.done() && !ts.is_punct(c)
        invariant
            ts.wf(),
            s == old(ts)@,
            s.pos <= ts@.pos,
            ts@ == s.to(ts@.pos),
            whole == until(s, c, vector_reader()),
            whole == ahead_of(v@, until(ts@, c, vector_reader())),
        decreases ts@.toks.len() - ts@.pos,
    {
        let ghost here = ts@;
        let x: Vec3 = match read_vector(ts) {
            Ok(x) => x,
            Err(e) => {
                return Err(e);
            },
        };
        proof {
            ts.lemma_wf();
            lemma_ahead_of(v@, x, until(ts@, c, vector_reader()));
            assert(vector_reader()(here) == vector_at(here));
        }
        v.push(x);
    }
    proof {
        lemma_nothing_behind(v@, ts@.pos);
    }
    Ok(v)
}

/// Read `( v v v )`, or with the count `n ( v v v )`; `short` allows `n{v}`.
pub fn read_vectors(ts: &mut Tokenizer, negative: &str, short: bool) -> (r: Result<Vec<Vec3>, Error>)
    requires
        old(ts).wf(),
    ensures
        final(ts).wf(),
        old(ts)@.pos <= final(ts)@.pos,
        match (r, list_at(old(ts)@, negative@, short, vector_reader())) {
            (Ok(v), Ok((w, e))) => v@ == w && final(ts)@ == old(ts)@.to(e),
            (Err(e), Err(f)) => e@ == f,
            _ => false,
        },
{
    if ts.is_punct('(') {
        ts.advance();
        return match read_vectors_until(ts, ')') {
            Err(e) => Err(e),
            Ok(v) => match ts.expect_punct(')') {
                Ok(_) => Ok(v),
                Err(e) => Err(e),
            },
        };
    }
    let n: Label = match ts.expect_label() {
        Ok(n) => n,
        Err(e) => {
            return Err(e);
        },
    };
    if n < 0 {
        return Err(ts.err(negative));
    }
    if short && ts.is_punct('{') {
        ts.advance();
        let ghost here = ts@;
        assert(vector_reader()(here) == vector_at(here));
        let x: Vec3 = match read_vector(ts) {
            Ok(x) => x,
            Err(e) => {
                return Err(e);
            },
        };
        return match ts.expect_punct('}') {
            Ok(_) => Ok(filled(x, n as usize)),
            Err(e) => Err(e),
        };
    }
    match ts.expect_punct('(') {
        Ok(_) => {},
        Err(e) => {
            return Err(e);
        },
    }
    match read_several_vectors(ts, n as usize) {
        Err(e) => Err(e),
        Ok(v) => match ts.expect_punct(')') {
            Ok(_) => Ok(v),
            Err(e) => Err(e),
        },
    }
}

/// The text of an entry up to its `;`, spaced as it is written, with what to
/// say where a block or the file ends first.
pub open spec fn raw_until(
    s: Stream,
    v: Seq<char>,
    missing: Seq<char>,
    wanting: Seq<char>,
) -> Read<Seq<char>>
    decreases s.toks.len() - s.pos,
{
    match s.ahead(0) {
        None => Err(s.failure(wanting)),
        Some(t) => if t == Token::Punct(';') {
            Ok((v, s.pos + 1))
        } else if t == Token::Punct('}') {
            Err(s.failure(missing))
        } else {
            raw_until(s.to(s.pos + 1), spaced(v, t, t.text()), missing, wanting)
        },
    }
}

/// The text of an entry up to its `;`.
pub open spec fn raw_at(s: Stream, v: Seq<char>) -> Read<Seq<char>> {
    raw_until(s, v, "missing ';'"@, "expected ';'"@)
}

/// A text is read past its `;`.
pub proof fn lemma_raw_at(s: Stream, v: Seq<char>)
    requires
        0 <= s.pos <= s.toks.len(),
    ensures
        raw_at(s, v) matches Ok((_, e)) ==> s.pos < e <= s.toks.len(),
    decreases s.toks.len() - s.pos,
{
    if s.pos < s.toks.len() {
        let t = s.toks[s.pos];
        lemma_raw_at(s.to(s.pos + 1), spaced(v, t, t.text()));
    }
}

fn push_spaced(v: &mut Vec<char>, t: &Tok)
    ensures
        final(v)@ == spaced(old(v)@, t@, t@.text()),
{
    let opens: bool = v.len() > 0 && (v[v.len() - 1] == '(' || v[v.len() - 1] == '[');
    let closes: bool = t.is_punct(')') || t.is_punct(']');
    if v.len() > 0 && !opens && !closes {
        v.push(' ');
        assert(v@ =~= old(v)@ + seq![' ']);
    }
    let text = t.text();
    let mut more = chars_of(&text);
    v.append(&mut more);
}

/// Capture an entry's tokens as written, with the `;` consumed.
pub fn gather_raw(ts: &mut Tokenizer) -> (r: Result<String, Error>)
    requires
        old(ts).wf(),
    ensures
        final(ts).wf(),
        old(ts)@.pos <= final(ts)@.pos,
        match (r, raw_at(old(ts)@, Seq::empty())) {
            (Ok(v), Ok((w, e))) => v@ == w && final(ts)@ == old(ts)@.to(e),
            (Err(e), Err(f)) => e@ == f,
            _ => false,
        },
{
    gather_until(ts, "missing ';'", "expected ';'")
}

/// Capture an entry's tokens as written, with what to say where a block or the
/// file ends first.
pub fn gather_until(ts: &mut Tokenizer, missing: &str, wanting: &str) -> (r: Result<String, Error>)
    requires
        old(ts).wf(),
    ensures
        final(ts).wf(),
        old(ts)@.pos <= final(ts)@.pos,
        match (r, raw_until(old(ts)@, Seq::empty(), missing@, wanting@)) {
            (Ok(v), Ok((w, e))) => v@ == w && final(ts)@ == old(ts)@.to(e),
            (Err(e), Err(f)) => e@ == f,
            _ => false,
        },
{
    let ghost s = ts@;
    let ghost whole = raw_until(s, Seq::empty(), missing@, wanting@);
    let mut v: Vec<char> = Vec::new();
    assert(v@ =~= Seq::empty());
    while !ts.done() && !ts.is_punct(';')
        invariant
            ts.wf(),
            s == old(ts)@,
            s.pos <= ts@.pos,
            ts@ == s.to(ts@.pos),
            whole == raw_until(s, Seq::empty(), missing@, wanting@),
            whole == raw_until(ts@, v@, missing@, wanting@),
        decreases ts@.toks.len() - ts@.pos,
    {
        proof {
            ts.lemma_wf();
        }
        if ts.is_punct('}') {
            return Err(ts.err(missing));
        }
        match ts.peek_at(0) {
            Some(t) => push_spaced(&mut v, t),
            None => {},
        }
        ts.advance();
    }
    proof {
        ts.lemma_wf();
    }
    if ts.done() {
        return Err(ts.err(wanting));
    }
    ts.advance();
    Ok(string_of(&v))
}

} // verus!
