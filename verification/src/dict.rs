//! Any dictionary file, flattened.
//!
//! Nesting is rebuilt into the key: `solvers { p { relTol 0.01; } }` becomes the
//! single entry `solvers/p/relTol`. A value is the entry's tokens joined by
//! single spaces, without the `;`; a number in it is written from its value, so
//! `tolerance 1e-06` reads back as `0.000001`.
//!
//! A key written in quotes is a regular expression, not a name. It is flattened
//! with its quotes, so that an exact lookup never hits a pattern;
//! [`FoamDict::resolve`] finds the key that governs a name: the exact one first,
//! then the patterns in the order of the file.

use vstd::prelude::*;

use crate::error::{parse_error, Error, Failure};
use crate::numeral::{parse_chars, parsed};
use crate::regex::{compiled, derives, Regex};
use crate::scalar::Scalar;
use crate::table::{
    find_value, in_order, lookup, lookup_after_put, pairs, put, put_keeps_order, put_new, put_new_value, put_value,
    Pair,
};
use crate::text::{
    chars_of, copy, has_char, lemma_push_join, lemma_texts_push, lower, lower_case, push_text, same,
    split_words, string_between, texts, words,
};
use crate::tokenizer::{
    binary_error, binary_message, check_ascii_format, entry_end, entry_stop, find, fresh,
    header_end, is_binary, lemma_entry_end, Stream, Tok, Token, Tokenizer,
};

verus! {

/// How deep inclusion may nest before it is taken for a cycle.
pub const MAX_INCLUDE_DEPTH: u32 = 31;

/// Every entry of a file, keyed by its flattened path.
///
/// A sub-dictionary that adds no entry is recorded under the key `"name/"` with
/// an empty value, so that it does not vanish.
#[derive(Debug, Clone)]
pub struct FoamDict {
    /// The entries, in the order of their keys.
    pub entries: Vec<(String, String)>,
    /// The flattened paths of the quoted keys, in the order of the file.
    pub patterns: Vec<String>,
    /// What there is to say of the file: a line for every directive that was not
    /// evaluated, in the order in which they were met.
    pub notices: Vec<String>,
}

/// The contents of a [`FoamDict`].
pub struct Entries {
    pub table: Seq<Pair>,
    pub patterns: Seq<Seq<char>>,
    pub notices: Seq<Seq<char>>,
}

/// A dictionary without an entry.
pub open spec fn no_entries() -> Entries {
    Entries { table: Seq::empty(), patterns: Seq::empty(), notices: Seq::empty() }
}

impl View for FoamDict {
    type V = Entries;

    open spec fn view(&self) -> Entries {
        Entries {
            table: pairs(self.entries@),
            patterns: texts(self.patterns@),
            notices: texts(self.notices@),
        }
    }
}

/// A file that may be included: its path, and its text if there is such a file.
#[derive(Debug)]
pub struct SourceFile {
    pub path: String,
    pub text: Option<String>,
}

/// What is known of the files beside a dictionary.
#[derive(Debug)]
pub struct Neighbours {
    pub files: Vec<SourceFile>,
    /// Are these all the files there are? If not, a file that is not among them
    /// has to be asked for.
    pub complete: bool,
}

/// The contents of [`Neighbours`].
pub struct Around {
    pub files: Seq<(Seq<char>, Option<Seq<char>>)>,
    pub complete: bool,
}

impl View for Neighbours {
    type V = Around;

    open spec fn view(&self) -> Around {
        Around {
            files: self.files@.map_values(
                |f: SourceFile|
                    (
                        f.path@,
                        match f.text {
                            Some(t) => Some(t@),
                            None => None,
                        },
                    ),
            ),
            complete: self.complete,
        }
    }
}

/// No file beside the dictionary at all.
pub open spec fn alone() -> Around {
    Around { files: Seq::empty(), complete: true }
}

/// The text of a file, if there is one; nothing where that is not known.
pub open spec fn known(n: Around, path: Seq<char>) -> Option<Option<Seq<char>>> {
    match listed(n.files, path) {
        Some(t) => Some(t),
        None => if n.complete {
            Some(None)
        } else {
            None
        },
    }
}

pub open spec fn listed(files: Seq<(Seq<char>, Option<Seq<char>>)>, path: Seq<char>) -> Option<
    Option<Seq<char>>,
>
    decreases files.len(),
{
    if files.len() == 0 {
        None
    } else if files.last().0 == path {
        Some(files.last().1)
    } else {
        listed(files.drop_last(), path)
    }
}

/// Do all texts fit the tokeniser?
pub open spec fn files_fit(n: Neighbours) -> bool {
    forall|i: int|
        0 <= i < n.files@.len() ==> match (#[trigger] n.files@[i]).text {
            Some(t) => t@.len() < usize::MAX,
            None => true,
        }
}

/// Why reading stopped: for good, or for the text of a file.
pub enum Stop {
    Fail(Failure),
    Wants(Seq<char>),
}

// --------------------------------------------------------------------------
//  Paths and scopes
// --------------------------------------------------------------------------
pub open spec fn starts_with(s: Seq<char>, p: Seq<char>) -> bool {
    p.len() <= s.len() && s.take(p.len() as int) == p
}

pub fn has_prefix(s: &str, p: &str) -> (r: bool)
    ensures
        r == starts_with(s@, p@),
{
    let a = chars_of(s);
    let b = chars_of(p);
    prefix_chars(&a, &b)
}

fn prefix_chars(a: &Vec<char>, b: &Vec<char>) -> (r: bool)
    ensures
        r == starts_with(a@, b@),
{
    if b.len() > a.len() {
        return false;
    }
    let mut i: usize = 0;
    while i < b.len()
        invariant
            i <= b.len() <= a.len(),
            forall|k: int| 0 <= k < i ==> a[k] == b[k],
        decreases b.len() - i,
    {
        if a[i] != b[i] {
            assert(a@.take(b.len() as int)[i as int] != b@[i as int]);
            return false;
        }
        i = i + 1;
    }
    assert(a@.take(b.len() as int) =~= b@);
    true
}

/// The last place of a character that satisfies `at`, before `n`.
pub open spec fn last_slash(s: Seq<char>, n: int, back: bool) -> Option<int>
    decreases n,
{
    if n <= 0 || n > s.len() {
        None
    } else if s[n - 1] == '/' || (back && s[n - 1] == '\\') {
        Some(n - 1)
    } else {
        last_slash(s, n - 1, back)
    }
}

fn find_last_slash(s: &Vec<char>, n: usize, back: bool) -> (r: Option<usize>)
    requires
        n <= s.len(),
    ensures
        match (r, last_slash(s@, n as int, back)) {
            (Some(a), Some(b)) => a == b && a < n,
            (None, None) => true,
            _ => false,
        },
{
    let mut i: usize = n;
    while i > 0
        invariant
            i <= n <= s.len(),
            last_slash(s@, n as int, back) == last_slash(s@, i as int, back),
        decreases i,
    {
        if s[i - 1] == '/' || (back && s[i - 1] == '\\') {
            return Some(i - 1);
        }
        i = i - 1;
    }
    None
}

/// A scope `"a/b/"` with one level stripped, or nothing at the top.
pub open spec fn outer(scope: Seq<char>) -> Seq<char> {
    match last_slash(scope, scope.len() - 1, false) {
        Some(i) => scope.take(i + 1),
        None => Seq::empty(),
    }
}

fn outer_scope(scope: &String) -> (r: String)
    requires
        scope@.len() > 0,
    ensures
        r@ == outer(scope@),
        r@.len() < scope@.len(),
{
    let s = chars_of(scope);
    match find_last_slash(&s, s.len() - 1, false) {
        Some(i) => {
            let r = string_between(&s, 0, i + 1);
            assert(s@.subrange(0, i + 1) =~= s@.take(i + 1));
            r
        },
        None => String::new(),
    }
}

/// The directory part of a path, for either separator.
pub open spec fn directory(path: Seq<char>) -> Seq<char> {
    match last_slash(path, path.len() as int, true) {
        Some(i) => path.take(i),
        None => "."@,
    }
}

fn dir_name(path: &str) -> (r: String)
    ensures
        r@ == directory(path@),
{
    let s = chars_of(path);
    match find_last_slash(&s, s.len(), true) {
        Some(i) => {
            let r = string_between(&s, 0, i);
            assert(s@.subrange(0, i as int) =~= s@.take(i as int));
            r
        },
        None => copy("."),
    }
}

/// A leading `/`, or a drive letter.
pub open spec fn is_rooted(p: Seq<char>) -> bool {
    (p.len() > 0 && p[0] == '/') || (p.len() > 1 && p[1] == ':')
}

fn is_absolute(p: &str) -> (r: bool)
    ensures
        r == is_rooted(p@),
{
    let s = chars_of(p);
    (s.len() > 0 && s[0] == '/') || (s.len() > 1 && s[1] == ':')
}

/// A dictionary path with one `/` behind it; the top stays empty.
pub open spec fn slashed(p: Seq<char>) -> Seq<char> {
    if p.len() == 0 || p.last() == '/' {
        p
    } else {
        p.push('/')
    }
}

fn with_slash(p: &str) -> (r: String)
    ensures
        r@ == slashed(p@),
{
    let s = chars_of(p);
    let mut r = copy(p);
    if s.len() > 0 && s[s.len() - 1] != '/' {
        r.push('/');
    }
    r
}

// --------------------------------------------------------------------------
//  Variables
// --------------------------------------------------------------------------
/// The value of `$name` seen from a scope: the nearest scope that has it, going
/// outward; a name that none has stays visible.
pub open spec fn variable(t: Seq<Pair>, scope: Seq<char>, name: Seq<char>) -> Seq<char>
    decreases scope.len(),
{
    match lookup(t, scope + name) {
        Some(v) => v,
        None => if scope.len() == 0 || outer(scope).len() >= scope.len() {
            seq!['$'] + name
        } else {
            variable(t, outer(scope), name)
        },
    }
}

fn joined(a: &str, b: &str) -> (r: String)
    ensures
        r@ == a@ + b@,
{
    let mut s = copy(a);
    push_text(&mut s, b);
    s
}

fn lookup_var(t: &Vec<(String, String)>, scope: &str, name: &str) -> (r: String)
    ensures
        r@ == variable(pairs(t@), scope@, name@),
{
    let mut at = copy(scope);
    loop
        invariant
            variable(pairs(t@), scope@, name@) == variable(pairs(t@), at@, name@),
        decreases at@.len(),
    {
        let key = joined(&at, name);
        match find_value(t, &key) {
            Some(v) => {
                return copy(v);
            },
            None => {},
        }
        if at.as_str().is_empty() {
            let mut s = copy("");
            s.push('$');
            push_text(&mut s, name);
            proof {
                reveal_strlit("");
                assert(s@ =~= seq!['$'] + name@);
            }
            return s;
        }
        at = outer_scope(&at);
    }
}

/// The entries of `t` below `src`, copied below `prefix`, from the `i`th on.
pub open spec fn copied(t: Seq<Pair>, src: Seq<char>, prefix: Seq<char>, i: int) -> Seq<Pair>
    decreases t.len() - i,
{
    if i < 0 || i >= t.len() {
        Seq::empty()
    } else if starts_with(t[i].0, src) {
        seq![(prefix + t[i].0.skip(src.len() as int), t[i].1)] + copied(t, src, prefix, i + 1)
    } else {
        copied(t, src, prefix, i + 1)
    }
}

/// Entries added where their keys are free.
pub open spec fn with_missing(t: Seq<Pair>, add: Seq<Pair>) -> Seq<Pair>
    decreases add.len(),
{
    if add.len() == 0 {
        t
    } else {
        put_new(with_missing(t, add.drop_last()), add.last().0, add.last().1)
    }
}

/// `$name;` as an entry: the dictionary or the entry of that name, nearest scope
/// first, copied into the current scope; what is there already stays.
pub open spec fn merged(
    t: Seq<Pair>,
    prefix: Seq<char>,
    scope: Seq<char>,
    name: Seq<char>,
) -> Seq<Pair>
    decreases scope.len(),
{
    let add = copied(t, scope + name + seq!['/'], prefix, 0);
    if add.len() > 0 {
        with_missing(t, add)
    } else {
        match lookup(t, scope + name) {
            Some(v) => put_new(t, prefix + name, v),
            None => if scope.len() == 0 || outer(scope).len() >= scope.len() {
                t
            } else {
                merged(t, prefix, outer(scope), name)
            },
        }
    }
}

fn copy_below(t: &Vec<(String, String)>, src: &str, prefix: &str) -> (r: Vec<(String, String)>)
    ensures
        pairs(r@) == copied(pairs(t@), src@, prefix@, 0),
{
    let ghost p = pairs(t@);
    let mut out: Vec<(String, String)> = Vec::new();
    let from = chars_of(src);
    let mut i: usize = 0;
    assert(pairs(out@) + copied(p, src@, prefix@, 0) =~= copied(p, src@, prefix@, 0));
    while i < t.len()
        invariant
            i <= t.len(),
            p == pairs(t@),
            from@ == src@,
            pairs(out@) + copied(p, src@, prefix@, i as int) == copied(p, src@, prefix@, 0),
        decreases t.len() - i,
    {
        let k = chars_of(&t[i].0);
        assert(p[i as int] == (t@[i as int].0@, t@[i as int].1@));
        if prefix_chars(&k, &from) {
            let mut key = copy(prefix);
            let rest = string_between(&k, from.len(), k.len());
            assert(k@.subrange(from.len() as int, k.len() as int) =~= k@.skip(from.len() as int));
            push_text(&mut key, &rest);
            let ghost before = pairs(out@);
            let ghost e = (key@, t@[i as int].1@);
            out.push((key, copy(&t[i].1)));
            proof {
                assert(pairs(out@) =~= before.push(e));
                lemma_push_join(before, e, copied(p, src@, prefix@, i + 1));
            }
        }
        i = i + 1;
    }
    assert(pairs(out@) + copied(p, src@, prefix@, i as int) =~= pairs(out@));
    out
}

fn merge_var(t: &mut Vec<(String, String)>, prefix: &str, name: &str)
    ensures
        pairs(final(t)@) == merged(pairs(old(t)@), prefix@, prefix@, name@),
{
    let ghost p = pairs(t@);
    let mut scope = copy(prefix);
    loop
        invariant
            t@ == old(t)@,
            p == pairs(t@),
            merged(p, prefix@, prefix@, name@) == merged(p, prefix@, scope@, name@),
        decreases scope@.len(),
    {
        let key = joined(&scope, name);
        let mut src = copy(&key);
        src.push('/');
        assert(src@ =~= scope@ + name@ + seq!['/']);
        let add = copy_below(t, &src, prefix);
        if add.len() > 0 {
            let ghost a = pairs(add@);
            assert(a.len() == add.len());
            let mut i: usize = 0;
            assert(with_missing(p, a.take(0)) == p);
            while i < add.len()
                invariant
                    i <= add.len(),
                    a == pairs(add@),
                    pairs(t@) == with_missing(p, a.take(i as int)),
                decreases add.len() - i,
            {
                put_new_value(t, copy(&add[i].0), copy(&add[i].1));
                assert(a.take(i + 1).drop_last() =~= a.take(i as int));
                assert(a.take(i + 1).last() == (add@[i as int].0@, add@[i as int].1@));
                i = i + 1;
            }
            assert(a.take(i as int) =~= a);
            return;
        }
        let found: Option<String> = match find_value(t, &key) {
            Some(v) => Some(copy(v)),
            None => None,
        };
        match found {
            Some(v) => {
                put_new_value(t, joined(prefix, name), v);
                return;
            },
            None => {},
        }
        if scope.as_str().is_empty() {
            return;
        }
        scope = outer_scope(&scope);
    }
}

// --------------------------------------------------------------------------
//  Values
// --------------------------------------------------------------------------
/// The text of a token in a value: `$name` gives way to what it stands for.
pub open spec fn value_text(t: Seq<Pair>, prefix: Seq<char>, tok: Token) -> Seq<char> {
    match tok {
        Token::Word(w) => if w.len() > 1 && w[0] == '$' {
            variable(t, prefix, w.skip(1))
        } else {
            w
        },
        _ => tok.text(),
    }
}

/// One token more in a value: behind a space, but not inside a bracket.
pub open spec fn spaced(v: Seq<char>, tok: Token, text: Seq<char>) -> Seq<char> {
    let opens = v.len() > 0 && (v.last() == '(' || v.last() == '[');
    let closes = tok == Token::Punct(')') || tok == Token::Punct(']');
    if v.len() > 0 && !opens && !closes {
        v + seq![' '] + text
    } else {
        v + text
    }
}

/// The value that some tokens make.
pub open spec fn value_of(t: Seq<Pair>, prefix: Seq<char>, toks: Seq<Token>) -> Seq<char>
    decreases toks.len(),
{
    if toks.len() == 0 {
        Seq::empty()
    } else {
        spaced(
            value_of(t, prefix, toks.drop_last()),
            toks.last(),
            value_text(t, prefix, toks.last()),
        )
    }
}

fn token_value(t: &Vec<(String, String)>, prefix: &str, tok: &Tok) -> (r: String)
    ensures
        r@ == value_text(pairs(t@), prefix@, tok@),
{
    match tok {
        Tok::Word(w) => {
            let s = chars_of(w);
            if s.len() > 1 && s[0] == '$' {
                let name = string_between(&s, 1, s.len());
                assert(s@.subrange(1, s.len() as int) =~= s@.skip(1));
                lookup_var(t, prefix, &name)
            } else {
                copy(w)
            }
        },
        _ => tok.text(),
    }
}

/// A text with its last character at hand.
struct Value {
    text: String,
    last: Option<char>,
}

impl Value {
    spec fn wf(self) -> bool {
        match self.last {
            None => self.text@.len() == 0,
            Some(c) => self.text@.len() > 0 && self.text@.last() == c,
        }
    }
}

fn append_raw(v: Value, tok: &Tok, text: &str) -> (r: Value)
    requires
        v.wf(),
    ensures
        r.wf(),
        r.text@ == spaced(v.text@, tok@, text@),
{
    let mut out = v.text;
    let opens: bool = match v.last {
        Some(c) => c == '(' || c == '[',
        None => false,
    };
    let closes: bool = tok.is_punct(')') || tok.is_punct(']');
    let mut last: Option<char> = v.last;
    if last.is_some() && !opens && !closes {
        out.push(' ');
        assert(out@ =~= v.text@ + seq![' ']);
        last = Some(' ');
    }
    push_text(&mut out, text);
    let s = chars_of(text);
    if s.len() > 0 {
        last = Some(s[s.len() - 1]);
        assert(out@.last() == text@.last());
    } else {
        assert(text@ =~= Seq::empty());
    }
    Value { text: out, last }
}

// --------------------------------------------------------------------------
//  Parsing
// --------------------------------------------------------------------------
/// A key as it is stored: a quoted one keeps its quotes.
pub open spec fn stored_key(tok: Token) -> Seq<char> {
    match tok {
        Token::Str(s) => seq!['"'] + s + seq!['"'],
        _ => tok.text(),
    }
}

/// The path of an included file.
pub open spec fn beside(dir: Seq<char>, name: Seq<char>) -> Seq<char> {
    if is_rooted(name) {
        name
    } else {
        dir + seq!['/'] + name
    }
}

pub open spec fn noted(p: Seq<Seq<char>>, quoted: bool, path: Seq<char>) -> Seq<Seq<char>> {
    if quoted {
        p.push(path)
    } else {
        p
    }
}

/// The outcome of reading part of a file: the entries so far and the position.
pub type Reading = Result<(Entries, int), Stop>;

/// One entry has been read, or there is no further one.
pub enum Step {
    Done(Reading),
    More(Entries, int),
}

/// Read entries up to the end of the file, or of the block.
pub open spec fn body(
    files: Around,
    st: Entries,
    s: Stream,
    prefix: Seq<char>,
    in_block: bool,
    dir: Seq<char>,
    depth: nat,
) -> Reading
    decreases 40 - depth, s.toks.len() - s.pos, 2int,
{
    match step(files, st, s, prefix, in_block, dir, depth) {
        Step::Done(r) => r,
        Step::More(st2, p) => if s.pos < p <= s.toks.len() {
            body(files, st2, s.to(p), prefix, in_block, dir, depth)
        } else {
            Ok((st2, p))
        },
    }
}

/// Read one entry.
pub open spec fn step(
    files: Around,
    st: Entries,
    s: Stream,
    prefix: Seq<char>,
    in_block: bool,
    dir: Seq<char>,
    depth: nat,
) -> Step
    decreases 40 - depth, s.toks.len() - s.pos, 1int,
{
    if s.pos < 0 || s.done() {
        Step::Done(
            if in_block {
                Err(Stop::Fail(s.failure("unterminated '{'"@)))
            } else {
                Ok((st, s.pos))
            },
        )
    } else {
        let tok = s.toks[s.pos];
        if tok == Token::Punct('}') {
            Step::Done(
                if !in_block {
                    Err(Stop::Fail(s.failure("unexpected '}'"@)))
                } else {
                    Ok((st, s.pos + 1))
                },
            )
        } else if tok == Token::Punct(';') {
            Step::More(st, s.pos + 1)
        } else if tok is Punct {
            Step::Done(Err(Stop::Fail(s.failure("expected a keyword"@))))
        } else {
            let key = stored_key(tok);
            let s1 = s.to(s.pos + 1);
            if key.len() > 0 && key[0] == '#' {
                match directive(files, st, s1, key, prefix, dir, depth) {
                    Err(e) => Step::Done(Err(e)),
                    Ok((st2, p)) => Step::More(st2, p),
                }
            } else if key.len() > 1 && key[0] == '$' {
                Step::More(
                    Entries { table: merged(st.table, prefix, prefix, key.skip(1)), ..st },
                    if s1.is_punct(';') { s1.pos + 1 } else { s1.pos },
                )
            } else if s1.is_punct('{') {
                block(files, st, s.to(s.pos + 2), key, tok is Str, prefix, dir, depth)
            } else {
                leaf(st, s1, key, tok is Str, prefix)
            }
        }
    }
}

/// A sub-dictionary behind its opening brace.
pub open spec fn block(
    files: Around,
    st: Entries,
    s: Stream,
    key: Seq<char>,
    quoted: bool,
    prefix: Seq<char>,
    dir: Seq<char>,
    depth: nat,
) -> Step
    decreases 40 - depth, s.toks.len() - s.pos, 3int,
{
    let st1 = Entries { patterns: noted(st.patterns, quoted, prefix + key), ..st };
    let sub = prefix + key + seq!['/'];
    match body(files, st1, s, sub, true, dir, depth) {
        Err(e) => Step::Done(Err(e)),
        Ok((st2, p)) => Step::More(
            if st2.table.len() == st.table.len() {
                Entries { table: put(st2.table, sub, Seq::empty()), ..st2 }
            } else {
                st2
            },
            p,
        ),
    }
}

/// An entry with a value, behind its key.
pub open spec fn leaf(st: Entries, s: Stream, key: Seq<char>, quoted: bool, prefix: Seq<char>) -> Step {
    let e = entry_stop(s.toks, s.pos);
    if e >= s.toks.len() {
        Step::Done(Err(Stop::Fail(s.to(e).failure("expected ';' for entry '"@ + key + "'"@))))
    } else if s.toks[e] == Token::Punct('}') {
        Step::Done(Err(Stop::Fail(s.to(e).failure("missing ';' for entry '"@ + key + "'"@))))
    } else {
        let v = value_of(st.table, prefix, s.toks.subrange(s.pos, e));
        Step::More(
            Entries {
                table: put(st.table, prefix + key, v),
                patterns: noted(st.patterns, quoted, prefix + key),
                ..st
            },
            e + 1,
        )
    }
}

/// The notice of a directive that is not evaluated.
pub open spec fn ignored_text(path: Seq<char>, key: Seq<char>) -> Seq<char> {
    path + ": ignoring unsupported directive "@ + key
}

/// Note a directive that is not evaluated.
pub(crate) fn note_ignored(notes: &mut Vec<String>, path: &str, key: &str)
    ensures
        texts(final(notes)@) == texts(old(notes)@).push(ignored_text(path@, key@)),
{
    let mut m = copy(path);
    push_text(&mut m, ": ignoring unsupported directive ");
    push_text(&mut m, key);
    proof {
        lemma_texts_push(notes@, m);
    }
    notes.push(m);
}

/// A preprocessor directive behind its key: a file is read in place; other
/// directives are skipped, with the file name or the value they carry, and noted.
pub open spec fn directive(
    files: Around,
    st: Entries,
    s: Stream,
    key: Seq<char>,
    prefix: Seq<char>,
    dir: Seq<char>,
    depth: nat,
) -> Reading
    decreases 40 - depth, s.toks.len() - s.pos, 0int,
{
    if key == "#include"@ || key == "#includeIfPresent"@ {
        match s.ahead(0) {
            None => Err(Stop::Fail(s.failure("expected a name"@))),
            Some(Token::Punct(_)) => Err(Stop::Fail(s.failure("expected a name"@))),
            Some(tok) => {
                let p1 = if s.to(s.pos + 1).is_punct(';') { s.pos + 2 } else { s.pos + 1 };
                let path = beside(dir, tok.text());
                match known(files, path) {
                    None => Err(Stop::Wants(path)),
                    Some(None) => if key == "#include"@ {
                        Err(
                            Stop::Fail(
                                Failure::Parse {
                                    path: s.path,
                                    msg: "#include cannot open "@ + path,
                                },
                            ),
                        )
                    } else {
                        Ok((st, p1))
                    },
                    Some(Some(src)) => if depth > MAX_INCLUDE_DEPTH {
                        Err(
                            Stop::Fail(
                                Failure::Parse {
                                    path: s.path,
                                    msg: "#include nested too deeply at "@ + path,
                                },
                            ),
                        )
                    } else if is_binary(src) {
                        Err(Stop::Fail(Failure::Parse { path, msg: binary_message() }))
                    } else {
                        let sub = fresh(src, path);
                        match header_end(sub) {
                            Err(f) => Err(Stop::Fail(f)),
                            Ok(h) => match body(
                                files,
                                st,
                                sub.to(h),
                                prefix,
                                false,
                                directory(path),
                                depth + 1,
                            ) {
                                Err(e) => Err(e),
                                Ok((st2, _)) => match sub.unclosed_failure() {
                                    Some(f) => Err(Stop::Fail(f)),
                                    None => Ok((st2, p1)),
                                },
                            },
                        }
                    },
                }
            },
        }
    } else {
        let said = Entries { notices: st.notices.push(ignored_text(s.path, key)), ..st };
        if starts_with(key, "#include"@) {
            let p1 = if s.done() || s.toks[s.pos] is Punct { s.pos } else { s.pos + 1 };
            Ok((said, if s.to(p1).is_punct(';') { p1 + 1 } else { p1 }))
        } else if s.done() || s.is_punct('}') {
            Ok((said, s.pos))
        } else {
            match entry_end(s) {
                Err(f) => Err(Stop::Fail(f)),
                Ok(e) => Ok((said, e)),
            }
        }
    }
}

/// The whole of a dictionary file.
pub open spec fn dictionary(files: Around, src: Seq<char>, path: Seq<char>) -> Result<
    Entries,
    Stop,
> {
    if is_binary(src) {
        Err(Stop::Fail(Failure::Parse { path, msg: binary_message() }))
    } else {
        let s = fresh(src, path);
        let st = no_entries();
        match body(files, st, s, Seq::empty(), false, directory(path), 0) {
            Err(e) => Err(e),
            Ok((st2, _)) => match s.unclosed_failure() {
                Some(f) => Err(Stop::Fail(f)),
                None => {
                    let binary = match lookup(st2.table, "FoamFile/format"@) {
                        Some(v) => find(v, "binary"@, 0) is Some,
                        None => false,
                    };
                    if binary {
                        Err(Stop::Fail(Failure::Parse { path, msg: binary_message() }))
                    } else {
                        Ok(st2)
                    }
                },
            },
        }
    }
}

/// Reading stopped: for good, or for the text of a file.
#[derive(Debug)]
pub enum Halt {
    Fail(Error),
    /// The path of the file whose text is wanted.
    Wants(String),
}

impl View for Halt {
    type V = Stop;

    open spec fn view(&self) -> Stop {
        match *self {
            Halt::Fail(e) => Stop::Fail(e@),
            Halt::Wants(p) => Stop::Wants(p@),
        }
    }
}

fn listed_file<'a>(n: &'a Neighbours, path: &str) -> (r: Option<&'a SourceFile>)
    requires
        files_fit(*n),
    ensures
        match (r, listed(n@.files, path@)) {
            (None, None) => true,
            (Some(f), Some(k)) => match (f.text, k) {
                (Some(t), Some(u)) => t@ == u && t@.len() < usize::MAX,
                (None, None) => true,
                _ => false,
            },
            _ => false,
        },
{
    let files = &n.files;
    let ghost all = n@.files;
    let mut i: usize = files.len();
    assert(all.take(i as int) =~= all);
    while i > 0
        invariant
            i <= files.len(),
            files == n.files,
            all == n@.files,
            files_fit(*n),
            listed(all, path@) == listed(all.take(i as int), path@),
        decreases i,
    {
        assert(all.take(i as int).drop_last() =~= all.take(i - 1));
        assert(all.take(i as int).last() == all[i - 1]);
        assert(n.files@[i - 1] == files@[i - 1]);
        if same(&files[i - 1].path, path) {
            return Some(&files[i - 1]);
        }
        i = i - 1;
    }
    None
}

/// What the reading of a block depends on.
struct Context<'a> {
    files: &'a Neighbours,
    dir: String,
    depth: u32,
}

spec fn meets(r: Result<(), Halt>, d: FoamDict, s: Stream, want: Reading) -> bool {
    match (r, want) {
        (Ok(_), Ok((st, p))) => d@ == st && s.pos == p,
        (Err(e), Err(f)) => e@ == f,
        _ => false,
    }
}

fn fail(ts: &Tokenizer, msg: &str) -> (h: Halt)
    ensures
        h@ == Stop::Fail(ts@.failure(msg@)),
{
    Halt::Fail(ts.err(msg))
}

fn fail_entry(ts: &Tokenizer, what: &str, key: &str) -> (h: Halt)
    ensures
        h@ == Stop::Fail(ts@.failure(what@ + key@ + "'"@)),
{
    let mut m = copy(what);
    push_text(&mut m, key);
    push_text(&mut m, "'");
    Halt::Fail(ts.err(&m))
}

fn skip_semicolon(ts: &mut Tokenizer)
    requires
        old(ts).wf(),
    ensures
        final(ts).wf(),
        final(ts)@ == (if old(ts)@.is_punct(';') {
            old(ts)@.to(old(ts)@.pos + 1)
        } else {
            old(ts)@
        }),
{
    if ts.is_punct(';') {
        ts.advance();
    }
}

/// Read the value of an entry, up to its `;`.
fn read_value(ts: &mut Tokenizer, d: &FoamDict, prefix: &str) -> (r: String)
    requires
        old(ts).wf(),
    ensures
        final(ts).wf(),
        ({
            let e = entry_stop(old(ts)@.toks, old(ts)@.pos);
            &&& final(ts)@ == old(ts)@.to(e)
            &&& old(ts)@.pos <= e <= old(ts)@.toks.len()
            &&& r@ == value_of(d@.table, prefix@, old(ts)@.toks.subrange(old(ts)@.pos, e))
        }),
{
    let ghost s = ts@;
    let start: usize = ts.position();
    let mut v = Value { text: String::new(), last: None };
    assert(s.toks.subrange(s.pos, s.pos) =~= Seq::empty());
    while !ts.done() && !ts.is_punct(';') && !ts.is_punct('}')
        invariant
            ts.wf(),
            s == old(ts)@,
            s.pos == start,
            ts@ == s.to(ts@.pos),
            0 <= s.pos <= ts@.pos <= s.toks.len(),
            v.wf(),
            entry_stop(s.toks, s.pos) == entry_stop(s.toks, ts@.pos),
            v.text@ == value_of(d@.table, prefix@, s.toks.subrange(s.pos, ts@.pos)),
        decreases s.toks.len() - ts@.pos,
    {
        let ghost at = ts@.pos;
        match ts.peek_at(0) {
            Some(t) => {
                let tv = token_value(&d.entries, prefix, t);
                v = append_raw(v, t, &tv);
                proof {
                    let now = s.toks.subrange(s.pos, at + 1);
                    assert(now.drop_last() =~= s.toks.subrange(s.pos, at));
                    assert(now.last() == t@);
                }
            },
            None => {},
        }
        ts.advance();
    }
    v.text
}

spec fn meets_step(r: Result<bool, Halt>, d: FoamDict, s: Stream, want: Step) -> bool {
    match (r, want) {
        (Ok(false), Step::Done(Ok((st, p)))) => d@ == st && s.pos == p,
        (Ok(true), Step::More(st, p)) => d@ == st && s.pos == p,
        (Err(e), Step::Done(Err(f))) => e@ == f,
        _ => false,
    }
}

fn parse_body(
    ts: &mut Tokenizer,
    prefix: &str,
    d: &mut FoamDict,
    in_block: bool,
    ctx: &Context,
) -> (r: Result<(), Halt>)
    requires
        old(ts).wf(),
        files_fit(*ctx.files),
        ctx.depth <= 32,
    ensures
        final(ts).wf(),
        final(ts)@ == old(ts)@.to(final(ts)@.pos),
        r is Ok ==> final(ts)@.pos >= old(ts)@.pos && (in_block ==> final(ts)@.pos > old(ts)@.pos),
        meets(
            r,
            *final(d),
            final(ts)@,
            body(
                ctx.files@,
                old(d)@,
                old(ts)@,
                prefix@,
                in_block,
                ctx.dir@,
                ctx.depth as nat,
            ),
        ),
    decreases 40 - ctx.depth, old(ts)@.toks.len() - old(ts)@.pos, 2int,
{
    let ghost s = ts@;
    let ghost whole = body(
        ctx.files@,
        d@,
        s,
        prefix@,
        in_block,
        ctx.dir@,
        ctx.depth as nat,
    );
    proof {
        ts.lemma_wf();
    }
    loop
        invariant
            ts.wf(),
            s == old(ts)@,
            ctx.depth <= 32,
            files_fit(*ctx.files),
            whole == body(
                ctx.files@,
                old(d)@,
                s,
                prefix@,
                in_block,
                ctx.dir@,
                ctx.depth as nat,
            ),
            ts@ == s.to(ts@.pos),
            0 <= s.pos <= ts@.pos <= s.toks.len(),
            whole == body(
                ctx.files@,
                d@,
                ts@,
                prefix@,
                in_block,
                ctx.dir@,
                ctx.depth as nat,
            ),
        decreases s.toks.len() - ts@.pos,
    {
        match parse_step(ts, prefix, d, in_block, ctx) {
            Err(e) => {
                return Err(e);
            },
            Ok(more) => {
                proof {
                    ts.lemma_wf();
                }
                if !more {
                    return Ok(());
                }
            },
        }
    }
}

fn parse_step(
    ts: &mut Tokenizer,
    prefix: &str,
    d: &mut FoamDict,
    in_block: bool,
    ctx: &Context,
) -> (r: Result<bool, Halt>)
    requires
        old(ts).wf(),
        files_fit(*ctx.files),
        ctx.depth <= 32,
    ensures
        final(ts).wf(),
        final(ts)@ == old(ts)@.to(final(ts)@.pos),
        r matches Ok(more) ==> final(ts)@.pos >= old(ts)@.pos && (more || in_block ==> final(ts)@.pos
            > old(ts)@.pos),
        meets_step(
            r,
            *final(d),
            final(ts)@,
            step(
                ctx.files@,
                old(d)@,
                old(ts)@,
                prefix@,
                in_block,
                ctx.dir@,
                ctx.depth as nat,
            ),
        ),
    decreases 40 - ctx.depth, old(ts)@.toks.len() - old(ts)@.pos, 1int,
{
    let ghost now = ts@;
    proof {
        ts.lemma_wf();
    }
    if ts.done() {
        if in_block {
            return Err(fail(ts, "unterminated '{'"));
        }
        return Ok(false);
    }
    if ts.is_punct('}') {
        if !in_block {
            return Err(fail(ts, "unexpected '}'"));
        }
        ts.advance();
        return Ok(false);
    }
    if ts.is_punct(';') {
        ts.advance();
        return Ok(true);
    }
    let punct: bool = match ts.peek_at(0) {
        Some(t) => t.is_punct_any(),
        None => false,
    };
    if punct {
        return Err(fail(ts, "expected a keyword"));
    }
    let (raw, quoted) = match ts.expect_key() {
        Ok(k) => k,
        Err(e) => {
            return Err(Halt::Fail(e));
        },
    };
    let mut key = String::new();
    if quoted {
        key.push('"');
        push_text(&mut key, &raw);
        key.push('"');
    } else {
        push_text(&mut key, &raw);
    }
    assert(key@ =~= stored_key(now.toks[now.pos]));
    let parts = chars_of(&key);
    if parts.len() > 0 && parts[0] == '#' {
        return match handle_directive(ts, &key, prefix, d, ctx) {
            Ok(_) => Ok(true),
            Err(e) => Err(e),
        };
    }
    if parts.len() > 1 && parts[0] == '$' {
        let name = string_between(&parts, 1, parts.len());
        assert(parts@.subrange(1, parts.len() as int) =~= key@.skip(1));
        skip_semicolon(ts);
        merge_var(&mut d.entries, prefix, &name);
        return Ok(true);
    }
    if ts.is_punct('{') {
        ts.advance();
        return parse_block(ts, &key, quoted, prefix, d, ctx);
    }
    parse_leaf(ts, &key, quoted, prefix, d)
}

fn parse_block(
    ts: &mut Tokenizer,
    key: &str,
    quoted: bool,
    prefix: &str,
    d: &mut FoamDict,
    ctx: &Context,
) -> (r: Result<bool, Halt>)
    requires
        old(ts).wf(),
        files_fit(*ctx.files),
        ctx.depth <= 32,
    ensures
        final(ts).wf(),
        final(ts)@ == old(ts)@.to(final(ts)@.pos),
        r matches Ok(more) ==> more && final(ts)@.pos > old(ts)@.pos,
        meets_step(
            r,
            *final(d),
            final(ts)@,
            block(
                ctx.files@,
                old(d)@,
                old(ts)@,
                key@,
                quoted,
                prefix@,
                ctx.dir@,
                ctx.depth as nat,
            ),
        ),
    decreases 40 - ctx.depth, old(ts)@.toks.len() - old(ts)@.pos, 3int,
{
    let before: usize = d.entries.len();
    let path = joined(prefix, key);
    if quoted {
        d.patterns.push(copy(&path));
        assert(texts(d.patterns@) =~= texts(old(d).patterns@).push(path@));
    }
    let mut sub = copy(&path);
    sub.push('/');
    assert(sub@ =~= prefix@ + key@ + seq!['/']);
    match parse_body(ts, &sub, d, true, ctx) {
        Ok(_) => {},
        Err(e) => {
            return Err(e);
        },
    }
    if d.entries.len() == before {
        put_value(&mut d.entries, sub, String::new());
    }
    Ok(true)
}

fn parse_leaf(ts: &mut Tokenizer, key: &str, quoted: bool, prefix: &str, d: &mut FoamDict) -> (r:
    Result<bool, Halt>)
    requires
        old(ts).wf(),
    ensures
        final(ts).wf(),
        final(ts)@ == old(ts)@.to(final(ts)@.pos),
        r matches Ok(more) ==> more && final(ts)@.pos > old(ts)@.pos,
        meets_step(r, *final(d), final(ts)@, leaf(old(d)@, old(ts)@, key@, quoted, prefix@)),
{
    proof {
        ts.lemma_wf();
    }
    let v = read_value(ts, d, prefix);
    if ts.done() {
        return Err(fail_entry(ts, "expected ';' for entry '", key));
    }
    if ts.is_punct('}') {
        return Err(fail_entry(ts, "missing ';' for entry '", key));
    }
    ts.advance();
    let path = joined(prefix, key);
    let ghost full = path@;
    if quoted {
        d.patterns.push(copy(&path));
        assert(texts(d.patterns@) =~= texts(old(d).patterns@).push(full));
    }
    put_value(&mut d.entries, path, v);
    proof {
        assert(d@.patterns == noted(old(d)@.patterns, quoted, full));
        assert(d@.table == put(old(d)@.table, full, v@));
    }
    Ok(true)
}

fn handle_directive(
    ts: &mut Tokenizer,
    key: &str,
    prefix: &str,
    d: &mut FoamDict,
    ctx: &Context,
) -> (r: Result<(), Halt>)
    requires
        old(ts).wf(),
        files_fit(*ctx.files),
        ctx.depth <= 32,
    ensures
        final(ts).wf(),
        final(ts)@ == old(ts)@.to(final(ts)@.pos),
        r is Ok ==> final(ts)@.pos >= old(ts)@.pos,
        meets(
            r,
            *final(d),
            final(ts)@,
            directive(
                ctx.files@,
                old(d)@,
                old(ts)@,
                key@,
                prefix@,
                ctx.dir@,
                ctx.depth as nat,
            ),
        ),
    decreases 40 - ctx.depth, old(ts)@.toks.len() - old(ts)@.pos, 0int,
{
    let ghost s = ts@;
    proof {
        ts.lemma_wf();
    }
    if same(key, "#include") || same(key, "#includeIfPresent") {
        let name = match ts.expect_word() {
            Ok(w) => w,
            Err(e) => {
                return Err(Halt::Fail(e));
            },
        };
        skip_semicolon(ts);
        let path: String;
        if is_absolute(&name) {
            path = name;
        } else {
            let mut p = copy(&ctx.dir);
            p.push('/');
            push_text(&mut p, &name);
            assert(p@ =~= ctx.dir@ + seq!['/'] + name@);
            path = p;
        }
        let text: Option<&String> = match listed_file(ctx.files, &path) {
            None => {
                if !ctx.files.complete {
                    return Err(Halt::Wants(path));
                }
                None
            },
            Some(f) => match &f.text {
                Some(t) => Some(t),
                None => None,
            },
        };
        match text {
            None => {
                if same(key, "#include") {
                    let msg = joined("#include cannot open ", &path);
                    return Err(Halt::Fail(parse_error(ts.path(), msg)));
                }
                return Ok(());
            },
            Some(src) => {
                if ctx.depth > MAX_INCLUDE_DEPTH {
                    let msg = joined("#include nested too deeply at ", &path);
                    return Err(Halt::Fail(parse_error(ts.path(), msg)));
                }
                match check_ascii_format(src, &path) {
                    Ok(_) => {},
                    Err(e) => {
                        return Err(Halt::Fail(e));
                    },
                }
                let mut sub = Tokenizer::new(src, &path);
                match sub.skip_header() {
                    Ok(_) => {},
                    Err(e) => {
                        return Err(Halt::Fail(e));
                    },
                }
                let inner = Context {
                    files: ctx.files,
                    dir: dir_name(&path),
                    depth: ctx.depth + 1,
                };
                match parse_body(&mut sub, prefix, d, false, &inner) {
                    Ok(_) => {},
                    Err(e) => {
                        return Err(e);
                    },
                }
                return match sub.check_scan_error() {
                    Ok(_) => Ok(()),
                    Err(e) => Err(Halt::Fail(e)),
                };
            },
        }
    }
    note_ignored(&mut d.notices, ts.path(), key);
    if has_prefix(key, "#include") {
        let skip: bool = match ts.peek_at(0) {
            Some(t) => !t.is_punct_any(),
            None => false,
        };
        if skip {
            ts.advance();
        }
        skip_semicolon(ts);
        return Ok(());
    }
    if !ts.done() && !ts.is_punct('}') {
        return match ts.skip_entry() {
            Ok(_) => {
                proof {
                    lemma_entry_end(s);
                }
                Ok(())
            },
            Err(e) => Err(Halt::Fail(e)),
        };
    }
    Ok(())
}

// --------------------------------------------------------------------------
//  Lookups
// --------------------------------------------------------------------------
/// The last word of a value that is a number.
pub open spec fn last_number(ws: Seq<Seq<char>>) -> Option<Scalar>
    decreases ws.len(),
{
    if ws.len() == 0 {
        None
    } else {
        match parsed(ws.last()) {
            Some(v) => Some(v),
            None => last_number(ws.drop_last()),
        }
    }
}

pub fn find_last_number(raw: &str) -> (r: Option<Scalar>)
    ensures
        r == last_number(words(raw@, 0)),
{
    let ws = split_words(raw);
    let ghost all = texts(ws@);
    let mut i: usize = ws.len();
    assert(all.take(i as int) =~= all);
    while i > 0
        invariant
            i <= ws.len(),
            all == texts(ws@),
            all == words(raw@, 0),
            last_number(all) == last_number(all.take(i as int)),
        decreases i,
    {
        assert(all.take(i as int).drop_last() =~= all.take(i - 1));
        assert(all.take(i as int).last() == ws@[i - 1]@);
        let parts = chars_of(&ws[i - 1]);
        match parse_chars(&parts) {
            Some(v) => {
                return Some(v);
            },
            None => {},
        }
        i = i - 1;
    }
    None
}

pub open spec fn lowered(s: Seq<char>) -> Seq<char> {
    s.map_values(|c: char| lower(c))
}

/// What a switch says: yes, no, or neither.
pub open spec fn switch(w: Seq<char>) -> Option<bool> {
    let l = lowered(w);
    if l == "yes"@ || l == "true"@ || l == "on"@ || l == "y"@ || l == "t"@ || l == "1"@ {
        Some(true)
    } else if l == "no"@ || l == "false"@ || l == "off"@ || l == "n"@ || l == "f"@ || l == "0"@ {
        Some(false)
    } else {
        None
    }
}

fn read_switch(w: &str) -> (r: Option<bool>)
    ensures
        r == switch(w@),
{
    let s = chars_of(w);
    let mut low: String = String::new();
    let mut i: usize = 0;
    while i < s.len()
        invariant
            i <= s.len(),
            s@ == w@,
            low@ =~= lowered(s@.take(i as int)),
        decreases s.len() - i,
    {
        low.push(lower_case(s[i]));
        i = i + 1;
    }
    assert(s@.take(i as int) =~= w@);
    if same(&low, "yes") || same(&low, "true") || same(&low, "on") || same(&low, "y") || same(
        &low,
        "t",
    ) || same(&low, "1") {
        Some(true)
    } else if same(&low, "no") || same(&low, "false") || same(&low, "off") || same(&low, "n")
        || same(&low, "f") || same(&low, "0") {
        Some(false)
    } else {
        None
    }
}

/// Is there an entry at or below a dictionary path?
pub open spec fn has_dict(t: Seq<Pair>, path: Seq<char>) -> bool {
    exists|i: int| 0 <= i < t.len() && starts_with((#[trigger] t[i]).0, slashed(path))
}

/// The pattern inside the quotes of a stored key.
pub open spec fn unquoted(seg: Seq<char>) -> Option<Seq<char>> {
    if seg.len() >= 2 && seg[0] == '"' && seg.last() == '"' {
        Some(seg.subrange(1, seg.len() - 1))
    } else {
        None
    }
}

/// The first pattern at the level `p`, in the order of the file, that matches.
pub open spec fn first_match(
    patterns: Seq<Seq<char>>,
    p: Seq<char>,
    name: Seq<char>,
    i: int,
) -> Result<Option<Seq<char>>, Failure>
    decreases patterns.len() - i,
{
    if i < 0 || i >= patterns.len() {
        Ok(None)
    } else {
        let seg = patterns[i].skip(p.len() as int);
        if !starts_with(patterns[i], p) || seg.contains('/') {
            first_match(patterns, p, name, i + 1)
        } else {
            match unquoted(seg) {
                None => first_match(patterns, p, name, i + 1),
                Some(text) => match compiled(text) {
                    Err(e) => Err(Failure::Config(e)),
                    Ok(re) => if derives(re, name, 0, name.len() as int) {
                        Ok(Some(seg))
                    } else {
                        first_match(patterns, p, name, i + 1)
                    },
                },
            }
        }
    }
}

/// The key inside `prefix` that governs a name.
pub open spec fn governing(st: Entries, prefix: Seq<char>, name: Seq<char>) -> Result<
    Option<Seq<char>>,
    Failure,
> {
    let p = slashed(prefix);
    if lookup(st.table, p + name) is Some || has_dict(st.table, p + name) {
        Ok(Some(name))
    } else {
        first_match(st.patterns, p, name, 0)
    }
}

/// The patterns written directly inside `p`, in the order of the file.
pub open spec fn patterns_at(patterns: Seq<Seq<char>>, p: Seq<char>, i: int) -> Seq<Seq<char>>
    decreases patterns.len() - i,
{
    if i < 0 || i >= patterns.len() {
        Seq::empty()
    } else {
        let seg = patterns[i].skip(p.len() as int);
        if starts_with(patterns[i], p) && !seg.contains('/') {
            seq![seg] + patterns_at(patterns, p, i + 1)
        } else {
            patterns_at(patterns, p, i + 1)
        }
    }
}

/// A text up to its first `/`.
pub open spec fn first_segment(s: Seq<char>, i: int) -> Seq<char>
    decreases s.len() - i,
{
    if i < 0 || i >= s.len() || s[i] == '/' {
        s.take(i)
    } else {
        first_segment(s, i + 1)
    }
}

/// The immediate sub-keys below `p`, each once, in the order of the table.
pub open spec fn children(t: Seq<Pair>, p: Seq<char>) -> Seq<Seq<char>>
    decreases t.len(),
{
    if t.len() == 0 {
        Seq::empty()
    } else {
        let r = children(t.drop_last(), p);
        let k = t.last().0;
        let seg = first_segment(k.skip(p.len() as int), 0);
        if starts_with(k, p) && seg.len() > 0 && !r.contains(seg) {
            r.push(seg)
        } else {
            r
        }
    }
}

fn segment(s: &Vec<char>, from: usize) -> (r: String)
    requires
        from <= s.len(),
    ensures
        r@ == first_segment(s@.skip(from as int), 0),
{
    let ghost t = s@.skip(from as int);
    let mut i: usize = from;
    while i < s.len() && s[i] != '/'
        invariant
            from <= i <= s.len(),
            t == s@.skip(from as int),
            first_segment(t, 0) == first_segment(t, i - from),
        decreases s.len() - i,
    {
        i = i + 1;
    }
    let r = string_between(s, from, i);
    assert(s@.subrange(from as int, i as int) =~= t.take(i - from));
    r
}

fn contains_text(v: &Vec<String>, w: &str) -> (r: bool)
    ensures
        r == texts(v@).contains(w@),
{
    let mut i: usize = 0;
    while i < v.len()
        invariant
            i <= v.len(),
            forall|k: int| 0 <= k < i ==> v@[k]@ != w@,
        decreases v.len() - i,
    {
        if same(&v[i], w) {
            assert(texts(v@)[i as int] == w@);
            return true;
        }
        i = i + 1;
    }
    proof {
        assert forall|k: int| 0 <= k < v.len() implies texts(v@)[k] != w@ by {}
    }
    false
}

/// What `parse_with` gives: the dictionary, or the path of a file whose text it
/// needs first.
#[derive(Debug)]
pub enum Progress {
    Done(FoamDict),
    Wants(String),
}

impl Default for FoamDict {
    /// A dictionary of no entries.
    fn default() -> (r: FoamDict)
        ensures
            r@.table == Seq::<Pair>::empty(),
            r@.patterns == Seq::<Seq<char>>::empty(),
            r@.notices == Seq::<Seq<char>>::empty(),
    {
        let r = FoamDict { entries: Vec::new(), patterns: Vec::new(), notices: Vec::new() };
        assert(r@.table =~= Seq::<Pair>::empty());
        assert(r@.patterns =~= Seq::<Seq<char>>::empty());
        assert(r@.notices =~= Seq::<Seq<char>>::empty());
        r
    }
}

impl FoamDict {
    /// Read a dictionary that stands alone: there is no file to read in place.
    ///
    /// `path` is used for error messages.
    pub fn parse(src: &str, path: &str) -> (r: Result<FoamDict, Error>)
        requires
            src@.len() < usize::MAX,
        ensures
            match (r, dictionary(alone(), src@, path@)) {
                (Ok(d), Ok(st)) => d@ == st && in_order(st.table),
                (Err(e), Err(Stop::Fail(f))) => e@ == f,
                _ => false,
            },
    {
        let n = Neighbours { files: Vec::new(), complete: true };
        proof {
            assert(n@.files =~= Seq::empty());
            lemma_alone_wants_nothing(src@, path@);
        }
        match FoamDict::parse_with(src, path, &n) {
            Ok(Progress::Done(d)) => Ok(d),
            Ok(Progress::Wants(_)) => Ok(FoamDict::default()),
            Err(e) => Err(e),
        }
    }

    /// Read a dictionary, given what is known of the files it may read in place.
    /// `path` is used for error messages, and to find such a file beside it.
    pub fn parse_with(src: &str, path: &str, files: &Neighbours) -> (r: Result<
        Progress,
        Error,
    >)
        requires
            src@.len() < usize::MAX,
            files_fit(*files),
        ensures
            match (r, dictionary(files@, src@, path@)) {
                (Ok(Progress::Done(d)), Ok(st)) => d@ == st && in_order(st.table),
                (Ok(Progress::Wants(p)), Err(Stop::Wants(q))) => p@ == q,
                (Err(e), Err(Stop::Fail(f))) => e@ == f,
                _ => false,
            },
    {
        match check_ascii_format(src, path) {
            Ok(_) => {},
            Err(e) => {
                return Err(e);
            },
        }
        let mut ts = Tokenizer::new(src, path);
        let ctx = Context { files, dir: dir_name(path), depth: 0 };
        let mut d = FoamDict { entries: Vec::new(), patterns: Vec::new(), notices: Vec::new() };
        proof {
            assert(d@.table =~= Seq::empty());
            assert(d@.patterns =~= Seq::empty());
            assert(d@.notices =~= Seq::empty());
            lemma_body_order(files@, d@, ts@, Seq::empty(), false, ctx.dir@, 0);
            reveal_strlit("");
            assert(""@ =~= Seq::empty());
        }
        let ghost fresh_ts = ts@;
        match parse_body(&mut ts, "", &mut d, false, &ctx) {
            Ok(_) => {},
            Err(Halt::Fail(e)) => {
                return Err(e);
            },
            Err(Halt::Wants(p)) => {
                return Ok(Progress::Wants(p));
            },
        }
        match ts.check_scan_error() {
            Ok(_) => {},
            Err(e) => {
                return Err(e);
            },
        }
        let binary: bool = match find_value(&d.entries, "FoamFile/format") {
            Some(v) => contains_part(v, "binary"),
            None => false,
        };
        if binary {
            return Err(binary_error(path));
        }
        Ok(Progress::Done(d))
    }

    pub fn has(&self, k: &str) -> (r: bool)
        ensures
            r == (lookup(self@.table, k@) is Some),
    {
        find_value(&self.entries, k).is_some()
    }

    pub fn get(&self, k: &str) -> (r: Option<&str>)
        ensures
            match (r, lookup(self@.table, k@)) {
                (Some(a), Some(b)) => a@ == b,
                (None, None) => true,
                _ => false,
            },
    {
        match find_value(&self.entries, k) {
            Some(v) => Some(v.as_str()),
            None => None,
        }
    }

    pub fn get_or<'a>(&'a self, k: &str, d: &'a str) -> (r: &'a str)
        ensures
            r@ == (match lookup(self@.table, k@) {
                Some(v) => v,
                None => d@,
            }),
    {
        match self.get(k) {
            Some(v) => v,
            None => d,
        }
    }

    /// The last number of an entry, as in `nu [0 2 -1 0 0 0 0] 1e-05`; `d` where
    /// there is none.
    pub fn scalar(&self, k: &str, d: Scalar) -> (r: Scalar)
        ensures
            r == (match lookup(self@.table, k@) {
                None => d,
                Some(raw) => match last_number(words(raw, 0)) {
                    Some(v) => v,
                    None => d,
                },
            }),
    {
        match find_value(&self.entries, k) {
            None => d,
            Some(raw) => match find_last_number(raw) {
                Some(v) => v,
                None => d,
            },
        }
    }

    /// The same number, with one half added and cut to an integer.
    pub fn label(&self, k: &str, d: i32) -> (r: i32)
        ensures
            r == (match lookup(self@.table, k@) {
                None => d as int,
                Some(raw) => match last_number(words(raw, 0)) {
                    Some(v) => crate::scalar::half_up(v),
                    None => d as int,
                },
            }),
    {
        match find_value(&self.entries, k) {
            None => d,
            Some(raw) => match find_last_number(raw) {
                Some(v) => v.rounded_half_up(),
                None => d,
            },
        }
    }

    /// A switch: `yes/true/on/y/t/1` against `no/false/off/n/f/0`.
    pub fn bool(&self, k: &str, d: bool) -> (r: bool)
        ensures
            r == (match lookup(self@.table, k@) {
                None => d,
                Some(raw) => {
                    let ws = words(raw, 0);
                    if ws.len() == 0 {
                        d
                    } else {
                        match switch(ws[0]) {
                            Some(b) => b,
                            None => d,
                        }
                    }
                },
            }),
    {
        match find_value(&self.entries, k) {
            None => d,
            Some(raw) => {
                let ws = split_words(raw);
                if ws.len() == 0 {
                    return d;
                }
                assert(texts(ws@)[0] == ws@[0]@);
                match read_switch(&ws[0]) {
                    Some(b) => b,
                    None => d,
                }
            },
        }
    }

    /// The key inside `prefix` that governs `name`: the exact one if the file
    /// wrote it, else the first quoted key, in the order of the file, whose
    /// expression matches. A pattern comes back with its quotes; a malformed one
    /// is an error.
    pub fn resolve(&self, prefix: &str, name: &str) -> (r: Result<Option<String>, Error>)
        requires
            name@.len() < usize::MAX,
        ensures
            match (r, governing(self@, prefix@, name@)) {
                (Ok(Some(a)), Ok(Some(b))) => a@ == b,
                (Ok(None), Ok(None)) => true,
                (Err(e), Err(f)) => e@ == f,
                _ => false,
            },
    {
        let p = with_slash(prefix);
        let full = joined(&p, name);
        if self.has(&full) || self.dict_exists(&full) {
            return Ok(Some(copy(name)));
        }
        let pc = chars_of(&p);
        let ghost pats = texts(self.patterns@);
        let mut i: usize = 0;
        while i < self.patterns.len()
            invariant
                i <= self.patterns.len(),
                pats == texts(self.patterns@),
                pc@ == p@,
                p@ == slashed(prefix@),
                name@.len() < usize::MAX,
                governing(self@, prefix@, name@) == first_match(pats, p@, name@, 0),
                first_match(pats, p@, name@, 0) == first_match(pats, p@, name@, i as int),
            decreases self.patterns.len() - i,
        {
            let path = chars_of(&self.patterns[i]);
            assert(pats[i as int] == path@);
            if prefix_chars(&path, &pc) {
                let seg = string_between(&path, pc.len(), path.len());
                assert(path@.subrange(pc.len() as int, path.len() as int) =~= path@.skip(
                    pc.len() as int,
                ));
                let sc = chars_of(&seg);
                if !has_char(&sc, '/') && sc.len() >= 2 && sc[0] == '"' && sc[sc.len() - 1] == '"' {
                    let text = string_between(&sc, 1, sc.len() - 1);
                    match Regex::new(&text) {
                        Err(e) => {
                            return Err(Error::Config(e));
                        },
                        Ok(re) => {
                            if re.is_match(name) {
                                return Ok(Some(seg));
                            }
                        },
                    }
                }
            }
            i = i + 1;
        }
        Ok(None)
    }

    /// Does `path` name a sub-dictionary, be it an empty one?
    pub fn dict_exists(&self, path: &str) -> (r: bool)
        ensures
            r == has_dict(self@.table, path@),
    {
        let p = with_slash(path);
        let mut i: usize = 0;
        while i < self.entries.len()
            invariant
                i <= self.entries.len(),
                p@ == slashed(path@),
                forall|k: int|
                    0 <= k < i ==> !starts_with((#[trigger] self@.table[k]).0, slashed(path@)),
            decreases self.entries.len() - i,
        {
            assert(self@.table[i as int].0 == self.entries@[i as int].0@);
            if has_prefix(&self.entries[i].0, &p) {
                return true;
            }
            i = i + 1;
        }
        false
    }

    /// Every pattern written directly inside `prefix`, in the order of the file,
    /// with its quotes.
    pub fn patterns_in(&self, prefix: &str) -> (r: Vec<String>)
        ensures
            texts(r@) == patterns_at(self@.patterns, slashed(prefix@), 0),
    {
        let p = with_slash(prefix);
        let pc = chars_of(&p);
        let ghost pats = texts(self.patterns@);
        let mut out: Vec<String> = Vec::new();
        let mut i: usize = 0;
        assert(texts(out@) + patterns_at(pats, p@, 0) =~= patterns_at(pats, p@, 0));
        while i < self.patterns.len()
            invariant
                i <= self.patterns.len(),
                pats == texts(self.patterns@),
                pc@ == p@,
                texts(out@) + patterns_at(pats, p@, i as int) == patterns_at(pats, p@, 0),
            decreases self.patterns.len() - i,
        {
            let path = chars_of(&self.patterns[i]);
            assert(pats[i as int] == path@);
            if prefix_chars(&path, &pc) {
                let seg = string_between(&path, pc.len(), path.len());
                assert(path@.subrange(pc.len() as int, path.len() as int) =~= path@.skip(
                    pc.len() as int,
                ));
                let sc = chars_of(&seg);
                if !has_char(&sc, '/') {
                    proof {
                        lemma_texts_push(out@, seg);
                        lemma_push_join(texts(out@), seg@, patterns_at(pats, p@, i + 1));
                    }
                    out.push(seg);
                }
            }
            i = i + 1;
        }
        assert(texts(out@) + patterns_at(pats, p@, i as int) =~= texts(out@));
        out
    }

    /// The immediate sub-keys of a dictionary path, in the order of the keys;
    /// `sub_keys("")` lists the top level.
    pub fn sub_keys(&self, prefix: &str) -> (r: Vec<String>)
        ensures
            texts(r@) == children(self@.table, slashed(prefix@)),
    {
        let p = with_slash(prefix);
        let pc = chars_of(&p);
        let ghost t = self@.table;
        let mut out: Vec<String> = Vec::new();
        let mut i: usize = 0;
        assert(texts(out@) =~= children(t.take(0), p@));
        while i < self.entries.len()
            invariant
                i <= self.entries.len(),
                t == self@.table,
                pc@ == p@,
                texts(out@) == children(t.take(i as int), p@),
            decreases self.entries.len() - i,
        {
            let k = chars_of(&self.entries[i].0);
            proof {
                assert(t.take(i + 1).drop_last() =~= t.take(i as int));
                assert(t.take(i + 1).last() == (self.entries@[i as int].0@, self.entries@[i as int].1@));
            }
            if prefix_chars(&k, &pc) {
                let seg = segment(&k, pc.len());
                if !seg.as_str().is_empty() && !contains_text(&out, &seg) {
                    proof {
                        lemma_texts_push(out@, seg);
                    }
                    out.push(seg);
                }
            }
            i = i + 1;
        }
        assert(t.take(i as int) =~= t);
        out
    }
}

fn contains_part(v: &str, w: &str) -> (r: bool)
    ensures
        r == (find(v@, w@, 0) is Some),
{
    let s = chars_of(v);
    assert(s@.take(s.len() as int) =~= v@);
    crate::tokenizer::find_text(&s, w, 0, s.len()).is_some()
}

// --------------------------------------------------------------------------
//  Laws
// --------------------------------------------------------------------------
proof fn lemma_missing_order(t: Seq<Pair>, add: Seq<Pair>)
    requires
        in_order(t),
    ensures
        in_order(with_missing(t, add)),
    decreases add.len(),
{
    if add.len() > 0 {
        lemma_missing_order(t, add.drop_last());
        put_keeps_order(with_missing(t, add.drop_last()), add.last().0, add.last().1);
    }
}

proof fn lemma_merged_order(t: Seq<Pair>, prefix: Seq<char>, scope: Seq<char>, name: Seq<char>)
    requires
        in_order(t),
    ensures
        in_order(merged(t, prefix, scope, name)),
    decreases scope.len(),
{
    let add = copied(t, scope + name + seq!['/'], prefix, 0);
    lemma_missing_order(t, add);
    if add.len() == 0 {
        match lookup(t, scope + name) {
            Some(v) => {
                put_keeps_order(t, prefix + name, v);
            },
            None => {
                if scope.len() > 0 && outer(scope).len() < scope.len() {
                    lemma_merged_order(t, prefix, outer(scope), name);
                }
            },
        }
    }
}

/// Reading keeps the entries in the order of their keys, each key once.
pub proof fn lemma_body_order(
    files: Around,
    st: Entries,
    s: Stream,
    prefix: Seq<char>,
    in_block: bool,
    dir: Seq<char>,
    depth: nat,
)
    requires
        in_order(st.table),
    ensures
        body(files, st, s, prefix, in_block, dir, depth) matches Ok((st2, _)) ==> in_order(
            st2.table,
        ),
        files.complete ==> !(body(files, st, s, prefix, in_block, dir, depth) matches Err(
            Stop::Wants(_),
        )),
    decreases 40 - depth, s.toks.len() - s.pos, 2int,
{
    lemma_step_order(files, st, s, prefix, in_block, dir, depth);
    match step(files, st, s, prefix, in_block, dir, depth) {
        Step::More(st2, p) => {
            if s.pos < p <= s.toks.len() {
                lemma_body_order(files, st2, s.to(p), prefix, in_block, dir, depth);
            }
        },
        Step::Done(_) => {},
    }
}

proof fn lemma_step_order(
    files: Around,
    st: Entries,
    s: Stream,
    prefix: Seq<char>,
    in_block: bool,
    dir: Seq<char>,
    depth: nat,
)
    requires
        in_order(st.table),
    ensures
        match step(files, st, s, prefix, in_block, dir, depth) {
            Step::Done(Ok((st2, _))) => in_order(st2.table),
            Step::More(st2, _) => in_order(st2.table),
            Step::Done(Err(Stop::Wants(_))) => !files.complete,
            _ => true,
        },
    decreases 40 - depth, s.toks.len() - s.pos, 1int,
{
    if 0 <= s.pos && !s.done() {
        let tok = s.toks[s.pos];
        let key = stored_key(tok);
        let s1 = s.to(s.pos + 1);
        if !(tok is Punct) {
            if key.len() > 0 && key[0] == '#' {
                lemma_directive_order(files, st, s1, key, prefix, dir, depth);
            } else if key.len() > 1 && key[0] == '$' {
                lemma_merged_order(st.table, prefix, prefix, key.skip(1));
            } else if s1.is_punct('{') {
                let s2 = s.to(s.pos + 2);
                let st1 = Entries {
                    patterns: noted(st.patterns, tok is Str, prefix + key),
                    ..st
                };
                let sub = prefix + key + seq!['/'];
                lemma_body_order(files, st1, s2, sub, true, dir, depth);
                match body(files, st1, s2, sub, true, dir, depth) {
                    Ok((st2, _)) => {
                        put_keeps_order(st2.table, sub, Seq::empty());
                    },
                    Err(_) => {},
                }
            } else {
                let e = entry_stop(s1.toks, s1.pos);
                let v = value_of(st.table, prefix, s1.toks.subrange(s1.pos, e));
                put_keeps_order(st.table, prefix + key, v);
            }
        }
    }
}

proof fn lemma_directive_order(
    files: Around,
    st: Entries,
    s: Stream,
    key: Seq<char>,
    prefix: Seq<char>,
    dir: Seq<char>,
    depth: nat,
)
    requires
        in_order(st.table),
    ensures
        directive(files, st, s, key, prefix, dir, depth) matches Ok((st2, _)) ==> in_order(
            st2.table,
        ),
        files.complete ==> !(directive(files, st, s, key, prefix, dir, depth) matches Err(
            Stop::Wants(_),
        )),
    decreases 40 - depth, s.toks.len() - s.pos, 0int,
{
    if key == "#include"@ || key == "#includeIfPresent"@ {
        match s.ahead(0) {
            Some(tok) => {
                let path = beside(dir, tok.text());
                match known(files, path) {
                    Some(Some(src)) => {
                        if depth <= MAX_INCLUDE_DEPTH {
                            let sub = fresh(src, path);
                            match header_end(sub) {
                                Ok(h) => {
                                    lemma_body_order(
                                        files,
                                        st,
                                        sub.to(h),
                                        prefix,
                                        false,
                                        directory(path),
                                        depth + 1,
                                    );
                                },
                                Err(_) => {},
                            }
                        }
                    },
                    _ => {},
                }
            },
            None => {},
        }
    }
}

proof fn lemma_alone_wants_nothing(src: Seq<char>, path: Seq<char>)
    ensures
        !(dictionary(alone(), src, path) matches Err(Stop::Wants(_))),
{
    let st = no_entries();
    lemma_body_order(alone(), st, fresh(src, path), Seq::empty(), false, directory(path), 0);
}

/// A key that the file wrote governs its name, whatever patterns match it.
pub proof fn exact_key_wins(st: Entries, prefix: Seq<char>, name: Seq<char>)
    requires
        lookup(st.table, slashed(prefix) + name) is Some || has_dict(
            st.table,
            slashed(prefix) + name,
        ),
    ensures
        governing(st, prefix, name) == Ok::<Option<Seq<char>>, Failure>(Some(name)),
{
}

proof fn lemma_missing_keeps(t: Seq<Pair>, add: Seq<Pair>, k: Seq<char>)
    requires
        in_order(t),
        lookup(t, k) is Some,
    ensures
        lookup(with_missing(t, add), k) == lookup(t, k),
    decreases add.len(),
{
    if add.len() > 0 {
        let w = with_missing(t, add.drop_last());
        lemma_missing_order(t, add.drop_last());
        lemma_missing_keeps(t, add.drop_last(), k);
        lookup_after_put(w, add.last().0, add.last().1, k);
    }
}

/// `$name;` fills in what is missing and overwrites nothing.
pub proof fn merge_keeps_entries(
    t: Seq<Pair>,
    prefix: Seq<char>,
    scope: Seq<char>,
    name: Seq<char>,
    k: Seq<char>,
)
    requires
        in_order(t),
        lookup(t, k) is Some,
    ensures
        lookup(merged(t, prefix, scope, name), k) == lookup(t, k),
    decreases scope.len(),
{
    let add = copied(t, scope + name + seq!['/'], prefix, 0);
    lemma_missing_keeps(t, add, k);
    if add.len() == 0 {
        match lookup(t, scope + name) {
            Some(v) => {
                lookup_after_put(t, prefix + name, v, k);
            },
            None => {
                if scope.len() > 0 && outer(scope).len() < scope.len() {
                    merge_keeps_entries(t, prefix, outer(scope), name, k);
                }
            },
        }
    }
}

/// Does the last key of a path begin at `n`, in quotes?
pub open spec fn quoted_from(path: Seq<char>, n: int) -> bool {
    &&& 0 <= n <= path.len()
    &&& n == 0 || path[n - 1] == '/'
    &&& unquoted(path.skip(n)) is Some
}

/// Is a path that of a key in quotes?
pub open spec fn is_pattern_path(path: Seq<char>) -> bool {
    exists|n: int| #[trigger] quoted_from(path, n)
}

/// Is every pattern that a dictionary holds the path of a key in quotes?
pub open spec fn patterns_are_quoted(patterns: Seq<Seq<char>>) -> bool {
    forall|i: int| 0 <= i < patterns.len() ==> is_pattern_path(#[trigger] patterns[i])
}

/// Is a prefix one that a key follows: nothing, or what ends in a slash?
pub open spec fn is_level(prefix: Seq<char>) -> bool {
    prefix.len() == 0 || prefix.last() == '/'
}

proof fn lemma_noted_quoted(p: Seq<Seq<char>>, tok: Token, prefix: Seq<char>)
    requires
        patterns_are_quoted(p),
        is_level(prefix),
    ensures
        patterns_are_quoted(noted(p, tok is Str, prefix + stored_key(tok))),
{
    if tok is Str {
        let k = stored_key(tok);
        let path = prefix + k;
        assert(path.skip(prefix.len() as int) =~= k);
        assert(quoted_from(path, prefix.len() as int));
        let r = p.push(path);
        assert forall|i: int| 0 <= i < r.len() implies is_pattern_path(#[trigger] r[i]) by {
            if i < p.len() {
                assert(is_pattern_path(p[i]));
            }
        }
    }
}

/// Reading a file stores no pattern but keys in quotes.
proof fn lemma_body_quoted(
    files: Around,
    st: Entries,
    s: Stream,
    prefix: Seq<char>,
    in_block: bool,
    dir: Seq<char>,
    depth: nat,
)
    requires
        patterns_are_quoted(st.patterns),
        is_level(prefix),
    ensures
        body(files, st, s, prefix, in_block, dir, depth) matches Ok((st2, _))
            ==> patterns_are_quoted(st2.patterns),
    decreases 40 - depth, s.toks.len() - s.pos, 2int,
{
    lemma_step_quoted(files, st, s, prefix, in_block, dir, depth);
    match step(files, st, s, prefix, in_block, dir, depth) {
        Step::More(st2, p) => {
            if s.pos < p <= s.toks.len() {
                lemma_body_quoted(files, st2, s.to(p), prefix, in_block, dir, depth);
            }
        },
        Step::Done(_) => {},
    }
}

proof fn lemma_step_quoted(
    files: Around,
    st: Entries,
    s: Stream,
    prefix: Seq<char>,
    in_block: bool,
    dir: Seq<char>,
    depth: nat,
)
    requires
        patterns_are_quoted(st.patterns),
        is_level(prefix),
    ensures
        match step(files, st, s, prefix, in_block, dir, depth) {
            Step::Done(Ok((st2, _))) => patterns_are_quoted(st2.patterns),
            Step::More(st2, _) => patterns_are_quoted(st2.patterns),
            _ => true,
        },
    decreases 40 - depth, s.toks.len() - s.pos, 1int,
{
    if 0 <= s.pos && !s.done() {
        let tok = s.toks[s.pos];
        let key = stored_key(tok);
        let s1 = s.to(s.pos + 1);
        lemma_noted_quoted(st.patterns, tok, prefix);
        if !(tok is Punct) {
            if key.len() > 0 && key[0] == '#' {
                lemma_directive_quoted(files, st, s1, key, prefix, dir, depth);
            } else if !(key.len() > 1 && key[0] == '$') && s1.is_punct('{') {
                let s2 = s.to(s.pos + 2);
                let st1 = Entries {
                    patterns: noted(st.patterns, tok is Str, prefix + key),
                    ..st
                };
                lemma_body_quoted(
                    files,
                    st1,
                    s2,
                    prefix + key + seq!['/'],
                    true,
                    dir,
                    depth,
                );
            }
        }
    }
}

proof fn lemma_directive_quoted(
    files: Around,
    st: Entries,
    s: Stream,
    key: Seq<char>,
    prefix: Seq<char>,
    dir: Seq<char>,
    depth: nat,
)
    requires
        patterns_are_quoted(st.patterns),
        is_level(prefix),
    ensures
        directive(files, st, s, key, prefix, dir, depth) matches Ok((st2, _))
            ==> patterns_are_quoted(st2.patterns),
    decreases 40 - depth, s.toks.len() - s.pos, 0int,
{
    if key == "#include"@ || key == "#includeIfPresent"@ {
        match s.ahead(0) {
            Some(tok) => {
                let path = beside(dir, tok.text());
                match known(files, path) {
                    Some(Some(src)) => {
                        if depth <= MAX_INCLUDE_DEPTH {
                            let sub = fresh(src, path);
                            match header_end(sub) {
                                Ok(h) => {
                                    lemma_body_quoted(
                                        files,
                                        st,
                                        sub.to(h),
                                        prefix,
                                        false,
                                        directory(path),
                                        depth + 1,
                                    );
                                },
                                Err(_) => {},
                            }
                        }
                    },
                    _ => {},
                }
            },
            None => {},
        }
    }
}

/// Every pattern that reading a dictionary stores is the path of a key in quotes.
pub proof fn stored_patterns_are_quoted(files: Around, src: Seq<char>, path: Seq<char>)
    ensures
        dictionary(files, src, path) matches Ok(st) ==> patterns_are_quoted(st.patterns),
{
    lemma_body_quoted(
        files,
        no_entries(),
        fresh(src, path),
        Seq::empty(),
        false,
        directory(path),
        0,
    );
}

/// What [`FoamDict::patterns_in`] lists are keys of the file behind the prefix, in the
/// order of the file: the result tells where each of them stands.
pub proof fn listed_patterns_keep_the_order(patterns: Seq<Seq<char>>, p: Seq<char>, i: int) -> (ix:
    Seq<int>)
    requires
        0 <= i <= patterns.len(),
    ensures
        ix.len() == patterns_at(patterns, p, i).len(),
        forall|j: int|
            0 <= j < ix.len() ==> {
                &&& i <= #[trigger] ix[j] < patterns.len()
                &&& starts_with(patterns[ix[j]], p)
                &&& patterns_at(patterns, p, i)[j] == patterns[ix[j]].skip(p.len() as int)
                &&& !patterns_at(patterns, p, i)[j].contains('/')
            },
        forall|j: int, k: int| 0 <= j < k < ix.len() ==> #[trigger] ix[j] < #[trigger] ix[k],
    decreases patterns.len() - i,
{
    if i >= patterns.len() {
        Seq::empty()
    } else {
        let rest = listed_patterns_keep_the_order(patterns, p, i + 1);
        let seg = patterns[i].skip(p.len() as int);
        if !starts_with(patterns[i], p) || seg.contains('/') {
            rest
        } else {
            let ix = seq![i] + rest;
            let out = patterns_at(patterns, p, i);
            let tail = patterns_at(patterns, p, i + 1);
            assert(out == seq![seg] + tail);
            assert forall|j: int| 0 <= j < ix.len() implies {
                &&& i <= #[trigger] ix[j] < patterns.len()
                &&& starts_with(patterns[ix[j]], p)
                &&& out[j] == patterns[ix[j]].skip(p.len() as int)
                &&& !out[j].contains('/')
            } by {
                if j > 0 {
                    assert(ix[j] == rest[j - 1]);
                    assert(out[j] == tail[j - 1]);
                }
            }
            assert forall|j: int, k: int| 0 <= j < k < ix.len() implies #[trigger] ix[j]
                < #[trigger] ix[k] by {
                assert(ix[k] == rest[k - 1]);
                if j > 0 {
                    assert(ix[j] == rest[j - 1]);
                }
            }
            ix
        }
    }
}

/// What [`FoamDict::patterns_in`] lists stands in quotes and holds no slash, where
/// the prefix ends in front of the key of every pattern that it begins and not
/// inside of one.
pub proof fn listed_patterns_are_quoted(patterns: Seq<Seq<char>>, p: Seq<char>, j: int)
    requires
        0 <= j < patterns_at(patterns, p, 0).len(),
        forall|i: int|
            0 <= i < patterns.len() && starts_with(#[trigger] patterns[i], p) ==> exists|n: int|
                n >= p.len() && #[trigger] quoted_from(patterns[i], n),
    ensures
        unquoted(patterns_at(patterns, p, 0)[j]) is Some,
        !patterns_at(patterns, p, 0)[j].contains('/'),
{
    let ix = listed_patterns_keep_the_order(patterns, p, 0);
    let path = patterns[ix[j]];
    let n = choose|n: int| n >= p.len() && #[trigger] quoted_from(path, n);
    let seg = path.skip(p.len() as int);
    if n > p.len() {
        assert(seg[n - 1 - p.len()] == '/');
        assert(seg.contains('/'));
    }
}

/// A name that a pattern governs is governed by one that [`FoamDict::patterns_in`]
/// lists.
pub proof fn governing_patterns_are_listed(st: Entries, prefix: Seq<char>, name: Seq<char>)
    ensures
        governing(st, prefix, name) matches Ok(Some(k)) ==> k == name || patterns_at(
            st.patterns,
            slashed(prefix),
            0,
        ).contains(k),
{
    lemma_match_is_listed(st.patterns, slashed(prefix), name, 0);
}

proof fn lemma_match_is_listed(patterns: Seq<Seq<char>>, p: Seq<char>, name: Seq<char>, i: int)
    requires
        0 <= i <= patterns.len(),
    ensures
        first_match(patterns, p, name, i) matches Ok(Some(k)) ==> patterns_at(
            patterns,
            p,
            i,
        ).contains(k),
    decreases patterns.len() - i,
{
    if i < patterns.len() {
        lemma_match_is_listed(patterns, p, name, i + 1);
        let seg = patterns[i].skip(p.len() as int);
        let tail = patterns_at(patterns, p, i + 1);
        let out = patterns_at(patterns, p, i);
        if starts_with(patterns[i], p) && !seg.contains('/') {
            assert(out[0] == seg);
            match first_match(patterns, p, name, i) {
                Ok(Some(k)) => {
                    if tail.contains(k) {
                        let j = choose|j: int| 0 <= j < tail.len() && tail[j] == k;
                        assert(out[j + 1] == k);
                    }
                },
                _ => {},
            }
        }
    }
}

} // verus!
