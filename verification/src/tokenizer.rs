//! The tokeniser for dictionary files.
//!
//! Three of its rules look wrong until one meets real case files:
//!
//! * comment stripping knows quotes, because a header carries
//!   `location "constant/polyMesh"` and that `/` starts no comment;
//! * a word swallows balanced parentheses, so `div(phi,U)` and `grad(U)` arrive
//!   as single keywords;
//! * a token that starts with a digit is a number, so the compact face form
//!   `4(156 0 78 235)` still splits into `4` `(` `156` ... `)`.

use vstd::prelude::*;

use crate::digits::{show, shown};
use crate::error::{parse_error, Error, Failure};
use crate::numeral::{parse_chars, parsed};
use crate::scalar::Scalar;
use crate::text::{
    chars_of, copy, decimal, digit, digit_run, is_digit, is_letter, is_space, lemma_digit_run,
    letter, push_decimal, push_text, same, skip_digits, space, string_between,
};

verus! {

/// One lexical token. A quoted string keeps its contents without the quotes,
/// and a number its value.
#[derive(Debug, Clone, PartialEq)]
pub enum Tok {
    Word(String),
    Str(String),
    Num(Scalar),
    Punct(char),
}

/// The contents of a [`Tok`].
pub enum Token {
    Word(Seq<char>),
    Str(Seq<char>),
    Num(Scalar),
    Punct(char),
}

impl View for Tok {
    type V = Token;

    open spec fn view(&self) -> Token {
        match *self {
            Tok::Word(s) => Token::Word(s@),
            Tok::Str(s) => Token::Str(s@),
            Tok::Num(v) => Token::Num(v),
            Tok::Punct(c) => Token::Punct(c),
        }
    }
}

impl Token {
    /// The token as text: a string without its quotes, a number in the shortest
    /// form that reads back.
    pub open spec fn text(self) -> Seq<char> {
        match self {
            Token::Word(s) => s,
            Token::Str(s) => s,
            Token::Num(v) => shown(v),
            Token::Punct(c) => seq![c],
        }
    }
}

impl Tok {
    /// Is this one of `; { } ( ) [ ]`?
    pub fn is_punct_any(&self) -> (r: bool)
        ensures
            r == (self@ is Punct),
    {
        match self {
            Tok::Punct(_) => true,
            _ => false,
        }
    }

    pub fn is_punct(&self, c: char) -> (r: bool)
        ensures
            r == (self@ == Token::Punct(c)),
    {
        match self {
            Tok::Punct(p) => *p == c,
            _ => false,
        }
    }

    pub fn is_word(&self, w: &str) -> (r: bool)
        ensures
            r == (self@ == Token::Word(w@)),
    {
        match self {
            Tok::Word(s) => same(s, w),
            _ => false,
        }
    }

    /// The token as text.
    pub fn text(&self) -> (r: String)
        ensures
            r@ == self@.text(),
    {
        match self {
            Tok::Word(s) => copy(s),
            Tok::Str(s) => copy(s),
            Tok::Num(v) => show(*v),
            Tok::Punct(c) => {
                let mut s = String::new();
                s.push(*c);
                assert(s@ =~= seq![*c]);
                s
            },
        }
    }

    /// A copy of the token.
    pub fn copy(&self) -> (r: Tok)
        ensures
            r@ == self@,
    {
        match self {
            Tok::Word(s) => Tok::Word(copy(s)),
            Tok::Str(s) => Tok::Str(copy(s)),
            Tok::Num(v) => Tok::Num(*v),
            Tok::Punct(c) => Tok::Punct(*c),
        }
    }
}

// --------------------------------------------------------------------------
//  Comments
// --------------------------------------------------------------------------
/// Behind the quote that closes a string whose contents start at `i`, or the
/// end; a backslash takes the next character along.
pub open spec fn quote_end(s: Seq<char>, i: int, q: char) -> int
    decreases s.len() - i,
{
    if i >= s.len() {
        s.len() as int
    } else if s[i] == q {
        i + 1
    } else if s[i] == '\\' && i + 1 < s.len() {
        quote_end(s, i + 2, q)
    } else {
        quote_end(s, i + 1, q)
    }
}

/// The line break at or behind `i`, or the end.
pub open spec fn line_end(s: Seq<char>, i: int) -> int
    decreases s.len() - i,
{
    if i >= s.len() {
        s.len() as int
    } else if s[i] == '\n' {
        i
    } else {
        line_end(s, i + 1)
    }
}

/// Behind the `*/` at or behind `i`, or the end.
pub open spec fn block_end(s: Seq<char>, i: int) -> int
    decreases s.len() - i,
{
    if i + 1 >= s.len() {
        s.len() as int
    } else if s[i] == '*' && s[i + 1] == '/' {
        i + 2
    } else {
        block_end(s, i + 1)
    }
}

/// Spaces in place of everything but line breaks.
pub open spec fn blanked(s: Seq<char>) -> Seq<char> {
    s.map_values(|c: char| if c == '\n' { c } else { ' ' })
}

/// The rest of a text from `i` on, comments blanked.
pub open spec fn uncommented(s: Seq<char>, i: int) -> Seq<char>
    decreases s.len() - i,
{
    if i >= s.len() {
        Seq::empty()
    } else {
        let e = chunk_end(s, i);
        let part = s.subrange(i, e);
        if i < e <= s.len() {
            (if opens_comment(s, i) { blanked(part) } else { part }) + uncommented(s, e)
        } else {
            Seq::empty()
        }
    }
}

pub open spec fn opens_comment(s: Seq<char>, i: int) -> bool {
    s[i] == '/' && i + 1 < s.len() && (s[i + 1] == '/' || s[i + 1] == '*')
}

/// The end of the quoted string, the comment or the single character at `i`.
pub open spec fn chunk_end(s: Seq<char>, i: int) -> int {
    if s[i] == '"' || s[i] == '\'' {
        quote_end(s, i + 1, s[i])
    } else if s[i] == '/' && i + 1 < s.len() && s[i + 1] == '/' {
        line_end(s, i)
    } else if s[i] == '/' && i + 1 < s.len() && s[i + 1] == '*' {
        block_end(s, i + 2)
    } else {
        i + 1
    }
}

fn find_quote_end(s: &Vec<char>, i: usize, q: char) -> (r: usize)
    requires
        i <= s.len(),
    ensures
        r == quote_end(s@, i as int, q),
        i <= r <= s.len(),
{
    let mut j: usize = i;
    while j < s.len() && s[j] != q
        invariant
            i <= j <= s.len(),
            quote_end(s@, i as int, q) == quote_end(s@, j as int, q),
        decreases s.len() - j,
    {
        if s[j] == '\\' && j + 1 < s.len() {
            j = j + 1;
        }
        j = j + 1;
    }
    if j < s.len() {
        j = j + 1;
    }
    j
}

fn find_line_end(s: &Vec<char>, i: usize) -> (r: usize)
    requires
        i <= s.len(),
    ensures
        r == line_end(s@, i as int),
        i <= r <= s.len(),
{
    let mut j: usize = i;
    while j < s.len() && s[j] != '\n'
        invariant
            i <= j <= s.len(),
            line_end(s@, i as int) == line_end(s@, j as int),
        decreases s.len() - j,
    {
        j = j + 1;
    }
    j
}

fn find_block_end(s: &Vec<char>, i: usize) -> (r: usize)
    requires
        i <= s.len(),
    ensures
        r == block_end(s@, i as int),
        i <= r <= s.len(),
{
    let mut j: usize = i;
    while j < s.len() && j + 1 < s.len() && !(s[j] == '*' && s[j + 1] == '/')
        invariant
            i <= j <= s.len(),
            block_end(s@, i as int) == block_end(s@, j as int),
        decreases s.len() - j,
    {
        j = j + 1;
    }
    if j < s.len() && j + 1 < s.len() {
        j + 2
    } else {
        s.len()
    }
}

/// Blank out `//` and `/* */` comments, keeping every line break.
pub fn strip_comments(s: &Vec<char>) -> (r: Vec<char>)
    ensures
        r@ == uncommented(s@, 0),
{
    let n: usize = s.len();
    let mut out: Vec<char> = Vec::new();
    let mut i: usize = 0;
    assert(Seq::<char>::empty() + uncommented(s@, 0) =~= uncommented(s@, 0));
    while i < n
        invariant
            i <= n,
            n == s.len(),
            out@ + uncommented(s@, i as int) == uncommented(s@, 0),
        decreases n - i,
    {
        let c: char = s[i];
        let mut comment: bool = false;
        let e: usize;
        if c == '"' || c == '\'' {
            e = find_quote_end(s, i + 1, c);
        } else if c == '/' && i + 1 < n && s[i + 1] == '/' {
            comment = true;
            e = find_line_end(s, i);
            assert(line_end(s@, i as int) == line_end(s@, i + 1));
        } else if c == '/' && i + 1 < n && s[i + 1] == '*' {
            comment = true;
            e = find_block_end(s, i + 2);
        } else {
            e = i + 1;
        }
        assert(e == chunk_end(s@, i as int));
        proof {
            if comment && s[i + 1] == '/' {
                lemma_line_end(s@, i + 1);
            }
        }
        let ghost start = out@;
        let ghost part = s@.subrange(i as int, e as int);
        let ghost piece = if comment { blanked(part) } else { part };
        let mut j: usize = i;
        while j < e
            invariant
                i <= j <= e <= n,
                n == s.len(),
                part == s@.subrange(i as int, e as int),
                piece == (if comment { blanked(part) } else { part }),
                out@ =~= start + piece.take(j - i),
            decreases e - j,
        {
            let d: char = s[j];
            if comment && d != '\n' {
                out.push(' ');
            } else {
                out.push(d);
            }
            j = j + 1;
        }
        assert(piece.take(e - i) =~= piece);
        assert(out@ + uncommented(s@, e as int) =~= start + (piece + uncommented(s@, e as int)));
        i = e;
    }
    assert(out@ + uncommented(s@, n as int) =~= out@);
    out
}

proof fn lemma_line_end(s: Seq<char>, i: int)
    requires
        0 <= i <= s.len(),
    ensures
        i <= line_end(s, i) <= s.len(),
    decreases s.len() - i,
{
    if i < s.len() && s[i] != '\n' {
        lemma_line_end(s, i + 1);
    }
}

proof fn lemma_chunk(s: Seq<char>, i: int)
    requires
        0 <= i < s.len(),
    ensures
        i < chunk_end(s, i) <= s.len(),
        opens_comment(s, i) && s[i + 1] == '/' ==> forall|k: int|
            i <= k < chunk_end(s, i) ==> s[k] != '\n',
{
    if s[i] == '"' || s[i] == '\'' {
        lemma_quote_end(s, i + 1, s[i]);
    } else if s[i] == '/' && i + 1 < s.len() && s[i + 1] == '/' {
        lemma_line_free(s, i);
        assert(line_end(s, i) == line_end(s, i + 1));
        lemma_line_end(s, i + 1);
    } else if s[i] == '/' && i + 1 < s.len() && s[i + 1] == '*' {
        lemma_block_end(s, i + 2);
    }
}

proof fn lemma_line_free(s: Seq<char>, i: int)
    requires
        0 <= i <= s.len(),
    ensures
        forall|k: int| i <= k < line_end(s, i) ==> s[k] != '\n',
    decreases s.len() - i,
{
    if i < s.len() && s[i] != '\n' {
        lemma_line_free(s, i + 1);
    }
}

proof fn lemma_quote_end(s: Seq<char>, i: int, q: char)
    requires
        0 <= i <= s.len(),
    ensures
        i <= quote_end(s, i, q) <= s.len(),
    decreases s.len() - i,
{
    if i < s.len() && s[i] != q {
        if s[i] == '\\' && i + 1 < s.len() {
            lemma_quote_end(s, i + 2, q);
        } else {
            lemma_quote_end(s, i + 1, q);
        }
    }
}

proof fn lemma_block_end(s: Seq<char>, i: int)
    requires
        0 <= i <= s.len(),
    ensures
        i <= block_end(s, i) <= s.len(),
    decreases s.len() - i,
{
    if i + 1 < s.len() && !(s[i] == '*' && s[i + 1] == '/') {
        lemma_block_end(s, i + 1);
    }
}

/// Stripping comments keeps the length, every line break where it was, and
/// changes a character at most into a space; so line numbers stay honest.
pub proof fn stripping_keeps_lines(s: Seq<char>)
    ensures
        uncommented(s, 0).len() == s.len(),
        forall|k: int| 0 <= k < s.len() ==> {
            ||| uncommented(s, 0)[k] == s[k]
            ||| uncommented(s, 0)[k] == ' ' && s[k] != '\n'
        },
{
    lemma_uncommented(s, 0);
}

proof fn lemma_uncommented(s: Seq<char>, i: int)
    requires
        0 <= i <= s.len(),
    ensures
        uncommented(s, i).len() == s.len() - i,
        forall|k: int| 0 <= k < s.len() - i ==> {
            ||| #[trigger] uncommented(s, i)[k] == s[i + k]
            ||| uncommented(s, i)[k] == ' ' && s[i + k] != '\n'
        },
    decreases s.len() - i,
{
    if i < s.len() {
        lemma_chunk(s, i);
        let e = chunk_end(s, i);
        lemma_uncommented(s, e);
        let part = s.subrange(i, e);
        let piece = if opens_comment(s, i) { blanked(part) } else { part };
        let rest = uncommented(s, e);
        assert(uncommented(s, i) == piece + rest);
        assert forall|k: int| 0 <= k < s.len() - i implies {
            ||| #[trigger] uncommented(s, i)[k] == s[i + k]
            ||| uncommented(s, i)[k] == ' ' && s[i + k] != '\n'
        } by {
            if k < e - i {
                assert(part[k] == s[i + k]);
            } else {
                assert((piece + rest)[k] == rest[k - (e - i)]);
                assert(s[e + (k - (e - i))] == s[i + k]);
            }
        }
    }
}

/// Stripping comments a second time changes nothing.
pub proof fn stripping_twice_is_stripping_once(s: Seq<char>)
    ensures
        uncommented(uncommented(s, 0), 0) == uncommented(s, 0),
{
    let t = uncommented(s, 0);
    lemma_uncommented(s, 0);
    assert(t.skip(0) =~= t);
    lemma_stripped(s, t, 0);
}

proof fn lemma_stripped(s: Seq<char>, t: Seq<char>, i: int)
    requires
        0 <= i <= s.len() == t.len(),
        t.skip(i) == uncommented(s, i),
    ensures
        uncommented(t, i) == t.skip(i),
    decreases s.len() - i,
{
    lemma_uncommented(s, i);
    if i < s.len() {
        lemma_chunk(s, i);
        let e = chunk_end(s, i);
        let part = s.subrange(i, e);
        let piece = if opens_comment(s, i) { blanked(part) } else { part };
        let rest = uncommented(s, e);
        lemma_uncommented(s, e);
        assert(t.skip(i) == piece + rest);
        assert(t.skip(e) =~= rest) by {
            assert forall|k: int| 0 <= k < rest.len() implies t.skip(e)[k] == rest[k] by {
                assert(t.skip(i)[k + (e - i)] == rest[k]);
            }
        }
        assert forall|k: int| i <= k < e implies #[trigger] t[k] == piece[k - i] by {
            assert(t.skip(i)[k - i] == piece[k - i]);
        }
        lemma_stripped(s, t, e);
        if opens_comment(s, i) {
            assert forall|k: int| i <= k < e implies (#[trigger] t[k] == ' ' || t[k] == '\n') by {
                assert(piece[k - i] == ' ' || piece[k - i] == '\n');
            }
            lemma_blank_run(t, i, e);
        } else {
            assert forall|k: int| i <= k < e implies #[trigger] t[k] == s[k] by {
                assert(piece[k - i] == s[k]);
            }
            if s[i] == '"' || s[i] == '\'' {
                lemma_quote_agrees(s, t, i + 1, s[i]);
            } else {
                assert(!opens_comment(t, i)) by {
                    if i + 1 < t.len() {
                        assert(t.skip(i)[1] == t[i + 1]);
                        assert(uncommented(s, i)[1] == s[i + 1] || uncommented(s, i)[1] == ' ');
                    }
                }
            }
            assert(chunk_end(t, i) == e);
        }
        assert(t.subrange(i, e) + t.skip(e) =~= t.skip(i));
    } else {
        assert(t.skip(i) =~= Seq::<char>::empty());
    }
}

/// Spaces and line breaks stay as they are.
proof fn lemma_blank_run(t: Seq<char>, i: int, e: int)
    requires
        0 <= i <= e <= t.len(),
        forall|k: int| i <= k < e ==> (#[trigger] t[k] == ' ' || t[k] == '\n'),
    ensures
        uncommented(t, i) == t.subrange(i, e) + uncommented(t, e),
    decreases e - i,
{
    if i < e {
        assert(t[i] == ' ' || t[i] == '\n');
        lemma_blank_run(t, i + 1, e);
        assert(t.subrange(i, i + 1) + (t.subrange(i + 1, e) + uncommented(t, e)) =~= t.subrange(
            i,
            e,
        ) + uncommented(t, e));
    } else {
        assert(t.subrange(i, e) + uncommented(t, e) =~= uncommented(t, e));
    }
}

/// A string ends where it ends in a text that has the same characters up to there.
proof fn lemma_quote_agrees(s: Seq<char>, t: Seq<char>, i: int, q: char)
    requires
        0 <= i <= s.len() == t.len(),
        forall|k: int| i <= k < quote_end(s, i, q) ==> #[trigger] t[k] == s[k],
    ensures
        quote_end(t, i, q) == quote_end(s, i, q),
    decreases s.len() - i,
{
    lemma_quote_end(s, i, q);
    if i < s.len() {
        if s[i] == q {
            assert(t[i] == s[i]);
        } else if s[i] == '\\' && i + 1 < s.len() {
            lemma_quote_end(s, i + 2, q);
            assert(t[i] == s[i]);
            lemma_quote_agrees(s, t, i + 2, q);
        } else {
            lemma_quote_end(s, i + 1, q);
            assert(t[i] == s[i]);
            lemma_quote_agrees(s, t, i + 1, q);
        }
    }
}

// --------------------------------------------------------------------------
//  Scanner
// --------------------------------------------------------------------------
/// May `c` stand in a word? Parentheses may, where they balance.
pub open spec fn is_word_char(c: char) -> bool {
    !is_space(c) && c != '"' && c != '\'' && c != ';' && c != '{' && c != '}' && c != '[' && c != ']'
        && c != '/'
}

pub open spec fn is_punct_char(c: char) -> bool {
    c == '(' || c == ')' || c == '{' || c == '}' || c == '[' || c == ']' || c == ';'
}

fn word_char(c: char) -> (r: bool)
    ensures
        r == is_word_char(c),
{
    !space(c) && c != '"' && c != '\'' && c != ';' && c != '{' && c != '}' && c != '[' && c != ']'
        && c != '/'
}

fn punct_char(c: char) -> (r: bool)
    ensures
        r == is_punct_char(c),
{
    c == '(' || c == ')' || c == '{' || c == '}' || c == '[' || c == ']' || c == ';'
}

pub open spec fn is_sign(c: char) -> bool {
    c == '-' || c == '+'
}

/// Does a number start at `i`: a digit, or a digit behind a sign, a point or both?
pub open spec fn number_starts(s: Seq<char>, i: int) -> bool {
    let n = s.len();
    ||| is_digit(s[i])
    ||| (is_sign(s[i]) || s[i] == '.') && i + 1 < n && is_digit(s[i + 1])
    ||| is_sign(s[i]) && i + 2 < n && s[i + 1] == '.' && is_digit(s[i + 2])
}

/// The end of the number that starts at `i`: sign, digits, fraction, and an
/// exponent where it has digits.
pub open spec fn number_end(s: Seq<char>, i: int) -> int {
    let n = s.len();
    let a = digit_run(s, if is_sign(s[i]) { i + 1 } else { i });
    let b = if a < n && s[a] == '.' { digit_run(s, a + 1) } else { a };
    if b < n && (s[b] == 'e' || s[b] == 'E') {
        let k = if b + 1 < n && is_sign(s[b + 1]) { b + 2 } else { b + 1 };
        if k < n && is_digit(s[k]) {
            digit_run(s, k)
        } else {
            b
        }
    } else {
        b
    }
}

/// The end of the word at `j`, `depth` parentheses being open.
pub open spec fn word_end(s: Seq<char>, j: int, depth: nat) -> int
    decreases s.len() - j,
{
    if j >= s.len() {
        j
    } else if s[j] == '(' {
        word_end(s, j + 1, depth + 1)
    } else if s[j] == ')' {
        if depth == 0 {
            j
        } else {
            word_end(s, j + 1, (depth - 1) as nat)
        }
    } else if is_word_char(s[j]) {
        word_end(s, j + 1, depth)
    } else {
        j
    }
}

/// The contents of a quoted string from `i` on, and where its closing quote
/// stands; a backslash takes the next character as it is.
pub open spec fn quoted(s: Seq<char>, i: int, q: char) -> (Seq<char>, int)
    decreases s.len() - i,
{
    if i >= s.len() || s[i] == q {
        (Seq::empty(), i)
    } else {
        let k = if s[i] == '\\' && i + 1 < s.len() { i + 1 } else { i };
        let rest = quoted(s, k + 1, q);
        (seq![s[k]] + rest.0, rest.1)
    }
}

/// How many line breaks a text holds.
pub open spec fn line_breaks(s: Seq<char>) -> nat
    decreases s.len(),
{
    if s.len() == 0 {
        0
    } else {
        line_breaks(s.drop_last()) + (if s.last() == '\n' { 1nat } else { 0 })
    }
}

/// A token and where it ends; none where a string is not closed.
pub struct Lexed {
    pub token: Option<Token>,
    pub end: int,
    pub breaks: nat,
}

/// The token at `i`. A slash that opens no comment is a word of its own.
pub open spec fn token_at(s: Seq<char>, i: int) -> Lexed {
    let c = s[i];
    if is_punct_char(c) {
        Lexed { token: Some(Token::Punct(c)), end: i + 1, breaks: 0 }
    } else if c == '"' || c == '\'' {
        let (v, e) = quoted(s, i + 1, c);
        if e >= s.len() {
            Lexed { token: None, end: e, breaks: line_breaks(v) }
        } else {
            Lexed { token: Some(Token::Str(v)), end: e + 1, breaks: line_breaks(v) }
        }
    } else {
        let j = number_end(s, i);
        if number_starts(s, i) && !(j < s.len() && (is_letter(s[j]) || s[j] == '_')) {
            let t = s.subrange(i, j);
            Lexed {
                token: Some(
                    match parsed(t) {
                        Some(v) => Token::Num(v),
                        None => Token::Word(t),
                    },
                ),
                end: j,
                breaks: 0,
            }
        } else {
            let w = word_end(s, i, 0);
            if w == i {
                Lexed { token: Some(Token::Word(seq![c])), end: i + 1, breaks: 0 }
            } else {
                Lexed { token: Some(Token::Word(s.subrange(i, w))), end: w, breaks: 0 }
            }
        }
    }
}

/// All the tokens of a text: each with its line, the line of the end, and the
/// line of a string that is not closed.
pub struct Scanned {
    pub toks: Seq<Token>,
    pub lines: Seq<nat>,
    pub eof_line: nat,
    pub unclosed: Option<nat>,
}

/// The tokens from `i` on, `line` being the line of `i`.
pub open spec fn scanned(s: Seq<char>, i: int, line: nat) -> Scanned
    decreases s.len() - i,
{
    if i < 0 || i >= s.len() {
        Scanned { toks: Seq::empty(), lines: Seq::empty(), eof_line: line, unclosed: None }
    } else if s[i] == '\n' {
        scanned(s, i + 1, line + 1)
    } else if is_space(s[i]) {
        scanned(s, i + 1, line)
    } else {
        let l = token_at(s, i);
        proof {
            lemma_token_at(s, i);
        }
        match l.token {
            None => Scanned {
                toks: Seq::empty(),
                lines: Seq::empty(),
                eof_line: line + l.breaks,
                unclosed: Some(line),
            },
            Some(t) => {
                let rest = scanned(s, l.end, line + l.breaks);
                Scanned {
                    toks: seq![t] + rest.toks,
                    lines: seq![line] + rest.lines,
                    eof_line: rest.eof_line,
                    unclosed: rest.unclosed,
                }
            },
        }
    }
}

/// Does every token have its line, the lines in order from `first` on, and is
/// every mark one of `; { } ( ) [ ]`?
pub open spec fn is_sound_scan(toks: Seq<Token>, lines: Seq<nat>, first: nat, last: nat) -> bool {
    &&& toks.len() == lines.len()
    &&& forall|k: int| 0 <= k < toks.len() ==> ((#[trigger] toks[k]) matches Token::Punct(c)
        ==> is_punct_char(c))
    &&& forall|k: int| 0 <= k < lines.len() ==> first <= #[trigger] lines[k] <= last
    &&& forall|j: int, k: int|
        0 <= j <= k < lines.len() ==> #[trigger] lines[j] <= #[trigger] lines[k]
    &&& first <= last
}

/// Every token that a text is read as has its line, and the lines are in order;
/// every mark among the tokens is one of `; { } ( ) [ ]`.
pub proof fn scan_is_sound(s: Seq<char>, i: int, line: nat)
    requires
        0 <= i <= s.len(),
    ensures
        ({
            let r = scanned(s, i, line);
            is_sound_scan(r.toks, r.lines, line, r.eof_line)
        }),
    decreases s.len() - i,
{
    if i < s.len() {
        if s[i] == '\n' {
            scan_is_sound(s, i + 1, line + 1);
        } else if is_space(s[i]) {
            scan_is_sound(s, i + 1, line);
        } else {
            let l = token_at(s, i);
            lemma_token_at(s, i);
            if l.token is Some {
                scan_is_sound(s, l.end, line + l.breaks);
                let rest = scanned(s, l.end, line + l.breaks);
                let r = scanned(s, i, line);
                assert forall|k: int| 0 <= k < r.toks.len() implies ((
                #[trigger] r.toks[k]) matches Token::Punct(c) ==> is_punct_char(c)) by {
                    if k > 0 {
                        assert(r.toks[k] == rest.toks[k - 1]);
                    }
                }
                assert forall|k: int| 0 <= k < r.lines.len() implies line <= #[trigger] r.lines[k]
                    <= r.eof_line by {
                    if k > 0 {
                        assert(r.lines[k] == rest.lines[k - 1]);
                    }
                }
                assert forall|j: int, k: int| 0 <= j <= k < r.lines.len() implies #[trigger] r.lines[j]
                    <= #[trigger] r.lines[k] by {
                    if j > 0 {
                        assert(r.lines[j] == rest.lines[j - 1]);
                        assert(r.lines[k] == rest.lines[k - 1]);
                    }
                }
            }
        }
    }
}

pub(crate) proof fn lemma_word_end(s: Seq<char>, j: int, depth: nat)
    requires
        0 <= j <= s.len(),
    ensures
        j <= word_end(s, j, depth) <= s.len(),
    decreases s.len() - j,
{
    if j < s.len() {
        if s[j] == '(' {
            lemma_word_end(s, j + 1, depth + 1);
        } else if s[j] == ')' {
            if depth > 0 {
                lemma_word_end(s, j + 1, (depth - 1) as nat);
            }
        } else if is_word_char(s[j]) {
            lemma_word_end(s, j + 1, depth);
        }
    }
}

proof fn lemma_quoted(s: Seq<char>, i: int, q: char)
    requires
        0 <= i <= s.len(),
    ensures
        i <= quoted(s, i, q).1 <= s.len(),
        quoted(s, i, q).0.len() <= quoted(s, i, q).1 - i,
    decreases s.len() - i,
{
    if i < s.len() && s[i] != q {
        if s[i] == '\\' && i + 1 < s.len() {
            lemma_quoted(s, i + 2, q);
        } else {
            lemma_quoted(s, i + 1, q);
        }
    }
}

pub(crate) proof fn lemma_number_end(s: Seq<char>, i: int)
    requires
        0 <= i < s.len(),
        number_starts(s, i),
    ensures
        i < number_end(s, i) <= s.len(),
{
    let st = if is_sign(s[i]) { i + 1 } else { i };
    lemma_digit_run(s, st);
    let a = digit_run(s, st);
    if a < s.len() && s[a] == '.' {
        lemma_digit_run(s, a + 1);
    }
    let b = if a < s.len() && s[a] == '.' { digit_run(s, a + 1) } else { a };
    if b < s.len() && (s[b] == 'e' || s[b] == 'E') {
        let k = if b + 1 < s.len() && is_sign(s[b + 1]) { b + 2 } else { b + 1 };
        if k < s.len() {
            lemma_digit_run(s, k);
        }
    }
}

pub proof fn lemma_token_at(s: Seq<char>, i: int)
    requires
        0 <= i < s.len(),
    ensures
        i < token_at(s, i).end <= s.len(),
        token_at(s, i).breaks < token_at(s, i).end - i,
{
    if s[i] == '"' || s[i] == '\'' {
        lemma_quoted(s, i + 1, s[i]);
        lemma_breaks(quoted(s, i + 1, s[i]).0);
    } else {
        lemma_word_end(s, i, 0);
        if number_starts(s, i) {
            lemma_number_end(s, i);
        }
    }
}

proof fn lemma_breaks(s: Seq<char>)
    ensures
        line_breaks(s) <= s.len(),
    decreases s.len(),
{
    if s.len() > 0 {
        lemma_breaks(s.drop_last());
    }
}

/// The contents of some tokens.
pub open spec fn contents(t: Seq<Tok>) -> Seq<Token> {
    t.map_values(|x: Tok| x@)
}

pub open spec fn as_nats(t: Seq<usize>) -> Seq<nat> {
    t.map_values(|x: usize| x as nat)
}

fn find_number_end(s: &Vec<char>, i: usize) -> (r: usize)
    requires
        i < s.len(),
        number_starts(s@, i as int),
    ensures
        r == number_end(s@, i as int),
        i < r <= s.len(),
{
    let n: usize = s.len();
    let mut j: usize = i;
    if s[j] == '-' || s[j] == '+' {
        j = j + 1;
    }
    j = skip_digits(s, j);
    if j < n && s[j] == '.' {
        j = skip_digits(s, j + 1);
    }
    if j < n && (s[j] == 'e' || s[j] == 'E') {
        let mut k: usize = j + 1;
        if k < n && (s[k] == '-' || s[k] == '+') {
            k = k + 1;
        }
        if k < n && digit(s[k]) {
            j = skip_digits(s, k);
        }
    }
    proof {
        lemma_number_end(s@, i as int);
    }
    j
}

fn starts_number(s: &Vec<char>, i: usize) -> (r: bool)
    requires
        i < s.len(),
    ensures
        r == number_starts(s@, i as int),
{
    let c: char = s[i];
    let n: usize = s.len();
    if digit(c) {
        return true;
    }
    if c == '-' || c == '+' || c == '.' {
        if i + 1 < n && digit(s[i + 1]) {
            return true;
        }
        if (c == '-' || c == '+') && n - i > 2 && s[i + 1] == '.' && digit(s[i + 2]) {
            return true;
        }
    }
    false
}

fn find_word_end(s: &Vec<char>, i: usize) -> (r: usize)
    requires
        i < s.len(),
    ensures
        r == word_end(s@, i as int, 0),
        i <= r <= s.len(),
{
    let mut j: usize = i;
    let mut depth: usize = 0;
    loop
        invariant_except_break
            i <= j <= s.len(),
            depth <= j - i,
            word_end(s@, i as int, 0) == word_end(s@, j as int, depth as nat),
        ensures
            i <= j <= s.len(),
            word_end(s@, i as int, 0) == j,
        decreases s.len() - j,
    {
        if j >= s.len() {
            break;
        }
        let d: char = s[j];
        if d == '(' {
            depth = depth + 1;
        } else if d == ')' {
            if depth == 0 {
                break;
            }
            depth = depth - 1;
        } else if !word_char(d) {
            break;
        }
        j = j + 1;
    }
    j
}

/// Read a quoted string from `i` on: its contents, where the closing quote
/// stands, and its line breaks.
fn read_quoted(s: &Vec<char>, i: usize, q: char) -> (r: (String, usize, usize))
    requires
        i <= s.len(),
    ensures
        r.0@ == quoted(s@, i as int, q).0,
        r.1 == quoted(s@, i as int, q).1,
        r.2 == line_breaks(r.0@),
        i <= r.1 <= s.len(),
        r.2 <= r.1 - i,
{
    let n: usize = s.len();
    let mut v: String = String::new();
    let mut j: usize = i;
    let mut breaks: usize = 0;
    assert(Seq::<char>::empty() + quoted(s@, i as int, q).0 =~= quoted(s@, i as int, q).0);
    while j < n && s[j] != q
        invariant
            i <= j <= n,
            n == s.len(),
            v@ + quoted(s@, j as int, q).0 == quoted(s@, i as int, q).0,
            quoted(s@, j as int, q).1 == quoted(s@, i as int, q).1,
            breaks == line_breaks(v@),
            breaks <= j - i,
        decreases n - j,
    {
        let ghost at = j as int;
        if s[j] == '\\' && j + 1 < n {
            j = j + 1;
        }
        let c: char = s[j];
        if c == '\n' {
            breaks = breaks + 1;
        }
        let ghost before = v@;
        v.push(c);
        j = j + 1;
        proof {
            assert(v@.drop_last() =~= before);
            let rest = quoted(s@, j as int, q).0;
            assert(quoted(s@, at, q).0 == seq![c] + rest);
            assert(v@ + rest =~= before + (seq![c] + rest));
        }
    }
    proof {
        assert(quoted(s@, j as int, q).0 =~= Seq::empty());
        assert(v@ + Seq::<char>::empty() =~= v@);
    }
    (v, j, breaks)
}

struct Scan {
    toks: Vec<Tok>,
    lines: Vec<usize>,
    eof_line: usize,
    unclosed: Option<usize>,
}

impl Scan {
    spec fn wf(self, whole: Scanned) -> bool {
        &&& contents(self.toks@) == whole.toks
        &&& as_nats(self.lines@) == whole.lines
        &&& self.eof_line == whole.eof_line
        &&& match (self.unclosed, whole.unclosed) {
            (None, None) => true,
            (Some(a), Some(b)) => a == b,
            _ => false,
        }
    }
}

/// The token at `i`, where it ends, and its line breaks.
fn read_token(s: &Vec<char>, i: usize) -> (r: (Option<Tok>, usize, usize))
    requires
        i < s.len(),
    ensures
        ({
            let l = token_at(s@, i as int);
            &&& r.1 == l.end
            &&& r.2 == l.breaks
            &&& match (r.0, l.token) {
                (None, None) => true,
                (Some(a), Some(b)) => a@ == b,
                _ => false,
            }
        }),
        i < r.1 <= s.len(),
        r.2 < r.1 - i,
{
    let n: usize = s.len();
    let c: char = s[i];
    proof {
        lemma_token_at(s@, i as int);
    }
    if punct_char(c) {
        return (Some(Tok::Punct(c)), i + 1, 0);
    }
    if c == '"' || c == '\'' {
        let (v, e, breaks) = read_quoted(s, i + 1, c);
        if e >= n {
            return (None, e, breaks);
        }
        return (Some(Tok::Str(v)), e + 1, breaks);
    }
    if starts_number(s, i) {
        let j: usize = find_number_end(s, i);
        let trailing: bool = j < n && (letter(s[j]) || s[j] == '_');
        if !trailing {
            let text = string_between(s, i, j);
            let parts = chars_of(&text);
            return match parse_chars(&parts) {
                Some(v) => (Some(Tok::Num(v)), j, 0),
                None => (Some(Tok::Word(text)), j, 0),
            };
        }
    }
    let w: usize = find_word_end(s, i);
    if w == i {
        let lone = string_between(s, i, i + 1);
        assert(s@.subrange(i as int, i + 1) =~= seq![c]);
        return (Some(Tok::Word(lone)), i + 1, 0);
    }
    (Some(Tok::Word(string_between(s, i, w))), w, 0)
}

fn scan(s: &Vec<char>) -> (r: Scan)
    requires
        s.len() < usize::MAX,
    ensures
        r.wf(scanned(s@, 0, 1)),
        is_sound_scan(contents(r.toks@), as_nats(r.lines@), 1, r.eof_line as nat),
{
    let n: usize = s.len();
    proof {
        scan_is_sound(s@, 0, 1);
    }
    let ghost whole = scanned(s@, 0, 1);
    let mut toks: Vec<Tok> = Vec::new();
    let mut lines: Vec<usize> = Vec::new();
    let mut i: usize = 0;
    let mut line: usize = 1;
    proof {
        assert(contents(toks@) + whole.toks =~= whole.toks);
        assert(as_nats(lines@) + whole.lines =~= whole.lines);
    }
    while i < n
        invariant
            i <= n,
            n == s.len(),
            n < usize::MAX,
            whole == scanned(s@, 0, 1),
            is_sound_scan(whole.toks, whole.lines, 1, whole.eof_line),
            1 <= line <= i + 1,
            ({
                let rest = scanned(s@, i as int, line as nat);
                &&& contents(toks@) + rest.toks == whole.toks
                &&& as_nats(lines@) + rest.lines == whole.lines
                &&& rest.eof_line == whole.eof_line
                &&& rest.unclosed == whole.unclosed
            }),
        decreases n - i,
    {
        let c: char = s[i];
        if c == '\n' {
            line = line + 1;
            i = i + 1;
        } else if space(c) {
            i = i + 1;
        } else {
            let ghost here = scanned(s@, i as int, line as nat);
            let (t, e, breaks) = read_token(s, i);
            match t {
                None => {
                    proof {
                        assert(here.toks =~= Seq::empty());
                        assert(contents(toks@) + here.toks =~= contents(toks@));
                        assert(as_nats(lines@) + here.lines =~= as_nats(lines@));
                    }
                    return Scan { toks, lines, eof_line: line + breaks, unclosed: Some(line) };
                },
                Some(tok) => {
                    let ghost old_toks = toks@;
                    let ghost old_lines = lines@;
                    let ghost tv = tok@;
                    toks.push(tok);
                    lines.push(line);
                    proof {
                        let rest = scanned(s@, e as int, (line + breaks) as nat);
                        assert(contents(toks@) =~= contents(old_toks).push(tv));
                        assert(as_nats(lines@) =~= as_nats(old_lines).push(line as nat));
                        assert(contents(toks@) + rest.toks =~= contents(old_toks) + (seq![tv]
                            + rest.toks));
                        assert(as_nats(lines@) + rest.lines =~= as_nats(old_lines) + (seq![
                            line as nat,
                        ] + rest.lines));
                    }
                    i = e;
                    line = line + breaks;
                },
            }
        }
    }
    proof {
        let rest = scanned(s@, i as int, line as nat);
        assert(contents(toks@) + rest.toks =~= contents(toks@));
        assert(as_nats(lines@) + rest.lines =~= as_nats(lines@));
    }
    Scan { toks, lines, eof_line: line, unclosed: None }
}

// --------------------------------------------------------------------------
//  The token stream
// --------------------------------------------------------------------------
/// The tokens of a file, and how far they have been read.
pub struct Stream {
    pub path: Seq<char>,
    pub toks: Seq<Token>,
    pub lines: Seq<nat>,
    pub pos: int,
    pub eof_line: nat,
    pub unclosed: Option<nat>,
}

impl Stream {
    /// The stream at another position.
    pub open spec fn to(self, pos: int) -> Stream {
        Stream { pos, ..self }
    }

    /// The token `off` places ahead.
    pub open spec fn ahead(self, off: int) -> Option<Token> {
        if 0 <= self.pos + off < self.toks.len() {
            Some(self.toks[self.pos + off])
        } else {
            None
        }
    }

    pub open spec fn is_punct(self, c: char) -> bool {
        self.ahead(0) == Some(Token::Punct(c))
    }

    pub open spec fn is_word(self, w: Seq<char>) -> bool {
        self.ahead(0) == Some(Token::Word(w))
    }

    pub open spec fn done(self) -> bool {
        self.pos >= self.toks.len()
    }

    /// The line of the token about to be read, or of the end.
    pub open spec fn line(self) -> nat {
        if 0 <= self.pos < self.lines.len() {
            self.lines[self.pos]
        } else {
            self.eof_line
        }
    }

    /// The failure that names the file, the line and the offending token.
    pub open spec fn failure(self, msg: Seq<char>) -> Failure {
        Failure::Parse {
            path: self.path,
            msg: match self.ahead(0) {
                Some(t) => "line "@ + decimal(self.line()) + ": "@ + msg + " (got '"@ + t.text()
                    + "')"@,
                None => "line "@ + decimal(self.line()) + ": "@ + msg
                    + " but hit the end of the file"@,
            },
        }
    }

    /// The failure of a string that is not closed.
    pub open spec fn unclosed_failure(self) -> Option<Failure> {
        match self.unclosed {
            None => None,
            Some(line) => Some(
                Failure::Parse {
                    path: self.path,
                    msg: "line "@ + decimal(line) + ": unterminated string"@,
                },
            ),
        }
    }
}

/// Behind the brace that closes the block at `i`, `depth` braces being open.
pub open spec fn close_brace(toks: Seq<Token>, i: int, depth: nat) -> Option<int>
    decreases toks.len() - i,
{
    if i < 0 || i >= toks.len() {
        None
    } else if toks[i] == Token::Punct('{') {
        close_brace(toks, i + 1, depth + 1)
    } else if toks[i] == Token::Punct('}') {
        if depth <= 1 {
            Some(i + 1)
        } else {
            close_brace(toks, i + 1, (depth - 1) as nat)
        }
    } else {
        close_brace(toks, i + 1, depth)
    }
}

/// The first `;` or `}` at or behind `i`, or the end.
pub open spec fn entry_stop(toks: Seq<Token>, i: int) -> int
    decreases toks.len() - i,
{
    if i < 0 || i >= toks.len() || toks[i] == Token::Punct(';') || toks[i] == Token::Punct('}') {
        i
    } else {
        entry_stop(toks, i + 1)
    }
}

/// Where an entry's value ends, behind its `;` or its block.
pub open spec fn entry_end(s: Stream) -> Result<int, Failure> {
    if s.is_punct('{') {
        match close_brace(s.toks, s.pos, 0) {
            Some(e) => Ok(e),
            None => Err(s.to(s.toks.len() as int).failure("unterminated '{'"@)),
        }
    } else {
        let e = entry_stop(s.toks, s.pos);
        if e >= s.toks.len() {
            Err(s.to(e).failure("expected ';'"@))
        } else if s.toks[e] == Token::Punct('}') {
            Err(s.to(e).failure("missing ';' before '}'"@))
        } else {
            Ok(e + 1)
        }
    }
}

/// An entry ends behind where it begins.
pub proof fn lemma_entry_end(s: Stream)
    requires
        0 <= s.pos <= s.toks.len(),
    ensures
        entry_end(s) matches Ok(e) ==> s.pos < e <= s.toks.len(),
{
    lemma_close_brace(s.toks, s.pos, 0);
    lemma_entry_stop(s.toks, s.pos);
}

proof fn lemma_close_brace(toks: Seq<Token>, i: int, depth: nat)
    requires
        0 <= i,
    ensures
        close_brace(toks, i, depth) matches Some(e) ==> i < e <= toks.len(),
    decreases toks.len() - i,
{
    if i < toks.len() {
        lemma_close_brace(toks, i + 1, depth + 1);
        lemma_close_brace(toks, i + 1, depth);
        if depth > 1 {
            lemma_close_brace(toks, i + 1, (depth - 1) as nat);
        }
    }
}

proof fn lemma_entry_stop(toks: Seq<Token>, i: int)
    requires
        0 <= i <= toks.len(),
    ensures
        i <= entry_stop(toks, i) <= toks.len(),
    decreases toks.len() - i,
{
    if i < toks.len() {
        lemma_entry_stop(toks, i + 1);
    }
}

/// Behind a leading `FoamFile { ... }` block, where there is one.
pub open spec fn header_end(s: Stream) -> Result<int, Failure> {
    if !s.is_word("FoamFile"@) {
        Ok(s.pos)
    } else if !s.to(s.pos + 1).is_punct('{') {
        Err(s.to(s.pos + 1).failure("expected '{' after FoamFile"@))
    } else {
        entry_end(s.to(s.pos + 1))
    }
}

/// The number that a token stands for, a word that spells one included.
pub open spec fn token_number(t: Token) -> Option<Scalar> {
    match t {
        Token::Num(v) => Some(v),
        Token::Punct(_) => None,
        _ => parsed(t.text()),
    }
}

/// The integer that a token stands for.
pub open spec fn token_label(t: Token) -> Option<int> {
    match t {
        Token::Num(v) => v.label(),
        _ => None,
    }
}

/// A whole file's worth of tokens, with the line each was read from.
///
/// Scanning can fail only at a string that is not closed, which sits at the end
/// of the file: that failure is kept, and comes from the first read that
/// reaches the end.
pub struct Tokenizer {
    path: String,
    toks: Vec<Tok>,
    lines: Vec<usize>,
    pos: usize,
    eof_line: usize,
    unclosed: Option<usize>,
}

impl View for Tokenizer {
    type V = Stream;

    closed spec fn view(&self) -> Stream {
        Stream {
            path: self.path@,
            toks: contents(self.toks@),
            lines: as_nats(self.lines@),
            pos: self.pos as int,
            eof_line: self.eof_line as nat,
            unclosed: match self.unclosed {
                Some(n) => Some(n as nat),
                None => None,
            },
        }
    }
}

/// The stream of a source text before anything is read.
pub open spec fn fresh(src: Seq<char>, path: Seq<char>) -> Stream {
    let s = scanned(uncommented(src, 0), 0, 1);
    Stream {
        path,
        toks: s.toks,
        lines: s.lines,
        pos: 0,
        eof_line: s.eof_line,
        unclosed: s.unclosed,
    }
}

impl Tokenizer {
    /// The position stays within the tokens.
    pub closed spec fn wf(self) -> bool {
        self.pos <= self.toks.len()
    }

    /// The position stays within the tokens.
    pub proof fn lemma_wf(self)
        requires
            self.wf(),
        ensures
            0 <= self@.pos <= self@.toks.len(),
    {
    }

    /// Strip comments, then tokenise.
    pub fn new(src: &str, path: &str) -> (r: Tokenizer)
        requires
            src@.len() < usize::MAX,
        ensures
            r.wf(),
            r@ == fresh(src@, path@),
            is_sound_scan(r@.toks, r@.lines, 1, r@.eof_line),
    {
        let chars = chars_of(src);
        let plain = strip_comments(&chars);
        proof {
            stripping_keeps_lines(src@);
            scan_is_sound(plain@, 0, 1);
        }
        let s = scan(&plain);
        Tokenizer {
            path: copy(path),
            toks: s.toks,
            lines: s.lines,
            pos: 0,
            eof_line: s.eof_line,
            unclosed: s.unclosed,
        }
    }

    /// The file name every error carries.
    pub fn path(&self) -> (r: &str)
        ensures
            r@ == self@.path,
    {
        self.path.as_str()
    }

    /// How many tokens have been read.
    pub fn position(&self) -> (r: usize)
        requires
            self.wf(),
        ensures
            r == self@.pos,
            r <= self@.toks.len(),
    {
        self.pos
    }

    /// Line of the token about to be read, or of the end of the file.
    pub fn line(&self) -> (r: usize)
        ensures
            r == self@.line(),
    {
        if self.pos < self.lines.len() {
            self.lines[self.pos]
        } else {
            self.eof_line
        }
    }

    /// Has every token been read? A pending scan failure does not show here.
    pub fn done(&self) -> (r: bool)
        ensures
            r == self@.done(),
    {
        self.pos >= self.toks.len()
    }

    /// The failure of a string that is not closed, if there is one.
    pub fn check_scan_error(&self) -> (r: Result<(), Error>)
        ensures
            match (r, self@.unclosed_failure()) {
                (Ok(_), None) => true,
                (Err(e), Some(f)) => e@ == f,
                _ => false,
            },
    {
        match self.unclosed {
            None => Ok(()),
            Some(line) => {
                let mut msg = copy("line ");
                push_decimal(&mut msg, line as u64);
                push_text(&mut msg, ": unterminated string");
                Err(parse_error(&self.path, msg))
            },
        }
    }

    /// The next token, not consumed.
    pub fn peek(&self) -> (r: Result<Option<&Tok>, Error>)
        ensures
            match r {
                Ok(Some(t)) => self@.ahead(0) == Some(t@),
                Ok(None) => self@.done() && self@.unclosed_failure() is None,
                Err(e) => self@.done() && self@.unclosed_failure() == Some(e@),
            },
    {
        if self.pos >= self.toks.len() {
            return match self.check_scan_error() {
                Err(e) => Err(e),
                Ok(_) => Ok(None),
            };
        }
        Ok(Some(&self.toks[self.pos]))
    }

    /// Look ahead; `off == 0` is the token that `peek` gives.
    pub fn peek_at(&self, off: usize) -> (r: Option<&Tok>)
        ensures
            match (r, self@.ahead(off as int)) {
                (Some(t), Some(u)) => t@ == u,
                (None, None) => true,
                _ => false,
            },
    {
        if self.pos < self.toks.len() && off < self.toks.len() - self.pos {
            Some(&self.toks[self.pos + off])
        } else {
            None
        }
    }

    /// Read the next token.
    pub fn next(&mut self) -> (r: Result<Option<Tok>, Error>)
        requires
            old(self).wf(),
        ensures
            final(self).wf(),
            match r {
                Ok(Some(t)) => old(self)@.ahead(0) == Some(t@) && final(self)@ == old(self)@.to(
                    old(self)@.pos + 1,
                ),
                Ok(None) => old(self)@.done() && old(self)@.unclosed_failure() is None
                    && final(self)@ == old(self)@,
                Err(e) => old(self)@.done() && old(self)@.unclosed_failure() == Some(e@)
                    && final(self)@ == old(self)@,
            },
    {
        if self.pos >= self.toks.len() {
            return match self.check_scan_error() {
                Err(e) => Err(e),
                Ok(_) => Ok(None),
            };
        }
        let t = self.toks[self.pos].copy();
        self.pos = self.pos + 1;
        Ok(Some(t))
    }

    /// Step over the next token.
    pub fn advance(&mut self)
        requires
            old(self).wf(),
            !old(self)@.done(),
        ensures
            final(self).wf(),
            final(self)@ == old(self)@.to(old(self)@.pos + 1),
    {
        self.pos = self.pos + 1;
    }

    pub fn is_punct(&self, c: char) -> (r: bool)
        ensures
            r == self@.is_punct(c),
    {
        self.is_punct_at(c, 0)
    }

    pub fn is_punct_at(&self, c: char, off: usize) -> (r: bool)
        ensures
            r == (self@.ahead(off as int) == Some(Token::Punct(c))),
    {
        match self.peek_at(off) {
            Some(t) => t.is_punct(c),
            None => false,
        }
    }

    pub fn is_word(&self, w: &str) -> (r: bool)
        ensures
            r == self@.is_word(w@),
    {
        self.is_word_at(w, 0)
    }

    pub fn is_word_at(&self, w: &str, off: usize) -> (r: bool)
        ensures
            r == (self@.ahead(off as int) == Some(Token::Word(w@))),
    {
        match self.peek_at(off) {
            Some(t) => t.is_word(w),
            None => false,
        }
    }

    /// A failure naming the file, the line and the offending token.
    pub fn err(&self, msg: &str) -> (e: Error)
        ensures
            e@ == self@.failure(msg@),
    {
        let mut m = copy("line ");
        push_decimal(&mut m, self.line() as u64);
        push_text(&mut m, ": ");
        push_text(&mut m, msg);
        match self.peek_at(0) {
            Some(t) => {
                push_text(&mut m, " (got '");
                let shown = t.text();
                push_text(&mut m, &shown);
                push_text(&mut m, "')");
            },
            None => {
                push_text(&mut m, " but hit the end of the file");
            },
        }
        parse_error(&self.path, m)
    }

    /// Read one given punctuation mark.
    pub fn expect_punct(&mut self, c: char) -> (r: Result<(), Error>)
        requires
            old(self).wf(),
        ensures
            final(self).wf(),
            match r {
                Ok(_) => old(self)@.is_punct(c) && final(self)@ == old(self)@.to(
                    old(self)@.pos + 1,
                ),
                Err(e) => !old(self)@.is_punct(c) && e@ == old(self)@.failure(
                    "expected '"@ + seq![c] + "'"@,
                ) && final(self)@ == old(self)@,
            },
    {
        if !self.is_punct(c) {
            let mut m = copy("expected '");
            m.push(c);
            push_text(&mut m, "'");
            assert(m@ =~= "expected '"@ + seq![c] + "'"@);
            return Err(self.err(&m));
        }
        self.pos = self.pos + 1;
        Ok(())
    }

    /// A keyword or a patch name: any token but punctuation, as text.
    pub fn expect_word(&mut self) -> (r: Result<String, Error>)
        requires
            old(self).wf(),
        ensures
            final(self).wf(),
            match r {
                Ok(w) => old(self)@.ahead(0) is Some && !(old(self)@.ahead(0)->Some_0 is Punct)
                    && w@ == old(self)@.ahead(0)->Some_0.text() && final(self)@ == old(self)@.to(
                    old(self)@.pos + 1,
                ),
                Err(e) => (old(self)@.ahead(0) is None || old(self)@.ahead(0)->Some_0 is Punct)
                    && e@ == old(self)@.failure("expected a name"@) && final(self)@ == old(self)@,
            },
    {
        match self.expect_key() {
            Ok((w, _)) => Ok(w),
            Err(e) => Err(e),
        }
    }

    /// A name, and whether it was written in quotes: only a quoted key is a
    /// pattern.
    pub fn expect_key(&mut self) -> (r: Result<(String, bool), Error>)
        requires
            old(self).wf(),
        ensures
            final(self).wf(),
            match r {
                Ok((w, quoted)) => old(self)@.ahead(0) is Some && !(old(
                    self,
                )@.ahead(0)->Some_0 is Punct) && w@ == old(self)@.ahead(0)->Some_0.text() && quoted
                    == (old(self)@.ahead(0)->Some_0 is Str) && final(self)@ == old(self)@.to(
                    old(self)@.pos + 1,
                ),
                Err(e) => (old(self)@.ahead(0) is None || old(self)@.ahead(0)->Some_0 is Punct)
                    && e@ == old(self)@.failure("expected a name"@) && final(self)@ == old(self)@,
            },
    {
        let (text, quoted) = match self.peek_at(0) {
            Some(Tok::Str(s)) => (copy(s), true),
            Some(t) => {
                if t.is_punct_any() {
                    return Err(self.err("expected a name"));
                }
                (t.text(), false)
            },
            None => {
                return Err(self.err("expected a name"));
            },
        };
        self.pos = self.pos + 1;
        Ok((text, quoted))
    }

    /// A number; a word that spells one is accepted.
    pub fn expect_num(&mut self) -> (r: Result<Scalar, Error>)
        requires
            old(self).wf(),
        ensures
            final(self).wf(),
            match r {
                Ok(v) => old(self)@.ahead(0) is Some && token_number(old(self)@.ahead(0)->Some_0)
                    == Some(v) && final(self)@ == old(self)@.to(old(self)@.pos + 1),
                Err(e) => (old(self)@.ahead(0) is None || token_number(
                    old(self)@.ahead(0)->Some_0,
                ) is None) && e@ == old(self)@.failure("expected a number"@) && final(self)@
                    == old(self)@,
            },
    {
        let v: Scalar = match self.peek_at(0) {
            Some(Tok::Num(v)) => *v,
            Some(t) => {
                if t.is_punct_any() {
                    return Err(self.err("expected a number"));
                }
                let shown = t.text();
                let parts = chars_of(&shown);
                match parse_chars(&parts) {
                    Some(v) => v,
                    None => {
                        return Err(self.err("expected a number"));
                    },
                }
            },
            None => {
                return Err(self.err("expected a number"));
            },
        };
        self.pos = self.pos + 1;
        Ok(v)
    }

    /// A list size or a mesh index: a number without a fraction, in range.
    pub fn expect_label(&mut self) -> (r: Result<i32, Error>)
        requires
            old(self).wf(),
        ensures
            final(self).wf(),
            match r {
                Ok(v) => old(self)@.ahead(0) is Some && token_label(old(self)@.ahead(0)->Some_0)
                    == Some(v as int) && final(self)@ == old(self)@.to(old(self)@.pos + 1),
                Err(e) => (old(self)@.ahead(0) is None || token_label(
                    old(self)@.ahead(0)->Some_0,
                ) is None) && e@ == old(self)@.failure("expected an integer"@) && final(self)@
                    == old(self)@,
            },
    {
        let v: i32 = match self.peek_at(0) {
            Some(Tok::Num(v)) => match v.as_label() {
                Some(n) => n,
                None => {
                    return Err(self.err("expected an integer"));
                },
            },
            _ => {
                return Err(self.err("expected an integer"));
            },
        };
        self.pos = self.pos + 1;
        Ok(v)
    }

    /// Read the tokens of an entry's value up to and with its `;`, or the whole
    /// `{ ... }` block where the entry is a sub-dictionary.
    pub fn skip_entry(&mut self) -> (r: Result<(), Error>)
        requires
            old(self).wf(),
        ensures
            final(self).wf(),
            match (r, entry_end(old(self)@)) {
                (Ok(_), Ok(e)) => final(self)@ == old(self)@.to(e) && old(self)@.pos < e,
                (Err(e), Err(f)) => e@ == f && final(self)@ == old(self)@.to(final(self)@.pos),
                _ => false,
            },
    {
        let ghost s = self@;
        if self.is_punct('{') {
            let mut depth: usize = 0;
            while self.pos < self.toks.len()
                invariant
                    self.wf(),
                    s == old(self)@,
                    s.is_punct('{'),
                    self@ == s.to(self@.pos),
                    0 <= s.pos <= self@.pos,
                    depth <= self@.pos - s.pos,
                    close_brace(s.toks, s.pos, 0) == close_brace(s.toks, self@.pos, depth as nat),
                decreases self.toks.len() - self.pos,
            {
                let t = &self.toks[self.pos];
                if t.is_punct('{') {
                    depth = depth + 1;
                } else if t.is_punct('}') {
                    if depth <= 1 {
                        self.pos = self.pos + 1;
                        return Ok(());
                    }
                    depth = depth - 1;
                }
                self.pos = self.pos + 1;
            }
            return Err(self.err("unterminated '{'"));
        }
        while self.pos < self.toks.len() && !self.toks[self.pos].is_punct(';')
            invariant
                self.wf(),
                s == old(self)@,
                self@ == s.to(self@.pos),
                s.pos <= self@.pos,
                !s.is_punct('{'),
                entry_stop(s.toks, s.pos) == entry_stop(s.toks, self@.pos),
            decreases self.toks.len() - self.pos,
        {
            if self.is_punct('}') {
                return Err(self.err("missing ';' before '}'"));
            }
            self.pos = self.pos + 1;
        }
        if self.pos >= self.toks.len() {
            return Err(self.err("expected ';'"));
        }
        self.pos = self.pos + 1;
        Ok(())
    }

    /// Drop a leading `FoamFile { ... }` block if there is one.
    pub fn skip_header(&mut self) -> (r: Result<(), Error>)
        requires
            old(self).wf(),
        ensures
            final(self).wf(),
            match (r, header_end(old(self)@)) {
                (Ok(_), Ok(e)) => final(self)@ == old(self)@.to(e),
                (Err(e), Err(f)) => e@ == f && final(self)@ == old(self)@.to(final(self)@.pos),
                _ => false,
            },
    {
        if !self.is_word("FoamFile") {
            assert(self@ == old(self)@.to(self@.pos));
            return Ok(());
        }
        self.pos = self.pos + 1;
        if !self.is_punct('{') {
            return Err(self.err("expected '{' after FoamFile"));
        }
        self.skip_entry()
    }
}

// --------------------------------------------------------------------------
//  Source text
// --------------------------------------------------------------------------
/// Where `w` first stands in `s` at or behind `i`.
pub open spec fn find(s: Seq<char>, w: Seq<char>, i: int) -> Option<int>
    decreases s.len() - i + 1,
{
    if i < 0 || i + w.len() > s.len() {
        None
    } else if s.subrange(i, i + w.len()) == w {
        Some(i)
    } else {
        find(s, w, i + 1)
    }
}

/// Does the `format` entry of the file's header name the binary format?
pub open spec fn is_binary(text: Seq<char>) -> bool {
    match find(text, "FoamFile"@, 0) {
        None => false,
        Some(h) => match find(text, "{"@, h) {
            None => false,
            Some(b) => match find(text, "}"@, b) {
                None => false,
                Some(e) => {
                    let header = text.subrange(b, e);
                    match find(header, "format"@, 0) {
                        None => false,
                        Some(f) => {
                            let entry = header.skip(f);
                            let value = match find(entry, ";"@, 0) {
                                Some(k) => entry.take(k),
                                None => entry,
                            };
                            find(value, "binary"@, 0) is Some
                        },
                    }
                },
            },
        },
    }
}

/// Where `w` first stands in `s` between `i` and `end`.
pub(crate) fn find_text(s: &Vec<char>, w: &str, i: usize, end: usize) -> (r: Option<usize>)
    requires
        i <= end <= s.len(),
    ensures
        match (r, find(s@.take(end as int), w@, i as int)) {
            (Some(a), Some(b)) => a == b && i <= a <= end,
            (None, None) => true,
            _ => false,
        },
{
    let v = chars_of(w);
    let ghost t = s@.take(end as int);
    let mut j: usize = i;
    while v.len() <= end - j
        invariant
            i <= j <= end <= s.len(),
            t == s@.take(end as int),
            v@ == w@,
            find(t, w@, i as int) == find(t, w@, j as int),
        decreases end - j,
    {
        let mut k: usize = 0;
        while k < v.len() && s[j + k] == v[k]
            invariant
                k <= v.len(),
                v.len() <= end - j,
                j <= end <= s.len(),
                forall|x: int| 0 <= x < k ==> s[j + x] == v[x],
            decreases v.len() - k,
        {
            k = k + 1;
        }
        if k == v.len() {
            assert(t.subrange(j as int, j + v.len()) =~= v@);
            return Some(j);
        }
        assert(t.subrange(j as int, j + v.len())[k as int] != v[k as int]);
        if j == end {
            return None;
        }
        j = j + 1;
    }
    None
}

/// What a user is told about a binary file.
pub open spec fn binary_message() -> Seq<char> {
    "written in binary format, which ofgpu does not read.\n    Convert the case with:  foamFormatConvert -constant -allTime\n    (or set  writeFormat ascii;  in system/controlDict before writing)."@
}

/// What a user is told about a compressed file.
pub open spec fn compressed_message() -> Seq<char> {
    "this file is gzip-compressed. ofgpu reads plain ASCII only - run 'gunzip' on the case (or set writeCompression off) and try again."@
}

/// The failure for a file of which only the compressed one is there.
pub fn compressed_error(path: &str) -> (e: Error)
    ensures
        e@ == (Failure::Parse { path: path@, msg: compressed_message() }),
{
    parse_error(
        path,
        copy(
            "this file is gzip-compressed. ofgpu reads plain ASCII only - run 'gunzip' on the case (or set writeCompression off) and try again.",
        ),
    )
}

/// The failure for a binary file.
pub fn binary_error(path: &str) -> (e: Error)
    ensures
        e@ == (Failure::Parse { path: path@, msg: binary_message() }),
{
    parse_error(
        path,
        copy(
            "written in binary format, which ofgpu does not read.\n    Convert the case with:  foamFormatConvert -constant -allTime\n    (or set  writeFormat ascii;  in system/controlDict before writing).",
        ),
    )
}

/// Refuse a binary file before tokenising it. The entry ends at its `;`, so the
/// word in a comment behind it means nothing.
pub fn check_ascii_format(text: &str, path: &str) -> (r: Result<(), Error>)
    ensures
        match r {
            Ok(_) => !is_binary(text@),
            Err(e) => is_binary(text@) && e@ == (Failure::Parse {
                path: path@,
                msg: binary_message(),
            }),
        },
{
    let s = chars_of(text);
    let n: usize = s.len();
    assert(s@.take(n as int) =~= text@);
    let h: usize = match find_text(&s, "FoamFile", 0, n) {
        Some(h) => h,
        None => {
            return Ok(());
        },
    };
    let b: usize = match find_text(&s, "{", h, n) {
        Some(b) => b,
        None => {
            return Ok(());
        },
    };
    let e: usize = match find_text(&s, "}", b, n) {
        Some(e) => e,
        None => {
            return Ok(());
        },
    };
    let header = part(&s, b, e);
    let m: usize = header.len();
    assert(header@.take(m as int) =~= header@);
    let f: usize = match find_text(&header, "format", 0, m) {
        Some(f) => f,
        None => {
            return Ok(());
        },
    };
    let entry = part(&header, f, m);
    assert(entry@ =~= header@.skip(f as int));
    let k: usize = entry.len();
    assert(entry@.take(k as int) =~= entry@);
    let stop: usize = match find_text(&entry, ";", 0, k) {
        Some(x) => x,
        None => k,
    };
    match find_text(&entry, "binary", 0, stop) {
        Some(_) => Err(binary_error(path)),
        None => Ok(()),
    }
}

fn part(s: &Vec<char>, a: usize, b: usize) -> (r: Vec<char>)
    requires
        a <= b <= s.len(),
    ensures
        r@ == s@.subrange(a as int, b as int),
{
    let mut out: Vec<char> = Vec::new();
    let mut i: usize = a;
    while i < b
        invariant
            a <= i <= b <= s.len(),
            out@ =~= s@.subrange(a as int, i as int),
        decreases b - i,
    {
        out.push(s[i]);
        i = i + 1;
    }
    out
}

} // verus!
