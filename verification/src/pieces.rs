//! The tokens of a text that is put together of pieces.
//!
//! A piece that ends where a token ends gives the same tokens whatever follows
//! it, so that the tokens of a file are those of its pieces, one behind the other.

use vstd::prelude::*;

use crate::dict::spaced;
use crate::numeral::{mantissa, mantissa_end, parsed, spells, written_exponent};
use crate::text::{digit_run, is_digit, is_letter, is_space, lemma_digit_run, lower};
use crate::tokenizer::{
    blanked, block_end, chunk_end, is_punct_char, is_sign, is_word_char, lemma_token_at, line_end,
    number_end, number_starts, opens_comment, quote_end, quoted, scanned, token_at, token_number,
    uncommented, word_end, Token,
};

verus! {

/// The tokens of a text, and whether every string in it is closed.
pub open spec fn lexed(s: Seq<char>) -> (Seq<Token>, bool) {
    scan(uncommented(s, 0))
}

/// The tokens of a text without comments.
pub open spec fn scan(s: Seq<char>) -> (Seq<Token>, bool) {
    let x = scanned(s, 0, 1);
    (x.toks, x.unclosed is None)
}

/// Does a piece give these tokens, whatever follows it?
#[verifier::opaque]
pub open spec fn gives(a: Seq<char>, k: Seq<Token>) -> bool {
    forall|b: Seq<char>| #[trigger] lexed(a + b) == (k + lexed(b).0, lexed(b).1)
}

spec fn strips(a: Seq<char>, t: Seq<char>) -> bool {
    forall|b: Seq<char>| #[trigger] uncommented(a + b, 0) == t + uncommented(b, 0)
}

spec fn scans(a: Seq<char>, k: Seq<Token>) -> bool {
    forall|y: Seq<char>| #[trigger] scan(a + y) == (k + scan(y).0, scan(y).1)
}

proof fn lemma_gives(a: Seq<char>, t: Seq<char>, k: Seq<Token>)
    requires
        strips(a, t),
        scans(t, k),
    ensures
        gives(a, k),
{
    reveal(gives);
    assert forall|b: Seq<char>| #[trigger] lexed(a + b) == (k + lexed(b).0, lexed(b).1) by {
        assert(uncommented(a + b, 0) == t + uncommented(b, 0));
        assert(scan(t + uncommented(b, 0)) == (
            k + scan(uncommented(b, 0)).0,
            scan(uncommented(b, 0)).1,
        ));
    }
}

// --------------------------------------------------------------------------
//  The rest of a text
// --------------------------------------------------------------------------
proof fn lemma_quote_shift(s: Seq<char>, d: int, i: int, q: char)
    requires
        0 <= d <= i <= s.len(),
    ensures
        quote_end(s, i, q) == quote_end(s.skip(d), i - d, q) + d,
    decreases s.len() - i,
{
    if i < s.len() {
        assert(s.skip(d)[i - d] == s[i]);
        if s[i] != q {
            if s[i] == '\\' && i + 1 < s.len() {
                lemma_quote_shift(s, d, i + 2, q);
            } else {
                lemma_quote_shift(s, d, i + 1, q);
            }
        }
    }
}

proof fn lemma_line_shift(s: Seq<char>, d: int, i: int)
    requires
        0 <= d <= i <= s.len(),
    ensures
        line_end(s, i) == line_end(s.skip(d), i - d) + d,
    decreases s.len() - i,
{
    if i < s.len() {
        assert(s.skip(d)[i - d] == s[i]);
        if s[i] != '\n' {
            lemma_line_shift(s, d, i + 1);
        }
    }
}

proof fn lemma_block_shift(s: Seq<char>, d: int, i: int)
    requires
        0 <= d <= i <= s.len(),
    ensures
        block_end(s, i) == block_end(s.skip(d), i - d) + d,
    decreases s.len() - i,
{
    if i + 1 < s.len() {
        assert(s.skip(d)[i - d] == s[i]);
        assert(s.skip(d)[i + 1 - d] == s[i + 1]);
        if !(s[i] == '*' && s[i + 1] == '/') {
            lemma_block_shift(s, d, i + 1);
        }
    }
}

proof fn lemma_uncommented_shift(s: Seq<char>, d: int, i: int)
    requires
        0 <= d <= i <= s.len(),
    ensures
        uncommented(s, i) == uncommented(s.skip(d), i - d),
    decreases s.len() - i,
{
    if i < s.len() {
        let r = s.skip(d);
        assert(r[i - d] == s[i]);
        if i + 1 < s.len() {
            assert(r[i + 1 - d] == s[i + 1]);
        }
        if s[i] == '"' || s[i] == '\'' {
            lemma_quote_shift(s, d, i + 1, s[i]);
        } else if s[i] == '/' && i + 1 < s.len() && s[i + 1] == '/' {
            lemma_line_shift(s, d, i);
        } else if s[i] == '/' && i + 1 < s.len() && s[i + 1] == '*' {
            lemma_block_shift(s, d, i + 2);
        }
        let e = chunk_end(s, i);
        assert(chunk_end(r, i - d) == e - d);
        if i < e <= s.len() {
            lemma_uncommented_shift(s, d, e);
            assert(r.subrange(i - d, e - d) =~= s.subrange(i, e));
        }
    }
}

proof fn lemma_run_shift(s: Seq<char>, d: int, i: int)
    requires
        0 <= d <= i <= s.len(),
    ensures
        digit_run(s, i) == digit_run(s.skip(d), i - d) + d,
    decreases s.len() - i,
{
    if i < s.len() {
        assert(s.skip(d)[i - d] == s[i]);
        if is_digit(s[i]) {
            lemma_run_shift(s, d, i + 1);
        }
    }
}

#[verifier::rlimit(40)]
#[verifier::spinoff_prover]
proof fn lemma_number_shift(s: Seq<char>, d: int, i: int)
    requires
        0 <= d <= i < s.len(),
    ensures
        number_starts(s, i) == number_starts(s.skip(d), i - d),
        number_end(s, i) == number_end(s.skip(d), i - d) + d,
{
    let r = s.skip(d);
    let n = s.len();
    assert forall|k: int| d <= k < n implies #[trigger] s[k] == r[k - d] by {}
    let st = if is_sign(s[i]) { i + 1 } else { i };
    lemma_run_shift(s, d, st);
    lemma_digit_run(s, st);
    let a = digit_run(s, st);
    if a < n && s[a] == '.' {
        lemma_run_shift(s, d, a + 1);
        lemma_digit_run(s, a + 1);
    }
    let b = if a < n && s[a] == '.' { digit_run(s, a + 1) } else { a };
    if b < n && (s[b] == 'e' || s[b] == 'E') {
        let k = if b + 1 < n && is_sign(s[b + 1]) { b + 2 } else { b + 1 };
        if k < n {
            lemma_run_shift(s, d, k);
        }
    }
}

proof fn lemma_word_shift(s: Seq<char>, d: int, i: int, depth: nat)
    requires
        0 <= d <= i <= s.len(),
    ensures
        word_end(s, i, depth) == word_end(s.skip(d), i - d, depth) + d,
    decreases s.len() - i,
{
    if i < s.len() {
        assert(s.skip(d)[i - d] == s[i]);
        if s[i] == '(' {
            lemma_word_shift(s, d, i + 1, depth + 1);
        } else if s[i] == ')' {
            if depth > 0 {
                lemma_word_shift(s, d, i + 1, (depth - 1) as nat);
            }
        } else if is_word_char(s[i]) {
            lemma_word_shift(s, d, i + 1, depth);
        }
    }
}

proof fn lemma_quoted_shift(s: Seq<char>, d: int, i: int, q: char)
    requires
        0 <= d <= i <= s.len(),
    ensures
        quoted(s, i, q).0 == quoted(s.skip(d), i - d, q).0,
        quoted(s, i, q).1 == quoted(s.skip(d), i - d, q).1 + d,
    decreases s.len() - i,
{
    if i < s.len() {
        assert(s.skip(d)[i - d] == s[i]);
        if s[i] != q {
            let k = if s[i] == '\\' && i + 1 < s.len() { i + 1 } else { i };
            assert(s.skip(d)[k - d] == s[k]);
            lemma_quoted_shift(s, d, k + 1, q);
        }
    }
}

#[verifier::rlimit(40)]
#[verifier::spinoff_prover]
proof fn lemma_token_shift(s: Seq<char>, d: int, i: int)
    requires
        0 <= d <= i < s.len(),
    ensures
        token_at(s, i).token == token_at(s.skip(d), i - d).token,
        token_at(s, i).end == token_at(s.skip(d), i - d).end + d,
        token_at(s, i).breaks == token_at(s.skip(d), i - d).breaks,
{
    let r = s.skip(d);
    assert(r[i - d] == s[i]);
    lemma_quoted_shift(s, d, i + 1, s[i]);
    lemma_number_shift(s, d, i);
    lemma_word_shift(s, d, i, 0);
    let j = number_end(s, i);
    lemma_token_at(s, i);
    if number_starts(s, i) {
        crate::tokenizer::lemma_number_end(s, i);
        if j < s.len() {
            assert(r[j - d] == s[j]);
        }
        assert(r.subrange(i - d, j - d) =~= s.subrange(i, j));
    }
    let w = word_end(s, i, 0);
    crate::tokenizer::lemma_word_end(s, i, 0);
    assert(r.subrange(i - d, w - d) =~= s.subrange(i, w));
}

#[verifier::rlimit(40)]
#[verifier::spinoff_prover]
proof fn lemma_scan_shift(s: Seq<char>, d: int, i: int, l: nat, m: nat)
    requires
        0 <= d <= i,
        d <= s.len(),
    ensures
        scanned(s, i, l).toks == scanned(s.skip(d), i - d, m).toks,
        (scanned(s, i, l).unclosed is None) == (scanned(s.skip(d), i - d, m).unclosed is None),
    decreases s.len() - i,
{
    if i < s.len() {
        let r = s.skip(d);
        assert(r[i - d] == s[i]);
        if s[i] == '\n' {
            lemma_scan_shift(s, d, i + 1, l + 1, m + 1);
        } else if is_space(s[i]) {
            lemma_scan_shift(s, d, i + 1, l, m);
        } else {
            let t = token_at(s, i);
            lemma_token_shift(s, d, i);
            lemma_token_at(s, i);
            lemma_scan_shift(s, d, t.end, l + t.breaks, m + t.breaks);
        }
    }
}

/// Behind its first `n` characters a text is scanned as the rest of it.
proof fn lemma_scan_rest(a: Seq<char>, y: Seq<char>, l: nat)
    ensures
        scanned(a + y, a.len() as int, l).toks == scan(y).0,
        (scanned(a + y, a.len() as int, l).unclosed is None) == scan(y).1,
{
    let s = a + y;
    assert(s.skip(a.len() as int) =~= y);
    lemma_scan_shift(s, a.len() as int, a.len() as int, l, 1);
}

proof fn lemma_uncommented_rest(a: Seq<char>, b: Seq<char>)
    ensures
        uncommented(a + b, a.len() as int) == uncommented(b, 0),
{
    let s = a + b;
    assert(s.skip(a.len() as int) =~= b);
    lemma_uncommented_shift(s, a.len() as int, a.len() as int);
}

// --------------------------------------------------------------------------
//  Comments
// --------------------------------------------------------------------------
/// Does a character neither begin a comment nor a string?
pub open spec fn is_plain(c: char) -> bool {
    c != '/' && c != '"' && c != '\''
}

pub open spec fn all_plain(a: Seq<char>) -> bool {
    forall|i: int| 0 <= i < a.len() ==> is_plain(#[trigger] a[i])
}

proof fn lemma_plain_head(c: char, b: Seq<char>)
    requires
        is_plain(c),
    ensures
        uncommented(seq![c] + b, 0) == seq![c] + uncommented(b, 0),
{
    let s = seq![c] + b;
    lemma_uncommented_rest(seq![c], b);
    assert(s[0] == c);
    assert(chunk_end(s, 0) == 1);
    assert(s.subrange(0, 1) =~= seq![c]);
}

/// A piece without comments and strings stays as it is.
proof fn lemma_plain(a: Seq<char>)
    requires
        all_plain(a),
    ensures
        strips(a, a),
    decreases a.len(),
{
    if a.len() == 0 {
        assert forall|b: Seq<char>| #[trigger] uncommented(a + b, 0) == a + uncommented(b, 0) by {
            assert(a + b =~= b);
            assert(a + uncommented(b, 0) =~= uncommented(b, 0));
        }
    } else {
        let r = a.skip(1);
        assert(all_plain(r)) by {
            assert forall|i: int| 0 <= i < r.len() implies is_plain(#[trigger] r[i]) by {
                assert(r[i] == a[i + 1]);
            }
        }
        lemma_plain(r);
        assert forall|b: Seq<char>| #[trigger] uncommented(a + b, 0) == a + uncommented(b, 0) by {
            assert(is_plain(a[0]));
            lemma_plain_head(a[0], r + b);
            assert(a + b =~= seq![a[0]] + (r + b));
            assert(uncommented(r + b, 0) == r + uncommented(b, 0));
            assert(seq![a[0]] + (r + uncommented(b, 0)) =~= a + uncommented(b, 0));
        }
    }
}

/// Nothing in a text closes its string or takes the next character along.
pub open spec fn is_quotable(t: Seq<char>) -> bool {
    forall|i: int| 0 <= i < t.len() ==> (#[trigger] t[i]) != '"' && t[i] != '\\'
}

/// A text in quotes.
pub open spec fn in_quotes(t: Seq<char>) -> Seq<char> {
    seq!['"'] + t + seq!['"']
}

/// The string that a text in quotes is read as: a backslash takes the next character
/// along, and is dropped.
pub open spec fn string_of(t: Seq<char>) -> Seq<char> {
    quoted(in_quotes(t), 1, '"').0
}

/// Is a text in quotes one string, which its last quote closes?
pub open spec fn is_enclosed(t: Seq<char>) -> bool {
    quoted(in_quotes(t), 1, '"').1 == t.len() + 1
}

/// A text is one string in quotes where it holds no quote and does not end in a
/// backslash.
pub proof fn unquoted_names_are_enclosed(t: Seq<char>)
    requires
        forall|i: int| 0 <= i < t.len() ==> #[trigger] t[i] != '"',
        t.len() > 0 ==> t.last() != '\\',
    ensures
        is_enclosed(t),
{
    lemma_closing_quote(in_quotes(t), 1);
}

proof fn lemma_closing_quote(a: Seq<char>, i: int)
    requires
        0 <= i < a.len(),
        a.last() == '"',
        forall|k: int| i <= k < a.len() - 1 ==> #[trigger] a[k] != '"',
        i < a.len() - 1 ==> a[a.len() - 2] != '\\',
    ensures
        quoted(a, i, '"').1 == a.len() - 1,
    decreases a.len() - i,
{
    if i < a.len() - 1 {
        let k = if a[i] == '\\' { i + 1 } else { i };
        lemma_closing_quote(a, k + 1);
    }
}

/// A text that holds nothing special is read as it is.
proof fn lemma_plain_string(t: Seq<char>)
    requires
        is_quotable(t),
    ensures
        is_enclosed(t),
        string_of(t) == t,
{
    let a = in_quotes(t);
    assert forall|k: int| 1 <= k < a.len() - 1 implies (#[trigger] a[k]) != '"' && a[k] != '\\' by {
        assert(a[k] == t[k - 1]);
    }
    lemma_plain_run(a, 1, a.len() - 1);
    assert(a.subrange(1, a.len() - 1) =~= t);
}

proof fn lemma_plain_run(s: Seq<char>, i: int, j: int)
    requires
        0 <= i <= j < s.len(),
        forall|k: int| i <= k < j ==> (#[trigger] s[k]) != '"' && s[k] != '\\',
        s[j] == '"',
    ensures
        quoted(s, i, '"') == (s.subrange(i, j), j),
    decreases j - i,
{
    if i < j {
        lemma_plain_run(s, i + 1, j);
        assert(seq![s[i]] + s.subrange(i + 1, j) =~= s.subrange(i, j));
    } else {
        assert(s.subrange(i, j) =~= Seq::empty());
    }
}

/// A string that is closed stays as it is, whatever comes behind it.
proof fn lemma_quote_stays(a: Seq<char>, b: Seq<char>, i: int)
    requires
        0 <= i <= a.len(),
        quoted(a, i, '"').1 < a.len(),
    ensures
        quoted(a + b, i, '"') == quoted(a, i, '"'),
        quote_end(a + b, i, '"') == quoted(a, i, '"').1 + 1,
    decreases a.len() - i,
{
    let s = a + b;
    if i < a.len() && a[i] != '"' {
        let k = if a[i] == '\\' && i + 1 < a.len() { i + 1 } else { i };
        assert(s[i] == a[i] && s[k] == a[k]);
        if a[i] == '\\' && i + 1 == a.len() {
            assert(quoted(a, i + 1, '"').1 == a.len());
        }
        lemma_quote_stays(a, b, k + 1);
    } else {
        assert(s[i] == a[i]);
    }
}

/// A text in quotes is a string, where the last quote closes it.
pub proof fn lemma_enclosed(t: Seq<char>)
    requires
        is_enclosed(t),
    ensures
        gives(in_quotes(t), seq![Token::Str(string_of(t))]),
{
    let a = in_quotes(t);
    let j = t.len() as int + 1;
    assert forall|b: Seq<char>| #[trigger] uncommented(a + b, 0) == a + uncommented(b, 0) by {
        let s = a + b;
        assert(s[0] == '"');
        lemma_quote_stays(a, b, 1);
        lemma_uncommented_rest(a, b);
        assert(chunk_end(s, 0) == a.len());
        assert(s.subrange(0, a.len() as int) =~= a);
    }
    let k = seq![Token::Str(string_of(t))];
    assert forall|y: Seq<char>| #[trigger] scan(a + y) == (k + scan(y).0, scan(y).1) by {
        let s = a + y;
        assert(s[0] == '"');
        lemma_quote_stays(a, y, 1);
        let l = token_at(s, 0);
        assert(l.token == Some(Token::Str(string_of(t))) && l.end == a.len());
        lemma_scan_rest(a, y, 1 + l.breaks);
    }
    lemma_gives(a, a, k);
}

/// A text in quotes is a string.
pub proof fn lemma_string(t: Seq<char>)
    requires
        is_quotable(t),
    ensures
        gives(in_quotes(t), seq![Token::Str(t)]),
{
    lemma_plain_string(t);
    lemma_enclosed(t);
}

proof fn lemma_block_runs(s: Seq<char>, i: int, j: int)
    requires
        0 <= i <= j,
        j + 1 < s.len(),
        forall|k: int| i <= k < j ==> !((#[trigger] s[k]) == '*' && s[k + 1] == '/'),
        s[j] == '*' && s[j + 1] == '/',
    ensures
        block_end(s, i) == j + 2,
    decreases j - i,
{
    if i < j {
        assert(!(s[i] == '*' && s[i + 1] == '/'));
        lemma_block_runs(s, i + 1, j);
    }
}

/// Does a text hold nothing but spaces?
pub open spec fn all_spaces(a: Seq<char>) -> bool {
    forall|i: int| 0 <= i < a.len() ==> is_space(#[trigger] a[i])
}

proof fn lemma_blanked(a: Seq<char>)
    ensures
        all_spaces(blanked(a)),
{
}

/// A comment in `/*` and `*/` gives nothing.
pub proof fn lemma_block(a: Seq<char>)
    requires
        a.len() >= 4,
        a[0] == '/',
        a[1] == '*',
        a[a.len() - 2] == '*',
        a[a.len() - 1] == '/',
        forall|k: int| 2 <= k < a.len() - 2 ==> !((#[trigger] a[k]) == '*' && a[k + 1] == '/'),
    ensures
        gives(a, Seq::empty()),
{
    let t = blanked(a);
    let n = a.len() as int;
    assert forall|b: Seq<char>| #[trigger] uncommented(a + b, 0) == t + uncommented(b, 0) by {
        let s = a + b;
        assert forall|k: int| 2 <= k < n - 2 implies !((#[trigger] s[k]) == '*' && s[k + 1]
            == '/') by {
            assert(s[k] == a[k] && s[k + 1] == a[k + 1]);
        }
        assert(s[n - 2] == a[n - 2] && s[n - 1] == a[n - 1]);
        assert(s[0] == '/' && s[1] == '*');
        lemma_block_runs(s, 2, n - 2);
        lemma_uncommented_rest(a, b);
        assert(chunk_end(s, 0) == n);
        assert(opens_comment(s, 0));
        assert(s.subrange(0, n) =~= a);
    }
    lemma_blanked(a);
    lemma_spaces_scan(t);
    lemma_gives(a, t, Seq::empty());
}

proof fn lemma_line_runs(s: Seq<char>, i: int, j: int)
    requires
        0 <= i <= j < s.len(),
        forall|k: int| i <= k < j ==> (#[trigger] s[k]) != '\n',
        s[j] == '\n',
    ensures
        line_end(s, i) == j,
    decreases j - i,
{
    if i < j {
        lemma_line_runs(s, i + 1, j);
    }
}

/// A comment up to the end of its line gives nothing.
pub proof fn lemma_line(a: Seq<char>)
    requires
        a.len() >= 2,
        a[0] == '/',
        a[1] == '/',
        forall|k: int| 0 <= k < a.len() ==> (#[trigger] a[k]) != '\n',
    ensures
        gives(a + seq!['\n'], Seq::empty()),
{
    let t = blanked(a) + seq!['\n'];
    let w = a + seq!['\n'];
    let n = a.len() as int;
    assert forall|b: Seq<char>| #[trigger] uncommented(w + b, 0) == t + uncommented(b, 0) by {
        let s = w + b;
        assert(s =~= a + (seq!['\n'] + b));
        assert forall|k: int| 0 <= k < n implies (#[trigger] s[k]) != '\n' by {
            assert(s[k] == a[k]);
        }
        assert(s[n] == '\n' && s[0] == '/' && s[1] == '/');
        lemma_line_runs(s, 0, n);
        lemma_uncommented_rest(a, seq!['\n'] + b);
        lemma_plain_head('\n', b);
        assert(chunk_end(s, 0) == n);
        assert(opens_comment(s, 0));
        assert(s.subrange(0, n) =~= a);
        assert(blanked(a) + (seq!['\n'] + uncommented(b, 0)) =~= t + uncommented(b, 0));
    }
    lemma_blanked(a);
    assert(all_spaces(t)) by {
        assert forall|i: int| 0 <= i < t.len() implies is_space(#[trigger] t[i]) by {
            if i < n {
                assert(t[i] == blanked(a)[i]);
            }
        }
    }
    lemma_spaces_scan(t);
    lemma_gives(w, t, Seq::empty());
}

// --------------------------------------------------------------------------
//  Spaces, marks and joints
// --------------------------------------------------------------------------
proof fn lemma_spaces_scan(a: Seq<char>)
    requires
        all_spaces(a),
    ensures
        scans(a, Seq::empty()),
    decreases a.len(),
{
    let none = Seq::<Token>::empty();
    assert forall|y: Seq<char>| #[trigger] scan(a + y) == (none + scan(y).0, scan(y).1) by {
        assert(none + scan(y).0 =~= scan(y).0);
        if a.len() == 0 {
            assert(a + y =~= y);
        } else {
            let r = a.skip(1);
            assert(all_spaces(r)) by {
                assert forall|i: int| 0 <= i < r.len() implies is_space(#[trigger] r[i]) by {
                    assert(r[i] == a[i + 1]);
                }
            }
            lemma_spaces_scan(r);
            assert(scan(r + y) == (none + scan(y).0, scan(y).1));
            let s = a + y;
            assert(s[0] == a[0]);
            assert(is_space(a[0]));
            assert(s =~= seq![a[0]] + (r + y));
            lemma_scan_rest(seq![a[0]], r + y, 1);
            lemma_scan_rest(seq![a[0]], r + y, 2);
        }
    }
}

/// Spaces give nothing.
pub proof fn lemma_spaces(a: Seq<char>)
    requires
        all_spaces(a),
    ensures
        gives(a, Seq::empty()),
{
    assert forall|i: int| 0 <= i < a.len() implies is_plain(#[trigger] a[i]) by {
        assert(is_space(a[i]));
    }
    lemma_plain(a);
    lemma_spaces_scan(a);
    lemma_gives(a, a, Seq::empty());
}

/// A mark gives itself.
pub proof fn lemma_mark(c: char)
    requires
        is_punct_char(c),
    ensures
        gives(seq![c], seq![Token::Punct(c)]),
{
    lemma_plain(seq![c]);
    lemma_mark_scan(c);
    lemma_gives(seq![c], seq![c], seq![Token::Punct(c)]);
}

/// Two pieces give the tokens of the one, then those of the other.
pub proof fn lemma_joint(a: Seq<char>, j: Seq<Token>, b: Seq<char>, k: Seq<Token>)
    requires
        gives(a, j),
        gives(b, k),
    ensures
        gives(a + b, j + k),
{
    reveal(gives);
    let m = j + k;
    assert forall|c: Seq<char>| #[trigger] lexed((a + b) + c) == (m + lexed(c).0, lexed(c).1) by {
        assert((a + b) + c =~= a + (b + c));
        assert(lexed(a + (b + c)) == (j + lexed(b + c).0, lexed(b + c).1));
        assert(lexed(b + c) == (k + lexed(c).0, lexed(c).1));
        assert(j + (k + lexed(c).0) =~= m + lexed(c).0);
    }
}

/// A text of pieces gives what they give.
pub proof fn lemma_whole(a: Seq<char>, k: Seq<Token>)
    requires
        gives(a, k),
    ensures
        lexed(a) == (k, true),
{
    reveal(gives);
    let e = Seq::<char>::empty();
    assert(a + e =~= a);
    assert(lexed(a + e) == (k + lexed(e).0, lexed(e).1));
    assert(uncommented(e, 0) =~= e);
    assert(lexed(e) == (Seq::<Token>::empty(), true));
    assert(k + Seq::<Token>::empty() =~= k);
}

// --------------------------------------------------------------------------
//  Words and numbers
// --------------------------------------------------------------------------
/// Is a text, read by itself, one token other than a mark or a string?
#[verifier::opaque]
pub open spec fn is_single(t: Seq<char>) -> bool {
    &&& t.len() > 0
    &&& forall|i: int| 0 <= i < t.len() ==> is_word_char(#[trigger] t[i])
    &&& t[0] != '(' && t[0] != ')'
    &&& token_at(t, 0).token is Some
    &&& token_at(t, 0).end == t.len()
}

/// The token that it is.
#[verifier::opaque]
pub open spec fn single(t: Seq<char>) -> Token {
    token_at(t, 0).token->Some_0
}

/// Is a text, read by itself, one word?
pub open spec fn is_one_word(t: Seq<char>) -> bool {
    is_single(t) && single(t) == Token::Word(t)
}

pub open spec fn has_no_parens(t: Seq<char>) -> bool {
    forall|i: int| 0 <= i < t.len() ==> (#[trigger] t[i]) != '(' && t[i] != ')'
}

/// Does the word or number in front of `c` end there?
pub open spec fn is_break(t: Seq<char>, c: char) -> bool {
    ||| is_space(c) || c == ';' || c == ']'
    ||| c == ')' && has_no_parens(t)
    ||| c == '(' && single(t) is Num
}

proof fn lemma_word_stops(t: Seq<char>, r: Seq<char>, j: int, depth: nat)
    requires
        0 <= j <= t.len(),
        word_end(t, j, depth) == t.len(),
        r.len() > 0,
        is_break(t, r[0]),
        r[0] == ')' ==> depth == 0,
        r[0] != '(',
    ensures
        word_end(t + r, j, depth) == t.len(),
    decreases t.len() - j,
{
    reveal(single);
    let s = t + r;
    if j < t.len() {
        assert(s[j] == t[j]);
        if t[j] == '(' {
            lemma_word_stops(t, r, j + 1, depth + 1);
        } else if t[j] == ')' {
            if depth > 0 {
                lemma_word_stops(t, r, j + 1, (depth - 1) as nat);
            }
        } else if is_word_char(t[j]) {
            lemma_word_stops(t, r, j + 1, depth);
        }
    } else {
        assert(s[j] == r[0]);
    }
}

proof fn lemma_run_stops(t: Seq<char>, r: Seq<char>, i: int)
    requires
        0 <= i <= t.len(),
        r.len() > 0,
        !is_digit(r[0]),
    ensures
        digit_run(t + r, i) == digit_run(t, i),
    decreases t.len() - i,
{
    let s = t + r;
    if i < t.len() {
        assert(s[i] == t[i]);
        if is_digit(t[i]) {
            lemma_run_stops(t, r, i + 1);
        }
    } else {
        assert(s[i] == r[0]);
    }
}

proof fn lemma_number_stops(t: Seq<char>, r: Seq<char>)
    requires
        t.len() > 0,
        r.len() > 0,
        is_break(t, r[0]),
    ensures
        number_starts(t + r, 0) == number_starts(t, 0),
        number_end(t + r, 0) == number_end(t, 0),
{
    reveal(single);
    let s = t + r;
    let n = t.len() as int;
    assert forall|k: int| 0 <= k < n implies #[trigger] s[k] == t[k] by {}
    assert(s[n] == r[0]);
    let st = if is_sign(t[0]) { 1int } else { 0 };
    lemma_run_stops(t, r, st);
    lemma_digit_run(t, st);
    let a = digit_run(t, st);
    if a < n && t[a] == '.' {
        lemma_run_stops(t, r, a + 1);
        lemma_digit_run(t, a + 1);
    }
    let b = if a < n && t[a] == '.' { digit_run(t, a + 1) } else { a };
    if b < n && (t[b] == 'e' || t[b] == 'E') {
        let k = if b + 1 < n && is_sign(t[b + 1]) { b + 2 } else { b + 1 };
        if k < n {
            lemma_run_stops(t, r, k);
        }
    }
}

/// In front of a break a token is what it is by itself.
#[verifier::rlimit(40)]
#[verifier::spinoff_prover]
proof fn lemma_single_stops(t: Seq<char>, r: Seq<char>)
    requires
        is_single(t),
        r.len() > 0,
        is_break(t, r[0]),
    ensures
        token_at(t + r, 0) == token_at(t, 0),
{
    reveal(is_single);
    reveal(single);
    let s = t + r;
    let n = t.len() as int;
    assert(s[0] == t[0]);
    assert(is_word_char(t[0]));
    lemma_number_stops(t, r);
    if number_starts(t, 0) {
        let j = number_end(t, 0);
        crate::tokenizer::lemma_number_end(t, 0);
        if j < n {
            assert(s[j] == t[j]);
        } else {
            assert(s[j] == r[0]);
        }
        assert(s.subrange(0, j) =~= t.subrange(0, j));
    }
    let w = word_end(t, 0, 0);
    if number_starts(t, 0) && number_end(t, 0) == n {
    } else if w == n {
        lemma_word_stops(t, r, 0, 0);
        assert(s.subrange(0, n) =~= t.subrange(0, n));
    } else {
        assert(t.subrange(0, n) =~= t);
        crate::tokenizer::lemma_word_end(t, 0, 0);
        assert(w == 0);
        assert(s[0] == t[0]);
        reveal_with_fuel(word_end, 2);
        assert(false);
    }
}

/// A word or a number in front of a space.
pub proof fn lemma_single(t: Seq<char>, c: char)
    requires
        is_single(t),
        is_space(c),
    ensures
        gives(t + seq![c], seq![single(t)]),
{
    lemma_single_and(t, seq![c], Seq::empty());
    let k = seq![single(t)] + Seq::<Token>::empty();
    assert(k =~= seq![single(t)]);
}

/// A word or a number in front of a mark.
pub proof fn lemma_single_mark(t: Seq<char>, c: char)
    requires
        is_single(t),
        is_punct_char(c),
        is_break(t, c),
    ensures
        gives(t + seq![c], seq![single(t), Token::Punct(c)]),
{
    lemma_single_and(t, seq![c], seq![Token::Punct(c)]);
    assert(seq![single(t)] + seq![Token::Punct(c)] =~= seq![single(t), Token::Punct(c)]);
}

#[verifier::rlimit(40)]
#[verifier::spinoff_prover]
proof fn lemma_single_and(t: Seq<char>, e: Seq<char>, j: Seq<Token>)
    requires
        is_single(t),
        e.len() == 1,
        is_break(t, e[0]),
        j == (if is_space(e[0]) { Seq::empty() } else { seq![Token::Punct(e[0])] }),
    ensures
        gives(t + e, seq![single(t)] + j),
{
    reveal(is_single);
    reveal(single);
    let a = t + e;
    let k = seq![single(t)] + j;
    assert(all_plain(a)) by {
        assert forall|i: int| 0 <= i < a.len() implies is_plain(#[trigger] a[i]) by {
            if i < t.len() {
                assert(is_word_char(t[i]));
            }
        }
    }
    lemma_plain(a);
    assert forall|y: Seq<char>| #[trigger] scan(a + y) == (k + scan(y).0, scan(y).1) by {
        let s = a + y;
        let r = e + y;
        assert(s =~= t + r);
        lemma_single_stops(t, r);
        assert(s[0] == t[0]);
        assert(is_word_char(t[0]));
        let l = token_at(s, 0);
        lemma_scan_rest(t, r, 1 + l.breaks);
        if is_space(e[0]) {
            lemma_spaces_scan(e);
        } else {
            lemma_mark_scan(e[0]);
            assert(e =~= seq![e[0]]);
        }
        assert(scan(e + y) == (j + scan(y).0, scan(y).1));
        assert(seq![single(t)] + (j + scan(y).0) =~= k + scan(y).0);
    }
    lemma_gives(a, a, k);
}

proof fn lemma_mark_scan(c: char)
    requires
        is_punct_char(c),
    ensures
        scans(seq![c], seq![Token::Punct(c)]),
{
    let a = seq![c];
    let k = seq![Token::Punct(c)];
    assert forall|y: Seq<char>| #[trigger] scan(a + y) == (k + scan(y).0, scan(y).1) by {
        let s = a + y;
        assert(s[0] == c);
        assert(token_at(s, 0).end == 1);
        lemma_scan_rest(a, y, 1);
    }
}

proof fn lemma_word_all(t: Seq<char>, j: int)
    requires
        0 <= j <= t.len(),
        forall|i: int| 0 <= i < t.len() ==> is_word_char(#[trigger] t[i]) && t[i] != '(' && t[i]
            != ')',
    ensures
        word_end(t, j, 0) == t.len(),
    decreases t.len() - j,
{
    if j < t.len() {
        assert(is_word_char(t[j]));
        lemma_word_all(t, j + 1);
    }
}

/// A text that begins with a letter, and holds nothing that ends a word, is one.
pub proof fn lemma_one_word(t: Seq<char>)
    requires
        t.len() > 0,
        is_letter(t[0]) || t[0] == '_',
        forall|i: int| 0 <= i < t.len() ==> is_word_char(#[trigger] t[i]) && t[i] != '(' && t[i]
            != ')',
    ensures
        is_one_word(t),
{
    reveal(is_single);
    reveal(single);
    lemma_word_all(t, 0);
    assert(!number_starts(t, 0));
    assert(t.subrange(0, t.len() as int) =~= t);
}

/// A text that stands for a number is one token, which stands for that number.
#[verifier::rlimit(40)]
#[verifier::spinoff_prover]
pub proof fn lemma_number(t: Seq<char>)
    requires
        parsed(t) is Some,
    ensures
        is_single(t),
        token_number(single(t)) == parsed(t),
        has_no_parens(t),
        single(t) is Num || single(t) == Token::Word(t),
        number_starts(t, 0) ==> single(t) == Token::Num(parsed(t)->Some_0),
{
    reveal(is_single);
    reveal(single);
    let signed = t.len() > 0 && is_sign(t[0]);
    let d = if signed { 1int } else { 0 };
    let body = if signed { t.skip(1) } else { t };
    assert(t.skip(d) =~= body);
    reveal_strlit("inf");
    reveal_strlit("infinity");
    reveal_strlit("nan");
    assert forall|i: int| 0 <= i < body.len() implies #[trigger] body[i] == t[i + d] by {}
    assert(t.subrange(0, t.len() as int) =~= t);
    if spells(body, "inf"@) || spells(body, "infinity"@) || spells(body, "nan"@) {
        let w = if spells(body, "inf"@) {
            "inf"@
        } else if spells(body, "infinity"@) {
            "infinity"@
        } else {
            "nan"@
        };
        assert forall|i: int| 0 <= i < w.len() implies is_letter(#[trigger] w[i]) by {}
        assert forall|i: int| 0 <= i < t.len() implies is_word_char(#[trigger] t[i]) && t[i] != '('
            && t[i] != ')' && (i >= d ==> is_letter(t[i])) by {
            if i >= d {
                assert(body[i - d] == t[i]);
                assert(lower(body[i - d]) == w[i - d]);
                assert(is_letter(w[i - d]));
            }
        }
        assert(body.len() > 0);
        assert(body[0] == t[d]);
        lemma_word_all(t, 0);
        assert(!number_starts(t, 0));
    } else {
        lemma_numeral_end(t, d);
    }
}

/// Where the parts of a numeral end: its digits, its fraction, and the whole.
proof fn lemma_numeral_parts(t: Seq<char>, d: int, a: int, b: int, k: int)
    requires
        0 <= d <= t.len(),
        mantissa(t.skip(d)).len() > 0,
        written_exponent(t.skip(d), mantissa_end(t.skip(d))) is Some,
        a == digit_run(t, d),
        b == (if a < t.len() && t[a] == '.' { digit_run(t, a + 1) } else { a }),
        k == (if b + 1 < t.len() && is_sign(t[b + 1]) { b + 2 } else { b + 1 }),
    ensures
        d <= a <= b <= t.len(),
        d < b,
        a == d ==> t[a] == '.' && a + 1 < b,
        b < t.len() ==> k < t.len() && (t[b] == 'e' || t[b] == 'E') && is_digit(t[k]) && digit_run(
            t,
            k,
        ) == t.len(),
{
    let body = t.skip(d);
    let n = t.len() as int;
    lemma_run_shift(t, d, d);
    lemma_digit_run(t, d);
    if a < n {
        assert(body[a - d] == t[a]);
        if t[a] == '.' {
            lemma_run_shift(t, d, a + 1);
            lemma_digit_run(t, a + 1);
        }
    }
    assert(mantissa_end(body) == b - d);
    if b < n {
        assert(body[b - d] == t[b]);
        if b + 1 < n {
            assert(body[b + 1 - d] == t[b + 1]);
        }
        if k <= n {
            lemma_run_shift(t, d, k);
            lemma_digit_run(t, k);
        }
    }
}

proof fn lemma_numeral_chars(t: Seq<char>, d: int, a: int, b: int, k: int)
    requires
        0 <= d <= a <= b <= t.len(),
        d == (if t.len() > 0 && is_sign(t[0]) { 1int } else { 0 }),
        a == digit_run(t, d),
        b == (if a < t.len() && t[a] == '.' { digit_run(t, a + 1) } else { a }),
        k == (if b + 1 < t.len() && is_sign(t[b + 1]) { b + 2 } else { b + 1 }),
        b < t.len() ==> k < t.len() && (t[b] == 'e' || t[b] == 'E') && digit_run(t, k) == t.len(),
    ensures
        forall|i: int| 0 <= i < t.len() ==> is_word_char(#[trigger] t[i]) && t[i] != '(' && t[i]
            != ')',
{
    lemma_digit_run(t, d);
    if a < t.len() && t[a] == '.' {
        lemma_digit_run(t, a + 1);
    }
    if b < t.len() {
        lemma_digit_run(t, k);
    }
    assert forall|i: int| 0 <= i < t.len() implies is_word_char(#[trigger] t[i]) && t[i] != '('
        && t[i] != ')' by {
        assert(i < d || i == a || i == b || (i == b + 1 && is_sign(t[i])) || is_digit(t[i]));
    }
}

#[verifier::rlimit(40)]
#[verifier::spinoff_prover]
proof fn lemma_numeral_end(t: Seq<char>, d: int)
    requires
        t.len() > 0,
        d == (if is_sign(t[0]) { 1int } else { 0 }),
        parsed(t) is Some,
        mantissa(t.skip(d)).len() > 0,
        written_exponent(t.skip(d), mantissa_end(t.skip(d))) is Some,
    ensures
        forall|i: int| 0 <= i < t.len() ==> is_word_char(#[trigger] t[i]) && t[i] != '(' && t[i]
            != ')',
        is_single(t),
        single(t) == Token::Num(parsed(t)->Some_0),
{
    reveal(is_single);
    reveal(single);
    let a = digit_run(t, d);
    let b = if a < t.len() && t[a] == '.' { digit_run(t, a + 1) } else { a };
    let k = if b + 1 < t.len() && is_sign(t[b + 1]) { b + 2 } else { b + 1 };
    lemma_numeral_parts(t, d, a, b, k);
    lemma_numeral_chars(t, d, a, b, k);
    lemma_digit_run(t, d);
    if a < t.len() && t[a] == '.' {
        lemma_digit_run(t, a + 1);
    }
    if a > d {
        assert(is_digit(t[d]));
    } else {
        assert(is_digit(t[a + 1]));
    }
    assert(number_starts(t, 0));
    assert(number_end(t, 0) == t.len());
    assert(t.subrange(0, t.len() as int) =~= t);
}

// --------------------------------------------------------------------------
//  Values
// --------------------------------------------------------------------------
/// Some tokens as one text, spaced as a reader spaces them.
pub open spec fn joined(k: Seq<Token>) -> Seq<char>
    decreases k.len(),
{
    if k.len() == 0 {
        Seq::empty()
    } else {
        spaced(joined(k.drop_last()), k.last(), k.last().text())
    }
}

/// May a token stand in the value of an entry, and is its text read as that token?
pub open spec fn is_value_token(t: Token) -> bool {
    match t {
        Token::Word(w) => is_one_word(w) && w.last() != '(',
        Token::Num(_) => is_single(t.text()) && single(t.text()) == t && has_no_parens(t.text()),
        Token::Punct(c) => c == '(' || c == ')' || c == '[' || c == ']',
        Token::Str(_) => false,
    }
}

/// Some tokens of a value, one at least; a word that holds parentheses does not stand in
/// front of one that closes.
pub open spec fn is_value(k: Seq<Token>) -> bool {
    &&& k.len() > 0
    &&& forall|i: int| 0 <= i < k.len() ==> is_value_token(#[trigger] k[i])
    &&& forall|i: int|
        0 < i < k.len() && (#[trigger] k[i]) == Token::Punct(')') ==> may_be_closed(k[i - 1])
}

/// May a parenthesis close behind a token?
pub open spec fn may_be_closed(t: Token) -> bool {
    t is Punct || has_no_parens(t.text())
}

/// Is a text what a reader makes of some tokens, and read as them?
pub open spec fn is_spelled(t: Seq<char>) -> bool {
    exists|k: Seq<Token>| is_value(k) && #[trigger] joined(k) == t
}

/// The tokens that a text is made of.
pub open spec fn spelling(t: Seq<char>) -> Seq<Token> {
    choose|k: Seq<Token>| is_value(k) && #[trigger] joined(k) == t
}

spec fn mark_of(c: char) -> Seq<Token> {
    if is_space(c) {
        Seq::empty()
    } else {
        seq![Token::Punct(c)]
    }
}

proof fn lemma_value_text(t: Token)
    requires
        is_value_token(t),
    ensures
        t.text().len() > 0,
        (t.text().last() == '(' || t.text().last() == '[') ==> t is Punct,
{
    reveal(is_single);
    reveal(single);
    match t {
        Token::Word(w) => {
            assert(is_word_char(w[w.len() - 1]));
        },
        Token::Num(_) => {
            let w = t.text();
            assert(is_word_char(w[w.len() - 1]));
        },
        _ => {},
    }
}

/// One token of a value, and a break behind it.
proof fn lemma_value_token(t: Token, c: char)
    requires
        is_value_token(t),
        is_space(c) || c == ';' || c == ')' || c == ']',
        c == ')' ==> may_be_closed(t),
    ensures
        gives(t.text() + seq![c], seq![t] + mark_of(c)),
{
    let w = t.text();
    match t {
        Token::Punct(d) => {
            lemma_mark(d);
            if is_space(c) {
                lemma_spaces(seq![c]);
            } else {
                lemma_mark(c);
            }
            lemma_joint(seq![d], seq![t], seq![c], mark_of(c));
        },
        _ => {
            if is_space(c) {
                lemma_single(w, c);
                assert(seq![t] + mark_of(c) =~= seq![t]);
            } else {
                lemma_single_mark(w, c);
                assert(seq![t] + mark_of(c) =~= seq![t, Token::Punct(c)]);
            }
        },
    }
}

proof fn lemma_joined(k: Seq<Token>, c: char)
    requires
        is_value(k),
        is_space(c) || c == ';' || c == ')' || c == ']',
        c == ')' ==> may_be_closed(k.last()),
    ensures
        gives(joined(k) + seq![c], k + mark_of(c)),
        joined(k).len() > 0,
        joined(k).last() == k.last().text().last(),
        k.last() is Punct ==> gives(joined(k), k),
    decreases k.len(),
{
    let t = k.last();
    let h = k.drop_last();
    let w = t.text();
    let v = joined(h);
    assert(is_value_token(k[k.len() - 1]));
    lemma_value_text(t);
    lemma_value_token(t, c);
    assert(h + seq![t] =~= k);
    let m = mark_of(c);
    if h.len() == 0 {
        assert(v + w =~= w);
        assert(h =~= Seq::empty());
        assert(k =~= seq![t]);
        if t is Punct {
            lemma_mark(t->Punct_0);
        }
    } else {
        assert(is_value(h)) by {
            assert forall|i: int| 0 <= i < h.len() implies is_value_token(#[trigger] h[i]) by {
                assert(h[i] == k[i]);
            }
            assert forall|i: int| 0 < i < h.len() && (#[trigger] h[i]) == Token::Punct(
                ')',
            ) implies may_be_closed(h[i - 1]) by {
                assert(h[i] == k[i] && h[i - 1] == k[i - 1]);
            }
        }
        assert(k[k.len() - 1] == t && k[k.len() - 2] == h.last());
        let opens = v.last() == '(' || v.last() == '[';
        let closes = t == Token::Punct(')') || t == Token::Punct(']');
        lemma_joined(h, ' ');
        assert(is_value_token(h[h.len() - 1]));
        lemma_value_text(h.last());
        if opens {
            assert(h.last() is Punct);
            lemma_joint(v, h, w + seq![c], seq![t] + m);
            assert(v + (w + seq![c]) =~= joined(k) + seq![c]);
            assert(h + (seq![t] + m) =~= k + m);
            if t is Punct {
                lemma_mark(t->Punct_0);
                lemma_joint(v, h, w, seq![t]);
            }
        } else if closes {
            let d = t->Punct_0;
            lemma_joined(h, d);
            assert(v + seq![d] =~= joined(k));
            assert(h + mark_of(d) =~= k);
            if is_space(c) {
                lemma_spaces(seq![c]);
            } else {
                lemma_mark(c);
            }
            lemma_joint(joined(k), k, seq![c], m);
        } else {
            let u = v + seq![' '];
            assert(h + mark_of(' ') =~= h);
            lemma_joint(u, h, w + seq![c], seq![t] + m);
            assert(u + (w + seq![c]) =~= joined(k) + seq![c]);
            assert(h + (seq![t] + m) =~= k + m);
            if t is Punct {
                lemma_mark(t->Punct_0);
                lemma_joint(u, h, w, seq![t]);
                assert(u + w =~= joined(k));
            }
        }
    }
}

/// The value of an entry and its `;`.
pub proof fn lemma_spelled(t: Seq<char>)
    requires
        is_spelled(t),
    ensures
        gives(t + seq![';'], spelling(t).push(Token::Punct(';'))),
        is_value(spelling(t)),
        joined(spelling(t)) == t,
        t.len() > 0,
{
    let k = spelling(t);
    lemma_joined(k, ';');
    assert(k + mark_of(';') =~= k.push(Token::Punct(';')));
}

/// A word is the value that it is.
pub proof fn lemma_word_is_spelled(t: Seq<char>)
    requires
        is_one_word(t),
        t.last() != '(',
    ensures
        is_spelled(t),
{
    let k = seq![Token::Word(t)];
    assert(k.drop_last() =~= Seq::empty());
    assert(joined(k.drop_last()) =~= Seq::empty());
    assert(joined(k) =~= t);
    assert(is_value(k));
}

} // verus!
