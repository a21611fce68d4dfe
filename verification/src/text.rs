//! Characters, strings and decimal integers.

use vstd::prelude::*;

verus! {

/// `String::push`: the character is added at the end.
pub assume_specification[ String::push ](s: &mut String, c: char)
    ensures
        final(s)@ == old(s)@.push(c),
;

/// The characters of a string.
pub fn chars_of(s: &str) -> (r: Vec<char>)
    ensures
        r@ == s@,
{
    let mut out: Vec<char> = Vec::new();
    for c in it: s.chars()
        invariant
            it.seq() == s@,
            out@ == s@.take(it.index() as int),
    {
        out.push(c);
        assert(s@.take(it.index() as int).push(c) =~= s@.take(it.index() + 1));
    }
    assert(s@.take(s@.len() as int) =~= s@);
    out
}

/// The string made of some characters.
pub fn string_of(v: &[char]) -> (r: String)
    ensures
        r@ == v@,
{
    let mut out: String = String::new();
    let mut i: usize = 0;
    while i < v.len()
        invariant
            i <= v.len(),
            out@ == v@.take(i as int),
        decreases v.len() - i,
    {
        out.push(v[i]);
        i = i + 1;
        assert(v@.take(i - 1).push(v[i - 1]) =~= v@.take(i as int));
    }
    assert(v@.take(i as int) =~= v@);
    out
}

/// The string made of the characters from `a` up to `b`.
pub fn string_between(v: &[char], a: usize, b: usize) -> (r: String)
    requires
        a <= b <= v.len(),
    ensures
        r@ == v@.subrange(a as int, b as int),
{
    let mut out: String = String::new();
    let mut i: usize = a;
    while i < b
        invariant
            a <= i <= b <= v.len(),
            out@ == v@.subrange(a as int, i as int),
        decreases b - i,
    {
        out.push(v[i]);
        i = i + 1;
        assert(v@.subrange(a as int, i - 1).push(v[i - 1]) =~= v@.subrange(a as int, i as int));
    }
    out
}

/// Do two strings have the same characters?
pub fn same(a: &str, b: &str) -> (r: bool)
    ensures
        r == (a@ == b@),
{
    let x = chars_of(a);
    let y = chars_of(b);
    same_chars(&x, &y)
}

pub fn same_chars(x: &[char], y: &[char]) -> (r: bool)
    ensures
        r == (x@ == y@),
{
    if x.len() != y.len() {
        return false;
    }
    let mut i: usize = 0;
    while i < x.len()
        invariant
            i <= x.len(),
            x.len() == y.len(),
            forall|k: int| 0 <= k < i ==> x[k] == y[k],
        decreases x.len() - i,
    {
        if x[i] != y[i] {
            return false;
        }
        i = i + 1;
    }
    assert(x@ =~= y@);
    true
}

/// A copy of a string.
pub fn copy(a: &str) -> (r: String)
    ensures
        r@ == a@,
{
    a.to_owned()
}

/// The characters with the `White_Space` property.
pub open spec fn is_space(c: char) -> bool {
    let n = c as u32;
    ||| 0x9 <= n <= 0xd
    ||| n == 0x20
    ||| n == 0x85
    ||| n == 0xa0
    ||| n == 0x1680
    ||| 0x2000 <= n <= 0x200a
    ||| n == 0x2028
    ||| n == 0x2029
    ||| n == 0x202f
    ||| n == 0x205f
    ||| n == 0x3000
}

pub fn space(c: char) -> (r: bool)
    ensures
        r == is_space(c),
{
    let n: u32 = c as u32;
    (0x9 <= n && n <= 0xd) || n == 0x20 || n == 0x85 || n == 0xa0 || n == 0x1680 || (0x2000 <= n
        && n <= 0x200a) || n == 0x2028 || n == 0x2029 || n == 0x202f || n == 0x205f || n == 0x3000
}

pub open spec fn is_digit(c: char) -> bool {
    '0' <= c <= '9'
}

pub fn digit(c: char) -> (r: bool)
    ensures
        r == is_digit(c),
{
    '0' <= c && c <= '9'
}

pub open spec fn is_letter(c: char) -> bool {
    'a' <= c <= 'z' || 'A' <= c <= 'Z'
}

pub fn letter(c: char) -> (r: bool)
    ensures
        r == is_letter(c),
{
    ('a' <= c && c <= 'z') || ('A' <= c && c <= 'Z')
}

/// The number that one decimal digit stands for.
pub open spec fn digit_value(c: char) -> nat {
    (c as u32 - '0' as u32) as nat
}

/// The number that a run of decimal digits stands for.
pub open spec fn digits_value(s: Seq<char>) -> nat
    decreases s.len(),
{
    if s.len() == 0 {
        0
    } else {
        10 * digits_value(s.drop_last()) + digit_value(s.last())
    }
}

/// The first position from `i` on that holds no digit.
pub open spec fn digit_run(s: Seq<char>, i: int) -> int
    decreases s.len() - i,
{
    if 0 <= i < s.len() && is_digit(s[i]) {
        digit_run(s, i + 1)
    } else {
        i
    }
}

pub fn skip_digits(s: &[char], i: usize) -> (r: usize)
    requires
        i <= s.len(),
    ensures
        r == digit_run(s@, i as int),
        i <= r <= s.len(),
        forall|k: int| i <= k < r ==> is_digit(s[k]),
        r < s.len() ==> !is_digit(s[r as int]),
{
    let mut j: usize = i;
    while j < s.len() && digit(s[j])
        invariant
            i <= j <= s.len(),
            digit_run(s@, i as int) == digit_run(s@, j as int),
            forall|k: int| i <= k < j ==> is_digit(s[k]),
        decreases s.len() - j,
    {
        j = j + 1;
    }
    j
}

pub proof fn lemma_digit_run(s: Seq<char>, i: int)
    requires
        0 <= i <= s.len(),
    ensures
        i <= digit_run(s, i) <= s.len(),
        forall|k: int| i <= k < digit_run(s, i) ==> is_digit(#[trigger] s[k]),
        digit_run(s, i) < s.len() ==> !is_digit(s[digit_run(s, i)]),
    decreases s.len() - i,
{
    if i < s.len() && is_digit(s[i]) {
        lemma_digit_run(s, i + 1);
    }
}

/// The digit `d` as a character.
pub open spec fn digit_char(d: nat) -> char {
    ('0' as u32 + d) as char
}

/// A number in decimal, without leading zeros.
pub open spec fn decimal(n: nat) -> Seq<char>
    decreases n,
{
    if n < 10 {
        seq![digit_char(n)]
    } else {
        decimal(n / 10).push(digit_char(n % 10))
    }
}

/// A signed number in decimal.
pub open spec fn signed_decimal(n: int) -> Seq<char> {
    if n < 0 {
        seq!['-'] + decimal((-n) as nat)
    } else {
        decimal(n as nat)
    }
}

pub fn char_of_digit(d: u64) -> (c: char)
    requires
        d < 10,
    ensures
        c == digit_char(d as nat),
        is_digit(c),
        digit_value(c) == d,
{
    let b: u8 = 48u8 + (d as u8);
    b as char
}

/// Append `n` in decimal.
pub fn push_decimal(s: &mut String, n: u64)
    ensures
        final(s)@ == old(s)@ + decimal(n as nat),
    decreases n,
{
    if n < 10 {
        s.push(char_of_digit(n));
        assert(s@ =~= old(s)@ + decimal(n as nat));
    } else {
        push_decimal(s, n / 10);
        s.push(char_of_digit(n % 10));
        assert(s@ =~= old(s)@ + decimal(n as nat));
    }
}

/// Append `n` in decimal, with a minus sign where it is negative.
pub fn push_signed(s: &mut String, n: i64)
    ensures
        final(s)@ == old(s)@ + signed_decimal(n as int),
{
    if n < 0 {
        s.push('-');
        let m: u64 = ((-(n as i128)) as u128) as u64;
        push_decimal(s, m);
        assert(s@ =~= old(s)@ + signed_decimal(n as int));
    } else {
        push_decimal(s, n as u64);
    }
}

fn push_wide_decimal(s: &mut String, n: u128)
    ensures
        final(s)@ == old(s)@ + decimal(n as nat),
    decreases n,
{
    if n < 10 {
        s.push(char_of_digit(n as u64));
        assert(s@ =~= old(s)@ + decimal(n as nat));
    } else {
        push_wide_decimal(s, n / 10);
        s.push(char_of_digit((n % 10) as u64));
        assert(s@ =~= old(s)@ + decimal(n as nat));
    }
}

/// Append a wide number in decimal.
pub fn push_wide(s: &mut String, n: i128)
    requires
        n > i128::MIN,
    ensures
        final(s)@ == old(s)@ + signed_decimal(n as int),
{
    if n < 0 {
        s.push('-');
        push_wide_decimal(s, (-n) as u128);
        assert(s@ =~= old(s)@ + signed_decimal(n as int));
    } else {
        push_wide_decimal(s, n as u128);
    }
}

/// Append a string.
pub fn push_text(s: &mut String, t: &str)
    ensures
        final(s)@ == old(s)@ + t@,
{
    s.append(t);
}

/// An element pushed before joining may as well be the first of what is joined.
pub proof fn lemma_push_join<A>(a: Seq<A>, x: A, r: Seq<A>)
    ensures
        a.push(x) + r == a + (seq![x] + r),
{
    assert(a.push(x) + r =~= a + (seq![x] + r));
}

/// The first position from `i` on whose character is a space, or is none.
pub open spec fn run_end(s: Seq<char>, i: int, spaces: bool) -> int
    decreases s.len() - i,
{
    if 0 <= i < s.len() && is_space(s[i]) == spaces {
        run_end(s, i + 1, spaces)
    } else {
        i
    }
}

pub fn skip_run(s: &[char], i: usize, spaces: bool) -> (r: usize)
    requires
        i <= s.len(),
    ensures
        r == run_end(s@, i as int, spaces),
        i <= r <= s.len(),
        r < s.len() ==> is_space(s[r as int]) != spaces,
{
    let mut j: usize = i;
    while j < s.len() && space(s[j]) == spaces
        invariant
            i <= j <= s.len(),
            run_end(s@, i as int, spaces) == run_end(s@, j as int, spaces),
        decreases s.len() - j,
    {
        j = j + 1;
    }
    j
}

/// The words of a text from `i` on, parted by white space.
pub open spec fn words(s: Seq<char>, i: int) -> Seq<Seq<char>>
    decreases s.len() - i,
{
    let a = run_end(s, i, true);
    let b = run_end(s, a, false);
    if i <= a < b <= s.len() {
        seq![s.subrange(a, b)] + words(s, b)
    } else {
        Seq::empty()
    }
}

/// A run ends where its kind of character does.
pub proof fn lemma_run(s: Seq<char>, i: int, e: int, spaces: bool)
    requires
        0 <= i <= e <= s.len(),
        forall|k: int| i <= k < e ==> is_space(#[trigger] s[k]) == spaces,
        e < s.len() ==> is_space(s[e]) != spaces,
    ensures
        run_end(s, i, spaces) == e,
    decreases e - i,
{
    if i < e {
        assert(is_space(s[i]) == spaces);
        lemma_run(s, i + 1, e, spaces);
    }
}

proof fn lemma_run_from(s: Seq<char>, d: int, j: int, spaces: bool)
    requires
        0 <= d,
        0 <= j,
        d + j <= s.len(),
    ensures
        run_end(s, d + j, spaces) == run_end(s.skip(d), j, spaces) + d,
        d + j <= run_end(s, d + j, spaces) <= s.len(),
    decreases s.len() - d - j,
{
    if d + j < s.len() {
        assert(s.skip(d)[j] == s[d + j]);
        lemma_run_from(s, d, j + 1, spaces);
    }
}

/// The words of a text from a place on are those of the text behind it.
pub proof fn lemma_words_from(s: Seq<char>, d: int, j: int)
    requires
        0 <= d,
        0 <= j,
        d + j <= s.len(),
    ensures
        words(s, d + j) == words(s.skip(d), j),
    decreases s.len() - d - j,
{
    let r = s.skip(d);
    lemma_run_from(s, d, j, true);
    let a = run_end(s, d + j, true);
    lemma_run_from(s, d, a - d, false);
    let b = run_end(s, a, false);
    if a < b {
        assert(s.subrange(a, b) =~= r.subrange(a - d, b - d));
        lemma_words_from(s, d, b - d);
    }
}

/// White space in front of words is no part of them.
pub proof fn lemma_words_skip_space(s: Seq<char>, i: int)
    requires
        0 <= i < s.len(),
        is_space(s[i]),
    ensures
        words(s, i) == words(s, i + 1),
{
    lemma_run_from(s, 0, i + 1, true);
}

/// The contents of some strings.
pub open spec fn texts(v: Seq<String>) -> Seq<Seq<char>> {
    v.map_values(|s: String| s@)
}

pub proof fn lemma_texts_push(v: Seq<String>, s: String)
    ensures
        texts(v.push(s)) == texts(v).push(s@),
{
    assert(texts(v.push(s)) =~= texts(v).push(s@));
}

/// The words of a text.
pub fn split_words(t: &str) -> (r: Vec<String>)
    ensures
        texts(r@) == words(t@, 0),
{
    let s = chars_of(t);
    let mut out: Vec<String> = Vec::new();
    let mut i: usize = 0;
    assert(texts(out@) + words(s@, 0) =~= words(s@, 0));
    loop
        invariant
            i <= s.len(),
            s@ == t@,
            texts(out@) + words(s@, i as int) == words(s@, 0),
        decreases s.len() - i,
    {
        let a: usize = skip_run(&s, i, true);
        if a >= s.len() {
            assert(words(s@, i as int) =~= Seq::empty());
            assert(texts(out@) + words(s@, i as int) =~= texts(out@));
            return out;
        }
        let b: usize = skip_run(&s, a, false);
        assert(run_end(s@, a as int, false) == run_end(s@, a + 1, false));
        proof {
            lemma_run_end(s@, a + 1, false);
        }
        let w = string_between(&s, a, b);
        proof {
            lemma_texts_push(out@, w);
            lemma_push_join(texts(out@), w@, words(s@, b as int));
        }
        out.push(w);
        i = b;
    }
}

pub proof fn lemma_run_end(s: Seq<char>, i: int, spaces: bool)
    requires
        0 <= i <= s.len(),
    ensures
        i <= run_end(s, i, spaces) <= s.len(),
    decreases s.len() - i,
{
    if i < s.len() && is_space(s[i]) == spaces {
        lemma_run_end(s, i + 1, spaces);
    }
}

/// Does a character stand anywhere in a text?
pub fn has_char(s: &[char], c: char) -> (r: bool)
    ensures
        r == s@.contains(c),
{
    let mut i: usize = 0;
    while i < s.len()
        invariant
            i <= s.len(),
            forall|k: int| 0 <= k < i ==> s[k] != c,
        decreases s.len() - i,
    {
        if s[i] == c {
            assert(s@[i as int] == c);
            return true;
        }
        i = i + 1;
    }
    false
}

/// A letter in lower case.
pub open spec fn lower(c: char) -> char {
    if 'A' <= c <= 'Z' {
        (c as u32 + 32) as char
    } else {
        c
    }
}

pub fn lower_case(c: char) -> (r: char)
    ensures
        r == lower(c),
{
    if 'A' <= c && c <= 'Z' {
        ((c as u32 as u8) + 32u8) as char
    } else {
        c
    }
}

/// Behind the last character before `n` that is no space.
pub open spec fn trim_end(s: Seq<char>, n: int) -> int
    decreases n,
{
    if 0 < n <= s.len() && is_space(s[n - 1]) {
        trim_end(s, n - 1)
    } else {
        n
    }
}

/// A text without white space at either end.
pub open spec fn trimmed(s: Seq<char>) -> Seq<char> {
    let a = run_end(s, 0, true);
    let b = trim_end(s, s.len() as int);
    if a < b {
        s.subrange(a, b)
    } else {
        Seq::empty()
    }
}

pub fn trim(t: &str) -> (r: String)
    ensures
        r@ == trimmed(t@),
{
    let s = chars_of(t);
    let a: usize = skip_run(&s, 0, true);
    let mut b: usize = s.len();
    while b > 0 && space(s[b - 1])
        invariant
            b <= s.len(),
            trim_end(s@, s.len() as int) == trim_end(s@, b as int),
        decreases b,
    {
        b = b - 1;
    }
    if a < b {
        string_between(&s, a, b)
    } else {
        String::new()
    }
}

/// Texts joined by a separator.
pub open spec fn join(v: Seq<Seq<char>>, sep: Seq<char>) -> Seq<char>
    decreases v.len(),
{
    if v.len() == 0 {
        Seq::empty()
    } else if v.len() == 1 {
        v[0]
    } else {
        join(v.drop_last(), sep) + sep + v.last()
    }
}

/// Join the texts from the `from`th on.
pub fn join_from(v: &Vec<String>, from: usize, sep: &str) -> (r: String)
    requires
        from <= v.len(),
    ensures
        r@ == join(texts(v@).skip(from as int), sep@),
{
    let ghost all = texts(v@).skip(from as int);
    let mut out: String = String::new();
    let mut i: usize = from;
    assert(all.take(0) =~= Seq::empty());
    while i < v.len()
        invariant
            from <= i <= v.len(),
            all == texts(v@).skip(from as int),
            out@ == join(all.take(i - from), sep@),
        decreases v.len() - i,
    {
        let ghost before = out@;
        if i > from {
            push_text(&mut out, sep);
        }
        push_text(&mut out, &v[i]);
        i = i + 1;
        proof {
            let t = all.take(i - from);
            assert(t.drop_last() =~= all.take(i - 1 - from));
            assert(t.last() == v@[i - 1]@);
            if i - from == 1 {
                assert(before =~= Seq::empty());
                assert(out@ =~= v@[i - 1]@);
            }
        }
    }
    assert(all.take(i - from) =~= all);
    out
}

/// A string as `Debug` writes it.
pub uninterp spec fn debug_text(s: Seq<char>) -> Seq<char>;

/// Calls `<str as Debug>::fmt` by way of `format!`: the string in double quotes,
/// with what would not print escaped. Which characters those are is std's to say;
/// the text depends on the string alone.
#[verifier::external_body]
pub(crate) fn debug_of(s: &str) -> (r: String)
    ensures
        r@ == debug_text(s@),
{
    format!("{:?}", s)
}

} // verus!
