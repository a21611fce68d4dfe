//! The comments and the head of a file, and the tokens that they give.

use vstd::prelude::*;

use crate::error::Failure;
use crate::fields::{banner, blanks, file_head, footer, header_at, header_body, keyword, separator};
use crate::pieces::{
    all_spaces, gives, has_no_parens, in_quotes, is_enclosed, is_one_word, is_spelled, is_value,
    is_value_token, joined, lemma_block, lemma_enclosed, lemma_joint, lemma_line, lemma_mark,
    lemma_one_word, lemma_single, lemma_single_mark, lemma_spaces, lemma_spelled, spelling,
    string_of,
};
use crate::reader::raw_until;
use crate::table::{lookup, lookup_after_put, put, put_keeps_order, Pair};
use crate::tokenizer::{find, is_binary, Stream, Token};

verus! {

// --------------------------------------------------------------------------
//  The comments of a file
// --------------------------------------------------------------------------
/// Nothing that closes a comment, nor the beginning of `FoamFile`.
pub open spec fn is_quiet(l: Seq<char>) -> bool {
    &&& forall|k: int| 0 <= k < l.len() ==> (#[trigger] l[k]) != '/'
    &&& forall|k: int|
        0 <= k < l.len() && (#[trigger] l[k]) == 'F' ==> k + 1 < l.len() && l[k + 1] != 'o'
}

pub(crate) proof fn lemma_quiet_join(a: Seq<char>, b: Seq<char>)
    requires
        is_quiet(a),
        is_quiet(b),
    ensures
        is_quiet(a + b),
{
    let s = a + b;
    assert forall|k: int| 0 <= k < s.len() implies (#[trigger] s[k]) != '/' by {
        if k < a.len() {
            assert(s[k] == a[k]);
        } else {
            assert(s[k] == b[k - a.len()]);
        }
    }
    assert forall|k: int| 0 <= k < s.len() && (#[trigger] s[k]) == 'F' implies k + 1 < s.len()
        && s[k + 1] != 'o' by {
        if k < a.len() {
            assert(s[k] == a[k]);
            assert(s[k + 1] == a[k + 1]);
        } else {
            assert(s[k] == b[k - a.len()]);
            assert(s[k + 1] == b[k + 1 - a.len()]);
        }
    }
}

pub(crate) proof fn lemma_banner_middle()
    ensures
        is_quiet("| ofgpu  --  GPU-native finite volume CFD                                     |\n"@),
        is_quiet("|                                                                             |\n"@),
        is_quiet("| Written in the OpenFOAM ASCII case format so that existing pre- and         |\n"@),
        is_quiet("| post-processing tools can read it. A file format is not a work: ofgpu is    |\n"@),
        is_quiet("| an independent implementation, neither derived from nor affiliated with     |\n"@),
        is_quiet("| OpenFOAM.                                                                   |\n"@),
{
    reveal_strlit("| ofgpu  --  GPU-native finite volume CFD                                     |\n");
    reveal_strlit("|                                                                             |\n");
    reveal_strlit("| Written in the OpenFOAM ASCII case format so that existing pre- and         |\n");
    reveal_strlit("| post-processing tools can read it. A file format is not a work: ofgpu is    |\n");
    reveal_strlit("| an independent implementation, neither derived from nor affiliated with     |\n");
    reveal_strlit("| OpenFOAM.                                                                   |\n");
}

/// The head of a file is one comment, and does not hold `FoamFile`.
pub(crate) proof fn lemma_banner()
    ensures
        gives(banner(), Seq::empty()),
        forall|k: int|
            0 <= k < banner().len() && (#[trigger] banner()[k]) == 'F' ==> k + 1 < banner().len()
                && banner()[k + 1] != 'o',
{
    let a = "/*---------------------------------------------------------------------------*\\\n"@;
    let z = "\\*---------------------------------------------------------------------------*/\n"@;
    let m1 = "| ofgpu  --  GPU-native finite volume CFD                                     |\n"@;
    let m2 = "|                                                                             |\n"@;
    let m3 = "| Written in the OpenFOAM ASCII case format so that existing pre- and         |\n"@;
    let m4 = "| post-processing tools can read it. A file format is not a work: ofgpu is    |\n"@;
    let m5 = "| an independent implementation, neither derived from nor affiliated with     |\n"@;
    let m6 = "| OpenFOAM.                                                                   |\n"@;
    lemma_banner_middle();
    lemma_quiet_join(m1, m2);
    lemma_quiet_join(m1 + m2, m3);
    lemma_quiet_join(m1 + m2 + m3, m4);
    lemma_quiet_join(m1 + m2 + m3 + m4, m5);
    lemma_quiet_join(m1 + m2 + m3 + m4 + m5, m6);
    let m = m1 + m2 + m3 + m4 + m5 + m6;
    reveal_strlit("/*---------------------------------------------------------------------------*\\\n");
    reveal_strlit("\\*---------------------------------------------------------------------------*/\n");
    let n = banner().len() as int;
    let c = banner().take(n - 1);
    assert(banner() =~= a + m + z);
    assert(a[0] == '/' && a[1] == '*');
    assert(forall|k: int| 1 <= k < a.len() ==> (#[trigger] a[k]) != '/');
    assert(forall|k: int| 0 <= k < a.len() ==> (#[trigger] a[k]) != 'F');
    assert(forall|k: int| 0 <= k < z.len() - 2 ==> (#[trigger] z[k]) != '/');
    assert(forall|k: int| 0 <= k < z.len() ==> (#[trigger] z[k]) != 'F');
    lemma_banner_from(a, m, z);
    assert(c + seq!['\n'] =~= banner());
    lemma_block(c);
    lemma_spaces(seq!['\n']);
    lemma_joint(c, Seq::empty(), seq!['\n'], Seq::empty());
    assert(Seq::<Token>::empty() + Seq::<Token>::empty() =~= Seq::<Token>::empty());
}

pub(crate) proof fn lemma_banner_from(a: Seq<char>, m: Seq<char>, z: Seq<char>)
    requires
        a.len() >= 2,
        z.len() >= 3,
        a[0] == '/' && a[1] == '*',
        forall|k: int| 1 <= k < a.len() ==> (#[trigger] a[k]) != '/',
        forall|k: int| 0 <= k < a.len() ==> (#[trigger] a[k]) != 'F',
        is_quiet(m),
        forall|k: int| 0 <= k < z.len() - 2 ==> (#[trigger] z[k]) != '/',
        forall|k: int| 0 <= k < z.len() ==> (#[trigger] z[k]) != 'F',
        z[z.len() - 3] == '*' && z[z.len() - 2] == '/' && z[z.len() - 1] == '\n',
    ensures
        ({
            let s = a + m + z;
            let c = s.take(s.len() - 1);
            &&& s[s.len() - 1] == '\n'
            &&& c.len() >= 4 && c[0] == '/' && c[1] == '*' && c[c.len() - 2] == '*' && c[c.len() - 1]
                == '/'
            &&& forall|k: int|
                2 <= k < c.len() - 2 ==> !((#[trigger] c[k]) == '*' && c[k + 1] == '/')
            &&& forall|k: int|
                0 <= k < s.len() && (#[trigger] s[k]) == 'F' ==> k + 1 < s.len() && s[k + 1] != 'o'
        }),
{
    let s = a + m + z;
    let c = s.take(s.len() - 1);
    let p = a.len() as int;
    let q = p + m.len();
    assert forall|k: int| 1 <= k < s.len() - 2 implies (#[trigger] s[k]) != '/' by {
        if k < p {
            assert(s[k] == a[k]);
        } else if k < q {
            assert(s[k] == m[k - p]);
        } else {
            assert(s[k] == z[k - q]);
        }
    }
    assert forall|k: int| 2 <= k < c.len() - 2 implies !((#[trigger] c[k]) == '*' && c[k + 1]
        == '/') by {
        assert(c[k + 1] == s[k + 1]);
    }
    assert forall|k: int| 0 <= k < s.len() && (#[trigger] s[k]) == 'F' implies k + 1 < s.len()
        && s[k + 1] != 'o' by {
        if k < p {
            assert(s[k] == a[k]);
        } else if k < q {
            assert(s[k] == m[k - p]);
            assert(s[k + 1] == m[k + 1 - p]);
        } else {
            assert(s[k] == z[k - q]);
        }
    }
}

pub(crate) proof fn lemma_separators()
    ensures
        gives(separator(), Seq::empty()),
        gives(footer(), Seq::empty()),
{
    let none = Seq::<Token>::empty();
    assert(none + none =~= none);
    let a = separator();
    reveal_strlit("// * * * * * * * * * * * * * * * * * * * * * * * * * * * * * * * * * * * * * //\n\n");
    let c = a.take(a.len() - 2);
    assert(forall|k: int| 0 <= k < a.len() - 2 ==> (#[trigger] a[k]) != '\n');
    assert forall|k: int| 0 <= k < c.len() implies (#[trigger] c[k]) != '\n' by {
        assert(c[k] == a[k]);
    }
    lemma_line(c);
    lemma_spaces(seq!['\n']);
    lemma_joint(c + seq!['\n'], none, seq!['\n'], none);
    assert((c + seq!['\n']) + seq!['\n'] =~= a);
    let b = footer();
    reveal_strlit("\n\n// ************************************************************************* //\n");
    let d = b.subrange(2, b.len() - 1);
    assert(forall|k: int| 2 <= k < b.len() - 1 ==> (#[trigger] b[k]) != '\n');
    assert forall|k: int| 0 <= k < d.len() implies (#[trigger] d[k]) != '\n' by {
        assert(d[k] == b[k + 2]);
    }
    lemma_line(d);
    lemma_joint(seq!['\n'], none, seq!['\n'], none);
    lemma_joint(seq!['\n'] + seq!['\n'], none, d + seq!['\n'], none);
    assert((seq!['\n'] + seq!['\n']) + (d + seq!['\n']) =~= b);
}

// --------------------------------------------------------------------------
//  A file that is not binary
// --------------------------------------------------------------------------
pub(crate) proof fn lemma_found(s: Seq<char>, w: Seq<char>, i: int, j: int)
    requires
        0 <= i <= j,
        j + w.len() <= s.len(),
        s.subrange(j, j + w.len()) == w,
        forall|k: int| i <= k < j ==> #[trigger] s.subrange(k, k + w.len()) != w,
    ensures
        find(s, w, i) == Some(j),
    decreases j - i,
{
    if i < j {
        assert(s.subrange(i, i + w.len()) != w);
        lemma_found(s, w, i + 1, j);
    }
}

/// The text is found where it first begins.
pub(crate) proof fn lemma_found_at(s: Seq<char>, w: Seq<char>, i: int, j: int)
    requires
        0 <= i <= j,
        w.len() > 0,
        j + w.len() <= s.len(),
        s.subrange(j, j + w.len()) == w,
        forall|k: int| i <= k < j ==> (#[trigger] s[k]) != w[0],
    ensures
        find(s, w, i) == Some(j),
{
    assert forall|k: int| i <= k < j implies #[trigger] s.subrange(k, k + w.len()) != w by {
        assert(s.subrange(k, k + w.len())[0] == s[k]);
    }
    lemma_found(s, w, i, j);
}

/// A text that is not there from `i` on.
pub(crate) proof fn lemma_not_found(s: Seq<char>, w: Seq<char>, i: int)
    requires
        0 <= i,
        w.len() > 0,
        forall|k: int| i <= k < s.len() ==> (#[trigger] s[k]) != w[0],
    ensures
        find(s, w, i) is None,
    decreases s.len() - i,
{
    if i + w.len() <= s.len() {
        assert(s.subrange(i, i + w.len())[0] == s[i]);
        lemma_not_found(s, w, i + 1);
    }
}

/// What is found does not begin before the first place where it could.
pub(crate) proof fn lemma_found_behind(s: Seq<char>, w: Seq<char>, i: int, j: int)
    requires
        0 <= i <= j <= s.len(),
        w.len() > 0,
        forall|k: int| i <= k < j ==> (#[trigger] s[k]) != w[0],
    ensures
        find(s, w, i) matches Some(e) ==> j <= e && e + w.len() <= s.len(),
    decreases s.len() - i,
{
    if i + w.len() <= s.len() && s.subrange(i, i + w.len()) != w {
        lemma_found_behind(s, w, i + 1, if j > i { j } else { i + 1 });
    } else if i + w.len() <= s.len() {
        assert(s.subrange(i, i + w.len())[0] == s[i]);
    }
}

pub(crate) proof fn lemma_not_binary(rest: Seq<char>)
    ensures
        !is_binary(banner() + "FoamFile\n{\n"@ + keyword("    "@, "format"@, 12) + "ascii;\n"@ + rest),
{
    let g = keyword("    "@, "format"@, 12);
    let t = banner() + "FoamFile\n{\n"@ + g + "ascii;\n"@ + rest;
    let h = banner().len() as int;
    lemma_banner();
    reveal_strlit("FoamFile\n{\n");
    reveal_strlit("FoamFile");
    reveal_strlit("format");
    reveal_strlit("    ");
    reveal_strlit("ascii;\n");
    reveal_strlit("{");
    reveal_strlit("}");
    reveal_strlit(";");
    reveal_strlit("binary");
    let w = "FoamFile"@;
    assert(g.len() == 16);
    assert(t.subrange(h, h + 8) =~= w);
    assert forall|k: int| 0 <= k < h implies #[trigger] t.subrange(k, k + w.len()) != w by {
        let u = t.subrange(k, k + w.len());
        assert(u[0] == t[k] && u[1] == t[k + 1]);
        assert(t[k] == banner()[k]);
        if banner()[k] == 'F' {
            assert(t[k + 1] == banner()[k + 1]);
        }
        assert(w[0] == 'F' && w[1] == 'o');
    }
    lemma_found(t, w, 0, h);
    let b = h + 9;
    assert(t.subrange(b, b + 1) =~= "{"@);
    assert forall|k: int| h <= k < b implies (#[trigger] t[k]) != '{' by {
        assert(t[k] == "FoamFile\n{\n"@[k - h]);
    }
    lemma_found_at(t, "{"@, h, b);
    let head = seq![
        '{', '\n', ' ', ' ', ' ', ' ', 'f', 'o', 'r', 'm', 'a', 't', ' ', ' ', ' ', ' ', ' ', ' ', 'a',
        's', 'c', 'i', 'i', ';',
    ];
    assert(t.subrange(b, b + 24) =~= head);
    assert forall|k: int| b <= k < b + 24 implies (#[trigger] t[k]) != '}' by {
        assert(t[k] == head[k - b]);
    }
    lemma_found_behind(t, "}"@, b, b + 24);
    match find(t, "}"@, b) {
        None => {},
        Some(e) => {
            let header = t.subrange(b, e);
            assert forall|k: int| 0 <= k < 24 implies #[trigger] header[k] == head[k] by {
                assert(header[k] == t[b + k]);
                assert(t.subrange(b, b + 24)[k] == t[b + k]);
            }
            assert(header.subrange(6, 12) =~= "format"@);
            lemma_found_at(header, "format"@, 0, 6);
            let entry = header.skip(6);
            assert forall|k: int| 0 <= k < 18 implies #[trigger] entry[k] == head[k + 6] by {
                assert(entry[k] == header[k + 6]);
            }
            assert(entry.subrange(17, 18) =~= ";"@);
            lemma_found_at(entry, ";"@, 0, 17);
            let value = entry.take(17);
            assert forall|k: int| 0 <= k < value.len() implies (#[trigger] value[k]) != 'b' by {
                assert(value[k] == entry[k]);
                assert(head[k + 6] != 'b');
            }
            lemma_not_found(value, "binary"@, 0);
        },
    }
}

// --------------------------------------------------------------------------
//  Tokens in a stream
// --------------------------------------------------------------------------
/// Do these tokens come next?
#[verifier::opaque]
pub open spec fn stands(s: Stream, k: Seq<Token>) -> bool {
    &&& 0 <= s.pos
    &&& s.pos + k.len() <= s.toks.len()
    &&& forall|i: int| 0 <= i < k.len() ==> #[trigger] k[i] == s.toks[s.pos + i]
}

pub(crate) proof fn lemma_split(s: Stream, a: Seq<Token>, b: Seq<Token>)
    requires
        stands(s, a + b),
    ensures
        stands(s, a),
        stands(s.to(s.pos + a.len()), b),
{
    reveal(stands);
    let k = a + b;
    assert forall|i: int| 0 <= i < a.len() implies #[trigger] a[i] == s.toks[s.pos + i] by {
        assert(k[i] == a[i]);
    }
    assert forall|i: int| 0 <= i < b.len() implies #[trigger] b[i] == s.toks[s.pos + a.len()
        + i] by {
        assert(k[a.len() + i] == b[i]);
    }
}

/// One of the tokens that come next.
pub(crate) proof fn lemma_next(s: Stream, k: Seq<Token>, i: int)
    requires
        stands(s, k),
        0 <= i < k.len(),
    ensures
        s.toks[s.pos + i] == k[i],
        s.ahead(i) == Some(k[i]),
        0 <= s.pos,
        s.pos + i < s.toks.len(),
{
    reveal(stands);
    assert(k[i] == s.toks[s.pos + i]);
}

/// Does no token end an entry?
pub open spec fn is_running(k: Seq<Token>) -> bool {
    forall|i: int|
        0 <= i < k.len() ==> (#[trigger] k[i]) != Token::Punct(';') && k[i] != Token::Punct('}')
}

pub(crate) proof fn lemma_value_runs(k: Seq<Token>)
    requires
        is_value(k),
    ensures
        is_running(k),
        k[0] != Token::Punct('{'),
{
    assert(is_value_token(k[0]));
    assert forall|i: int| 0 <= i < k.len() implies (#[trigger] k[i]) != Token::Punct(';') && k[i]
        != Token::Punct('}') by {
        assert(is_value_token(k[i]));
    }
}

pub(crate) proof fn lemma_raw_from(s: Stream, k: Seq<Token>, i: int, missing: Seq<char>, wanting: Seq<char>)
    requires
        stands(s, k.push(Token::Punct(';'))),
        is_running(k),
        0 <= i <= k.len(),
    ensures
        raw_until(s.to(s.pos + i), joined(k.take(i)), missing, wanting) == Ok::<_, Failure>(
            (joined(k), s.pos + k.len() + 1),
        ),
    decreases k.len() - i,
{
    let m = k.push(Token::Punct(';'));
    let here = s.to(s.pos + i);
    lemma_next(s, m, i);
    if i < k.len() {
        lemma_raw_from(s, k, i + 1, missing, wanting);
        let h = k.take(i + 1);
        assert(h.drop_last() =~= k.take(i));
        assert(h.last() == k[i]);
        assert(m[i] == k[i]);
        assert(here.to(here.pos + 1) == s.to(s.pos + i + 1));
    } else {
        assert(k.take(i) =~= k);
    }
}

/// The value of an entry is read as it stands.
pub(crate) proof fn lemma_raw(s: Stream, k: Seq<Token>, missing: Seq<char>, wanting: Seq<char>)
    requires
        stands(s, k.push(Token::Punct(';'))),
        is_running(k),
    ensures
        raw_until(s, Seq::empty(), missing, wanting) == Ok::<_, Failure>(
            (joined(k), s.pos + k.len() + 1),
        ),
{
    lemma_raw_from(s, k, 0, missing, wanting);
    assert(k.take(0) =~= Seq::empty());
    assert(s.to(s.pos + 0) == s);
}

// --------------------------------------------------------------------------
//  The head
// --------------------------------------------------------------------------
/// The words of a file's head.
pub(crate) proof fn lemma_head_words()
    ensures
        is_one_word("FoamFile"@) && has_no_parens("FoamFile"@),
        is_one_word("format"@) && has_no_parens("format"@),
        is_one_word("ascii"@) && has_no_parens("ascii"@),
        is_one_word("class"@) && has_no_parens("class"@),
        is_one_word("location"@) && has_no_parens("location"@),
        is_one_word("object"@) && has_no_parens("object"@),
{
    reveal_strlit("FoamFile");
    lemma_one_word("FoamFile"@);
    reveal_strlit("format");
    lemma_one_word("format"@);
    reveal_strlit("ascii");
    lemma_one_word("ascii"@);
    reveal_strlit("class");
    lemma_one_word("class"@);
    reveal_strlit("location");
    lemma_one_word("location"@);
    reveal_strlit("object");
    lemma_one_word("object"@);
}

pub(crate) proof fn lemma_keyword(indent: Seq<char>, kw: Seq<char>, width: nat)
    requires
        all_spaces(indent),
        is_one_word(kw),
    ensures
        gives(keyword(indent, kw, width), seq![Token::Word(kw)]),
{
    let n = if kw.len() < width { (width - kw.len()) as nat } else { 1 };
    let none = Seq::<Token>::empty();
    let k = seq![Token::Word(kw)];
    let rest = blanks((n - 1) as nat);
    lemma_spaces(indent);
    lemma_single(kw, ' ');
    lemma_spaces(rest);
    lemma_joint(indent, none, kw + seq![' '], k);
    lemma_joint(indent + (kw + seq![' ']), none + k, rest, none);
    assert(none + k + none =~= k);
    assert(seq![' '] + rest =~= blanks(n));
    assert(indent + (kw + seq![' ']) + rest =~= indent + kw + (seq![' '] + rest));
}

/// A value behind what stands in front of it, and the end of its line.
pub(crate) proof fn lemma_value_line(x: Seq<char>, k: Seq<Token>, t: Seq<char>)
    requires
        gives(x, k),
        is_spelled(t),
    ensures
        gives(x + t + ";\n"@, k + spelling(t).push(Token::Punct(';'))),
{
    let none = Seq::<Token>::empty();
    let j = spelling(t).push(Token::Punct(';'));
    reveal_strlit(";\n");
    lemma_spelled(t);
    lemma_spaces(seq!['\n']);
    lemma_joint(x, k, t + seq![';'], j);
    lemma_joint(x + (t + seq![';']), k + j, seq!['\n'], none);
    assert(x + (t + seq![';']) + seq!['\n'] =~= x + t + ";\n"@);
    assert(k + j + none =~= k + j);
}

pub(crate) proof fn lemma_string_line(x: Seq<char>, k: Seq<Token>, t: Seq<char>)
    requires
        gives(x, k),
        is_enclosed(t),
    ensures
        gives(
            x + "\""@ + t + "\";\n"@,
            k + seq![Token::Str(string_of(t)), Token::Punct(';')],
        ),
{
    let none = Seq::<Token>::empty();
    let q = in_quotes(t);
    let str = Token::Str(string_of(t));
    reveal_strlit("\"");
    reveal_strlit("\";\n");
    lemma_enclosed(t);
    lemma_mark(';');
    lemma_spaces(seq!['\n']);
    lemma_joint(x, k, q, seq![str]);
    lemma_joint(x + q, k + seq![str], seq![';'], seq![Token::Punct(';')]);
    let y = x + q + seq![';'];
    let j = k + seq![str] + seq![Token::Punct(';')];
    lemma_joint(y, j, seq!['\n'], none);
    assert(y + seq!['\n'] =~= x + "\""@ + t + "\";\n"@);
    assert(j + none =~= k + seq![str, Token::Punct(';')]);
}

pub(crate) proof fn lemma_head_literals()
    ensures
        gives("FoamFile\n{\n"@, seq![Token::Word("FoamFile"@), Token::Punct('{')]),
        gives("ascii;\n"@, seq![Token::Word("ascii"@), Token::Punct(';')]),
        gives("}\n"@, seq![Token::Punct('}')]),
        all_spaces("    "@),
        all_spaces("        "@),
        all_spaces(""@),
        is_one_word("format"@),
        is_one_word("class"@),
        is_one_word("location"@),
        is_one_word("object"@),
{
    let none = Seq::<Token>::empty();
    reveal_strlit("FoamFile\n{\n");
    reveal_strlit("ascii;\n");
    reveal_strlit("}\n");
    reveal_strlit("FoamFile");
    reveal_strlit("ascii");
    reveal_strlit("    ");
    reveal_strlit("        ");
    reveal_strlit("");
    lemma_head_words();
    let f = "FoamFile"@;
    let a = "ascii"@;
    let nl = seq!['\n'];
    lemma_spaces(nl);
    lemma_mark('{');
    lemma_mark('}');
    lemma_single(f, '\n');
    lemma_joint(f + nl, seq![Token::Word(f)], seq!['{'], seq![Token::Punct('{')]);
    lemma_joint(
        f + nl + seq!['{'],
        seq![Token::Word(f)] + seq![Token::Punct('{')],
        nl,
        none,
    );
    assert(f + nl + seq!['{'] + nl =~= "FoamFile\n{\n"@);
    assert(seq![Token::Word(f)] + seq![Token::Punct('{')] + none =~= seq![
        Token::Word(f),
        Token::Punct('{'),
    ]);
    lemma_single_mark(a, ';');
    lemma_joint(a + seq![';'], seq![Token::Word(a), Token::Punct(';')], nl, none);
    assert(a + seq![';'] + nl =~= "ascii;\n"@);
    assert(seq![Token::Word(a), Token::Punct(';')] + none =~= seq![
        Token::Word(a),
        Token::Punct(';'),
    ]);
    lemma_joint(seq!['}'], seq![Token::Punct('}')], nl, none);
    assert(seq!['}'] + nl =~= "}\n"@);
    assert(seq![Token::Punct('}')] + none =~= seq![Token::Punct('}')]);
}

/// The tokens of a file's head.
pub open spec fn head_toks(class: Seq<char>, time: Seq<char>, object: Seq<char>) -> Seq<Token> {
    Seq::<Token>::empty() + seq![Token::Word("FoamFile"@), Token::Punct('{')] + seq![
        Token::Word("format"@),
    ] + seq![Token::Word("ascii"@), Token::Punct(';')] + seq![Token::Word("class"@)] + spelling(
        class,
    ).push(Token::Punct(';')) + seq![Token::Word("location"@)] + seq![
        Token::Str(string_of(time)),
        Token::Punct(';'),
    ] + seq![Token::Word("object"@)] + spelling(object).push(Token::Punct(';')) + seq![
        Token::Punct('}'),
    ] + Seq::<Token>::empty()
}

pub(crate) proof fn lemma_head(class: Seq<char>, time: Seq<char>, object: Seq<char>)
    requires
        is_spelled(class),
        is_enclosed(time),
        is_spelled(object),
    ensures
        gives(file_head(class, time, object), head_toks(class, time, object)),
{
    lemma_banner();
    let x0 = banner();
    let k0 = Seq::<Token>::empty();
    let y1 = "FoamFile\n{\n"@;
    let j1 = seq![Token::Word("FoamFile"@), Token::Punct('{')];
    lemma_head_literals();
    lemma_joint(x0, k0, y1, j1);
    let x1 = x0 + y1;
    let k1 = k0 + j1;
    let y2 = keyword("    "@, "format"@, 12);
    let j2 = seq![Token::Word("format"@)];
    lemma_keyword("    "@, "format"@, 12);
    lemma_joint(x1, k1, y2, j2);
    let x2 = x1 + y2;
    let k2 = k1 + j2;
    let y3 = "ascii;\n"@;
    let j3 = seq![Token::Word("ascii"@), Token::Punct(';')];
    lemma_joint(x2, k2, y3, j3);
    let x3 = x2 + y3;
    let k3 = k2 + j3;
    let y4 = keyword("    "@, "class"@, 12);
    let j4 = seq![Token::Word("class"@)];
    lemma_keyword("    "@, "class"@, 12);
    lemma_joint(x3, k3, y4, j4);
    let x4 = x3 + y4;
    let k4 = k3 + j4;
    lemma_value_line(x4, k4, class);
    let x5 = x4 + class + ";\n"@;
    let k5 = k4 + spelling(class).push(Token::Punct(';'));
    let y6 = keyword("    "@, "location"@, 12);
    let j6 = seq![Token::Word("location"@)];
    lemma_keyword("    "@, "location"@, 12);
    lemma_joint(x5, k5, y6, j6);
    let x6 = x5 + y6;
    let k6 = k5 + j6;
    lemma_string_line(x6, k6, time);
    let x7 = x6 + "\""@ + time + "\";\n"@;
    let k7 = k6 + seq![Token::Str(string_of(time)), Token::Punct(';')];
    let y8 = keyword("    "@, "object"@, 12);
    let j8 = seq![Token::Word("object"@)];
    lemma_keyword("    "@, "object"@, 12);
    lemma_joint(x7, k7, y8, j8);
    let x8 = x7 + y8;
    let k8 = k7 + j8;
    lemma_value_line(x8, k8, object);
    let x9 = x8 + object + ";\n"@;
    let k9 = k8 + spelling(object).push(Token::Punct(';'));
    let y10 = "}\n"@;
    let j10 = seq![Token::Punct('}')];
    lemma_joint(x9, k9, y10, j10);
    let x10 = x9 + y10;
    let k10 = k9 + j10;
    let y11 = separator();
    let j11 = Seq::<Token>::empty();
    lemma_separators();
    lemma_joint(x10, k10, y11, j11);
    let x11 = x10 + y11;
    let k11 = k10 + j11;
}

/// One entry of the head is put into its table.
pub(crate) proof fn lemma_head_entry(s: Stream, t: Seq<Pair>, key: Seq<char>, k: Seq<Token>)
    requires
        stands(s, seq![Token::Word(key)]),
        stands(s.to(s.pos + 1), k.push(Token::Punct(';'))),
        is_running(k),
        k.len() > 0,
        k[0] != Token::Punct('{'),
    ensures
        header_body(s, t) == header_body(s.to(s.pos + k.len() + 2), put(t, key, joined(k))),
{
    let w = seq![Token::Word(key)];
    lemma_next(s, w, 0);
    let v = s.to(s.pos + 1);
    let m = k.push(Token::Punct(';'));
    lemma_next(v, m, 0);
    lemma_next(v, m, k.len() as int);
    assert(m[0] == k[0]);
    lemma_raw(
        v,
        k,
        "missing ';' in FoamFile header"@,
        "expected ';' in FoamFile header"@,
    );
}

/// The head is read past, and names the field.
#[verifier::rlimit(60)]
#[verifier::spinoff_prover]
pub(crate) proof fn lemma_read_head(s: Stream, class: Seq<char>, time: Seq<char>, object: Seq<char>)
    requires
        stands(s, head_toks(class, time, object)),
        is_spelled(class),
        is_spelled(object),
    ensures
        header_at(s) matches Ok((h, e)) && e == s.pos + head_toks(class, time, object).len()
            && lookup(h, "object"@) == Some(object),
{
    lemma_spelled(class);
    lemma_spelled(object);
    let kc = spelling(class);
    let ko = spelling(object);
    lemma_value_runs(kc);
    lemma_value_runs(ko);
    let n = kc.len() as int;
    let m = ko.len() as int;
    let e = Seq::<Token>::empty();
    let a1 = e + seq![Token::Word("FoamFile"@), Token::Punct('{')];
    let b2 = seq![Token::Word("format"@)];
    let b3 = seq![Token::Word("ascii"@), Token::Punct(';')];
    let b4 = seq![Token::Word("class"@)];
    let b5 = kc.push(Token::Punct(';'));
    let b6 = seq![Token::Word("location"@)];
    let b7 = seq![Token::Str(string_of(time)), Token::Punct(';')];
    let b8 = seq![Token::Word("object"@)];
    let b9 = ko.push(Token::Punct(';'));
    let b10 = seq![Token::Punct('}')];
    let a2 = a1 + b2;
    let a3 = a2 + b3;
    let a4 = a3 + b4;
    let a5 = a4 + b5;
    let a6 = a5 + b6;
    let a7 = a6 + b7;
    let a8 = a7 + b8;
    let a9 = a8 + b9;
    let a10 = a9 + b10;
    lemma_split(s, a10, e);
    lemma_split(s, a9, b10);
    lemma_split(s, a8, b9);
    lemma_split(s, a7, b8);
    lemma_split(s, a6, b7);
    lemma_split(s, a5, b6);
    lemma_split(s, a4, b5);
    lemma_split(s, a3, b4);
    lemma_split(s, a2, b3);
    lemma_split(s, a1, b2);
    lemma_next(s, a1, 0);
    lemma_next(s, a1, 1);
    let t0 = Seq::<Pair>::empty();
    let ka = seq![Token::Word("ascii"@)];
    let kt = seq![Token::Str(string_of(time))];
    assert(ka.push(Token::Punct(';')) =~= b3);
    assert(kt.push(Token::Punct(';')) =~= b7);
    let t1 = put(t0, "format"@, joined(ka));
    let t2 = put(t1, "class"@, joined(kc));
    let t3 = put(t2, "location"@, joined(kt));
    let t4 = put(t3, "object"@, joined(ko));
    let s1 = s.to(s.pos + 2);
    let s2 = s.to(s.pos + 5);
    let s3 = s.to(s.pos + 7 + n);
    let s4 = s.to(s.pos + 10 + n);
    let s5 = s.to(s.pos + 12 + n + m);
    lemma_head_entry(s1, t0, "format"@, ka);
    lemma_head_entry(s2, t1, "class"@, kc);
    lemma_head_entry(s3, t2, "location"@, kt);
    lemma_head_entry(s4, t3, "object"@, ko);
    lemma_next(s5, b10, 0);
    assert(header_body(s5, t4) == Ok::<_, Failure>((t4, s5.pos)));
    put_keeps_order(t0, "format"@, joined(ka));
    put_keeps_order(t1, "class"@, joined(kc));
    put_keeps_order(t2, "location"@, joined(kt));
    lookup_after_put(t3, "object"@, joined(ko), "object"@);
}

} // verus!
