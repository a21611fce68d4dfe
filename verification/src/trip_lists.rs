//! Lists in a file, and what is read of them.

use vstd::prelude::*;

use crate::error::Failure;
use crate::exact::{counts_read_back, lemma_decimal};
use crate::fields::{
    keyword, precise, precise_vector, scalar_entry, scalar_entry_text, scalar_lines, shrinks,
    shrinks_vectors, vector_entry, vector_entry_text, vector_lines, Collapse,
};
use crate::mesh::Vec3;
use crate::numeral::parsed;
use crate::pieces::{
    all_spaces, gives, has_no_parens, is_one_word, is_single, lemma_joint, lemma_mark, lemma_number,
    lemma_one_word, lemma_single, lemma_single_mark, lemma_spaces, single,
};
use crate::reader::{list_at, number_at, number_reader, several, vector_at, vector_reader, Read};
use crate::scalar::Scalar;
use crate::text::{decimal, is_digit};
use crate::tokenizer::{token_number, Stream, Token};
use crate::trip_head::{lemma_keyword, lemma_next, lemma_split, stands};

verus! {

// --------------------------------------------------------------------------
//  Lists
// --------------------------------------------------------------------------
/// Do the digits of a number tell it from every other?
#[verifier::opaque]
pub open spec fn scalar_kept(v: Scalar, p: nat) -> bool {
    parsed(precise(v, p)) == Some(v)
}

pub open spec fn vector_kept(v: Vec3, p: nat) -> bool {
    scalar_kept(v.x, p) && scalar_kept(v.y, p) && scalar_kept(v.z, p)
}

pub open spec fn scalars_kept(v: Seq<Scalar>, p: nat) -> bool {
    forall|i: int| 0 <= i < v.len() ==> scalar_kept(#[trigger] v[i], p)
}

pub open spec fn vectors_kept(v: Seq<Vec3>, p: nat) -> bool {
    forall|i: int| 0 <= i < v.len() ==> vector_kept(#[trigger] v[i], p)
}

pub open spec fn scalar_toks(v: Scalar, p: nat) -> Seq<Token> {
    seq![single(precise(v, p))]
}

pub open spec fn vector_toks(v: Vec3, p: nat) -> Seq<Token> {
    seq![
        Token::Punct('('),
        single(precise(v.x, p)),
        single(precise(v.y, p)),
        single(precise(v.z, p)),
        Token::Punct(')'),
    ]
}

/// Its text is one token, which stands for it.
pub(crate) proof fn lemma_scalar(v: Scalar, p: nat)
    requires
        scalar_kept(v, p),
    ensures
        is_single(precise(v, p)),
        has_no_parens(precise(v, p)),
        token_number(single(precise(v, p))) == Some(v),
{
    reveal(scalar_kept);
    lemma_number(precise(v, p));
}

pub(crate) proof fn lemma_scalar_space(v: Scalar, p: nat)
    requires
        scalar_kept(v, p),
    ensures
        gives(precise(v, p) + seq!['\n'], scalar_toks(v, p)),
{
    lemma_scalar(v, p);
    lemma_single(precise(v, p), '\n');
}

pub(crate) proof fn lemma_scalar_semicolon(v: Scalar, p: nat)
    requires
        scalar_kept(v, p),
    ensures
        gives(precise(v, p) + seq![';'], scalar_toks(v, p) + seq![Token::Punct(';')]),
{
    lemma_scalar(v, p);
    lemma_single_mark(precise(v, p), ';');
    assert(scalar_toks(v, p) + seq![Token::Punct(';')] =~= seq![
        single(precise(v, p)),
        Token::Punct(';'),
    ]);
}

pub(crate) proof fn lemma_scalar_at(s: Stream, v: Scalar, p: nat)
    requires
        stands(s, scalar_toks(v, p)),
        scalar_kept(v, p),
    ensures
        number_at(s) == Ok::<_, Failure>((v, s.pos + 1)),
{
    lemma_scalar(v, p);
    lemma_next(s, scalar_toks(v, p), 0);
}

/// A vector gives its marks and its numbers.
pub(crate) proof fn lemma_vector(v: Vec3, p: nat)
    requires
        vector_kept(v, p),
    ensures
        gives(precise_vector(v, p), vector_toks(v, p)),
{
    let x = precise(v.x, p);
    let y = precise(v.y, p);
    let z = precise(v.z, p);
    lemma_scalar(v.x, p);
    lemma_scalar(v.y, p);
    lemma_scalar(v.z, p);
    reveal_strlit("(");
    reveal_strlit(" ");
    reveal_strlit(")");
    assert("("@ =~= seq!['(']);
    assert(" "@ =~= seq![' ']);
    assert(")"@ =~= seq![')']);
    lemma_mark('(');
    lemma_single(x, ' ');
    lemma_single(y, ' ');
    lemma_single_mark(z, ')');
    let k1 = seq![Token::Punct('(')];
    let kx = seq![single(x)];
    let ky = seq![single(y)];
    let kz = seq![single(z), Token::Punct(')')];
    lemma_joint("("@, k1, x + seq![' '], kx);
    let a = "("@ + (x + seq![' ']);
    lemma_joint(a, k1 + kx, y + seq![' '], ky);
    let b = a + (y + seq![' ']);
    lemma_joint(b, k1 + kx + ky, z + seq![')'], kz);
    assert(b + (z + seq![')']) =~= precise_vector(v, p));
    assert(k1 + kx + ky + kz =~= vector_toks(v, p));
}

pub(crate) proof fn lemma_vector_space(v: Vec3, p: nat)
    requires
        vector_kept(v, p),
    ensures
        gives(precise_vector(v, p) + seq!['\n'], vector_toks(v, p)),
{
    let none = Seq::<Token>::empty();
    lemma_vector(v, p);
    lemma_spaces(seq!['\n']);
    lemma_joint(precise_vector(v, p), vector_toks(v, p), seq!['\n'], none);
    assert(vector_toks(v, p) + none =~= vector_toks(v, p));
}

pub(crate) proof fn lemma_vector_semicolon(v: Vec3, p: nat)
    requires
        vector_kept(v, p),
    ensures
        gives(precise_vector(v, p) + seq![';'], vector_toks(v, p) + seq![Token::Punct(';')]),
{
    lemma_vector(v, p);
    lemma_mark(';');
    lemma_joint(precise_vector(v, p), vector_toks(v, p), seq![';'], seq![Token::Punct(';')]);
}

pub(crate) proof fn lemma_vector_at(s: Stream, v: Vec3, p: nat)
    requires
        stands(s, vector_toks(v, p)),
        vector_kept(v, p),
    ensures
        vector_at(s) == Ok::<_, Failure>((v, s.pos + 5)),
{
    let k = vector_toks(v, p);
    let a = seq![Token::Punct('(')];
    let x = scalar_toks(v.x, p);
    let y = scalar_toks(v.y, p);
    let z = scalar_toks(v.z, p);
    let e = seq![Token::Punct(')')];
    assert(k =~= a + x + y + z + e);
    lemma_split(s, a + x + y + z, e);
    lemma_split(s, a + x + y, z);
    lemma_split(s, a + x, y);
    lemma_split(s, a, x);
    lemma_next(s, a, 0);
    lemma_next(s.to(s.pos + 4), e, 0);
    lemma_scalar_at(s.to(s.pos + 1), v.x, p);
    lemma_scalar_at(s.to(s.pos + 2), v.y, p);
    lemma_scalar_at(s.to(s.pos + 3), v.z, p);
}

/// One value, and those that are read next.
pub(crate) proof fn lemma_one_more<T>(
    s: Stream,
    n: int,
    one: spec_fn(Stream) -> Read<T>,
    v: T,
    e: int,
    w: Seq<T>,
    f: int,
)
    requires
        n > 0,
        one(s) == Ok::<_, Failure>((v, e)),
        several(s.to(e), n - 1, one) == Ok::<_, Failure>((w, f)),
    ensures
        several(s, n, one) == Ok::<_, Failure>((seq![v] + w, f)),
{
}

pub(crate) proof fn lemma_list_words()
    ensures
        is_one_word("uniform"@),
        is_one_word("nonuniform"@),
        is_one_word("List<scalar>"@),
        is_one_word("List<vector>"@),
        "uniform"@ != "nonuniform"@,
{
    reveal_strlit("uniform");
    reveal_strlit("nonuniform");
    reveal_strlit("List<scalar>");
    reveal_strlit("List<vector>");
    lemma_one_word("uniform"@);
    lemma_one_word("nonuniform"@);
    lemma_one_word("List<scalar>"@);
    lemma_one_word("List<vector>"@);
    assert("uniform"@.len() == 7 && "nonuniform"@.len() == 10);
}

/// A count and the bracket behind it.
pub(crate) proof fn lemma_count(n: nat)
    requires
        n <= i32::MAX,
    ensures
        gives(decimal(n) + "\n(\n"@, seq![single(decimal(n)), Token::Punct('(')]),
        single(decimal(n)) is Num,
        single(decimal(n))->Num_0.label() == Some(n as int),
{
    let t = decimal(n);
    let none = Seq::<Token>::empty();
    counts_read_back(n);
    lemma_decimal(n);
    assert(is_digit(t[0]));
    lemma_number(t);
    reveal_strlit("\n(\n");
    lemma_single(t, '\n');
    lemma_mark('(');
    lemma_spaces(seq!['\n']);
    lemma_joint(t + seq!['\n'], seq![single(t)], seq!['('], seq![Token::Punct('(')]);
    let a = t + seq!['\n'] + seq!['('];
    let k = seq![single(t)] + seq![Token::Punct('(')];
    lemma_joint(a, k, seq!['\n'], none);
    assert(a + seq!['\n'] =~= t + "\n(\n"@);
    assert(k + none =~= seq![single(t), Token::Punct('(')]);
}

/// The text `0` counts nothing.
pub(crate) proof fn lemma_nought()
    ensures
        "0"@ == decimal(0),
        is_single("0"@),
        single("0"@) is Num,
        single("0"@)->Num_0.label() == Some(0int),
{
    reveal_strlit("0");
    assert("0"@ =~= decimal(0));
    lemma_count(0);
    counts_read_back(0);
    lemma_number("0"@);
}

pub(crate) proof fn lemma_list_literals()
    ensures
        gives("uniform "@, seq![Token::Word("uniform"@)]),
        gives(
            "nonuniform 0();\n"@,
            seq![
                Token::Word("nonuniform"@),
                single("0"@),
                Token::Punct('('),
                Token::Punct(')'),
                Token::Punct(';'),
            ],
        ),
        gives(
            "nonuniform List<scalar> \n"@,
            seq![Token::Word("nonuniform"@), Token::Word("List<scalar>"@)],
        ),
        gives(
            "nonuniform List<vector> \n"@,
            seq![Token::Word("nonuniform"@), Token::Word("List<vector>"@)],
        ),
        gives(")\n;\n"@, seq![Token::Punct(')'), Token::Punct(';')]),
{
    let none = Seq::<Token>::empty();
    lemma_list_words();
    lemma_nought();
    reveal_strlit("uniform");
    reveal_strlit("nonuniform");
    reveal_strlit("List<scalar>");
    reveal_strlit("List<vector>");
    reveal_strlit("uniform ");
    reveal_strlit("0");
    reveal_strlit("nonuniform 0();\n");
    reveal_strlit("nonuniform List<scalar> \n");
    reveal_strlit("nonuniform List<vector> \n");
    reveal_strlit(")\n;\n");
    let nl = seq!['\n'];
    let u = "nonuniform"@;
    let ku = seq![Token::Word(u)];
    lemma_spaces(nl);
    lemma_mark(')');
    lemma_mark(';');
    lemma_single("uniform"@, ' ');
    assert("uniform"@ + seq![' '] =~= "uniform "@);
    lemma_single(u, ' ');
    lemma_list_head("List<scalar>"@);
    assert(u + seq![' '] + ("List<scalar>"@ + seq![' ']) + nl =~= "nonuniform List<scalar> \n"@);
    lemma_list_head("List<vector>"@);
    assert(u + seq![' '] + ("List<vector>"@ + seq![' ']) + nl =~= "nonuniform List<vector> \n"@);
    let kc = seq![Token::Punct(')')];
    let ks = seq![Token::Punct(';')];
    lemma_joint(seq![')'], kc, nl, none);
    lemma_joint(seq![')'] + nl, kc + none, seq![';'], ks);
    lemma_joint(seq![')'] + nl + seq![';'], kc + none + ks, nl, none);
    assert(seq![')'] + nl + seq![';'] + nl =~= ")\n;\n"@);
    assert(kc + none + ks + none =~= seq![Token::Punct(')'), Token::Punct(';')]);
    let z = "0"@;
    lemma_single_mark(z, '(');
    let kz = seq![single(z), Token::Punct('(')];
    lemma_joint(u + seq![' '], ku, z + seq!['('], kz);
    let a = u + seq![' '] + (z + seq!['(']);
    lemma_joint(a, ku + kz, seq![')'], kc);
    lemma_joint(a + seq![')'], ku + kz + kc, seq![';'], ks);
    lemma_joint(a + seq![')'] + seq![';'], ku + kz + kc + ks, nl, none);
    assert(a + seq![')'] + seq![';'] + nl =~= "nonuniform 0();\n"@);
    assert(ku + kz + kc + ks + none =~= seq![
        Token::Word(u),
        single(z),
        Token::Punct('('),
        Token::Punct(')'),
        Token::Punct(';'),
    ]);
}

pub(crate) proof fn lemma_list_head(l: Seq<char>)
    requires
        is_one_word(l),
    ensures
        gives(
            "nonuniform"@ + seq![' '] + (l + seq![' ']) + seq!['\n'],
            seq![Token::Word("nonuniform"@), Token::Word(l)],
        ),
{
    let none = Seq::<Token>::empty();
    let u = "nonuniform"@;
    let ku = seq![Token::Word(u)];
    let kl = seq![Token::Word(l)];
    lemma_list_words();
    lemma_single(u, ' ');
    lemma_single(l, ' ');
    lemma_spaces(seq!['\n']);
    lemma_joint(u + seq![' '], ku, l + seq![' '], kl);
    lemma_joint(u + seq![' '] + (l + seq![' ']), ku + kl, seq!['\n'], none);
    assert(ku + kl + none =~= seq![Token::Word(u), Token::Word(l)]);
}

/// The tokens of the first `n` lines of a list.
pub open spec fn scalar_line_toks(v: Seq<Scalar>, n: int, p: nat) -> Seq<Token>
    decreases n,
{
    if n <= 0 {
        Seq::empty()
    } else {
        scalar_line_toks(v, n - 1, p) + scalar_toks(v[n - 1], p)
    }
}

/// The tokens from entry `i` on.
pub open spec fn scalar_rest_toks(v: Seq<Scalar>, i: int, p: nat) -> Seq<Token>
    decreases v.len() - i,
{
    if i < 0 || i >= v.len() {
        Seq::empty()
    } else {
        scalar_toks(v[i], p) + scalar_rest_toks(v, i + 1, p)
    }
}

pub(crate) proof fn lemma_scalar_rest(v: Seq<Scalar>, i: int, p: nat)
    requires
        0 <= i <= v.len(),
    ensures
        scalar_line_toks(v, v.len() as int, p) == scalar_line_toks(v, i, p) + scalar_rest_toks(v, i, p),
    decreases v.len() - i,
{
    let a = scalar_line_toks(v, i, p);
    if i < v.len() {
        lemma_scalar_rest(v, i + 1, p);
        assert((a + scalar_toks(v[i], p)) + scalar_rest_toks(v, i + 1, p) =~= a + (scalar_toks(v[i], p)
            + scalar_rest_toks(v, i + 1, p)));
    } else {
        assert(a + Seq::<Token>::empty() =~= a);
    }
}

pub(crate) proof fn lemma_scalar_lines(v: Seq<Scalar>, n: int, p: nat)
    requires
        0 <= n <= v.len(),
        scalars_kept(v, p),
    ensures
        gives(scalar_lines(v, n, p), scalar_line_toks(v, n, p)),
    decreases n,
{
    if n == 0 {
        assert(all_spaces(scalar_lines(v, n, p)));
        lemma_spaces(scalar_lines(v, n, p));
    } else {
        let x = scalar_lines(v, n - 1, p);
        let k = scalar_line_toks(v, n - 1, p);
        let y = precise(v[n - 1], p);
        lemma_scalar_lines(v, n - 1, p);
        reveal_strlit("\n");
        assert("\n"@ =~= seq!['\n']);
        assert(scalar_kept(v[n - 1], p));
        lemma_scalar_space(v[n - 1], p);
        lemma_joint(x, k, y + seq!['\n'], scalar_toks(v[n - 1], p));
        assert(x + (y + seq!['\n']) =~= x + y + "\n"@);
    }
}

pub(crate) proof fn lemma_scalar_reads(s: Stream, v: Scalar, p: nat)
    requires
        stands(s, scalar_toks(v, p)),
        scalar_kept(v, p),
    ensures
        number_reader()(s) == Ok::<_, Failure>((v, s.pos + scalar_toks(v, p).len())),
{
    lemma_scalar_at(s, v, p);
}

#[verifier::rlimit(60)]
#[verifier::spinoff_prover]
pub(crate) proof fn lemma_scalar_several(s: Stream, v: Seq<Scalar>, i: int, p: nat)
    requires
        0 <= i <= v.len(),
        stands(s, scalar_rest_toks(v, i, p)),
        scalars_kept(v, p),
    ensures
        several(s, v.len() - i, number_reader()) == Ok::<_, Failure>(
            (v.skip(i), s.pos + scalar_rest_toks(v, i, p).len()),
        ),
    decreases v.len() - i,
{
    if i < v.len() {
        let a = scalar_toks(v[i], p);
        let b = scalar_rest_toks(v, i + 1, p);
        lemma_split(s, a, b);
        assert(scalar_kept(v[i], p));
        lemma_scalar_reads(s, v[i], p);
        let e = s.pos + a.len();
        lemma_scalar_several(s.to(e), v, i + 1, p);
        assert(seq![v[i]] + v.skip(i + 1) =~= v.skip(i));
        lemma_one_more(s, v.len() - i, number_reader(), v[i], e, v.skip(i + 1), e + b.len());
    } else {
        assert(v.skip(i) =~= Seq::empty());
    }
}

/// A list as it comes back: one value where it was collapsed.
pub open spec fn kept_scalars(v: Seq<Scalar>, collapse: Collapse) -> Seq<Scalar> {
    if v.len() > 1 && shrinks(collapse, v) {
        seq![v[0]]
    } else {
        v
    }
}

pub open spec fn scalar_value_toks(v: Seq<Scalar>, p: nat, collapse: Collapse) -> Seq<Token> {
    if v.len() == 0 {
        seq![
            Token::Word("nonuniform"@),
            single("0"@),
            Token::Punct('('),
            Token::Punct(')'),
            Token::Punct(';'),
        ]
    } else if v.len() == 1 || shrinks(collapse, v) {
        seq![Token::Word("uniform"@)] + scalar_toks(v[0], p) + seq![Token::Punct(';')]
    } else {
        seq![Token::Word("nonuniform"@), Token::Word("List<scalar>"@)] + seq![
            single(decimal(v.len())),
            Token::Punct('('),
        ] + scalar_line_toks(v, v.len() as int, p) + seq![Token::Punct(')'), Token::Punct(';')]
    }
}

/// The tokens of an entry with a list.
pub open spec fn scalar_entry_toks(kw: Seq<char>, v: Seq<Scalar>, p: nat, collapse: Collapse) -> Seq<Token> {
    seq![Token::Word(kw)] + scalar_value_toks(v, p, collapse)
}

pub(crate) proof fn lemma_scalar_entry(indent: Seq<char>, kw: Seq<char>, v: Seq<Scalar>, p: nat, collapse: Collapse)
    requires
        all_spaces(indent),
        is_one_word(kw),
        scalars_kept(v, p),
        v.len() <= i32::MAX,
    ensures
        gives(
            scalar_entry_text(indent, kw, v, p, collapse),
            scalar_entry_toks(kw, v, p, collapse),
        ),
{
    let x = keyword(indent, kw, 16);
    let k = seq![Token::Word(kw)];
    let j = scalar_value_toks(v, p, collapse);
    lemma_keyword(indent, kw, 16);
    lemma_list_literals();
    if v.len() == 0 {
        lemma_joint(x, k, "nonuniform 0();\n"@, j);
    } else if v.len() == 1 || shrinks(collapse, v) {
        let u = "uniform "@;
        let y = precise(v[0], p);
        assert(scalar_kept(v[0], p));
        lemma_scalar_semicolon(v[0], p);
        let ku = seq![Token::Word("uniform"@)];
        let ky = scalar_toks(v[0], p) + seq![Token::Punct(';')];
        lemma_joint(u, ku, y + seq![';'], ky);
        lemma_spaces(seq!['\n']);
        let none = Seq::<Token>::empty();
        lemma_joint(u + (y + seq![';']), ku + ky, seq!['\n'], none);
        reveal_strlit(";\n");
        assert(u + (y + seq![';']) + seq!['\n'] =~= u + y + ";\n"@);
        assert(ku + ky + none =~= j);
        lemma_joint(x, k, u + y + ";\n"@, j);
    } else {
        let n = v.len();
        let a = "nonuniform List<scalar> \n"@;
        let ka = seq![Token::Word("nonuniform"@), Token::Word("List<scalar>"@)];
        let b = decimal(n) + "\n(\n"@;
        let kb = seq![single(decimal(n)), Token::Punct('(')];
        let c = scalar_lines(v, n as int, p);
        let kc = scalar_line_toks(v, n as int, p);
        let d = ")\n;\n"@;
        let kd = seq![Token::Punct(')'), Token::Punct(';')];
        lemma_count(n);
        lemma_scalar_lines(v, n as int, p);
        lemma_joint(a, ka, b, kb);
        lemma_joint(a + b, ka + kb, c, kc);
        lemma_joint(a + b + c, ka + kb + kc, d, kd);
        assert(a + b + c + d =~= a + decimal(n) + "\n(\n"@ + c + d);
        lemma_joint(x, k, a + b + c + d, j);
    }
}

/// What an entry with a list is read as.
#[verifier::opaque]
pub open spec fn read_scalars(s: Stream) -> Read<Seq<Scalar>> {
    scalar_entry(s)
}

/// A list without entries is read as one.
#[verifier::rlimit(60)]
#[verifier::spinoff_prover]
pub(crate) proof fn lemma_read_no_scalars(s: Stream, v: Seq<Scalar>, p: nat, collapse: Collapse)
    requires
        stands(s, scalar_value_toks(v, p, collapse)),
        v.len() == 0,
    ensures
        read_scalars(s) == Ok::<_, Failure>((v, s.pos + 5)),
{
    reveal(read_scalars);
    let j = scalar_value_toks(v, p, collapse);
    lemma_list_words();
    lemma_next(s, j, 0);
    lemma_next(s, j, 1);
    lemma_next(s, j, 2);
    lemma_next(s, j, 3);
    lemma_next(s, j, 4);
    lemma_nought();
    assert(several(s.to(s.pos + 3), 0, number_reader()) == Ok::<_, Failure>(
        (Seq::<Scalar>::empty(), s.pos + 3),
    ));
    assert(v =~= Seq::<Scalar>::empty());
}

/// One value is read as a list of one.
#[verifier::rlimit(60)]
#[verifier::spinoff_prover]
pub(crate) proof fn lemma_read_one_scalar(s: Stream, v: Scalar, p: nat)
    requires
        stands(
            s,
            seq![Token::Word("uniform"@)] + scalar_toks(v, p) + seq![Token::Punct(';')],
        ),
        scalar_kept(v, p),
    ensures
        read_scalars(s) == Ok::<_, Failure>((seq![v], s.pos + 2 + scalar_toks(v, p).len())),
{
    reveal(read_scalars);
    let ku = seq![Token::Word("uniform"@)];
    let ky = scalar_toks(v, p);
    let kz = seq![Token::Punct(';')];
    lemma_split(s, ku + ky, kz);
    lemma_split(s, ku, ky);
    lemma_next(s, ku, 0);
    lemma_scalar_at(s.to(s.pos + 1), v, p);
    lemma_next(s.to(s.pos + (ku + ky).len()), kz, 0);
}

/// What a list is read as.
#[verifier::opaque]
pub open spec fn read_scalar_list(s: Stream) -> Read<Seq<Scalar>> {
    list_at(s, "negative list size"@, true, number_reader())
}

/// A list in brackets is read entry by entry.
#[verifier::rlimit(60)]
#[verifier::spinoff_prover]
pub(crate) proof fn lemma_read_bracketed_scalars(s: Stream, v: Seq<Scalar>, p: nat)
    requires
        stands(
            s,
            seq![single(decimal(v.len())), Token::Punct('(')] + scalar_line_toks(
                v,
                v.len() as int,
                p,
            ) + seq![Token::Punct(')'), Token::Punct(';')],
        ),
        scalars_kept(v, p),
        v.len() <= i32::MAX,
    ensures
        read_scalar_list(s) == Ok::<_, Failure>(
            (v, s.pos + 3 + scalar_line_toks(v, v.len() as int, p).len()),
        ),
        s.to(s.pos + 3 + scalar_line_toks(v, v.len() as int, p).len()).is_punct(';'),
{
    reveal(read_scalar_list);
    let n = v.len();
    let kb = seq![single(decimal(n)), Token::Punct('(')];
    let kc = scalar_line_toks(v, n as int, p);
    let kd = seq![Token::Punct(')'), Token::Punct(';')];
    lemma_split(s, kb + kc, kd);
    lemma_split(s, kb, kc);
    lemma_next(s, kb, 0);
    lemma_next(s, kb, 1);
    let e = s.to(s.pos + 2 + kc.len());
    lemma_next(e, kd, 0);
    lemma_next(e, kd, 1);
    lemma_scalar_rest(v, 0, p);
    assert(scalar_line_toks(v, 0, p) + scalar_rest_toks(v, 0, p) =~= scalar_rest_toks(v, 0, p));
    lemma_scalar_several(s.to(s.pos + 2), v, 0, p);
    assert(v.skip(0) =~= v);
    lemma_count(n);
}

pub(crate) proof fn lemma_nonuniform_scalars(s: Stream, l: Seq<char>, v: Seq<Scalar>, e: int)
    requires
        s.is_word("nonuniform"@),
        s.ahead(1) == Some(Token::Word(l)),
        read_scalar_list(s.to(s.pos + 2)) == Ok::<_, Failure>((v, e)),
        s.to(e).is_punct(';'),
    ensures
        read_scalars(s) == Ok::<_, Failure>((v, e + 1)),
{
    reveal(read_scalars);
    reveal(read_scalar_list);
    lemma_list_words();
    let next = s.to(s.pos + 1);
    assert(next.ahead(0) == Some(Token::Word(l)));
    assert(crate::fields::list_start(next) == s.to(s.pos + 2));
}

pub(crate) proof fn lemma_read_listed_scalars(s: Stream, v: Seq<Scalar>, p: nat)
    requires
        stands(
            s,
            seq![Token::Word("nonuniform"@), Token::Word("List<scalar>"@)] + seq![
                single(decimal(v.len())),
                Token::Punct('('),
            ] + scalar_line_toks(v, v.len() as int, p) + seq![Token::Punct(')'), Token::Punct(';')],
        ),
        scalars_kept(v, p),
        v.len() <= i32::MAX,
    ensures
        read_scalars(s) == Ok::<_, Failure>(
            (v, s.pos + 6 + scalar_line_toks(v, v.len() as int, p).len()),
        ),
{
    let n = v.len();
    let ka = seq![Token::Word("nonuniform"@), Token::Word("List<scalar>"@)];
    let kb = seq![single(decimal(n)), Token::Punct('(')];
    let kc = scalar_line_toks(v, n as int, p);
    let kd = seq![Token::Punct(')'), Token::Punct(';')];
    assert(ka + kb + kc + kd =~= ka + (kb + kc + kd));
    lemma_split(s, ka, kb + kc + kd);
    lemma_next(s, ka, 0);
    lemma_next(s, ka, 1);
    lemma_read_bracketed_scalars(s.to(s.pos + 2), v, p);
    lemma_nonuniform_scalars(s, "List<scalar>"@, v, s.pos + 5 + kc.len());
}

/// A list is read as it is kept.
pub(crate) proof fn lemma_read_scalars(s: Stream, v: Seq<Scalar>, p: nat, collapse: Collapse)
    requires
        stands(s, scalar_value_toks(v, p, collapse)),
        scalars_kept(v, p),
        v.len() <= i32::MAX,
    ensures
        read_scalars(s) == Ok::<_, Failure>(
            (kept_scalars(v, collapse), s.pos + scalar_value_toks(v, p, collapse).len()),
        ),
{
    if v.len() == 0 {
        lemma_read_no_scalars(s, v, p, collapse);
    } else if v.len() == 1 || shrinks(collapse, v) {
        assert(scalar_kept(v[0], p));
        lemma_read_one_scalar(s, v[0], p);
        assert(seq![v[0]] =~= kept_scalars(v, collapse));
    } else {
        lemma_read_listed_scalars(s, v, p);
    }
}

/// The tokens of the first `n` lines of a list.
pub open spec fn vector_line_toks(v: Seq<Vec3>, n: int, p: nat) -> Seq<Token>
    decreases n,
{
    if n <= 0 {
        Seq::empty()
    } else {
        vector_line_toks(v, n - 1, p) + vector_toks(v[n - 1], p)
    }
}

/// The tokens from entry `i` on.
pub open spec fn vector_rest_toks(v: Seq<Vec3>, i: int, p: nat) -> Seq<Token>
    decreases v.len() - i,
{
    if i < 0 || i >= v.len() {
        Seq::empty()
    } else {
        vector_toks(v[i], p) + vector_rest_toks(v, i + 1, p)
    }
}

pub(crate) proof fn lemma_vector_rest(v: Seq<Vec3>, i: int, p: nat)
    requires
        0 <= i <= v.len(),
    ensures
        vector_line_toks(v, v.len() as int, p) == vector_line_toks(v, i, p) + vector_rest_toks(v, i, p),
    decreases v.len() - i,
{
    let a = vector_line_toks(v, i, p);
    if i < v.len() {
        lemma_vector_rest(v, i + 1, p);
        assert((a + vector_toks(v[i], p)) + vector_rest_toks(v, i + 1, p) =~= a + (vector_toks(v[i], p)
            + vector_rest_toks(v, i + 1, p)));
    } else {
        assert(a + Seq::<Token>::empty() =~= a);
    }
}

pub(crate) proof fn lemma_vector_lines(v: Seq<Vec3>, n: int, p: nat)
    requires
        0 <= n <= v.len(),
        vectors_kept(v, p),
    ensures
        gives(vector_lines(v, n, p), vector_line_toks(v, n, p)),
    decreases n,
{
    if n == 0 {
        assert(all_spaces(vector_lines(v, n, p)));
        lemma_spaces(vector_lines(v, n, p));
    } else {
        let x = vector_lines(v, n - 1, p);
        let k = vector_line_toks(v, n - 1, p);
        let y = precise_vector(v[n - 1], p);
        lemma_vector_lines(v, n - 1, p);
        reveal_strlit("\n");
        assert("\n"@ =~= seq!['\n']);
        assert(vector_kept(v[n - 1], p));
        lemma_vector_space(v[n - 1], p);
        lemma_joint(x, k, y + seq!['\n'], vector_toks(v[n - 1], p));
        assert(x + (y + seq!['\n']) =~= x + y + "\n"@);
    }
}

pub(crate) proof fn lemma_vector_reads(s: Stream, v: Vec3, p: nat)
    requires
        stands(s, vector_toks(v, p)),
        vector_kept(v, p),
    ensures
        vector_reader()(s) == Ok::<_, Failure>((v, s.pos + vector_toks(v, p).len())),
{
    lemma_vector_at(s, v, p);
}

#[verifier::rlimit(60)]
#[verifier::spinoff_prover]
pub(crate) proof fn lemma_vector_several(s: Stream, v: Seq<Vec3>, i: int, p: nat)
    requires
        0 <= i <= v.len(),
        stands(s, vector_rest_toks(v, i, p)),
        vectors_kept(v, p),
    ensures
        several(s, v.len() - i, vector_reader()) == Ok::<_, Failure>(
            (v.skip(i), s.pos + vector_rest_toks(v, i, p).len()),
        ),
    decreases v.len() - i,
{
    if i < v.len() {
        let a = vector_toks(v[i], p);
        let b = vector_rest_toks(v, i + 1, p);
        lemma_split(s, a, b);
        assert(vector_kept(v[i], p));
        lemma_vector_reads(s, v[i], p);
        let e = s.pos + a.len();
        lemma_vector_several(s.to(e), v, i + 1, p);
        assert(seq![v[i]] + v.skip(i + 1) =~= v.skip(i));
        lemma_one_more(s, v.len() - i, vector_reader(), v[i], e, v.skip(i + 1), e + b.len());
    } else {
        assert(v.skip(i) =~= Seq::empty());
    }
}

/// A list as it comes back: one value where it was collapsed.
pub open spec fn kept_vectors(v: Seq<Vec3>, collapse: Collapse) -> Seq<Vec3> {
    if v.len() > 1 && shrinks_vectors(collapse, v) {
        seq![v[0]]
    } else {
        v
    }
}

pub open spec fn vector_value_toks(v: Seq<Vec3>, p: nat, collapse: Collapse) -> Seq<Token> {
    if v.len() == 0 {
        seq![
            Token::Word("nonuniform"@),
            single("0"@),
            Token::Punct('('),
            Token::Punct(')'),
            Token::Punct(';'),
        ]
    } else if v.len() == 1 || shrinks_vectors(collapse, v) {
        seq![Token::Word("uniform"@)] + vector_toks(v[0], p) + seq![Token::Punct(';')]
    } else {
        seq![Token::Word("nonuniform"@), Token::Word("List<vector>"@)] + seq![
            single(decimal(v.len())),
            Token::Punct('('),
        ] + vector_line_toks(v, v.len() as int, p) + seq![Token::Punct(')'), Token::Punct(';')]
    }
}

/// The tokens of an entry with a list.
pub open spec fn vector_entry_toks(kw: Seq<char>, v: Seq<Vec3>, p: nat, collapse: Collapse) -> Seq<Token> {
    seq![Token::Word(kw)] + vector_value_toks(v, p, collapse)
}

pub(crate) proof fn lemma_vector_entry(indent: Seq<char>, kw: Seq<char>, v: Seq<Vec3>, p: nat, collapse: Collapse)
    requires
        all_spaces(indent),
        is_one_word(kw),
        vectors_kept(v, p),
        v.len() <= i32::MAX,
    ensures
        gives(
            vector_entry_text(indent, kw, v, p, collapse),
            vector_entry_toks(kw, v, p, collapse),
        ),
{
    let x = keyword(indent, kw, 16);
    let k = seq![Token::Word(kw)];
    let j = vector_value_toks(v, p, collapse);
    lemma_keyword(indent, kw, 16);
    lemma_list_literals();
    if v.len() == 0 {
        lemma_joint(x, k, "nonuniform 0();\n"@, j);
    } else if v.len() == 1 || shrinks_vectors(collapse, v) {
        let u = "uniform "@;
        let y = precise_vector(v[0], p);
        assert(vector_kept(v[0], p));
        lemma_vector_semicolon(v[0], p);
        let ku = seq![Token::Word("uniform"@)];
        let ky = vector_toks(v[0], p) + seq![Token::Punct(';')];
        lemma_joint(u, ku, y + seq![';'], ky);
        lemma_spaces(seq!['\n']);
        let none = Seq::<Token>::empty();
        lemma_joint(u + (y + seq![';']), ku + ky, seq!['\n'], none);
        reveal_strlit(";\n");
        assert(u + (y + seq![';']) + seq!['\n'] =~= u + y + ";\n"@);
        assert(ku + ky + none =~= j);
        lemma_joint(x, k, u + y + ";\n"@, j);
    } else {
        let n = v.len();
        let a = "nonuniform List<vector> \n"@;
        let ka = seq![Token::Word("nonuniform"@), Token::Word("List<vector>"@)];
        let b = decimal(n) + "\n(\n"@;
        let kb = seq![single(decimal(n)), Token::Punct('(')];
        let c = vector_lines(v, n as int, p);
        let kc = vector_line_toks(v, n as int, p);
        let d = ")\n;\n"@;
        let kd = seq![Token::Punct(')'), Token::Punct(';')];
        lemma_count(n);
        lemma_vector_lines(v, n as int, p);
        lemma_joint(a, ka, b, kb);
        lemma_joint(a + b, ka + kb, c, kc);
        lemma_joint(a + b + c, ka + kb + kc, d, kd);
        assert(a + b + c + d =~= a + decimal(n) + "\n(\n"@ + c + d);
        lemma_joint(x, k, a + b + c + d, j);
    }
}

/// What an entry with a list is read as.
#[verifier::opaque]
pub open spec fn read_vectors(s: Stream) -> Read<Seq<Vec3>> {
    vector_entry(s)
}

/// A list without entries is read as one.
#[verifier::rlimit(60)]
#[verifier::spinoff_prover]
pub(crate) proof fn lemma_read_no_vectors(s: Stream, v: Seq<Vec3>, p: nat, collapse: Collapse)
    requires
        stands(s, vector_value_toks(v, p, collapse)),
        v.len() == 0,
    ensures
        read_vectors(s) == Ok::<_, Failure>((v, s.pos + 5)),
{
    reveal(read_vectors);
    let j = vector_value_toks(v, p, collapse);
    lemma_list_words();
    lemma_next(s, j, 0);
    lemma_next(s, j, 1);
    lemma_next(s, j, 2);
    lemma_next(s, j, 3);
    lemma_next(s, j, 4);
    lemma_nought();
    assert(several(s.to(s.pos + 3), 0, vector_reader()) == Ok::<_, Failure>(
        (Seq::<Vec3>::empty(), s.pos + 3),
    ));
    assert(v =~= Seq::<Vec3>::empty());
}

/// One value is read as a list of one.
#[verifier::rlimit(60)]
#[verifier::spinoff_prover]
pub(crate) proof fn lemma_read_one_vector(s: Stream, v: Vec3, p: nat)
    requires
        stands(
            s,
            seq![Token::Word("uniform"@)] + vector_toks(v, p) + seq![Token::Punct(';')],
        ),
        vector_kept(v, p),
    ensures
        read_vectors(s) == Ok::<_, Failure>((seq![v], s.pos + 2 + vector_toks(v, p).len())),
{
    reveal(read_vectors);
    let ku = seq![Token::Word("uniform"@)];
    let ky = vector_toks(v, p);
    let kz = seq![Token::Punct(';')];
    lemma_split(s, ku + ky, kz);
    lemma_split(s, ku, ky);
    lemma_next(s, ku, 0);
    lemma_vector_at(s.to(s.pos + 1), v, p);
    lemma_next(s.to(s.pos + (ku + ky).len()), kz, 0);
}

/// What a list is read as.
#[verifier::opaque]
pub open spec fn read_vector_list(s: Stream) -> Read<Seq<Vec3>> {
    list_at(s, "negative list size"@, true, vector_reader())
}

/// A list in brackets is read entry by entry.
#[verifier::rlimit(60)]
#[verifier::spinoff_prover]
pub(crate) proof fn lemma_read_bracketed_vectors(s: Stream, v: Seq<Vec3>, p: nat)
    requires
        stands(
            s,
            seq![single(decimal(v.len())), Token::Punct('(')] + vector_line_toks(
                v,
                v.len() as int,
                p,
            ) + seq![Token::Punct(')'), Token::Punct(';')],
        ),
        vectors_kept(v, p),
        v.len() <= i32::MAX,
    ensures
        read_vector_list(s) == Ok::<_, Failure>(
            (v, s.pos + 3 + vector_line_toks(v, v.len() as int, p).len()),
        ),
        s.to(s.pos + 3 + vector_line_toks(v, v.len() as int, p).len()).is_punct(';'),
{
    reveal(read_vector_list);
    let n = v.len();
    let kb = seq![single(decimal(n)), Token::Punct('(')];
    let kc = vector_line_toks(v, n as int, p);
    let kd = seq![Token::Punct(')'), Token::Punct(';')];
    lemma_split(s, kb + kc, kd);
    lemma_split(s, kb, kc);
    lemma_next(s, kb, 0);
    lemma_next(s, kb, 1);
    let e = s.to(s.pos + 2 + kc.len());
    lemma_next(e, kd, 0);
    lemma_next(e, kd, 1);
    lemma_vector_rest(v, 0, p);
    assert(vector_line_toks(v, 0, p) + vector_rest_toks(v, 0, p) =~= vector_rest_toks(v, 0, p));
    lemma_vector_several(s.to(s.pos + 2), v, 0, p);
    assert(v.skip(0) =~= v);
    lemma_count(n);
}

pub(crate) proof fn lemma_nonuniform_vectors(s: Stream, l: Seq<char>, v: Seq<Vec3>, e: int)
    requires
        s.is_word("nonuniform"@),
        s.ahead(1) == Some(Token::Word(l)),
        read_vector_list(s.to(s.pos + 2)) == Ok::<_, Failure>((v, e)),
        s.to(e).is_punct(';'),
    ensures
        read_vectors(s) == Ok::<_, Failure>((v, e + 1)),
{
    reveal(read_vectors);
    reveal(read_vector_list);
    lemma_list_words();
    let next = s.to(s.pos + 1);
    assert(next.ahead(0) == Some(Token::Word(l)));
    assert(crate::fields::list_start(next) == s.to(s.pos + 2));
}

pub(crate) proof fn lemma_read_listed_vectors(s: Stream, v: Seq<Vec3>, p: nat)
    requires
        stands(
            s,
            seq![Token::Word("nonuniform"@), Token::Word("List<vector>"@)] + seq![
                single(decimal(v.len())),
                Token::Punct('('),
            ] + vector_line_toks(v, v.len() as int, p) + seq![Token::Punct(')'), Token::Punct(';')],
        ),
        vectors_kept(v, p),
        v.len() <= i32::MAX,
    ensures
        read_vectors(s) == Ok::<_, Failure>(
            (v, s.pos + 6 + vector_line_toks(v, v.len() as int, p).len()),
        ),
{
    let n = v.len();
    let ka = seq![Token::Word("nonuniform"@), Token::Word("List<vector>"@)];
    let kb = seq![single(decimal(n)), Token::Punct('(')];
    let kc = vector_line_toks(v, n as int, p);
    let kd = seq![Token::Punct(')'), Token::Punct(';')];
    assert(ka + kb + kc + kd =~= ka + (kb + kc + kd));
    lemma_split(s, ka, kb + kc + kd);
    lemma_next(s, ka, 0);
    lemma_next(s, ka, 1);
    lemma_read_bracketed_vectors(s.to(s.pos + 2), v, p);
    lemma_nonuniform_vectors(s, "List<vector>"@, v, s.pos + 5 + kc.len());
}

/// A list is read as it is kept.
pub(crate) proof fn lemma_read_vectors(s: Stream, v: Seq<Vec3>, p: nat, collapse: Collapse)
    requires
        stands(s, vector_value_toks(v, p, collapse)),
        vectors_kept(v, p),
        v.len() <= i32::MAX,
    ensures
        read_vectors(s) == Ok::<_, Failure>(
            (kept_vectors(v, collapse), s.pos + vector_value_toks(v, p, collapse).len()),
        ),
{
    if v.len() == 0 {
        lemma_read_no_vectors(s, v, p, collapse);
    } else if v.len() == 1 || shrinks_vectors(collapse, v) {
        assert(vector_kept(v[0], p));
        lemma_read_one_vector(s, v[0], p);
        assert(seq![v[0]] =~= kept_vectors(v, collapse));
    } else {
        lemma_read_listed_vectors(s, v, p);
    }
}

} // verus!
