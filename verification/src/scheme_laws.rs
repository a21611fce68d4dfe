//! What the schemes of a case say: every scheme has a name and is read by it, with the
//! coefficient that is written and with the word `bounded` in front of it or without.

use vstd::prelude::*;

use crate::contract::{strict, Policy};
use crate::error::Failure;
use crate::numeral::parsed;
use crate::scalar::{Scalar, ONE, TWO};
use crate::schemes::{
    coefficient_of, div_entry, div_of, first_div_failure, grad_base, grad_entry, grad_of,
    interpolation_of, laplacian_of, limiter_kind, one_to_two, plain_div, scheme_text,
    sn_grad_entry, sn_grad_of, split_angle, validated, with_coefficient, DivEntry,
    DivScheme, GradBase, GradLimit, GradLimiterKind, GradScheme, Limiter, SnGradScheme,
};
use crate::table::{lookup, Pair};
use crate::text::{lemma_run, lemma_words_from, lemma_words_skip_space, words};

verus! {

// --------------------------------------------------------------------------
//  Convection
// --------------------------------------------------------------------------
proof fn lemma_bounded_words(x: Seq<char>)
    ensures
        words("bounded "@ + x, 0) == seq!["bounded"@] + words(x, 0),
{
    reveal_strlit("bounded ");
    reveal_strlit("bounded");
    let s = "bounded "@ + x;
    assert(s.skip(8) =~= x);
    lemma_words_from(s, 8, 0);
    lemma_run(s, 0, 0, true);
    lemma_run(s, 0, 7, false);
    assert(s.subrange(0, 7) =~= "bounded"@);
    lemma_words_skip_space(s, 7);
    assert(words(s, 0) =~= seq!["bounded"@] + words(x, 0));
}

/// A value that reads is bounded exactly where its first word is `bounded`.
pub proof fn bounded_is_the_first_word(setting: Seq<char>, raw: Seq<char>)
    requires
        div_entry(strict(), setting, raw) is Ok,
    ensures
        div_entry(strict(), setting, raw)->Ok_0.bounded <==> words(raw, 0)[0] == "bounded"@,
        words(raw, 0).len() > 0,
{
}

/// The word `bounded` in front of a value makes the entry bounded, and changes nothing of
/// the scheme: one value reads exactly where the other does, and to the same scheme.
pub proof fn bounded_schemes_are_the_same_schemes(setting: Seq<char>, x: Seq<char>)
    requires
        words(x, 0).len() > 0,
        words(x, 0)[0] != "bounded"@,
    ensures
        match (div_entry(strict(), setting, "bounded "@ + x), div_entry(strict(), setting, x)) {
            (Ok(a), Ok(b)) => a.bounded && !b.bounded && a.scheme == b.scheme,
            (Err(_), Err(_)) => true,
            _ => false,
        },
{
    lemma_bounded_words(x);
    let all = words("bounded "@ + x, 0);
    assert(all[0] == "bounded"@);
    assert(all.skip(1) =~= words(x, 0));
}

/// The name of a scheme.
pub open spec fn div_name(s: DivScheme) -> Seq<char> {
    match s {
        DivScheme::Central => "linear"@,
        DivScheme::Upwind => "upwind"@,
        DivScheme::LinearUpwind => "linearUpwind"@,
        DivScheme::Cubic => "cubic"@,
        DivScheme::Quick => "QUICK"@,
        DivScheme::QuickUnlimited => "QUICKUnlimited"@,
        DivScheme::Gamma(_) => "Gamma"@,
        DivScheme::Blended(_) => "blended"@,
        DivScheme::LinearUpwindBlended(_) => "linearUpwindBlended"@,
        DivScheme::Limited(Limiter::VanLeer) => "vanLeer"@,
        DivScheme::Limited(Limiter::VanAlbada) => "vanAlbada"@,
        DivScheme::Limited(Limiter::MinMod) => "Minmod"@,
        DivScheme::Limited(Limiter::Superbee) => "SuperBee"@,
        DivScheme::Limited(Limiter::Muscl) => "MUSCL"@,
        DivScheme::Limited(Limiter::Sweby(_)) => "Sweby"@,
    }
}

/// The coefficient of a scheme that has one.
pub open spec fn div_number(s: DivScheme) -> Option<Scalar> {
    match s {
        DivScheme::Gamma(c) => Some(c),
        DivScheme::Blended(c) => Some(c),
        DivScheme::LinearUpwindBlended(c) => Some(c),
        DivScheme::Limited(Limiter::Sweby(c)) => Some(c),
        _ => None,
    }
}

/// The names of the convection schemes differ in their lengths or in these letters.
proof fn lemma_div_letters()
    ensures
        "linear"@.len() == 6 && "linear"@[0] == 'l',
        "upwind"@.len() == 6 && "upwind"@[0] == 'u',
        "linearUpwind"@.len() == 12,
        "cubic"@.len() == 5 && "cubic"@[0] == 'c',
        "QUICK"@.len() == 5 && "QUICK"@[0] == 'Q',
        "quick"@.len() == 5 && "quick"@[0] == 'q',
        "QUICKUnlimited"@.len() == 14 && "QUICKUnlimited"@[0] == 'Q',
        "quickUnlimited"@.len() == 14 && "quickUnlimited"@[0] == 'q',
        "Gamma"@.len() == 5 && "Gamma"@[0] == 'G',
        "gamma"@.len() == 5 && "gamma"@[0] == 'g',
        "blended"@.len() == 7 && "blended"@[0] == 'b',
        "linearUpwindBlended"@.len() == 19,
        "vanLeer"@.len() == 7 && "vanLeer"@[0] == 'v' && "vanLeer"@[3] == 'L',
        "vanleer"@.len() == 7 && "vanleer"@[0] == 'v' && "vanleer"@[3] == 'l',
        "vanAlbada"@.len() == 9 && "vanAlbada"@[3] == 'A',
        "vanalbada"@.len() == 9 && "vanalbada"@[3] == 'a',
        "Minmod"@.len() == 6 && "Minmod"@[0] == 'M' && "Minmod"@[3] == 'm',
        "minmod"@.len() == 6 && "minmod"@[0] == 'm',
        "MinMod"@.len() == 6 && "MinMod"@[0] == 'M' && "MinMod"@[3] == 'M',
        "SuperBee"@.len() == 8 && "SuperBee"@[0] == 'S' && "SuperBee"@[5] == 'B',
        "superBee"@.len() == 8 && "superBee"@[0] == 's' && "superBee"@[5] == 'B',
        "superbee"@.len() == 8 && "superbee"@[0] == 's' && "superbee"@[5] == 'b',
        "Superbee"@.len() == 8 && "Superbee"@[0] == 'S' && "Superbee"@[5] == 'b',
        "MUSCL"@.len() == 5 && "MUSCL"@[0] == 'M' && "MUSCL"@[1] == 'U',
        "Muscl"@.len() == 5 && "Muscl"@[0] == 'M' && "Muscl"@[1] == 'u',
        "muscl"@.len() == 5 && "muscl"@[0] == 'm',
        "Sweby"@.len() == 5 && "Sweby"@[0] == 'S',
        "sweby"@.len() == 5 && "sweby"@[0] == 's',
        "limitedLinear"@.len() == 13,
{
    reveal_strlit("linear");
    reveal_strlit("upwind");
    reveal_strlit("linearUpwind");
    reveal_strlit("cubic");
    reveal_strlit("QUICK");
    reveal_strlit("quick");
    reveal_strlit("QUICKUnlimited");
    reveal_strlit("quickUnlimited");
    reveal_strlit("Gamma");
    reveal_strlit("gamma");
    reveal_strlit("blended");
    reveal_strlit("linearUpwindBlended");
    reveal_strlit("vanLeer");
    reveal_strlit("vanleer");
    reveal_strlit("vanAlbada");
    reveal_strlit("vanalbada");
    reveal_strlit("Minmod");
    reveal_strlit("minmod");
    reveal_strlit("MinMod");
    reveal_strlit("SuperBee");
    reveal_strlit("superBee");
    reveal_strlit("superbee");
    reveal_strlit("Superbee");
    reveal_strlit("MUSCL");
    reveal_strlit("Muscl");
    reveal_strlit("muscl");
    reveal_strlit("Sweby");
    reveal_strlit("sweby");
    reveal_strlit("limitedLinear");
}

#[verifier::rlimit(60)]
#[verifier::spinoff_prover]
proof fn lemma_div_names(s: DivScheme)
    ensures
        match div_number(s) {
            None => plain_div(div_name(s)) == Some(s),
            Some(c) => {
                &&& plain_div(div_name(s)) is None
                &&& s is LinearUpwindBlended || div_name(s) != "linearUpwindBlended"@
                &&& coefficient_of(div_name(s)) is None == s is LinearUpwindBlended
                &&& s is LinearUpwindBlended || with_coefficient(div_name(s), c) == s
            },
        },
        div_name(s) != "linearUpwindBlended"@ || s is LinearUpwindBlended,
{
    lemma_div_letters();
}

/// Every scheme is read by its name: `Gauss`, the name, and the coefficient where the scheme
/// has one, which is kept as it is written.
pub proof fn div_schemes_are_read_by_name(
    p: Policy,
    setting: Seq<char>,
    raw: Seq<char>,
    s: DivScheme,
    w: Seq<char>,
)
    requires
        words(raw, 0) == seq!["Gauss"@, div_name(s)] + (if div_number(s) is Some {
            seq![w]
        } else {
            Seq::empty()
        }),
        div_number(s) is Some ==> parsed(w) == div_number(s),
    ensures
        div_entry(p, setting, raw) == Ok::<DivEntry, Failure>(DivEntry { scheme: s, bounded: false }),
{
    reveal_strlit("Gauss");
    reveal_strlit("bounded");
    assert("Gauss"@.len() == 5 && "bounded"@.len() == 7);
    let ws = words(raw, 0);
    lemma_div_names(s);
    assert(ws[0] == "Gauss"@ && ws[1] == div_name(s));
    if div_number(s) is Some {
        assert(ws.skip(1).last() == w);
    }
}

/// `limitedLinear` is the limiter with its coefficient in `[1, 2]`: the coefficient that is
/// written where it is there, and the nearer end where it is not.
pub proof fn limited_linear_stays_in_range(
    p: Policy,
    setting: Seq<char>,
    raw: Seq<char>,
    w: Seq<char>,
)
    requires
        words(raw, 0) == seq!["Gauss"@, "limitedLinear"@, w],
        parsed(w) is Some,
    ensures
        ({
            let c = parsed(w)->Some_0;
            let one = Scalar { bits: ONE };
            let two = Scalar { bits: TWO };
            match div_entry(p, setting, raw) {
                Ok(DivEntry { scheme: DivScheme::Limited(Limiter::Sweby(b)), bounded }) => {
                    &&& !bounded
                    &&& c.less(one) ==> b == one
                    &&& !c.less(one) && two.less(c) ==> b == two
                    &&& !c.less(one) && !two.less(c) ==> b == c
                },
                _ => false,
            }
        }),
{
    reveal_strlit("Gauss");
    reveal_strlit("bounded");
    assert("Gauss"@.len() == 5 && "bounded"@.len() == 7);
    lemma_limited_linear();
    let ws = words(raw, 0);
    assert(ws.skip(1).last() == w);
}

#[verifier::rlimit(40)]
#[verifier::spinoff_prover]
proof fn lemma_limited_linear()
    ensures
        plain_div("limitedLinear"@) is None,
        "limitedLinear"@ != "linearUpwindBlended"@,
        coefficient_of("limitedLinear"@) is Some,
        forall|c: Scalar| #[trigger]
            with_coefficient("limitedLinear"@, c) == DivScheme::Limited(Limiter::Sweby(one_to_two(c))),
{
    lemma_div_letters();
}

// --------------------------------------------------------------------------
//  Gradients
// --------------------------------------------------------------------------
/// The words of a gradient without a limiter.
pub open spec fn base_words(b: GradBase) -> Seq<Seq<char>> {
    match b {
        GradBase::Gauss => seq!["Gauss"@, "linear"@],
        GradBase::LeastSquares => seq!["leastSquares"@],
    }
}

/// The name of a limiter.
pub open spec fn kind_name(k: GradLimiterKind) -> Seq<char> {
    match k {
        GradLimiterKind::BarthJespersen => "BarthJespersen"@,
        GradLimiterKind::Venkatakrishnan => "Venkatakrishnan"@,
    }
}

/// The words of a gradient; `w` is its coefficient.
pub open spec fn grad_words(g: GradScheme, w: Seq<char>) -> Seq<Seq<char>> {
    match g.limit {
        GradLimit::Unlimited => base_words(g.base),
        GradLimit::Cell(k, _) => seq!["cellLimited<"@ + kind_name(k) + ">"@] + base_words(g.base)
            + seq![w],
        GradLimit::Face(k, _) => seq!["faceLimited<"@ + kind_name(k) + ">"@] + base_words(g.base)
            + seq![w],
    }
}

proof fn lemma_angle(a: Seq<char>, b: Seq<char>, i: int)
    requires
        forall|k: int| 0 <= k < a.len() ==> #[trigger] a[k] != '<',
        0 <= i <= a.len(),
    ensures
        crate::schemes::angle_at(a + seq!['<'] + b + seq!['>'], i) == a.len(),
    decreases a.len() - i,
{
    let s = a + seq!['<'] + b + seq!['>'];
    if i < a.len() {
        assert(s[i] == a[i]);
        lemma_angle(a, b, i + 1);
    } else {
        assert(s[i] == '<');
    }
}

proof fn lemma_split_angle(a: Seq<char>, b: Seq<char>)
    requires
        forall|k: int| 0 <= k < a.len() ==> #[trigger] a[k] != '<',
    ensures
        split_angle(a + seq!['<'] + b + seq!['>']) == (a, Some(b)),
{
    let s = a + seq!['<'] + b + seq!['>'];
    lemma_angle(a, b, 0);
    assert(s.last() == '>');
    assert(s.take(a.len() as int) =~= a);
    assert(s.subrange(a.len() as int + 1, s.len() - 1) =~= b);
}

proof fn lemma_limited(k: GradLimiterKind, cell: bool)
    ensures
        ({
            let head = if cell { "cellLimited<"@ } else { "faceLimited<"@ };
            split_angle(head + kind_name(k) + ">"@) == (
                if cell { "cellLimited"@ } else { "faceLimited"@ },
                Some(kind_name(k)),
            )
        }),
        limiter_kind(Some(kind_name(k))) == Ok::<GradLimiterKind, Seq<char>>(k),
        "cellLimited"@ != "faceLimited"@,
{
    reveal_strlit("cellLimited<");
    reveal_strlit("faceLimited<");
    reveal_strlit("cellLimited");
    reveal_strlit("faceLimited");
    reveal_strlit(">");
    reveal_strlit("BarthJespersen");
    reveal_strlit("barthJespersen");
    reveal_strlit("Venkatakrishnan");
    let a = if cell { "cellLimited"@ } else { "faceLimited"@ };
    let head = if cell { "cellLimited<"@ } else { "faceLimited<"@ };
    assert(head =~= a + seq!['<']);
    assert(">"@ =~= seq!['>']);
    lemma_split_angle(a, kind_name(k));
}

/// Every gradient is read by its words: the limiter with its name in brackets, the gradient
/// that is limited, and the coefficient, which is kept as it is written.
#[verifier::rlimit(40)]
pub proof fn gradients_are_read_by_name(
    p: Policy,
    setting: Seq<char>,
    raw: Seq<char>,
    g: GradScheme,
    w: Seq<char>,
)
    requires
        words(raw, 0) == grad_words(g, w),
        g.limit matches GradLimit::Cell(_, c) ==> parsed(w) == Some(c),
        g.limit matches GradLimit::Face(_, c) ==> parsed(w) == Some(c),
    ensures
        grad_entry(p, setting, raw) == Ok::<GradScheme, Failure>(g),
{
    reveal_strlit("Gauss");
    reveal_strlit("linear");
    reveal_strlit("leastSquares");
    let ws = words(raw, 0);
    match g.limit {
        GradLimit::Unlimited => {
            reveal_strlit("cellLimited");
            reveal_strlit("faceLimited");
            lemma_no_angle(ws[0], 0);
            assert(ws == base_words(g.base));
            assert(grad_base(ws, 0) == Ok::<GradBase, Seq<char>>(g.base));
        },
        GradLimit::Cell(k, _) => {
            lemma_limited(k, true);
            assert(ws[1] == base_words(g.base)[0]);
            if g.base == GradBase::Gauss {
                assert(ws[2] == base_words(g.base)[1]);
            }
            assert(grad_base(ws, 1) == Ok::<GradBase, Seq<char>>(g.base));
            assert(ws.last() == w);
        },
        GradLimit::Face(k, _) => {
            lemma_limited(k, false);
            assert(ws[1] == base_words(g.base)[0]);
            if g.base == GradBase::Gauss {
                assert(ws[2] == base_words(g.base)[1]);
            }
            assert(grad_base(ws, 1) == Ok::<GradBase, Seq<char>>(g.base));
            assert(ws.last() == w);
        },
    }
}

proof fn lemma_no_angle(w: Seq<char>, i: int)
    requires
        0 <= i <= w.len(),
        forall|k: int| 0 <= k < w.len() ==> #[trigger] w[k] != '<',
    ensures
        crate::schemes::angle_at(w, i) == w.len(),
    decreases w.len() - i,
{
    if i < w.len() {
        lemma_no_angle(w, i + 1);
    }
}

/// A limiter without a name in brackets is Barth-Jespersen's.
pub proof fn bare_limiters_are_barth_jespersens(
    setting: Seq<char>,
    raw: Seq<char>,
    named: Seq<char>,
    cell: bool,
)
    requires
        words(raw, 0).len() > 0,
        words(raw, 0)[0] == (if cell { "cellLimited"@ } else { "faceLimited"@ }),
        words(named, 0) == words(raw, 0).update(
            0,
            (if cell { "cellLimited<"@ } else { "faceLimited<"@ }) + "BarthJespersen"@ + ">"@,
        ),
    ensures
        match (grad_entry(strict(), setting, raw), grad_entry(strict(), setting, named)) {
            (Ok(a), Ok(b)) => a == b,
            (Err(_), Err(_)) => true,
            _ => false,
        },
{
    reveal_strlit("cellLimited");
    reveal_strlit("faceLimited");
    lemma_no_angle(words(raw, 0)[0], 0);
    lemma_limited(GradLimiterKind::BarthJespersen, cell);
    let a = words(raw, 0);
    let b = words(named, 0);
    if a.len() > 1 {
        assert(a.last() == b.last());
        assert(grad_base(a, 1) == grad_base(b, 1));
    }
}

/// Every surface-normal gradient is read by its name, and `limited` with its coefficient.
pub proof fn sn_gradients_are_read_by_name(
    p: Policy,
    setting: Seq<char>,
    raw: Seq<char>,
    s: SnGradScheme,
    w: Seq<char>,
)
    requires
        match s {
            SnGradScheme::Corrected => words(raw, 0) == seq!["corrected"@],
            SnGradScheme::Uncorrected => words(raw, 0) == seq!["uncorrected"@] || words(raw, 0)
                == seq!["orthogonal"@],
            SnGradScheme::Limited(c) => parsed(w) == Some(c) && (words(raw, 0) == seq![
                "limited"@,
                w,
            ] || words(raw, 0) == seq!["limited"@, "corrected"@, w]),
        },
    ensures
        sn_grad_entry(p, setting, raw) == Ok::<SnGradScheme, Failure>(s),
{
    reveal_strlit("corrected");
    reveal_strlit("uncorrected");
    reveal_strlit("orthogonal");
    reveal_strlit("limited");
    assert("corrected"@.len() == 9 && "uncorrected"@.len() == 11);
    assert("orthogonal"@.len() == 10 && "limited"@.len() == 7);
    let ws = words(raw, 0);
    if s is Limited {
        assert(ws.last() == w);
    }
}

// --------------------------------------------------------------------------
//  Lookups
// --------------------------------------------------------------------------
/// A key is read from its own entry; without one that says something, from the default.
pub proof fn own_entries_govern(
    p: Policy,
    t: Seq<Pair>,
    group: Seq<char>,
    key: Seq<char>,
    fallback: Seq<char>,
)
    ensures
        crate::schemes::usable(lookup(t, group + "/"@ + key)) is Some ==> scheme_text(
            p,
            t,
            group,
            key,
            fallback,
        ) == Ok::<Option<Seq<char>>, Failure>(crate::schemes::usable(lookup(t, group + "/"@ + key))),
        crate::schemes::usable(lookup(t, group + "/"@ + key)) is None ==> scheme_text(
            p,
            t,
            group,
            key,
            fallback,
        ) is Ok == (scheme_text(p, t, group, "default"@, fallback) is Ok),
        crate::schemes::usable(lookup(t, group + "/"@ + key)) is None && crate::schemes::usable(
            lookup(t, group + "/default"@),
        ) is Some ==> scheme_text(p, t, group, key, fallback) == Ok::<Option<Seq<char>>, Failure>(
            crate::schemes::usable(lookup(t, group + "/default"@)),
        ),
{
    reveal_strlit("/");
    reveal_strlit("default");
    reveal_strlit("/default");
    assert(group + "/"@ + "default"@ =~= group + "/default"@);
}

/// A case is accepted exactly where every lookup that a solver makes succeeds.
pub proof fn validation_makes_every_lookup(p: Policy, t: Seq<Pair>, keys: Seq<Seq<char>>)
    ensures
        validated(p, t, keys) is Ok <==> {
            &&& forall|i: int| 0 <= i < keys.len() ==> div_of(p, t, #[trigger] keys[i]) is Ok
            &&& grad_of(p, t, "default"@) is Ok
            &&& sn_grad_of(p, t, "default"@) is Ok
            &&& laplacian_of(p, t, "default"@) is Ok
            &&& interpolation_of(p, t, "default"@) is Ok
        },
{
    lemma_div_failures(p, t, keys, 0);
}

proof fn lemma_div_failures(p: Policy, t: Seq<Pair>, keys: Seq<Seq<char>>, i: int)
    requires
        0 <= i <= keys.len(),
    ensures
        first_div_failure(p, t, keys, i) is None <==> forall|k: int|
            i <= k < keys.len() ==> div_of(p, t, #[trigger] keys[k]) is Ok,
    decreases keys.len() - i,
{
    if i < keys.len() {
        lemma_div_failures(p, t, keys, i + 1);
    }
}

} // verus!
