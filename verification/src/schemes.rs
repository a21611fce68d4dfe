//! The discretisation schemes of a case, one equation at a time.
//!
//! Every lookup is by the equation's own key, with `default` as the only
//! fallback, and a scheme that is not implemented is an error rather than a
//! quiet demotion. An entry has one of these shapes:
//!
//! ```text
//! divSchemes          [bounded] Gauss <scheme> [coeff]
//! gradSchemes         [cellLimited|faceLimited[<limiter>]] <base> [coeff]
//! laplacianSchemes    Gauss <interpolation> <snGradScheme>
//! snGradSchemes       uncorrected | corrected | limited <alpha> | orthogonal
//! interpolationSchemes <scheme>
//! ```

use vstd::prelude::*;

use crate::contract::{
    agrees, decided, passed_over, refusal, strict, unread, unreadable, unsupported, Policy,
};
use crate::dict::{has_dict, Entries, FoamDict};
use crate::error::{Error, Failure};
use crate::numeral::{parse_chars, parsed};
use crate::scalar::{Scalar, ONE, TWO};
use crate::table::{lookup, Pair};
use crate::text::{
    chars_of, copy, join, join_from, lemma_run, lemma_words_from, lemma_words_skip_space, push_text,
    same, split_words, string_between, texts, trim, trimmed, words,
};

verus! {

/// A limiter of the second-order upwind family.
#[derive(Clone, Copy, Debug, PartialEq, Eq, Structural)]
pub enum Limiter {
    VanLeer,
    VanAlbada,
    MinMod,
    Superbee,
    Muscl,
    /// With its parameter.
    Sweby(Scalar),
}

/// How a convected value reaches a face.
#[derive(Clone, Copy, Debug, PartialEq, Eq, Structural)]
pub enum DivScheme {
    Central,
    Upwind,
    LinearUpwind,
    Cubic,
    Quick,
    QuickUnlimited,
    Gamma(Scalar),
    Blended(Scalar),
    LinearUpwindBlended(Scalar),
    Limited(Limiter),
}

/// A `divSchemes` entry: the scheme, and whether it was wrapped in `bounded`.
#[derive(Clone, Copy, Debug, PartialEq, Eq, Structural)]
pub struct DivEntry {
    pub scheme: DivScheme,
    pub bounded: bool,
}

#[derive(Clone, Copy, Debug, PartialEq, Eq, Structural)]
pub enum GradBase {
    Gauss,
    LeastSquares,
}

#[derive(Clone, Copy, Debug, PartialEq, Eq, Structural)]
pub enum GradLimiterKind {
    BarthJespersen,
    Venkatakrishnan,
}

#[derive(Clone, Copy, Debug, PartialEq, Eq, Structural)]
pub enum GradLimit {
    Unlimited,
    Cell(GradLimiterKind, Scalar),
    Face(GradLimiterKind, Scalar),
}

/// A `gradSchemes` entry.
#[derive(Clone, Copy, Debug, PartialEq, Eq, Structural)]
pub struct GradScheme {
    pub base: GradBase,
    pub limit: GradLimit,
}

/// A `snGradSchemes` entry.
#[derive(Clone, Copy, Debug, PartialEq, Eq, Structural)]
pub enum SnGradScheme {
    Corrected,
    Uncorrected,
    Limited(Scalar),
}

impl SnGradScheme {
    /// The share of the non-orthogonal correction that is applied.
    pub fn alpha(self) -> (r: Scalar)
        ensures
            r == (match self {
                SnGradScheme::Corrected => Scalar { bits: ONE },
                SnGradScheme::Uncorrected => Scalar { bits: 0 },
                SnGradScheme::Limited(a) => a,
            }),
    {
        match self {
            SnGradScheme::Corrected => Scalar { bits: ONE },
            SnGradScheme::Uncorrected => Scalar { bits: 0 },
            SnGradScheme::Limited(a) => a,
        }
    }
}

/// First-order upwind, bounded: what a case without schemes runs with.
pub open spec fn upwind() -> DivEntry {
    DivEntry { scheme: DivScheme::Upwind, bounded: true }
}

impl DivEntry {
    /// First-order upwind, bounded: what a case without schemes runs with.
    pub fn upwind() -> (r: DivEntry)
        ensures
            r == upwind(),
    {
        DivEntry { scheme: DivScheme::Upwind, bounded: true }
    }
}

impl Default for DivEntry {
    fn default() -> (r: DivEntry)
        ensures
            r == upwind(),
    {
        DivEntry::upwind()
    }
}

pub open spec fn gauss() -> GradScheme {
    GradScheme { base: GradBase::Gauss, limit: GradLimit::Unlimited }
}

impl GradScheme {
    /// The plain Gauss gradient.
    pub fn gauss() -> (r: GradScheme)
        ensures
            r == gauss(),
    {
        GradScheme { base: GradBase::Gauss, limit: GradLimit::Unlimited }
    }
}

/// The `divSchemes` names there are, as an error prints them.
pub const DIV_AVAILABLE: &'static str =
    "Gauss linear, Gauss upwind, Gauss linearUpwind [grad], Gauss cubic, Gauss QUICK, Gauss QUICKUnlimited, Gauss Gamma <0.1..0.5>, Gauss blended <0..1>, Gauss linearUpwindBlended <0..1>, Gauss limitedLinear <1..2>, Gauss vanLeer, Gauss vanAlbada, Gauss Minmod, Gauss SuperBee, Gauss MUSCL";

pub const GRAD_AVAILABLE: &'static str =
    "Gauss linear, leastSquares, cellLimited[<BarthJespersen|Venkatakrishnan>] <base> <coeff>, faceLimited[<BarthJespersen|Venkatakrishnan>] <base> <coeff>";

pub const SNGRAD_AVAILABLE: &'static str = "corrected, uncorrected, orthogonal, limited <alpha>";

pub const INTERP_AVAILABLE: &'static str = "linear";

// --------------------------------------------------------------------------
//  Names that are known but not implemented
// --------------------------------------------------------------------------
/// Convection schemes that are known, and not implemented.
pub open spec fn is_known_div(name: Seq<char>) -> bool {
    name == "SFCD"@
        || name == "filteredLinear"@
        || name == "filteredLinear2"@
        || name == "filteredLinear3"@
        || name == "localBlended"@
        || name == "midPoint"@
        || name == "linearFit"@
        || name == "quadraticFit"@
        || name == "limitWith"@
        || name == "limitedCubic"@
        || name == "SuperBeeV"@
        || name == "vanLeerV"@
        || name == "limitedLinearV"@
        || name == "GammaV"@
        || name == "linearUpwindV"@
        || name == "interfaceCompression"@
        || name == "downwind"@
        || name == "skewCorrected"@
        || name == "clippedLinear"@
}

fn known_div(name: &str) -> (r: bool)
    ensures
        r == is_known_div(name@),
{
    same(name, "SFCD")
        || same(name, "filteredLinear")
        || same(name, "filteredLinear2")
        || same(name, "filteredLinear3")
        || same(name, "localBlended")
        || same(name, "midPoint")
        || same(name, "linearFit")
        || same(name, "quadraticFit")
        || same(name, "limitWith")
        || same(name, "limitedCubic")
        || same(name, "SuperBeeV")
        || same(name, "vanLeerV")
        || same(name, "limitedLinearV")
        || same(name, "GammaV")
        || same(name, "linearUpwindV")
        || same(name, "interfaceCompression")
        || same(name, "downwind")
        || same(name, "skewCorrected")
        || same(name, "clippedLinear")
}

/// Gradient schemes that are known, and not implemented.
pub open spec fn is_known_grad(name: Seq<char>) -> bool {
    name == "pointCellsLeastSquares"@
        || name == "edgeCellsLeastSquares"@
        || name == "fourth"@
        || name == "iterativeGauss"@
        || name == "extendedLeastSquares"@
}

fn known_grad(name: &str) -> (r: bool)
    ensures
        r == is_known_grad(name@),
{
    same(name, "pointCellsLeastSquares")
        || same(name, "edgeCellsLeastSquares")
        || same(name, "fourth")
        || same(name, "iterativeGauss")
        || same(name, "extendedLeastSquares")
}

/// Surface-normal gradients that are known, and not implemented.
pub open spec fn is_known_sn_grad(name: Seq<char>) -> bool {
    name == "faceCorrected"@
        || name == "quadraticFit"@
        || name == "linearFit"@
        || name == "skewCorrected"@
}

fn known_sn_grad(name: &str) -> (r: bool)
    ensures
        r == is_known_sn_grad(name@),
{
    same(name, "faceCorrected")
        || same(name, "quadraticFit")
        || same(name, "linearFit")
        || same(name, "skewCorrected")
}

// --------------------------------------------------------------------------
//  Convection
// --------------------------------------------------------------------------
/// The schemes without a coefficient.
pub open spec fn plain_div(name: Seq<char>) -> Option<DivScheme> {
    if name == "linear"@ {
        Some(DivScheme::Central)
    } else if name == "upwind"@ {
        Some(DivScheme::Upwind)
    } else if name == "linearUpwind"@ {
        Some(DivScheme::LinearUpwind)
    } else if name == "cubic"@ {
        Some(DivScheme::Cubic)
    } else if name == "QUICK"@ || name == "quick"@ {
        Some(DivScheme::Quick)
    } else if name == "QUICKUnlimited"@ || name == "quickUnlimited"@ {
        Some(DivScheme::QuickUnlimited)
    } else if name == "vanLeer"@ || name == "vanleer"@ {
        Some(DivScheme::Limited(Limiter::VanLeer))
    } else if name == "vanAlbada"@ || name == "vanalbada"@ {
        Some(DivScheme::Limited(Limiter::VanAlbada))
    } else if name == "Minmod"@ || name == "minmod"@ || name == "MinMod"@ {
        Some(DivScheme::Limited(Limiter::MinMod))
    } else if name == "SuperBee"@ || name == "superBee"@ || name == "superbee"@ || name == "Superbee"@ {
        Some(DivScheme::Limited(Limiter::Superbee))
    } else if name == "MUSCL"@ || name == "Muscl"@ || name == "muscl"@ {
        Some(DivScheme::Limited(Limiter::Muscl))
    } else {
        None
    }
}

fn read_plain_div(name: &str) -> (r: Option<DivScheme>)
    ensures
        r == plain_div(name@),
{
    if same(name, "linear") {
        Some(DivScheme::Central)
    } else if same(name, "upwind") {
        Some(DivScheme::Upwind)
    } else if same(name, "linearUpwind") {
        Some(DivScheme::LinearUpwind)
    } else if same(name, "cubic") {
        Some(DivScheme::Cubic)
    } else if same(name, "QUICK") || same(name, "quick") {
        Some(DivScheme::Quick)
    } else if same(name, "QUICKUnlimited") || same(name, "quickUnlimited") {
        Some(DivScheme::QuickUnlimited)
    } else if same(name, "vanLeer") || same(name, "vanleer") {
        Some(DivScheme::Limited(Limiter::VanLeer))
    } else if same(name, "vanAlbada") || same(name, "vanalbada") {
        Some(DivScheme::Limited(Limiter::VanAlbada))
    } else if same(name, "Minmod") || same(name, "minmod") || same(name, "MinMod") {
        Some(DivScheme::Limited(Limiter::MinMod))
    } else if same(name, "SuperBee") || same(name, "superBee") || same(name, "superbee") || same(name, "Superbee") {
        Some(DivScheme::Limited(Limiter::Superbee))
    } else if same(name, "MUSCL") || same(name, "Muscl") || same(name, "muscl") {
        Some(DivScheme::Limited(Limiter::Muscl))
    } else {
        None
    }
}

/// The range that a scheme's coefficient comes from, where it needs one.
pub open spec fn coefficient_of(name: Seq<char>) -> Option<Seq<char>> {
    if name == "Gamma"@ || name == "gamma"@ {
        Some("beta_m 0.1..0.5"@)
    } else if name == "blended"@ {
        Some("gamma 0..1"@)
    } else if name == "limitedLinear"@ || name == "Sweby"@ || name == "sweby"@ {
        Some("beta 1..2"@)
    } else {
        None
    }
}

/// A number moved into `[1, 2]`.
pub open spec fn one_to_two(c: Scalar) -> Scalar {
    if c.less(Scalar { bits: ONE }) {
        Scalar { bits: ONE }
    } else if (Scalar { bits: TWO }).less(c) {
        Scalar { bits: TWO }
    } else {
        c
    }
}

fn clamp_one_to_two(c: Scalar) -> (r: Scalar)
    ensures
        r == one_to_two(c),
{
    let one = Scalar { bits: ONE };
    let two = Scalar { bits: TWO };
    if c.below(one) {
        one
    } else if two.below(c) {
        two
    } else {
        c
    }
}

/// The scheme that needs a coefficient, with it.
pub open spec fn with_coefficient(name: Seq<char>, c: Scalar) -> DivScheme {
    if name == "Gamma"@ || name == "gamma"@ {
        DivScheme::Gamma(c)
    } else if name == "blended"@ {
        DivScheme::Blended(c)
    } else if name == "limitedLinear"@ {
        DivScheme::Limited(Limiter::Sweby(one_to_two(c)))
    } else {
        DivScheme::Limited(Limiter::Sweby(c))
    }
}

/// The coefficient at the end of an entry.
pub open spec fn trailing(ws: Seq<Seq<char>>) -> Option<Scalar> {
    if ws.len() == 0 {
        None
    } else {
        parsed(ws.last())
    }
}

/// `linearUpwindBlended` without a coefficient uses this one: three quarters.
pub const THREE_QUARTERS: u64 = 0x3fe8_0000_0000_0000;

pub open spec fn div_rejected(
    p: Policy,
    setting: Seq<char>,
    raw: Seq<char>,
    name: Seq<char>,
) -> Result<DivEntry, Failure> {
    let value = raw + (if is_known_div(name) {
        " (recognised, not implemented)"@
    } else {
        " (not a recognised scheme name)"@
    });
    decided(
        p,
        refusal(setting, value, DIV_AVAILABLE@, Seq::empty(), "Gauss upwind"@),
        upwind(),
    )
}

/// A convection scheme by its name and its coefficient.
pub open spec fn named_div(
    p: Policy,
    setting: Seq<char>,
    raw: Seq<char>,
    bounded: bool,
    name: Seq<char>,
    c: Option<Scalar>,
) -> Result<DivEntry, Failure> {
    match plain_div(name) {
        Some(scheme) => Ok(DivEntry { scheme, bounded }),
        None => if name == "linearUpwindBlended"@ {
            Ok(
                DivEntry {
                    scheme: DivScheme::LinearUpwindBlended(
                        match c {
                            Some(x) => x,
                            None => Scalar { bits: THREE_QUARTERS },
                        },
                    ),
                    bounded,
                },
            )
        } else {
            match coefficient_of(name) {
                None => div_rejected(p, setting, raw, name),
                Some(what) => match c {
                    Some(x) => Ok(DivEntry { scheme: with_coefficient(name, x), bounded }),
                    None => decided(
                        p,
                        unread(
                            setting,
                            raw,
                            name + " <"@ + what + ">: the coefficient is missing"@,
                        ),
                        DivEntry { scheme: with_coefficient(name, Scalar { bits: 0 }), bounded },
                    ),
                },
            }
        },
    }
}

/// What a `divSchemes` value says, e.g. `bounded Gauss limitedLinear 1`.
pub open spec fn div_entry(p: Policy, setting: Seq<char>, raw: Seq<char>) -> Result<
    DivEntry,
    Failure,
> {
    let all = words(raw, 0);
    let bounded = all.len() > 0 && all[0] == "bounded"@;
    let ws = if bounded { all.skip(1) } else { all };
    let bare = decided(
        p,
        refusal(setting, raw, DIV_AVAILABLE@, Seq::empty(), "Gauss upwind"@),
        upwind(),
    );
    if ws.len() == 0 {
        bare
    } else if ws[0] != "Gauss"@ {
        div_rejected(p, setting, raw, ws[0])
    } else if ws.len() == 1 {
        bare
    } else {
        named_div(p, setting, raw, bounded, ws[1], trailing(ws.skip(1)))
    }
}

fn reject_div(
    p: Policy,
    setting: &str,
    raw: &str,
    name: &str,
    notes: &mut Vec<String>,
) -> (r: Result<DivEntry, Error>)
    ensures
        texts(final(notes)@) == texts(old(notes)@) + passed_over(
            div_rejected(strict(), setting@, raw@, name@),
            div_rejected(p, setting@, raw@, name@),
        ),
        agrees(r, div_rejected(p, setting@, raw@, name@)),
{
    let mut value = copy(raw);
    if known_div(name) {
        push_text(&mut value, " (recognised, not implemented)");
    } else {
        push_text(&mut value, " (not a recognised scheme name)");
    }
    unsupported(p, setting, &value, DIV_AVAILABLE, "Gauss upwind", DivEntry::upwind(), notes)
}

fn needed_coefficient(name: &str) -> (r: Option<&'static str>)
    ensures
        match (r, coefficient_of(name@)) {
            (Some(a), Some(b)) => a@ == b,
            (None, None) => true,
            _ => false,
        },
{
    if same(name, "Gamma") || same(name, "gamma") {
        Some("beta_m 0.1..0.5")
    } else if same(name, "blended") {
        Some("gamma 0..1")
    } else if same(name, "limitedLinear") || same(name, "Sweby") || same(name, "sweby") {
        Some("beta 1..2")
    } else {
        None
    }
}

fn apply_coefficient(name: &str, c: Scalar) -> (r: DivScheme)
    ensures
        r == with_coefficient(name@, c),
{
    if same(name, "Gamma") || same(name, "gamma") {
        DivScheme::Gamma(c)
    } else if same(name, "blended") {
        DivScheme::Blended(c)
    } else if same(name, "limitedLinear") {
        DivScheme::Limited(Limiter::Sweby(clamp_one_to_two(c)))
    } else {
        DivScheme::Limited(Limiter::Sweby(c))
    }
}

/// The number that the last of some words is.
fn trailing_coeff(ws: &Vec<String>) -> (r: Option<Scalar>)
    ensures
        r == trailing(texts(ws@)),
{
    if ws.len() == 0 {
        return None;
    }
    assert(texts(ws@).last() == ws@.last()@);
    let parts = chars_of(&ws[ws.len() - 1]);
    parse_chars(&parts)
}

fn read_named_div(
    p: Policy,
    setting: &str,
    raw: &str,
    bounded: bool,
    name: &str,
    c: Option<Scalar>,
    notes: &mut Vec<String>,
) -> (r: Result<DivEntry, Error>)
    ensures
        texts(final(notes)@) == texts(old(notes)@) + passed_over(
            named_div(strict(), setting@, raw@, bounded, name@, c),
            named_div(p, setting@, raw@, bounded, name@, c),
        ),
        agrees(r, named_div(p, setting@, raw@, bounded, name@, c)),
{
    match read_plain_div(name) {
        Some(scheme) => {
            return Ok(DivEntry { scheme, bounded });
        },
        None => {},
    }
    if same(name, "linearUpwindBlended") {
        let x: Scalar = match c {
            Some(x) => x,
            None => Scalar { bits: THREE_QUARTERS },
        };
        return Ok(DivEntry { scheme: DivScheme::LinearUpwindBlended(x), bounded });
    }
    match needed_coefficient(name) {
        None => reject_div(p, setting, raw, name, notes),
        Some(what) => match c {
            Some(x) => Ok(DivEntry { scheme: apply_coefficient(name, x), bounded }),
            None => {
                let mut want = copy(name);
                push_text(&mut want, " <");
                push_text(&mut want, what);
                push_text(&mut want, ">: the coefficient is missing");
                let fallback = DivEntry {
                    scheme: apply_coefficient(name, Scalar { bits: 0 }),
                    bounded,
                };
                unreadable(p, setting, raw, &want, fallback, notes)
            },
        },
    }
}

/// Read one `divSchemes` value, e.g. `bounded Gauss limitedLinear 1`.
///
/// `limitedLinear <c>` is the parameterised limiter with `c` moved into `[1, 2]`,
/// so that `limitedLinear 1` is the most strongly bounded one. `Sweby <c>` is the same
/// limiter with `c` as it stands.
pub fn parse_div(
    p: Policy,
    setting: &str,
    raw: &str,
    notes: &mut Vec<String>,
) -> (r: Result<DivEntry, Error>)
    ensures
        texts(final(notes)@) == texts(old(notes)@) + passed_over(
            div_entry(strict(), setting@, raw@),
            div_entry(p, setting@, raw@),
        ),
        agrees(r, div_entry(p, setting@, raw@)),
{
    let all = split_words(raw);
    let ghost av = texts(all@);
    let mut at: usize = 0;
    let mut bounded: bool = false;
    if all.len() > 0 {
        assert(av[0] == all@[0]@);
        if same(&all[0], "bounded") {
            bounded = true;
            at = 1;
        }
    }
    let ghost ws = if bounded { av.skip(1) } else { av };
    if at >= all.len() {
        return unsupported(p, setting, raw, DIV_AVAILABLE, "Gauss upwind", DivEntry::upwind(), notes);
    }
    assert(ws[0] == all@[at as int]@);
    if !same(&all[at], "Gauss") {
        return reject_div(p, setting, raw, &all[at], notes);
    }
    if at + 1 >= all.len() {
        return unsupported(p, setting, raw, DIV_AVAILABLE, "Gauss upwind", DivEntry::upwind(), notes);
    }
    assert(ws[1] == all@[at + 1]@);
    let c = trailing_coeff(&all);
    assert(ws.skip(1).last() == av.last());
    read_named_div(p, setting, raw, bounded, &all[at + 1], c, notes)
}

// --------------------------------------------------------------------------
//  Gradients
// --------------------------------------------------------------------------
/// The first `<` in a word.
pub open spec fn angle_at(w: Seq<char>, i: int) -> int
    decreases w.len() - i,
{
    if i < 0 || i >= w.len() || w[i] == '<' {
        i
    } else {
        angle_at(w, i + 1)
    }
}

/// `cellLimited<Venkatakrishnan>` in two parts.
pub open spec fn split_angle(w: Seq<char>) -> (Seq<char>, Option<Seq<char>>) {
    let i = angle_at(w, 0);
    if i < w.len() && w.last() == '>' {
        (w.take(i), Some(w.subrange(i + 1, w.len() - 1)))
    } else {
        (w, None)
    }
}

fn read_angle(w: &str) -> (r: (String, Option<String>))
    ensures
        r.0@ == split_angle(w@).0,
        match (r.1, split_angle(w@).1) {
            (Some(a), Some(b)) => a@ == b,
            (None, None) => true,
            _ => false,
        },
{
    let s = chars_of(w);
    let mut i: usize = 0;
    while i < s.len() && s[i] != '<'
        invariant
            i <= s.len(),
            s@ == w@,
            angle_at(w@, 0) == angle_at(w@, i as int),
        decreases s.len() - i,
    {
        i = i + 1;
    }
    if i < s.len() && s[s.len() - 1] == '>' {
        assert(s@.subrange(0, i as int) =~= s@.take(i as int));
        (string_between(&s, 0, i), Some(string_between(&s, i + 1, s.len() - 1)))
    } else {
        (copy(w), None)
    }
}

pub open spec fn grad_rejected(
    p: Policy,
    setting: Seq<char>,
    raw: Seq<char>,
    name: Seq<char>,
) -> Result<GradScheme, Failure> {
    let value = raw + (if is_known_grad(name) {
        " (recognised, not implemented)"@
    } else {
        " (not a recognised gradient scheme)"@
    });
    decided(
        p,
        refusal(setting, value, GRAD_AVAILABLE@, Seq::empty(), "Gauss linear"@),
        gauss(),
    )
}

fn reject_grad(
    p: Policy,
    setting: &str,
    raw: &str,
    name: &str,
    notes: &mut Vec<String>,
) -> (r: Result<GradScheme, Error>)
    ensures
        texts(final(notes)@) == texts(old(notes)@) + passed_over(
            grad_rejected(strict(), setting@, raw@, name@),
            grad_rejected(p, setting@, raw@, name@),
        ),
        agrees(r, grad_rejected(p, setting@, raw@, name@)),
{
    let mut value = copy(raw);
    if known_grad(name) {
        push_text(&mut value, " (recognised, not implemented)");
    } else {
        push_text(&mut value, " (not a recognised gradient scheme)");
    }
    unsupported(p, setting, &value, GRAD_AVAILABLE, "Gauss linear", GradScheme::gauss(), notes)
}

/// The base gradient that the words from `k` on name, or the word that is none.
pub open spec fn grad_base(ws: Seq<Seq<char>>, k: int) -> Result<GradBase, Seq<char>> {
    if k >= ws.len() {
        Err(Seq::empty())
    } else if ws[k] == "Gauss"@ {
        if k + 1 >= ws.len() || ws[k + 1] == "linear"@ {
            Ok(GradBase::Gauss)
        } else {
            Err(ws[k + 1])
        }
    } else if ws[k] == "leastSquares"@ {
        Ok(GradBase::LeastSquares)
    } else {
        Err(ws[k])
    }
}

fn read_grad_base(ws: &Vec<String>, k: usize) -> (r: Result<GradBase, String>)
    requires
        k <= 1,
    ensures
        match (r, grad_base(texts(ws@), k as int)) {
            (Ok(a), Ok(b)) => a == b,
            (Err(e), Err(f)) => e@ == f,
            _ => false,
        },
{
    if k >= ws.len() {
        return Err(String::new());
    }
    assert(texts(ws@)[k as int] == ws@[k as int]@);
    if same(&ws[k], "Gauss") {
        if k + 1 >= ws.len() {
            return Ok(GradBase::Gauss);
        }
        assert(texts(ws@)[k + 1] == ws@[k + 1]@);
        if same(&ws[k + 1], "linear") {
            return Ok(GradBase::Gauss);
        }
        return Err(copy(&ws[k + 1]));
    }
    if same(&ws[k], "leastSquares") {
        return Ok(GradBase::LeastSquares);
    }
    Err(copy(&ws[k]))
}

/// The limiter that a bracketed name asks for; without one, Barth-Jespersen.
pub open spec fn limiter_kind(angle: Option<Seq<char>>) -> Result<GradLimiterKind, Seq<char>> {
    match angle {
        None => Ok(GradLimiterKind::BarthJespersen),
        Some(a) => if a == "BarthJespersen"@ || a == "barthJespersen"@ {
            Ok(GradLimiterKind::BarthJespersen)
        } else if a == "Venkatakrishnan"@ || a == "venkatakrishnan"@ {
            Ok(GradLimiterKind::Venkatakrishnan)
        } else {
            Err(a)
        },
    }
}

fn read_limiter_kind(angle: &Option<String>) -> (r: Result<GradLimiterKind, String>)
    ensures
        match (
            r,
            limiter_kind(
                match *angle {
                    Some(a) => Some(a@),
                    None => None,
                },
            ),
        ) {
            (Ok(a), Ok(b)) => a == b,
            (Err(e), Err(f)) => e@ == f,
            _ => false,
        },
{
    match angle {
        None => Ok(GradLimiterKind::BarthJespersen),
        Some(a) => {
            if same(a, "BarthJespersen") || same(a, "barthJespersen") {
                Ok(GradLimiterKind::BarthJespersen)
            } else if same(a, "Venkatakrishnan") || same(a, "venkatakrishnan") {
                Ok(GradLimiterKind::Venkatakrishnan)
            } else {
                Err(copy(a))
            }
        },
    }
}

/// What a `gradSchemes` value says.
pub open spec fn grad_entry(p: Policy, setting: Seq<char>, raw: Seq<char>) -> Result<
    GradScheme,
    Failure,
> {
    let ws = words(raw, 0);
    if ws.len() == 0 {
        decided(
            p,
            refusal(setting, raw, GRAD_AVAILABLE@, Seq::empty(), "Gauss linear"@),
            gauss(),
        )
    } else {
        let (wrapper, angle) = split_angle(ws[0]);
        let cell = wrapper == "cellLimited"@;
        let limited = cell || wrapper == "faceLimited"@;
        match grad_base(ws, if limited { 1 } else { 0 }) {
            Err(name) => grad_rejected(p, setting, raw, name),
            Ok(base) => if !limited {
                Ok(GradScheme { base, limit: GradLimit::Unlimited })
            } else {
                match limiter_kind(angle) {
                    Err(name) => grad_rejected(p, setting, raw, name),
                    Ok(kind) => match trailing(ws) {
                        None => decided(
                            p,
                            unread(
                                setting,
                                raw,
                                wrapper + " <base> <coeff>: the coefficient is missing"@,
                            ),
                            gauss(),
                        ),
                        Some(c) => Ok(
                            GradScheme {
                                base,
                                limit: if cell {
                                    GradLimit::Cell(kind, c)
                                } else {
                                    GradLimit::Face(kind, c)
                                },
                            },
                        ),
                    },
                }
            },
        }
    }
}

/// Read one `gradSchemes` value.
pub fn parse_grad(
    p: Policy,
    setting: &str,
    raw: &str,
    notes: &mut Vec<String>,
) -> (r: Result<GradScheme, Error>)
    ensures
        texts(final(notes)@) == texts(old(notes)@) + passed_over(
            grad_entry(strict(), setting@, raw@),
            grad_entry(p, setting@, raw@),
        ),
        agrees(r, grad_entry(p, setting@, raw@)),
{
    let ws = split_words(raw);
    if ws.len() == 0 {
        return unsupported(p, setting, raw, GRAD_AVAILABLE, "Gauss linear", GradScheme::gauss(), notes);
    }
    assert(texts(ws@)[0] == ws@[0]@);
    let (wrapper, angle) = read_angle(&ws[0]);
    let cell: bool = same(&wrapper, "cellLimited");
    let limited: bool = cell || same(&wrapper, "faceLimited");
    let k: usize = if limited { 1 } else { 0 };
    let base: GradBase = match read_grad_base(&ws, k) {
        Ok(b) => b,
        Err(name) => {
            return reject_grad(p, setting, raw, &name, notes);
        },
    };
    if !limited {
        return Ok(GradScheme { base, limit: GradLimit::Unlimited });
    }
    let kind: GradLimiterKind = match read_limiter_kind(&angle) {
        Ok(k) => k,
        Err(name) => {
            return reject_grad(p, setting, raw, &name, notes);
        },
    };
    match trailing_coeff(&ws) {
        None => {
            let mut want = wrapper;
            push_text(&mut want, " <base> <coeff>: the coefficient is missing");
            unreadable(p, setting, raw, &want, GradScheme::gauss(), notes)
        },
        Some(c) => {
            let limit: GradLimit = if cell {
                GradLimit::Cell(kind, c)
            } else {
                GradLimit::Face(kind, c)
            };
            Ok(GradScheme { base, limit })
        },
    }
}

// --------------------------------------------------------------------------
//  Surface-normal gradients, Laplacians, interpolation
// --------------------------------------------------------------------------
/// What a `snGradSchemes` value says.
pub open spec fn sn_grad_entry(p: Policy, setting: Seq<char>, raw: Seq<char>) -> Result<
    SnGradScheme,
    Failure,
> {
    let ws = words(raw, 0);
    if ws.len() == 0 {
        decided(
            p,
            refusal(setting, raw, SNGRAD_AVAILABLE@, Seq::empty(), "corrected"@),
            SnGradScheme::Corrected,
        )
    } else if ws[0] == "corrected"@ {
        Ok(SnGradScheme::Corrected)
    } else if ws[0] == "uncorrected"@ || ws[0] == "orthogonal"@ {
        Ok(SnGradScheme::Uncorrected)
    } else if ws[0] == "limited"@ {
        match trailing(ws) {
            Some(a) => Ok(SnGradScheme::Limited(a)),
            None => decided(
                p,
                unread(setting, raw, "limited <alpha>: the coefficient is missing"@),
                SnGradScheme::Corrected,
            ),
        }
    } else {
        let value = raw + (if is_known_sn_grad(ws[0]) {
            " (recognised, not implemented)"@
        } else {
            " (not a recognised snGrad scheme)"@
        });
        decided(
            p,
            refusal(setting, value, SNGRAD_AVAILABLE@, Seq::empty(), "corrected"@),
            SnGradScheme::Corrected,
        )
    }
}

/// Read one `snGradSchemes` value; `orthogonal` gives what `uncorrected` gives.
pub fn parse_sn_grad(
    p: Policy,
    setting: &str,
    raw: &str,
    notes: &mut Vec<String>,
) -> (r: Result<SnGradScheme, Error>)
    ensures
        texts(final(notes)@) == texts(old(notes)@) + passed_over(
            sn_grad_entry(strict(), setting@, raw@),
            sn_grad_entry(p, setting@, raw@),
        ),
        agrees(r, sn_grad_entry(p, setting@, raw@)),
{
    let ws = split_words(raw);
    if ws.len() == 0 {
        return unsupported(
            p,
            setting,
            raw,
            SNGRAD_AVAILABLE,
            "corrected",
            SnGradScheme::Corrected,
            notes,
        );
    }
    assert(texts(ws@)[0] == ws@[0]@);
    if same(&ws[0], "corrected") {
        return Ok(SnGradScheme::Corrected);
    }
    if same(&ws[0], "uncorrected") || same(&ws[0], "orthogonal") {
        return Ok(SnGradScheme::Uncorrected);
    }
    if same(&ws[0], "limited") {
        return match trailing_coeff(&ws) {
            Some(a) => Ok(SnGradScheme::Limited(a)),
            None => unreadable(
                p,
                setting,
                raw,
                "limited <alpha>: the coefficient is missing",
                SnGradScheme::Corrected,
                notes,
            ),
        };
    }
    let mut value = copy(raw);
    if known_sn_grad(&ws[0]) {
        push_text(&mut value, " (recognised, not implemented)");
    } else {
        push_text(&mut value, " (not a recognised snGrad scheme)");
    }
    unsupported(p, setting, &value, SNGRAD_AVAILABLE, "corrected", SnGradScheme::Corrected, notes)
}

/// What a `laplacianSchemes` value says: `Gauss linear` and a surface-normal
/// gradient.
pub open spec fn laplacian_entry(p: Policy, setting: Seq<char>, raw: Seq<char>) -> Result<
    SnGradScheme,
    Failure,
> {
    let ws = words(raw, 0);
    let bare = decided(
        p,
        refusal(
            setting,
            raw,
            "Gauss linear <snGradScheme>"@,
            Seq::empty(),
            "Gauss linear corrected"@,
        ),
        SnGradScheme::Corrected,
    );
    if ws.len() == 0 || ws[0] != "Gauss"@ || ws.len() == 1 {
        bare
    } else if ws[1] != "linear"@ {
        decided(
            p,
            refusal(
                setting,
                ws[1],
                INTERP_AVAILABLE@,
                Seq::empty(),
                "Gauss linear corrected"@,
            ),
            SnGradScheme::Corrected,
        )
    } else if ws.len() == 2 {
        bare
    } else {
        sn_grad_entry(p, setting, join(ws.skip(2), " "@))
    }
}

/// Read one `laplacianSchemes` value, `Gauss <interpolation> <snGrad>`: its
/// surface-normal-gradient half.
pub fn parse_laplacian(
    p: Policy,
    setting: &str,
    raw: &str,
    notes: &mut Vec<String>,
) -> (r: Result<SnGradScheme, Error>)
    ensures
        texts(final(notes)@) == texts(old(notes)@) + passed_over(
            laplacian_entry(strict(), setting@, raw@),
            laplacian_entry(p, setting@, raw@),
        ),
        agrees(r, laplacian_entry(p, setting@, raw@)),
{
    let ws = split_words(raw);
    let mut usable: bool = ws.len() >= 2;
    if ws.len() > 0 {
        assert(texts(ws@)[0] == ws@[0]@);
        usable = usable && same(&ws[0], "Gauss");
    }
    if usable {
        assert(texts(ws@)[1] == ws@[1]@);
        if !same(&ws[1], "linear") {
            return unsupported(
                p,
                setting,
                &ws[1],
                INTERP_AVAILABLE,
                "Gauss linear corrected",
                SnGradScheme::Corrected,
                notes,
            );
        }
        if ws.len() >= 3 {
            let rest = join_from(&ws, 2, " ");
            return parse_sn_grad(p, setting, &rest, notes);
        }
    }
    unsupported(
        p,
        setting,
        raw,
        "Gauss linear <snGradScheme>",
        "Gauss linear corrected",
        SnGradScheme::Corrected,
        notes,
    )
}

/// A Laplacian `Gauss linear X` is read as the surface-normal gradient `X`, to the same
/// value or the same refusal. Where the words of `X` are not parted by single blanks, a
/// refusal shows them so.
pub proof fn laplacians_read_their_gradient(p: Policy, setting: Seq<char>, x: Seq<char>)
    requires
        words(x, 0).len() > 0,
    ensures
        laplacian_entry(p, setting, "Gauss linear "@ + x) == sn_grad_entry(
            p,
            setting,
            join(words(x, 0), " "@),
        ),
        x == join(words(x, 0), " "@) ==> laplacian_entry(p, setting, "Gauss linear "@ + x)
            == sn_grad_entry(p, setting, x),
{
    let raw = "Gauss linear "@ + x;
    lemma_gauss_linear_words(x);
    assert(words(raw, 0).skip(2) =~= words(x, 0));
}

proof fn lemma_gauss_linear_words(x: Seq<char>)
    ensures
        words("Gauss linear "@ + x, 0) == seq!["Gauss"@, "linear"@] + words(x, 0),
{
    reveal_strlit("Gauss linear ");
    reveal_strlit("Gauss");
    reveal_strlit("linear");
    let s = "Gauss linear "@ + x;
    assert(s.skip(13) =~= x);
    lemma_words_from(s, 13, 0);
    lemma_run(s, 0, 0, true);
    lemma_run(s, 0, 5, false);
    lemma_run(s, 5, 6, true);
    lemma_run(s, 6, 12, false);
    assert(s.subrange(0, 5) =~= "Gauss"@);
    assert(s.subrange(6, 12) =~= "linear"@);
    lemma_words_skip_space(s, 12);
    assert(words(s, 12) == words(x, 0));
    assert(words(s, 5) =~= seq!["linear"@] + words(x, 0));
    assert(words(s, 0) =~= seq!["Gauss"@, "linear"@] + words(x, 0));
}

/// A Laplacian that is not `Gauss linear` and a gradient is refused.
pub proof fn other_laplacians_are_refused(setting: Seq<char>, raw: Seq<char>)
    requires
        words(raw, 0).len() < 3 || words(raw, 0)[0] != "Gauss"@ || words(raw, 0)[1] != "linear"@,
    ensures
        laplacian_entry(strict(), setting, raw) is Err,
{
}

/// What an `interpolationSchemes` value says: only `linear` is implemented.
pub open spec fn interpolation_entry(p: Policy, setting: Seq<char>, raw: Seq<char>) -> Result<
    (),
    Failure,
> {
    let ws = words(raw, 0);
    if ws.len() > 0 && ws[0] == "linear"@ {
        Ok(())
    } else {
        decided(p, refusal(setting, raw, INTERP_AVAILABLE@, Seq::empty(), "linear"@), ())
    }
}

/// Read one `interpolationSchemes` value.
pub fn parse_interpolation(
    p: Policy,
    setting: &str,
    raw: &str,
    notes: &mut Vec<String>,
) -> (r: Result<(), Error>)
    ensures
        texts(final(notes)@) == texts(old(notes)@) + passed_over(
            interpolation_entry(strict(), setting@, raw@),
            interpolation_entry(p, setting@, raw@),
        ),
        agrees(r, interpolation_entry(p, setting@, raw@)),
{
    let ws = split_words(raw);
    if ws.len() > 0 {
        assert(texts(ws@)[0] == ws@[0]@);
        if same(&ws[0], "linear") {
            return Ok(());
        }
    }
    unsupported(p, setting, raw, INTERP_AVAILABLE, "linear", (), notes)
}

// --------------------------------------------------------------------------
//  The reader
// --------------------------------------------------------------------------
/// A value that says something: not empty, and not `none`.
pub open spec fn usable(v: Option<Seq<char>>) -> Option<Seq<char>> {
    match v {
        None => None,
        Some(t) => if trimmed(t).len() == 0 || trimmed(t) == "none"@ {
            None
        } else {
            Some(trimmed(t))
        },
    }
}

/// The value for a key, its own or the group's default. A case without the
/// group makes no claim; one that has it and says nothing usable is refused.
pub open spec fn scheme_text(
    p: Policy,
    t: Seq<Pair>,
    group: Seq<char>,
    key: Seq<char>,
    fallback: Seq<char>,
) -> Result<Option<Seq<char>>, Failure> {
    match usable(lookup(t, group + "/"@ + key)) {
        Some(v) => Ok(Some(v)),
        None => match usable(lookup(t, group + "/default"@)) {
            Some(v) => Ok(Some(v)),
            None => if !has_dict(t, group) || p.permissive {
                Ok(None)
            } else {
                Err(
                    Failure::Config(
                        refusal(
                            group + "/"@ + key,
                            "<missing>"@,
                            Seq::empty(),
                            Seq::empty(),
                            fallback,
                        ),
                    ),
                )
            },
        },
    }
}

pub open spec fn div_of(p: Policy, t: Seq<Pair>, key: Seq<char>) -> Result<DivEntry, Failure> {
    match scheme_text(p, t, "divSchemes"@, key, "Gauss upwind"@) {
        Err(f) => Err(f),
        Ok(None) => Ok(upwind()),
        Ok(Some(raw)) => div_entry(p, "divSchemes/"@ + key, raw),
    }
}

pub open spec fn grad_of(p: Policy, t: Seq<Pair>, key: Seq<char>) -> Result<GradScheme, Failure> {
    match scheme_text(p, t, "gradSchemes"@, key, "Gauss linear"@) {
        Err(f) => Err(f),
        Ok(None) => Ok(gauss()),
        Ok(Some(raw)) => grad_entry(p, "gradSchemes/"@ + key, raw),
    }
}

pub open spec fn sn_grad_of(p: Policy, t: Seq<Pair>, key: Seq<char>) -> Result<
    SnGradScheme,
    Failure,
> {
    match scheme_text(p, t, "snGradSchemes"@, key, "corrected"@) {
        Err(f) => Err(f),
        Ok(None) => Ok(SnGradScheme::Corrected),
        Ok(Some(raw)) => sn_grad_entry(p, "snGradSchemes/"@ + key, raw),
    }
}

pub open spec fn laplacian_of(p: Policy, t: Seq<Pair>, key: Seq<char>) -> Result<
    SnGradScheme,
    Failure,
> {
    match scheme_text(p, t, "laplacianSchemes"@, key, "Gauss linear corrected"@) {
        Err(f) => Err(f),
        Ok(None) => Ok(SnGradScheme::Corrected),
        Ok(Some(raw)) => laplacian_entry(p, "laplacianSchemes/"@ + key, raw),
    }
}

pub open spec fn interpolation_of(p: Policy, t: Seq<Pair>, key: Seq<char>) -> Result<(), Failure> {
    match scheme_text(p, t, "interpolationSchemes"@, key, "linear"@) {
        Err(f) => Err(f),
        Ok(None) => Ok(()),
        Ok(Some(raw)) => interpolation_entry(p, "interpolationSchemes/"@ + key, raw),
    }
}

/// The first failure of the convection keys from `i` on.
pub open spec fn first_div_failure(
    p: Policy,
    t: Seq<Pair>,
    keys: Seq<Seq<char>>,
    i: int,
) -> Option<Failure>
    decreases keys.len() - i,
{
    if i < 0 || i >= keys.len() {
        None
    } else {
        match div_of(p, t, keys[i]) {
            Err(f) => Some(f),
            Ok(_) => first_div_failure(p, t, keys, i + 1),
        }
    }
}

/// The first failure of the lookups that a solver will make.
pub open spec fn validated(p: Policy, t: Seq<Pair>, keys: Seq<Seq<char>>) -> Result<(), Failure> {
    match first_div_failure(p, t, keys, 0) {
        Some(f) => Err(f),
        None => match grad_of(p, t, "default"@) {
            Err(f) => Err(f),
            Ok(_) => match sn_grad_of(p, t, "default"@) {
                Err(f) => Err(f),
                Ok(_) => match laplacian_of(p, t, "default"@) {
                    Err(f) => Err(f),
                    Ok(_) => interpolation_of(p, t, "default"@),
                },
            },
        },
    }
}

/// What is said of the first `n` convection keys.
pub open spec fn div_notices(p: Policy, t: Seq<Pair>, keys: Seq<Seq<char>>, n: int) -> Seq<Seq<char>>
    decreases n,
{
    if n <= 0 {
        Seq::empty()
    } else {
        div_notices(p, t, keys, n - 1) + passed_over(
            div_of(strict(), t, keys[n - 1]),
            div_of(p, t, keys[n - 1]),
        )
    }
}

/// What is said of the lookups that a solver will make: a refusal for everything
/// that is substituted.
pub open spec fn validation_notices(p: Policy, t: Seq<Pair>, keys: Seq<Seq<char>>) -> Seq<Seq<char>> {
    div_notices(p, t, keys, keys.len() as int) + passed_over(
        grad_of(strict(), t, "default"@),
        grad_of(p, t, "default"@),
    ) + passed_over(
        sn_grad_of(strict(), t, "default"@),
        sn_grad_of(p, t, "default"@),
    ) + passed_over(
        laplacian_of(strict(), t, "default"@),
        laplacian_of(p, t, "default"@),
    ) + passed_over(
        interpolation_of(strict(), t, "default"@),
        interpolation_of(p, t, "default"@),
    )
}

/// A strict run goes on without a word.
proof fn lemma_strict_div_notices(t: Seq<Pair>, keys: Seq<Seq<char>>, n: int)
    ensures
        div_notices(strict(), t, keys, n) == Seq::<Seq<char>>::empty(),
    decreases n,
{
    if n > 0 {
        lemma_strict_div_notices(t, keys, n - 1);
    }
}

/// The schemes of a case, looked up one equation at a time.
///
/// An entry is read only when an equation asks for it: one for an equation that
/// is not solved is no error.
#[derive(Debug, Clone)]
pub struct FvSchemes {
    d: FoamDict,
    policy: Policy,
}

impl Default for FvSchemes {
    /// The schemes of a case that names none.
    fn default() -> (r: FvSchemes)
        ensures
            r.table() == Seq::<Pair>::empty(),
            !r.rule().permissive,
    {
        FvSchemes { d: FoamDict::default(), policy: Policy { permissive: false } }
    }
}

impl FvSchemes {
    /// The entries.
    pub closed spec fn table(self) -> Seq<Pair> {
        self.d@.table
    }

    pub closed spec fn contents(self) -> Entries {
        self.d@
    }

    /// What becomes of an entry that cannot be honoured.
    pub closed spec fn rule(self) -> Policy {
        self.policy
    }

    pub fn from_dict(d: FoamDict, policy: Policy) -> (r: FvSchemes)
        ensures
            r.contents() == d@,
            r.table() == d@.table,
            r.rule() == policy,
    {
        FvSchemes { d, policy }
    }

    /// The dictionary itself.
    pub fn dict(&self) -> (r: &FoamDict)
        ensures
            r@ == self.contents(),
    {
        &self.d
    }

    fn usable_value(&self, path: &str) -> (r: Option<String>)
        ensures
            match (r, usable(lookup(self.table(), path@))) {
                (Some(a), Some(b)) => a@ == b,
                (None, None) => true,
                _ => false,
            },
    {
        match self.d.get(path) {
            None => None,
            Some(v) => {
                let t = trim(v);
                if t.as_str().is_empty() || same(&t, "none") {
                    None
                } else {
                    Some(t)
                }
            },
        }
    }

    fn resolve(
        &self,
        group: &str,
        key: &str,
        fallback: &str,
        notes: &mut Vec<String>,
    ) -> (r: Result<Option<String>, Error>)
        ensures
            texts(final(notes)@) == texts(old(notes)@) + passed_over(
                scheme_text(strict(), self.table(), group@, key@, fallback@),
                scheme_text(self.rule(), self.table(), group@, key@, fallback@),
            ),
            match (r, scheme_text(self.rule(), self.table(), group@, key@, fallback@)) {
                (Ok(Some(a)), Ok(Some(b))) => a@ == b,
                (Ok(None), Ok(None)) => true,
                (Err(e), Err(f)) => e@ == f,
                _ => false,
            },
    {
        let mut own = copy(group);
        push_text(&mut own, "/");
        push_text(&mut own, key);
        match self.usable_value(&own) {
            Some(v) => {
                return Ok(Some(v));
            },
            None => {},
        }
        let mut def = copy(group);
        push_text(&mut def, "/default");
        match self.usable_value(&def) {
            Some(v) => {
                return Ok(Some(v));
            },
            None => {},
        }
        if !self.d.dict_exists(group) {
            return Ok(None);
        }
        proof {
            reveal_strlit("");
            assert(""@ =~= Seq::<char>::empty());
        }
        match unsupported(self.policy, &own, "<missing>", "", fallback, (), notes) {
            Ok(_) => Ok(None),
            Err(e) => Err(e),
        }
    }

    /// The `divSchemes` entry for one equation, e.g. `div(phi,U)`.
    pub fn div(&self, key: &str, notes: &mut Vec<String>) -> (r: Result<DivEntry, Error>)
        ensures
            texts(final(notes)@) == texts(old(notes)@) + passed_over(
                div_of(strict(), self.table(), key@),
                div_of(self.rule(), self.table(), key@),
            ),
            agrees(r, div_of(self.rule(), self.table(), key@)),
    {
        let mut setting = copy("divSchemes/");
        push_text(&mut setting, key);
        match self.resolve("divSchemes", key, "Gauss upwind", notes) {
            Err(e) => Err(e),
            Ok(None) => Ok(DivEntry::upwind()),
            Ok(Some(raw)) => parse_div(self.policy, &setting, &raw, notes),
        }
    }

    /// The `gradSchemes` entry for one field, e.g. `grad(U)`.
    pub fn grad(&self, key: &str, notes: &mut Vec<String>) -> (r: Result<GradScheme, Error>)
        ensures
            texts(final(notes)@) == texts(old(notes)@) + passed_over(
                grad_of(strict(), self.table(), key@),
                grad_of(self.rule(), self.table(), key@),
            ),
            agrees(r, grad_of(self.rule(), self.table(), key@)),
    {
        let mut setting = copy("gradSchemes/");
        push_text(&mut setting, key);
        match self.resolve("gradSchemes", key, "Gauss linear", notes) {
            Err(e) => Err(e),
            Ok(None) => Ok(GradScheme::gauss()),
            Ok(Some(raw)) => parse_grad(self.policy, &setting, &raw, notes),
        }
    }

    /// The `snGradSchemes` entry for one field.
    pub fn sn_grad(&self, key: &str, notes: &mut Vec<String>) -> (r: Result<SnGradScheme, Error>)
        ensures
            texts(final(notes)@) == texts(old(notes)@) + passed_over(
                sn_grad_of(strict(), self.table(), key@),
                sn_grad_of(self.rule(), self.table(), key@),
            ),
            agrees(r, sn_grad_of(self.rule(), self.table(), key@)),
    {
        let mut setting = copy("snGradSchemes/");
        push_text(&mut setting, key);
        match self.resolve("snGradSchemes", key, "corrected", notes) {
            Err(e) => Err(e),
            Ok(None) => Ok(SnGradScheme::Corrected),
            Ok(Some(raw)) => parse_sn_grad(self.policy, &setting, &raw, notes),
        }
    }

    /// The `laplacianSchemes` entry for one equation, e.g. `laplacian(nuEff,U)`:
    /// its surface-normal-gradient half.
    pub fn laplacian(&self, key: &str, notes: &mut Vec<String>) -> (r: Result<SnGradScheme, Error>)
        ensures
            texts(final(notes)@) == texts(old(notes)@) + passed_over(
                laplacian_of(strict(), self.table(), key@),
                laplacian_of(self.rule(), self.table(), key@),
            ),
            agrees(r, laplacian_of(self.rule(), self.table(), key@)),
    {
        let mut setting = copy("laplacianSchemes/");
        push_text(&mut setting, key);
        match self.resolve("laplacianSchemes", key, "Gauss linear corrected", notes) {
            Err(e) => Err(e),
            Ok(None) => Ok(SnGradScheme::Corrected),
            Ok(Some(raw)) => parse_laplacian(self.policy, &setting, &raw, notes),
        }
    }

    /// The `interpolationSchemes` entry.
    pub fn interpolation(&self, key: &str, notes: &mut Vec<String>) -> (r: Result<(), Error>)
        ensures
            texts(final(notes)@) == texts(old(notes)@) + passed_over(
                interpolation_of(strict(), self.table(), key@),
                interpolation_of(self.rule(), self.table(), key@),
            ),
            agrees(r, interpolation_of(self.rule(), self.table(), key@)),
    {
        let mut setting = copy("interpolationSchemes/");
        push_text(&mut setting, key);
        match self.resolve("interpolationSchemes", key, "linear", notes) {
            Err(e) => Err(e),
            Ok(None) => Ok(()),
            Ok(Some(raw)) => parse_interpolation(self.policy, &setting, &raw, notes),
        }
    }

    /// Make up front every lookup that a solver will make.
    pub fn validate(
        &self,
        div_keys: &Vec<String>,
        notes: &mut Vec<String>,
    ) -> (r: Result<(), Error>)
        ensures
            texts(final(notes)@) == texts(old(notes)@) + validation_notices(
                self.rule(),
                self.table(),
                texts(div_keys@),
            ),
            agrees(r, validated(self.rule(), self.table(), texts(div_keys@))),
    {
        let ghost keys = texts(div_keys@);
        let ghost before = texts(notes@);
        let mut i: usize = 0;
        proof {
            if !self.rule().permissive {
                assert(self.rule() == strict());
                lemma_strict_div_notices(self.table(), keys, keys.len() as int);
            }
        }
        while i < div_keys.len()
            invariant
                i <= div_keys.len(),
                keys == texts(div_keys@),
                before == texts(old(notes)@),
                texts(notes@) == before + div_notices(
                    self.rule(),
                    self.table(),
                    keys,
                    i as int,
                ),
                !self.rule().permissive ==> self.rule() == strict() && div_notices(
                    strict(),
                    self.table(),
                    keys,
                    keys.len() as int,
                ) == Seq::<Seq<char>>::empty() && texts(notes@) == before,
                first_div_failure(self.rule(), self.table(), keys, 0) == first_div_failure(
                    self.rule(),
                    self.table(),
                    keys,
                    i as int,
                ),
            decreases div_keys.len() - i,
        {
            assert(keys[i as int] == div_keys@[i as int]@);
            match self.div(&div_keys[i], notes) {
                Ok(_) => {},
                Err(e) => {
                    return Err(e);
                },
            }
            i = i + 1;
        }
        match self.grad("default", notes) {
            Ok(_) => {},
            Err(e) => {
                return Err(e);
            },
        }
        match self.sn_grad("default", notes) {
            Ok(_) => {},
            Err(e) => {
                return Err(e);
            },
        }
        match self.laplacian("default", notes) {
            Ok(_) => {},
            Err(e) => {
                return Err(e);
            },
        }
        self.interpolation("default", notes)
    }
}

} // verus!
