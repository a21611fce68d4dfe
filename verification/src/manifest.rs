//! The manifest of a layout: the regions it holds, and the patches where they
//! meet.

use vstd::prelude::*;

use crate::digits::{show, shown};
use crate::error::{Error, Failure};
use crate::list::first;
use crate::mesh::{patches_of, HostMesh, Patch};
use crate::polymesh::{patch_named, PolyMeshRaw};
use crate::regions::{check_patch_name, link_name, name_fault, SplitInterface};
use crate::scalar::{lemma_scaled_mono, Scalar};
use crate::text::{
    chars_of, copy, debug_of, debug_text, decimal, is_letter, join, join_from, lemma_texts_push, letter,
    push_decimal, push_text, same, texts,
};

verus! {

/// What a region is made of.
#[derive(Debug, Clone, Copy, PartialEq, Eq, Structural)]
pub enum RegionKind {
    Fluid,
    Solid,
}

/// A layout's manifest.
#[derive(Debug, Clone)]
pub struct RegionsManifest {
    pub version: u32,
    pub units: String,
    pub regions: Vec<RegionEntry>,
    pub interfaces: Vec<InterfaceEntry>,
    /// Notes for a reader, as they were written; nothing depends on them.
    pub source: Option<String>,
}

/// One region of a layout.
#[derive(Debug, Clone)]
pub struct RegionEntry {
    pub name: String,
    pub kind: String,
    pub poly_mesh: String,
    pub material: Option<String>,
}

/// One interface of a layout.
#[derive(Debug, Clone)]
pub struct InterfaceEntry {
    pub regions: [String; 2],
    pub patches: [String; 2],
    pub faces: Option<usize>,
    pub tolerance: Scalar,
}

/// The tolerance that an interface has unless it says otherwise: `1e-9`.
pub const DEFAULT_TOLERANCE: u64 = 0x3e11_2e0b_e826_d695;

/// The kind that a word names.
pub open spec fn kind_named(s: Seq<char>) -> Option<RegionKind> {
    if s == "fluid"@ {
        Some(RegionKind::Fluid)
    } else if s == "solid"@ {
        Some(RegionKind::Solid)
    } else {
        None
    }
}

/// The word for a kind.
pub open spec fn kind_word(k: RegionKind) -> Seq<char> {
    match k {
        RegionKind::Fluid => "fluid"@,
        RegionKind::Solid => "solid"@,
    }
}

pub fn kind_of(s: &str) -> (r: Option<RegionKind>)
    ensures
        r == kind_named(s@),
{
    if same(s, "fluid") {
        Some(RegionKind::Fluid)
    } else if same(s, "solid") {
        Some(RegionKind::Solid)
    } else {
        None
    }
}

pub fn kind_str(k: RegionKind) -> (r: &'static str)
    ensures
        r@ == kind_word(k),
{
    match k {
        RegionKind::Fluid => "fluid",
        RegionKind::Solid => "solid",
    }
}

/// A kind is named by its word.
pub proof fn kind_words_read_back(k: RegionKind)
    ensures
        kind_named(kind_word(k)) == Some(k),
{
    reveal_strlit("fluid");
    reveal_strlit("solid");
    assert("fluid"@[0] == 'f');
    assert("solid"@[0] == 's');
}

// --------------------------------------------------------------------------
//  What a manifest may say
// --------------------------------------------------------------------------
pub open spec fn bad_version_text(what: Seq<char>, version: nat) -> Seq<char> {
    what
        + ": version "@
        + decimal(version)
        + " - this reader reads version 1 only"@
}

pub(crate) fn bad_version_message(what: &str, version: usize) -> (r: String)
    ensures
        r@ == bad_version_text(what@, version as nat),
{
    let mut s = copy(what);
    push_text(&mut s, ": version ");
    push_decimal(&mut s, version as u64);
    push_text(&mut s, " - this reader reads version 1 only");
    s
}

pub open spec fn bad_units_text(what: Seq<char>, units: Seq<char>) -> Seq<char> {
    what
        + ": units '"@
        + units
        + "' - a layout's meshes are in metres; scale the mesh by the tool that made it and write units \"m\""@
}

pub(crate) fn bad_units_message(what: &str, units: &str) -> (r: String)
    ensures
        r@ == bad_units_text(what@, units@),
{
    let mut s = copy(what);
    push_text(&mut s, ": units '");
    push_text(&mut s, units);
    push_text(&mut s, "' - a layout's meshes are in metres; scale the mesh by the tool that made it and write units \"m\"");
    s
}

pub open spec fn twice_text(what: Seq<char>, name: Seq<char>) -> Seq<char> {
    what
        + ": region '"@
        + name
        + "' is declared twice"@
}

pub(crate) fn twice_message(what: &str, name: &str) -> (r: String)
    ensures
        r@ == twice_text(what@, name@),
{
    let mut s = copy(what);
    push_text(&mut s, ": region '");
    push_text(&mut s, name);
    push_text(&mut s, "' is declared twice");
    s
}

pub open spec fn bad_kind_text(what: Seq<char>, name: Seq<char>, kind: Seq<char>) -> Seq<char> {
    what
        + ": region '"@
        + name
        + "' has kind '"@
        + kind
        + "' - kind is \"fluid\" or \"solid\" (R4)"@
}

pub(crate) fn bad_kind_message(what: &str, name: &str, kind: &str) -> (r: String)
    ensures
        r@ == bad_kind_text(what@, name@, kind@),
{
    let mut s = copy(what);
    push_text(&mut s, ": region '");
    push_text(&mut s, name);
    push_text(&mut s, "' has kind '");
    push_text(&mut s, kind);
    push_text(&mut s, "' - kind is \"fluid\" or \"solid\" (R4)");
    s
}

pub open spec fn fluid_material_text(what: Seq<char>, name: Seq<char>, material: Seq<char>) -> Seq<char> {
    what
        + ": region '"@
        + name
        + "' is a fluid and carries material '"@
        + material
        + "' - only a solid region carries a material (R4)"@
}

pub(crate) fn fluid_material_message(what: &str, name: &str, material: &str) -> (r: String)
    ensures
        r@ == fluid_material_text(what@, name@, material@),
{
    let mut s = copy(what);
    push_text(&mut s, ": region '");
    push_text(&mut s, name);
    push_text(&mut s, "' is a fluid and carries material '");
    push_text(&mut s, material);
    push_text(&mut s, "' - only a solid region carries a material (R4)");
    s
}

pub open spec fn two_fluids_text(what: Seq<char>, a: Seq<char>, b: Seq<char>) -> Seq<char> {
    what
        + ": regions '"@
        + a
        + "' and '"@
        + b
        + "' are both fluid - at most one fluid region (rule 47.4)"@
}

pub(crate) fn two_fluids_message(what: &str, a: &str, b: &str) -> (r: String)
    ensures
        r@ == two_fluids_text(what@, a@, b@),
{
    let mut s = copy(what);
    push_text(&mut s, ": regions '");
    push_text(&mut s, a);
    push_text(&mut s, "' and '");
    push_text(&mut s, b);
    push_text(&mut s, "' are both fluid - at most one fluid region (rule 47.4)");
    s
}

pub open spec fn late_fluid_text(what: Seq<char>, name: Seq<char>, i: nat) -> Seq<char> {
    what
        + ": the fluid region '"@
        + name
        + "' is regions["@
        + decimal(i)
        + "] - it must be regions[0] so the fluid block keeps its cell and boundary-face numbering (rule 47.4)"@
}

pub(crate) fn late_fluid_message(what: &str, name: &str, i: usize) -> (r: String)
    ensures
        r@ == late_fluid_text(what@, name@, i as nat),
{
    let mut s = copy(what);
    push_text(&mut s, ": the fluid region '");
    push_text(&mut s, name);
    push_text(&mut s, "' is regions[");
    push_decimal(&mut s, i as u64);
    push_text(&mut s, "] - it must be regions[0] so the fluid block keeps its cell and boundary-face numbering (rule 47.4)");
    s
}

pub open spec fn one_sided_text(what: Seq<char>, i: nat, name: Seq<char>) -> Seq<char> {
    what
        + ": interface "@
        + decimal(i)
        + " names region '"@
        + name
        + "' on both sides"@
}

pub(crate) fn one_sided_message(what: &str, i: usize, name: &str) -> (r: String)
    ensures
        r@ == one_sided_text(what@, i as nat, name@),
{
    let mut s = copy(what);
    push_text(&mut s, ": interface ");
    push_decimal(&mut s, i as u64);
    push_text(&mut s, " names region '");
    push_text(&mut s, name);
    push_text(&mut s, "' on both sides");
    s
}

pub open spec fn undeclared_text(what: Seq<char>, i: nat, name: Seq<char>) -> Seq<char> {
    what
        + ": interface "@
        + decimal(i)
        + " names region '"@
        + name
        + "', which the manifest does not declare"@
}

pub(crate) fn undeclared_message(what: &str, i: usize, name: &str) -> (r: String)
    ensures
        r@ == undeclared_text(what@, i as nat, name@),
{
    let mut s = copy(what);
    push_text(&mut s, ": interface ");
    push_decimal(&mut s, i as u64);
    push_text(&mut s, " names region '");
    push_text(&mut s, name);
    push_text(&mut s, "', which the manifest does not declare");
    s
}

pub open spec fn misnamed_text(what: Seq<char>, i: nat, pa: Seq<char>, pb: Seq<char>, a: Seq<char>, b: Seq<char>) -> Seq<char> {
    what
        + ": interface "@
        + decimal(i)
        + " has patches ["@
        + pa
        + ", "@
        + pb
        + "] - the layout's names are [\""@
        + a
        + "\", \""@
        + b
        + "\"] (R3)"@
}

pub(crate) fn misnamed_message(what: &str, i: usize, pa: &str, pb: &str, a: &str, b: &str) -> (r: String)
    ensures
        r@ == misnamed_text(what@, i as nat, pa@, pb@, a@, b@),
{
    let mut s = copy(what);
    push_text(&mut s, ": interface ");
    push_decimal(&mut s, i as u64);
    push_text(&mut s, " has patches [");
    push_text(&mut s, pa);
    push_text(&mut s, ", ");
    push_text(&mut s, pb);
    push_text(&mut s, "] - the layout's names are [\"");
    push_text(&mut s, a);
    push_text(&mut s, "\", \"");
    push_text(&mut s, b);
    push_text(&mut s, "\"] (R3)");
    s
}

pub open spec fn bad_tolerance_text(what: Seq<char>, i: nat, tol: Seq<char>) -> Seq<char> {
    what
        + ": interface "@
        + decimal(i)
        + " has tolerance "@
        + tol
        + " - it must be > 0"@
}

pub(crate) fn bad_tolerance_message(what: &str, i: usize, tol: &str) -> (r: String)
    ensures
        r@ == bad_tolerance_text(what@, i as nat, tol@),
{
    let mut s = copy(what);
    push_text(&mut s, ": interface ");
    push_decimal(&mut s, i as u64);
    push_text(&mut s, " has tolerance ");
    push_text(&mut s, tol);
    push_text(&mut s, " - it must be > 0");
    s
}

/// What is wrong with a version or the units.
pub open spec fn head_fault(what: Seq<char>, m: RegionsManifest) -> Option<Failure> {
    if m.version != 1 {
        Some(Failure::Config(bad_version_text(what, m.version as nat)))
    } else if m.units@ != "m"@ {
        Some(Failure::Config(bad_units_text(what, m.units@)))
    } else {
        None
    }
}

/// A region of a name among the first `n`.
pub open spec fn declared(r: Seq<RegionEntry>, n: int, name: Seq<char>) -> bool {
    exists|k: int| 0 <= k < n && (#[trigger] r[k]).name@ == name
}

/// What is wrong with region `i`.
pub open spec fn region_fault(what: Seq<char>, r: Seq<RegionEntry>, i: int) -> Option<Failure> {
    match name_fault(r[i].name@, "region"@) {
        Some(f) => Some(f),
        None => if declared(r, i, r[i].name@) {
            Some(Failure::Config(twice_text(what, r[i].name@)))
        } else if kind_named(r[i].kind@) is None {
            Some(Failure::Config(bad_kind_text(what, r[i].name@, r[i].kind@)))
        } else if r[i].kind@ == "fluid"@ && r[i].material is Some {
            Some(
                Failure::Config(
                    fluid_material_text(what, r[i].name@, r[i].material->Some_0@),
                ),
            )
        } else {
            None
        },
    }
}

/// The first thing wrong with the regions from `i` on.
pub open spec fn region_faults(what: Seq<char>, r: Seq<RegionEntry>, i: int) -> Option<Failure>
    decreases r.len() - i,
{
    if i < 0 || i >= r.len() {
        None
    } else {
        match region_fault(what, r, i) {
            Some(f) => Some(f),
            None => region_faults(what, r, i + 1),
        }
    }
}

/// A fluid region.
pub open spec fn fluid_in(r: Seq<RegionEntry>) -> spec_fn(int) -> bool {
    |i: int| r[i].kind@ == "fluid"@
}

/// What is wrong with the fluid: there is at most one, and it comes first.
pub open spec fn fluid_fault(what: Seq<char>, r: Seq<RegionEntry>) -> Option<Failure> {
    let a = first(r.len() as int, 0, fluid_in(r));
    let b = first(r.len() as int, a + 1, fluid_in(r));
    if a >= r.len() {
        None
    } else if b < r.len() {
        Some(Failure::Config(two_fluids_text(what, r[a].name@, r[b].name@)))
    } else if a != 0 {
        Some(Failure::Config(late_fluid_text(what, r[a].name@, a as nat)))
    } else {
        None
    }
}

/// What is wrong with interface `i`.
pub open spec fn interface_fault(
    what: Seq<char>,
    r: Seq<RegionEntry>,
    e: InterfaceEntry,
    i: int,
) -> Option<Failure> {
    let a = e.regions[0]@;
    let b = e.regions[1]@;
    let n = r.len() as int;
    if a == b {
        Some(Failure::Config(one_sided_text(what, i as nat, a)))
    } else if !declared(r, n, a) {
        Some(Failure::Config(undeclared_text(what, i as nat, a)))
    } else if !declared(r, n, b) {
        Some(Failure::Config(undeclared_text(what, i as nat, b)))
    } else if e.patches[0]@ != link_name(a, b) || e.patches[1]@ != link_name(b, a) {
        Some(
            Failure::Config(
                misnamed_text(
                    what,
                    i as nat,
                    debug_text(e.patches[0]@),
                    debug_text(e.patches[1]@),
                    link_name(a, b),
                    link_name(b, a),
                ),
            ),
        )
    } else if !(Scalar { bits: 0 }).less(e.tolerance) {
        Some(Failure::Config(bad_tolerance_text(what, i as nat, shown(e.tolerance))))
    } else {
        None
    }
}

/// The first thing wrong with the interfaces from `i` on.
pub open spec fn interface_faults(
    what: Seq<char>,
    r: Seq<RegionEntry>,
    e: Seq<InterfaceEntry>,
    i: int,
) -> Option<Failure>
    decreases e.len() - i,
{
    if i < 0 || i >= e.len() {
        None
    } else {
        match interface_fault(what, r, e[i], i) {
            Some(f) => Some(f),
            None => interface_faults(what, r, e, i + 1),
        }
    }
}

/// The first rule that a manifest breaks.
pub open spec fn manifest_fault(what: Seq<char>, m: RegionsManifest) -> Option<Failure> {
    match head_fault(what, m) {
        Some(f) => Some(f),
        None => match region_faults(what, m.regions@, 0) {
            Some(f) => Some(f),
            None => match fluid_fault(what, m.regions@) {
                Some(f) => Some(f),
                None => interface_faults(what, m.regions@, m.interfaces@, 0),
            },
        },
    }
}

/// Does a result report what there is to report?
pub open spec fn reports(r: Result<(), Error>, want: Option<Failure>) -> bool {
    match (r, want) {
        (Ok(_), None) => true,
        (Err(e), Some(f)) => e@ == f,
        _ => false,
    }
}

fn is_declared(r: &Vec<RegionEntry>, n: usize, name: &str) -> (b: bool)
    requires
        n <= r.len(),
    ensures
        b == declared(r@, n as int, name@),
{
    let mut k: usize = 0;
    while k < n
        invariant
            k <= n <= r.len(),
            !declared(r@, k as int, name@),
        decreases n - k,
    {
        if same(&r[k].name, name) {
            assert(r@[k as int].name@ == name@);
            return true;
        }
        k = k + 1;
    }
    false
}

fn check_region(what: &str, r: &Vec<RegionEntry>, i: usize) -> (b: Result<(), Error>)
    requires
        i < r.len(),
        r[i as int].name@.len() < usize::MAX,
    ensures
        reports(b, region_fault(what@, r@, i as int)),
{
    let e = &r[i];
    match check_patch_name(&e.name, "region") {
        Ok(_) => {},
        Err(x) => {
            return Err(x);
        },
    }
    if is_declared(r, i, &e.name) {
        return Err(Error::Config(twice_message(what, &e.name)));
    }
    if kind_of(&e.kind).is_none() {
        return Err(Error::Config(bad_kind_message(what, &e.name, &e.kind)));
    }
    if same(&e.kind, "fluid") {
        match &e.material {
            Some(m) => {
                return Err(Error::Config(fluid_material_message(what, &e.name, m)));
            },
            None => {},
        }
    }
    Ok(())
}

fn next_fluid(r: &Vec<RegionEntry>, from: usize) -> (i: usize)
    requires
        from <= r.len(),
    ensures
        i == first(r.len() as int, from as int, fluid_in(r@)),
        from <= i <= r.len(),
{
    let mut i: usize = from;
    while i < r.len()
        invariant
            from <= i <= r.len(),
            first(r.len() as int, from as int, fluid_in(r@)) == first(
                r.len() as int,
                i as int,
                fluid_in(r@),
            ),
        decreases r.len() - i,
    {
        if same(&r[i].kind, "fluid") {
            return i;
        }
        i = i + 1;
    }
    i
}

fn check_fluids(what: &str, r: &Vec<RegionEntry>) -> (b: Result<(), Error>)
    ensures
        reports(b, fluid_fault(what@, r@)),
{
    let a: usize = next_fluid(r, 0);
    if a >= r.len() {
        return Ok(());
    }
    let c: usize = next_fluid(r, a + 1);
    if c < r.len() {
        return Err(Error::Config(two_fluids_message(what, &r[a].name, &r[c].name)));
    }
    if a != 0 {
        return Err(Error::Config(late_fluid_message(what, &r[a].name, a)));
    }
    Ok(())
}

fn named_link(a: &str, b: &str) -> (r: String)
    ensures
        r@ == link_name(a@, b@),
{
    let mut s = copy(a);
    push_text(&mut s, "_to_");
    push_text(&mut s, b);
    s
}

fn check_interface(what: &str, r: &Vec<RegionEntry>, e: &InterfaceEntry, i: usize) -> (b: Result<
    (),
    Error,
>)
    ensures
        reports(b, interface_fault(what@, r@, *e, i as int)),
{
    let a: &String = &e.regions[0];
    let c: &String = &e.regions[1];
    if same(a, c) {
        return Err(Error::Config(one_sided_message(what, i, a)));
    }
    if !is_declared(r, r.len(), a) {
        return Err(Error::Config(undeclared_message(what, i, a)));
    }
    if !is_declared(r, r.len(), c) {
        return Err(Error::Config(undeclared_message(what, i, c)));
    }
    let ab = named_link(a, c);
    let ba = named_link(c, a);
    if !same(&e.patches[0], &ab) || !same(&e.patches[1], &ba) {
        let pa = debug_of(&e.patches[0]);
        let pb = debug_of(&e.patches[1]);
        return Err(Error::Config(misnamed_message(what, i, &pa, &pb, &ab, &ba)));
    }
    let nil = Scalar { bits: 0 };
    if !nil.below(e.tolerance) {
        let t = show(e.tolerance);
        return Err(Error::Config(bad_tolerance_message(what, i, &t)));
    }
    Ok(())
}

/// Hold a manifest to the rules. Every refusal names the entry and the rule.
pub fn check_manifest(what: &str, m: &RegionsManifest) -> (b: Result<(), Error>)
    requires
        forall|i: int|
            0 <= i < m.regions.len() ==> (#[trigger] m.regions[i]).name@.len() < usize::MAX,
    ensures
        reports(b, manifest_fault(what@, *m)),
{
    if m.version != 1 {
        return Err(Error::Config(bad_version_message(what, m.version as usize)));
    }
    if !same(&m.units, "m") {
        return Err(Error::Config(bad_units_message(what, &m.units)));
    }
    let ghost w = what@;
    let ghost rv = m.regions@;
    let ghost ev = m.interfaces@;
    let mut i: usize = 0;
    while i < m.regions.len()
        invariant
            i <= m.regions.len(),
            w == what@,
            rv == m.regions@,
            forall|i: int|
                0 <= i < m.regions.len() ==> (#[trigger] m.regions[i]).name@.len() < usize::MAX,
            region_faults(w, rv, 0) == region_faults(w, rv, i as int),
            head_fault(w, *m) is None,
        decreases m.regions.len() - i,
    {
        match check_region(what, &m.regions, i) {
            Ok(_) => {},
            Err(e) => {
                return Err(e);
            },
        }
        i = i + 1;
    }
    match check_fluids(what, &m.regions) {
        Ok(_) => {},
        Err(e) => {
            return Err(e);
        },
    }
    let mut k: usize = 0;
    while k < m.interfaces.len()
        invariant
            k <= m.interfaces.len(),
            w == what@,
            rv == m.regions@,
            ev == m.interfaces@,
            interface_faults(w, rv, ev, 0) == interface_faults(w, rv, ev, k as int),
            head_fault(w, *m) is None,
            region_faults(w, rv, 0) is None,
            fluid_fault(w, rv) is None,
        decreases m.interfaces.len() - k,
    {
        match check_interface(what, &m.regions, &m.interfaces[k], k) {
            Ok(_) => {},
            Err(e) => {
                return Err(e);
            },
        }
        k = k + 1;
    }
    Ok(())
}

/// A manifest as it was read, or the rule that it breaks.
pub fn read_manifest(what: &str, m: RegionsManifest) -> (r: Result<RegionsManifest, Error>)
    requires
        forall|i: int|
            0 <= i < m.regions.len() ==> (#[trigger] m.regions[i]).name@.len() < usize::MAX,
    ensures
        match (r, manifest_fault(what@, m)) {
            (Ok(k), None) => k == m,
            (Err(e), Some(f)) => e@ == f,
            _ => false,
        },
{
    match check_manifest(what, &m) {
        Ok(_) => Ok(m),
        Err(e) => Err(e),
    }
}

// --------------------------------------------------------------------------
//  Where a region lies
// --------------------------------------------------------------------------
/// Does `c` part the names of a path? A backslash does on some platforms.
pub open spec fn is_separator(c: char, backslash: bool) -> bool {
    c == '/' || (backslash && c == '\\')
}

pub open spec fn starts_part(p: Seq<char>, i: int, backslash: bool) -> bool {
    i == 0 || is_separator(p[i - 1], backslash)
}

pub open spec fn ends_part(p: Seq<char>, i: int, backslash: bool) -> bool {
    i >= p.len() || is_separator(p[i], backslash)
}

/// A `..` between separators, from `i` on.
pub open spec fn climbs(p: Seq<char>, i: int, backslash: bool) -> bool
    decreases p.len() - i,
{
    if i < 0 || i >= p.len() {
        false
    } else {
        (starts_part(p, i, backslash) && p[i] == '.' && i + 1 < p.len() && p[i + 1] == '.'
            && ends_part(p, i + 2, backslash)) || climbs(p, i + 1, backslash)
    }
}

/// Does a path start at a root: with a slash, with a drive and a separator, or with
/// the two backslashes of another host?
pub open spec fn starts_at_root(p: Seq<char>, backslash: bool) -> bool {
    ||| p.len() > 0 && p[0] == '/'
    ||| p.len() > 2 && is_letter(p[0]) && p[1] == ':' && is_separator(p[2], backslash)
    ||| backslash && p.len() > 1 && p[0] == '\\' && p[1] == '\\'
}

/// Is a path one that leaves the directory it is told from?
pub open spec fn strays(p: Seq<char>, backslash: bool) -> bool {
    starts_at_root(p, backslash) || climbs(p, 0, backslash)
}

pub open spec fn stray_path_text(p: Seq<char>) -> Seq<char> {
    "polyMesh path '"@
        + p
        + "' is absolute or climbs out with '..' - a layout's paths are relative to regions.json's directory (R6)"@
}

pub(crate) fn stray_path_message(p: &str) -> (r: String)
    ensures
        r@ == stray_path_text(p@),
{
    let mut s = copy("polyMesh path '");
    push_text(&mut s, p);
    push_text(&mut s, "' is absolute or climbs out with '..' - a layout's paths are relative to regions.json's directory (R6)");
    s
}

fn separator(c: char, backslash: bool) -> (r: bool)
    ensures
        r == is_separator(c, backslash),
{
    c == '/' || (backslash && c == '\\')
}

/// A region's path is relative to the manifest's directory and stays below it.
/// `backslash` says whether a backslash parts the names of a path where it is used.
pub fn check_poly_path(p: &str, backslash: bool) -> (r: Result<(), Error>)
    ensures
        match r {
            Ok(_) => !strays(p@, backslash),
            Err(e) => strays(p@, backslash) && e@ == Failure::Config(stray_path_text(p@)),
        },
{
    let s = chars_of(p);
    let rooted: bool = (s.len() > 0 && s[0] == '/') || (s.len() > 2 && letter(s[0]) && s[1] == ':'
        && separator(s[2], backslash)) || (backslash && s.len() > 1 && s[0] == '\\' && s[1] == '\\');
    let mut up: bool = false;
    let mut i: usize = 0;
    while i < s.len() && !up
        invariant
            i <= s.len(),
            s@ == p@,
            up ==> climbs(p@, 0, backslash),
            !up ==> climbs(p@, 0, backslash) == climbs(p@, i as int, backslash),
        decreases s.len() - i,
    {
        let starts: bool = i == 0 || separator(s[i - 1], backslash);
        if starts && s[i] == '.' && i + 1 < s.len() && s[i + 1] == '.' && (i + 2 >= s.len()
            || separator(s[i + 2], backslash)) {
            up = true;
        }
        i = i + 1;
    }
    if rooted || up {
        return Err(Error::Config(stray_path_message(p)));
    }
    Ok(())
}

// --------------------------------------------------------------------------
//  Where regions meet
// --------------------------------------------------------------------------
/// One region of a layout, read and addressed.
#[derive(Debug)]
pub struct LoadedRegion {
    pub name: String,
    pub kind: RegionKind,
    pub material: Option<String>,
    pub raw: PolyMeshRaw,
    pub mesh: HostMesh,
}

/// Two patches that are one surface, in perfect contact where `r_c` is 0.
#[derive(Debug, Clone)]
pub struct InterfaceRequest {
    pub region_a: usize,
    pub patch_a: String,
    pub region_b: usize,
    pub patch_b: String,
    pub r_c: Scalar,
}

/// How far two faces are from being one, in three numbers without dimension: the
/// distance of their centres, the difference of their areas, and the angle
/// between their normals.
#[derive(Debug, Clone, Copy, PartialEq, Eq, Structural)]
pub struct FaceGap {
    pub centroid: Scalar,
    pub area: Scalar,
    pub normal: Scalar,
}

/// The worst of each over an interface.
#[derive(Debug, Clone)]
pub struct PairingCheck {
    pub name: String,
    pub n_faces: usize,
    pub worst_centroid: Scalar,
    pub worst_area: Scalar,
    pub worst_normal: Scalar,
}

/// A pair of patches found.
#[derive(Debug, Clone, Copy, PartialEq, Eq, Structural)]
pub struct PatchPair {
    pub region_a: usize,
    pub region_b: usize,
    pub start_a: usize,
    pub start_b: usize,
    pub size: usize,
}

pub open spec fn interface_name_text(i: nat, a: Seq<char>, b: Seq<char>) -> Seq<char> {
    "interface "@
        + decimal(i)
        + " ('"@
        + a
        + "' <-> '"@
        + b
        + "')"@
}

pub(crate) fn interface_name_message(i: usize, a: &str, b: &str) -> (r: String)
    ensures
        r@ == interface_name_text(i as nat, a@, b@),
{
    let mut s = copy("interface ");
    push_decimal(&mut s, i as u64);
    push_text(&mut s, " ('");
    push_text(&mut s, a);
    push_text(&mut s, "' <-> '");
    push_text(&mut s, b);
    push_text(&mut s, "')");
    s
}

pub open spec fn no_region_text(what: Seq<char>, name: Seq<char>) -> Seq<char> {
    what
        + ": region '"@
        + name
        + "' is not in the manifest"@
}

pub(crate) fn no_region_message(what: &str, name: &str) -> (r: String)
    ensures
        r@ == no_region_text(what@, name@),
{
    let mut s = copy(what);
    push_text(&mut s, ": region '");
    push_text(&mut s, name);
    push_text(&mut s, "' is not in the manifest");
    s
}

pub open spec fn no_patch_text(what: Seq<char>, patch: Seq<char>, region: Seq<char>, names: Seq<char>) -> Seq<char> {
    what
        + ": patch '"@
        + patch
        + "' does not exist in region '"@
        + region
        + "' - its patches are ["@
        + names
        + "] (R2)"@
}

pub(crate) fn no_patch_message(what: &str, patch: &str, region: &str, names: &str) -> (r: String)
    ensures
        r@ == no_patch_text(what@, patch@, region@, names@),
{
    let mut s = copy(what);
    push_text(&mut s, ": patch '");
    push_text(&mut s, patch);
    push_text(&mut s, "' does not exist in region '");
    push_text(&mut s, region);
    push_text(&mut s, "' - its patches are [");
    push_text(&mut s, names);
    push_text(&mut s, "] (R2)");
    s
}

pub open spec fn bad_type_text(what: Seq<char>, a: Seq<char>, ta: Seq<char>, b: Seq<char>, tb: Seq<char>) -> Seq<char> {
    what
        + ": patch '"@
        + a
        + "' has type '"@
        + ta
        + "' and '"@
        + b
        + "' has type '"@
        + tb
        + "' - an interface patch has type \"patch\" (R3)"@
}

pub(crate) fn bad_type_message(what: &str, a: &str, ta: &str, b: &str, tb: &str) -> (r: String)
    ensures
        r@ == bad_type_text(what@, a@, ta@, b@, tb@),
{
    let mut s = copy(what);
    push_text(&mut s, ": patch '");
    push_text(&mut s, a);
    push_text(&mut s, "' has type '");
    push_text(&mut s, ta);
    push_text(&mut s, "' and '");
    push_text(&mut s, b);
    push_text(&mut s, "' has type '");
    push_text(&mut s, tb);
    push_text(&mut s, "' - an interface patch has type \"patch\" (R3)");
    s
}

pub open spec fn odd_faces_text(what: Seq<char>, a: nat, b: nat, said: Seq<char>) -> Seq<char> {
    what
        + ": "@
        + decimal(a)
        + " faces, "@
        + decimal(b)
        + " faces, manifest says "@
        + said
        + " - the two patches of an interface carry the same number of faces, and the manifest's `faces`, when present, says what both carry (R2). Non-conformal (AMI) interfaces are not implemented (rule 47.4)"@
}

pub(crate) fn odd_faces_message(what: &str, a: usize, b: usize, said: &str) -> (r: String)
    ensures
        r@ == odd_faces_text(what@, a as nat, b as nat, said@),
{
    let mut s = copy(what);
    push_text(&mut s, ": ");
    push_decimal(&mut s, a as u64);
    push_text(&mut s, " faces, ");
    push_decimal(&mut s, b as u64);
    push_text(&mut s, " faces, manifest says ");
    push_text(&mut s, said);
    push_text(&mut s, " - the two patches of an interface carry the same number of faces, and the manifest's `faces`, when present, says what both carry (R2). Non-conformal (AMI) interfaces are not implemented (rule 47.4)");
    s
}

pub open spec fn far_centre_text(what: Seq<char>, k: nat, d: Seq<char>, tol: Seq<char>) -> Seq<char> {
    what
        + " face "@
        + decimal(k)
        + ": |Cf_A - Cf_B|/sqrt(|Sf|) = "@
        + d
        + ", tolerance "@
        + tol
        + " - the k-th face of one patch is not the k-th face of the other (R2); rule 47.4 needs conformal, matched patches"@
}

pub(crate) fn far_centre_message(what: &str, k: usize, d: &str, tol: &str) -> (r: String)
    ensures
        r@ == far_centre_text(what@, k as nat, d@, tol@),
{
    let mut s = copy(what);
    push_text(&mut s, " face ");
    push_decimal(&mut s, k as u64);
    push_text(&mut s, ": |Cf_A - Cf_B|/sqrt(|Sf|) = ");
    push_text(&mut s, d);
    push_text(&mut s, ", tolerance ");
    push_text(&mut s, tol);
    push_text(&mut s, " - the k-th face of one patch is not the k-th face of the other (R2); rule 47.4 needs conformal, matched patches");
    s
}

pub open spec fn odd_area_text(what: Seq<char>, k: nat, d: Seq<char>, tol: Seq<char>) -> Seq<char> {
    what
        + " face "@
        + decimal(k)
        + ": the two areas differ by "@
        + d
        + " relative, tolerance "@
        + tol
        + " (R2)"@
}

pub(crate) fn odd_area_message(what: &str, k: usize, d: &str, tol: &str) -> (r: String)
    ensures
        r@ == odd_area_text(what@, k as nat, d@, tol@),
{
    let mut s = copy(what);
    push_text(&mut s, " face ");
    push_decimal(&mut s, k as u64);
    push_text(&mut s, ": the two areas differ by ");
    push_text(&mut s, d);
    push_text(&mut s, " relative, tolerance ");
    push_text(&mut s, tol);
    push_text(&mut s, " (R2)");
    s
}

pub open spec fn odd_normal_text(what: Seq<char>, k: nat, d: Seq<char>, tol: Seq<char>) -> Seq<char> {
    what
        + " face "@
        + decimal(k)
        + ": n_A . n_B + 1 = "@
        + d
        + ", tolerance "@
        + tol
        + " - the two faces are the same face seen from opposite sides, so their outward normals are opposed (R2)"@
}

pub(crate) fn odd_normal_message(what: &str, k: usize, d: &str, tol: &str) -> (r: String)
    ensures
        r@ == odd_normal_text(what@, k as nat, d@, tol@),
{
    let mut s = copy(what);
    push_text(&mut s, " face ");
    push_decimal(&mut s, k as u64);
    push_text(&mut s, ": n_A . n_B + 1 = ");
    push_text(&mut s, d);
    push_text(&mut s, ", tolerance ");
    push_text(&mut s, tol);
    push_text(&mut s, " - the two faces are the same face seen from opposite sides, so their outward normals are opposed (R2)");
    s
}

/// A count as it is written where it may be missing.
pub open spec fn said_text(n: Option<usize>) -> Seq<char> {
    match n {
        None => "None"@,
        Some(k) => "Some("@ + decimal(k as nat) + ")"@,
    }
}

fn said_message(n: Option<usize>) -> (r: String)
    ensures
        r@ == said_text(n),
{
    match n {
        None => copy("None"),
        Some(k) => {
            let mut s = copy("Some(");
            push_decimal(&mut s, k as u64);
            push_text(&mut s, ")");
            s
        },
    }
}

/// A region of a name.
pub open spec fn region_of_name(r: Seq<LoadedRegion>, name: Seq<char>) -> spec_fn(int) -> bool {
    |i: int| r[i].name@ == name
}

/// The names of some patches, quoted.
pub open spec fn quoted_names(p: Seq<Patch>) -> Seq<Seq<char>> {
    p.map_values(|x: Patch| debug_text(x.name))
}

/// Where a region is, or that it is not there.
pub open spec fn side_of(
    what: Seq<char>,
    r: Seq<LoadedRegion>,
    name: Seq<char>,
) -> Result<int, Failure> {
    let i = first(r.len() as int, 0, region_of_name(r, name));
    if i < r.len() {
        Ok(i)
    } else {
        Err(Failure::Config(no_region_text(what, name)))
    }
}

/// Where a patch of a region is, or that it is not there.
pub open spec fn patch_in(what: Seq<char>, r: LoadedRegion, name: Seq<char>) -> Result<int, Failure> {
    let p = patches_of(r.mesh.patches@);
    let k = patch_named(p, name);
    if k < p.len() {
        Ok(k)
    } else {
        Err(
            Failure::Config(
                no_patch_text(what, name, r.name@, join(quoted_names(p), ", "@)),
            ),
        )
    }
}

/// The patches of an interface, which have to be there, of type `patch` and of one
/// size.
pub open spec fn paired(what: Seq<char>, e: InterfaceEntry, r: Seq<LoadedRegion>) -> Result<
    PatchPair,
    Failure,
> {
    match side_of(what, r, e.regions[0]@) {
        Err(f) => Err(f),
        Ok(a) => match side_of(what, r, e.regions[1]@) {
            Err(f) => Err(f),
            Ok(b) => match patch_in(what, r[a], e.patches[0]@) {
                Err(f) => Err(f),
                Ok(i) => match patch_in(what, r[b], e.patches[1]@) {
                    Err(f) => Err(f),
                    Ok(j) => {
                        let p = r[a].mesh.patches[i];
                        let q = r[b].mesh.patches[j];
                        if p.patch_type@ != "patch"@ || q.patch_type@ != "patch"@ {
                            Err(
                                Failure::Config(
                                    bad_type_text(
                                        what,
                                        p.name@,
                                        p.patch_type@,
                                        q.name@,
                                        q.patch_type@,
                                    ),
                                ),
                            )
                        } else if p.size != q.size || (e.faces is Some && e.faces->Some_0
                            != p.size) {
                            Err(
                                Failure::Config(
                                    odd_faces_text(
                                        what,
                                        p.size as nat,
                                        q.size as nat,
                                        said_text(e.faces),
                                    ),
                                ),
                            )
                        } else {
                            Ok(
                                PatchPair {
                                    region_a: a as usize,
                                    region_b: b as usize,
                                    start_a: p.start,
                                    start_b: q.start,
                                    size: p.size,
                                },
                            )
                        }
                    },
                },
            },
        },
    }
}

/// A number is a number, and not above another.
pub open spec fn within(d: Scalar, tol: Scalar) -> bool {
    !d.is_nan() && !tol.is_nan() && !tol.less(d)
}

/// What is wrong with the faces of number `k`.
pub open spec fn gap_fault(what: Seq<char>, g: FaceGap, tol: Scalar, k: int) -> Option<Failure> {
    if !within(g.centroid, tol) {
        Some(Failure::Config(far_centre_text(what, k as nat, shown(g.centroid), shown(tol))))
    } else if !within(g.area, tol) {
        Some(Failure::Config(odd_area_text(what, k as nat, shown(g.area), shown(tol))))
    } else if !within(g.normal, tol) {
        Some(Failure::Config(odd_normal_text(what, k as nat, shown(g.normal), shown(tol))))
    } else {
        None
    }
}

/// The first face from `k` on whose gap is too wide.
pub open spec fn gap_faults(what: Seq<char>, g: Seq<FaceGap>, tol: Scalar, k: int) -> Option<
    Failure,
>
    decreases g.len() - k,
{
    if k < 0 || k >= g.len() {
        None
    } else {
        match gap_fault(what, g[k], tol, k) {
            Some(f) => Some(f),
            None => gap_faults(what, g, tol, k + 1),
        }
    }
}

/// The larger of two numbers.
pub open spec fn larger(a: Scalar, b: Scalar) -> Scalar {
    if a.less(b) {
        b
    } else {
        a
    }
}

/// The worst gaps of the first `n` faces, at least 0.
pub open spec fn worst(g: Seq<FaceGap>, n: int) -> FaceGap
    decreases n,
{
    if n <= 0 {
        FaceGap {
            centroid: Scalar { bits: 0 },
            area: Scalar { bits: 0 },
            normal: Scalar { bits: 0 },
        }
    } else {
        let w = worst(g, n - 1);
        FaceGap {
            centroid: larger(w.centroid, g[n - 1].centroid),
            area: larger(w.area, g[n - 1].area),
            normal: larger(w.normal, g[n - 1].normal),
        }
    }
}

/// What is wrong with interface `i`.
pub open spec fn meeting_fault(
    e: InterfaceEntry,
    r: Seq<LoadedRegion>,
    g: Seq<FaceGap>,
    i: int,
) -> Option<Failure> {
    let what = interface_name_text(i as nat, e.regions[0]@, e.regions[1]@);
    match paired(what, e, r) {
        Err(f) => Some(f),
        Ok(p) => gap_faults(what, g, e.tolerance, 0),
    }
}

/// The first thing wrong from interface `i` on.
pub open spec fn layout_fault(
    e: Seq<InterfaceEntry>,
    r: Seq<LoadedRegion>,
    g: Seq<Vec<FaceGap>>,
    i: int,
) -> Option<Failure>
    decreases e.len() - i,
{
    if i < 0 || i >= e.len() {
        None
    } else {
        match meeting_fault(e[i], r, g[i]@, i) {
            Some(f) => Some(f),
            None => layout_fault(e, r, g, i + 1),
        }
    }
}

/// What is asked for where two patches meet, and how well they meet.
pub open spec fn meets(
    q: InterfaceRequest,
    c: PairingCheck,
    e: InterfaceEntry,
    r: Seq<LoadedRegion>,
    g: Seq<FaceGap>,
    i: int,
) -> bool {
    let what = interface_name_text(i as nat, e.regions[0]@, e.regions[1]@);
    let p = paired(what, e, r)->Ok_0;
    let w = worst(g, g.len() as int);
    &&& q.region_a == p.region_a && q.region_b == p.region_b
    &&& q.patch_a@ == e.patches[0]@ && q.patch_b@ == e.patches[1]@
    &&& q.r_c == (Scalar { bits: 0 })
    &&& c.name@ == e.regions[0]@ + " <-> "@ + e.regions[1]@
    &&& c.n_faces == p.size
    &&& c.worst_centroid == w.centroid && c.worst_area == w.area && c.worst_normal == w.normal
}

/// The gaps of an interface are those of its faces, one for one.
pub open spec fn gaps_fit(
    e: Seq<InterfaceEntry>,
    r: Seq<LoadedRegion>,
    g: Seq<Vec<FaceGap>>,
) -> bool {
    &&& g.len() == e.len()
    &&& forall|i: int|
        #![trigger g[i]]
        0 <= i < e.len() ==> match paired(
            interface_name_text(i as nat, e[i].regions[0]@, e[i].regions[1]@),
            e[i],
            r,
        ) {
            Ok(p) => g[i].len() == p.size,
            Err(_) => true,
        }
}

fn find_region(r: &Vec<LoadedRegion>, name: &str) -> (i: usize)
    ensures
        i == first(r.len() as int, 0, region_of_name(r@, name@)),
        i <= r.len(),
{
    let mut i: usize = 0;
    while i < r.len()
        invariant
            i <= r.len(),
            first(r.len() as int, 0, region_of_name(r@, name@)) == first(
                r.len() as int,
                i as int,
                region_of_name(r@, name@),
            ),
        decreases r.len() - i,
    {
        if same(&r[i].name, name) {
            return i;
        }
        i = i + 1;
    }
    i
}

/// Where a patch of a region is; the refusal lists the patches that there are.
fn patch_of(what: &str, r: &LoadedRegion, name: &str) -> (k: Result<usize, Error>)
    ensures
        match (k, patch_in(what@, *r, name@)) {
            (Ok(a), Ok(b)) => a == b && a < r.mesh.patches.len(),
            (Err(e), Err(f)) => e@ == f,
            _ => false,
        },
{
    let p = &r.mesh.patches;
    let ghost pv = patches_of(p@);
    let k: usize = crate::polymesh::find_patch(p, name);
    if k < p.len() {
        return Ok(k);
    }
    let mut names: Vec<String> = Vec::new();
    let mut i: usize = 0;
    while i < p.len()
        invariant
            i <= p.len(),
            p@ == r.mesh.patches@,
            pv == patches_of(p@),
            texts(names@) == quoted_names(pv).take(i as int),
        decreases p.len() - i,
    {
        let q = debug_of(&p[i].name);
        proof {
            assert(pv[i as int].name == p[i as int].name@);
            lemma_texts_push(names@, q);
        }
        names.push(q);
        i = i + 1;
        assert(texts(names@) =~= quoted_names(pv).take(i as int));
    }
    assert(texts(names@) =~= quoted_names(pv));
    let all = join_from(&names, 0, ", ");
    assert(texts(names@).skip(0) =~= texts(names@));
    Err(Error::Config(no_patch_message(what, name, &r.name, &all)))
}

fn pair_up(what: &str, e: &InterfaceEntry, r: &Vec<LoadedRegion>) -> (p: Result<PatchPair, Error>)
    ensures
        match (p, paired(what@, *e, r@)) {
            (Ok(a), Ok(b)) => a == b,
            (Err(x), Err(f)) => x@ == f,
            _ => false,
        },
{
    let a: usize = find_region(r, &e.regions[0]);
    if a >= r.len() {
        return Err(Error::Config(no_region_message(what, &e.regions[0])));
    }
    let b: usize = find_region(r, &e.regions[1]);
    if b >= r.len() {
        return Err(Error::Config(no_region_message(what, &e.regions[1])));
    }
    let i: usize = match patch_of(what, &r[a], &e.patches[0]) {
        Ok(i) => i,
        Err(x) => {
            return Err(x);
        },
    };
    let j: usize = match patch_of(what, &r[b], &e.patches[1]) {
        Ok(j) => j,
        Err(x) => {
            return Err(x);
        },
    };
    let p = &r[a].mesh.patches[i];
    let q = &r[b].mesh.patches[j];
    if !same(&p.patch_type, "patch") || !same(&q.patch_type, "patch") {
        return Err(
            Error::Config(bad_type_message(what, &p.name, &p.patch_type, &q.name, &q.patch_type)),
        );
    }
    let said: bool = match e.faces {
        Some(n) => n != p.size,
        None => false,
    };
    if p.size != q.size || said {
        let t = said_message(e.faces);
        return Err(Error::Config(odd_faces_message(what, p.size, q.size, &t)));
    }
    Ok(
        PatchPair {
            region_a: a,
            region_b: b,
            start_a: p.start,
            start_b: q.start,
            size: p.size,
        },
    )
}

/// Interfaces pair what they name: each side is the patch of the name that stands first or
/// second, of the region of the name that stands first or second, and the two have as many
/// faces.
pub proof fn interfaces_pair_what_they_name(what: Seq<char>, e: InterfaceEntry, r: Seq<LoadedRegion>)
    requires
        paired(what, e, r) is Ok,
        r.len() <= usize::MAX,
    ensures
        ({
            let p = paired(what, e, r)->Ok_0;
            &&& p.region_a < r.len() && r[p.region_a as int].name@ == e.regions[0]@
            &&& p.region_b < r.len() && r[p.region_b as int].name@ == e.regions[1]@
            &&& has_patch(r[p.region_a as int], e.patches[0]@, p.start_a, p.size)
            &&& has_patch(r[p.region_b as int], e.patches[1]@, p.start_b, p.size)
            &&& e.faces matches Some(n) ==> n == p.size
        }),
{
    let a = side_of(what, r, e.regions[0]@)->Ok_0;
    let b = side_of(what, r, e.regions[1]@)->Ok_0;
    crate::list::lemma_first(r.len() as int, 0, region_of_name(r, e.regions[0]@));
    crate::list::lemma_first(r.len() as int, 0, region_of_name(r, e.regions[1]@));
    lemma_patch_in(what, r[a], e.patches[0]@);
    lemma_patch_in(what, r[b], e.patches[1]@);
}

/// A region has a plain patch of a name, with these faces.
pub open spec fn has_patch(r: LoadedRegion, name: Seq<char>, start: usize, size: usize) -> bool {
    exists|i: int|
        0 <= i < r.mesh.patches.len() && (#[trigger] r.mesh.patches@[i]).name@ == name
            && r.mesh.patches@[i].patch_type@ == "patch"@ && r.mesh.patches@[i].start == start
            && r.mesh.patches@[i].size == size
}

proof fn lemma_patch_in(what: Seq<char>, r: LoadedRegion, name: Seq<char>)
    requires
        patch_in(what, r, name) is Ok,
    ensures
        ({
            let i = patch_in(what, r, name)->Ok_0;
            0 <= i < r.mesh.patches.len() && r.mesh.patches@[i].name@ == name
        }),
{
    let p = patches_of(r.mesh.patches@);
    crate::list::lemma_first(p.len() as int, 0, |i: int| p[i].name == name);
}

/// The patches of interface `i`.
pub fn pair_patches(m: &RegionsManifest, r: &Vec<LoadedRegion>, i: usize) -> (p: Result<
    PatchPair,
    Error,
>)
    requires
        i < m.interfaces.len(),
    ensures
        match (
            p,
            paired(
                interface_name_text(
                    i as nat,
                    m.interfaces[i as int].regions[0]@,
                    m.interfaces[i as int].regions[1]@,
                ),
                m.interfaces[i as int],
                r@,
            ),
        ) {
            (Ok(a), Ok(b)) => a == b,
            (Err(x), Err(f)) => x@ == f,
            _ => false,
        },
{
    let e = &m.interfaces[i];
    let what = interface_name_message(i, &e.regions[0], &e.regions[1]);
    pair_up(&what, e, r)
}

fn is_within(d: Scalar, tol: Scalar) -> (r: bool)
    ensures
        r == within(d, tol),
{
    !d.nan() && !tol.nan() && !tol.below(d)
}

fn check_gaps(what: &str, g: &Vec<FaceGap>, tol: Scalar) -> (r: Result<FaceGap, Error>)
    ensures
        match (r, gap_faults(what@, g@, tol, 0)) {
            (Ok(w), None) => w == worst(g@, g.len() as int),
            (Err(e), Some(f)) => e@ == f,
            _ => false,
        },
{
    let nil = Scalar { bits: 0 };
    let mut w = FaceGap { centroid: nil, area: nil, normal: nil };
    let mut k: usize = 0;
    while k < g.len()
        invariant
            k <= g.len(),
            w == worst(g@, k as int),
            gap_faults(what@, g@, tol, 0) == gap_faults(what@, g@, tol, k as int),
        decreases g.len() - k,
    {
        let x: FaceGap = g[k];
        if !is_within(x.centroid, tol) {
            let d = show(x.centroid);
            let t = show(tol);
            return Err(Error::Config(far_centre_message(what, k, &d, &t)));
        }
        if !is_within(x.area, tol) {
            let d = show(x.area);
            let t = show(tol);
            return Err(Error::Config(odd_area_message(what, k, &d, &t)));
        }
        if !is_within(x.normal, tol) {
            let d = show(x.normal);
            let t = show(tol);
            return Err(Error::Config(odd_normal_message(what, k, &d, &t)));
        }
        w = FaceGap {
            centroid: take_larger(w.centroid, x.centroid),
            area: take_larger(w.area, x.area),
            normal: take_larger(w.normal, x.normal),
        };
        k = k + 1;
    }
    Ok(w)
}

fn take_larger(a: Scalar, b: Scalar) -> (r: Scalar)
    ensures
        r == larger(a, b),
{
    if a.below(b) {
        b
    } else {
        a
    }
}

/// Hold a layout to its interfaces: both patches are there, of type `patch`, of one
/// size, and face `k` of one is face `k` of the other within the tolerance.
///
/// `gaps` holds what was measured of every pair of faces.
pub fn check_layout(m: &RegionsManifest, r: &Vec<LoadedRegion>, gaps: &Vec<Vec<FaceGap>>) -> (res:
    Result<(Vec<InterfaceRequest>, Vec<PairingCheck>), Error>)
    requires
        gaps_fit(m.interfaces@, r@, gaps@),
    ensures
        match (res, layout_fault(m.interfaces@, r@, gaps@, 0)) {
            (Ok((q, c)), None) => {
                &&& q.len() == m.interfaces.len()
                &&& c.len() == m.interfaces.len()
                &&& forall|i: int|
                    #![trigger q[i]]
                    0 <= i < q.len() ==> meets(
                        q[i],
                        c[i],
                        m.interfaces[i],
                        r@,
                        gaps[i]@,
                        i,
                    )
            },
            (Err(e), Some(f)) => e@ == f,
            _ => false,
        },
{
    let mut reqs: Vec<InterfaceRequest> = Vec::new();
    let mut pairing: Vec<PairingCheck> = Vec::new();
    let mut i: usize = 0;
    while i < m.interfaces.len()
        invariant
            i <= m.interfaces.len(),
            gaps.len() == m.interfaces.len(),
            reqs.len() == i,
            pairing.len() == i,
            layout_fault(m.interfaces@, r@, gaps@, 0) == layout_fault(
                m.interfaces@,
                r@,
                gaps@,
                i as int,
            ),
            forall|k: int|
                #![trigger reqs[k]]
                0 <= k < i ==> meets(reqs[k], pairing[k], m.interfaces[k], r@, gaps[k]@, k),
        decreases m.interfaces.len() - i,
    {
        let e = &m.interfaces[i];
        let what = interface_name_message(i, &e.regions[0], &e.regions[1]);
        let p: PatchPair = match pair_up(&what, e, r) {
            Ok(p) => p,
            Err(x) => {
                return Err(x);
            },
        };
        let w: FaceGap = match check_gaps(&what, &gaps[i], e.tolerance) {
            Ok(w) => w,
            Err(x) => {
                return Err(x);
            },
        };
        let mut name = copy(&e.regions[0]);
        push_text(&mut name, " <-> ");
        push_text(&mut name, &e.regions[1]);
        let q = InterfaceRequest {
            region_a: p.region_a,
            patch_a: copy(&e.patches[0]),
            region_b: p.region_b,
            patch_b: copy(&e.patches[1]),
            r_c: Scalar { bits: 0 },
        };
        let c = PairingCheck {
            name,
            n_faces: p.size,
            worst_centroid: w.centroid,
            worst_area: w.area,
            worst_normal: w.normal,
        };
        assert(meets(q, c, m.interfaces[i as int], r@, gaps[i as int]@, i as int));
        reqs.push(q);
        pairing.push(c);
        i = i + 1;
    }
    Ok((reqs, pairing))
}

// --------------------------------------------------------------------------
//  The manifest of a split
// --------------------------------------------------------------------------
pub open spec fn kind_count_text(regions: nat, kinds: nat) -> Seq<char> {
    "write_layout: "@
        + decimal(regions)
        + " regions but "@
        + decimal(kinds)
        + " kinds"@
}

pub(crate) fn kind_count_message(regions: usize, kinds: usize) -> (r: String)
    ensures
        r@ == kind_count_text(regions as nat, kinds as nat),
{
    let mut s = copy("write_layout: ");
    push_decimal(&mut s, regions as u64);
    push_text(&mut s, " regions but ");
    push_decimal(&mut s, kinds as u64);
    push_text(&mut s, " kinds");
    s
}

/// The first name that cannot be written, from `i` on.
pub open spec fn name_faults(names: Seq<Seq<char>>, i: int) -> Option<Failure>
    decreases names.len() - i,
{
    if i < 0 || i >= names.len() {
        None
    } else {
        match name_fault(names[i], "region"@) {
            Some(f) => Some(f),
            None => name_faults(names, i + 1),
        }
    }
}

/// Why the manifest of a layout cannot be written, if it cannot.
pub open spec fn layout_names_fault(names: Seq<Seq<char>>, kinds: nat) -> Option<Failure> {
    if names.len() != kinds {
        Some(Failure::Config(kind_count_text(names.len(), kinds)))
    } else {
        name_faults(names, 0)
    }
}

/// The entry of a region.
pub open spec fn enters(e: RegionEntry, name: Seq<char>, kind: RegionKind) -> bool {
    &&& e.name@ == name
    &&& e.kind@ == kind_word(kind)
    &&& e.poly_mesh@ == name + "/polyMesh"@
    &&& e.material is None
}

/// The entry of an interface.
pub open spec fn joins(e: InterfaceEntry, s: SplitInterface, names: Seq<Seq<char>>) -> bool {
    &&& e.regions[0]@ == names[s.region_a as int]
    &&& e.regions[1]@ == names[s.region_b as int]
    &&& e.patches[0]@ == s.patch_a@
    &&& e.patches[1]@ == s.patch_b@
    &&& e.faces == Some(s.n_faces)
    &&& e.tolerance == (Scalar { bits: DEFAULT_TOLERANCE })
}

/// A manifest that holds these regions and interfaces, in order.
pub open spec fn holds_layout(
    m: RegionsManifest,
    names: Seq<Seq<char>>,
    kinds: Seq<RegionKind>,
    interfaces: Seq<SplitInterface>,
) -> bool {
    &&& m.version == 1
    &&& m.units@ == "m"@
    &&& m.regions.len() == names.len()
    &&& forall|i: int|
        0 <= i < names.len() ==> enters(#[trigger] m.regions[i], names[i], kinds[i])
    &&& m.interfaces.len() == interfaces.len()
    &&& forall|i: int|
        0 <= i < interfaces.len() ==> joins(#[trigger] m.interfaces[i], interfaces[i], names)
}

/// Does an interface join two regions, under the names that a split gives its patches?
pub open spec fn is_joint(s: SplitInterface, names: Seq<Seq<char>>) -> bool {
    let a = names[s.region_a as int];
    let b = names[s.region_b as int];
    &&& s.region_a < names.len()
    &&& s.region_b < names.len()
    &&& s.region_a != s.region_b
    &&& s.patch_a@ == link_name(a, b)
    &&& s.patch_b@ == link_name(b, a)
}

/// The manifest that is written of a layout is one that is read: its names differ and
/// can be written, only the first region may be a fluid, and its interfaces are named
/// as a split names them.
pub proof fn written_layouts_are_read(
    what: Seq<char>,
    m: RegionsManifest,
    names: Seq<Seq<char>>,
    kinds: Seq<RegionKind>,
    interfaces: Seq<SplitInterface>,
)
    requires
        holds_layout(m, names, kinds, interfaces),
        layout_names_fault(names, kinds.len()) is None,
        forall|i: int, j: int| 0 <= i < j < names.len() ==> #[trigger] names[i] != #[trigger] names[j],
        forall|i: int| 0 < i < kinds.len() ==> (#[trigger] kinds[i]) is Solid,
        forall|i: int| 0 <= i < interfaces.len() ==> is_joint(#[trigger] interfaces[i], names),
    ensures
        manifest_fault(what, m) is None,
{
    lemma_regions_are_read(what, m, names, kinds, interfaces, 0);
    lemma_interfaces_are_read(what, m, names, kinds, interfaces, 0);
    let r = m.regions@;
    let p = fluid_in(r);
    kind_words_differ();
    assert forall|i: int| 0 < i < r.len() implies !#[trigger] p(i) by {
        assert(enters(m.regions[i], names[i], kinds[i]));
        assert(kinds[i] is Solid);
    }
    let n = r.len() as int;
    if n > 0 {
        lemma_first_none(n, 1, p);
        if !p(0) {
            assert(first(n, 0, p) == first(n, 1, p));
        }
    }
}

proof fn kind_words_differ()
    ensures
        "fluid"@ != "solid"@,
{
    reveal_strlit("fluid");
    reveal_strlit("solid");
    assert("fluid"@[0] == 'f' && "solid"@[0] == 's');
}

proof fn lemma_first_none(n: int, i: int, p: spec_fn(int) -> bool)
    requires
        i <= n,
        forall|k: int| i <= k < n ==> !#[trigger] p(k),
    ensures
        first(n, i, p) == n,
    decreases n - i,
{
    if i < n {
        assert(!p(i));
        lemma_first_none(n, i + 1, p);
    }
}

proof fn lemma_names_are_good(names: Seq<Seq<char>>, i: int, k: int)
    requires
        0 <= i <= k < names.len(),
        name_faults(names, i) is None,
    ensures
        name_fault(names[k], "region"@) is None,
    decreases k - i,
{
    if i < k {
        lemma_names_are_good(names, i + 1, k);
    }
}

proof fn lemma_regions_are_read(
    what: Seq<char>,
    m: RegionsManifest,
    names: Seq<Seq<char>>,
    kinds: Seq<RegionKind>,
    interfaces: Seq<SplitInterface>,
    i: int,
)
    requires
        holds_layout(m, names, kinds, interfaces),
        layout_names_fault(names, kinds.len()) is None,
        forall|i: int, j: int| 0 <= i < j < names.len() ==> #[trigger] names[i] != #[trigger] names[j],
        0 <= i <= names.len(),
    ensures
        region_faults(what, m.regions@, i) is None,
    decreases names.len() - i,
{
    if i < names.len() {
        lemma_regions_are_read(what, m, names, kinds, interfaces, i + 1);
        lemma_names_are_good(names, 0, i);
        assert(enters(m.regions[i], names[i], kinds[i]));
        kind_words_read_back(kinds[i]);
        if declared(m.regions@, i, names[i]) {
            let k = choose|k: int| 0 <= k < i && (#[trigger] m.regions@[k]).name@ == names[i];
            assert(enters(m.regions[k], names[k], kinds[k]));
            assert(names[k] != names[i]);
        }
    }
}

proof fn lemma_interfaces_are_read(
    what: Seq<char>,
    m: RegionsManifest,
    names: Seq<Seq<char>>,
    kinds: Seq<RegionKind>,
    interfaces: Seq<SplitInterface>,
    i: int,
)
    requires
        holds_layout(m, names, kinds, interfaces),
        forall|i: int, j: int| 0 <= i < j < names.len() ==> #[trigger] names[i] != #[trigger] names[j],
        forall|i: int| 0 <= i < interfaces.len() ==> is_joint(#[trigger] interfaces[i], names),
        0 <= i <= interfaces.len(),
    ensures
        interface_faults(what, m.regions@, m.interfaces@, i) is None,
    decreases interfaces.len() - i,
{
    if i < interfaces.len() {
        lemma_interfaces_are_read(what, m, names, kinds, interfaces, i + 1);
        let e = m.interfaces[i];
        let s = interfaces[i];
        assert(joins(m.interfaces[i], s, names));
        assert(is_joint(s, names));
        let a = s.region_a as int;
        let b = s.region_b as int;
        assert(enters(m.regions[a], names[a], kinds[a]));
        assert(enters(m.regions[b], names[b], kinds[b]));
        assert(m.regions@[a].name@ == names[a] && m.regions@[b].name@ == names[b]);
        if a < b {
            assert(names[a] != names[b]);
        } else {
            assert(names[b] != names[a]);
        }
        lemma_scaled_mono(0, DEFAULT_TOLERANCE as nat);
        assert((Scalar { bits: 0 }).less(e.tolerance));
    }
}

pub open spec fn existing_layout_text(path: Seq<char>) -> Seq<char> {
    path
        + " already exists - refusing to overwrite an existing layout; write to a fresh directory"@
}

/// The failure where a layout would be written over another.
pub fn existing_layout(path: &str) -> (e: Error)
    ensures
        e@ == Failure::Config(existing_layout_text(path@)),
{
    let mut s = copy(path);
    push_text(
        &mut s,
        " already exists - refusing to overwrite an existing layout; write to a fresh directory",
    );
    Error::Config(s)
}

/// The manifest of a layout: its regions in order, each in a directory of its
/// name, and its interfaces.
pub fn layout_manifest(
    names: &Vec<String>,
    kinds: &Vec<RegionKind>,
    interfaces: &Vec<SplitInterface>,
    source: Option<String>,
) -> (r: Result<RegionsManifest, Error>)
    requires
        forall|i: int| 0 <= i < names.len() ==> (#[trigger] names[i])@.len() < usize::MAX,
        forall|i: int|
            0 <= i < interfaces.len() ==> (#[trigger] interfaces[i]).region_a < names.len()
                && interfaces[i].region_b < names.len(),
    ensures
        match (r, layout_names_fault(texts(names@), kinds@.len())) {
            (Ok(m), None) => m.source == source && holds_layout(
                m,
                texts(names@),
                kinds@,
                interfaces@,
            ),
            (Err(e), Some(f)) => e@ == f,
            _ => false,
        },
{
    let ghost nv = texts(names@);
    if kinds.len() != names.len() {
        return Err(Error::Config(kind_count_message(names.len(), kinds.len())));
    }
    let mut regions: Vec<RegionEntry> = Vec::new();
    let mut i: usize = 0;
    while i < names.len()
        invariant
            i <= names.len() == kinds.len(),
            nv == texts(names@),
            forall|i: int| 0 <= i < names.len() ==> (#[trigger] names[i])@.len() < usize::MAX,
            name_faults(nv, 0) == name_faults(nv, i as int),
            regions.len() == i,
            forall|k: int|
                0 <= k < i ==> enters(#[trigger] regions[k], names[k]@, kinds[k]),
        decreases names.len() - i,
    {
        assert(nv[i as int] == names[i as int]@);
        match check_patch_name(&names[i], "region") {
            Ok(_) => {},
            Err(e) => {
                return Err(e);
            },
        }
        let mut path = copy(&names[i]);
        push_text(&mut path, "/polyMesh");
        regions.push(
            RegionEntry {
                name: copy(&names[i]),
                kind: copy(kind_str(kinds[i])),
                poly_mesh: path,
                material: None,
            },
        );
        i = i + 1;
    }
    let mut out: Vec<InterfaceEntry> = Vec::new();
    let mut k: usize = 0;
    while k < interfaces.len()
        invariant
            k <= interfaces.len(),
            nv == texts(names@),
            out.len() == k,
            forall|i: int|
                0 <= i < interfaces.len() ==> (#[trigger] interfaces[i]).region_a < names.len()
                    && interfaces[i].region_b < names.len(),
            forall|j: int| 0 <= j < k ==> joins(#[trigger] out[j], interfaces[j], nv),
        decreases interfaces.len() - k,
    {
        let si = &interfaces[k];
        assert(nv[si.region_a as int] == names[si.region_a as int]@);
        assert(nv[si.region_b as int] == names[si.region_b as int]@);
        out.push(
            InterfaceEntry {
                regions: [copy(&names[si.region_a]), copy(&names[si.region_b])],
                patches: [copy(&si.patch_a), copy(&si.patch_b)],
                faces: Some(si.n_faces),
                tolerance: Scalar { bits: DEFAULT_TOLERANCE },
            },
        );
        k = k + 1;
    }
    Ok(RegionsManifest { version: 1, units: copy("m"), regions, interfaces: out, source })
}

} // verus!
