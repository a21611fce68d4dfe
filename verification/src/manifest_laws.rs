//! What a manifest that is accepted says, and what a layout that is accepted holds.

use vstd::prelude::*;

use crate::list::{first, lemma_first};
use crate::manifest::{
    climbs, declared, fluid_in, gap_fault, gap_faults, interface_fault, interface_faults,
    is_separator, larger, layout_fault, manifest_fault, meeting_fault, region_fault,
    region_faults, strays, within, worst, FaceGap, InterfaceEntry, LoadedRegion, RegionEntry,
    RegionsManifest,
};
use crate::scalar::Scalar;

verus! {

proof fn lemma_regions(what: Seq<char>, r: Seq<RegionEntry>, i: int, k: int)
    requires
        0 <= i <= k < r.len(),
        region_faults(what, r, i) is None,
    ensures
        region_fault(what, r, k) is None,
    decreases k - i,
{
    if i < k {
        lemma_regions(what, r, i + 1, k);
    }
}

proof fn lemma_interfaces(
    what: Seq<char>,
    r: Seq<RegionEntry>,
    e: Seq<InterfaceEntry>,
    i: int,
    k: int,
)
    requires
        0 <= i <= k < e.len(),
        interface_faults(what, r, e, i) is None,
    ensures
        interface_fault(what, r, e[k], k) is None,
    decreases k - i,
{
    if i < k {
        lemma_interfaces(what, r, e, i + 1, k);
    }
}

/// An accepted manifest is of the first version and in metres.
pub proof fn accepted_manifests_are_in_metres(what: Seq<char>, m: RegionsManifest)
    requires
        manifest_fault(what, m) is None,
    ensures
        m.version == 1,
        m.units@ == "m"@,
{
}

/// Every region of an accepted manifest has a name of its own, and is a fluid or a solid; a
/// fluid names no material.
pub proof fn accepted_regions_have_their_own_names(what: Seq<char>, m: RegionsManifest, i: int, j: int)
    requires
        manifest_fault(what, m) is None,
        0 <= i < j < m.regions.len(),
    ensures
        m.regions@[i].name@ != m.regions@[j].name@,
        m.regions@[j].kind@ == "fluid"@ || m.regions@[j].kind@ == "solid"@,
        m.regions@[i].kind@ == "fluid"@ || m.regions@[i].kind@ == "solid"@,
        m.regions@[i].kind@ == "fluid"@ ==> m.regions@[i].material is None,
{
    lemma_regions(what, m.regions@, 0, i);
    lemma_regions(what, m.regions@, 0, j);
    if m.regions@[i].name@ == m.regions@[j].name@ {
        assert(declared(m.regions@, j, m.regions@[j].name@));
    }
}

/// If there is a fluid it is the first region, and the only one.
pub proof fn the_fluid_comes_first(what: Seq<char>, m: RegionsManifest, i: int)
    requires
        manifest_fault(what, m) is None,
        0 <= i < m.regions.len(),
        m.regions@[i].kind@ == "fluid"@,
    ensures
        i == 0,
{
    let r = m.regions@;
    let n = r.len() as int;
    lemma_first(n, 0, fluid_in(r));
    let a = first(n, 0, fluid_in(r));
    assert(fluid_in(r)(i));
    assert(a <= i);
    lemma_first(n, a + 1, fluid_in(r));
}

/// An interface of an accepted manifest joins two different regions of the manifest, by the
/// patches that are called after them, each from its own side; its tolerance is positive.
pub proof fn accepted_interfaces_join_two_regions(what: Seq<char>, m: RegionsManifest, i: int)
    requires
        manifest_fault(what, m) is None,
        0 <= i < m.interfaces.len(),
    ensures
        ({
            let e = m.interfaces@[i];
            let a = e.regions[0]@;
            let b = e.regions[1]@;
            &&& a != b
            &&& exists|k: int| 0 <= k < m.regions.len() && (#[trigger] m.regions@[k]).name@ == a
            &&& exists|k: int| 0 <= k < m.regions.len() && (#[trigger] m.regions@[k]).name@ == b
            &&& e.patches[0]@ == a + "_to_"@ + b
            &&& e.patches[1]@ == b + "_to_"@ + a
            &&& (Scalar { bits: 0 }).less(e.tolerance)
        }),
{
    lemma_interfaces(what, m.regions@, m.interfaces@, 0, i);
}

proof fn lemma_gaps(what: Seq<char>, g: Seq<FaceGap>, tol: Scalar, k: int, j: int)
    requires
        0 <= k <= j < g.len(),
        gap_faults(what, g, tol, k) is None,
    ensures
        gap_fault(what, g[j], tol, j) is None,
    decreases j - k,
{
    if k < j {
        lemma_gaps(what, g, tol, k + 1, j);
    }
}

proof fn lemma_layout(
    e: Seq<InterfaceEntry>,
    r: Seq<LoadedRegion>,
    g: Seq<Vec<FaceGap>>,
    i: int,
    k: int,
)
    requires
        0 <= i <= k < e.len(),
        layout_fault(e, r, g, i) is None,
    ensures
        meeting_fault(e[k], r, g[k]@, k) is None,
    decreases k - i,
{
    if i < k {
        lemma_layout(e, r, g, i + 1, k);
    }
}

/// In an accepted layout no two faces of an interface are further apart than its tolerance:
/// neither their centres, nor their areas, nor their normals.
pub proof fn accepted_layouts_meet(
    e: Seq<InterfaceEntry>,
    r: Seq<LoadedRegion>,
    g: Seq<Vec<FaceGap>>,
    i: int,
    j: int,
)
    requires
        layout_fault(e, r, g, 0) is None,
        0 <= i < e.len(),
        0 <= j < g[i].len(),
    ensures
        within(g[i]@[j].centroid, e[i].tolerance),
        within(g[i]@[j].area, e[i].tolerance),
        within(g[i]@[j].normal, e[i].tolerance),
{
    lemma_layout(e, r, g, 0, i);
    let what = crate::manifest::interface_name_text(
        i as nat,
        e[i].regions[0]@,
        e[i].regions[1]@,
    );
    lemma_gaps(what, g[i]@, e[i].tolerance, 0, j);
}

/// The worst gap is no less than any, of each of the three kinds.
pub proof fn the_worst_gap_is_the_largest(g: Seq<FaceGap>, n: int, i: int)
    requires
        0 <= i < n <= g.len(),
        forall|k: int|
            0 <= k < n ==> !(#[trigger] g[k]).centroid.is_nan() && !g[k].area.is_nan()
                && !g[k].normal.is_nan(),
    ensures
        !worst(g, n).centroid.less(g[i].centroid),
        !worst(g, n).area.less(g[i].area),
        !worst(g, n).normal.less(g[i].normal),
    decreases n,
{
    if i < n - 1 {
        the_worst_gap_is_the_largest(g, n - 1, i);
    }
    lemma_numbers(g, n - 1);
    let w = worst(g, n - 1);
    lemma_larger(w.centroid, g[n - 1].centroid, g[i].centroid);
    lemma_larger(w.area, g[n - 1].area, g[i].area);
    lemma_larger(w.normal, g[n - 1].normal, g[i].normal);
}

proof fn lemma_numbers(g: Seq<FaceGap>, n: int)
    requires
        0 <= n <= g.len(),
        forall|k: int|
            0 <= k < n ==> !(#[trigger] g[k]).centroid.is_nan() && !g[k].area.is_nan()
                && !g[k].normal.is_nan(),
    ensures
        !worst(g, n).centroid.is_nan(),
        !worst(g, n).area.is_nan(),
        !worst(g, n).normal.is_nan(),
    decreases n,
{
    if n > 0 {
        lemma_numbers(g, n - 1);
    }
}

proof fn lemma_larger(a: Scalar, b: Scalar, x: Scalar)
    requires
        !a.is_nan() && !b.is_nan() && !x.is_nan(),
        !a.less(x) || x == b,
    ensures
        !larger(a, b).less(x),
{
}

proof fn lemma_climbs(p: Seq<char>, i: int, j: int, backslash: bool)
    requires
        0 <= i <= j,
        j + 1 < p.len(),
        p[j] == '.' && p[j + 1] == '.',
        j == 0 || is_separator(p[j - 1], backslash),
        j + 2 >= p.len() || is_separator(p[j + 2], backslash),
    ensures
        climbs(p, i, backslash),
    decreases j - i,
{
    if i < j {
        lemma_climbs(p, i + 1, j, backslash);
    }
}

/// A path that does not stray begins at no root and has no part `..`: it stays below where
/// it is told from.
pub proof fn accepted_paths_stay_below(p: Seq<char>, backslash: bool, j: int)
    requires
        !strays(p, backslash),
        0 <= j,
        j + 1 < p.len(),
        j == 0 || p[j - 1] == '/',
        j + 2 >= p.len() || p[j + 2] == '/',
    ensures
        p[0] != '/',
        !(p[j] == '.' && p[j + 1] == '.'),
{
    if p[j] == '.' && p[j + 1] == '.' {
        lemma_climbs(p, 0, j, backslash);
    }
}

} // verus!
