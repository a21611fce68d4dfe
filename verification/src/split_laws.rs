//! What a split keeps of a mesh: every face comes back in the region of its cells, with
//! the same outline, under the same patch, and nothing else does.

use vstd::prelude::*;

use crate::list::{bucket, bucket_is_complete, flat};
use crate::mesh::{Label, Patch, PatchKind, Vec3};
use crate::polymesh::{cell_count, RawMesh};
use crate::regions::{
    distinct, inner_faces, inner_keys, kept, kept_sides, key_order_sorts, lemma_bucket_len,
    lemma_cells_in_range, lemma_distinct_bound, lemma_distinct_is, lemma_pair_is,
    lemma_pair_number, link_keys, link_name, link_sides, linked, links_pair_by_number, loops_of,
    meetings, meetings_with, own_sides, pair_number, patch_keys, rank_of, region, region_sides,
    regions_keep_the_points, side_cell, side_loop, sound, used_points, with_patch, Layout,
    Meeting, Zone,
};

verus! {

/// Where the vertices of a face lie, in order.
pub open spec fn outline(m: RawMesh, f: int) -> Seq<Vec3> {
    m.faces[f].map_values(|v: Label| m.points[v as int])
}

/// The same outline from the other side: the first vertex stays, the others turn round.
pub open spec fn turned(s: Seq<Vec3>) -> Seq<Vec3> {
    Seq::new(s.len(), |i: int| s[if i == 0 { 0 } else { s.len() - i }])
}

/// A mesh whose cells are shared out among some zones.
pub open spec fn shared_out(m: RawMesh, zones: Seq<Zone>, t: Seq<usize>) -> bool {
    &&& sound(m)
    &&& t.len() == cell_count(m)
    &&& zones.len() < usize::MAX
    &&& zones.len() * zones.len() <= usize::MAX
    &&& forall|c: int| 0 <= c < t.len() ==> #[trigger] t[c] < zones.len()
}

/// Face `g` of a mesh stands in patch `i`, at place `k`.
pub open spec fn stands_in(r: RawMesh, g: int, i: int, k: int) -> bool {
    &&& 0 <= i < r.patches.len()
    &&& 0 <= k < r.patches[i].size
    &&& g == r.neighbour.len() + r.patches[i].start + k
    &&& 0 <= g < r.faces.len()
}

/// A patch is called as another one, and is of the same type and kind.
pub open spec fn alike(p: Patch, q: Patch) -> bool {
    p.name == q.name && p.patch_type == q.patch_type && p.kind == q.kind
}

/// The patch of a region where it meets another.
pub open spec fn is_interface(p: Patch, here: Zone, there: Zone) -> bool {
    &&& p.name == here.name + "_to_"@ + there.name
    &&& p.patch_type == "patch"@
    &&& p.kind == PatchKind::Generic
}

// --------------------------------------------------------------------------
//  Sides
// --------------------------------------------------------------------------
spec fn has_side(m: RawMesh, x: usize) -> bool {
    x / 2 < m.faces.len() && (x % 2 == 1 ==> x / 2 < m.neighbour.len())
}

spec fn have_sides(m: RawMesh, s: Seq<usize>) -> bool {
    forall|i: int| 0 <= i < s.len() ==> has_side(m, #[trigger] s[i])
}

proof fn lemma_inner(m: RawMesh, zones: Seq<Zone>, t: Seq<usize>, z: int)
    requires
        shared_out(m, zones, t),
        0 <= z < zones.len(),
    ensures
        ({
            let n = zones.len() as usize;
            let s = inner_faces(m, t, n, z);
            &&& forall|i: int|
                0 <= i < s.len() ==> #[trigger] s[i] < m.neighbour.len() && t[m.owner[s[i] as int] as int]
                    == z && t[m.neighbour[s[i] as int] as int] == z
            &&& forall|f: int|
                0 <= f < m.neighbour.len() && t[m.owner[f] as int] == z && t[m.neighbour[f] as int] == z
                    ==> #[trigger] s.contains(f as usize)
        }),
{
    broadcast use vstd::seq_lib::group_to_multiset_ensures;

    let n = zones.len() as usize;
    let keys = inner_keys(m, t, n);
    let b = bucket(keys, z, m.neighbour.len() as int);
    let s = inner_faces(m, t, n, z);
    lemma_cells_in_range(m);
    key_order_sorts(m, t, b);
    bucket_is_complete(keys, z, m.neighbour.len() as int);
    assert forall|i: int| 0 <= i < s.len() implies #[trigger] s[i] < m.neighbour.len()
        && t[m.owner[s[i] as int] as int] == z && t[m.neighbour[s[i] as int] as int] == z by {
        assert(s.contains(s[i]));
        assert(s.to_multiset().count(s[i]) > 0);
        assert(b.to_multiset().count(s[i]) > 0);
        assert(b.contains(s[i]));
        let k = choose|k: int| 0 <= k < b.len() && b[k] == s[i];
        assert(b[k] < m.neighbour.len());
        assert(keys[s[i] as int] == z);
    }
    assert forall|f: int|
        0 <= f < m.neighbour.len() && t[m.owner[f] as int] == z && t[m.neighbour[f] as int]
            == z implies #[trigger] s.contains(f as usize) by {
        assert(keys[f] == z);
        assert(b.contains(f as usize));
        assert(b.to_multiset().count(f as usize) > 0);
        assert(s.to_multiset().count(f as usize) > 0);
    }
}

proof fn lemma_kept_sides(m: RawMesh, t: Seq<usize>, k: int, z: int)
    requires
        sound(m),
        t.len() == cell_count(m),
        0 <= k < m.patches.len(),
    ensures
        ({
            let p = m.patches[k];
            let s = kept_sides(m, t, p, z);
            &&& have_sides(m, s)
            &&& forall|i: int|
                0 <= i < s.len() ==> {
                    let f = (#[trigger] s[i]) / 2;
                    &&& s[i] % 2 == 0
                    &&& m.neighbour.len() + p.start <= f < m.neighbour.len() + p.start + p.size
                    &&& t[m.owner[f as int] as int] == z
                }
            &&& forall|j: int|
                0 <= j < p.size && t[m.owner[m.neighbour.len() + p.start + j] as int] == z
                    ==> #[trigger] s.contains((2 * (m.neighbour.len() + p.start + j)) as usize)
        }),
{
    let p = m.patches[k];
    let keys = patch_keys(m, t, p);
    let b = bucket(keys, z, p.size);
    let s = kept_sides(m, t, p, z);
    bucket_is_complete(keys, z, p.size);
    assert forall|i: int| 0 <= i < s.len() implies {
        let f = (#[trigger] s[i]) / 2;
        &&& s[i] % 2 == 0
        &&& m.neighbour.len() + p.start <= f < m.neighbour.len() + p.start + p.size
        &&& t[m.owner[f as int] as int] == z
        &&& has_side(m, s[i])
    } by {
        assert(b[i] < p.size);
        assert(keys[b[i] as int] == z);
        assert(s[i] == 2 * (m.neighbour.len() + p.start + b[i]));
    }
    assert forall|j: int|
        0 <= j < p.size && t[m.owner[m.neighbour.len() + p.start + j] as int]
            == z implies #[trigger] s.contains((2 * (m.neighbour.len() + p.start + j)) as usize) by {
        assert(keys[j] == z);
        assert(b.contains(j as usize));
        let i = choose|i: int| 0 <= i < b.len() && b[i] == j as usize;
        assert(s[i] == (2 * (m.neighbour.len() + p.start + j)) as usize);
    }
}

proof fn lemma_link_sides(m: RawMesh, zones: Seq<Zone>, t: Seq<usize>, z: int, w: int)
    requires
        shared_out(m, zones, t),
        0 <= z < zones.len(),
        0 <= w < zones.len(),
        z != w,
    ensures
        ({
            let s = link_sides(m, t, zones.len() as usize, z, w);
            &&& have_sides(m, s)
            &&& forall|i: int|
                0 <= i < s.len() ==> {
                    let f = ((#[trigger] s[i]) / 2) as int;
                    &&& f < m.neighbour.len()
                    &&& s[i] % 2 == 0 ==> t[m.owner[f] as int] == z && t[m.neighbour[f] as int] == w
                    &&& s[i] % 2 == 1 ==> t[m.owner[f] as int] == w && t[m.neighbour[f] as int] == z
                }
            &&& forall|f: int|
                0 <= f < m.neighbour.len() && t[m.owner[f] as int] == z && t[m.neighbour[f] as int] == w
                    ==> #[trigger] s.contains((2 * f) as usize)
        }),
{
    let n = zones.len() as usize;
    let keys = link_keys(m, t, n);
    let at = pair_number(z, w, n as int);
    let b = bucket(keys, at, m.neighbour.len() as int);
    let s = link_sides(m, t, n, z, w);
    lemma_cells_in_range(m);
    lemma_pair_number(z, w, n as int);
    bucket_is_complete(keys, at, m.neighbour.len() as int);
    assert forall|i: int| 0 <= i < s.len() implies {
        let f = ((#[trigger] s[i]) / 2) as int;
        &&& f < m.neighbour.len()
        &&& s[i] % 2 == 0 ==> t[m.owner[f] as int] == z && t[m.neighbour[f] as int] == w
        &&& s[i] % 2 == 1 ==> t[m.owner[f] as int] == w && t[m.neighbour[f] as int] == z
        &&& has_side(m, s[i])
    } by {
        let f = b[i] as int;
        assert(b[i] < m.neighbour.len());
        assert(keys[f] == at);
        assert(0 <= m.owner[f] < cell_count(m));
        assert(0 <= m.neighbour[f] < cell_count(m));
        let p = t[m.owner[f] as int] as int;
        let q = t[m.neighbour[f] as int] as int;
        lemma_pair_number(p, q, n as int);
        lemma_pair_is(p, q, z, w, n as int);
        assert(s[i] == if p == z { (2 * b[i]) as usize } else { (2 * b[i] + 1) as usize });
    }
    assert forall|f: int|
        0 <= f < m.neighbour.len() && t[m.owner[f] as int] == z && t[m.neighbour[f] as int]
            == w implies #[trigger] s.contains((2 * f) as usize) by {
        assert(keys[f] == at as usize);
        assert(b.contains(f as usize));
        let i = choose|i: int| 0 <= i < b.len() && b[i] == f as usize;
        assert(s[i] == (2 * f) as usize);
    }
}

// --------------------------------------------------------------------------
//  Patches
// --------------------------------------------------------------------------
/// Patch `i` of a layout has these faces.
spec fn holds(l: Layout, i: int, s: Seq<usize>) -> bool {
    &&& 0 <= i < l.patches.len()
    &&& l.patches[i].size == s.len()
    &&& 0 <= l.patches[i].start
    &&& l.patches[i].start + s.len() <= l.sides.len()
    &&& l.sides.subrange(l.patches[i].start, l.patches[i].start + s.len()) == s
}

/// Patch `i` of some has faces, and stands behind the one before it.
pub open spec fn in_place(p: Seq<Patch>, i: int) -> bool {
    &&& p[i].size > 0
    &&& p[i].nbr_patch is None
    &&& p[i].start == if i == 0 {
        0
    } else {
        p[i - 1].start + p[i - 1].size
    }
}

/// The patches of a layout cover its faces one behind the other.
spec fn tiles(l: Layout) -> bool {
    &&& forall|i: int| 0 <= i < l.patches.len() ==> #[trigger] in_place(l.patches, i)
    &&& l.sides.len() == (if l.patches.len() == 0 {
        0
    } else {
        l.patches.last().start + l.patches.last().size
    })
}

proof fn lemma_starts(l: Layout, n: int)
    requires
        tiles(l),
        0 <= n <= l.patches.len(),
    ensures
        forall|i: int| 0 <= i < n ==> 0 <= (#[trigger] l.patches[i]).start,
    decreases n,
{
    if n > 0 {
        lemma_starts(l, n - 1);
        assert(in_place(l.patches, n - 1));
        if n > 1 {
            assert(in_place(l.patches, n - 2));
            assert(l.patches[n - 2].start >= 0);
        }
    }
}

proof fn lemma_with_patch(
    l: Layout,
    name: Seq<char>,
    patch_type: Seq<char>,
    kind: PatchKind,
    more: Seq<usize>,
)
    requires
        tiles(l),
    ensures
        ({
            let k = with_patch(l, name, patch_type, kind, more);
            &&& tiles(k)
            &&& forall|i: int| 0 <= i < l.patches.len() ==> #[trigger] k.patches[i] == l.patches[i]
            &&& k.patches.len() == l.patches.len() + (if more.len() == 0 {
                0int
            } else {
                1
            })
            &&& l.sides.len() <= k.sides.len()
            &&& k.sides.take(l.sides.len() as int) == l.sides
            &&& more.len() > 0 ==> holds(k, l.patches.len() as int, more) && k.patches.last().name
                == name && k.patches.last().patch_type == patch_type && k.patches.last().kind == kind
        }),
{
    let k = with_patch(l, name, patch_type, kind, more);
    assert(k.sides.take(l.sides.len() as int) =~= l.sides);
    lemma_starts(l, l.patches.len() as int);
    assert forall|i: int| 0 <= i < k.patches.len() implies #[trigger] in_place(k.patches, i) by {
        if i < l.patches.len() {
            assert(in_place(l.patches, i));
        }
    }
    if more.len() > 0 {
        let i = l.patches.len() as int;
        assert(k.sides.subrange(k.patches[i].start, k.patches[i].start + more.len()) =~= more);
    }
}

/// A patch that a layout has stays as it is where another one is added.
proof fn lemma_holds_on(l: Layout, k: Layout, i: int, s: Seq<usize>)
    requires
        holds(l, i, s),
        l.patches.len() <= k.patches.len(),
        k.patches[i] == l.patches[i],
        l.sides.len() <= k.sides.len(),
        k.sides.take(l.sides.len() as int) == l.sides,
    ensures
        holds(k, i, s),
{
    let a = l.patches[i].start;
    assert forall|j: int| 0 <= j < s.len() implies k.sides.subrange(a, a + s.len())[j] == s[j] by {
        assert(l.sides.subrange(a, a + s.len())[j] == l.sides[a + j]);
        assert(k.sides.take(l.sides.len() as int)[a + j] == k.sides[a + j]);
    }
    assert(k.sides.subrange(a, a + s.len()) =~= s);
}

/// Where patch `i` of what a zone keeps comes from.
spec fn is_kept(m: RawMesh, t: Seq<usize>, z: int, l: Layout, i: int, k: int) -> bool {
    &&& 0 <= k < m.patches.len()
    &&& alike(l.patches[i], m.patches[k])
    &&& holds(l, i, kept_sides(m, t, m.patches[k], z))
}

spec fn is_linked(m: RawMesh, zones: Seq<Zone>, t: Seq<usize>, z: int, l: Layout, i: int, w: int) -> bool {
    &&& 0 <= w < zones.len()
    &&& w != z
    &&& is_interface(l.patches[i], zones[z], zones[w])
    &&& holds(l, i, link_sides(m, t, zones.len() as usize, z, w))
}

spec fn has_source(m: RawMesh, zones: Seq<Zone>, t: Seq<usize>, z: int, l: Layout, i: int) -> bool {
    (exists|k: int| is_kept(m, t, z, l, i, k)) || (exists|w: int|
        is_linked(m, zones, t, z, l, i, w))
}

spec fn keeps_patch(m: RawMesh, t: Seq<usize>, z: int, l: Layout, k: int) -> bool {
    kept_sides(m, t, m.patches[k], z).len() > 0 ==> exists|i: int|
        0 <= i < l.patches.len() && is_kept(m, t, z, l, i, k)
}

spec fn keeps_link(m: RawMesh, zones: Seq<Zone>, t: Seq<usize>, z: int, l: Layout, w: int) -> bool {
    link_sides(m, t, zones.len() as usize, z, w).len() > 0 ==> exists|i: int|
        0 <= i < l.patches.len() && is_linked(m, zones, t, z, l, i, w)
}

proof fn lemma_kept(m: RawMesh, zones: Seq<Zone>, t: Seq<usize>, z: int, n: int)
    requires
        0 <= n <= m.patches.len(),
    ensures
        ({
            let l = kept(m, t, z, n);
            &&& tiles(l)
            &&& forall|i: int|
                0 <= i < l.patches.len() ==> #[trigger] has_source(m, zones, t, z, l, i)
            &&& forall|k: int| 0 <= k < n ==> #[trigger] keeps_patch(m, t, z, l, k)
        }),
    decreases n,
{
    if n > 0 {
        lemma_kept(m, zones, t, z, n - 1);
        let a = kept(m, t, z, n - 1);
        let l = kept(m, t, z, n);
        let p = m.patches[n - 1];
        let s = kept_sides(m, t, p, z);
        lemma_with_patch(a, p.name, p.patch_type, p.kind, s);
        if s.len() > 0 {
            assert(is_kept(m, t, z, l, a.patches.len() as int, n - 1));
        }
        lemma_layout_grows(m, zones, t, z, a, l);
        assert forall|i: int| 0 <= i < l.patches.len() implies #[trigger] has_source(
            m,
            zones,
            t,
            z,
            l,
            i,
        ) by {
            if i < a.patches.len() {
                assert(has_source(m, zones, t, z, a, i));
            }
        }
        assert forall|k: int| 0 <= k < n implies #[trigger] keeps_patch(m, t, z, l, k) by {
            if k < n - 1 {
                assert(keeps_patch(m, t, z, a, k));
            }
        }
    }
}

/// What holds of the patches of a layout holds where another one is added.
proof fn lemma_layout_grows(
    m: RawMesh,
    zones: Seq<Zone>,
    t: Seq<usize>,
    z: int,
    a: Layout,
    l: Layout,
)
    requires
        a.patches.len() <= l.patches.len(),
        forall|i: int| 0 <= i < a.patches.len() ==> #[trigger] l.patches[i] == a.patches[i],
        a.sides.len() <= l.sides.len(),
        l.sides.take(a.sides.len() as int) == a.sides,
    ensures
        forall|i: int|
            0 <= i < a.patches.len() && #[trigger] has_source(m, zones, t, z, a, i) ==> has_source(
                m,
                zones,
                t,
                z,
                l,
                i,
            ),
        forall|k: int| #[trigger] keeps_patch(m, t, z, a, k) ==> keeps_patch(m, t, z, l, k),
        forall|w: int|
            #[trigger] keeps_link(m, zones, t, z, a, w) ==> keeps_link(m, zones, t, z, l, w),
{
    assert forall|i: int, k: int| is_kept(m, t, z, a, i, k) implies #[trigger] is_kept(
        m,
        t,
        z,
        l,
        i,
        k,
    ) by {
        assert(l.patches[i] == a.patches[i]);
        lemma_holds_on(a, l, i, kept_sides(m, t, m.patches[k], z));
    }
    assert forall|i: int, w: int|
        is_linked(m, zones, t, z, a, i, w) implies #[trigger] is_linked(
        m,
        zones,
        t,
        z,
        l,
        i,
        w,
    ) by {
        assert(l.patches[i] == a.patches[i]);
        lemma_holds_on(a, l, i, link_sides(m, t, zones.len() as usize, z, w));
    }
    assert forall|i: int|
        0 <= i < a.patches.len() && #[trigger] has_source(m, zones, t, z, a, i) implies has_source(
        m,
        zones,
        t,
        z,
        l,
        i,
    ) by {
        if exists|k: int| is_kept(m, t, z, a, i, k) {
            let k = choose|k: int| is_kept(m, t, z, a, i, k);
            assert(is_kept(m, t, z, l, i, k));
        } else {
            let w = choose|w: int| is_linked(m, zones, t, z, a, i, w);
            assert(is_linked(m, zones, t, z, l, i, w));
        }
    }
    assert forall|k: int| #[trigger] keeps_patch(m, t, z, a, k) implies keeps_patch(m, t, z, l, k) by {
        if kept_sides(m, t, m.patches[k], z).len() > 0 {
            let i = choose|i: int| 0 <= i < a.patches.len() && is_kept(m, t, z, a, i, k);
            assert(is_kept(m, t, z, l, i, k));
        }
    }
    assert forall|w: int| #[trigger] keeps_link(m, zones, t, z, a, w) implies keeps_link(
        m,
        zones,
        t,
        z,
        l,
        w,
    ) by {
        if link_sides(m, t, zones.len() as usize, z, w).len() > 0 {
            let i = choose|i: int|
                0 <= i < a.patches.len() && is_linked(m, zones, t, z, a, i, w);
            assert(is_linked(m, zones, t, z, l, i, w));
        }
    }
}

proof fn lemma_linked(m: RawMesh, zones: Seq<Zone>, t: Seq<usize>, z: int, n: int)
    requires
        0 <= n <= zones.len(),
    ensures
        ({
            let l = linked(m, zones, t, z, n);
            &&& tiles(l)
            &&& forall|i: int|
                0 <= i < l.patches.len() ==> #[trigger] has_source(m, zones, t, z, l, i)
            &&& forall|k: int|
                0 <= k < m.patches.len() ==> #[trigger] keeps_patch(m, t, z, l, k)
            &&& forall|w: int|
                0 <= w < n && w != z ==> #[trigger] keeps_link(m, zones, t, z, l, w)
        }),
    decreases n,
{
    if n <= 0 {
        lemma_kept(m, zones, t, z, m.patches.len() as int);
    } else {
        lemma_linked(m, zones, t, z, n - 1);
        let a = linked(m, zones, t, z, n - 1);
        let l = linked(m, zones, t, z, n);
        if n - 1 != z {
            let s = link_sides(m, t, zones.len() as usize, z, n - 1);
            lemma_with_patch(
                a,
                link_name(zones[z].name, zones[n - 1].name),
                "patch"@,
                PatchKind::Generic,
                s,
            );
            if s.len() > 0 {
                assert(is_linked(m, zones, t, z, l, a.patches.len() as int, n - 1));
            }
            lemma_layout_grows(m, zones, t, z, a, l);
            assert forall|i: int| 0 <= i < l.patches.len() implies #[trigger] has_source(
                m,
                zones,
                t,
                z,
                l,
                i,
            ) by {
                if i < a.patches.len() {
                    assert(has_source(m, zones, t, z, a, i));
                }
            }
            assert forall|k: int| 0 <= k < m.patches.len() implies #[trigger] keeps_patch(
                m,
                t,
                z,
                l,
                k,
            ) by {
                assert(keeps_patch(m, t, z, a, k));
            }
            assert forall|w: int| 0 <= w < n && w != z implies #[trigger] keeps_link(
                m,
                zones,
                t,
                z,
                l,
                w,
            ) by {
                if w < n - 1 {
                    assert(keeps_link(m, zones, t, z, a, w));
                }
            }
        }
    }
}

// --------------------------------------------------------------------------
//  Regions
// --------------------------------------------------------------------------
/// Every side of a region is one that the mesh has.
proof fn lemma_region_sides(m: RawMesh, zones: Seq<Zone>, t: Seq<usize>, z: int)
    requires
        shared_out(m, zones, t),
        0 <= z < zones.len(),
    ensures
        have_sides(m, region_sides(m, zones, t, z)),
{
    let n = zones.len() as usize;
    let inner = inner_faces(m, t, n, z);
    let l = linked(m, zones, t, z, zones.len() as int);
    let all = region_sides(m, zones, t, z);
    lemma_inner(m, zones, t, z);
    lemma_linked(m, zones, t, z, zones.len() as int);
    assert forall|g: int| 0 <= g < all.len() implies has_side(m, #[trigger] all[g]) by {
        if g < inner.len() {
            assert(all[g] == own_sides(inner)[g]);
            assert(inner[g] < m.neighbour.len());
        } else {
            let x = g - inner.len();
            lemma_in_a_patch(l, x);
            let i = choose|i: int|
                0 <= i < l.patches.len() && l.patches[i].start <= x < (#[trigger] l.patches[i]).start
                    + l.patches[i].size;
            assert(has_source(m, zones, t, z, l, i));
            if exists|k: int| is_kept(m, t, z, l, i, k) {
                let k = choose|k: int| is_kept(m, t, z, l, i, k);
                let s = kept_sides(m, t, m.patches[k], z);
                lemma_kept_sides(m, t, k, z);
                assert(s[x - l.patches[i].start] == l.sides[x]);
            } else {
                let w = choose|w: int| is_linked(m, zones, t, z, l, i, w);
                let s = link_sides(m, t, n, z, w);
                lemma_link_sides(m, zones, t, z, w);
                assert(s[x - l.patches[i].start] == l.sides[x]);
            }
        }
    }
}

/// Every face of a layout stands in one of its patches.
proof fn lemma_in_a_patch(l: Layout, x: int)
    requires
        tiles(l),
        0 <= x < l.sides.len(),
    ensures
        exists|i: int|
            0 <= i < l.patches.len() && l.patches[i].start <= x < (#[trigger] l.patches[i]).start
                + l.patches[i].size,
{
    lemma_in_first_patches(l, x, l.patches.len() as int);
}

proof fn lemma_in_first_patches(l: Layout, x: int, n: int)
    requires
        tiles(l),
        0 < n <= l.patches.len(),
        0 <= x < l.patches[n - 1].start + l.patches[n - 1].size,
    ensures
        exists|i: int|
            0 <= i < l.patches.len() && l.patches[i].start <= x < (#[trigger] l.patches[i]).start
                + l.patches[i].size,
    decreases n,
{
    assert(in_place(l.patches, n - 1));
    if x < l.patches[n - 1].start {
        lemma_in_first_patches(l, x, n - 1);
    }
}

/// The outline and the owner of a face of a region are those of the side that it shows.
proof fn lemma_region_face(m: RawMesh, zones: Seq<Zone>, t: Seq<usize>, z: int, g: int)
    requires
        shared_out(m, zones, t),
        0 <= z < zones.len(),
        0 <= g < region_sides(m, zones, t, z).len(),
    ensures
        ({
            let r = region(m, zones, t, z);
            let x = region_sides(m, zones, t, z)[g];
            &&& r.faces.len() == region_sides(m, zones, t, z).len()
            &&& r.owner.len() == r.faces.len()
            &&& outline(r, g) == if x % 2 == 0 {
                outline(m, (x / 2) as int)
            } else {
                turned(outline(m, (x / 2) as int))
            }
            &&& r.owner[g] == rank_of(t, side_cell(m, x) as int)
        }),
{
    let sides = region_sides(m, zones, t, z);
    let r = region(m, zones, t, z);
    let loops = loops_of(m, sides);
    let d = used_points(loops);
    let all = flat(loops, loops.len() as int);
    lemma_region_sides(m, zones, t, z);
    lemma_distinct_is(all, all.len() as int);
    assert forall|k: int, i: int| 0 <= k < loops.len() && 0 <= i < loops[k].len() implies 0
        <= #[trigger] loops[k][i] < m.points.len() by {
        lemma_side_loop(m, sides[k], i);
    }
    lemma_used(loops, m.points.len() as int);
    lemma_distinct_bound(d, m.points.len() as int);
    let x = sides[g];
    let f = (x / 2) as int;
    let want = if x % 2 == 0 {
        outline(m, f)
    } else {
        turned(outline(m, f))
    };
    assert(r.faces[g].len() == side_loop(m, x).len());
    assert forall|i: int| 0 <= i < want.len() implies #[trigger] outline(r, g)[i] == want[i] by {
        regions_keep_the_points(m, zones, t, z, g, i);
        lemma_side_loop(m, x, i);
    }
    assert(outline(r, g) =~= want);
    lemma_cells_in_range(m);
    let c = side_cell(m, x) as int;
    assert(0 <= c < cell_count(m)) by {
        assert(has_side(m, x));
        if x % 2 == 0 {
            assert(0 <= m.owner[f] < cell_count(m));
        } else {
            assert(0 <= m.neighbour[f] < cell_count(m));
        }
    }
    lemma_bucket_len(t, t[c] as int, c);
}

proof fn lemma_side_loop(m: RawMesh, x: usize, i: int)
    requires
        sound(m),
        has_side(m, x),
        0 <= i < side_loop(m, x).len(),
    ensures
        0 <= side_loop(m, x)[i] < m.points.len(),
{
    let f = (x / 2) as int;
    let n = m.faces[f].len();
    let k = if x % 2 == 0 || i == 0 {
        i
    } else {
        n - i
    };
    assert(0 <= m.faces[f][k] < m.points.len());
}

proof fn lemma_used(loops: Seq<Seq<Label>>, points: int)
    requires
        forall|k: int, i: int|
            0 <= k < loops.len() && 0 <= i < loops[k].len() ==> 0 <= #[trigger] loops[k][i] < points,
    ensures
        forall|i: int|
            0 <= i < used_points(loops).len() ==> 0 <= #[trigger] used_points(loops)[i] < points,
{
    let all = flat(loops, loops.len() as int);
    lemma_flat_within(loops, loops.len() as int, points);
    lemma_distinct_within(all, all.len() as int, points);
}

proof fn lemma_flat_within(loops: Seq<Seq<Label>>, n: int, points: int)
    requires
        0 <= n <= loops.len(),
        forall|k: int, i: int|
            0 <= k < loops.len() && 0 <= i < loops[k].len() ==> 0 <= #[trigger] loops[k][i] < points,
    ensures
        forall|i: int| 0 <= i < flat(loops, n).len() ==> 0 <= #[trigger] flat(loops, n)[i] < points,
    decreases n,
{
    if n > 0 {
        lemma_flat_within(loops, n - 1, points);
        let a = flat(loops, n - 1);
        let b = flat(loops, n);
        assert forall|i: int| 0 <= i < b.len() implies 0 <= #[trigger] b[i] < points by {
            if i < a.len() {
                assert(b[i] == a[i]);
            } else {
                assert(b[i] == loops[n - 1][i - a.len()]);
            }
        }
    }
}

proof fn lemma_distinct_within(s: Seq<Label>, n: int, points: int)
    requires
        0 <= n <= s.len(),
        forall|i: int| 0 <= i < s.len() ==> 0 <= #[trigger] s[i] < points,
    ensures
        forall|i: int|
            0 <= i < distinct(s, n).len() ==> 0 <= #[trigger] distinct(s, n)[i] < points,
    decreases n,
{
    if n > 0 {
        lemma_distinct_within(s, n - 1, points);
        let a = distinct(s, n - 1);
        let b = distinct(s, n);
        assert forall|i: int| 0 <= i < b.len() implies 0 <= #[trigger] b[i] < points by {
            if i < a.len() {
                assert(b[i] == a[i]);
            } else {
                assert(b[i] == s[n - 1]);
            }
        }
    }
}

// --------------------------------------------------------------------------
//  What a split keeps
// --------------------------------------------------------------------------
/// A boundary face comes back in the region of its cell: with the same outline, in a
/// patch of the same name, type and kind, and with its cell as the owner.
pub proof fn boundary_faces_keep_their_patches(
    m: RawMesh,
    zones: Seq<Zone>,
    t: Seq<usize>,
    z: int,
    k: int,
    j: int,
)
    requires
        shared_out(m, zones, t),
        0 <= z < zones.len(),
        0 <= k < m.patches.len(),
        0 <= j < m.patches[k].size,
        t[m.owner[m.neighbour.len() + m.patches[k].start + j] as int] == z,
    ensures
        ({
            let r = region(m, zones, t, z);
            let f = m.neighbour.len() + m.patches[k].start + j;
            exists|g: int, i: int, h: int|
                #![trigger stands_in(r, g, i, h)]
                {
                    &&& stands_in(r, g, i, h)
                    &&& alike(r.patches[i], m.patches[k])
                    &&& outline(r, g) == outline(m, f)
                    &&& r.owner[g] == rank_of(t, m.owner[f] as int)
                }
        }),
{
    let r = region(m, zones, t, z);
    let f = m.neighbour.len() + m.patches[k].start + j;
    let l = linked(m, zones, t, z, zones.len() as int);
    let s = kept_sides(m, t, m.patches[k], z);
    let inner = inner_faces(m, t, zones.len() as usize, z);
    lemma_kept_sides(m, t, k, z);
    lemma_linked(m, zones, t, z, zones.len() as int);
    assert(s.contains((2 * f) as usize));
    let h = choose|h: int| 0 <= h < s.len() && s[h] == (2 * f) as usize;
    assert(keeps_patch(m, t, z, l, k));
    let i = choose|i: int| 0 <= i < l.patches.len() && is_kept(m, t, z, l, i, k);
    let g = inner.len() + l.patches[i].start + h;
    assert(l.sides[l.patches[i].start + h] == s[h]);
    assert(region_sides(m, zones, t, z)[g] == s[h]);
    lemma_region_face(m, zones, t, z, g);
    assert(stands_in(r, g, i, h));
}

/// An internal face of two cells of one zone stays an internal face of these cells, with
/// the same outline.
pub proof fn inner_faces_stay_inside(
    m: RawMesh,
    zones: Seq<Zone>,
    t: Seq<usize>,
    z: int,
    f: int,
)
    requires
        shared_out(m, zones, t),
        0 <= z < zones.len(),
        0 <= f < m.neighbour.len(),
        t[m.owner[f] as int] == z,
        t[m.neighbour[f] as int] == z,
    ensures
        ({
            let r = region(m, zones, t, z);
            exists|g: int|
                0 <= g < r.neighbour.len() && #[trigger] outline(r, g) == outline(m, f) && r.owner[g]
                    == rank_of(t, m.owner[f] as int) && r.neighbour[g] == rank_of(
                    t,
                    m.neighbour[f] as int,
                )
        }),
{
    let r = region(m, zones, t, z);
    let inner = inner_faces(m, t, zones.len() as usize, z);
    lemma_inner(m, zones, t, z);
    assert(inner.contains(f as usize));
    let g = choose|g: int| 0 <= g < inner.len() && inner[g] == f as usize;
    assert(own_sides(inner)[g] == 2 * f);
    assert(region_sides(m, zones, t, z)[g] == 2 * f);
    lemma_region_face(m, zones, t, z, g);
    lemma_cells_in_range(m);
    assert(0 <= m.neighbour[f] < cell_count(m));
    lemma_bucket_len(t, z, m.neighbour[f] as int);
    assert(outline(r, g) == outline(m, f));
}

/// A face between two zones comes back twice: in the region of its owner as it is, and in
/// the region of its neighbour from the other side, at the same place of the two patches
/// that carry the names of both zones.
pub proof fn faces_between_zones_pair_up(m: RawMesh, zones: Seq<Zone>, t: Seq<usize>, f: int)
    requires
        shared_out(m, zones, t),
        0 <= f < m.neighbour.len(),
        t[m.owner[f] as int] != t[m.neighbour[f] as int],
    ensures
        ({
            let a = t[m.owner[f] as int] as int;
            let b = t[m.neighbour[f] as int] as int;
            let x = region(m, zones, t, a);
            let y = region(m, zones, t, b);
            exists|g: int, i: int, h: int, u: int, v: int|
                #![trigger stands_in(x, g, i, h), stands_in(y, u, v, h)]
                {
                    &&& stands_in(x, g, i, h)
                    &&& stands_in(y, u, v, h)
                    &&& is_interface(x.patches[i], zones[a], zones[b])
                    &&& is_interface(y.patches[v], zones[b], zones[a])
                    &&& x.patches[i].size == y.patches[v].size
                    &&& outline(x, g) == outline(m, f)
                    &&& outline(y, u) == turned(outline(m, f))
                    &&& x.owner[g] == rank_of(t, m.owner[f] as int)
                    &&& y.owner[u] == rank_of(t, m.neighbour[f] as int)
                }
        }),
{
    lemma_cells_in_range(m);
    assert(0 <= m.owner[f] < cell_count(m));
    assert(0 <= m.neighbour[f] < cell_count(m));
    let a = t[m.owner[f] as int] as int;
    let b = t[m.neighbour[f] as int] as int;
    let n = zones.len() as usize;
    let x = region(m, zones, t, a);
    let y = region(m, zones, t, b);
    let s = link_sides(m, t, n, a, b);
    let o = link_sides(m, t, n, b, a);
    let p = linked(m, zones, t, a, zones.len() as int);
    let q = linked(m, zones, t, b, zones.len() as int);
    lemma_link_sides(m, zones, t, a, b);
    lemma_linked(m, zones, t, a, zones.len() as int);
    lemma_linked(m, zones, t, b, zones.len() as int);
    assert(s.contains((2 * f) as usize));
    let h = choose|h: int| 0 <= h < s.len() && s[h] == (2 * f) as usize;
    links_pair_by_number(m, t, n, a, b, h);
    assert(o[h] == 2 * f + 1);
    assert(keeps_link(m, zones, t, a, p, b));
    assert(keeps_link(m, zones, t, b, q, a));
    let i = choose|i: int| 0 <= i < p.patches.len() && is_linked(m, zones, t, a, p, i, b);
    let v = choose|v: int| 0 <= v < q.patches.len() && is_linked(m, zones, t, b, q, v, a);
    let g = inner_faces(m, t, n, a).len() + p.patches[i].start + h;
    let u = inner_faces(m, t, n, b).len() + q.patches[v].start + h;
    assert(p.sides[p.patches[i].start + h] == s[h]);
    assert(q.sides[q.patches[v].start + h] == o[h]);
    assert(region_sides(m, zones, t, a)[g] == s[h]);
    assert(region_sides(m, zones, t, b)[u] == o[h]);
    lemma_region_face(m, zones, t, a, g);
    lemma_region_face(m, zones, t, b, u);
    assert(stands_in(x, g, i, h));
    assert(stands_in(y, u, v, h));
}

/// The patches of a region cover its boundary one behind the other, and each is one of
/// the mesh's, of the same name, type and kind, or the one where the region meets another.
pub proof fn patches_of_a_region_are_known(m: RawMesh, zones: Seq<Zone>, t: Seq<usize>, z: int, i: int)
    requires
        shared_out(m, zones, t),
        0 <= z < zones.len(),
        0 <= i < region(m, zones, t, z).patches.len(),
    ensures
        ({
            let r = region(m, zones, t, z);
            let p = r.patches[i];
            &&& in_place(r.patches, i)
            &&& i == r.patches.len() - 1 ==> r.neighbour.len() + p.start + p.size == r.faces.len()
            &&& (exists|k: int| 0 <= k < m.patches.len() && alike(p, #[trigger] m.patches[k])) || (
            exists|w: int|
                0 <= w < zones.len() && w != z && is_interface(p, zones[z], #[trigger] zones[w]))
        }),
{
    let l = linked(m, zones, t, z, zones.len() as int);
    lemma_linked(m, zones, t, z, zones.len() as int);
    assert(in_place(l.patches, i));
    assert(has_source(m, zones, t, z, l, i));
    if exists|k: int| is_kept(m, t, z, l, i, k) {
        let k = choose|k: int| is_kept(m, t, z, l, i, k);
        assert(alike(l.patches[i], m.patches[k]));
    } else {
        let w = choose|w: int| is_linked(m, zones, t, z, l, i, w);
        assert(is_interface(l.patches[i], zones[z], zones[w]));
    }
}

/// A face of a region is a face of the mesh of one of the region's cells, seen from it;
/// in a patch of the mesh it is a face of that patch.
pub proof fn faces_of_a_region_are_faces_of_the_mesh(
    m: RawMesh,
    zones: Seq<Zone>,
    t: Seq<usize>,
    z: int,
    g: int,
)
    requires
        shared_out(m, zones, t),
        0 <= z < zones.len(),
        0 <= g < region(m, zones, t, z).faces.len(),
    ensures
        ({
            let r = region(m, zones, t, z);
            exists|f: int|
                0 <= f < m.faces.len() && {
                    ||| t[m.owner[f] as int] == z && outline(r, g) == #[trigger] outline(m, f)
                        && r.owner[g] == rank_of(t, m.owner[f] as int)
                    ||| f < m.neighbour.len() && t[m.neighbour[f] as int] == z && outline(r, g)
                        == turned(outline(m, f)) && r.owner[g] == rank_of(t, m.neighbour[f] as int)
                }
        }),
{
    let n = zones.len() as usize;
    let r = region(m, zones, t, z);
    let inner = inner_faces(m, t, n, z);
    let l = linked(m, zones, t, z, zones.len() as int);
    let all = region_sides(m, zones, t, z);
    lemma_region_face(m, zones, t, z, g);
    lemma_region_sides(m, zones, t, z);
    lemma_inner(m, zones, t, z);
    lemma_linked(m, zones, t, z, zones.len() as int);
    let x = all[g];
    let f = (x / 2) as int;
    assert(has_side(m, x));
    assert(t[side_cell(m, x) as int] == z) by {
        if g < inner.len() {
            assert(all[g] == own_sides(inner)[g]);
            assert(inner[g] < m.neighbour.len());
        } else {
            let at = g - inner.len();
            lemma_in_a_patch(l, at);
            let i = choose|i: int|
                0 <= i < l.patches.len() && l.patches[i].start <= at < (#[trigger] l.patches[i]).start
                    + l.patches[i].size;
            assert(has_source(m, zones, t, z, l, i));
            if exists|k: int| is_kept(m, t, z, l, i, k) {
                let k = choose|k: int| is_kept(m, t, z, l, i, k);
                let s = kept_sides(m, t, m.patches[k], z);
                lemma_kept_sides(m, t, k, z);
                assert(s[at - l.patches[i].start] == l.sides[at]);
            } else {
                let w = choose|w: int| is_linked(m, zones, t, z, l, i, w);
                let s = link_sides(m, t, n, z, w);
                lemma_link_sides(m, zones, t, z, w);
                assert(s[at - l.patches[i].start] == l.sides[at]);
            }
        }
    }
    assert(outline(m, f) == outline(m, f));
}

/// A meeting that says where two regions meet, and over how many faces.
pub open spec fn is_meeting(
    m: RawMesh,
    zones: Seq<Zone>,
    t: Seq<usize>,
    j: Meeting,
    a: int,
    b: int,
) -> bool {
    &&& j.region_a == a
    &&& j.region_b == b
    &&& exists|i: int| #[trigger] names_patch(region(m, zones, t, a), i, j.patch_a, j.n_faces)
    &&& exists|i: int| #[trigger] names_patch(region(m, zones, t, b), i, j.patch_b, j.n_faces)
}

/// Patch `i` of a mesh has this name and this many faces.
pub open spec fn names_patch(r: RawMesh, i: int, name: Seq<char>, faces: int) -> bool {
    0 <= i < r.patches.len() && r.patches[i].name == name && r.patches[i].size == faces
}

spec fn has_meeting(s: Seq<Meeting>, m: RawMesh, zones: Seq<Zone>, t: Seq<usize>, a: int, b: int) -> bool {
    exists|i: int| 0 <= i < s.len() && is_meeting(m, zones, t, #[trigger] s[i], a, b)
}

proof fn lemma_has_meeting_with(m: RawMesh, zones: Seq<Zone>, t: Seq<usize>, a: int, b: int, n: int)
    requires
        shared_out(m, zones, t),
        0 <= a < b < n <= zones.len(),
        link_sides(m, t, zones.len() as usize, a, b).len() > 0,
    ensures
        has_meeting(meetings_with(m, zones, t, a, n), m, zones, t, a, b),
    decreases n,
{
    let u = zones.len() as usize;
    let s = meetings_with(m, zones, t, a, n);
    let h = meetings_with(m, zones, t, a, n - 1);
    if b < n - 1 {
        lemma_has_meeting_with(m, zones, t, a, b, n - 1);
        let i = choose|i: int| 0 <= i < h.len() && is_meeting(m, zones, t, #[trigger] h[i], a, b);
        assert(s[i] == h[i]);
    } else {
        let p = linked(m, zones, t, a, zones.len() as int);
        let q = linked(m, zones, t, b, zones.len() as int);
        lemma_linked(m, zones, t, a, zones.len() as int);
        lemma_linked(m, zones, t, b, zones.len() as int);
        links_pair_by_number(m, t, u, a, b, 0);
        assert(keeps_link(m, zones, t, a, p, b));
        assert(keeps_link(m, zones, t, b, q, a));
        let i = choose|i: int| 0 <= i < p.patches.len() && is_linked(m, zones, t, a, p, i, b);
        let v = choose|v: int| 0 <= v < q.patches.len() && is_linked(m, zones, t, b, q, v, a);
        let j = s[h.len() as int];
        assert(names_patch(region(m, zones, t, a), i, j.patch_a, j.n_faces));
        assert(names_patch(region(m, zones, t, b), v, j.patch_b, j.n_faces));
        assert(is_meeting(m, zones, t, j, a, b));
    }
}

proof fn lemma_has_meeting(m: RawMesh, zones: Seq<Zone>, t: Seq<usize>, a: int, b: int, n: int)
    requires
        shared_out(m, zones, t),
        0 <= a < n <= zones.len(),
        a < b < zones.len(),
        link_sides(m, t, zones.len() as usize, a, b).len() > 0,
    ensures
        has_meeting(meetings(m, zones, t, n), m, zones, t, a, b),
    decreases n,
{
    let s = meetings(m, zones, t, n);
    let h = meetings(m, zones, t, n - 1);
    let w = meetings_with(m, zones, t, n - 1, zones.len() as int);
    if a < n - 1 {
        lemma_has_meeting(m, zones, t, a, b, n - 1);
        let i = choose|i: int| 0 <= i < h.len() && is_meeting(m, zones, t, #[trigger] h[i], a, b);
        assert(s[i] == h[i]);
    } else {
        lemma_has_meeting_with(m, zones, t, a, b, zones.len() as int);
        let i = choose|i: int| 0 <= i < w.len() && is_meeting(m, zones, t, #[trigger] w[i], a, b);
        assert(s[h.len() + i] == w[i]);
    }
}

/// Where a face lies between two zones, the split lists an interface of the two regions,
/// the earlier one first, which names the patches of both and says how many faces they have.
pub proof fn faces_between_zones_are_listed(m: RawMesh, zones: Seq<Zone>, t: Seq<usize>, f: int)
    requires
        shared_out(m, zones, t),
        0 <= f < m.neighbour.len(),
        t[m.owner[f] as int] != t[m.neighbour[f] as int],
    ensures
        ({
            let o = t[m.owner[f] as int] as int;
            let n = t[m.neighbour[f] as int] as int;
            let a = if o < n { o } else { n };
            let b = if o < n { n } else { o };
            let s = meetings(m, zones, t, zones.len() as int);
            exists|i: int| 0 <= i < s.len() && is_meeting(m, zones, t, #[trigger] s[i], a, b)
        }),
{
    lemma_cells_in_range(m);
    assert(0 <= m.owner[f] < cell_count(m));
    assert(0 <= m.neighbour[f] < cell_count(m));
    let o = t[m.owner[f] as int] as int;
    let n = t[m.neighbour[f] as int] as int;
    let u = zones.len() as usize;
    lemma_link_sides(m, zones, t, o, n);
    assert(link_sides(m, t, u, o, n).contains((2 * f) as usize));
    links_pair_by_number(m, t, u, o, n, 0);
    if o < n {
        lemma_has_meeting(m, zones, t, o, n, zones.len() as int);
    } else {
        lemma_has_meeting(m, zones, t, n, o, zones.len() as int);
    }
}

/// The cells of a zone are numbered from zero without a gap, in the order of their numbers
/// in the mesh.
pub proof fn cells_are_numbered_in_their_zone(t: Seq<usize>, c: int)
    requires
        0 <= c < t.len(),
    ensures
        rank_of(t, c) >= 0,
        (forall|b: int| 0 <= b < c ==> t[b] != t[c]) ==> rank_of(t, c) == 0,
        forall|b: int|
            0 <= b < c && #[trigger] t[b] == t[c] && (forall|d: int| b < d < c ==> t[d] != t[c])
                ==> rank_of(t, c) == rank_of(t, b) + 1,
{
    if forall|b: int| 0 <= b < c ==> t[b] != t[c] {
        lemma_none_between(t, t[c] as int, 0, c);
    }
    assert forall|b: int|
        0 <= b < c && #[trigger] t[b] == t[c] && (forall|d: int| b < d < c ==> t[d] != t[c]) implies rank_of(
        t,
        c,
    ) == rank_of(t, b) + 1 by {
        lemma_none_between(t, t[c] as int, b + 1, c);
    }
}

proof fn lemma_none_between(t: Seq<usize>, z: int, a: int, b: int)
    requires
        0 <= a <= b <= t.len(),
        forall|d: int| a <= d < b ==> #[trigger] t[d] != z,
    ensures
        bucket(t, z, b) == bucket(t, z, a),
    decreases b - a,
{
    if a < b {
        lemma_none_between(t, z, a, b - 1);
    }
}

} // verus!
