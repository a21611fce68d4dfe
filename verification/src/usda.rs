//! USD scenes: volumes that point at their files, and the boundary of a mesh as a
//! surface with one subset of faces per patch.
//!
//! A mesh keeps the centre and the area vector of a boundary face, not its corners:
//! each face is drawn as a square of that centre, area and direction, which is cut
//! into two triangles. The corners are floating-point arithmetic and come in with
//! each face.

use vstd::prelude::*;

use crate::digits::{pointed, show_pointed};
use crate::mesh::{copy_list, origin, HostMesh, Label, Vec3};
use crate::scalar::Scalar;
use crate::text::{copy, decimal, push_decimal, push_signed, push_text, signed_decimal};

verus! {

// --------------------------------------------------------------------------
//  What a scene holds
// --------------------------------------------------------------------------
/// The file of a volume at a time, in seconds.
#[derive(Debug, Clone)]
pub struct VdbFrame {
    pub time: Scalar,
    /// As it is written between the `@`.
    pub path: String,
}

/// Where the data of a volume is.
#[derive(Debug)]
pub enum VdbSource {
    Single(String),
    /// One file per time, in the order in which they are given.
    Series(Vec<VdbFrame>),
}

/// Two sources with the same files at the same times.
pub open spec fn same_source(a: VdbSource, b: VdbSource) -> bool {
    match (a, b) {
        (VdbSource::Single(p), VdbSource::Single(q)) => p@ == q@,
        (VdbSource::Series(f), VdbSource::Series(g)) => f.len() == g.len() && forall|i: int|
            0 <= i < f.len() ==> (#[trigger] f[i]).time == g[i].time && f[i].path@ == g[i].path@,
        _ => false,
    }
}

impl Clone for VdbSource {
    fn clone(&self) -> (r: VdbSource)
        ensures
            same_source(r, *self),
    {
        match self {
            VdbSource::Single(p) => VdbSource::Single(copy(p)),
            VdbSource::Series(f) => {
                let mut out: Vec<VdbFrame> = Vec::new();
                let mut i: usize = 0;
                while i < f.len()
                    invariant
                        i <= f.len(),
                        out.len() == i,
                        forall|k: int|
                            0 <= k < i ==> (#[trigger] out[k]).time == f[k].time && out[k].path@
                                == f[k].path@,
                    decreases f.len() - i,
                {
                    out.push(VdbFrame { time: f[i].time, path: copy(&f[i].path) });
                    i = i + 1;
                }
                VdbSource::Series(out)
            },
        }
    }
}

/// A volume, and the asset of its field.
#[derive(Debug)]
pub struct VolumeAsset {
    pub name: String,
    pub field_name: String,
    pub vdb: VdbSource,
    /// A hint for the renderer.
    pub extent: Option<(Vec3, Vec3)>,
}

impl Clone for VolumeAsset {
    fn clone(&self) -> (r: VolumeAsset)
        ensures
            r.name@ == self.name@,
            r.field_name@ == self.field_name@,
            same_source(r.vdb, self.vdb),
            r.extent == self.extent,
    {
        VolumeAsset {
            name: copy(&self.name),
            field_name: copy(&self.field_name),
            vdb: self.vdb.clone(),
            extent: self.extent,
        }
    }
}

/// The triangles of one patch, by their numbers.
#[derive(Debug, Clone)]
pub struct PatchSubset {
    pub name: String,
    pub face_indices: Vec<u32>,
}

/// A surface of triangles.
#[derive(Debug)]
pub struct SurfaceOut {
    pub points: Vec<Vec3>,
    /// Three for every triangle.
    pub face_vertex_counts: Vec<u32>,
    pub face_vertex_indices: Vec<u32>,
    pub extent: (Vec3, Vec3),
    /// One subset per patch, in the order of the patches.
    pub patches: Vec<PatchSubset>,
}

impl Clone for SurfaceOut {
    fn clone(&self) -> (r: SurfaceOut)
        ensures
            r.points@ == self.points@,
            r.face_vertex_counts@ == self.face_vertex_counts@,
            r.face_vertex_indices@ == self.face_vertex_indices@,
            r.extent == self.extent,
            r.patches.len() == self.patches.len(),
            forall|i: int|
                0 <= i < r.patches.len() ==> (#[trigger] r.patches[i]).name@ == self.patches[i].name@
                    && r.patches[i].face_indices@ == self.patches[i].face_indices@,
    {
        let mut patches: Vec<PatchSubset> = Vec::new();
        let mut i: usize = 0;
        while i < self.patches.len()
            invariant
                i <= self.patches.len(),
                patches.len() == i,
                forall|k: int|
                    0 <= k < i ==> (#[trigger] patches[k]).name@ == self.patches[k].name@
                        && patches[k].face_indices@ == self.patches[k].face_indices@,
            decreases self.patches.len() - i,
        {
            let p = &self.patches[i];
            patches.push(
                PatchSubset { name: copy(&p.name), face_indices: copy_list(&p.face_indices) },
            );
            i = i + 1;
        }
        SurfaceOut {
            points: copy_list(&self.points),
            face_vertex_counts: copy_list(&self.face_vertex_counts),
            face_vertex_indices: copy_list(&self.face_vertex_indices),
            extent: self.extent,
            patches,
        }
    }
}

/// A scene: any number of volumes, and the boundary where there is one.
#[derive(Debug, Clone)]
pub struct SceneSpec {
    pub volumes: Vec<VolumeAsset>,
    pub boundary: Option<SurfaceOut>,
}

impl Default for SceneSpec {
    /// A scene with nothing in it.
    fn default() -> (r: SceneSpec)
        ensures
            r.volumes.len() == 0,
            r.boundary is None,
    {
        SceneSpec { volumes: Vec::new(), boundary: None }
    }
}

// --------------------------------------------------------------------------
//  The boundary
// --------------------------------------------------------------------------
/// A boundary face as it is drawn: its area, and the corners of the square.
#[derive(Debug, Clone, Copy)]
pub struct Quad {
    pub area: Scalar,
    pub p0: Vec3,
    pub p1: Vec3,
    pub p2: Vec3,
    pub p3: Vec3,
}

/// A face of no area is not drawn.
pub open spec fn is_drawn(q: Quad) -> bool {
    (Scalar { bits: 0 }).less(q.area)
}

/// The first `n` faces that are drawn.
pub open spec fn drawn(q: Seq<Quad>, n: int) -> Seq<int>
    decreases n,
{
    if n <= 0 {
        Seq::empty()
    } else if is_drawn(q[n - 1]) {
        drawn(q, n - 1).push(n - 1)
    } else {
        drawn(q, n - 1)
    }
}

/// Corner `i % 4` of the `i / 4`-th face that is drawn.
pub open spec fn corner(q: Seq<Quad>, d: Seq<int>, i: int) -> Vec3 {
    let f = q[d[i / 4]];
    if i % 4 == 0 {
        f.p0
    } else if i % 4 == 1 {
        f.p1
    } else if i % 4 == 2 {
        f.p2
    } else {
        f.p3
    }
}

pub open spec fn surface_points(q: Seq<Quad>, d: Seq<int>) -> Seq<Vec3> {
    Seq::new(4 * d.len(), |i: int| corner(q, d, i))
}

/// The corners of the triangles: `0 1 2` and `0 2 3` of each square.
pub open spec fn triangle_corner(i: int) -> u32 {
    let b = 4 * (i / 6);
    let k = i % 6;
    (b + (if k == 0 || k == 3 {
        0int
    } else if k == 1 {
        1
    } else if k == 2 || k == 4 {
        2
    } else {
        3
    })) as u32
}

/// The patch of a boundary face; one that is not listed has none.
pub open spec fn patch_of(b_patch: Seq<Label>, f: int) -> int {
    if 0 <= f < b_patch.len() {
        b_patch[f] as int
    } else {
        -1
    }
}

/// The triangles of patch `p`, of the first `n` faces that are drawn.
pub open spec fn patch_triangles(b_patch: Seq<Label>, d: Seq<int>, p: int, n: int) -> Seq<u32>
    decreases n,
{
    if n <= 0 {
        Seq::empty()
    } else {
        let was = patch_triangles(b_patch, d, p, n - 1);
        if patch_of(b_patch, d[n - 1]) == p {
            was.push((2 * (n - 1)) as u32).push((2 * (n - 1) + 1) as u32)
        } else {
            was
        }
    }
}

/// Every triangle of a face that has a patch is in the subset of that patch, once,
/// and in no other.
pub proof fn subsets_partition_the_triangles(
    b_patch: Seq<Label>,
    d: Seq<int>,
    p: int,
    n: int,
    t: int,
)
    requires
        0 <= n <= d.len(),
        n <= 0x3fff_ffff,
        0 <= t < 2 * n,
    ensures
        patch_triangles(b_patch, d, p, n).contains(t as u32) <==> patch_of(b_patch, d[t / 2]) == p,
        forall|i: int, j: int|
            0 <= i < j < patch_triangles(b_patch, d, p, n).len() ==> patch_triangles(
                b_patch,
                d,
                p,
                n,
            )[i] < patch_triangles(b_patch, d, p, n)[j],
{
    lemma_triangles(b_patch, d, p, n);
    let s = patch_triangles(b_patch, d, p, n);
    if patch_of(b_patch, d[t / 2]) == p {
        lemma_has_triangle(b_patch, d, p, n, t);
    } else if s.contains(t as u32) {
        let i = choose|i: int| 0 <= i < s.len() && s[i] == t as u32;
        assert(s[i] == t);
    }
}

proof fn lemma_triangles(b_patch: Seq<Label>, d: Seq<int>, p: int, n: int)
    requires
        0 <= n <= d.len(),
        n <= 0x3fff_ffff,
    ensures
        ({
            let s = patch_triangles(b_patch, d, p, n);
            &&& forall|i: int|
                0 <= i < s.len() ==> (#[trigger] s[i]) < 2 * n && patch_of(
                    b_patch,
                    d[s[i] as int / 2],
                ) == p
            &&& forall|i: int, j: int| 0 <= i < j < s.len() ==> s[i] < s[j]
        }),
    decreases n,
{
    if n > 0 {
        lemma_triangles(b_patch, d, p, n - 1);
        let was = patch_triangles(b_patch, d, p, n - 1);
        let s = patch_triangles(b_patch, d, p, n);
        if patch_of(b_patch, d[n - 1]) == p {
            let k = was.len() as int;
            let a = (2 * (n - 1)) as u32;
            let b = (2 * (n - 1) + 1) as u32;
            assert(a == 2 * (n - 1) && b == 2 * (n - 1) + 1);
            assert(s.len() == k + 2 && s[k] == a && s[k + 1] == b);
            assert(a as int / 2 == n - 1 && b as int / 2 == n - 1);
            assert forall|i: int| 0 <= i < s.len() implies (#[trigger] s[i]) < 2 * n && patch_of(
                b_patch,
                d[s[i] as int / 2],
            ) == p by {
                if i < k {
                    assert(s[i] == was[i]);
                }
            }
            assert forall|i: int, j: int| 0 <= i < j < s.len() implies s[i] < s[j] by {
                if i < k {
                    assert(s[i] == was[i]);
                }
                if j < k {
                    assert(s[j] == was[j]);
                }
            }
        }
    }
}

proof fn lemma_has_triangle(b_patch: Seq<Label>, d: Seq<int>, p: int, n: int, t: int)
    requires
        0 <= n <= d.len(),
        n <= 0x3fff_ffff,
        0 <= t < 2 * n,
        patch_of(b_patch, d[t / 2]) == p,
    ensures
        patch_triangles(b_patch, d, p, n).contains(t as u32),
    decreases n,
{
    let s = patch_triangles(b_patch, d, p, n);
    let was = patch_triangles(b_patch, d, p, n - 1);
    if t < 2 * (n - 1) {
        lemma_has_triangle(b_patch, d, p, n - 1, t);
        let i = choose|i: int| 0 <= i < was.len() && was[i] == t as u32;
        assert(s[i] == t as u32);
    } else if t == 2 * (n - 1) {
        assert(s[was.len() as int] == t as u32);
    } else {
        assert(s[was.len() as int + 1] == t as u32);
    }
}

/// The lesser of two numbers; a NaN loses to a number.
pub open spec fn lesser(a: Scalar, b: Scalar) -> Scalar {
    if a.is_nan() || b.less(a) {
        b
    } else {
        a
    }
}

/// The greater of two numbers; a NaN loses to a number.
pub open spec fn greater(a: Scalar, b: Scalar) -> Scalar {
    if a.is_nan() || a.less(b) {
        b
    } else {
        a
    }
}

pub open spec fn low_corner(a: Vec3, b: Vec3) -> Vec3 {
    Vec3 { x: lesser(a.x, b.x), y: lesser(a.y, b.y), z: lesser(a.z, b.z) }
}

pub open spec fn high_corner(a: Vec3, b: Vec3) -> Vec3 {
    Vec3 { x: greater(a.x, b.x), y: greater(a.y, b.y), z: greater(a.z, b.z) }
}

/// The box of the first `n` points.
pub open spec fn box_of(p: Seq<Vec3>, n: int) -> (Vec3, Vec3)
    decreases n,
{
    if n <= 0 {
        (origin(), origin())
    } else if n == 1 {
        (p[0], p[0])
    } else {
        let was = box_of(p, n - 1);
        (low_corner(was.0, p[n - 1]), high_corner(was.1, p[n - 1]))
    }
}

proof fn lemma_low(a: Scalar, b: Scalar, x: Scalar)
    requires
        !x.less(a),
        a.is_nan() ==> x.is_nan(),
    ensures
        !x.less(lesser(a, b)),
        lesser(a, b).is_nan() ==> x.is_nan() && b.is_nan(),
        !b.less(lesser(a, b)),
{
}

proof fn lemma_high(a: Scalar, b: Scalar, x: Scalar)
    requires
        !a.less(x),
        a.is_nan() ==> x.is_nan(),
    ensures
        !greater(a, b).less(x),
        greater(a, b).is_nan() ==> x.is_nan() && b.is_nan(),
        !greater(a, b).less(b),
{
}

/// No number lies outside the box of its points, and a side of the box is a number
/// where a point has one.
pub proof fn boxes_hold_their_points(p: Seq<Vec3>, n: int, i: int)
    requires
        0 <= i < n <= p.len(),
    ensures
        ({
            let lo = box_of(p, n).0;
            let hi = box_of(p, n).1;
            &&& !p[i].x.less(lo.x) && !p[i].y.less(lo.y) && !p[i].z.less(lo.z)
            &&& !hi.x.less(p[i].x) && !hi.y.less(p[i].y) && !hi.z.less(p[i].z)
            &&& lo.x.is_nan() || hi.x.is_nan() ==> p[i].x.is_nan()
            &&& lo.y.is_nan() || hi.y.is_nan() ==> p[i].y.is_nan()
            &&& lo.z.is_nan() || hi.z.is_nan() ==> p[i].z.is_nan()
        }),
    decreases n,
{
    if n > 1 {
        let was = box_of(p, n - 1);
        let q = p[n - 1];
        let k = if i < n - 1 {
            i
        } else {
            0
        };
        boxes_hold_their_points(p, n - 1, k);
        lemma_low(was.0.x, q.x, p[k].x);
        lemma_low(was.0.y, q.y, p[k].y);
        lemma_low(was.0.z, q.z, p[k].z);
        lemma_high(was.1.x, q.x, p[k].x);
        lemma_high(was.1.y, q.y, p[k].y);
        lemma_high(was.1.z, q.z, p[k].z);
    }
}

pub fn min_of(a: Scalar, b: Scalar) -> (r: Scalar)
    ensures
        r == lesser(a, b),
{
    if a.nan() || b.below(a) {
        b
    } else {
        a
    }
}

fn max_of(a: Scalar, b: Scalar) -> (r: Scalar)
    ensures
        r == greater(a, b),
{
    if a.nan() || a.below(b) {
        b
    } else {
        a
    }
}

/// The box of some points.
pub fn bbox(points: &Vec<Vec3>) -> (r: (Vec3, Vec3))
    ensures
        r == box_of(points@, points.len() as int),
{
    if points.len() == 0 {
        return (Vec3::zero(), Vec3::zero());
    }
    let mut lo: Vec3 = points[0];
    let mut hi: Vec3 = points[0];
    let mut i: usize = 1;
    while i < points.len()
        invariant
            1 <= i <= points.len(),
            (lo, hi) == box_of(points@, i as int),
        decreases points.len() - i,
    {
        let p = points[i];
        lo = Vec3 { x: min_of(lo.x, p.x), y: min_of(lo.y, p.y), z: min_of(lo.z, p.z) };
        hi = Vec3 { x: max_of(hi.x, p.x), y: max_of(hi.y, p.y), z: max_of(hi.z, p.z) };
        i = i + 1;
    }
    (lo, hi)
}

/// How many boundary faces have a centre and an area vector.
pub open spec fn boundary_count(m: HostMesh) -> nat {
    let n = m.n_boundary_faces as nat;
    let a = if n < m.b_cf.len() { n } else { m.b_cf.len() as nat };
    if a < m.b_sf.len() {
        a
    } else {
        m.b_sf.len() as nat
    }
}

/// What the subsets of a surface hold.
pub open spec fn subsets_are(s: Seq<PatchSubset>, m: HostMesh, d: Seq<int>) -> bool {
    &&& s.len() == m.patches.len()
    &&& forall|p: int|
        0 <= p < s.len() ==> (#[trigger] s[p]).name@ == m.patches@[p].name@ && s[p].face_indices@
            == patch_triangles(m.b_patch@, d, p, d.len() as int)
}

/// The surface of a mesh's boundary: for every face that is drawn a square of two
/// triangles, which belong to the face's patch.
pub fn boundary_surface(m: &HostMesh, quads: &Vec<Quad>) -> (r: SurfaceOut)
    requires
        quads.len() == boundary_count(*m),
        quads.len() <= 0x3fff_ffff,
    ensures
        ({
            let d = drawn(quads@, quads.len() as int);
            &&& r.points@ == surface_points(quads@, d)
            &&& r.face_vertex_counts@ == Seq::new(2 * d.len(), |i: int| 3u32)
            &&& r.face_vertex_indices@ == Seq::new(6 * d.len(), |i: int| triangle_corner(i))
            &&& r.extent == box_of(r.points@, r.points.len() as int)
            &&& subsets_are(r.patches@, *m, d)
        }),
{
    let mut points: Vec<Vec3> = Vec::new();
    let mut counts: Vec<u32> = Vec::new();
    let mut indices: Vec<u32> = Vec::new();
    let mut patches: Vec<PatchSubset> = blank_subsets(m);
    let ghost mut d: Seq<int> = Seq::empty();
    let mut f: usize = 0;
    while f < quads.len()
        invariant
            f <= quads.len(),
            quads.len() <= 0x3fff_ffff,
            d == drawn(quads@, f as int),
            d.len() <= f,
            points@ == surface_points(quads@, d),
            counts@ == Seq::new(2 * d.len(), |i: int| 3u32),
            indices@ == Seq::new(6 * d.len(), |i: int| triangle_corner(i)),
            subsets_are(patches@, *m, d),
        decreases quads.len() - f,
    {
        let q = quads[f];
        if (Scalar { bits: 0 }).below(q.area) {
            let ghost was = d;
            let ghost wp = points@;
            let ghost wi = indices@;
            let ghost wc = counts@;
            let ghost ws = patches@;
            proof {
                d = was.push(f as int);
            }
            let base: u32 = points.len() as u32;
            let t: u32 = counts.len() as u32;
            points.push(q.p0);
            points.push(q.p1);
            points.push(q.p2);
            points.push(q.p3);
            counts.push(3);
            counts.push(3);
            indices.push(base);
            indices.push(base + 1);
            indices.push(base + 2);
            indices.push(base);
            indices.push(base + 2);
            indices.push(base + 3);
            proof {
                lemma_points_grow(quads@, was, f as int);
                assert(points@ =~= surface_points(quads@, d));
                assert(counts@ =~= Seq::new(2 * d.len(), |i: int| 3u32));
                lemma_corners_grow(was.len());
                assert(indices@ =~= Seq::new(6 * d.len(), |i: int| triangle_corner(i)));
            }
            note_triangles(&mut patches, m, f, t, Ghost(was));
        }
        f = f + 1;
    }
    let extent = bbox(&points);
    SurfaceOut {
        points,
        face_vertex_counts: counts,
        face_vertex_indices: indices,
        extent,
        patches,
    }
}

proof fn lemma_points_grow(q: Seq<Quad>, d: Seq<int>, f: int)
    ensures
        surface_points(q, d.push(f)) == surface_points(q, d).push(q[f].p0).push(q[f].p1).push(
            q[f].p2,
        ).push(q[f].p3),
{
    let e = d.push(f);
    let n = d.len() as int;
    let a = surface_points(q, e);
    let b = surface_points(q, d).push(q[f].p0).push(q[f].p1).push(q[f].p2).push(q[f].p3);
    assert(a.len() == b.len());
    assert forall|i: int| 0 <= i < a.len() implies a[i] == b[i] by {
        if i < 4 * n {
            assert(i / 4 < n);
            assert(e[i / 4] == d[i / 4]);
        } else {
            assert(i / 4 == n);
            assert(i == 4 * n || i == 4 * n + 1 || i == 4 * n + 2 || i == 4 * n + 3);
        }
    }
    assert(a =~= b);
}

proof fn lemma_corners_grow(n: nat)
    requires
        n < 0x3fff_ffff,
    ensures
        triangle_corner(6 * n as int) == 4 * n,
        triangle_corner(6 * n as int + 1) == 4 * n + 1,
        triangle_corner(6 * n as int + 2) == 4 * n + 2,
        triangle_corner(6 * n as int + 3) == 4 * n,
        triangle_corner(6 * n as int + 4) == 4 * n + 2,
        triangle_corner(6 * n as int + 5) == 4 * n + 3,
{
}

fn blank_subsets(m: &HostMesh) -> (r: Vec<PatchSubset>)
    ensures
        subsets_are(r@, *m, Seq::empty()),
{
    let mut r: Vec<PatchSubset> = Vec::new();
    let mut p: usize = 0;
    while p < m.patches.len()
        invariant
            p <= m.patches.len(),
            r.len() == p,
            forall|k: int|
                0 <= k < p ==> (#[trigger] r@[k]).name@ == m.patches@[k].name@
                    && r@[k].face_indices@ == Seq::<u32>::empty(),
        decreases m.patches.len() - p,
    {
        r.push(PatchSubset { name: copy(&m.patches[p].name), face_indices: Vec::new() });
        p = p + 1;
    }
    r
}

fn note_triangles(patches: &mut Vec<PatchSubset>, m: &HostMesh, f: usize, t: u32, d: Ghost<Seq<int>>)
    requires
        subsets_are(old(patches)@, *m, d@),
        t == 2 * d@.len(),
        d@.len() < 0x3fff_ffff,
    ensures
        subsets_are(final(patches)@, *m, d@.push(f as int)),
{
    let ghost ws = patches@;
    let ghost e = d@.push(f as int);
    proof {
        assert forall|p: int, n: int| 0 <= n <= d@.len() implies patch_triangles(
            m.b_patch@,
            e,
            p,
            n,
        ) == #[trigger] patch_triangles(m.b_patch@, d@, p, n) by {
            lemma_same_prefix(m.b_patch@, d@, e, p, n);
        }
    }
    let patch: Label = if f < m.b_patch.len() { m.b_patch[f] } else { -1 };
    if patch >= 0 && (patch as usize) < patches.len() {
        let k: usize = patch as usize;
        patches[k].face_indices.push(t);
        patches[k].face_indices.push(t + 1);
        proof {
            assert forall|p: int| 0 <= p < patches.len() implies (#[trigger] patches@[p]).name@
                == m.patches@[p].name@ && patches@[p].face_indices@ == patch_triangles(
                m.b_patch@,
                e,
                p,
                e.len() as int,
            ) by {
                assert(ws[p].face_indices@ == patch_triangles(
                    m.b_patch@,
                    d@,
                    p,
                    d@.len() as int,
                ));
            }
        }
    } else {
        proof {
            assert forall|p: int| 0 <= p < patches.len() implies (#[trigger] patches@[p]).name@
                == m.patches@[p].name@ && patches@[p].face_indices@ == patch_triangles(
                m.b_patch@,
                e,
                p,
                e.len() as int,
            ) by {
                assert(ws[p].face_indices@ == patch_triangles(
                    m.b_patch@,
                    d@,
                    p,
                    d@.len() as int,
                ));
            }
        }
    }
}

proof fn lemma_same_prefix(b_patch: Seq<Label>, d: Seq<int>, e: Seq<int>, p: int, n: int)
    requires
        0 <= n <= d.len(),
        d.len() <= e.len(),
        forall|i: int| 0 <= i < d.len() ==> d[i] == e[i],
    ensures
        patch_triangles(b_patch, e, p, n) == patch_triangles(b_patch, d, p, n),
    decreases n,
{
    if n > 0 {
        lemma_same_prefix(b_patch, d, e, p, n - 1);
    }
}

// --------------------------------------------------------------------------
//  Text
// --------------------------------------------------------------------------
/// `(x, y, z)`
pub open spec fn vector_text(v: Vec3) -> Seq<char> {
    "("@ + pointed(v.x) + ", "@ + pointed(v.y) + ", "@ + pointed(v.z) + ")"@
}

fn fmt_v3(v: Vec3) -> (s: String)
    ensures
        s@ == vector_text(v),
{
    let mut s = copy("(");
    push_text(&mut s, &show_pointed(v.x));
    push_text(&mut s, ", ");
    push_text(&mut s, &show_pointed(v.y));
    push_text(&mut s, ", ");
    push_text(&mut s, &show_pointed(v.z));
    push_text(&mut s, ")");
    s
}

/// A time: an integer where it has no fraction.
pub open spec fn time_text(t: Scalar) -> Seq<char> {
    match t.wide_label() {
        Some(n) => signed_decimal(n),
        None => pointed(t),
    }
}

fn fmt_time(t: Scalar) -> (s: String)
    ensures
        s@ == time_text(t),
{
    match t.as_wide_label() {
        Some(n) => {
            let mut s = String::new();
            push_signed(&mut s, n);
            assert(s@ =~= signed_decimal(n as int));
            s
        },
        None => show_pointed(t),
    }
}

/// The first `n` items of a list, with commas between them.
pub open spec fn listed(n: int, item: spec_fn(int) -> Seq<char>) -> Seq<char>
    decreases n,
{
    if n <= 0 {
        Seq::empty()
    } else if n == 1 {
        item(0)
    } else {
        listed(n - 1, item) + ", "@ + item(n - 1)
    }
}

pub open spec fn vector_item(v: Seq<Vec3>) -> spec_fn(int) -> Seq<char> {
    |i: int| vector_text(v[i])
}

pub open spec fn number_item(v: Seq<u32>) -> spec_fn(int) -> Seq<char> {
    |i: int| decimal(v[i] as nat)
}

fn join_vectors(v: &Vec<Vec3>) -> (s: String)
    ensures
        s@ == listed(v.len() as int, vector_item(v@)),
{
    let mut s = String::new();
    let mut i: usize = 0;
    assert(s@ =~= Seq::empty());
    while i < v.len()
        invariant
            i <= v.len(),
            s@ == listed(i as int, vector_item(v@)),
        decreases v.len() - i,
    {
        if i > 0 {
            push_text(&mut s, ", ");
        }
        let ghost was = s@;
        push_text(&mut s, &fmt_v3(v[i]));
        assert(i == 0 ==> s@ =~= vector_text(v@[0]));
        i = i + 1;
    }
    s
}

fn join_ints(v: &Vec<u32>) -> (s: String)
    ensures
        s@ == listed(v.len() as int, number_item(v@)),
{
    let mut s = String::new();
    let mut i: usize = 0;
    assert(s@ =~= Seq::empty());
    while i < v.len()
        invariant
            i <= v.len(),
            s@ == listed(i as int, number_item(v@)),
        decreases v.len() - i,
    {
        if i > 0 {
            push_text(&mut s, ", ");
        }
        push_decimal(&mut s, v[i] as u64);
        assert(i == 0 ==> s@ =~= decimal(v@[0] as nat));
        i = i + 1;
    }
    s
}

pub open spec fn extent_line_text(lo: Seq<char>, hi: Seq<char>) -> Seq<char> {
    "    float3[] extent = ["@
        + lo
        + ", "@
        + hi
        + "]\n"@
}

fn extent_line_message(lo: &str, hi: &str) -> (r: String)
    ensures
        r@ == extent_line_text(lo@, hi@),
{
    let mut s = copy("    float3[] extent = [");
    push_text(&mut s, lo);
    push_text(&mut s, ", ");
    push_text(&mut s, hi);
    push_text(&mut s, "]\n");
    s
}

pub open spec fn frame_line_text(time: Seq<char>, path: Seq<char>) -> Seq<char> {
    "            "@
        + time
        + ": @"@
        + path
        + "@,\n"@
}

fn frame_line_message(time: &str, path: &str) -> (r: String)
    ensures
        r@ == frame_line_text(time@, path@),
{
    let mut s = copy("            ");
    push_text(&mut s, time);
    push_text(&mut s, ": @");
    push_text(&mut s, path);
    push_text(&mut s, "@,\n");
    s
}

pub open spec fn single_line_text(path: Seq<char>) -> Seq<char> {
    "        asset filePath = @"@
        + path
        + "@\n"@
}

fn single_line_message(path: &str) -> (r: String)
    ensures
        r@ == single_line_text(path@),
{
    let mut s = copy("        asset filePath = @");
    push_text(&mut s, path);
    push_text(&mut s, "@\n");
    s
}

pub open spec fn field_line_text(field: Seq<char>, name: Seq<char>) -> Seq<char> {
    "    rel field:"@
        + field
        + " = </"@
        + name
        + "/"@
        + field
        + ">\n\n"@
}

fn field_line_message(field: &str, name: &str) -> (r: String)
    ensures
        r@ == field_line_text(field@, name@),
{
    let mut s = copy("    rel field:");
    push_text(&mut s, field);
    push_text(&mut s, " = </");
    push_text(&mut s, name);
    push_text(&mut s, "/");
    push_text(&mut s, field);
    push_text(&mut s, ">\n\n");
    s
}

pub open spec fn subset_block_text(name: Seq<char>, indices: Seq<char>) -> Seq<char> {
    "\n    def GeomSubset \""@
        + name
        + "\"\n    {\n        uniform token elementType = \"face\"\n        uniform token familyName = \"materialBind\"\n        int[] indices = ["@
        + indices
        + "]\n    }\n"@
}

fn subset_block_message(name: &str, indices: &str) -> (r: String)
    ensures
        r@ == subset_block_text(name@, indices@),
{
    let mut s = copy("\n    def GeomSubset \"");
    push_text(&mut s, name);
    push_text(&mut s, "\"\n    {\n        uniform token elementType = \"face\"\n        uniform token familyName = \"materialBind\"\n        int[] indices = [");
    push_text(&mut s, indices);
    push_text(&mut s, "]\n    }\n");
    s
}

/// The files of the first `n` times.
pub open spec fn frames_text(f: Seq<VdbFrame>, n: int) -> Seq<char>
    decreases n,
{
    if n <= 0 {
        Seq::empty()
    } else {
        frames_text(f, n - 1) + frame_line_text(time_text(f[n - 1].time), f[n - 1].path@)
    }
}

/// Where the data of a volume is.
pub open spec fn source_text(v: VdbSource) -> Seq<char> {
    match v {
        VdbSource::Single(p) => single_line_text(p@),
        VdbSource::Series(f) => "        asset filePath.timeSamples = {\n"@ + frames_text(
            f@,
            f.len() as int,
        ) + "        }\n"@,
    }
}

pub open spec fn extent_text(e: Option<(Vec3, Vec3)>) -> Seq<char> {
    match e {
        Some((lo, hi)) => extent_line_text(vector_text(lo), vector_text(hi)),
        None => Seq::empty(),
    }
}

/// A volume and its asset.
pub open spec fn volume_text(v: VolumeAsset) -> Seq<char> {
    "def Volume \""@ + v.name@ + "\"\n"@ + "{\n"@ + extent_text(v.extent) + field_line_text(
        v.field_name@,
        v.name@,
    ) + "    def OpenVDBAsset \""@ + v.field_name@ + "\"\n"@ + "    {\n"@ + source_text(v.vdb)
        + "        token fieldName = \""@ + v.field_name@ + "\"\n"@ + "    }\n"@ + "}\n"@
}

fn write_source(v: &VdbSource) -> (s: String)
    ensures
        s@ == source_text(*v),
{
    match v {
        VdbSource::Single(p) => single_line_message(p),
        VdbSource::Series(f) => {
            let mut t = String::new();
            let mut i: usize = 0;
            assert(t@ =~= Seq::empty());
            while i < f.len()
                invariant
                    i <= f.len(),
                    t@ == frames_text(f@, i as int),
                decreases f.len() - i,
            {
                push_text(&mut t, &frame_line_message(&fmt_time(f[i].time), &f[i].path));
                i = i + 1;
            }
            let mut s = copy("        asset filePath.timeSamples = {\n");
            push_text(&mut s, &t);
            push_text(&mut s, "        }\n");
            s
        },
    }
}

fn write_extent(e: &Option<(Vec3, Vec3)>) -> (s: String)
    ensures
        s@ == extent_text(*e),
{
    match e {
        Some((lo, hi)) => extent_line_message(&fmt_v3(*lo), &fmt_v3(*hi)),
        None => {
            let s = String::new();
            assert(s@ =~= Seq::empty());
            s
        },
    }
}

fn write_volume(v: &VolumeAsset) -> (s: String)
    ensures
        s@ == volume_text(*v),
{
    let mut s = copy("def Volume \"");
    push_text(&mut s, &v.name);
    push_text(&mut s, "\"\n");
    push_text(&mut s, "{\n");
    push_text(&mut s, &write_extent(&v.extent));
    push_text(&mut s, &field_line_message(&v.field_name, &v.name));
    push_text(&mut s, "    def OpenVDBAsset \"");
    push_text(&mut s, &v.field_name);
    push_text(&mut s, "\"\n");
    push_text(&mut s, "    {\n");
    push_text(&mut s, &write_source(&v.vdb));
    push_text(&mut s, "        token fieldName = \"");
    push_text(&mut s, &v.field_name);
    push_text(&mut s, "\"\n");
    push_text(&mut s, "    }\n");
    push_text(&mut s, "}\n");
    s
}

/// The subsets of the first `n` patches.
pub open spec fn subsets_text(p: Seq<PatchSubset>, n: int) -> Seq<char>
    decreases n,
{
    if n <= 0 {
        Seq::empty()
    } else {
        let i = p[n - 1].face_indices@;
        subsets_text(p, n - 1) + subset_block_text(
            p[n - 1].name@,
            listed(i.len() as int, number_item(i)),
        )
    }
}

/// The surface of the boundary.
pub open spec fn surface_text(s: SurfaceOut) -> Seq<char> {
    let c = s.face_vertex_counts@;
    let i = s.face_vertex_indices@;
    "def Mesh \"boundary\"\n"@ + "{\n"@
        + "    uniform token subsetFamily:materialBind:familyType = \"partition\"\n"@
        + "    point3f[] points = ["@ + listed(s.points.len() as int, vector_item(s.points@)) + "]\n"@
        + "    int[] faceVertexCounts = ["@ + listed(c.len() as int, number_item(c)) + "]\n"@
        + "    int[] faceVertexIndices = ["@ + listed(i.len() as int, number_item(i)) + "]\n"@
        + extent_line_text(vector_text(s.extent.0), vector_text(s.extent.1)) + subsets_text(
        s.patches@,
        s.patches.len() as int,
    ) + "}\n"@
}

fn write_boundary_mesh(m: &SurfaceOut) -> (s: String)
    ensures
        s@ == surface_text(*m),
{
    let mut t = String::new();
    let mut i: usize = 0;
    assert(t@ =~= Seq::empty());
    while i < m.patches.len()
        invariant
            i <= m.patches.len(),
            t@ == subsets_text(m.patches@, i as int),
        decreases m.patches.len() - i,
    {
        let p = &m.patches[i];
        push_text(&mut t, &subset_block_message(&p.name, &join_ints(&p.face_indices)));
        i = i + 1;
    }
    let mut s = copy("def Mesh \"boundary\"\n");
    push_text(&mut s, "{\n");
    push_text(&mut s, "    uniform token subsetFamily:materialBind:familyType = \"partition\"\n");
    push_text(&mut s, "    point3f[] points = [");
    push_text(&mut s, &join_vectors(&m.points));
    push_text(&mut s, "]\n");
    push_text(&mut s, "    int[] faceVertexCounts = [");
    push_text(&mut s, &join_ints(&m.face_vertex_counts));
    push_text(&mut s, "]\n");
    push_text(&mut s, "    int[] faceVertexIndices = [");
    push_text(&mut s, &join_ints(&m.face_vertex_indices));
    push_text(&mut s, "]\n");
    push_text(&mut s, &extent_line_message(&fmt_v3(m.extent.0), &fmt_v3(m.extent.1)));
    push_text(&mut s, &t);
    push_text(&mut s, "}\n");
    s
}

/// The first `n` volumes of a scene, each behind an empty line.
pub open spec fn volumes_text(v: Seq<VolumeAsset>, n: int) -> Seq<char>
    decreases n,
{
    if n <= 0 {
        Seq::empty()
    } else {
        volumes_text(v, n - 1) + "\n"@ + volume_text(v[n - 1])
    }
}

/// The text of a scene.
pub open spec fn scene_text(s: SceneSpec) -> Seq<char> {
    "#usda 1.0\n(\n    metersPerUnit = 1\n    upAxis = \"Z\"\n)\n"@ + volumes_text(
        s.volumes@,
        s.volumes.len() as int,
    ) + (match s.boundary {
        Some(b) => "\n"@ + surface_text(b),
        None => Seq::empty(),
    })
}

/// Write a scene.
pub fn write_usda_scene(scene: &SceneSpec) -> (s: String)
    ensures
        s@ == scene_text(*scene),
{
    let mut t = String::new();
    let mut i: usize = 0;
    assert(t@ =~= Seq::empty());
    while i < scene.volumes.len()
        invariant
            i <= scene.volumes.len(),
            t@ == volumes_text(scene.volumes@, i as int),
        decreases scene.volumes.len() - i,
    {
        push_text(&mut t, "\n");
        push_text(&mut t, &write_volume(&scene.volumes[i]));
        i = i + 1;
    }
    let mut s = copy("#usda 1.0\n(\n    metersPerUnit = 1\n    upAxis = \"Z\"\n)\n");
    push_text(&mut s, &t);
    match &scene.boundary {
        Some(b) => {
            let mut u = copy("\n");
            push_text(&mut u, &write_boundary_mesh(b));
            push_text(&mut s, &u);
        },
        None => {},
    }
    assert(s@ =~= scene_text(*scene));
    s
}

} // verus!
