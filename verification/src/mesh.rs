//! A mesh: cells, the faces between them, and the patches of its boundary.

use vstd::prelude::*;

use crate::list::{all_buckets, buckets, flat, flat_holds_every_list, lemma_flat_len, rows};
use crate::scalar::Scalar;
use crate::text::{copy, same};

verus! {

/// An index as it is stored in a mesh.
pub type Label = i32;

/// A point or a vector.
#[derive(Debug, Clone, Copy, PartialEq, Eq, Structural)]
pub struct Vec3 {
    pub x: Scalar,
    pub y: Scalar,
    pub z: Scalar,
}

/// The origin.
pub open spec fn origin() -> Vec3 {
    Vec3 { x: Scalar { bits: 0 }, y: Scalar { bits: 0 }, z: Scalar { bits: 0 } }
}

impl Vec3 {
    pub fn new(x: Scalar, y: Scalar, z: Scalar) -> (r: Vec3)
        ensures
            r == (Vec3 { x, y, z }),
    {
        Vec3 { x, y, z }
    }

    pub fn zero() -> (r: Vec3)
        ensures
            r == origin(),
    {
        let nil = Scalar { bits: 0 };
        Vec3 { x: nil, y: nil, z: nil }
    }
}

/// What a patch does, as far as the addressing is concerned.
#[derive(Debug, Clone, Copy, PartialEq, Eq, Structural)]
pub enum PatchKind {
    Generic,
    Cyclic,
    Empty,
}

/// The kind that a patch type stands for.
pub open spec fn kind_of_type(t: Seq<char>) -> PatchKind {
    if t == "cyclic"@ {
        PatchKind::Cyclic
    } else if t == "empty"@ {
        PatchKind::Empty
    } else {
        PatchKind::Generic
    }
}

impl PatchKind {
    /// The kind as a number, in the order of declaration.
    pub open spec fn number(self) -> Label {
        match self {
            PatchKind::Generic => 0,
            PatchKind::Cyclic => 1,
            PatchKind::Empty => 2,
        }
    }

    pub fn label(self) -> (r: Label)
        ensures
            r == self.number(),
    {
        match self {
            PatchKind::Generic => 0,
            PatchKind::Cyclic => 1,
            PatchKind::Empty => 2,
        }
    }

    pub fn from_type(t: &str) -> (r: PatchKind)
        ensures
            r == kind_of_type(t@),
    {
        if same(t, "cyclic") {
            PatchKind::Cyclic
        } else if same(t, "empty") {
            PatchKind::Empty
        } else {
            PatchKind::Generic
        }
    }
}

/// A patch: a run of boundary faces.
#[derive(Debug, Clone)]
pub struct PatchInfo {
    pub name: String,
    pub patch_type: String,
    pub kind: PatchKind,
    /// The first face, counted among the boundary faces.
    pub start: usize,
    pub size: usize,
    /// The other half of a cyclic pair.
    pub nbr_patch: Option<usize>,
}

/// The contents of a [`PatchInfo`].
pub struct Patch {
    pub name: Seq<char>,
    pub patch_type: Seq<char>,
    pub kind: PatchKind,
    pub start: int,
    pub size: int,
    pub nbr_patch: Option<usize>,
}

impl View for PatchInfo {
    type V = Patch;

    open spec fn view(&self) -> Patch {
        Patch {
            name: self.name@,
            patch_type: self.patch_type@,
            kind: self.kind,
            start: self.start as int,
            size: self.size as int,
            nbr_patch: self.nbr_patch,
        }
    }
}

impl PatchInfo {
    pub fn copy(&self) -> (r: PatchInfo)
        ensures
            r@ == self@,
    {
        PatchInfo {
            name: copy(&self.name),
            patch_type: copy(&self.patch_type),
            kind: self.kind,
            start: self.start,
            size: self.size,
            nbr_patch: self.nbr_patch,
        }
    }
}

/// The contents of a list of patches.
pub open spec fn patches_of(v: Seq<PatchInfo>) -> Seq<Patch> {
    v.map_values(|p: PatchInfo| p@)
}

pub fn copy_patches(v: &Vec<PatchInfo>) -> (r: Vec<PatchInfo>)
    ensures
        patches_of(r@) == patches_of(v@),
        r.len() == v.len(),
{
    let mut r: Vec<PatchInfo> = Vec::new();
    let mut i: usize = 0;
    while i < v.len()
        invariant
            i <= v.len(),
            r.len() == i,
            forall|k: int| 0 <= k < i ==> (#[trigger] r[k])@ == v[k]@,
        decreases v.len() - i,
    {
        r.push(v[i].copy());
        i = i + 1;
    }
    assert(patches_of(r@) =~= patches_of(v@));
    r
}

/// A copy of a list.
pub fn copy_list<T: Copy>(v: &Vec<T>) -> (r: Vec<T>)
    ensures
        r@ == v@,
{
    copy_part(v, 0, v.len())
}

/// The part of a list from `a` to `b`.
pub fn copy_part<T: Copy>(v: &Vec<T>, a: usize, b: usize) -> (r: Vec<T>)
    requires
        a <= b <= v.len(),
    ensures
        r@ == v@.subrange(a as int, b as int),
{
    let mut r: Vec<T> = Vec::new();
    let mut i: usize = a;
    while i < b
        invariant
            a <= i <= b <= v.len(),
            r@ == v@.subrange(a as int, i as int),
        decreases b - i,
    {
        r.push(v[i]);
        i = i + 1;
        assert(v@.subrange(a as int, i - 1).push(v[i - 1]) =~= v@.subrange(a as int, i as int));
    }
    r
}

/// `n` copies of a value.
pub open spec fn repeated<T>(x: T, n: int) -> Seq<T> {
    Seq::new(n as nat, |i: int| x)
}

pub fn filled<T: Copy>(x: T, n: usize) -> (r: Vec<T>)
    ensures
        r@ == repeated(x, n as int),
{
    let mut r: Vec<T> = Vec::new();
    let mut i: usize = 0;
    while i < n
        invariant
            i <= n,
            r@ == repeated(x, i as int),
        decreases n - i,
    {
        r.push(x);
        i = i + 1;
        assert(r@ =~= repeated(x, i as int));
    }
    r
}

// --------------------------------------------------------------------------
//  Cells and their faces
// --------------------------------------------------------------------------
/// The cells on the two sides of each internal face: the owner of face `f` at
/// `2 f`, its neighbour behind.
pub open spec fn sides(owner: Seq<Label>, neighbour: Seq<Label>) -> Seq<usize> {
    Seq::new(
        2 * neighbour.len(),
        |j: int| if j % 2 == 0 { owner[j / 2] as usize } else { neighbour[j / 2] as usize },
    )
}

/// The sides of faces that cell `c` stands on, in the order of the faces.
pub open spec fn cell_sides(owner: Seq<Label>, neighbour: Seq<Label>, n: nat) -> Seq<Seq<usize>> {
    all_buckets(sides(owner, neighbour), n)
}

/// The cells of the boundary faces.
pub open spec fn as_cells(v: Seq<Label>) -> Seq<usize> {
    v.map_values(|c: Label| c as usize)
}

/// A table of rows: where each row starts, and the rows one behind the other.
pub open spec fn is_table<T>(offset: Seq<Label>, items: Seq<T>, b: Seq<Seq<T>>) -> bool {
    &&& offset.len() == b.len() + 1
    &&& forall|k: int|
        0 <= k <= b.len() ==> (#[trigger] offset[k]) == flat(b, k).len()
    &&& items == flat(b, b.len() as int)
}

/// Row `k` of a table is what stands between the two offsets.
pub proof fn table_row<T>(offset: Seq<Label>, items: Seq<T>, b: Seq<Seq<T>>, k: int)
    requires
        is_table(offset, items, b),
        0 <= k < b.len(),
    ensures
        0 <= offset[k] <= offset[k + 1] <= items.len(),
        items.subrange(offset[k] as int, offset[k + 1] as int) == b[k],
{
    flat_holds_every_list(b, k, b.len() as int);
}

/// The face of a side.
pub open spec fn side_face(j: usize) -> Label {
    (j / 2) as Label
}

/// Whether a side is the owner's, as a number.
pub open spec fn side_own(j: usize) -> Label {
    if j % 2 == 0 {
        1
    } else {
        0
    }
}

/// A mesh as a solver addresses it.
///
/// `cf_offset`, `cf_face` and `cf_own` list the internal faces of each cell;
/// `bcf_offset` and `bcf_face` list its boundary faces.
#[derive(Debug, Clone)]
pub struct HostMesh {
    pub n_cells: usize,
    pub n_internal_faces: usize,
    pub n_boundary_faces: usize,
    pub n_points: usize,
    pub owner: Vec<Label>,
    pub neighbour: Vec<Label>,
    pub patches: Vec<PatchInfo>,
    pub b_face_cells: Vec<Label>,
    pub b_kind: Vec<Label>,
    pub b_patch: Vec<Label>,
    pub b_nbr_cell: Vec<Label>,
    pub b_weights: Vec<Scalar>,
    pub v: Vec<Scalar>,
    pub c: Vec<Vec3>,
    pub sf: Vec<Vec3>,
    pub mag_sf: Vec<Scalar>,
    pub cf: Vec<Vec3>,
    pub weights: Vec<Scalar>,
    pub delta_coeffs: Vec<Scalar>,
    pub non_orth_corr: Vec<Vec3>,
    pub b_sf: Vec<Vec3>,
    pub b_mag_sf: Vec<Scalar>,
    pub b_cf: Vec<Vec3>,
    pub b_delta_coeffs: Vec<Scalar>,
    pub b_y: Vec<Scalar>,
    pub cf_offset: Vec<Label>,
    pub cf_face: Vec<Label>,
    pub cf_own: Vec<Label>,
    pub bcf_offset: Vec<Label>,
    pub bcf_face: Vec<Label>,
}

impl HostMesh {
    /// The addressing is within bounds.
    pub open spec fn addressed(&self) -> bool {
        &&& self.owner.len() == self.n_internal_faces
        &&& self.neighbour.len() == self.n_internal_faces
        &&& self.b_face_cells.len() == self.n_boundary_faces
        &&& self.n_cells <= i32::MAX
        &&& 2 * self.n_internal_faces <= i32::MAX
        &&& self.n_boundary_faces <= i32::MAX
        &&& forall|f: int|
            0 <= f < self.n_internal_faces ==> 0 <= #[trigger] self.owner[f] < self.n_cells
        &&& forall|f: int|
            0 <= f < self.n_internal_faces ==> 0 <= #[trigger] self.neighbour[f] < self.n_cells
        &&& forall|f: int|
            0 <= f < self.n_boundary_faces ==> 0 <= #[trigger] self.b_face_cells[f] < self.n_cells
    }

    /// The sides of faces that each cell stands on.
    pub open spec fn rows_of_sides(&self) -> Seq<Seq<usize>> {
        cell_sides(self.owner@, self.neighbour@, self.n_cells as nat)
    }

    /// The boundary faces of each cell.
    pub open spec fn rows_of_boundary(&self) -> Seq<Seq<usize>> {
        all_buckets(as_cells(self.b_face_cells@), self.n_cells as nat)
    }

    /// The maps from cells to faces list what the addressing says.
    pub open spec fn mapped(&self) -> bool {
        let cs = self.rows_of_sides();
        let bs = self.rows_of_boundary();
        &&& is_table(self.cf_offset@, flat(cs, cs.len() as int), cs)
        &&& self.cf_face@ == flat(cs, cs.len() as int).map_values(|j: usize| side_face(j))
        &&& self.cf_own@ == flat(cs, cs.len() as int).map_values(|j: usize| side_own(j))
        &&& is_table(self.bcf_offset@, flat(bs, bs.len() as int), bs)
        &&& self.bcf_face@ == flat(bs, bs.len() as int).map_values(|j: usize| j as Label)
    }
}

/// Where each list starts, and the lists one behind the other.
pub fn join_rows(b: &Vec<Vec<usize>>) -> (r: (Vec<Label>, Vec<usize>))
    requires
        flat(rows(b@), b.len() as int).len() <= i32::MAX,
    ensures
        is_table(r.0@, r.1@, rows(b@)),
{
    let mut offset: Vec<Label> = Vec::new();
    let mut items: Vec<usize> = Vec::new();
    offset.push(0);
    let ghost all = rows(b@);
    let mut k: usize = 0;
    while k < b.len()
        invariant
            k <= b.len(),
            all == rows(b@),
            flat(all, b.len() as int).len() <= i32::MAX,
            offset.len() == k + 1,
            items@ == flat(all, k as int),
            forall|j: int| 0 <= j <= k ==> (#[trigger] offset[j]) == flat(all, j).len(),
        decreases b.len() - k,
    {
        let ghost before = items@;
        let mut i: usize = 0;
        while i < b[k].len()
            invariant
                k < b.len(),
                i <= b[k as int].len(),
                items@ == before + b[k as int]@.take(i as int),
            decreases b[k as int].len() - i,
        {
            items.push(b[k][i]);
            i = i + 1;
            assert(b[k as int]@.take(i - 1).push(b[k as int][i - 1]) =~= b[k as int]@.take(
                i as int,
            ));
        }
        assert(b[k as int]@.take(i as int) =~= all[k as int]);
        proof {
            lemma_flat_len(all, k + 1, b.len() as int);
        }
        offset.push(items.len() as Label);
        k = k + 1;
    }
    (offset, items)
}

/// Sorting into buckets keeps the number of items.
pub proof fn lemma_buckets_total(keys: Seq<usize>, n: nat, i: int)
    requires
        0 <= i <= keys.len() <= usize::MAX,
        forall|j: int| 0 <= j < keys.len() ==> keys[j] < n,
    ensures
        flat(Seq::new(n, |k: int| crate::list::bucket(keys, k, i)), n as int).len() == i,
    decreases i,
{
    let b = Seq::new(n, |k: int| crate::list::bucket(keys, k, i));
    if i == 0 {
        lemma_empty_rows(b, n as int);
    } else {
        lemma_buckets_total(keys, n, i - 1);
        let a = Seq::new(n, |k: int| crate::list::bucket(keys, k, i - 1));
        lemma_one_longer(a, b, keys[i - 1] as int, n as int);
    }
}

proof fn lemma_empty_rows(b: Seq<Seq<usize>>, n: int)
    requires
        0 <= n <= b.len(),
        forall|k: int| 0 <= k < b.len() ==> (#[trigger] b[k]).len() == 0,
    ensures
        flat(b, n).len() == 0,
    decreases n,
{
    if n > 0 {
        lemma_empty_rows(b, n - 1);
    }
}

proof fn lemma_one_longer(a: Seq<Seq<usize>>, b: Seq<Seq<usize>>, at: int, n: int)
    requires
        0 <= n <= a.len() == b.len(),
        0 <= at < a.len(),
        forall|k: int|
            #![trigger b[k]]
            0 <= k < b.len() ==> b[k].len() == a[k].len() + (if k == at {
                1int
            } else {
                0
            }),
    ensures
        flat(b, n).len() == flat(a, n).len() + (if at < n {
            1int
        } else {
            0
        }),
    decreases n,
{
    if n > 0 {
        lemma_one_longer(a, b, at, n - 1);
    }
}

impl HostMesh {
    /// An empty mesh.
    pub fn empty() -> (m: HostMesh)
        ensures
            m.n_cells == 0 && m.n_internal_faces == 0 && m.n_boundary_faces == 0 && m.n_points == 0,
            m.owner@.len() == 0 && m.neighbour@.len() == 0 && m.b_face_cells@.len() == 0,
            m.patches@.len() == 0 && m.b_nbr_cell@.len() == 0,
            m.addressed(),
    {
        HostMesh {
            n_cells: 0,
            n_internal_faces: 0,
            n_boundary_faces: 0,
            n_points: 0,
            owner: Vec::new(),
            neighbour: Vec::new(),
            patches: Vec::new(),
            b_face_cells: Vec::new(),
            b_kind: Vec::new(),
            b_patch: Vec::new(),
            b_nbr_cell: Vec::new(),
            b_weights: Vec::new(),
            v: Vec::new(),
            c: Vec::new(),
            sf: Vec::new(),
            mag_sf: Vec::new(),
            cf: Vec::new(),
            weights: Vec::new(),
            delta_coeffs: Vec::new(),
            non_orth_corr: Vec::new(),
            b_sf: Vec::new(),
            b_mag_sf: Vec::new(),
            b_cf: Vec::new(),
            b_delta_coeffs: Vec::new(),
            b_y: Vec::new(),
            cf_offset: Vec::new(),
            cf_face: Vec::new(),
            cf_own: Vec::new(),
            bcf_offset: Vec::new(),
            bcf_face: Vec::new(),
        }
    }

    /// List the faces of every cell.
    pub fn build_cell_face_maps(&mut self)
        requires
            old(self).addressed(),
        ensures
            final(self).mapped(),
            *final(self) == (HostMesh {
                cf_offset: final(self).cf_offset,
                cf_face: final(self).cf_face,
                cf_own: final(self).cf_own,
                bcf_offset: final(self).bcf_offset,
                bcf_face: final(self).bcf_face,
                ..*old(self)
            }),
    {
        let n: usize = self.n_cells;
        let n_if: usize = self.n_internal_faces;
        let mut keys: Vec<usize> = Vec::new();
        let ghost all = sides(self.owner@, self.neighbour@);
        let mut f: usize = 0;
        while f < n_if
            invariant
                f <= n_if == self.n_internal_faces,
                self.addressed(),
                n == self.n_cells,
                all == sides(self.owner@, self.neighbour@),
                keys@ == all.take(2 * f),
            decreases n_if - f,
        {
            keys.push(self.owner[f] as usize);
            keys.push(self.neighbour[f] as usize);
            f = f + 1;
            assert(keys@ =~= all.take(2 * f));
        }
        assert(keys@ =~= all);
        assert forall|i: int| 0 <= i < keys.len() implies keys[i] < n by {
            if i % 2 == 0 {
                assert(self.owner[i / 2] < n);
            } else {
                assert(self.neighbour[i / 2] < n);
            }
        }
        let sorted = buckets(&keys, n);
        proof {
            lemma_buckets_total(all, n as nat, all.len() as int);
            assert(Seq::new(n as nat, |k: int| crate::list::bucket(all, k, all.len() as int))
                =~= all_buckets(all, n as nat));
        }
        let (cf_offset, items) = join_rows(&sorted);
        let mut cf_face: Vec<Label> = Vec::new();
        let mut cf_own: Vec<Label> = Vec::new();
        let mut i: usize = 0;
        while i < items.len()
            invariant
                i <= items.len(),
                cf_face@ == items@.take(i as int).map_values(|j: usize| side_face(j)),
                cf_own@ == items@.take(i as int).map_values(|j: usize| side_own(j)),
            decreases items.len() - i,
        {
            let j: usize = items[i];
            cf_face.push((j / 2) as Label);
            cf_own.push(if j % 2 == 0 { 1 } else { 0 });
            i = i + 1;
            assert(cf_face@ =~= items@.take(i as int).map_values(|j: usize| side_face(j)));
            assert(cf_own@ =~= items@.take(i as int).map_values(|j: usize| side_own(j)));
        }
        assert(items@.take(i as int) =~= items@);
        let n_bf: usize = self.n_boundary_faces;
        let mut bkeys: Vec<usize> = Vec::new();
        let ghost ball = as_cells(self.b_face_cells@);
        let mut b: usize = 0;
        while b < n_bf
            invariant
                b <= n_bf == self.n_boundary_faces,
                self.addressed(),
                ball == as_cells(self.b_face_cells@),
                bkeys@ == ball.take(b as int),
            decreases n_bf - b,
        {
            bkeys.push(self.b_face_cells[b] as usize);
            b = b + 1;
            assert(bkeys@ =~= ball.take(b as int));
        }
        assert(bkeys@ =~= ball);
        assert forall|i: int| 0 <= i < bkeys.len() implies bkeys[i] < n by {
            assert(self.b_face_cells[i] < n);
        }
        let bsorted = buckets(&bkeys, n);
        proof {
            lemma_buckets_total(ball, n as nat, ball.len() as int);
            assert(Seq::new(n as nat, |k: int| crate::list::bucket(ball, k, ball.len() as int))
                =~= all_buckets(ball, n as nat));
        }
        let (bcf_offset, bitems) = join_rows(&bsorted);
        let mut bcf_face: Vec<Label> = Vec::new();
        let mut q: usize = 0;
        while q < bitems.len()
            invariant
                q <= bitems.len(),
                bcf_face@ == bitems@.take(q as int).map_values(|j: usize| j as Label),
            decreases bitems.len() - q,
        {
            bcf_face.push(bitems[q] as Label);
            q = q + 1;
            assert(bcf_face@ =~= bitems@.take(q as int).map_values(|j: usize| j as Label));
        }
        assert(bitems@.take(q as int) =~= bitems@);
        self.cf_offset = cf_offset;
        self.cf_face = cf_face;
        self.cf_own = cf_own;
        self.bcf_offset = bcf_offset;
        self.bcf_face = bcf_face;
    }
}

} // verus!
