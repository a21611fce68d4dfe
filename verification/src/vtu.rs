//! VTK XML files: a mesh of polyhedra with its cell data (`.vtu`), a cloud of
//! parcels (`.vtp`), and a series of files over time (`.pvd`).
//!
//! The arrays stand behind the XML, raw and little-endian: each block is its length
//! in eight bytes and then its bytes, and the XML names the offset of each.
//!
//! A mesh keeps the centre and the area vector of a face, not its corners: every
//! face of a cell is drawn as a square of its own, of that centre, area and
//! direction. The corners are floating-point arithmetic and come in as points;
//! [`face_sides`] says which face each four of them belong to.

use vstd::prelude::*;

use crate::bytes::{bytes_of, encoded, lemma_le_len, push_all, push_le, stacked};
use crate::digits::{show, shown};
use crate::error::{Error, Failure};
use crate::list::flat;
use crate::mesh::{HostMesh, Label, Vec3};
use crate::nvdb::le;
use crate::output_types::{FieldValues, OutputField};
use crate::scalar::{of_whole, whole_number, Scalar};
use crate::text::{chars_of, copy, decimal, push_decimal, push_text};

verus! {

/// The cell type of a polyhedron.
pub const VTK_POLYHEDRON: u8 = 42;

// --------------------------------------------------------------------------
//  Blocks
// --------------------------------------------------------------------------
/// The first `n` blocks, each with its length in front.
pub open spec fn appended(b: Seq<Seq<u8>>, n: int) -> Seq<u8>
    decreases n,
{
    if n <= 0 {
        Seq::empty()
    } else {
        appended(b, n - 1) + le(b[n - 1].len() as int, 8) + b[n - 1]
    }
}

/// Where block `k` begins.
pub open spec fn offset_of(b: Seq<Seq<u8>>, k: int) -> nat
    decreases k,
{
    if k <= 0 {
        0
    } else {
        offset_of(b, k - 1) + 8 + b[k - 1].len()
    }
}

/// At the offset of a block stand its length and its bytes.
pub proof fn blocks_stand_at_their_offsets(b: Seq<Seq<u8>>, k: int, n: int)
    requires
        0 <= k < n <= b.len(),
    ensures
        ({
            let at = offset_of(b, k) as int;
            let all = appended(b, n);
            &&& all.len() == offset_of(b, n)
            &&& at + 8 + b[k].len() <= all.len()
            &&& all.subrange(at, at + 8) == le(b[k].len() as int, 8)
            &&& all.subrange(at + 8, at + 8 + b[k].len()) == b[k]
        }),
    decreases n,
{
    lemma_appended_len(b, n);
    lemma_appended_len(b, n - 1);
    let at = offset_of(b, k) as int;
    let was = appended(b, n - 1);
    let all = appended(b, n);
    lemma_le_len(b[n - 1].len(), 8);
    if k == n - 1 {
        assert(all.subrange(at, at + 8) =~= le(b[k].len() as int, 8));
        assert(all.subrange(at + 8, at + 8 + b[k].len()) =~= b[k]);
    } else {
        blocks_stand_at_their_offsets(b, k, n - 1);
        assert(all.subrange(at, at + 8) =~= was.subrange(at, at + 8));
        assert(all.subrange(at + 8, at + 8 + b[k].len()) =~= was.subrange(
            at + 8,
            at + 8 + b[k].len(),
        ));
    }
}

proof fn lemma_appended_len(b: Seq<Seq<u8>>, n: int)
    ensures
        appended(b, n).len() == offset_of(b, n),
    decreases n,
{
    if n > 0 {
        lemma_appended_len(b, n - 1);
        lemma_le_len(b[n - 1].len(), 8);
    }
}

proof fn lemma_offset_mono(b: Seq<Seq<u8>>, k: int, n: int)
    requires
        k <= n,
    ensures
        offset_of(b, k) <= offset_of(b, n),
    decreases n - k,
{
    if k < n {
        lemma_offset_mono(b, k, n - 1);
    }
}

/// The contents of some blocks.
pub open spec fn contents(b: Seq<Vec<u8>>) -> Seq<Seq<u8>> {
    b.map_values(|v: Vec<u8>| v@)
}

/// The offsets of some blocks.
pub open spec fn offsets_of(b: Seq<Seq<u8>>) -> Seq<nat> {
    Seq::new(b.len(), |k: int| offset_of(b, k))
}

pub open spec fn as_nats(v: Seq<u64>) -> Seq<nat> {
    v.map_values(|x: u64| x as nat)
}

fn append_blocks(b: &Vec<Vec<u8>>) -> (r: (Vec<u64>, Vec<u8>))
    requires
        offset_of(contents(b@), b.len() as int) <= u64::MAX,
    ensures
        as_nats(r.0@) == offsets_of(contents(b@)),
        r.1@ == appended(contents(b@), b.len() as int),
{
    let ghost c = contents(b@);
    let mut at: Vec<u64> = Vec::new();
    let mut out: Vec<u8> = Vec::new();
    let mut cursor: u64 = 0;
    let mut i: usize = 0;
    assert(out@ =~= Seq::empty());
    while i < b.len()
        invariant
            i <= b.len(),
            c == contents(b@),
            offset_of(c, b.len() as int) <= u64::MAX,
            at.len() == i,
            forall|k: int| 0 <= k < i ==> #[trigger] at@[k] == offset_of(c, k),
            cursor == offset_of(c, i as int),
            out@ == appended(c, i as int),
        decreases b.len() - i,
    {
        proof {
            lemma_offset_mono(c, i + 1, b.len() as int);
        }
        at.push(cursor);
        cursor = cursor + 8 + b[i].len() as u64;
        push_le(&mut out, b[i].len() as u64, 8);
        push_all(&mut out, &b[i]);
        i = i + 1;
    }
    assert(as_nats(at@) =~= offsets_of(c));
    (at, out)
}

pub open spec fn number_piece(v: Seq<Scalar>) -> spec_fn(int) -> Seq<u8> {
    |i: int| le(v[i].bits as int, 8)
}

pub open spec fn vector_piece(v: Seq<Vec3>) -> spec_fn(int) -> Seq<u8> {
    |i: int|
        Seq::<u8>::empty() + le(v[i].x.bits as int, 8) + le(v[i].y.bits as int, 8) + le(
            v[i].z.bits as int,
            8,
        )
}

pub open spec fn whole_piece(v: Seq<nat>) -> spec_fn(int) -> Seq<u8> {
    |i: int| le(v[i] as int, 8)
}

/// Numbers as they are, eight bytes each.
pub open spec fn numbers_block(v: Seq<Scalar>) -> Seq<u8> {
    stacked(v.len() as int, number_piece(v))
}

/// Vectors, component by component.
pub open spec fn vectors_block(v: Seq<Vec3>) -> Seq<u8> {
    stacked(v.len() as int, vector_piece(v))
}

/// Whole numbers, eight bytes each.
pub open spec fn whole_block(v: Seq<nat>) -> Seq<u8> {
    stacked(v.len() as int, whole_piece(v))
}

fn pack_numbers(v: &[Scalar]) -> (b: Vec<u8>)
    ensures
        b@ == numbers_block(v@),
{
    let mut b: Vec<u8> = Vec::new();
    let mut i: usize = 0;
    assert(b@ =~= Seq::empty());
    while i < v.len()
        invariant
            i <= v.len(),
            b@ == stacked(i as int, number_piece(v@)),
        decreases v.len() - i,
    {
        push_le(&mut b, v[i].bits, 8);
        i = i + 1;
    }
    b
}

fn pack_vectors(v: &[Vec3]) -> (b: Vec<u8>)
    ensures
        b@ == vectors_block(v@),
{
    let mut b: Vec<u8> = Vec::new();
    let mut i: usize = 0;
    assert(b@ =~= Seq::empty());
    while i < v.len()
        invariant
            i <= v.len(),
            b@ == stacked(i as int, vector_piece(v@)),
        decreases v.len() - i,
    {
        let ghost was = b@;
        push_le(&mut b, v[i].x.bits, 8);
        push_le(&mut b, v[i].y.bits, 8);
        push_le(&mut b, v[i].z.bits, 8);
        assert(b@ =~= was + vector_piece(v@)(i as int));
        i = i + 1;
    }
    b
}

fn pack_whole(v: &Vec<u64>) -> (b: Vec<u8>)
    ensures
        b@ == whole_block(as_nats(v@)),
{
    let mut b: Vec<u8> = Vec::new();
    let mut i: usize = 0;
    assert(b@ =~= Seq::empty());
    while i < v.len()
        invariant
            i <= v.len(),
            b@ == stacked(i as int, whole_piece(as_nats(v@))),
        decreases v.len() - i,
    {
        push_le(&mut b, v[i], 8);
        i = i + 1;
    }
    b
}

/// The bytes of a block of numbers are the numbers, one behind the other.
pub proof fn numbers_are_kept(v: Seq<Scalar>, i: int)
    requires
        0 <= i < v.len(),
    ensures
        numbers_block(v).len() == 8 * v.len(),
        numbers_block(v).subrange(8 * i, 8 * i + 8) == le(v[i].bits as int, 8),
{
    let piece = number_piece(v);
    assert forall|k: int| 0 <= k < v.len() implies (#[trigger] piece(k)).len() == 8 by {
        lemma_le_len(v[k].bits as nat, 8);
    }
    crate::bytes::stacked_in_place(v.len() as int, piece, 8, i);
}

// --------------------------------------------------------------------------
//  Cells
// --------------------------------------------------------------------------
/// A face of a cell, seen from it: an internal or a boundary face, and whether its
/// area vector points out of the cell.
#[derive(Debug, Clone, Copy, PartialEq, Eq, Structural)]
pub struct FaceSide {
    pub boundary: bool,
    pub face: usize,
    pub outward: bool,
}

/// Faces before cell `c`: each is listed by every cell it is a face of.
pub open spec fn faces_before(m: HostMesh, c: int) -> int {
    m.cf_offset@[c] + m.bcf_offset@[c]
}

/// The faces of a cell: the internal ones, and then those of the boundary.
pub open spec fn cell_faces(m: HostMesh, c: int) -> Seq<FaceSide> {
    let a = m.cf_offset@[c] as int;
    let b = m.bcf_offset@[c] as int;
    Seq::new(
        (m.cf_offset@[c + 1] - a) as nat,
        |k: int|
            FaceSide {
                boundary: false,
                face: m.cf_face@[a + k] as usize,
                outward: m.cf_own@[a + k] != 0,
            },
    ) + Seq::new(
        (m.bcf_offset@[c + 1] - b) as nat,
        |k: int| FaceSide { boundary: true, face: m.bcf_face@[b + k] as usize, outward: true },
    )
}

/// The faces of every cell.
pub open spec fn all_cell_faces(m: HostMesh) -> Seq<Seq<FaceSide>> {
    Seq::new(m.n_cells as nat, |c: int| cell_faces(m, c))
}

proof fn lemma_start(m: HostMesh)
    requires
        m.mapped(),
    ensures
        m.cf_offset.len() == m.n_cells + 1,
        m.bcf_offset.len() == m.n_cells + 1,
        m.cf_offset@[0] == 0,
        m.bcf_offset@[0] == 0,
{
    let cs = m.rows_of_sides();
    let bs = m.rows_of_boundary();
    assert(m.cf_offset@[0] == flat(cs, 0).len());
    assert(m.bcf_offset@[0] == flat(bs, 0).len());
}

/// The offsets of a mapped mesh ascend from zero.
proof fn lemma_offsets(m: HostMesh, c: int)
    requires
        m.mapped(),
        0 <= c < m.n_cells,
    ensures
        m.cf_offset.len() == m.n_cells + 1,
        m.bcf_offset.len() == m.n_cells + 1,
        m.cf_offset@[0] == 0,
        m.bcf_offset@[0] == 0,
        0 <= m.cf_offset@[c] <= m.cf_offset@[c + 1] <= m.cf_face.len(),
        m.cf_face.len() == m.cf_own.len(),
        0 <= m.bcf_offset@[c] <= m.bcf_offset@[c + 1] <= m.bcf_face.len(),
{
    let cs = m.rows_of_sides();
    let bs = m.rows_of_boundary();
    crate::mesh::table_row(m.cf_offset@, flat(cs, cs.len() as int), cs, c);
    crate::mesh::table_row(m.bcf_offset@, flat(bs, bs.len() as int), bs, c);
    lemma_start(m);
}

fn push_cell_faces(r: &mut Vec<FaceSide>, m: &HostMesh, c: usize)
    requires
        m.mapped(),
        c < m.n_cells,
    ensures
        final(r)@ == old(r)@ + cell_faces(*m, c as int),
{
    proof {
        lemma_offsets(*m, c as int);
    }
    let ghost start = r@;
    let ghost want = cell_faces(*m, c as int);
    let a: usize = m.cf_offset[c] as usize;
    let e: usize = m.cf_offset[c + 1] as usize;
    let mut i: usize = a;
    assert(r@ =~= start + want.take(0));
    while i < e
        invariant
            a <= i <= e <= m.cf_face.len(),
            m.cf_face.len() == m.cf_own.len(),
            a == m.cf_offset@[c as int],
            e == m.cf_offset@[c + 1],
            want == cell_faces(*m, c as int),
            r@ == start + want.take(i - a),
        decreases e - i,
    {
        r.push(
            FaceSide { boundary: false, face: m.cf_face[i] as usize, outward: m.cf_own[i] != 0 },
        );
        i = i + 1;
        assert(want.take(i - a) =~= want.take(i - a - 1).push(want[i - a - 1]));
        assert(r@ =~= start + want.take(i - a));
    }
    let b: usize = m.bcf_offset[c] as usize;
    let f: usize = m.bcf_offset[c + 1] as usize;
    let mut j: usize = b;
    while j < f
        invariant
            b <= j <= f <= m.bcf_face.len(),
            b == m.bcf_offset@[c as int],
            f == m.bcf_offset@[c + 1],
            a <= e,
            a == m.cf_offset@[c as int],
            e == m.cf_offset@[c + 1],
            want == cell_faces(*m, c as int),
            r@ == start + want.take((e - a) + (j - b)),
        decreases f - j,
    {
        let ghost k = (e - a) + (j - b);
        r.push(FaceSide { boundary: true, face: m.bcf_face[j] as usize, outward: true });
        j = j + 1;
        assert(want.take(k + 1) =~= want.take(k).push(want[k]));
        assert(r@ =~= start + want.take(k + 1));
    }
    assert(want.take((e - a) + (f - b)) =~= want);
}

/// The faces of every cell, in the order in which their corners are listed.
pub fn face_sides(m: &HostMesh) -> (r: Vec<FaceSide>)
    requires
        m.mapped(),
    ensures
        r@ == flat(all_cell_faces(*m), m.n_cells as int),
{
    let mut r: Vec<FaceSide> = Vec::new();
    let mut c: usize = 0;
    assert(r@ =~= Seq::empty());
    while c < m.n_cells
        invariant
            c <= m.n_cells,
            m.mapped(),
            r@ == flat(all_cell_faces(*m), c as int),
        decreases m.n_cells - c,
    {
        push_cell_faces(&mut r, m, c);
        c = c + 1;
    }
    r
}

/// As many faces as there are before the last cell's end.
pub proof fn faces_are_counted(m: HostMesh, c: int)
    requires
        m.mapped(),
        0 <= c <= m.n_cells,
    ensures
        flat(all_cell_faces(m), c).len() == faces_before(m, c),
        0 <= faces_before(m, c),
    decreases c,
{
    if c > 0 {
        faces_are_counted(m, c - 1);
        lemma_offsets(m, c - 1);
    } else {
        lemma_start(m);
    }
}

/// Records of faces `first` to `first + n`: four corners, and which.
pub open spec fn face_records(first: int, n: int) -> Seq<nat>
    decreases n,
{
    if n <= 0 {
        Seq::empty()
    } else {
        let b = 4 * (first + n - 1);
        face_records(first, n - 1) + seq![
            4nat,
            b as nat,
            (b + 1) as nat,
            (b + 2) as nat,
            (b + 3) as nat,
        ]
    }
}

/// The records of the first `c` cells: how many faces, and each of them.
pub open spec fn cell_records(m: HostMesh, c: int) -> Seq<nat>
    decreases c,
{
    if c <= 0 {
        Seq::empty()
    } else {
        let first = faces_before(m, c - 1);
        let n = faces_before(m, c) - first;
        cell_records(m, c - 1) + seq![n as nat] + face_records(first, n)
    }
}

/// The record of a cell: its count, and five numbers for each of its faces.
pub proof fn records_are_whole(m: HostMesh, c: int)
    requires
        m.mapped(),
        0 <= c < m.n_cells,
    ensures
        ({
            let n = faces_before(m, c + 1) - faces_before(m, c);
            let at = cell_records(m, c).len() as int;
            &&& n == cell_faces(m, c).len()
            &&& cell_records(m, c + 1).len() == at + 1 + 5 * n
            &&& cell_records(m, c + 1)[at] == n
        }),
{
    lemma_offsets(m, c);
    let first = faces_before(m, c);
    let n = faces_before(m, c + 1) - first;
    lemma_records_len(first, n);
}

proof fn lemma_records_len(first: int, n: int)
    requires
        0 <= n,
    ensures
        face_records(first, n).len() == 5 * n,
    decreases n,
{
    if n > 0 {
        lemma_records_len(first, n - 1);
    }
}

/// The corners of every cell: all points, as each face has its own.
pub open spec fn connectivity(m: HostMesh) -> Seq<nat> {
    Seq::new((4 * faces_before(m, m.n_cells as int)) as nat, |i: int| i as nat)
}

/// Where the corners of each cell end.
pub open spec fn corner_ends(m: HostMesh) -> Seq<nat> {
    Seq::new(m.n_cells as nat, |c: int| (4 * faces_before(m, c + 1)) as nat)
}

/// Where the record of each cell ends.
pub open spec fn record_ends(m: HostMesh) -> Seq<nat> {
    Seq::new(m.n_cells as nat, |c: int| cell_records(m, c + 1).len())
}

struct Geometry {
    connectivity: Vec<u64>,
    offsets: Vec<u64>,
    types: Vec<u8>,
    faces: Vec<u64>,
    faceoffsets: Vec<u64>,
}

fn push_records(faces: &mut Vec<u64>, first: u64, n: u64)
    requires
        first + n <= 0x2_0000_0000,
    ensures
        as_nats(final(faces)@) == as_nats(old(faces)@) + face_records(first as int, n as int),
{
    let ghost start = as_nats(faces@);
    let mut i: u64 = 0;
    assert(as_nats(faces@) =~= start + face_records(first as int, 0));
    while i < n
        invariant
            i <= n,
            first + n <= 0x2_0000_0000,
            as_nats(faces@) == start + face_records(first as int, i as int),
        decreases n - i,
    {
        let ghost was = as_nats(faces@);
        let b: u64 = 4 * (first + i);
        faces.push(4);
        faces.push(b);
        faces.push(b + 1);
        faces.push(b + 2);
        faces.push(b + 3);
        i = i + 1;
        proof {
            let five = seq![4nat, b as nat, (b + 1) as nat, (b + 2) as nat, (b + 3) as nat];
            assert(as_nats(faces@) =~= was + five);
            assert(was + five =~= start + face_records(first as int, i as int));
        }
    }
}

fn count_up(n: u64) -> (r: Vec<u64>)
    ensures
        as_nats(r@) == Seq::new(n as nat, |i: int| i as nat),
{
    let mut r: Vec<u64> = Vec::new();
    let mut i: u64 = 0;
    while i < n
        invariant
            i <= n,
            r.len() == i,
            forall|k: int| 0 <= k < i ==> #[trigger] r@[k] == k,
        decreases n - i,
    {
        r.push(i);
        i = i + 1;
    }
    assert(as_nats(r@) =~= Seq::new(n as nat, |i: int| i as nat));
    r
}

fn build_geometry(m: &HostMesh) -> (g: Geometry)
    requires
        m.mapped(),
    ensures
        as_nats(g.connectivity@) == connectivity(*m),
        as_nats(g.offsets@) == corner_ends(*m),
        g.types@ == Seq::new(m.n_cells as nat, |c: int| VTK_POLYHEDRON),
        as_nats(g.faces@) == cell_records(*m, m.n_cells as int),
        as_nats(g.faceoffsets@) == record_ends(*m),
{
    let mut offsets: Vec<u64> = Vec::new();
    let mut types: Vec<u8> = Vec::new();
    let mut faces: Vec<u64> = Vec::new();
    let mut faceoffsets: Vec<u64> = Vec::new();
    let mut c: usize = 0;
    proof {
        lemma_start(*m);
        assert(as_nats(faces@) =~= Seq::empty());
    }
    let mut first: u64 = 0;
    while c < m.n_cells
        invariant
            c <= m.n_cells,
            m.mapped(),
            first == faces_before(*m, c as int),
            offsets.len() == c,
            types.len() == c,
            faceoffsets.len() == c,
            as_nats(faces@) == cell_records(*m, c as int),
            forall|k: int| 0 <= k < c ==> #[trigger] offsets@[k] == 4 * faces_before(*m, k + 1),
            forall|k: int| 0 <= k < c ==> #[trigger] types@[k] == VTK_POLYHEDRON,
            forall|k: int|
                0 <= k < c ==> #[trigger] faceoffsets@[k] == cell_records(*m, k + 1).len(),
        decreases m.n_cells - c,
    {
        proof {
            lemma_offsets(*m, c as int);
        }
        let next: u64 = m.cf_offset[c + 1] as u64 + m.bcf_offset[c + 1] as u64;
        let n: u64 = next - first;
        let ghost was = as_nats(faces@);
        faces.push(n);
        assert(as_nats(faces@) =~= was + seq![n as nat]);
        push_records(&mut faces, first, n);
        faceoffsets.push(faces.len() as u64);
        assert(as_nats(faces@).len() == faces.len());
        offsets.push(4 * next);
        types.push(VTK_POLYHEDRON);
        first = next;
        c = c + 1;
    }
    proof {
        if m.n_cells > 0 {
            lemma_offsets(*m, m.n_cells - 1);
        }
        assert(as_nats(offsets@) =~= corner_ends(*m));
        assert(as_nats(faceoffsets@) =~= record_ends(*m));
        assert(types@ =~= Seq::new(m.n_cells as nat, |c: int| VTK_POLYHEDRON));
    }
    Geometry { connectivity: count_up(4 * first), offsets, types, faces, faceoffsets }
}

// --------------------------------------------------------------------------
//  XML
// --------------------------------------------------------------------------
pub open spec fn mesh_piece_text(points: nat, cells: nat) -> Seq<char> {
    "    <Piece NumberOfPoints=\""@
        + decimal(points)
        + "\" NumberOfCells=\""@
        + decimal(cells)
        + "\">\n"@
}

fn mesh_piece_message(points: usize, cells: usize) -> (r: String)
    ensures
        r@ == mesh_piece_text(points as nat, cells as nat),
{
    let mut s = copy("    <Piece NumberOfPoints=\"");
    push_decimal(&mut s, points as u64);
    push_text(&mut s, "\" NumberOfCells=\"");
    push_decimal(&mut s, cells as u64);
    push_text(&mut s, "\">\n");
    s
}

pub open spec fn time_array_text(at: nat) -> Seq<char> {
    "      <FieldData>\n        <DataArray type=\"Float64\" Name=\"TIME\" NumberOfTuples=\"1\" format=\"appended\" offset=\""@
        + decimal(at)
        + "\"/>\n      </FieldData>\n"@
}

fn time_array_message(at: u64) -> (r: String)
    ensures
        r@ == time_array_text(at as nat),
{
    let mut s = copy("      <FieldData>\n        <DataArray type=\"Float64\" Name=\"TIME\" NumberOfTuples=\"1\" format=\"appended\" offset=\"");
    push_decimal(&mut s, at);
    push_text(&mut s, "\"/>\n      </FieldData>\n");
    s
}

pub open spec fn points_array_text(at: nat) -> Seq<char> {
    "      <Points>\n        <DataArray type=\"Float64\" NumberOfComponents=\"3\" format=\"appended\" offset=\""@
        + decimal(at)
        + "\"/>\n      </Points>\n"@
}

fn points_array_message(at: u64) -> (r: String)
    ensures
        r@ == points_array_text(at as nat),
{
    let mut s = copy("      <Points>\n        <DataArray type=\"Float64\" NumberOfComponents=\"3\" format=\"appended\" offset=\"");
    push_decimal(&mut s, at);
    push_text(&mut s, "\"/>\n      </Points>\n");
    s
}

pub open spec fn cell_array_text(kind: Seq<char>, name: Seq<char>, at: nat) -> Seq<char> {
    "        <DataArray type=\""@
        + kind
        + "\" Name=\""@
        + name
        + "\" format=\"appended\" offset=\""@
        + decimal(at)
        + "\"/>\n"@
}

fn cell_array_message(kind: &str, name: &str, at: u64) -> (r: String)
    ensures
        r@ == cell_array_text(kind@, name@, at as nat),
{
    let mut s = copy("        <DataArray type=\"");
    push_text(&mut s, kind);
    push_text(&mut s, "\" Name=\"");
    push_text(&mut s, name);
    push_text(&mut s, "\" format=\"appended\" offset=\"");
    push_decimal(&mut s, at);
    push_text(&mut s, "\"/>\n");
    s
}

pub open spec fn data_array_text(kind: Seq<char>, name: Seq<char>, comps: nat, at: nat) -> Seq<char> {
    "        <DataArray type=\""@
        + kind
        + "\" Name=\""@
        + name
        + "\" NumberOfComponents=\""@
        + decimal(comps)
        + "\" format=\"appended\" offset=\""@
        + decimal(at)
        + "\"/>\n"@
}

fn data_array_message(kind: &str, name: &str, comps: usize, at: u64) -> (r: String)
    ensures
        r@ == data_array_text(kind@, name@, comps as nat, at as nat),
{
    let mut s = copy("        <DataArray type=\"");
    push_text(&mut s, kind);
    push_text(&mut s, "\" Name=\"");
    push_text(&mut s, name);
    push_text(&mut s, "\" NumberOfComponents=\"");
    push_decimal(&mut s, comps as u64);
    push_text(&mut s, "\" format=\"appended\" offset=\"");
    push_decimal(&mut s, at);
    push_text(&mut s, "\"/>\n");
    s
}

pub open spec fn quoted_attribute_text(key: Seq<char>, name: Seq<char>) -> Seq<char> {
    " "@
        + key
        + "=\""@
        + name
        + "\""@
}

fn quoted_attribute_message(key: &str, name: &str) -> (r: String)
    ensures
        r@ == quoted_attribute_text(key@, name@),
{
    let mut s = copy(" ");
    push_text(&mut s, key);
    push_text(&mut s, "=\"");
    push_text(&mut s, name);
    push_text(&mut s, "\"");
    s
}

pub open spec fn cloud_piece_text(n: nat) -> Seq<char> {
    "    <Piece NumberOfPoints=\""@
        + decimal(n)
        + "\" NumberOfVerts=\""@
        + decimal(n)
        + "\" NumberOfLines=\"0\" NumberOfStrips=\"0\" NumberOfPolys=\"0\">\n"@
}

fn cloud_piece_message(n: usize) -> (r: String)
    ensures
        r@ == cloud_piece_text(n as nat),
{
    let mut s = copy("    <Piece NumberOfPoints=\"");
    push_decimal(&mut s, n as u64);
    push_text(&mut s, "\" NumberOfVerts=\"");
    push_decimal(&mut s, n as u64);
    push_text(&mut s, "\" NumberOfLines=\"0\" NumberOfStrips=\"0\" NumberOfPolys=\"0\">\n");
    s
}

pub open spec fn data_set_text(time: Seq<char>, file: Seq<char>) -> Seq<char> {
    "    <DataSet timestep=\""@
        + time
        + "\" part=\"0\" file=\""@
        + file
        + "\"/>\n"@
}

fn data_set_message(time: &str, file: &str) -> (r: String)
    ensures
        r@ == data_set_text(time@, file@),
{
    let mut s = copy("    <DataSet timestep=\"");
    push_text(&mut s, time);
    push_text(&mut s, "\" part=\"0\" file=\"");
    push_text(&mut s, file);
    push_text(&mut s, "\"/>\n");
    s
}

pub open spec fn value_count_text(got: nat, want: nat) -> Seq<char> {
    "has "@
        + decimal(got)
        + " value(s), mesh has "@
        + decimal(want)
        + " cell(s)"@
}

fn value_count_message(got: usize, want: usize) -> (r: String)
    ensures
        r@ == value_count_text(got as nat, want as nat),
{
    let mut s = copy("has ");
    push_decimal(&mut s, got as u64);
    push_text(&mut s, " value(s), mesh has ");
    push_decimal(&mut s, want as u64);
    push_text(&mut s, " cell(s)");
    s
}

/// A name and how many components it has.
pub type Named = (Seq<char>, nat);

/// The first name with so many components.
pub open spec fn first_named(names: Seq<Named>, comps: nat, i: int) -> Option<Seq<char>>
    decreases names.len() - i,
{
    if i < 0 || i >= names.len() {
        None
    } else if names[i].1 == comps {
        Some(names[i].0)
    } else {
        first_named(names, comps, i + 1)
    }
}

pub open spec fn attribute(key: Seq<char>, name: Option<Seq<char>>) -> Seq<char> {
    match name {
        Some(n) => quoted_attribute_text(key, n),
        None => Seq::empty(),
    }
}

/// The arrays of the first `n` fields; the first one is block `from`.
pub open spec fn field_arrays(names: Seq<Named>, at: Seq<nat>, from: int, n: int) -> Seq<char>
    decreases n,
{
    if n <= 0 {
        Seq::empty()
    } else {
        field_arrays(names, at, from, n - 1) + data_array_text(
            "Float64"@,
            names[n - 1].0,
            names[n - 1].1,
            at[from + n - 1],
        )
    }
}

/// The data of the cells.
pub open spec fn cell_data(names: Seq<Named>, at: Seq<nat>, from: int) -> Seq<char> {
    if names.len() == 0 {
        Seq::empty()
    } else {
        "      <CellData"@ + attribute("Scalars"@, first_named(names, 1, 0)) + attribute(
            "Vectors"@,
            first_named(names, 3, 0),
        ) + ">\n"@ + field_arrays(names, at, from, names.len() as int) + "      </CellData>\n"@
    }
}

pub open spec fn time_data(timed: bool, at: nat) -> Seq<char> {
    if timed {
        time_array_text(at)
    } else {
        Seq::empty()
    }
}

/// The XML in front of the blocks of a mesh; `at` are their offsets.
pub open spec fn mesh_xml(
    points: nat,
    cells: nat,
    timed: bool,
    names: Seq<Named>,
    at: Seq<nat>,
) -> Seq<char> {
    "<VTKFile type=\"UnstructuredGrid\" version=\"1.0\" byte_order=\"LittleEndian\" header_type=\"UInt64\">\n"@
        + "  <UnstructuredGrid>\n"@ + mesh_piece_text(points, cells) + time_data(timed, at[6])
        + points_array_text(at[0]) + "      <Cells>\n"@ + cell_array_text(
        "Int64"@,
        "connectivity"@,
        at[1],
    ) + cell_array_text("Int64"@, "offsets"@, at[2]) + cell_array_text("UInt8"@, "types"@, at[3])
        + cell_array_text("Int64"@, "faces"@, at[4]) + cell_array_text(
        "Int64"@,
        "faceoffsets"@,
        at[5],
    ) + "      </Cells>\n"@ + cell_data(names, at, if timed { 7 } else { 6 }) + "    </Piece>\n"@
        + "  </UnstructuredGrid>\n"@ + "  <AppendedData encoding=\"raw\">\n_"@
}

/// What stands behind the blocks.
pub open spec fn xml_end() -> Seq<char> {
    "\n  </AppendedData>\n</VTKFile>\n"@
}

/// The names of some fields.
pub open spec fn names_of(fields: Seq<OutputField>) -> Seq<Named> {
    Seq::new(fields.len(), |i: int| (fields[i].name@, fields[i].components()))
}

fn find_named<'a>(fields: &'a Vec<OutputField<'a>>, comps: usize) -> (r: Option<&'a str>)
    ensures
        match (r, first_named(names_of(fields@), comps as nat, 0)) {
            (Some(a), Some(b)) => a@ == b,
            (None, None) => true,
            _ => false,
        },
{
    let ghost names = names_of(fields@);
    let mut i: usize = 0;
    while i < fields.len()
        invariant
            i <= fields.len(),
            names == names_of(fields@),
            first_named(names, comps as nat, 0) == first_named(names, comps as nat, i as int),
        decreases fields.len() - i,
    {
        let n: usize = components_of(&fields[i]);
        if n == comps {
            return Some(fields[i].name);
        }
        i = i + 1;
    }
    None
}

fn components_of(f: &OutputField) -> (r: usize)
    ensures
        r as nat == f.components(),
{
    match f.values {
        FieldValues::Scalar(_) => 1,
        FieldValues::Vector(_) => 3,
    }
}

fn write_attribute(key: &str, name: Option<&str>) -> (s: String)
    ensures
        s@ == attribute(
            key@,
            match name {
                Some(n) => Some(n@),
                None => None,
            },
        ),
{
    match name {
        Some(n) => quoted_attribute_message(key, n),
        None => {
            let s = String::new();
            assert(s@ =~= Seq::empty());
            s
        },
    }
}

fn write_field_arrays(fields: &Vec<OutputField>, at: &Vec<u64>, from: usize) -> (s: String)
    requires
        from + fields.len() <= at.len(),
    ensures
        s@ == field_arrays(names_of(fields@), as_nats(at@), from as int, fields.len() as int),
{
    let mut s = String::new();
    let mut i: usize = 0;
    assert(s@ =~= Seq::empty());
    while i < fields.len()
        invariant
            i <= fields.len(),
            from + fields.len() <= at.len(),
            s@ == field_arrays(names_of(fields@), as_nats(at@), from as int, i as int),
        decreases fields.len() - i,
    {
        let t = data_array_message(
            "Float64",
            fields[i].name,
            components_of(&fields[i]),
            at[from + i],
        );
        push_text(&mut s, &t);
        i = i + 1;
    }
    s
}

fn write_cell_data(fields: &Vec<OutputField>, at: &Vec<u64>, from: usize) -> (s: String)
    requires
        from + fields.len() <= at.len(),
    ensures
        s@ == cell_data(names_of(fields@), as_nats(at@), from as int),
{
    if fields.len() == 0 {
        let s = String::new();
        assert(s@ =~= Seq::empty());
        return s;
    }
    let mut s = copy("      <CellData");
    push_text(&mut s, &write_attribute("Scalars", find_named(fields, 1)));
    push_text(&mut s, &write_attribute("Vectors", find_named(fields, 3)));
    push_text(&mut s, ">\n");
    push_text(&mut s, &write_field_arrays(fields, at, from));
    push_text(&mut s, "      </CellData>\n");
    s
}

fn write_time(timed: bool, at: &Vec<u64>, k: usize) -> (s: String)
    requires
        timed ==> k < at.len(),
    ensures
        s@ == time_data(timed, as_nats(at@)[k as int]),
{
    if timed {
        return time_array_message(at[k]);
    }
    let s = String::new();
    assert(s@ =~= Seq::empty());
    s
}

fn write_mesh_xml(
    points: usize,
    cells: usize,
    timed: bool,
    fields: &Vec<OutputField>,
    at: &Vec<u64>,
) -> (s: String)
    requires
        at.len() == fields.len() + (if timed { 7int } else { 6 }),
    ensures
        s@ == mesh_xml(points as nat, cells as nat, timed, names_of(fields@), as_nats(at@)),
{
    let mut s = copy(
        "<VTKFile type=\"UnstructuredGrid\" version=\"1.0\" byte_order=\"LittleEndian\" header_type=\"UInt64\">\n",
    );
    push_text(&mut s, "  <UnstructuredGrid>\n");
    push_text(&mut s, &mesh_piece_message(points, cells));
    push_text(&mut s, &write_time(timed, at, 6));
    push_text(&mut s, &points_array_message(at[0]));
    push_text(&mut s, "      <Cells>\n");
    push_text(&mut s, &cell_array_message("Int64", "connectivity", at[1]));
    push_text(&mut s, &cell_array_message("Int64", "offsets", at[2]));
    push_text(&mut s, &cell_array_message("UInt8", "types", at[3]));
    push_text(&mut s, &cell_array_message("Int64", "faces", at[4]));
    push_text(&mut s, &cell_array_message("Int64", "faceoffsets", at[5]));
    push_text(&mut s, "      </Cells>\n");
    push_text(&mut s, &write_cell_data(fields, at, if timed { 7 } else { 6 }));
    push_text(&mut s, "    </Piece>\n");
    push_text(&mut s, "  </UnstructuredGrid>\n");
    push_text(&mut s, "  <AppendedData encoding=\"raw\">\n_");
    s
}

// --------------------------------------------------------------------------
//  Meshes
// --------------------------------------------------------------------------
/// The values of a field.
pub open spec fn field_block(f: OutputField) -> Seq<u8> {
    match f.values {
        FieldValues::Scalar(v) => numbers_block(v@),
        FieldValues::Vector(v) => vectors_block(v@),
    }
}

fn pack_field(f: &OutputField) -> (b: Vec<u8>)
    ensures
        b@ == field_block(*f),
{
    match f.values {
        FieldValues::Scalar(v) => pack_numbers(v),
        FieldValues::Vector(v) => pack_vectors(v),
    }
}

pub open spec fn time_block(time: Option<Scalar>) -> Seq<Seq<u8>> {
    match time {
        Some(t) => seq![numbers_block(seq![t])],
        None => Seq::empty(),
    }
}

/// The blocks of a mesh: its points, its cells, the time and the fields.
pub open spec fn mesh_blocks(
    m: HostMesh,
    points: Seq<Vec3>,
    fields: Seq<OutputField>,
    time: Option<Scalar>,
) -> Seq<Seq<u8>> {
    seq![
        vectors_block(points),
        whole_block(connectivity(m)),
        whole_block(corner_ends(m)),
        Seq::new(m.n_cells as nat, |c: int| VTK_POLYHEDRON),
        whole_block(cell_records(m, m.n_cells as int)),
        whole_block(record_ends(m)),
    ] + time_block(time) + Seq::new(fields.len(), |i: int| field_block(fields[i]))
}

/// The first field whose values are not one per cell.
pub open spec fn miscounted(fields: Seq<OutputField>, cells: nat, i: int) -> Option<Failure>
    decreases fields.len() - i,
{
    if i < 0 || i >= fields.len() {
        None
    } else if fields[i].count() != cells {
        Some(
            Failure::Field {
                field: fields[i].name@,
                msg: value_count_text(fields[i].count(), cells),
            },
        )
    } else {
        miscounted(fields, cells, i + 1)
    }
}

/// The file of a mesh and its fields.
pub open spec fn mesh_file(
    m: HostMesh,
    points: Seq<Vec3>,
    fields: Seq<OutputField>,
    time: Option<Scalar>,
) -> Result<Seq<u8>, Failure> {
    match miscounted(fields, m.n_cells as nat, 0) {
        Some(f) => Err(f),
        None => {
            let b = mesh_blocks(m, points, fields, time);
            Ok(
                encoded(
                    mesh_xml(
                        points.len(),
                        m.n_cells as nat,
                        time is Some,
                        names_of(fields),
                        offsets_of(b),
                    ),
                ) + appended(b, b.len() as int) + encoded(xml_end()),
            )
        },
    }
}

fn pack_mesh(
    m: &HostMesh,
    points: &Vec<Vec3>,
    fields: &Vec<OutputField>,
    time: Option<Scalar>,
) -> (b: Vec<Vec<u8>>)
    requires
        m.mapped(),
    ensures
        contents(b@) == mesh_blocks(*m, points@, fields@, time),
        b.len() == fields.len() + (if time is Some { 7int } else { 6 }),
{
    let g = build_geometry(m);
    let mut b: Vec<Vec<u8>> = Vec::new();
    b.push(pack_vectors(points));
    b.push(pack_whole(&g.connectivity));
    b.push(pack_whole(&g.offsets));
    b.push(g.types);
    b.push(pack_whole(&g.faces));
    b.push(pack_whole(&g.faceoffsets));
    match time {
        Some(t) => {
            let one = vec![t];
            assert(one@ =~= seq![t]);
            b.push(pack_numbers(&one));
        },
        None => {},
    }
    let n: usize = b.len();
    let mut i: usize = 0;
    while i < fields.len()
        invariant
            i <= fields.len(),
            n == (if time is Some { 7int } else { 6 }),
            b.len() == n + i,
            b@[0]@ == vectors_block(points@),
            b@[1]@ == whole_block(connectivity(*m)),
            b@[2]@ == whole_block(corner_ends(*m)),
            b@[3]@ == Seq::new(m.n_cells as nat, |c: int| VTK_POLYHEDRON),
            b@[4]@ == whole_block(cell_records(*m, m.n_cells as int)),
            b@[5]@ == whole_block(record_ends(*m)),
            time is Some ==> b@[6]@ == time_block(time)[0],
            forall|k: int| 0 <= k < i ==> (#[trigger] b@[n + k])@ == field_block(fields@[k]),
        decreases fields.len() - i,
    {
        b.push(pack_field(&fields[i]));
        i = i + 1;
    }
    proof {
        let want = mesh_blocks(*m, points@, fields@, time);
        assert forall|k: int| 0 <= k < want.len() implies contents(b@)[k] == want[k] by {
            if k >= n {
                assert(b@[n + (k - n)]@ == field_block(fields@[k - n]));
            }
        }
        assert(contents(b@) =~= want);
    }
    b
}

/// Write a mesh and its fields, and the time where there is one. The corners of the
/// faces come in as points, four for each of [`face_sides`].
pub fn write_vtu(
    m: &HostMesh,
    points: &Vec<Vec3>,
    fields: &Vec<OutputField>,
    time: Option<Scalar>,
) -> (r: Result<Vec<u8>, Error>)
    requires
        m.mapped(),
        points.len() == 4 * faces_before(*m, m.n_cells as int),
        offset_of(
            mesh_blocks(*m, points@, fields@, time),
            mesh_blocks(*m, points@, fields@, time).len() as int,
        ) <= u64::MAX,
    ensures
        match (r, mesh_file(*m, points@, fields@, time)) {
            (Ok(a), Ok(b)) => a@ == b,
            (Err(e), Err(f)) => e@ == f,
            _ => false,
        },
{
    let mut i: usize = 0;
    while i < fields.len()
        invariant
            i <= fields.len(),
            miscounted(fields@, m.n_cells as nat, 0) == miscounted(
                fields@,
                m.n_cells as nat,
                i as int,
            ),
        decreases fields.len() - i,
    {
        let n: usize = fields[i].len();
        if n != m.n_cells {
            return Err(
                Error::Field {
                    field: copy(fields[i].name),
                    msg: value_count_message(n, m.n_cells),
                },
            );
        }
        i = i + 1;
    }
    let blocks = pack_mesh(m, points, fields, time);
    let (at, data) = append_blocks(&blocks);
    proof {
        assert(as_nats(at@).len() == at.len());
    }
    let xml = write_mesh_xml(points.len(), m.n_cells, time.is_some(), fields, &at);
    let mut out = bytes_of(&xml);
    push_all(&mut out, &data);
    push_all(&mut out, &bytes_of("\n  </AppendedData>\n</VTKFile>\n"));
    Ok(out)
}

// --------------------------------------------------------------------------
//  Parcels
// --------------------------------------------------------------------------
/// A cloud of parcels, slot by slot; a slot with a negative cell is empty.
#[derive(Debug, Clone)]
pub struct ParcelSnapshot {
    pub x: Vec<Vec3>,
    pub u: Vec<Vec3>,
    pub d: Vec<Scalar>,
    pub temperature: Vec<Scalar>,
    pub n_p: Vec<Scalar>,
    pub cell: Vec<Label>,
    pub uid: Vec<u64>,
}

impl ParcelSnapshot {
    /// Every slot has every value.
    pub open spec fn wf(self) -> bool {
        let n = self.cell.len();
        self.x.len() == n && self.u.len() == n && self.d.len() == n && self.temperature.len() == n
            && self.n_p.len() == n && self.uid.len() == n
    }

    /// The slots that hold a parcel.
    pub fn live(&self) -> (r: Vec<usize>)
        ensures
            slots(r@) == live_slots(self.cell@, self.cell.len() as int),
    {
        let mut r: Vec<usize> = Vec::new();
        let mut i: usize = 0;
        assert(slots(r@) =~= Seq::empty());
        while i < self.cell.len()
            invariant
                i <= self.cell.len(),
                slots(r@) == live_slots(self.cell@, i as int),
            decreases self.cell.len() - i,
        {
            let ghost was = slots(r@);
            if self.cell[i] >= 0 {
                r.push(i);
                assert(slots(r@) =~= was.push(i as int));
            }
            i = i + 1;
        }
        r
    }
}

pub open spec fn slots(v: Seq<usize>) -> Seq<int> {
    v.map_values(|i: usize| i as int)
}

/// The first `n` slots that hold a parcel.
pub open spec fn live_slots(cell: Seq<Label>, n: int) -> Seq<int>
    decreases n,
{
    if n <= 0 {
        Seq::empty()
    } else if cell[n - 1] >= 0 {
        live_slots(cell, n - 1).push(n - 1)
    } else {
        live_slots(cell, n - 1)
    }
}

/// The live slots are those with a cell, each once and in order.
pub proof fn live_slots_hold_parcels(cell: Seq<Label>, n: int, i: int)
    requires
        0 <= n <= cell.len(),
    ensures
        live_slots(cell, n).contains(i) <==> 0 <= i < n && cell[i] >= 0,
        forall|a: int, b: int|
            0 <= a < b < live_slots(cell, n).len() ==> live_slots(cell, n)[a] < live_slots(cell, n)[b],
        forall|a: int|
            0 <= a < live_slots(cell, n).len() ==> 0 <= #[trigger] live_slots(cell, n)[a] < n,
    decreases n,
{
    if n > 0 {
        live_slots_hold_parcels(cell, n - 1, i);
        let was = live_slots(cell, n - 1);
        let now = live_slots(cell, n);
        if cell[n - 1] >= 0 {
            assert(now == was.push(n - 1));
            if was.contains(i) {
                let k = choose|k: int| 0 <= k < was.len() && was[k] == i;
                assert(now[k] == i);
            }
            if i == n - 1 {
                assert(now[was.len() as int] == i);
            }
        }
    }
}

/// The values at some slots.
pub open spec fn at_slots<T>(v: Seq<T>, live: Seq<int>) -> Seq<T> {
    live.map_values(|i: int| v[i])
}

/// The blocks of a cloud: points, vertices, the time and what the parcels carry.
pub open spec fn cloud_blocks(s: ParcelSnapshot, time: Option<Scalar>) -> Seq<Seq<u8>> {
    let live = live_slots(s.cell@, s.cell.len() as int);
    seq![
        vectors_block(at_slots(s.x@, live)),
        whole_block(Seq::new(live.len(), |i: int| i as nat)),
        whole_block(Seq::new(live.len(), |i: int| (i + 1) as nat)),
    ] + time_block(time) + seq![
        vectors_block(at_slots(s.u@, live)),
        numbers_block(at_slots(s.d@, live)),
        numbers_block(at_slots(s.temperature@, live)),
        numbers_block(at_slots(s.n_p@, live)),
        whole_block(live.map_values(|i: int| s.cell@[i] as nat)),
        numbers_block(live.map_values(|i: int| of_whole((s.uid@[i] / 0x1_0000_0000) as nat))),
        numbers_block(live.map_values(|i: int| of_whole((s.uid@[i] % 0x1_0000_0000) as nat))),
    ]
}

/// The XML in front of the blocks of a cloud; `k` is where the parcels' data begins.
pub open spec fn cloud_xml(n: nat, timed: bool, at: Seq<nat>, k: int) -> Seq<char> {
    "<VTKFile type=\"PolyData\" version=\"1.0\" byte_order=\"LittleEndian\" header_type=\"UInt64\">\n"@
        + "  <PolyData>\n"@ + cloud_piece_text(n) + time_data(timed, at[3]) + points_array_text(at[0])
        + "      <Verts>\n"@ + cell_array_text("Int64"@, "connectivity"@, at[1]) + cell_array_text(
        "Int64"@,
        "offsets"@,
        at[2],
    ) + "      </Verts>\n"@ + "      <PointData Scalars=\"d\" Vectors=\"U\">\n"@ + data_array_text(
        "Float64"@,
        "U"@,
        3,
        at[k],
    ) + data_array_text("Float64"@, "d"@, 1, at[k + 1]) + data_array_text(
        "Float64"@,
        "T"@,
        1,
        at[k + 2],
    ) + data_array_text("Float64"@, "nP"@, 1, at[k + 3]) + data_array_text(
        "Float64"@,
        "uidHigh"@,
        1,
        at[k + 5],
    ) + data_array_text("Float64"@, "uidLow"@, 1, at[k + 6]) + data_array_text(
        "Int64"@,
        "cell"@,
        1,
        at[k + 4],
    ) + "      </PointData>\n"@ + "    </Piece>\n"@ + "  </PolyData>\n"@
        + "  <AppendedData encoding=\"raw\">\n_"@
}

/// The file of a cloud.
pub open spec fn cloud_file(s: ParcelSnapshot, time: Option<Scalar>) -> Seq<u8> {
    let b = cloud_blocks(s, time);
    let n = live_slots(s.cell@, s.cell.len() as int).len();
    encoded(cloud_xml(n, time is Some, offsets_of(b), if time is Some { 4 } else { 3 })) + appended(
        b,
        b.len() as int,
    ) + encoded(xml_end())
}

fn pick_vectors(v: &Vec<Vec3>, live: &Vec<usize>) -> (r: Vec<Vec3>)
    requires
        forall|k: int| 0 <= k < live.len() ==> #[trigger] live@[k] < v.len(),
    ensures
        r@ == at_slots(v@, slots(live@)),
{
    let mut r: Vec<Vec3> = Vec::new();
    let mut i: usize = 0;
    while i < live.len()
        invariant
            i <= live.len(),
            r.len() == i,
            forall|k: int| 0 <= k < live.len() ==> #[trigger] live@[k] < v.len(),
            forall|k: int| 0 <= k < i ==> #[trigger] r@[k] == v@[live@[k] as int],
        decreases live.len() - i,
    {
        r.push(v[live[i]]);
        i = i + 1;
    }
    assert(r@ =~= at_slots(v@, slots(live@)));
    r
}

fn pick_numbers(v: &Vec<Scalar>, live: &Vec<usize>) -> (r: Vec<Scalar>)
    requires
        forall|k: int| 0 <= k < live.len() ==> #[trigger] live@[k] < v.len(),
    ensures
        r@ == at_slots(v@, slots(live@)),
{
    let mut r: Vec<Scalar> = Vec::new();
    let mut i: usize = 0;
    while i < live.len()
        invariant
            i <= live.len(),
            r.len() == i,
            forall|k: int| 0 <= k < live.len() ==> #[trigger] live@[k] < v.len(),
            forall|k: int| 0 <= k < i ==> #[trigger] r@[k] == v@[live@[k] as int],
        decreases live.len() - i,
    {
        r.push(v[live[i]]);
        i = i + 1;
    }
    assert(r@ =~= at_slots(v@, slots(live@)));
    r
}

/// One half of the identities: the high or the low 32 bits.
fn pick_halves(v: &Vec<u64>, live: &Vec<usize>, high: bool) -> (r: Vec<Scalar>)
    requires
        forall|k: int| 0 <= k < live.len() ==> #[trigger] live@[k] < v.len(),
    ensures
        r@ == (if high {
            slots(live@).map_values(|i: int| of_whole((v@[i] / 0x1_0000_0000) as nat))
        } else {
            slots(live@).map_values(|i: int| of_whole((v@[i] % 0x1_0000_0000) as nat))
        }),
{
    let mut r: Vec<Scalar> = Vec::new();
    let mut i: usize = 0;
    while i < live.len()
        invariant
            i <= live.len(),
            r.len() == i,
            forall|k: int| 0 <= k < live.len() ==> #[trigger] live@[k] < v.len(),
            forall|k: int|
                0 <= k < i ==> #[trigger] r@[k] == of_whole(
                    if high {
                        (v@[live@[k] as int] / 0x1_0000_0000) as nat
                    } else {
                        (v@[live@[k] as int] % 0x1_0000_0000) as nat
                    },
                ),
        decreases live.len() - i,
    {
        let u: u64 = v[live[i]];
        let half: u64 = if high { u / 0x1_0000_0000 } else { u % 0x1_0000_0000 };
        r.push(whole_number(half));
        i = i + 1;
    }
    proof {
        if high {
            assert(r@ =~= slots(live@).map_values(
                |i: int| of_whole((v@[i] / 0x1_0000_0000) as nat),
            ));
        } else {
            assert(r@ =~= slots(live@).map_values(
                |i: int| of_whole((v@[i] % 0x1_0000_0000) as nat),
            ));
        }
    }
    r
}

fn pick_cells(v: &Vec<Label>, live: &Vec<usize>) -> (r: Vec<u64>)
    requires
        forall|k: int| 0 <= k < live.len() ==> #[trigger] live@[k] < v.len(),
        forall|k: int| 0 <= k < live.len() ==> v@[#[trigger] live@[k] as int] >= 0,
    ensures
        as_nats(r@) == slots(live@).map_values(|i: int| v@[i] as nat),
{
    let mut r: Vec<u64> = Vec::new();
    let mut i: usize = 0;
    while i < live.len()
        invariant
            i <= live.len(),
            r.len() == i,
            forall|k: int| 0 <= k < live.len() ==> #[trigger] live@[k] < v.len(),
            forall|k: int| 0 <= k < live.len() ==> v@[#[trigger] live@[k] as int] >= 0,
            forall|k: int| 0 <= k < i ==> #[trigger] r@[k] == v@[live@[k] as int],
        decreases live.len() - i,
    {
        r.push(v[live[i]] as u64);
        i = i + 1;
    }
    assert(as_nats(r@) =~= slots(live@).map_values(|i: int| v@[i] as nat));
    r
}

fn count_ends(n: usize) -> (r: Vec<u64>)
    ensures
        as_nats(r@) == Seq::new(n as nat, |i: int| (i + 1) as nat),
{
    let mut r: Vec<u64> = Vec::new();
    let mut i: usize = 0;
    while i < n
        invariant
            i <= n,
            r.len() == i,
            forall|k: int| 0 <= k < i ==> #[trigger] r@[k] == k + 1,
        decreases n - i,
    {
        i = i + 1;
        r.push(i as u64);
    }
    assert(as_nats(r@) =~= Seq::new(n as nat, |i: int| (i + 1) as nat));
    r
}

fn pack_cloud(s: &ParcelSnapshot, live: &Vec<usize>, time: Option<Scalar>) -> (b: Vec<Vec<u8>>)
    requires
        s.wf(),
        slots(live@) == live_slots(s.cell@, s.cell.len() as int),
    ensures
        contents(b@) == cloud_blocks(*s, time),
{
    proof {
        let ls = live_slots(s.cell@, s.cell.len() as int);
        live_slots_hold_parcels(s.cell@, s.cell.len() as int, 0);
        assert forall|k: int| 0 <= k < live.len() implies #[trigger] live@[k] < s.cell.len()
            && s.cell@[live@[k] as int] >= 0 by {
            assert(slots(live@)[k] == live@[k]);
            live_slots_hold_parcels(s.cell@, s.cell.len() as int, ls[k]);
            assert(ls.contains(ls[k]));
        }
        assert(slots(live@).len() == live.len());
    }
    let mut b: Vec<Vec<u8>> = Vec::new();
    b.push(pack_vectors(&pick_vectors(&s.x, live)));
    b.push(pack_whole(&count_up(live.len() as u64)));
    b.push(pack_whole(&count_ends(live.len())));
    match time {
        Some(t) => {
            let one = vec![t];
            assert(one@ =~= seq![t]);
            b.push(pack_numbers(&one));
        },
        None => {},
    }
    b.push(pack_vectors(&pick_vectors(&s.u, live)));
    b.push(pack_numbers(&pick_numbers(&s.d, live)));
    b.push(pack_numbers(&pick_numbers(&s.temperature, live)));
    b.push(pack_numbers(&pick_numbers(&s.n_p, live)));
    b.push(pack_whole(&pick_cells(&s.cell, live)));
    b.push(pack_numbers(&pick_halves(&s.uid, live, true)));
    b.push(pack_numbers(&pick_halves(&s.uid, live, false)));
    assert(contents(b@) =~= cloud_blocks(*s, time));
    b
}

fn write_cloud_xml(n: usize, timed: bool, at: &Vec<u64>, k: usize) -> (s: String)
    requires
        k == (if timed { 4int } else { 3 }),
        at.len() == k + 7,
    ensures
        s@ == cloud_xml(n as nat, timed, as_nats(at@), k as int),
{
    let mut s = copy(
        "<VTKFile type=\"PolyData\" version=\"1.0\" byte_order=\"LittleEndian\" header_type=\"UInt64\">\n",
    );
    push_text(&mut s, "  <PolyData>\n");
    push_text(&mut s, &cloud_piece_message(n));
    push_text(&mut s, &write_time(timed, at, 3));
    push_text(&mut s, &points_array_message(at[0]));
    push_text(&mut s, "      <Verts>\n");
    push_text(&mut s, &cell_array_message("Int64", "connectivity", at[1]));
    push_text(&mut s, &cell_array_message("Int64", "offsets", at[2]));
    push_text(&mut s, "      </Verts>\n");
    push_text(&mut s, "      <PointData Scalars=\"d\" Vectors=\"U\">\n");
    push_text(&mut s, &data_array_message("Float64", "U", 3, at[k]));
    push_text(&mut s, &data_array_message("Float64", "d", 1, at[k + 1]));
    push_text(&mut s, &data_array_message("Float64", "T", 1, at[k + 2]));
    push_text(&mut s, &data_array_message("Float64", "nP", 1, at[k + 3]));
    push_text(&mut s, &data_array_message("Float64", "uidHigh", 1, at[k + 5]));
    push_text(&mut s, &data_array_message("Float64", "uidLow", 1, at[k + 6]));
    push_text(&mut s, &data_array_message("Int64", "cell", 1, at[k + 4]));
    push_text(&mut s, "      </PointData>\n");
    push_text(&mut s, "    </Piece>\n");
    push_text(&mut s, "  </PolyData>\n");
    push_text(&mut s, "  <AppendedData encoding=\"raw\">\n_");
    s
}

/// Write the parcels of a cloud: one vertex for each live slot. The identity is
/// written in two halves, each of which a number holds exactly.
pub fn write_parcels_vtp(s: &ParcelSnapshot, time: Option<Scalar>) -> (r: Vec<u8>)
    requires
        s.wf(),
        offset_of(cloud_blocks(*s, time), cloud_blocks(*s, time).len() as int) <= u64::MAX,
    ensures
        r@ == cloud_file(*s, time),
{
    let live = s.live();
    let blocks = pack_cloud(s, &live, time);
    let (at, data) = append_blocks(&blocks);
    proof {
        assert(as_nats(at@).len() == at.len());
        assert(slots(live@).len() == live.len());
    }
    let timed: bool = time.is_some();
    let xml = write_cloud_xml(live.len(), timed, &at, if timed { 4 } else { 3 });
    let mut out = bytes_of(&xml);
    push_all(&mut out, &data);
    push_all(&mut out, &bytes_of("\n  </AppendedData>\n</VTKFile>\n"));
    out
}

// --------------------------------------------------------------------------
//  Series
// --------------------------------------------------------------------------
/// A path with its backslashes turned.
pub open spec fn turned(path: Seq<char>) -> Seq<char> {
    path.map_values(|c: char| if c == '\\' { '/' } else { c })
}

fn turn_slashes(path: &str) -> (s: String)
    ensures
        s@ == turned(path@),
{
    let c = chars_of(path);
    let mut s = String::new();
    let mut i: usize = 0;
    assert(s@ =~= turned(path@).take(0));
    while i < c.len()
        invariant
            i <= c.len(),
            c@ == path@,
            s@ == turned(path@).take(i as int),
        decreases c.len() - i,
    {
        if c[i] == '\\' {
            s.push('/');
        } else {
            s.push(c[i]);
        }
        i = i + 1;
        assert(s@ =~= turned(path@).take(i as int));
    }
    assert(turned(path@).take(c.len() as int) =~= turned(path@));
    s
}

/// The files of the first `n` times.
pub open spec fn data_sets(series: Seq<(Scalar, String)>, n: int) -> Seq<char>
    decreases n,
{
    if n <= 0 {
        Seq::empty()
    } else {
        data_sets(series, n - 1) + data_set_text(
            shown(series[n - 1].0),
            turned(series[n - 1].1@),
        )
    }
}

/// The text of a series.
pub open spec fn series_text(series: Seq<(Scalar, String)>) -> Seq<char> {
    "<VTKFile type=\"Collection\" version=\"0.1\" byte_order=\"LittleEndian\">\n"@
        + "  <Collection>\n"@ + data_sets(series, series.len() as int) + "  </Collection>\n"@
        + "</VTKFile>\n"@
}

/// Write a series: each time with the file that holds it, as it is given.
pub fn write_pvd(series: &Vec<(Scalar, String)>) -> (s: String)
    ensures
        s@ == series_text(series@),
{
    let mut t = String::new();
    let mut i: usize = 0;
    assert(t@ =~= Seq::empty());
    while i < series.len()
        invariant
            i <= series.len(),
            t@ == data_sets(series@, i as int),
        decreases series.len() - i,
    {
        push_text(&mut t, &data_set_message(&show(series[i].0), &turn_slashes(&series[i].1)));
        i = i + 1;
    }
    let mut s = copy("<VTKFile type=\"Collection\" version=\"0.1\" byte_order=\"LittleEndian\">\n");
    push_text(&mut s, "  <Collection>\n");
    push_text(&mut s, &t);
    push_text(&mut s, "  </Collection>\n");
    push_text(&mut s, "</VTKFile>\n");
    s
}

} // verus!
