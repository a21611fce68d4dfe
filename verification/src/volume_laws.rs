//! What is found in a volume file: every component of a field under its name, every cell's
//! value in its slot, and where the grid lies.

use vstd::prelude::*;

use crate::bytes::{
    byte_pow, encoded, le_reads_back, le_value, lemma_le_len, padded, stacked, stacked_in_place,
    zeros,
};
use crate::mesh::Vec3;
use crate::narrow::single;
use crate::nvdb::{
    all_segments, diagonal_bytes, extent, file_of, grid_bytes, grid_data, internal_bytes,
    internal_of, is_block, le, leaf_bytes, leaf_of, leaf_of_cell, leaf_pieces, leaves_are_laid_out,
    leaves_at, lemma_internal_offsets, lemma_leaf_offsets, lemma_root_numbers, lemma_slot_of_cell, lemma_stat_len,
    lemma_value_len, lowers_at, map_bytes, nodes_are_in_place, root_bytes, segment, segment_head,
    segments, tree_data, uppers_at, value_bytes, vector_bytes, with_stat, Dims, Frame, GridField,
    GridValues, NodeStat, Precision, Samples, UniformGrid,
};
use crate::output_types::{FieldValues, OutputField};
use crate::scalar::{Scalar, ONE};
use crate::vdb::{
    all_grids, archive, archive_of, grid_at, grid_head, grids_of, leaf_buffer,
    leaf_buffers_hold_their_cells, root_topology, sorted_place, text_bytes, transform_bytes,
    upper_topology,
};

verus! {

/// The number that `k` bytes from `at` on spell, the lowest byte first.
pub open spec fn number_at(b: Seq<u8>, at: int, k: int) -> nat {
    le_value(b.subrange(at, at + k))
}

proof fn lemma_pow()
    ensures
        byte_pow(8) == 0x1_0000_0000_0000_0000,
        byte_pow(4) == 0x1_0000_0000,
{
    reveal_with_fuel(byte_pow, 9);
}

proof fn lemma_full(n: u64)
    ensures
        le(n as int, 8).len() == 8,
        le_value(le(n as int, 8)) == n,
{
    lemma_pow();
    le_reads_back(n as nat, 8);
}

proof fn lemma_nothing(b: Seq<u8>)
    requires
        forall|i: int| 0 <= i < b.len() ==> #[trigger] b[i] == 0,
    ensures
        le_value(b) == 0,
    decreases b.len(),
{
    if b.len() > 0 {
        assert forall|i: int| 0 <= i < b.skip(1).len() implies #[trigger] b.skip(1)[i] == 0 by {
            assert(b.skip(1)[i] == b[i + 1]);
        }
        lemma_nothing(b.skip(1));
        assert(b[0] == 0);
    }
}

// --------------------------------------------------------------------------
//  Segments
// --------------------------------------------------------------------------
/// A file holds the segment of a grid.
pub open spec fn holds_grid(
    file: Seq<u8>,
    g: UniformGrid,
    fr: Frame,
    name: Seq<char>,
    s: Samples,
    p: Precision,
) -> bool {
    segment(g, fr, name, s, p) matches Ok(b) && exists|at: int|
        0 <= at <= file.len() - b.len() && #[trigger] file.subrange(at, at + b.len()) == b
}

proof fn lemma_found_later(
    a: Seq<u8>,
    file: Seq<u8>,
    g: UniformGrid,
    fr: Frame,
    name: Seq<char>,
    s: Samples,
    p: Precision,
)
    requires
        holds_grid(file, g, fr, name, s, p),
    ensures
        holds_grid(a + file, g, fr, name, s, p),
{
    let b = segment(g, fr, name, s, p)->Ok_0;
    let at = choose|at: int|
        0 <= at <= file.len() - b.len() && #[trigger] file.subrange(at, at + b.len()) == b;
    let to = a.len() + at;
    assert((a + file).subrange(to, to + b.len()) =~= b);
}

proof fn lemma_found_before(
    file: Seq<u8>,
    c: Seq<u8>,
    g: UniformGrid,
    fr: Frame,
    name: Seq<char>,
    s: Samples,
    p: Precision,
)
    requires
        holds_grid(file, g, fr, name, s, p),
    ensures
        holds_grid(file + c, g, fr, name, s, p),
{
    let b = segment(g, fr, name, s, p)->Ok_0;
    let at = choose|at: int|
        0 <= at <= file.len() - b.len() && #[trigger] file.subrange(at, at + b.len()) == b;
    assert((file + c).subrange(at, at + b.len()) =~= b);
}

proof fn lemma_segments_hold(
    g: UniformGrid,
    fr: Frame,
    grids: Seq<(Seq<char>, Samples)>,
    p: Precision,
    i: int,
    k: int,
)
    requires
        0 <= i <= k < grids.len(),
        segments(g, fr, grids, p, i) is Ok,
    ensures
        holds_grid(segments(g, fr, grids, p, i)->Ok_0, g, fr, grids[k].0, grids[k].1, p),
    decreases grids.len() - i,
{
    let b = segment(g, fr, grids[i].0, grids[i].1, p)->Ok_0;
    let rest = segments(g, fr, grids, p, i + 1)->Ok_0;
    if i < k {
        lemma_segments_hold(g, fr, grids, p, i + 1, k);
        lemma_found_later(b, rest, g, fr, grids[k].0, grids[k].1, p);
    } else {
        assert((b + rest).subrange(0, 0 + b.len() as int) =~= b);
    }
}

proof fn lemma_fields_hold(
    g: UniformGrid,
    fr: Frame,
    fields: Seq<GridField>,
    p: Precision,
    i: int,
    k: int,
    j: int,
)
    requires
        0 <= i <= k < fields.len(),
        0 <= j < fields[k].grids().len(),
        all_segments(g, fr, fields, p, i) is Ok,
    ensures
        holds_grid(
            all_segments(g, fr, fields, p, i)->Ok_0,
            g,
            fr,
            fields[k].grids()[j].0,
            fields[k].grids()[j].1,
            p,
        ),
    decreases fields.len() - i,
{
    let b = segments(g, fr, fields[i].grids(), p, 0)->Ok_0;
    let rest = all_segments(g, fr, fields, p, i + 1)->Ok_0;
    let (name, s) = fields[k].grids()[j];
    if i < k {
        lemma_fields_hold(g, fr, fields, p, i + 1, k, j);
        lemma_found_later(b, rest, g, fr, name, s, p);
    } else {
        lemma_segments_hold(g, fr, fields[k].grids(), p, 0, j);
        lemma_found_before(b, rest, g, fr, name, s, p);
    }
}

/// A file holds every field: a field of numbers under its name, and of a field of vectors
/// each component and the magnitude, under the name with `.x`, `.y`, `.z` or `.mag` behind it.
pub proof fn components_have_their_names(
    g: UniformGrid,
    fr: Frame,
    fields: Seq<GridField>,
    p: Precision,
    k: int,
)
    requires
        0 <= k < fields.len(),
        file_of(g, fr, fields, p) is Ok,
    ensures
        ({
            let file = file_of(g, fr, fields, p)->Ok_0;
            let name = fields[k].name@;
            match fields[k].values {
                GridValues::Scalar(s) => holds_grid(file, g, fr, name, s, p),
                GridValues::Vector { x, y, z, mag } => {
                    &&& holds_grid(file, g, fr, name + ".x"@, x, p)
                    &&& holds_grid(file, g, fr, name + ".y"@, y, p)
                    &&& holds_grid(file, g, fr, name + ".z"@, z, p)
                    &&& holds_grid(file, g, fr, name + ".mag"@, mag, p)
                },
            }
        }),
{
    let gs = fields[k].grids();
    lemma_fields_hold(g, fr, fields, p, 0, k, 0);
    if fields[k].values is Vector {
        assert(gs.len() == 4);
        lemma_fields_hold(g, fr, fields, p, 0, k, 1);
        lemma_fields_hold(g, fr, fields, p, 0, k, 2);
        lemma_fields_hold(g, fr, fields, p, 0, k, 3);
    }
}

proof fn lemma_head_len(g: UniformGrid, fr: Frame, name: Seq<char>, p: Precision)
    ensures
        segment_head(g, fr, name, p).len() == 192,
{
    broadcast use lemma_le_len;

}

/// The slot of a cell in its leaf, along the last axis first.
pub open spec fn cell_slot(c: Dims) -> int {
    (64 * (c.x % 8) + 8 * (c.y % 8) + c.z % 8) as int
}

proof fn lemma_cell_slot(c: Dims)
    ensures
        c.slot_number(8) == cell_slot(c),
        0 <= cell_slot(c) < 512,
{
    let (x, y) = (c.x % 8, c.y % 8);
    assert(x * (8nat * 8nat) == 64 * x) by (nonlinear_arith);
    assert(y * 8nat == 8 * y);
}

/// A segment carries its name behind its head, and of every cell the value in the cell's
/// slot of its leaf.
pub proof fn segments_hold_their_cells(
    g: UniformGrid,
    fr: Frame,
    name: Seq<char>,
    s: Samples,
    p: Precision,
    c: Dims,
)
    requires
        is_block(g),
        s.cover(g),
        extent(g).holds(c),
        encoded(name).len() < 256,
    ensures
        ({
            let b = segment(g, fr, name, s, p)->Ok_0;
            let n = encoded(name).len();
            let e = extent(g);
            let w = p.bytes() as int;
            let leaf = 193 + n + leaves_at(e, p) + leaf_of_cell(e, c) * leaf_of(p.bytes()).size;
            let at = leaf + 96 + cell_slot(c) * w;
            &&& segment(g, fr, name, s, p) is Ok
            &&& b.subrange(192, 192 + n as int) == encoded(name)
            &&& b[192 + n as int] == 0
            &&& 0 <= at && at + w <= b.len()
            &&& b.subrange(at, at + w) == value_bytes(
                s.values@[(c.x + e.x * (c.y + e.y * c.z)) as int],
                p,
            )
        }),
{
    broadcast use lemma_le_len;

    reveal(segment);
    lemma_head_len(g, fr, name, p);
    let b = segment(g, fr, name, s, p)->Ok_0;
    let n = encoded(name).len() as int;
    let e = extent(g);
    let w = p.bytes() as int;
    let d = grid_bytes(g, fr, name, s, p);
    let i = leaf_of_cell(e, c);
    lemma_cell_slot(c);
    let slot = c.slot_number(8);
    let size = leaf_of(p.bytes()).size as nat;
    let nf = e.in_blocks(8).volume() as int;
    let piece = leaf_pieces(e, s, p);
    assert(b.subrange(192, 192 + n) =~= encoded(name));
    assert(b[192 + n] == le(0, 1)[0]);
    nodes_are_in_place(g, fr, name, s, p);
    crate::nvdb::every_cell_is_stored(g, s, p, c);
    assert forall|k: int| 0 <= k < nf implies (#[trigger] piece(k)).len() == size by {
        leaves_are_laid_out(e, e.in_blocks(8).place(k), s.values@, s.leaf@[k], p);
    }
    stacked_in_place(nf, piece, size, i);
    let l = leaves_at(e, p);
    let all = stacked(nf, piece);
    assert(d.subrange(l, d.len() as int) == all);
    let one = piece(i);
    assert((i + 1) * size == i * size + size) by (nonlinear_arith);
    assert((slot + 1) * w == slot * w + w) by (nonlinear_arith);
    let from = 96 + slot * w;
    assert(0 <= slot * w) by (nonlinear_arith)
        requires
            0 <= slot,
            0 <= w,
    ;
    lemma_leaf_room(e, s, p, i, slot);
    assert(one.subrange(from, from + w) == value_bytes(s.values@[e.number(c)], p));
    let at = 193 + n + l + i * size + from;
    assert forall|q: int| 0 <= q < w implies #[trigger] b.subrange(at, at + w)[q] == one.subrange(
        from,
        from + w,
    )[q] by {
        assert(b[at + q] == d[l + i * size + from + q]);
        assert(d.subrange(l, d.len() as int)[i * size + from + q] == d[l + i * size + from + q]);
        assert(all.subrange(i * size, (i + 1) * size)[from + q] == all[i * size + from + q]);
    }
    assert(b.subrange(at, at + w) =~= one.subrange(from, from + w));
}

proof fn lemma_leaf_room(e: Dims, s: Samples, p: Precision, i: int, slot: int)
    requires
        0 <= i < s.leaf.len(),
        0 <= slot < 512,
    ensures
        96 + slot * p.bytes() + p.bytes() <= leaf_of(p.bytes()).size,
        leaf_pieces(e, s, p)(i).len() == leaf_of(p.bytes()).size,
{
    leaves_are_laid_out(e, e.in_blocks(8).place(i), s.values@, s.leaf@[i], p);
    let w = p.bytes() as int;
    assert(96 + 512 * w <= leaf_of(p.bytes()).size);
    assert(slot * w + w <= 512 * w) by (nonlinear_arith)
        requires
            slot < 512,
            0 <= w,
    ;
}

/// The slots of a block go along the last axis first, and along the first one last.
pub proof fn blocks_count_the_last_axis_first(node: Dims, f: nat, a: nat, b: nat, d: nat)
    requires
        a < f && b < f && d < f,
    ensures
        node.slot(f, (a * (f * f) + b * f + d) as int) == (Dims {
            x: node.x * f + a,
            y: node.y * f + b,
            z: node.z * f + d,
        }),
{
    let c = Dims { x: node.x * f + a, y: node.y * f + b, z: node.z * f + d };
    let k = f as int;
    vstd::arithmetic::div_mod::lemma_fundamental_div_mod_converse(
        c.x as int,
        k,
        node.x as int,
        a as int,
    );
    vstd::arithmetic::div_mod::lemma_fundamental_div_mod_converse(
        c.y as int,
        k,
        node.y as int,
        b as int,
    );
    vstd::arithmetic::div_mod::lemma_fundamental_div_mod_converse(
        c.z as int,
        k,
        node.z as int,
        d as int,
    );
    lemma_slot_of_cell(c, f);
    assert(c.over(f) == node);
}

// --------------------------------------------------------------------------
//  Where a grid lies
// --------------------------------------------------------------------------
/// Three numbers stand one behind the other, eight bytes each: `x`, `y` and `z`.
pub open spec fn spells_vector(b: Seq<u8>, at: int, v: Vec3) -> bool {
    &&& number_at(b, at, 8) == v.x.bits
    &&& number_at(b, at + 8, 8) == v.y.bits
    &&& number_at(b, at + 16, 8) == v.z.bits
}

proof fn lemma_vector_in(h: Seq<u8>, v: Vec3, t: Seq<u8>)
    ensures
        spells_vector(h + vector_bytes(v) + t, h.len() as int, v),
        vector_bytes(v).len() == 24,
{
    lemma_full(v.x.bits);
    lemma_full(v.y.bits);
    lemma_full(v.z.bits);
    let b = h + vector_bytes(v) + t;
    let at = h.len() as int;
    assert(b.subrange(at, at + 8) =~= le(v.x.bits as int, 8));
    assert(b.subrange(at + 8, at + 16) =~= le(v.y.bits as int, 8));
    assert(b.subrange(at + 16, at + 24) =~= le(v.z.bits as int, 8));
}

/// The head of a segment says where the grid lies in the world, from its lower to its upper
/// corner, how many cells it has along each axis, and how large a cell is.
#[verifier::rlimit(60)]
#[verifier::spinoff_prover]
pub proof fn segments_say_where_they_lie(g: UniformGrid, fr: Frame, name: Seq<char>, p: Precision)
    requires
        0 < g.nx <= 0x1_0000_0000,
        0 < g.ny <= 0x1_0000_0000,
        0 < g.nz <= 0x1_0000_0000,
    ensures
        ({
            let b = segment_head(g, fr, name, p);
            &&& spells_vector(b, 56, fr.lo)
            &&& spells_vector(b, 80, fr.hi)
            &&& spells_vector(b, 128, g.spacing)
            &&& number_at(b, 104, 4) == 0 && number_at(b, 108, 4) == 0 && number_at(b, 112, 4) == 0
            &&& number_at(b, 116, 4) + 1 == g.nx
            &&& number_at(b, 120, 4) + 1 == g.ny
            &&& number_at(b, 124, 4) + 1 == g.nz
            &&& number_at(b, 48, 4) == if p == Precision::F32 { 1 } else { 9nat }
        }),
{
    broadcast use lemma_le_len;

    lemma_pow();
    lemma_head_len(g, fr, name, p);
    let b = segment_head(g, fr, name, p);
    let e = extent(g);
    le_reads_back((g.nx - 1) as nat, 4);
    le_reads_back((g.ny - 1) as nat, 4);
    le_reads_back((g.nz - 1) as nat, 4);
    le_reads_back(0, 4);
    le_reads_back(1, 4);
    le_reads_back(9, 4);
    lemma_vector_in(Seq::empty(), fr.lo, Seq::empty());
    lemma_vector_in(Seq::empty(), fr.hi, Seq::empty());
    lemma_vector_in(Seq::empty(), g.spacing, Seq::empty());
    assert(b.subrange(48, 52) =~= le(crate::nvdb::grid_type(p) as int, 4));
    assert(b.subrange(56, 80) =~= vector_bytes(fr.lo));
    assert(b.subrange(80, 104) =~= vector_bytes(fr.hi));
    assert(b.subrange(128, 152) =~= vector_bytes(g.spacing));
    lemma_vector_at(b, 56, fr.lo);
    lemma_vector_at(b, 80, fr.hi);
    lemma_vector_at(b, 128, g.spacing);
    assert(b.subrange(104, 108) =~= le(0, 4));
    assert(b.subrange(108, 112) =~= le(0, 4));
    assert(b.subrange(112, 116) =~= le(0, 4));
    assert(b.subrange(116, 120) =~= le(e.x - 1, 4));
    assert(b.subrange(120, 124) =~= le(e.y - 1, 4));
    assert(b.subrange(124, 128) =~= le(e.z - 1, 4));
}

proof fn lemma_vector_at(b: Seq<u8>, at: int, v: Vec3)
    requires
        0 <= at <= b.len() - 24,
        b.subrange(at, at + 24) == vector_bytes(v),
    ensures
        spells_vector(b, at, v),
{
    let h = b.take(at);
    let t = b.skip(at + 24);
    lemma_vector_in(h, v, t);
    assert(b =~= h + vector_bytes(v) + t);
}

/// Entry `i`, `j` of a matrix of three rows whose numbers have `k` bytes each.
pub open spec fn entry_at(b: Seq<u8>, at: int, k: int, i: int, j: int) -> nat {
    number_at(b, at + k * (3 * i + j), k)
}

/// A matrix has these numbers on its diagonal and nothing beside it.
pub open spec fn is_diagonal(b: Seq<u8>, at: int, k: int, x: nat, y: nat, z: nat) -> bool {
    &&& entry_at(b, at, k, 0, 0) == x && entry_at(b, at, k, 0, 1) == 0 && entry_at(b, at, k, 0, 2) == 0
    &&& entry_at(b, at, k, 1, 0) == 0 && entry_at(b, at, k, 1, 1) == y && entry_at(b, at, k, 1, 2) == 0
    &&& entry_at(b, at, k, 2, 0) == 0 && entry_at(b, at, k, 2, 1) == 0 && entry_at(b, at, k, 2, 2) == z
}

proof fn lemma_diagonal(x: nat, y: nat, z: nat, k: nat)
    requires
        k == 4 || k == 8,
        x < byte_pow(k),
        y < byte_pow(k),
        z < byte_pow(k),
    ensures
        diagonal_bytes(x as int, y as int, z as int, k).len() == 9 * k,
        is_diagonal(diagonal_bytes(x as int, y as int, z as int, k), 0, k as int, x, y, z),
{
    broadcast use lemma_le_len;

    le_reads_back(x, k);
    le_reads_back(y, k);
    le_reads_back(z, k);
    let w = k as int;
    let b = diagonal_bytes(x as int, y as int, z as int, k);
    assert(b.subrange(0, w) =~= le(x as int, k));
    assert(b.subrange(4 * w, 5 * w) =~= le(y as int, k));
    assert(b.subrange(8 * w, 9 * w) =~= le(z as int, k));
    lemma_nothing(b.subrange(w, 2 * w));
    lemma_nothing(b.subrange(2 * w, 3 * w));
    lemma_nothing(b.subrange(3 * w, 4 * w));
    lemma_nothing(b.subrange(5 * w, 6 * w));
    lemma_nothing(b.subrange(6 * w, 7 * w));
    lemma_nothing(b.subrange(7 * w, 8 * w));
}

/// What is said of a matrix holds wherever it stands.
proof fn lemma_diagonal_at(b: Seq<u8>, at: int, d: Seq<u8>, k: int, x: nat, y: nat, z: nat)
    requires
        k == 4 || k == 8,
        d.len() == 9 * k,
        0 <= at <= b.len() - d.len(),
        b.subrange(at, at + d.len()) == d,
        is_diagonal(d, 0, k, x, y, z),
    ensures
        is_diagonal(b, at, k, x, y, z),
{
    assert forall|i: int, j: int| 0 <= i < 3 && 0 <= j < 3 implies #[trigger] entry_at(b, at, k, i, j)
        == entry_at(d, 0, k, i, j) by {
        let q = k * (3 * i + j);
        assert(0 <= q && q + k <= 9 * k) by (nonlinear_arith)
            requires
                k == 4 || k == 8,
                0 <= i < 3,
                0 <= j < 3,
                q == k * (3 * i + j),
        ;
        assert(b.subrange(at + q, at + q + k) =~= d.subrange(q, q + k)) by {
            assert forall|u: int| 0 <= u < k implies #[trigger] b.subrange(at + q, at + q + k)[u] == d.subrange(
                q,
                q + k,
            )[u] by {
                assert(b.subrange(at, at + d.len())[q + u] == b[at + q + u]);
            }
        }
        assert(0 + q == q);
    }
}

/// The map of a grid takes the places of the cells to the world: its matrix has the size of
/// a cell on the diagonal, and the centre of the first cell is what it adds.
#[verifier::rlimit(60)]
#[verifier::spinoff_prover]
pub proof fn maps_scale_and_shift(g: UniformGrid, fr: Frame)
    ensures
        ({
            let b = map_bytes(g, fr);
            let s = g.spacing;
            let i = fr.inverse;
            &&& b.len() == 264
            &&& is_diagonal(b, 88, 8, s.x.bits as nat, s.y.bits as nat, s.z.bits as nat)
            &&& is_diagonal(b, 160, 8, i.x.bits as nat, i.y.bits as nat, i.z.bits as nat)
            &&& spells_vector(b, 232, g.origin)
        }),
{
    broadcast use lemma_le_len;

    lemma_pow();
    let b = map_bytes(g, fr);
    let s = g.spacing;
    let i = fr.inverse;
    let d = diagonal_bytes(s.x.bits as int, s.y.bits as int, s.z.bits as int, 8);
    let e = diagonal_bytes(i.x.bits as int, i.y.bits as int, i.z.bits as int, 8);
    lemma_diagonal(s.x.bits as nat, s.y.bits as nat, s.z.bits as nat, 8);
    lemma_diagonal(i.x.bits as nat, i.y.bits as nat, i.z.bits as nat, 8);
    lemma_vector_in(Seq::empty(), g.origin, Seq::empty());
    assert(b.len() == 264);
    assert(b.subrange(88, 160) =~= d);
    assert(b.subrange(160, 232) =~= e);
    assert(b.subrange(232, 256) =~= vector_bytes(g.origin));
    lemma_diagonal_at(b, 88, d, 8, s.x.bits as nat, s.y.bits as nat, s.z.bits as nat);
    lemma_diagonal_at(b, 160, e, 8, i.x.bits as nat, i.y.bits as nat, i.z.bits as nat);
    lemma_vector_at(b, 232, g.origin);
}

/// The data of a grid carry its name, its map, the box it fills in the world and the size of
/// its cells.
#[verifier::rlimit(60)]
#[verifier::spinoff_prover]
pub proof fn grids_say_where_they_lie(g: UniformGrid, fr: Frame, name: Seq<char>, p: Precision)
    requires
        encoded(name).len() < 256,
    ensures
        ({
            let b = grid_data(g, fr, name, p);
            let n = encoded(name).len() as int;
            &&& b.subrange(40, 40 + n) == encoded(name)
            &&& forall|i: int| 40 + n <= i < 296 ==> #[trigger] b[i] == 0
            &&& b.subrange(296, 560) == map_bytes(g, fr)
            &&& spells_vector(b, 560, fr.lo)
            &&& spells_vector(b, 584, fr.hi)
            &&& spells_vector(b, 608, g.spacing)
            &&& number_at(b, 636, 4) == if p == Precision::F32 { 1 } else { 9nat }
        }),
{
    broadcast use lemma_le_len;

    reveal(grid_data);
    lemma_pow();
    le_reads_back(1, 4);
    le_reads_back(9, 4);
    maps_scale_and_shift(g, fr);
    lemma_vector_in(Seq::empty(), fr.lo, Seq::empty());
    lemma_vector_in(Seq::empty(), fr.hi, Seq::empty());
    lemma_vector_in(Seq::empty(), g.spacing, Seq::empty());
    let n = encoded(name).len() as int;
    let b = grid_data(g, fr, name, p);
    assert(b.subrange(40, 40 + n) =~= encoded(name));
    assert(b.subrange(296, 560) =~= map_bytes(g, fr));
    assert(b.subrange(560, 584) =~= vector_bytes(fr.lo));
    assert(b.subrange(584, 608) =~= vector_bytes(fr.hi));
    assert(b.subrange(608, 632) =~= vector_bytes(g.spacing));
    assert(b.subrange(636, 640) =~= le(crate::nvdb::grid_type(p) as int, 4));
    lemma_vector_at(b, 560, fr.lo);
    lemma_vector_at(b, 584, fr.hi);
    lemma_vector_at(b, 608, g.spacing);
}

/// How far a block of eight cells reaches along an axis of `n` cells, from its first cell.
pub open spec fn reach(first: int, n: int) -> int {
    if first + 8 <= n {
        7
    } else {
        n - 1 - first
    }
}

/// A leaf begins with the place of its first cell, and with how far it reaches along each
/// axis.
#[verifier::rlimit(60)]
#[verifier::spinoff_prover]
pub proof fn leaves_say_where_they_lie(e: Dims, leaf: Dims, v: Seq<Scalar>, st: NodeStat, p: Precision)
    requires
        leaf.x * 8 < e.x && leaf.y * 8 < e.y && leaf.z * 8 < e.z,
        e.x <= 0x1_0000_0000 && e.y <= 0x1_0000_0000 && e.z <= 0x1_0000_0000,
    ensures
        ({
            let b = leaf_bytes(e, leaf, v, st, p);
            &&& number_at(b, 0, 4) == leaf.x * 8
            &&& number_at(b, 4, 4) == leaf.y * 8
            &&& number_at(b, 8, 4) == leaf.z * 8
            &&& number_at(b, 12, 1) == reach((leaf.x * 8) as int, e.x as int)
            &&& number_at(b, 13, 1) == reach((leaf.y * 8) as int, e.y as int)
            &&& number_at(b, 14, 1) == reach((leaf.z * 8) as int, e.z as int)
            &&& b.subrange(80, 80 + p.bytes() as int) == value_bytes(st.minimum, p)
            &&& b.subrange(80 + p.bytes() as int, 80 + 2 * p.bytes() as int) == value_bytes(
                st.maximum,
                p,
            )
        }),
{
    broadcast use lemma_le_len;

    reveal(leaf_bytes);
    lemma_pow();
    assert(byte_pow(1) == 256) by {
        reveal_with_fuel(byte_pow, 2);
    }
    lemma_leaf_offsets(p);
    lemma_value_len(st.minimum, p);
    lemma_value_len(st.maximum, p);
    let w = p.bytes() as int;
    let l = leaf_of(p.bytes());
    let (x, y, z) = (leaf.x * 8, leaf.y * 8, leaf.z * 8);
    let a = Seq::<u8>::empty() + le(x as int, 4) + le(y as int, 4) + le(z as int, 4);
    let rx = reach(x as int, e.x as int);
    let ry = reach(y as int, e.y as int);
    let rz = reach(z as int, e.z as int);
    let c = a + le(rx, 1) + le(ry, 1) + le(rz, 1);
    le_reads_back(x as nat, 4);
    le_reads_back(y as nat, 4);
    le_reads_back(z as nat, 4);
    le_reads_back(rx as nat, 1);
    le_reads_back(ry as nat, 1);
    le_reads_back(rz as nat, 1);
    let d = padded(padded(c, 15) + le(0x12, 1), 16) + crate::bytes::mask_of(
        crate::nvdb::leaf_flags(e, leaf),
    );
    assert(d.len() == 80);
    lemma_stat_len(d, l.minimum, st, p, l.average, l.stddev, l.maximum);
    let s = with_stat(d, l.minimum, l.maximum, l.average, l.stddev, st, p);
    let b = leaf_bytes(e, leaf, v, st, p);
    assert(b.take(s.len() as int) =~= s);
    assert(s.take(80) == d);
    assert(b.take(15) =~= d.take(15));
    assert(d.take(15) =~= c);
    assert(b.subrange(0, 4) =~= c.subrange(0, 4));
    assert(c.subrange(0, 4) =~= le(x as int, 4));
    assert(b.subrange(4, 8) =~= c.subrange(4, 8));
    assert(c.subrange(4, 8) =~= le(y as int, 4));
    assert(b.subrange(8, 12) =~= c.subrange(8, 12));
    assert(c.subrange(8, 12) =~= le(z as int, 4));
    assert(b.subrange(12, 13) =~= c.subrange(12, 13));
    assert(c.subrange(12, 13) =~= le(rx, 1));
    assert(b.subrange(13, 14) =~= c.subrange(13, 14));
    assert(c.subrange(13, 14) =~= le(ry, 1));
    assert(b.subrange(14, 15) =~= c.subrange(14, 15));
    assert(c.subrange(14, 15) =~= le(rz, 1));
    assert(s.subrange(80, 80 + w) =~= value_bytes(st.minimum, p));
    assert(s.subrange(80 + w, 80 + 2 * w) =~= value_bytes(st.maximum, p));
    assert(b.subrange(80, 80 + w) =~= s.subrange(80, 80 + w));
    assert(b.subrange(80 + w, 80 + 2 * w) =~= s.subrange(80 + w, 80 + 2 * w));
}

/// The tree of a grid says where its leaves, its lower nodes, its upper nodes and its root
/// stand, counted from itself, and how many leaves, lower nodes, upper nodes and cells there
/// are.
#[verifier::rlimit(60)]
#[verifier::spinoff_prover]
pub proof fn trees_point_at_their_nodes(e: Dims, p: Precision)
    requires
        672 <= uppers_at(e, p) <= lowers_at(e, p) <= leaves_at(e, p) < byte_pow(8),
        672 <= crate::nvdb::root_at() < byte_pow(8),
        e.in_blocks(8).volume() < byte_pow(4),
        e.in_blocks(128).volume() < byte_pow(4),
        e.in_blocks(4096).volume() < byte_pow(4),
        e.volume() < byte_pow(8),
    ensures
        ({
            let b = tree_data(e, p);
            &&& b.len() == 64
            &&& 672 + number_at(b, 0, 8) == leaves_at(e, p)
            &&& 672 + number_at(b, 8, 8) == lowers_at(e, p)
            &&& 672 + number_at(b, 16, 8) == uppers_at(e, p)
            &&& 672 + number_at(b, 24, 8) == crate::nvdb::root_at()
            &&& number_at(b, 32, 4) == e.in_blocks(8).volume()
            &&& number_at(b, 36, 4) == e.in_blocks(128).volume()
            &&& number_at(b, 40, 4) == e.in_blocks(4096).volume()
            &&& number_at(b, 56, 8) == e.volume()
        }),
{
    broadcast use lemma_le_len;

    reveal(tree_data);
    let b = tree_data(e, p);
    let (l, m, u) = (leaves_at(e, p) - 672, lowers_at(e, p) - 672, uppers_at(e, p) - 672);
    let r = crate::nvdb::root_at() - 672;
    let (nl, nm, nu) = (
        e.in_blocks(8).volume(),
        e.in_blocks(128).volume(),
        e.in_blocks(4096).volume(),
    );
    le_reads_back(l as nat, 8);
    le_reads_back(m as nat, 8);
    le_reads_back(u as nat, 8);
    le_reads_back(r as nat, 8);
    le_reads_back(nl, 4);
    le_reads_back(nm, 4);
    le_reads_back(nu, 4);
    le_reads_back(e.volume(), 8);
    assert(b.subrange(0, 8) =~= le(l, 8));
    assert(b.subrange(8, 16) =~= le(m, 8));
    assert(b.subrange(16, 24) =~= le(u, 8));
    assert(b.subrange(24, 32) =~= le(r, 8));
    assert(b.subrange(32, 36) =~= le(nl as int, 4));
    assert(b.subrange(36, 40) =~= le(nm as int, 4));
    assert(b.subrange(40, 44) =~= le(nu as int, 4));
    assert(b.subrange(56, 64) =~= le(e.volume() as int, 8));
}

/// The last cell of a block of `span` cells along an axis of `n`.
pub open spec fn end_of(first: int, span: int, n: int) -> int {
    if first + span <= n {
        first + span - 1
    } else {
        n - 1
    }
}

/// The root begins with the first and the last cell of the grid.
#[verifier::spinoff_prover]
pub proof fn roots_span_the_grid(e: Dims, st: NodeStat, p: Precision)
    requires
        0 < e.x <= 0x1_0000_0000 && 0 < e.y <= 0x1_0000_0000 && 0 < e.z <= 0x1_0000_0000,
        e.in_blocks(4096).volume() < 0x1_0000_0000,
    ensures
        ({
            let b = root_bytes(e, st, p);
            &&& number_at(b, 0, 4) == 0 && number_at(b, 4, 4) == 0 && number_at(b, 8, 4) == 0
            &&& number_at(b, 12, 4) == e.x - 1
            &&& number_at(b, 16, 4) == e.y - 1
            &&& number_at(b, 20, 4) == e.z - 1
            &&& number_at(b, 24, 4) == e.in_blocks(4096).volume()
        }),
{
    broadcast use lemma_le_len;

    reveal(root_bytes);
    lemma_pow();
    lemma_root_numbers(p.bytes());
    lemma_value_len(Scalar { bits: 0 }, p);
    lemma_value_len(st.minimum, p);
    lemma_value_len(st.maximum, p);
    let n = e.in_blocks(4096).volume();
    le_reads_back(0, 4);
    le_reads_back((e.x - 1) as nat, 4);
    le_reads_back((e.y - 1) as nat, 4);
    le_reads_back((e.z - 1) as nat, 4);
    le_reads_back(n, 4);
    let b = root_bytes(e, st, p);
    assert(b.subrange(0, 4) =~= le(0, 4));
    assert(b.subrange(4, 8) =~= le(0, 4));
    assert(b.subrange(8, 12) =~= le(0, 4));
    assert(b.subrange(12, 16) =~= le(e.x - 1, 4));
    assert(b.subrange(16, 20) =~= le(e.y - 1, 4));
    assert(b.subrange(20, 24) =~= le(e.z - 1, 4));
    assert(b.subrange(24, 28) =~= le(n as int, 4));
}

/// An inner node begins with its first and its last cell inside the grid.
#[verifier::rlimit(60)]
#[verifier::spinoff_prover]
pub proof fn inner_nodes_say_where_they_lie(
    e: Dims,
    node: Dims,
    span: nat,
    below: Dims,
    f: nat,
    far: int,
    size: nat,
    st: NodeStat,
    p: Precision,
)
    requires
        f == 16 || f == 32,
        0 < span,
        node.x * span < e.x && node.y * span < e.y && node.z * span < e.z,
        e.x <= 0x1_0000_0000 && e.y <= 0x1_0000_0000 && e.z <= 0x1_0000_0000,
    ensures
        ({
            let b = internal_bytes(e, node, span, below, f, far, size, st, p);
            &&& number_at(b, 0, 4) == node.x * span
            &&& number_at(b, 4, 4) == node.y * span
            &&& number_at(b, 8, 4) == node.z * span
            &&& number_at(b, 12, 4) == end_of((node.x * span) as int, span as int, e.x as int)
            &&& number_at(b, 16, 4) == end_of((node.y * span) as int, span as int, e.y as int)
            &&& number_at(b, 20, 4) == end_of((node.z * span) as int, span as int, e.z as int)
        }),
{
    broadcast use lemma_le_len;

    reveal(internal_bytes);
    lemma_pow();
    crate::nvdb::lemma_cube(f);
    let slots = f * f * f;
    lemma_internal_offsets(p, slots);
    lemma_value_len(st.minimum, p);
    lemma_value_len(st.maximum, p);
    let l = internal_of(p.bytes(), slots);
    let (x, y, z) = (node.x * span, node.y * span, node.z * span);
    let ex = end_of(x as int, span as int, e.x as int);
    let ey = end_of(y as int, span as int, e.y as int);
    let ez = end_of(z as int, span as int, e.z as int);
    let a = Seq::<u8>::empty() + le(x as int, 4) + le(y as int, 4) + le(z as int, 4) + le(ex, 4)
        + le(ey, 4) + le(ez, 4);
    le_reads_back(x, 4);
    le_reads_back(y, 4);
    le_reads_back(z, 4);
    le_reads_back(ex as nat, 4);
    le_reads_back(ey as nat, 4);
    le_reads_back(ez as nat, 4);
    let c = padded(padded(a, 24) + le(0, 8), l.child_mask as int) + crate::bytes::mask_of(
        crate::nvdb::child_flags(below, node, f),
    );
    let d = with_stat(c, l.minimum, l.maximum, l.average, l.stddev, st, p);
    let b = internal_bytes(e, node, span, below, f, far, size, st, p);
    assert(c.take(24) =~= a);
    lemma_stat_head(c, l.minimum, l.maximum, l.average, l.stddev, st, p);
    assert(d.take(24) =~= c.take(24));
    assert(b.take(24) =~= d.take(24));
    assert(b.subrange(0, 4) =~= b.take(24).subrange(0, 4));
    assert(b.subrange(4, 8) =~= b.take(24).subrange(4, 8));
    assert(b.subrange(8, 12) =~= b.take(24).subrange(8, 12));
    assert(b.subrange(12, 16) =~= b.take(24).subrange(12, 16));
    assert(b.subrange(16, 20) =~= b.take(24).subrange(16, 20));
    assert(b.subrange(20, 24) =~= b.take(24).subrange(20, 24));
    assert(a.subrange(0, 4) =~= le(x as int, 4));
    assert(a.subrange(4, 8) =~= le(y as int, 4));
    assert(a.subrange(8, 12) =~= le(z as int, 4));
    assert(a.subrange(12, 16) =~= le(ex, 4));
    assert(a.subrange(16, 20) =~= le(ey, 4));
    assert(a.subrange(20, 24) =~= le(ez, 4));
}

/// Statistics stand behind what there is.
proof fn lemma_stat_head(
    b: Seq<u8>,
    minimum: usize,
    maximum: usize,
    average: usize,
    stddev: usize,
    st: NodeStat,
    p: Precision,
)
    ensures
        b.len() <= with_stat(b, minimum, maximum, average, stddev, st, p).len(),
        with_stat(b, minimum, maximum, average, stddev, st, p).take(b.len() as int) == b,
{
    assert(with_stat(b, minimum, maximum, average, stddev, st, p).take(b.len() as int) =~= b);
}

// --------------------------------------------------------------------------
//  Archives
// --------------------------------------------------------------------------
/// An archive holds a grid of values under a name.
pub open spec fn keeps_grid(file: Seq<u8>, g: UniformGrid, name: Seq<char>, v: Seq<Scalar>) -> bool {
    exists|at: int|
        0 <= at <= file.len() - grid_at(g, name, v, at as nat).len() && file.subrange(
            at,
            at + grid_at(g, name, v, at as nat).len(),
        ) == #[trigger] grid_at(g, name, v, at as nat)
}

/// A part of a file stays where it is when the file grows.
proof fn lemma_grown(a: Seq<u8>, c: Seq<u8>, at: int, b: Seq<u8>)
    requires
        0 <= at <= a.len() - b.len(),
        a.subrange(at, at + b.len()) == b,
    ensures
        (a + c).subrange(at, at + b.len()) == b,
{
    assert((a + c).subrange(at, at + b.len()) =~= a.subrange(at, at + b.len()));
}

proof fn lemma_last(a: Seq<u8>, b: Seq<u8>)
    ensures
        (a + b).subrange(a.len() as int, (a.len() + b.len()) as int) == b,
{
    assert((a + b).subrange(a.len() as int, (a.len() + b.len()) as int) =~= b);
}

#[verifier::spinoff_prover]
proof fn lemma_archive_keeps(g: UniformGrid, grids: Seq<(Seq<char>, Seq<Scalar>)>, n: int, k: int)
    requires
        0 <= k < n <= grids.len(),
    ensures
        keeps_grid(archive(g, grids, n), g, grids[k].0, grids[k].1),
    decreases n,
{
    let before = archive(g, grids, n - 1);
    let (name, v) = grids[n - 1];
    let new = grid_at(g, name, v, before.len());
    assert(archive(g, grids, n) == before + new);
    if k < n - 1 {
        lemma_archive_keeps(g, grids, n - 1, k);
        let at = choose|at: int|
            0 <= at <= before.len() - grid_at(g, grids[k].0, grids[k].1, at as nat).len()
                && before.subrange(
                at,
                at + grid_at(g, grids[k].0, grids[k].1, at as nat).len(),
            ) == #[trigger] grid_at(g, grids[k].0, grids[k].1, at as nat);
        lemma_grown(before, new, at, grid_at(g, grids[k].0, grids[k].1, at as nat));
    } else {
        lemma_last(before, new);
    }
}

spec fn has_grid(s: Seq<(Seq<char>, Seq<Scalar>)>, name: Seq<char>, v: Seq<Scalar>) -> bool {
    exists|i: int| 0 <= i < s.len() && #[trigger] s[i] == (name, v)
}

proof fn lemma_all_grids(
    fields: Seq<OutputField>,
    mags: Seq<Vec<Scalar>>,
    n: int,
    k: int,
    name: Seq<char>,
    v: Seq<Scalar>,
)
    requires
        0 <= k < n <= fields.len(),
        has_grid(grids_of(fields[k], mags[k]@), name, v),
    ensures
        has_grid(all_grids(fields, mags, n), name, v),
    decreases n,
{
    let a = all_grids(fields, mags, n - 1);
    let b = grids_of(fields[n - 1], mags[n - 1]@);
    if k < n - 1 {
        lemma_all_grids(fields, mags, n - 1, k, name, v);
        let i = choose|i: int| 0 <= i < a.len() && #[trigger] a[i] == (name, v);
        assert((a + b)[i] == (name, v));
    } else {
        let i = choose|i: int| 0 <= i < b.len() && #[trigger] b[i] == (name, v);
        assert((a + b)[a.len() + i] == (name, v));
    }
}

proof fn lemma_field_kept(
    g: UniformGrid,
    fields: Seq<OutputField>,
    mags: Seq<Vec<Scalar>>,
    k: int,
    i: int,
    name: Seq<char>,
    v: Seq<Scalar>,
)
    requires
        0 <= k < fields.len(),
        archive_of(g, fields, mags) is Ok,
        0 <= i < grids_of(fields[k], mags[k]@).len(),
        grids_of(fields[k], mags[k]@)[i] == (name, v),
    ensures
        keeps_grid(archive_of(g, fields, mags)->Ok_0, g, name, v),
{
    let all = all_grids(fields, mags, fields.len() as int);
    lemma_all_grids(fields, mags, fields.len() as int, k, name, v);
    let j = choose|j: int| 0 <= j < all.len() && #[trigger] all[j] == (name, v);
    lemma_archive_keeps(g, all, all.len() as int, j);
}

/// An archive holds every field: a field of numbers under its name, and of a field of
/// vectors each component and the magnitude, under the name with `.x`, `.y`, `.z` or `.mag`
/// behind it.
#[verifier::rlimit(30)]
pub proof fn archives_hold_every_component(
    g: UniformGrid,
    fields: Seq<OutputField>,
    mags: Seq<Vec<Scalar>>,
    k: int,
)
    requires
        0 <= k < fields.len(),
        archive_of(g, fields, mags) is Ok,
    ensures
        ({
            let file = archive_of(g, fields, mags)->Ok_0;
            let name = fields[k].name@;
            match fields[k].values {
                FieldValues::Scalar(v) => keeps_grid(file, g, name, v@),
                FieldValues::Vector(v) => {
                    &&& keeps_grid(file, g, name + ".x"@, Seq::new(v@.len(), |i: int| v@[i].x))
                    &&& keeps_grid(file, g, name + ".y"@, Seq::new(v@.len(), |i: int| v@[i].y))
                    &&& keeps_grid(file, g, name + ".z"@, Seq::new(v@.len(), |i: int| v@[i].z))
                    &&& keeps_grid(file, g, name + ".mag"@, mags[k]@)
                },
            }
        }),
{
    let name = fields[k].name@;
    match fields[k].values {
        FieldValues::Scalar(v) => {
            lemma_field_kept(g, fields, mags, k, 0, name, v@);
        },
        FieldValues::Vector(v) => {
            let x = Seq::new(v@.len(), |i: int| v@[i].x);
            let y = Seq::new(v@.len(), |i: int| v@[i].y);
            let z = Seq::new(v@.len(), |i: int| v@[i].z);
            assert(v@.map_values(|p: Vec3| p.x) =~= x);
            assert(v@.map_values(|p: Vec3| p.y) =~= y);
            assert(v@.map_values(|p: Vec3| p.z) =~= z);
            lemma_field_kept(g, fields, mags, k, 0, name + ".x"@, x);
            lemma_field_kept(g, fields, mags, k, 1, name + ".y"@, y);
            lemma_field_kept(g, fields, mags, k, 2, name + ".z"@, z);
            lemma_field_kept(g, fields, mags, k, 3, name + ".mag"@, mags[k]@);
        },
    }
}

/// A grid of an archive begins with its name.
pub proof fn archived_grids_begin_with_their_name(
    g: UniformGrid,
    name: Seq<char>,
    v: Seq<Scalar>,
    at: nat,
)
    requires
        encoded(name).len() < 0x1_0000_0000,
    ensures
        ({
            let b = grid_at(g, name, v, at);
            let n = encoded(name).len() as int;
            &&& 4 + n <= b.len()
            &&& number_at(b, 0, 4) == n
            &&& b.subrange(4, 4 + n) == encoded(name)
        }),
{
    broadcast use lemma_le_len;

    lemma_pow();
    let b = grid_at(g, name, v, at);
    let n = encoded(name).len() as int;
    le_reads_back(encoded(name).len(), 4);
    assert(grid_head(name).len() >= 4 + n);
    assert(b.subrange(0, 4) =~= le(n, 4));
    assert(b.subrange(4, 4 + n) =~= encoded(name));
}

/// The map of an archived grid takes the places of the cells to the world: four rows of four
/// numbers, with the size of a cell on the diagonal and the centre of the first cell in the
/// last row.
#[verifier::rlimit(60)]
#[verifier::spinoff_prover]
pub proof fn transforms_scale_and_shift(g: UniformGrid)
    ensures
        ({
            let b = transform_bytes(g);
            let h = text_bytes("AffineMap"@).len() as int;
            &&& b.take(h) == text_bytes("AffineMap"@)
            &&& number_at(b, h, 8) == g.spacing.x.bits
            &&& number_at(b, h + 40, 8) == g.spacing.y.bits
            &&& number_at(b, h + 80, 8) == g.spacing.z.bits
            &&& number_at(b, h + 96, 8) == g.origin.x.bits
            &&& number_at(b, h + 104, 8) == g.origin.y.bits
            &&& number_at(b, h + 112, 8) == g.origin.z.bits
            &&& number_at(b, h + 120, 8) == ONE
            &&& forall|i: int| h + 8 <= i < h + 40 ==> #[trigger] b[i] == 0
            &&& forall|i: int| h + 48 <= i < h + 80 ==> #[trigger] b[i] == 0
            &&& forall|i: int| h + 88 <= i < h + 96 ==> #[trigger] b[i] == 0
            &&& b.len() == h + 128
        }),
{
    broadcast use lemma_le_len;

    let b = transform_bytes(g);
    let h = text_bytes("AffineMap"@).len() as int;
    let s = g.spacing;
    let o = g.origin;
    lemma_full(s.x.bits);
    lemma_full(s.y.bits);
    lemma_full(s.z.bits);
    lemma_full(o.x.bits);
    lemma_full(o.y.bits);
    lemma_full(o.z.bits);
    lemma_full(ONE);
    assert(b.len() == h + 128);
    assert(b.take(h) =~= text_bytes("AffineMap"@));
    assert(b.subrange(h, h + 8) =~= le(s.x.bits as int, 8));
    assert(b.subrange(h + 40, h + 48) =~= le(s.y.bits as int, 8));
    assert(b.subrange(h + 80, h + 88) =~= le(s.z.bits as int, 8));
    assert(b.subrange(h + 96, h + 104) =~= le(o.x.bits as int, 8));
    assert(b.subrange(h + 104, h + 112) =~= le(o.y.bits as int, 8));
    assert(b.subrange(h + 112, h + 120) =~= le(o.z.bits as int, 8));
    assert(b.subrange(h + 120, h + 128) =~= le(ONE as int, 8));
    assert(b.subrange(h + 8, h + 40) =~= zeros(32));
    assert(b.subrange(h + 48, h + 80) =~= zeros(32));
    assert(b.subrange(h + 88, h + 96) =~= zeros(8));
    assert forall|i: int| h + 8 <= i < h + 40 implies #[trigger] b[i] == 0 by {
        assert(b.subrange(h + 8, h + 40)[i - h - 8] == b[i]);
    }
    assert forall|i: int| h + 48 <= i < h + 80 implies #[trigger] b[i] == 0 by {
        assert(b.subrange(h + 48, h + 80)[i - h - 48] == b[i]);
    }
    assert forall|i: int| h + 88 <= i < h + 96 implies #[trigger] b[i] == 0 by {
        assert(b.subrange(h + 88, h + 96)[i - h - 88] == b[i]);
    }
}

/// A leaf of an archived grid holds every cell of its block: the mask has the cell's bit, and
/// its value stands in its slot, in single precision.
pub proof fn archived_leaves_hold_their_cells(e: Dims, c: Dims, v: Seq<Scalar>)
    requires
        e.holds(c),
    ensures
        ({
            let leaf = Dims { x: c.x / 8, y: c.y / 8, z: c.z / 8 };
            let b = leaf_buffer(e, leaf, v);
            let n = cell_slot(c);
            &&& b.len() == 2113
            &&& (b[n / 8] as nat / crate::bytes::bit(n % 8)) % 2 == 1
            &&& b.subrange(65 + 4 * n, 69 + 4 * n) == le(
                single(v[(c.x + e.x * (c.y + e.y * c.z)) as int]) as int,
                4,
            )
        }),
{
    lemma_cell_slot(c);
    lemma_slot_of_cell(c, 8);
    let leaf = c.over(8);
    leaf_buffers_hold_their_cells(e, leaf, v, cell_slot(c), e.number(c));
}

/// The upper nodes of an archived grid come in the order of their places, the first axis
/// counting most: every place once.
pub proof fn upper_nodes_are_sorted(d: Dims, q: Dims)
    requires
        d.holds(q),
    ensures
        ({
            let i = (q.x * d.y + q.y) * d.z + q.z;
            &&& 0 <= i < d.x * d.y * d.z
            &&& sorted_place(d, i as int) == q
        }),
{
    let (x, y, z) = (q.x as int, q.y as int, q.z as int);
    let (dx, dy, dz) = (d.x as int, d.y as int, d.z as int);
    let r = x * dy + y;
    let i = r * dz + z;
    assert(0 <= r < dx * dy) by (nonlinear_arith)
        requires
            0 <= x < dx,
            0 <= y < dy,
            r == x * dy + y,
    ;
    assert(0 <= i < dx * dy * dz) by (nonlinear_arith)
        requires
            0 <= r < dx * dy,
            0 <= z < dz,
            i == r * dz + z,
    ;
    vstd::arithmetic::div_mod::lemma_fundamental_div_mod_converse(i, dz, r, z);
    vstd::arithmetic::div_mod::lemma_fundamental_div_mod_converse(r, dy, x, y);
}

/// Every upper node begins with the place of its first cell.
pub proof fn upper_nodes_say_where_they_begin(e: Dims, i: int)
    requires
        ({
            let q = sorted_place(e.in_blocks(4096), i);
            q.x * 4096 < 0x1_0000_0000 && q.y * 4096 < 0x1_0000_0000 && q.z * 4096 < 0x1_0000_0000
        }),
    ensures
        ({
            let q = sorted_place(e.in_blocks(4096), i);
            let b = root_topology(e)(i);
            &&& number_at(b, 0, 4) == q.x * 4096
            &&& number_at(b, 4, 4) == q.y * 4096
            &&& number_at(b, 8, 4) == q.z * 4096
        }),
{
    broadcast use lemma_le_len;

    lemma_pow();
    let q = sorted_place(e.in_blocks(4096), i);
    let b = root_topology(e)(i);
    let rest = upper_topology(e, q);
    le_reads_back(q.x * 4096, 4);
    le_reads_back(q.y * 4096, 4);
    le_reads_back(q.z * 4096, 4);
    assert(b.subrange(0, 4) =~= le((q.x * 4096) as int, 4));
    assert(b.subrange(4, 8) =~= le((q.y * 4096) as int, 4));
    assert(b.subrange(8, 12) =~= le((q.z * 4096) as int, 4));
}

} // verus!
