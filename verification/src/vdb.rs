//! OpenVDB archives: a dense Cartesian block as the tree that NanoVDB has too,
//! uncompressed.
//!
//! A grid is its name and type, three stream positions, its meta data and its
//! transform, the topology of the tree and then its buffers. Both walk the tree: the
//! upper nodes in the order of their coordinates, and the children of a node in the
//! order of their slots.

use vstd::prelude::*;

use crate::bytes::{
    bytes_of, encoded, lemma_le_len, mask_of, push_all, push_le, push_mask, push_zeros, stacked,
    zeros,
};
use crate::error::{Error, Failure};
use crate::mesh::Vec3;
use crate::narrow::{single, to_single};
use crate::nvdb::{
    cell_count_message, cell_count_text, child_flags, contains, empty_grid_message, empty_grid_text,
    extent, has_slots, is_block, is_block_of, le, leaf_cell, leaf_flags, lemma_counts, lemma_cube,
    lemma_has_slots, node_counts, number_of, slot_place, find_child_flags, find_leaf_flags, Dims,
    Triple, UniformGrid,
};
use crate::output_types::{FieldValues, OutputField};
use crate::scalar::{Scalar, ONE};
use crate::text::{copy, push_text};

verus! {

/// ` BDV`, at the head of an archive.
pub const MAGIC: u64 = 0x5644_4220;

pub const FILE_VERSION: u32 = 225;

pub const LIB_MAJOR: u32 = 13;

pub const LIB_MINOR: u32 = 0;

pub const COMPRESS_NONE: u32 = 0;

/// Every value of a node follows, and no mask selects some of them.
pub const NO_MASK_AND_ALL_VALS: u8 = 6;

// --------------------------------------------------------------------------
//  Framing
// --------------------------------------------------------------------------
/// A text with its length in front.
pub open spec fn text_bytes(s: Seq<char>) -> Seq<u8> {
    le(encoded(s).len() as int, 4) + encoded(s)
}

fn push_string(b: &mut Vec<u8>, s: &str)
    ensures
        final(b)@ == old(b)@ + text_bytes(s@),
{
    let t = bytes_of(s);
    let ghost start = b@;
    push_le(b, t.len() as u64, 4);
    push_all(b, &t);
    assert(b@ =~= start + text_bytes(s@));
}

/// The head of an archive of `n` grids: grids have offsets, the identity is a
/// placeholder, and there is no meta data.
pub open spec fn archive_head(n: nat) -> Seq<u8> {
    Seq::<u8>::empty() + le(MAGIC as int, 8) + le(FILE_VERSION as int, 4) + le(LIB_MAJOR as int, 4)
        + le(LIB_MINOR as int, 4) + le(1, 1) + encoded("00000000-0000-0000-0000-000000000000"@) + le(
        0,
        4,
    ) + le(n as int, 4)
}

fn write_header(n: usize) -> (b: Vec<u8>)
    ensures
        b@ == archive_head(n as nat),
{
    let mut b: Vec<u8> = Vec::new();
    assert(b@ =~= Seq::<u8>::empty());
    push_le(&mut b, MAGIC, 8);
    push_le(&mut b, FILE_VERSION as u64, 4);
    push_le(&mut b, LIB_MAJOR as u64, 4);
    push_le(&mut b, LIB_MINOR as u64, 4);
    push_le(&mut b, 1, 1);
    push_all(&mut b, &bytes_of("00000000-0000-0000-0000-000000000000"));
    push_le(&mut b, 0, 4);
    push_le(&mut b, n as u64, 4);
    b
}

/// The name and the type of a grid, which is an instance of no other.
pub open spec fn grid_head(name: Seq<char>) -> Seq<u8> {
    Seq::<u8>::empty() + text_bytes(name) + text_bytes("Tree_float_5_4_3"@) + text_bytes(""@)
}

/// The compression and the meta data of a grid: it is a density.
pub open spec fn grid_meta() -> Seq<u8> {
    Seq::<u8>::empty() + le(COMPRESS_NONE as int, 4) + le(1, 4) + text_bytes("class"@) + text_bytes(
        "string"@,
    ) + text_bytes("fog volume"@)
}

/// The map from places to the world: the spacing on the diagonal, and the first
/// centre in the last row.
pub open spec fn transform_bytes(g: UniformGrid) -> Seq<u8> {
    let s = g.spacing;
    let o = g.origin;
    Seq::<u8>::empty() + text_bytes("AffineMap"@) + le(s.x.bits as int, 8) + zeros(32) + le(
        s.y.bits as int,
        8,
    ) + zeros(32) + le(s.z.bits as int, 8) + zeros(8) + le(o.x.bits as int, 8) + le(
        o.y.bits as int,
        8,
    ) + le(o.z.bits as int, 8) + le(ONE as int, 8)
}

fn write_grid_head(name: &str) -> (b: Vec<u8>)
    ensures
        b@ == grid_head(name@),
{
    let mut b: Vec<u8> = Vec::new();
    assert(b@ =~= Seq::<u8>::empty());
    push_string(&mut b, name);
    push_string(&mut b, "Tree_float_5_4_3");
    push_string(&mut b, "");
    b
}

fn write_grid_metadata() -> (b: Vec<u8>)
    ensures
        b@ == grid_meta(),
{
    let mut b: Vec<u8> = Vec::new();
    assert(b@ =~= Seq::<u8>::empty());
    push_le(&mut b, COMPRESS_NONE as u64, 4);
    push_le(&mut b, 1, 4);
    push_string(&mut b, "class");
    push_string(&mut b, "string");
    push_string(&mut b, "fog volume");
    b
}

fn write_transform(g: &UniformGrid) -> (b: Vec<u8>)
    ensures
        b@ == transform_bytes(*g),
{
    let s = g.spacing;
    let o = g.origin;
    let mut b: Vec<u8> = Vec::new();
    assert(b@ =~= Seq::<u8>::empty());
    push_string(&mut b, "AffineMap");
    push_le(&mut b, s.x.bits, 8);
    push_zeros(&mut b, 32);
    push_le(&mut b, s.y.bits, 8);
    push_zeros(&mut b, 32);
    push_le(&mut b, s.z.bits, 8);
    push_zeros(&mut b, 8);
    push_le(&mut b, o.x.bits, 8);
    push_le(&mut b, o.y.bits, 8);
    push_le(&mut b, o.z.bits, 8);
    push_le(&mut b, ONE, 8);
    b
}

// --------------------------------------------------------------------------
//  Topology
// --------------------------------------------------------------------------
/// The topology of a leaf: its mask.
pub open spec fn leaf_topology(g: Dims, leaf: Dims) -> Seq<u8> {
    mask_of(leaf_flags(g, leaf))
}

/// What a node holds itself: the mask of its children, an empty mask of values, and
/// values that are all nothing.
pub open spec fn node_topology(below: Dims, node: Dims, f: nat) -> Seq<u8> {
    let slots = f * f * f;
    Seq::<u8>::empty() + mask_of(child_flags(below, node, f)) + zeros(slots / 8) + le(
        NO_MASK_AND_ALL_VALS as int,
        1,
    ) + zeros(4 * slots)
}

/// What a slot of a lower node adds: the topology of its leaf.
pub open spec fn lower_slot_topology(g: Dims, node: Dims) -> spec_fn(int) -> Seq<u8> {
    |n: int|
        if g.in_blocks(8).holds(node.slot(16, n)) {
            leaf_topology(g, node.slot(16, n))
        } else {
            Seq::empty()
        }
}

/// The topology of a lower node and its leaves.
pub open spec fn lower_topology(g: Dims, node: Dims) -> Seq<u8> {
    node_topology(g.in_blocks(8), node, 16) + stacked(4096, lower_slot_topology(g, node))
}

/// What a slot of an upper node adds: the topology of its lower node.
pub open spec fn upper_slot_topology(g: Dims, node: Dims) -> spec_fn(int) -> Seq<u8> {
    |n: int|
        if g.in_blocks(128).holds(node.slot(32, n)) {
            lower_topology(g, node.slot(32, n))
        } else {
            Seq::empty()
        }
}

/// The topology of an upper node and its lower nodes.
pub open spec fn upper_topology(g: Dims, node: Dims) -> Seq<u8> {
    node_topology(g.in_blocks(128), node, 32) + stacked(32768, upper_slot_topology(g, node))
}

/// The `i`-th upper node in the order of the coordinates, the first one counting
/// most.
pub open spec fn sorted_place(d: Dims, i: int) -> Dims {
    Dims {
        x: ((i / d.z as int) / d.y as int) as nat,
        y: ((i / d.z as int) % d.y as int) as nat,
        z: (i % d.z as int) as nat,
    }
}

/// An upper node: where it begins, and its topology.
pub open spec fn root_topology(g: Dims) -> spec_fn(int) -> Seq<u8> {
    |i: int|
        {
            let node = sorted_place(g.in_blocks(4096), i);
            Seq::<u8>::empty() + le((node.x * 4096) as int, 4) + le((node.y * 4096) as int, 4) + le(
                (node.z * 4096) as int,
                4,
            ) + upper_topology(g, node)
        }
}

/// The topology of a tree: nothing in the background, no constant tiles, and the
/// upper nodes.
pub open spec fn topology(g: Dims) -> Seq<u8> {
    let n = g.in_blocks(4096).volume() as int;
    Seq::<u8>::empty() + le(0, 4) + le(0, 4) + le(n, 4) + stacked(n, root_topology(g))
}

fn push_node_topology(b: &mut Vec<u8>, below: &Triple, node: &Triple, f: usize)
    requires
        f == 16 || f == 32,
        has_slots(node@, f as nat),
    ensures
        final(b)@ == old(b)@ + node_topology(below@, node@, f as nat),
{
    proof {
        lemma_cube(f as nat);
    }
    let slots: usize = if f == 16 { 4096 } else { 32768 };
    let mut a: Vec<u8> = Vec::new();
    assert(a@ =~= Seq::<u8>::empty());
    push_mask(&mut a, &find_child_flags(below, node, f));
    push_zeros(&mut a, slots / 8);
    push_le(&mut a, NO_MASK_AND_ALL_VALS as u64, 1);
    push_zeros(&mut a, 4 * slots);
    push_all(b, &a);
}

/// The nodes of a grid, level by level.
struct Levels {
    g: Triple,
    leaf: Triple,
    lower: Triple,
    upper: Triple,
}

impl Levels {
    spec fn wf(self) -> bool {
        &&& self.leaf@ == self.g@.in_blocks(8)
        &&& self.lower@ == self.g@.in_blocks(128)
        &&& self.upper@ == self.g@.in_blocks(4096)
        &&& self.g.x <= 0x7fff_ffff && self.g.y <= 0x7fff_ffff && self.g.z <= 0x7fff_ffff
        &&& self.g@.volume() <= usize::MAX
    }
}

/// A node of an extent begins inside the grid.
proof fn lemma_inside(g: Dims, p: Dims, d: nat)
    requires
        d > 0,
        g.x <= 0x7fff_ffff,
        g.y <= 0x7fff_ffff,
        g.z <= 0x7fff_ffff,
        g.in_blocks(d).holds(p),
    ensures
        is_block_of(g, p, d),
{
    crate::nvdb::lemma_first_cell(g.x, p.x, d);
    crate::nvdb::lemma_first_cell(g.y, p.y, d);
    crate::nvdb::lemma_first_cell(g.z, p.z, d);
}

#[verifier::spinoff_prover]
fn push_lower_topology(b: &mut Vec<u8>, l: &Levels, node: &Triple)
    requires
        l.wf(),
        l.lower@.holds(node@),
    ensures
        final(b)@ == old(b)@ + lower_topology(l.g@, node@),
{
    proof {
        lemma_inside(l.g@, node@, 128);
        lemma_has_slots(l.g@, node@, 128, 16);
        lemma_cube(16);
    }
    let ghost start = b@;
    push_node_topology(b, &l.leaf, node, 16);
    let ghost own = b@;
    let ghost piece = lower_slot_topology(l.g@, node@);
    let mut n: usize = 0;
    assert(b@ =~= own + stacked(0, piece));
    while n < 4096
        invariant
            n <= 4096,
            l.wf(),
            has_slots(node@, 16),
            piece == lower_slot_topology(l.g@, node@),
            b@ == own + stacked(n as int, piece),
        decreases 4096 - n,
    {
        proof {
            lemma_cube(16);
        }
        let c = slot_place(node, 16, n);
        if contains(&l.leaf, &c) {
            proof {
                lemma_inside(l.g@, c@, 8);
            }
            push_mask(b, &find_leaf_flags(&l.g, &c));
        }
        n = n + 1;
        assert(b@ =~= own + stacked(n as int, piece));
    }
    assert(b@ =~= start + lower_topology(l.g@, node@));
}

#[verifier::spinoff_prover]
fn push_upper_topology(b: &mut Vec<u8>, l: &Levels, node: &Triple)
    requires
        l.wf(),
        l.upper@.holds(node@),
    ensures
        final(b)@ == old(b)@ + upper_topology(l.g@, node@),
{
    proof {
        lemma_inside(l.g@, node@, 4096);
        lemma_has_slots(l.g@, node@, 4096, 32);
        lemma_cube(32);
    }
    let ghost start = b@;
    push_node_topology(b, &l.lower, node, 32);
    let ghost own = b@;
    let ghost piece = upper_slot_topology(l.g@, node@);
    let mut n: usize = 0;
    assert(b@ =~= own + stacked(0, piece));
    while n < 32768
        invariant
            n <= 32768,
            l.wf(),
            has_slots(node@, 32),
            piece == upper_slot_topology(l.g@, node@),
            b@ == own + stacked(n as int, piece),
        decreases 32768 - n,
    {
        proof {
            lemma_cube(32);
        }
        let c = slot_place(node, 32, n);
        if contains(&l.lower, &c) {
            push_lower_topology(b, l, &c);
        }
        n = n + 1;
        assert(b@ =~= own + stacked(n as int, piece));
    }
    assert(b@ =~= start + upper_topology(l.g@, node@));
}

proof fn lemma_sorted_place(d: Dims, i: int)
    requires
        0 <= i < d.volume(),
    ensures
        d.holds(sorted_place(d, i)),
        d.x > 0 && d.y > 0 && d.z > 0,
{
    assert(d.x > 0 && d.y > 0 && d.z > 0) by (nonlinear_arith)
        requires
            d.x * (d.y * d.z) > 0,
    ;
    let x = d.x as int;
    let y = d.y as int;
    let z = d.z as int;
    assert(x * (y * z) == z * (y * x)) by (nonlinear_arith);
    let t = Dims { x: d.z, y: d.y, z: d.x };
    crate::nvdb::every_number_is_a_place(t, i);
}

fn find_sorted(d: &Triple, i: usize) -> (p: Triple)
    requires
        i < d@.volume(),
    ensures
        p@ == sorted_place(d@, i as int),
        d@.holds(p@),
{
    proof {
        lemma_sorted_place(d@, i as int);
    }
    let q: usize = i / d.z;
    Triple { x: q / d.y, y: q % d.y, z: i % d.z }
}

#[verifier::spinoff_prover]
fn write_topology(l: &Levels) -> (b: Vec<u8>)
    requires
        l.wf(),
        l.upper@.volume() <= usize::MAX,
        l.upper.x > 0,
    ensures
        b@ == topology(l.g@),
{
    let n: usize = crate::nvdb::volume_of(&l.upper);
    let mut b: Vec<u8> = Vec::new();
    assert(b@ =~= Seq::<u8>::empty());
    push_le(&mut b, 0, 4);
    push_le(&mut b, 0, 4);
    push_le(&mut b, n as u64, 4);
    let ghost own = b@;
    let ghost piece = root_topology(l.g@);
    let mut i: usize = 0;
    assert(b@ =~= own + stacked(0, piece));
    while i < n
        invariant
            i <= n,
            l.wf(),
            n == l.upper@.volume(),
            piece == root_topology(l.g@),
            b@ == own + stacked(i as int, piece),
        decreases n - i,
    {
        let node = find_sorted(&l.upper, i);
        proof {
            lemma_inside(l.g@, node@, 4096);
        }
        let mut a: Vec<u8> = Vec::new();
        assert(a@ =~= Seq::<u8>::empty());
        push_le(&mut a, (node.x * 4096) as u64, 4);
        push_le(&mut a, (node.y * 4096) as u64, 4);
        push_le(&mut a, (node.z * 4096) as u64, 4);
        push_upper_topology(&mut a, l, &node);
        push_all(&mut b, &a);
        i = i + 1;
        assert(b@ =~= own + stacked(i as int, piece));
    }
    b
}

// --------------------------------------------------------------------------
//  Buffers
// --------------------------------------------------------------------------
/// The value in a slot of a leaf: nothing outside the grid.
pub open spec fn single_piece(g: Dims, leaf: Dims, v: Seq<Scalar>) -> spec_fn(int) -> Seq<u8> {
    |n: int|
        match leaf_cell(g, leaf, n) {
            Some(c) => le(single(v[c]) as int, 4),
            None => zeros(4),
        }
}

/// The buffer of a leaf: its mask again, and every value.
pub open spec fn leaf_buffer(g: Dims, leaf: Dims, v: Seq<Scalar>) -> Seq<u8> {
    Seq::<u8>::empty() + mask_of(leaf_flags(g, leaf)) + le(NO_MASK_AND_ALL_VALS as int, 1)
        + stacked(512, single_piece(g, leaf, v))
}

pub open spec fn lower_slot_buffer(g: Dims, node: Dims, v: Seq<Scalar>) -> spec_fn(int) -> Seq<u8> {
    |n: int|
        if g.in_blocks(8).holds(node.slot(16, n)) {
            leaf_buffer(g, node.slot(16, n), v)
        } else {
            Seq::empty()
        }
}

/// The buffers of a lower node: those of its leaves.
pub open spec fn lower_buffer(g: Dims, node: Dims, v: Seq<Scalar>) -> Seq<u8> {
    stacked(4096, lower_slot_buffer(g, node, v))
}

pub open spec fn upper_slot_buffer(g: Dims, node: Dims, v: Seq<Scalar>) -> spec_fn(int) -> Seq<u8> {
    |n: int|
        if g.in_blocks(128).holds(node.slot(32, n)) {
            lower_buffer(g, node.slot(32, n), v)
        } else {
            Seq::empty()
        }
}

/// The buffers of an upper node: those of its lower nodes.
pub open spec fn upper_buffer(g: Dims, node: Dims, v: Seq<Scalar>) -> Seq<u8> {
    stacked(32768, upper_slot_buffer(g, node, v))
}

pub open spec fn root_buffer(g: Dims, v: Seq<Scalar>) -> spec_fn(int) -> Seq<u8> {
    |i: int| upper_buffer(g, sorted_place(g.in_blocks(4096), i), v)
}

/// The buffers of a tree.
pub open spec fn buffers(g: Dims, v: Seq<Scalar>) -> Seq<u8> {
    stacked(g.in_blocks(4096).volume() as int, root_buffer(g, v))
}

#[verifier::spinoff_prover]
fn push_leaf_buffer(b: &mut Vec<u8>, l: &Levels, leaf: &Triple, v: &Vec<Scalar>)
    requires
        l.wf(),
        is_block_of(l.g@, leaf@, 8),
        v.len() == l.g@.volume(),
    ensures
        final(b)@ == old(b)@ + leaf_buffer(l.g@, leaf@, v@),
{
    let mut a: Vec<u8> = Vec::new();
    assert(a@ =~= Seq::<u8>::empty());
    push_mask(&mut a, &find_leaf_flags(&l.g, leaf));
    push_le(&mut a, NO_MASK_AND_ALL_VALS as u64, 1);
    let ghost own = a@;
    let ghost piece = single_piece(l.g@, leaf@, v@);
    let mut n: usize = 0;
    assert(a@ =~= own + stacked(0, piece));
    while n < 512
        invariant
            n <= 512,
            l.wf(),
            is_block_of(l.g@, leaf@, 8),
            v.len() == l.g@.volume(),
            piece == single_piece(l.g@, leaf@, v@),
            a@ == own + stacked(n as int, piece),
        decreases 512 - n,
    {
        let c = slot_place(leaf, 8, n);
        if contains(&l.g, &c) {
            let i: usize = number_of(&l.g, &c);
            push_le(&mut a, to_single(v[i]) as u64, 4);
        } else {
            push_zeros(&mut a, 4);
        }
        n = n + 1;
        assert(a@ =~= own + stacked(n as int, piece));
    }
    push_all(b, &a);
}

#[verifier::spinoff_prover]
fn push_lower_buffer(b: &mut Vec<u8>, l: &Levels, node: &Triple, v: &Vec<Scalar>)
    requires
        l.wf(),
        l.lower@.holds(node@),
        v.len() == l.g@.volume(),
    ensures
        final(b)@ == old(b)@ + lower_buffer(l.g@, node@, v@),
{
    proof {
        lemma_inside(l.g@, node@, 128);
        lemma_has_slots(l.g@, node@, 128, 16);
    }
    let ghost own = b@;
    let ghost piece = lower_slot_buffer(l.g@, node@, v@);
    let mut n: usize = 0;
    assert(b@ =~= own + stacked(0, piece));
    while n < 4096
        invariant
            n <= 4096,
            l.wf(),
            has_slots(node@, 16),
            v.len() == l.g@.volume(),
            piece == lower_slot_buffer(l.g@, node@, v@),
            b@ == own + stacked(n as int, piece),
        decreases 4096 - n,
    {
        proof {
            lemma_cube(16);
        }
        let c = slot_place(node, 16, n);
        if contains(&l.leaf, &c) {
            proof {
                lemma_inside(l.g@, c@, 8);
            }
            push_leaf_buffer(b, l, &c, v);
        }
        n = n + 1;
        assert(b@ =~= own + stacked(n as int, piece));
    }
}

#[verifier::spinoff_prover]
fn push_upper_buffer(b: &mut Vec<u8>, l: &Levels, node: &Triple, v: &Vec<Scalar>)
    requires
        l.wf(),
        l.upper@.holds(node@),
        v.len() == l.g@.volume(),
    ensures
        final(b)@ == old(b)@ + upper_buffer(l.g@, node@, v@),
{
    proof {
        lemma_inside(l.g@, node@, 4096);
        lemma_has_slots(l.g@, node@, 4096, 32);
    }
    let ghost own = b@;
    let ghost piece = upper_slot_buffer(l.g@, node@, v@);
    let mut n: usize = 0;
    assert(b@ =~= own + stacked(0, piece));
    while n < 32768
        invariant
            n <= 32768,
            l.wf(),
            has_slots(node@, 32),
            v.len() == l.g@.volume(),
            piece == upper_slot_buffer(l.g@, node@, v@),
            b@ == own + stacked(n as int, piece),
        decreases 32768 - n,
    {
        proof {
            lemma_cube(32);
        }
        let c = slot_place(node, 32, n);
        if contains(&l.lower, &c) {
            push_lower_buffer(b, l, &c, v);
        }
        n = n + 1;
        assert(b@ =~= own + stacked(n as int, piece));
    }
}

#[verifier::spinoff_prover]
fn write_buffers(l: &Levels, v: &Vec<Scalar>) -> (b: Vec<u8>)
    requires
        l.wf(),
        l.upper@.volume() <= usize::MAX,
        l.upper.x > 0,
        v.len() == l.g@.volume(),
    ensures
        b@ == buffers(l.g@, v@),
{
    let n: usize = crate::nvdb::volume_of(&l.upper);
    let mut b: Vec<u8> = Vec::new();
    let mut i: usize = 0;
    assert(b@ =~= Seq::<u8>::empty());
    while i < n
        invariant
            i <= n,
            l.wf(),
            n == l.upper@.volume(),
            v.len() == l.g@.volume(),
            b@ == stacked(i as int, root_buffer(l.g@, v@)),
        decreases n - i,
    {
        let node = find_sorted(&l.upper, i);
        push_upper_buffer(&mut b, l, &node, v);
        i = i + 1;
    }
    b
}

/// A leaf's buffer has a bit and a value for every slot: the value of the cell that
/// the slot stands for.
pub proof fn leaf_buffers_hold_their_cells(g: Dims, leaf: Dims, v: Seq<Scalar>, n: int, c: int)
    requires
        0 <= n < 512,
        leaf_cell(g, leaf, n) == Some(c),
    ensures
        ({
            let b = leaf_buffer(g, leaf, v);
            &&& b.len() == 2113
            &&& (b[n / 8] as nat / crate::bytes::bit(n % 8)) % 2 == 1
            &&& b.subrange(65 + 4 * n, 65 + 4 * n + 4) == le(single(v[c]) as int, 4)
        }),
{
    broadcast use lemma_le_len;

    let flags = leaf_flags(g, leaf);
    let on = |k: int| flags[k];
    let m = mask_of(flags);
    crate::bytes::mask_holds_its_bits(64, on, n);
    assert(m == crate::bytes::mask(64, on));
    let piece = single_piece(g, leaf, v);
    assert forall|k: int| 0 <= k < 512 implies (#[trigger] piece(k)).len() == 4 by {}
    crate::bytes::stacked_in_place(512, piece, 4, n);
    let s = stacked(512, piece);
    let b = leaf_buffer(g, leaf, v);
    assert(b[n / 8] == m[n / 8]);
    assert(b.subrange(65 + 4 * n, 65 + 4 * n + 4) =~= s.subrange(n * 4, (n + 1) * 4));
    assert(piece(n) == le(single(v[c]) as int, 4));
}

// --------------------------------------------------------------------------
//  Grids and archives
// --------------------------------------------------------------------------
/// What stands between the stream positions of a grid and its buffers.
pub open spec fn grid_front(g: UniformGrid) -> Seq<u8> {
    grid_meta() + transform_bytes(g) + topology(extent(g))
}

/// A grid at a place in the file: the positions say where it begins, where its
/// buffers do, and where it ends.
pub open spec fn grid_at(g: UniformGrid, name: Seq<char>, v: Seq<Scalar>, at: nat) -> Seq<u8> {
    let begin = at + grid_head(name).len() + 24;
    let block = begin + grid_front(g).len();
    let end = block + buffers(extent(g), v).len();
    grid_head(name) + le(begin as int, 8) + le(block as int, 8) + le(end as int, 8) + grid_front(g)
        + buffers(extent(g), v)
}

fn write_grid(b: &mut Vec<u8>, grid: &UniformGrid, name: &str, v: &Vec<Scalar>)
    requires
        is_block(*grid),
        v.len() == extent(*grid).volume(),
        old(b).len() + grid_at(*grid, name@, v@, 0).len() <= u64::MAX,
    ensures
        final(b)@ == old(b)@ + grid_at(*grid, name@, v@, old(b).len() as nat),
{
    proof {
        lemma_counts(*grid, 8);
        lemma_counts(*grid, 128);
        lemma_counts(*grid, 4096);
    }
    let (leaf, lower, upper) = node_counts(grid);
    let l = Levels { g: Triple { x: grid.nx, y: grid.ny, z: grid.nz }, leaf, lower, upper };
    let ghost start = b@;
    let mut front = write_grid_metadata();
    push_all(&mut front, &write_transform(grid));
    push_all(&mut front, &write_topology(&l));
    let data = write_buffers(&l, v);
    let mut a = write_grid_head(name);
    proof {
        lemma_grid_len(*grid, name@, v@, 0);
    }
    let begin: u64 = b.len() as u64 + a.len() as u64 + 24;
    let block: u64 = begin + front.len() as u64;
    let end: u64 = block + data.len() as u64;
    push_le(&mut a, begin, 8);
    push_le(&mut a, block, 8);
    push_le(&mut a, end, 8);
    push_all(&mut a, &front);
    push_all(&mut a, &data);
    push_all(b, &a);
}

proof fn lemma_grid_len(g: UniformGrid, name: Seq<char>, v: Seq<Scalar>, at: nat)
    ensures
        grid_at(g, name, v, at).len() == grid_head(name).len() + 24 + grid_front(g).len() + buffers(
            extent(g),
            v,
        ).len(),
{
    broadcast use lemma_le_len;

}

/// The stream positions of a grid point where they say: behind them, at its buffers,
/// and behind it.
pub proof fn positions_are_true(g: UniformGrid, name: Seq<char>, v: Seq<Scalar>, before: Seq<u8>)
    ensures
        ({
            let b = grid_at(g, name, v, before.len());
            let file = before + b;
            let h = (before.len() + grid_head(name).len()) as int;
            let begin = h + 24;
            let block = begin + grid_front(g).len();
            let end = block + buffers(extent(g), v).len();
            &&& file.subrange(h, h + 8) == le(begin as int, 8)
            &&& file.subrange(h + 8, h + 16) == le(block as int, 8)
            &&& file.subrange(h + 16, h + 24) == le(end as int, 8)
            &&& file.subrange(begin as int, block as int) == grid_front(g)
            &&& file.subrange(block as int, end as int) == buffers(extent(g), v)
            &&& file.len() == end
        }),
{
    broadcast use lemma_le_len;

    let b = grid_at(g, name, v, before.len());
    let file = before + b;
    let h = (before.len() + grid_head(name).len()) as int;
    let begin = h + 24;
    let front = grid_front(g);
    let data = buffers(extent(g), v);
    let block = begin + front.len();
    let end = block + data.len();
    assert(file.subrange(h, h + 8) =~= le(begin as int, 8));
    assert(file.subrange(h + 8, h + 16) =~= le(block as int, 8));
    assert(file.subrange(h + 16, h + 24) =~= le(end as int, 8));
    assert(file.subrange(begin as int, block as int) =~= front);
    assert(file.subrange(block as int, end as int) =~= data);
}

/// A field and, for one of vectors, its magnitude.
#[derive(Debug, Clone)]
pub struct NamedValues {
    pub name: String,
    pub values: Vec<Scalar>,
}

/// The grids that a field makes: a field of vectors has a grid for each component and
/// one for its magnitude, which `mag` gives.
pub open spec fn grids_of(f: OutputField, mag: Seq<Scalar>) -> Seq<(Seq<char>, Seq<Scalar>)> {
    match f.values {
        FieldValues::Scalar(v) => seq![(f.name@, v@)],
        FieldValues::Vector(v) => seq![
            (f.name@ + ".x"@, v@.map_values(|p: Vec3| p.x)),
            (f.name@ + ".y"@, v@.map_values(|p: Vec3| p.y)),
            (f.name@ + ".z"@, v@.map_values(|p: Vec3| p.z)),
            (f.name@ + ".mag"@, mag),
        ],
    }
}

/// The grids of the first `n` fields.
pub open spec fn all_grids(fields: Seq<OutputField>, mags: Seq<Vec<Scalar>>, n: int) -> Seq<
    (Seq<char>, Seq<Scalar>),
>
    decreases n,
{
    if n <= 0 {
        Seq::empty()
    } else {
        all_grids(fields, mags, n - 1) + grids_of(fields[n - 1], mags[n - 1]@)
    }
}

/// The first field whose values are not one per cell.
pub open spec fn miscounted(fields: Seq<OutputField>, cells: nat, i: int) -> Option<Failure>
    decreases fields.len() - i,
{
    if i < 0 || i >= fields.len() {
        None
    } else if fields[i].count() != cells {
        Some(
            Failure::Field {
                field: fields[i].name@,
                msg: cell_count_text(fields[i].count(), cells),
            },
        )
    } else {
        miscounted(fields, cells, i + 1)
    }
}

/// The first `n` grids behind the head of an archive.
pub open spec fn archive(g: UniformGrid, grids: Seq<(Seq<char>, Seq<Scalar>)>, n: int) -> Seq<u8>
    decreases n,
{
    if n <= 0 {
        archive_head(grids.len())
    } else {
        let before = archive(g, grids, n - 1);
        before + grid_at(g, grids[n - 1].0, grids[n - 1].1, before.len())
    }
}

/// The archive of some fields on a grid.
pub open spec fn archive_of(g: UniformGrid, fields: Seq<OutputField>, mags: Seq<Vec<Scalar>>) -> Result<
    Seq<u8>,
    Failure,
> {
    if g.nx == 0 || g.ny == 0 || g.nz == 0 {
        Err(Failure::Config(empty_grid_text("vdb"@, g.nx as nat, g.ny as nat, g.nz as nat)))
    } else if fields.len() == 0 {
        Err(Failure::Config("vdb: no fields to write"@))
    } else {
        match miscounted(fields, extent(g).volume(), 0) {
            Some(f) => Err(f),
            None => {
                let grids = all_grids(fields, mags, fields.len() as int);
                Ok(archive(g, grids, grids.len() as int))
            },
        }
    }
}

pub open spec fn grids_in(v: Seq<NamedValues>) -> Seq<(Seq<char>, Seq<Scalar>)> {
    v.map_values(|e: NamedValues| (e.name@, e.values@))
}

fn ended(name: &str, ending: &str) -> (s: String)
    ensures
        s@ == name@ + ending@,
{
    let mut s = copy(name);
    push_text(&mut s, ending);
    s
}

fn copy_values(v: &[Scalar]) -> (r: Vec<Scalar>)
    ensures
        r@ == v@,
{
    let mut r: Vec<Scalar> = Vec::new();
    let mut i: usize = 0;
    while i < v.len()
        invariant
            i <= v.len(),
            r@ == v@.take(i as int),
        decreases v.len() - i,
    {
        r.push(v[i]);
        i = i + 1;
        assert(v@.take(i as int) =~= v@.take(i - 1).push(v@[i - 1]));
    }
    assert(v@.take(i as int) =~= v@);
    r
}

/// One component of some vectors.
fn component(v: &[Vec3], axis: usize) -> (r: Vec<Scalar>)
    ensures
        axis == 0 ==> r@ == v@.map_values(|p: Vec3| p.x),
        axis == 1 ==> r@ == v@.map_values(|p: Vec3| p.y),
        axis > 1 ==> r@ == v@.map_values(|p: Vec3| p.z),
{
    let mut r: Vec<Scalar> = Vec::new();
    let mut i: usize = 0;
    while i < v.len()
        invariant
            i <= v.len(),
            r.len() == i,
            forall|k: int|
                0 <= k < i ==> #[trigger] r@[k] == (if axis == 0 {
                    v@[k].x
                } else if axis == 1 {
                    v@[k].y
                } else {
                    v@[k].z
                }),
        decreases v.len() - i,
    {
        let p = v[i];
        r.push(
            if axis == 0 {
                p.x
            } else if axis == 1 {
                p.y
            } else {
                p.z
            },
        );
        i = i + 1;
    }
    proof {
        if axis == 0 {
            assert(r@ =~= v@.map_values(|p: Vec3| p.x));
        } else if axis == 1 {
            assert(r@ =~= v@.map_values(|p: Vec3| p.y));
        } else {
            assert(r@ =~= v@.map_values(|p: Vec3| p.z));
        }
    }
    r
}

fn push_grids(out: &mut Vec<NamedValues>, f: &OutputField, mag: &Vec<Scalar>)
    ensures
        grids_in(final(out)@) == grids_in(old(out)@) + grids_of(*f, mag@),
{
    let ghost start = grids_in(out@);
    match f.values {
        FieldValues::Scalar(v) => {
            out.push(NamedValues { name: copy(f.name), values: copy_values(v) });
        },
        FieldValues::Vector(v) => {
            out.push(NamedValues { name: ended(f.name, ".x"), values: component(v, 0) });
            out.push(NamedValues { name: ended(f.name, ".y"), values: component(v, 1) });
            out.push(NamedValues { name: ended(f.name, ".z"), values: component(v, 2) });
            out.push(NamedValues { name: ended(f.name, ".mag"), values: copy_values(mag) });
        },
    }
    assert(grids_in(out@) =~= start + grids_of(*f, mag@));
}

proof fn lemma_grids_count(fields: Seq<OutputField>, mags: Seq<Vec<Scalar>>, n: int, cells: nat)
    requires
        0 <= n <= fields.len(),
        mags.len() == fields.len(),
        miscounted(fields, cells, 0) is None,
        forall|i: int|
            0 <= i < fields.len() && (#[trigger] fields[i]).values is Vector ==> mags[i].len()
                == fields[i].count(),
    ensures
        forall|k: int|
            0 <= k < all_grids(fields, mags, n).len() ==> (#[trigger] all_grids(
                fields,
                mags,
                n,
            )[k]).1.len() == cells,
    decreases n,
{
    if n > 0 {
        lemma_grids_count(fields, mags, n - 1, cells);
        lemma_counted(fields, cells, 0, n - 1);
        let was = all_grids(fields, mags, n - 1);
        let more = grids_of(fields[n - 1], mags[n - 1]@);
        assert forall|k: int| 0 <= k < all_grids(fields, mags, n).len() implies (
        #[trigger] all_grids(fields, mags, n)[k]).1.len() == cells by {
            if k >= was.len() {
                assert(all_grids(fields, mags, n)[k] == more[k - was.len()]);
            }
        }
    }
}

proof fn lemma_counted(fields: Seq<OutputField>, cells: nat, i: int, k: int)
    requires
        0 <= i <= k < fields.len(),
        miscounted(fields, cells, i) is None,
    ensures
        fields[k].count() == cells,
    decreases k - i,
{
    if i < k {
        lemma_counted(fields, cells, i + 1, k);
    }
}

proof fn lemma_archive_mono(g: UniformGrid, grids: Seq<(Seq<char>, Seq<Scalar>)>, k: int, n: int)
    requires
        k <= n,
    ensures
        archive(g, grids, k).len() <= archive(g, grids, n).len(),
    decreases n - k,
{
    if k < n {
        lemma_archive_mono(g, grids, k, n - 1);
        if n > 0 {
            lemma_grid_len(
                g,
                grids[n - 1].0,
                grids[n - 1].1,
                archive(g, grids, n - 1).len(),
            );
        }
    }
}

/// Write fields on a grid. `mags` holds the magnitudes of each field of vectors.
pub fn write(grid: &UniformGrid, fields: &Vec<OutputField>, mags: &Vec<Vec<Scalar>>) -> (r: Result<
    Vec<u8>,
    Error,
>)
    requires
        mags.len() == fields.len(),
        forall|i: int|
            0 <= i < fields.len() && (#[trigger] fields@[i]).values is Vector ==> mags@[i].len()
                == fields@[i].count(),
        grid.nx > 0 && grid.ny > 0 && grid.nz > 0 ==> is_block(*grid),
        archive_of(*grid, fields@, mags@) matches Ok(b) ==> b.len() <= u64::MAX,
    ensures
        match (r, archive_of(*grid, fields@, mags@)) {
            (Ok(a), Ok(b)) => a@ == b,
            (Err(e), Err(f)) => e@ == f,
            _ => false,
        },
{
    if grid.nx == 0 || grid.ny == 0 || grid.nz == 0 {
        return Err(Error::Config(empty_grid_message("vdb", grid.nx, grid.ny, grid.nz)));
    }
    if fields.len() == 0 {
        return Err(Error::Config(copy("vdb: no fields to write")));
    }
    let n: usize = grid.n();
    let mut grids: Vec<NamedValues> = Vec::new();
    let mut i: usize = 0;
    assert(grids_in(grids@) =~= Seq::empty());
    while i < fields.len()
        invariant
            i <= fields.len(),
            mags.len() == fields.len(),
            n == extent(*grid).volume(),
            grid.nx > 0 && grid.ny > 0 && grid.nz > 0,
            miscounted(fields@, n as nat, 0) == miscounted(fields@, n as nat, i as int),
            grids_in(grids@) == all_grids(fields@, mags@, i as int),
        decreases fields.len() - i,
    {
        let got: usize = fields[i].len();
        if got != n {
            return Err(
                Error::Field { field: copy(fields[i].name), msg: cell_count_message(got, n) },
            );
        }
        push_grids(&mut grids, &fields[i], &mags[i]);
        i = i + 1;
    }
    let ghost all = all_grids(fields@, mags@, fields.len() as int);
    proof {
        lemma_grids_count(fields@, mags@, fields.len() as int, n as nat);
        assert(grids_in(grids@).len() == grids.len());
    }
    let mut out = write_header(grids.len());
    let mut k: usize = 0;
    while k < grids.len()
        invariant
            k <= grids.len(),
            is_block(*grid),
            n == extent(*grid).volume(),
            all == grids_in(grids@),
            forall|j: int| 0 <= j < all.len() ==> (#[trigger] all[j]).1.len() == n,
            archive(*grid, all, all.len() as int).len() <= u64::MAX,
            out@ == archive(*grid, all, k as int),
        decreases grids.len() - k,
    {
        proof {
            assert(all[k as int] == (grids@[k as int].name@, grids@[k as int].values@));
            lemma_archive_mono(*grid, all, k + 1, all.len() as int);
            lemma_grid_len(*grid, all[k as int].0, all[k as int].1, 0);
            lemma_grid_len(*grid, all[k as int].0, all[k as int].1, out.len() as nat);
        }
        write_grid(&mut out, grid, &grids[k].name, &grids[k].values);
        k = k + 1;
    }
    Ok(out)
}

} // verus!
