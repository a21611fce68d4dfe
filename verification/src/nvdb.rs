//! NanoVDB files: a dense Cartesian block as a tree of leaves of 8^3 cells, lower
//! nodes of 16^3 leaves and upper nodes of 32^3 lower nodes.
//!
//! A file is one segment per grid: a header, the meta data, the grid's name and
//! the grid itself. A grid is its data, the tree's data, the root with a tile for
//! every upper node, and then the upper nodes, the lower nodes and the leaves, each
//! kind in one piece.
//!
//! Node statistics and the inverse of the spacing are sums and quotients of
//! floating-point numbers, so they come in as values. Which cells and which nodes
//! a node's statistics run over, and in which order, is [`leaf_cells`] and
//! [`node_members`].

use vstd::prelude::*;

use crate::bytes::{
    bytes_of, encoded, lemma_le_len, mask_of, pad_to, padded, push_all, push_le, push_mask,
    push_zeros, stacked, zeros,
};
use crate::error::{Error, Failure};
use crate::mesh::Vec3;
use crate::narrow::{f32_to_f16_bits, half, single, to_single};
use crate::scalar::{Scalar, ONE};
use crate::text::{copy, decimal, push_decimal, push_text};

verus! {

// --------------------------------------------------------------------------
//  Blocks of cells
// --------------------------------------------------------------------------
/// How the values of a grid are stored.
#[derive(Debug, Clone, Copy, PartialEq, Eq, Structural)]
pub enum Precision {
    /// Single precision, which every reader knows.
    F32,
    /// Half precision.
    F16,
}

impl Precision {
    pub open spec fn bytes(self) -> nat {
        match self {
            Precision::F32 => 4,
            Precision::F16 => 2,
        }
    }

    /// The bytes of a value.
    pub fn width(self) -> (r: usize)
        ensures
            r as nat == self.bytes(),
    {
        match self {
            Precision::F32 => 4,
            Precision::F16 => 2,
        }
    }
}

/// A uniform block of cells: `origin` is the centre of the first one.
#[derive(Debug, Clone, Copy)]
pub struct UniformGrid {
    pub nx: usize,
    pub ny: usize,
    pub nz: usize,
    pub origin: Vec3,
    pub spacing: Vec3,
}

/// Three whole numbers: an extent, or a place in one.
#[derive(Debug, Clone, Copy, PartialEq, Eq, Structural)]
pub struct Triple {
    pub x: usize,
    pub y: usize,
    pub z: usize,
}

/// The contents of a [`Triple`].
#[verifier::ext_equal]
pub struct Dims {
    pub x: nat,
    pub y: nat,
    pub z: nat,
}

impl View for Triple {
    type V = Dims;

    open spec fn view(&self) -> Dims {
        Dims { x: self.x as nat, y: self.y as nat, z: self.z as nat }
    }
}

impl Dims {
    /// The number of places.
    pub open spec fn volume(self) -> nat {
        self.x * (self.y * self.z)
    }

    /// The number of a place, the first coordinate running fastest.
    pub open spec fn number(self, p: Dims) -> int {
        (p.x + self.x * (p.y + self.y * p.z)) as int
    }

    /// The place of a number.
    pub open spec fn place(self, i: int) -> Dims {
        Dims {
            x: (i % (self.x as int)) as nat,
            y: ((i / (self.x as int)) % (self.y as int)) as nat,
            z: ((i / (self.x as int)) / (self.y as int)) as nat,
        }
    }

    pub open spec fn holds(self, p: Dims) -> bool {
        p.x < self.x && p.y < self.y && p.z < self.z
    }

    /// In blocks of `d` a side.
    pub open spec fn in_blocks(self, d: nat) -> Dims {
        Dims { x: tiles(self.x, d), y: tiles(self.y, d), z: tiles(self.z, d) }
    }

    /// The block of `d` a side that a place is in.
    pub open spec fn over(self, d: nat) -> Dims {
        Dims { x: self.x / d, y: self.y / d, z: self.z / d }
    }

    pub open spec fn times(self, d: nat) -> Dims {
        Dims { x: self.x * d, y: self.y * d, z: self.z * d }
    }

    /// The place in block `self` of side `f` that slot `n` stands for, the last
    /// coordinate running fastest.
    pub open spec fn slot(self, f: nat, n: int) -> Dims {
        Dims {
            x: self.x * f + (n / (f * f) as int) as nat,
            y: self.y * f + ((n / f as int) % f as int) as nat,
            z: self.z * f + (n % f as int) as nat,
        }
    }

    /// A place is one of its block's slots.
    pub open spec fn slot_number(self, f: nat) -> int {
        ((self.x % f) * (f * f) + (self.y % f) * f + self.z % f) as int
    }
}

/// How many pieces of `d` cover `n`.
pub open spec fn tiles(n: nat, d: nat) -> nat {
    ((n + d - 1) / d as int) as nat
}

proof fn lemma_tiles(n: nat, d: nat)
    requires
        d > 0,
    ensures
        tiles(n, d) <= n,
        n > 0 ==> tiles(n, d) > 0,
        tiles(n, d) * d < n + d,
        n <= tiles(n, d) * d,
{
    let a = n + d - 1;
    vstd::arithmetic::div_mod::lemma_fundamental_div_mod(a, d as int);
    let q = a / d as int;
    assert(q >= 0) by (nonlinear_arith)
        requires
            a >= 0,
            d > 0,
            q == a / d as int,
    ;
    assert(d * q == q * d) by (nonlinear_arith);
    assert(q <= n) by (nonlinear_arith)
        requires
            q * d <= n + d - 1,
            d > 0,
            n >= 0,
    ;
    if n > 0 {
        assert(q > 0) by (nonlinear_arith)
            requires
                q * d + (d - 1) >= n + d - 1,
                n > 0,
                d > 0,
        ;
    }
}

/// A block of a larger size holds no fewer cells.
proof fn lemma_volume_mono(a: Dims, b: Dims)
    requires
        a.x <= b.x,
        a.y <= b.y,
        a.z <= b.z,
    ensures
        a.volume() <= b.volume(),
        a.y * a.z <= b.y * b.z,
{
    assert(a.y * a.z <= b.y * b.z) by (nonlinear_arith)
        requires
            a.y <= b.y,
            a.z <= b.z,
    ;
    let s = a.y * a.z;
    let t = b.y * b.z;
    assert(a.x * s <= b.x * t) by (nonlinear_arith)
        requires
            a.x <= b.x,
            s <= t,
    ;
}

/// A place's number stays within the number of places.
proof fn lemma_number(d: Dims, p: Dims)
    requires
        d.holds(p),
    ensures
        p.y + d.y * p.z < d.y * d.z,
        d.x * (p.y + d.y * p.z) <= d.number(p) < d.volume(),
{
    assert(p.y + d.y * p.z < d.y * d.z) by (nonlinear_arith)
        requires
            p.y < d.y,
            p.z < d.z,
    ;
    let r = p.y + d.y * p.z;
    let s = d.y * d.z;
    assert(p.x + d.x * r < d.x * s) by (nonlinear_arith)
        requires
            p.x < d.x,
            r < s,
    ;
}

/// The number of a place leads back to it.
pub proof fn numbers_name_places(d: Dims, p: Dims)
    requires
        d.holds(p),
    ensures
        d.place(d.number(p)) == p,
        0 <= d.number(p) < d.volume(),
{
    lemma_number(d, p);
    let r = (p.y + d.y * p.z) as int;
    let i = d.number(p);
    assert(i == r * d.x + p.x) by (nonlinear_arith)
        requires
            i == p.x + d.x * r,
    ;
    vstd::arithmetic::div_mod::lemma_fundamental_div_mod_converse(i, d.x as int, r, p.x as int);
    assert(r == p.z * d.y + p.y) by (nonlinear_arith)
        requires
            r == p.y + d.y * p.z,
    ;
    vstd::arithmetic::div_mod::lemma_fundamental_div_mod_converse(
        r,
        d.y as int,
        p.z as int,
        p.y as int,
    );
}

/// Every number names a place.
pub proof fn every_number_is_a_place(d: Dims, i: int)
    requires
        0 <= i < d.volume(),
    ensures
        d.holds(d.place(i)),
        d.number(d.place(i)) == i,
{
    assert(d.x > 0 && d.y > 0 && d.z > 0) by (nonlinear_arith)
        requires
            d.x * (d.y * d.z) > 0,
    ;
    let x = d.x as int;
    let y = d.y as int;
    let z = d.z as int;
    let q = i / x;
    vstd::arithmetic::div_mod::lemma_fundamental_div_mod(i, x);
    vstd::arithmetic::div_mod::lemma_fundamental_div_mod(q, y);
    assert(0 <= q && q < y * z) by (nonlinear_arith)
        requires
            i == x * q + i % x,
            0 <= i % x < x,
            0 <= i < x * (y * z),
            x > 0,
    ;
    assert(0 <= q / y && q / y < z) by (nonlinear_arith)
        requires
            q == y * (q / y) + q % y,
            0 <= q % y < y,
            0 <= q < y * z,
            y > 0,
    ;
    assert(d.place(i).y + d.y * d.place(i).z == q);
}

pub open spec fn extent(g: UniformGrid) -> Dims {
    Dims { x: g.nx as nat, y: g.ny as nat, z: g.nz as nat }
}

impl UniformGrid {
    /// The number of cells.
    pub fn n(&self) -> (r: usize)
        requires
            extent(*self).volume() <= usize::MAX,
        ensures
            r as nat == extent(*self).volume(),
    {
        if self.nx == 0 {
            assert(extent(*self).volume() == 0) by (nonlinear_arith)
                requires
                    extent(*self).x == 0,
            ;
            return 0;
        }
        proof {
            let a = self.nx as int;
            let b = (self.ny * self.nz) as int;
            assert(b <= a * b) by (nonlinear_arith)
                requires
                    a >= 1,
                    b >= 0,
            ;
        }
        self.nx * (self.ny * self.nz)
    }

    /// The number of the cell at `(i, j, k)`, the first coordinate running fastest.
    pub fn idx(&self, i: usize, j: usize, k: usize) -> (r: usize)
        requires
            extent(*self).volume() <= usize::MAX,
            i < self.nx,
            j < self.ny,
            k < self.nz,
        ensures
            r == extent(*self).number(Dims { x: i as nat, y: j as nat, z: k as nat }),
    {
        let d = Triple { x: self.nx, y: self.ny, z: self.nz };
        number_of(&d, &Triple { x: i, y: j, z: k })
    }
}

/// The number of a place.
pub fn number_of(d: &Triple, p: &Triple) -> (r: usize)
    requires
        d@.volume() <= usize::MAX,
        d@.holds(p@),
    ensures
        r == d@.number(p@),
        r < d@.volume(),
{
    proof {
        lemma_number(d@, p@);
        let s = (p.y + d.y * p.z) as int;
        let t = (d.y * d.z) as int;
        assert(t <= d.x * t) by (nonlinear_arith)
            requires
                d.x >= 1,
                t >= 0,
        ;
        assert(d.y * p.z <= s);
    }
    p.x + d.x * (p.y + d.y * p.z)
}

/// The place of a number.
pub fn place_of(d: &Triple, i: usize) -> (p: Triple)
    requires
        i < d@.volume(),
    ensures
        p@ == d@.place(i as int),
        d@.holds(p@),
{
    proof {
        every_number_is_a_place(d@, i as int);
        assert(d.x > 0 && d.y > 0) by (nonlinear_arith)
            requires
                (d.x as nat) * ((d.y as nat) * (d.z as nat)) > 0,
        ;
    }
    let q: usize = i / d.x;
    Triple { x: i % d.x, y: q % d.y, z: q / d.y }
}

/// How many pieces of `b` cover `a`.
pub fn ceil_div(a: usize, b: usize) -> (r: usize)
    requires
        b > 0,
        a + b <= usize::MAX,
    ensures
        r as nat == tiles(a as nat, b as nat),
{
    (a + b - 1) / b
}

/// A grid that the formats can hold: coordinates are 32-bit numbers.
pub open spec fn is_block(g: UniformGrid) -> bool {
    &&& 0 < g.nx <= 0x7fff_ffff
    &&& 0 < g.ny <= 0x7fff_ffff
    &&& 0 < g.nz <= 0x7fff_ffff
    &&& extent(g).volume() <= usize::MAX
}

/// Cells along a leaf.
pub const LEAF_DIM: usize = 8;

/// Cells along a lower node.
pub const LOWER_DIM: usize = 128;

/// Cells along an upper node.
pub const UPPER_DIM: usize = 4096;

/// The leaves, the lower and the upper nodes along each axis.
pub fn node_counts(grid: &UniformGrid) -> (r: (Triple, Triple, Triple))
    requires
        is_block(*grid),
    ensures
        r.0@ == extent(*grid).in_blocks(8),
        r.1@ == extent(*grid).in_blocks(128),
        r.2@ == extent(*grid).in_blocks(4096),
{
    (
        Triple {
            x: ceil_div(grid.nx, LEAF_DIM),
            y: ceil_div(grid.ny, LEAF_DIM),
            z: ceil_div(grid.nz, LEAF_DIM),
        },
        Triple {
            x: ceil_div(grid.nx, LOWER_DIM),
            y: ceil_div(grid.ny, LOWER_DIM),
            z: ceil_div(grid.nz, LOWER_DIM),
        },
        Triple {
            x: ceil_div(grid.nx, UPPER_DIM),
            y: ceil_div(grid.ny, UPPER_DIM),
            z: ceil_div(grid.nz, UPPER_DIM),
        },
    )
}

pub proof fn lemma_counts(g: UniformGrid, d: nat)
    requires
        is_block(g),
        d > 0,
    ensures
        extent(g).in_blocks(d).volume() <= extent(g).volume(),
        extent(g).in_blocks(d).volume() > 0,
        extent(g).in_blocks(d).x <= g.nx,
        extent(g).in_blocks(d).y <= g.ny,
        extent(g).in_blocks(d).z <= g.nz,
        extent(g).in_blocks(d).x * d < g.nx + d,
        extent(g).in_blocks(d).y * d < g.ny + d,
        extent(g).in_blocks(d).z * d < g.nz + d,
{
    lemma_tiles(g.nx as nat, d);
    lemma_tiles(g.ny as nat, d);
    lemma_tiles(g.nz as nat, d);
    let b = extent(g).in_blocks(d);
    lemma_volume_mono(b, extent(g));
    lemma_volume_mono(Dims { x: 1, y: 1, z: 1 }, b);
    assert(1nat * (1nat * 1nat) == 1) by (nonlinear_arith);
}

/// The number of places of an extent.
pub fn volume_of(d: &Triple) -> (r: usize)
    requires
        d@.volume() <= usize::MAX,
        d.x > 0,
    ensures
        r as nat == d@.volume(),
{
    proof {
        let t = (d.y * d.z) as int;
        assert(t <= d.x * t) by (nonlinear_arith)
            requires
                d.x >= 1,
                t >= 0,
        ;
    }
    d.x * (d.y * d.z)
}

/// The place in a block that slot `n` stands for.
pub fn slot_place(p: &Triple, f: usize, n: usize) -> (r: Triple)
    requires
        0 < f <= 32,
        n < f * f * f,
        p.x * f + f <= usize::MAX,
        p.y * f + f <= usize::MAX,
        p.z * f + f <= usize::MAX,
    ensures
        r@ == p@.slot(f as nat, n as int),
{
    proof {
        assert(f * f <= 1024) by (nonlinear_arith)
            requires
                0 < f <= 32,
        ;
        assert(f * f > 0) by (nonlinear_arith)
            requires
                0 < f,
        ;
        assert(n / ((f * f) as usize) < f) by (nonlinear_arith)
            requires
                n < f * f * f,
                0 < f * f <= 1024,
                f > 0,
        ;
        assert((n / f) % f < f) by (nonlinear_arith)
            requires
                f > 0,
        ;
        assert(n % f < f) by (nonlinear_arith)
            requires
                f > 0,
        ;
    }
    Triple { x: p.x * f + n / (f * f), y: p.y * f + (n / f) % f, z: p.z * f + n % f }
}

/// Does an extent hold a place?
pub fn contains(d: &Triple, p: &Triple) -> (r: bool)
    ensures
        r == d@.holds(p@),
{
    p.x < d.x && p.y < d.y && p.z < d.z
}

// --------------------------------------------------------------------------
//  Layouts
// --------------------------------------------------------------------------
/// The next multiple of an alignment.
pub open spec fn aligned(pos: nat, align: nat) -> nat {
    if pos % align == 0 {
        pos
    } else {
        (pos + align - pos % align) as nat
    }
}

proof fn lemma_aligned(pos: nat, align: nat, k: nat)
    requires
        align > 0,
        pos == k * align,
    ensures
        aligned(pos, align) == pos,
{
    vstd::arithmetic::div_mod::lemma_fundamental_div_mod_converse(
        pos as int,
        align as int,
        k as int,
        0,
    );
}

proof fn lemma_aligned_up(pos: nat, align: nat, k: nat, r: nat)
    requires
        0 < r < align,
        pos == k * align + r,
    ensures
        aligned(pos, align) == k * align + align,
{
    vstd::arithmetic::div_mod::lemma_fundamental_div_mod_converse(
        pos as int,
        align as int,
        k as int,
        r as int,
    );
}

/// The layout of a structure: each field at the next multiple of its alignment.
struct Layout {
    pos: usize,
}

impl Layout {
    fn new() -> (r: Layout)
        ensures
            r.pos == 0,
    {
        Layout { pos: 0 }
    }

    /// Reserve a field; its offset comes back.
    fn field(&mut self, size: usize, align: usize) -> (off: usize)
        requires
            0 < align <= 64,
            size <= 0x100_0000,
            old(self).pos <= 0x100_0000,
        ensures
            off as nat == aligned(old(self).pos as nat, align as nat),
            final(self).pos == off + size,
    {
        self.align_to(align);
        let off: usize = self.pos;
        self.pos = self.pos + size;
        off
    }

    fn align_to(&mut self, align: usize)
        requires
            0 < align <= 64,
            old(self).pos <= 0x200_0000,
        ensures
            final(self).pos as nat == aligned(old(self).pos as nat, align as nat),
    {
        let rem: usize = self.pos % align;
        if rem != 0 {
            self.pos = self.pos + (align - rem);
        }
    }

    /// The size of the whole: a multiple of its alignment.
    fn finish(self, align: usize) -> (size: usize)
        requires
            0 < align <= 64,
            self.pos <= 0x200_0000,
        ensures
            size as nat == aligned(self.pos as nat, align as nat),
    {
        let mut l = Layout { pos: self.pos };
        l.align_to(align);
        l.pos
    }
}

/// Offsets in the root.
#[derive(Debug, Clone, Copy, PartialEq, Eq, Structural)]
pub struct RootLayout {
    pub bbox: usize,
    pub table_size: usize,
    pub background: usize,
    pub minimum: usize,
    pub maximum: usize,
    pub average: usize,
    pub stddev: usize,
    pub size: usize,
}

/// The root for values of `w` bytes.
#[verifier::opaque]
pub open spec fn root_of(w: nat) -> RootLayout {
    let table_size = aligned(24, 4);
    let background = aligned(table_size + 4, w);
    let minimum = aligned(background + w, w);
    let maximum = aligned(minimum + w, w);
    let average = aligned(maximum + w, 4);
    let stddev = aligned(average + 4, 4);
    RootLayout {
        bbox: 0,
        table_size: table_size as usize,
        background: background as usize,
        minimum: minimum as usize,
        maximum: maximum as usize,
        average: average as usize,
        stddev: stddev as usize,
        size: aligned(stddev + 4, 32) as usize,
    }
}

/// Lay out the root.
pub fn root_layout(w: usize) -> (r: RootLayout)
    requires
        w == 2 || w == 4,
    ensures
        r == root_of(w as nat),
        r.size == 64,
{
    proof {
        reveal(root_of);
        lemma_root_numbers(w as nat);
    }
    let mut l = Layout::new();
    let bbox: usize = l.field(24, 4);
    let table_size: usize = l.field(4, 4);
    let background: usize = l.field(w, w);
    let minimum: usize = l.field(w, w);
    let maximum: usize = l.field(w, w);
    let average: usize = l.field(4, 4);
    let stddev: usize = l.field(4, 4);
    let size: usize = l.finish(32);
    RootLayout { bbox, table_size, background, minimum, maximum, average, stddev, size }
}

/// Offsets in a tile of the root.
#[derive(Debug, Clone, Copy, PartialEq, Eq, Structural)]
pub struct TileLayout {
    pub key: usize,
    pub child: usize,
    pub state: usize,
    pub value: usize,
    pub size: usize,
}

#[verifier::opaque]
pub open spec fn tile_of(w: nat) -> TileLayout {
    let child = aligned(8, 8);
    let state = aligned(child + 8, 4);
    let value = aligned(state + 4, w);
    TileLayout {
        key: 0,
        child: child as usize,
        state: state as usize,
        value: value as usize,
        size: aligned(value + w, 32) as usize,
    }
}

/// Lay out a tile of the root.
pub fn root_tile_layout(w: usize) -> (r: TileLayout)
    requires
        w == 2 || w == 4,
    ensures
        r == tile_of(w as nat),
        r.size == 32,
{
    proof {
        reveal(tile_of);
        lemma_root_numbers(w as nat);
    }
    let mut l = Layout::new();
    let key: usize = l.field(8, 8);
    let child: usize = l.field(8, 8);
    let state: usize = l.field(4, 4);
    let value: usize = l.field(w, w);
    let size: usize = l.finish(32);
    TileLayout { key, child, state, value, size }
}

/// Offsets in an inner node.
#[derive(Debug, Clone, Copy, PartialEq, Eq, Structural)]
pub struct InternalLayout {
    pub bbox: usize,
    pub flags: usize,
    /// The mask of constant tiles: a dense block has none.
    pub value_mask: usize,
    pub child_mask: usize,
    pub minimum: usize,
    pub maximum: usize,
    pub average: usize,
    pub stddev: usize,
    pub table: usize,
    pub mask_bytes: usize,
    /// An entry holds a value or a 64-bit offset.
    pub entry_size: usize,
    pub slots: usize,
    pub size: usize,
}

/// The leaves of a lower node, and the lower nodes of an upper node, a side.
pub const LOWER_LOG2DIM: u32 = 4;

pub const UPPER_LOG2DIM: u32 = 5;

/// The slots of an inner node.
pub open spec fn slots_of(log2dim: u32) -> nat {
    if log2dim == LOWER_LOG2DIM {
        4096
    } else {
        32768
    }
}

#[verifier::opaque]
pub open spec fn internal_of(w: nat, slots: nat) -> InternalLayout {
    let mask_bytes = slots / 8;
    let flags = aligned(24, 8);
    let value_mask = aligned(flags + 8, 8);
    let child_mask = aligned(value_mask + mask_bytes, 8);
    let minimum = aligned(child_mask + mask_bytes, w);
    let maximum = aligned(minimum + w, w);
    let average = aligned(maximum + w, 4);
    let stddev = aligned(average + 4, 4);
    let table = aligned(aligned(stddev + 4, 32), 8);
    InternalLayout {
        bbox: 0,
        flags: flags as usize,
        value_mask: value_mask as usize,
        child_mask: child_mask as usize,
        minimum: minimum as usize,
        maximum: maximum as usize,
        average: average as usize,
        stddev: stddev as usize,
        table: table as usize,
        mask_bytes: mask_bytes as usize,
        entry_size: 8,
        slots: slots as usize,
        size: aligned(table + 8 * slots, 32) as usize,
    }
}

/// Lay out an inner node: a lower one, or an upper one.
pub fn internal_layout(w: usize, log2dim: u32) -> (r: InternalLayout)
    requires
        w == 2 || w == 4,
        log2dim == LOWER_LOG2DIM || log2dim == UPPER_LOG2DIM,
    ensures
        r == internal_of(w as nat, slots_of(log2dim)),
        r.size == (if log2dim == LOWER_LOG2DIM { 33_856int } else { 270_400 }),
{
    proof {
        reveal(internal_of);
        lemma_internal_numbers(w as nat, slots_of(log2dim));
    }
    let slots: usize = if log2dim == LOWER_LOG2DIM { 4096 } else { 32768 };
    let mask_bytes: usize = slots / 8;
    let mut l = Layout::new();
    let bbox: usize = l.field(24, 4);
    let flags: usize = l.field(8, 8);
    let value_mask: usize = l.field(mask_bytes, 8);
    let child_mask: usize = l.field(mask_bytes, 8);
    let minimum: usize = l.field(w, w);
    let maximum: usize = l.field(w, w);
    let average: usize = l.field(4, 4);
    let stddev: usize = l.field(4, 4);
    l.align_to(32);
    let entry_size: usize = 8;
    let table: usize = l.field(entry_size * slots, 8);
    let size: usize = l.finish(32);
    InternalLayout {
        bbox,
        flags,
        value_mask,
        child_mask,
        minimum,
        maximum,
        average,
        stddev,
        table,
        mask_bytes,
        entry_size,
        slots,
        size,
    }
}

/// Offsets in a leaf.
#[derive(Debug, Clone, Copy, PartialEq, Eq, Structural)]
pub struct LeafLayout {
    pub bbox_min: usize,
    pub bbox_dif: usize,
    pub flags: usize,
    pub value_mask: usize,
    pub minimum: usize,
    pub maximum: usize,
    pub average: usize,
    pub stddev: usize,
    pub values: usize,
    pub value_width: usize,
    pub size: usize,
}

#[verifier::opaque]
pub open spec fn leaf_of(w: nat) -> LeafLayout {
    let bbox_dif = aligned(12, 1);
    let flags = aligned(bbox_dif + 3, 1);
    let value_mask = aligned(flags + 1, 8);
    let minimum = aligned(value_mask + 64, w);
    let maximum = aligned(minimum + w, w);
    let average = aligned(maximum + w, 4);
    let stddev = aligned(average + 4, 4);
    let values = aligned(aligned(stddev + 4, 32), 8);
    LeafLayout {
        bbox_min: 0,
        bbox_dif: bbox_dif as usize,
        flags: flags as usize,
        value_mask: value_mask as usize,
        minimum: minimum as usize,
        maximum: maximum as usize,
        average: average as usize,
        stddev: stddev as usize,
        values: values as usize,
        value_width: w as usize,
        size: aligned(values + 512 * w, 32) as usize,
    }
}

/// Lay out a leaf.
pub fn leaf_layout(w: usize) -> (r: LeafLayout)
    requires
        w == 2 || w == 4,
    ensures
        r == leaf_of(w as nat),
        r.size == (if w == 4 { 2144int } else { 1120 }),
{
    proof {
        reveal(leaf_of);
        lemma_sizes(w as nat);
    }
    let mut l = Layout::new();
    let bbox_min: usize = l.field(12, 4);
    let bbox_dif: usize = l.field(3, 1);
    let flags: usize = l.field(1, 1);
    let value_mask: usize = l.field(64, 8);
    let minimum: usize = l.field(w, w);
    let maximum: usize = l.field(w, w);
    let average: usize = l.field(4, 4);
    let stddev: usize = l.field(4, 4);
    l.align_to(32);
    let values: usize = l.field(w * 512, 8);
    let size: usize = l.finish(32);
    LeafLayout {
        bbox_min,
        bbox_dif,
        flags,
        value_mask,
        minimum,
        maximum,
        average,
        stddev,
        values,
        value_width: w,
        size,
    }
}

// --------------------------------------------------------------------------
//  Nodes
// --------------------------------------------------------------------------
/// The statistics of a node: the average and the deviation are single-precision
/// bit patterns.
#[derive(Debug, Clone, Copy, PartialEq, Eq, Structural)]
pub struct NodeStat {
    pub minimum: Scalar,
    pub maximum: Scalar,
    pub average: u32,
    pub deviation: u32,
}

/// The bytes of a value.
pub open spec fn value_bytes(v: Scalar, p: Precision) -> Seq<u8> {
    match p {
        Precision::F32 => crate::bytes::le(single(v) as nat, 4),
        Precision::F16 => crate::bytes::le(half(single(v)) as nat, 2),
    }
}

fn push_value(b: &mut Vec<u8>, v: Scalar, p: Precision)
    ensures
        final(b)@ == old(b)@ + value_bytes(v, p),
{
    match p {
        Precision::F32 => push_le(b, to_single(v) as u64, 4),
        Precision::F16 => push_le(b, f32_to_f16_bits(to_single(v)) as u64, 2),
    }
}

/// A coordinate, a count or an offset of `k` bytes.
pub open spec fn le(n: int, k: nat) -> Seq<u8> {
    crate::bytes::le(n as nat, k)
}

/// The corners of a node: its first cell and its last one inside the grid.
pub open spec fn last_cell(first: nat, span: nat, n: nat) -> int {
    if first + span <= n {
        first + span - 1
    } else {
        n - 1
    }
}

fn find_last(first: usize, span: usize, n: usize) -> (r: usize)
    requires
        first < n,
        0 < span <= 4096,
        n <= 0x7fff_ffff,
    ensures
        r as int == last_cell(first as nat, span as nat, n as nat),
{
    if first + span <= n {
        first + span - 1
    } else {
        n - 1
    }
}

/// The smallest and the largest value, the average and the deviation.
pub open spec fn with_stat(
    b: Seq<u8>,
    minimum: usize,
    maximum: usize,
    average: usize,
    stddev: usize,
    st: NodeStat,
    p: Precision,
) -> Seq<u8> {
    let c = padded(b, minimum as int) + value_bytes(st.minimum, p);
    let d = padded(c, maximum as int) + value_bytes(st.maximum, p);
    let e = padded(d, average as int) + le(st.average as int, 4);
    padded(e, stddev as int) + le(st.deviation as int, 4)
}

fn push_stat(
    b: &mut Vec<u8>,
    minimum: usize,
    maximum: usize,
    average: usize,
    stddev: usize,
    st: &NodeStat,
    p: Precision,
)
    ensures
        final(b)@ == with_stat(old(b)@, minimum, maximum, average, stddev, *st, p),
{
    pad_to(b, minimum);
    push_value(b, st.minimum, p);
    pad_to(b, maximum);
    push_value(b, st.maximum, p);
    pad_to(b, average);
    push_le(b, st.average as u64, 4);
    pad_to(b, stddev);
    push_le(b, st.deviation as u64, 4);
}

/// The number of the cell that slot `n` of a leaf stands for, where it is inside.
pub open spec fn leaf_cell(g: Dims, leaf: Dims, n: int) -> Option<int> {
    let c = leaf.slot(8, n);
    if g.holds(c) {
        Some(g.number(c))
    } else {
        None
    }
}

pub open spec fn leaf_flags(g: Dims, leaf: Dims) -> Seq<bool> {
    Seq::new(512, |n: int| leaf_cell(g, leaf, n) is Some)
}

/// The value in a slot of a leaf: nothing outside the grid.
pub open spec fn leaf_piece(g: Dims, leaf: Dims, v: Seq<Scalar>, p: Precision) -> spec_fn(int) -> Seq<
    u8,
> {
    |n: int|
        match leaf_cell(g, leaf, n) {
            Some(c) => value_bytes(v[c], p),
            None => zeros(p.bytes()),
        }
}

/// The bytes of a leaf.
#[verifier::opaque]
pub open spec fn leaf_bytes(g: Dims, leaf: Dims, v: Seq<Scalar>, st: NodeStat, p: Precision) -> Seq<u8> {
    let l = leaf_of(p.bytes());
    let a = Seq::<u8>::empty() + le((leaf.x * 8) as int, 4) + le((leaf.y * 8) as int, 4) + le(
        (leaf.z * 8) as int,
        4,
    );
    let b = padded(a, l.bbox_dif as int) + le(last_cell(leaf.x * 8, 8, g.x) - leaf.x * 8, 1) + le(
        last_cell(leaf.y * 8, 8, g.y) - leaf.y * 8,
        1,
    ) + le(last_cell(leaf.z * 8, 8, g.z) - leaf.z * 8, 1);
    let c = padded(b, l.flags as int) + le(0x12, 1);
    let d = padded(c, l.value_mask as int) + mask_of(leaf_flags(g, leaf));
    let e = with_stat(d, l.minimum, l.maximum, l.average, l.stddev, st, p);
    let f = padded(e, l.values as int) + stacked(512, leaf_piece(g, leaf, v, p));
    padded(f, l.size as int)
}

/// A block whose first cell is inside the grid.
pub open spec fn is_block_of(g: Dims, p: Dims, d: nat) -> bool {
    g.x <= 0x7fff_ffff && g.y <= 0x7fff_ffff && g.z <= 0x7fff_ffff && g.holds(p.times(d))
}

pub fn find_leaf_flags(g: &Triple, leaf: &Triple) -> (r: Vec<bool>)
    requires
        is_block_of(g@, leaf@, 8),
    ensures
        r@ == leaf_flags(g@, leaf@),
{
    let mut r: Vec<bool> = Vec::new();
    let mut n: usize = 0;
    while n < 512
        invariant
            n <= 512,
            r.len() == n,
            is_block_of(g@, leaf@, 8),
            forall|k: int| 0 <= k < n ==> #[trigger] r@[k] == (leaf_cell(g@, leaf@, k) is Some),
        decreases 512 - n,
    {
        let c = slot_place(leaf, 8, n);
        r.push(contains(g, &c));
        n = n + 1;
    }
    assert(r@ =~= leaf_flags(g@, leaf@));
    r
}

fn push_leaf_values(b: &mut Vec<u8>, g: &Triple, leaf: &Triple, v: &Vec<Scalar>, p: Precision)
    requires
        is_block_of(g@, leaf@, 8),
        g@.volume() == v.len(),
    ensures
        final(b)@ == old(b)@ + stacked(512, leaf_piece(g@, leaf@, v@, p)),
{
    let ghost start = b@;
    let ghost piece = leaf_piece(g@, leaf@, v@, p);
    let mut n: usize = 0;
    assert(b@ =~= start + stacked(0, piece));
    while n < 512
        invariant
            n <= 512,
            is_block_of(g@, leaf@, 8),
            g@.volume() == v.len(),
            piece == leaf_piece(g@, leaf@, v@, p),
            b@ == start + stacked(n as int, piece),
        decreases 512 - n,
    {
        let c = slot_place(leaf, 8, n);
        if contains(g, &c) {
            let i: usize = number_of(g, &c);
            push_value(b, v[i], p);
        } else {
            push_zeros(b, p.width());
        }
        n = n + 1;
        assert(b@ =~= start + stacked(n as int, piece));
    }
}

fn push_leaf(
    b: &mut Vec<u8>,
    g: &Triple,
    leaf: &Triple,
    v: &Vec<Scalar>,
    st: &NodeStat,
    p: Precision,
)
    requires
        is_block_of(g@, leaf@, 8),
        g@.volume() == v.len(),
    ensures
        final(b)@ == old(b)@ + leaf_bytes(g@, leaf@, v@, *st, p),
{
    proof {
        reveal(leaf_bytes);
    }
    let l = leaf_layout(p.width());
    let mut a: Vec<u8> = Vec::new();
    let ox: usize = leaf.x * 8;
    let oy: usize = leaf.y * 8;
    let oz: usize = leaf.z * 8;
    assert(a@ =~= Seq::<u8>::empty());
    push_le(&mut a, ox as u64, 4);
    push_le(&mut a, oy as u64, 4);
    push_le(&mut a, oz as u64, 4);
    pad_to(&mut a, l.bbox_dif);
    push_le(&mut a, (find_last(ox, 8, g.x) - ox) as u64, 1);
    push_le(&mut a, (find_last(oy, 8, g.y) - oy) as u64, 1);
    push_le(&mut a, (find_last(oz, 8, g.z) - oz) as u64, 1);
    pad_to(&mut a, l.flags);
    push_le(&mut a, 0x12, 1);
    pad_to(&mut a, l.value_mask);
    push_mask(&mut a, &find_leaf_flags(g, leaf));
    push_stat(&mut a, l.minimum, l.maximum, l.average, l.stddev, st, p);
    pad_to(&mut a, l.values);
    push_leaf_values(&mut a, g, leaf, v, p);
    pad_to(&mut a, l.size);
    push_all(b, &a);
}

/// The number of the node below that slot `n` of a node stands for, where there is
/// one: `below` is how many there are, and `f` the slots a side.
pub open spec fn child_number(below: Dims, node: Dims, f: nat, n: int) -> Option<int> {
    let c = node.slot(f, n);
    if below.holds(c) {
        Some(below.number(c))
    } else {
        None
    }
}

pub open spec fn child_flags(below: Dims, node: Dims, f: nat) -> Seq<bool> {
    Seq::new(f * f * f, |n: int| child_number(below, node, f, n) is Some)
}

/// The offset, from the node, of the node below in a slot: `far` leads to the first
/// of them, and `size` is their size.
pub open spec fn child_piece(below: Dims, node: Dims, f: nat, far: int, size: nat) -> spec_fn(int) -> Seq<
    u8,
> {
    |n: int|
        match child_number(below, node, f, n) {
            Some(c) => le(far + c * size, 8),
            None => zeros(8),
        }
}

/// The bytes of an inner node whose first cell is `node` times `span`.
#[verifier::opaque]
pub open spec fn internal_bytes(
    g: Dims,
    node: Dims,
    span: nat,
    below: Dims,
    f: nat,
    far: int,
    size: nat,
    st: NodeStat,
    p: Precision,
) -> Seq<u8> {
    let l = internal_of(p.bytes(), f * f * f);
    let o = node.times(span);
    let a = Seq::<u8>::empty() + le(o.x as int, 4) + le(o.y as int, 4) + le(o.z as int, 4) + le(
        last_cell(o.x, span, g.x),
        4,
    ) + le(last_cell(o.y, span, g.y), 4) + le(last_cell(o.z, span, g.z), 4);
    let b = padded(a, l.flags as int) + le(0, 8);
    let c = padded(b, l.child_mask as int) + mask_of(child_flags(below, node, f));
    let d = with_stat(c, l.minimum, l.maximum, l.average, l.stddev, st, p);
    let e = padded(d, l.table as int) + stacked(
        (f * f * f) as int,
        child_piece(below, node, f, far, size),
    );
    padded(e, l.size as int)
}

/// The nodes below a node with its slots: places stay within the machine.
pub open spec fn has_slots(node: Dims, f: nat) -> bool {
    node.x * f + f <= usize::MAX && node.y * f + f <= usize::MAX && node.z * f + f <= usize::MAX
}

pub proof fn lemma_cube(f: nat)
    requires
        f == 16 || f == 32,
    ensures
        f * f * f == (if f == 16 { 4096nat } else { 32768 }),
        f * f == (if f == 16 { 256nat } else { 1024 }),
{
    if f == 16 {
        assert(16nat * 16 == 256);
        assert(256nat * 16 == 4096);
    } else {
        assert(32nat * 32 == 1024);
        assert(1024nat * 32 == 32768);
    }
}

pub fn find_child_flags(below: &Triple, node: &Triple, f: usize) -> (r: Vec<bool>)
    requires
        f == 16 || f == 32,
        has_slots(node@, f as nat),
    ensures
        r@ == child_flags(below@, node@, f as nat),
        r.len() % 8 == 0,
{
    let slots: usize = if f == 16 { 4096 } else { 32768 };
    proof {
        lemma_cube(f as nat);
    }
    let mut r: Vec<bool> = Vec::new();
    let mut n: usize = 0;
    while n < slots
        invariant
            n <= slots,
            slots == f * f * f,
            f == 16 || f == 32,
            r.len() == n,
            has_slots(node@, f as nat),
            forall|k: int|
                0 <= k < n ==> #[trigger] r@[k] == (child_number(below@, node@, f as nat, k) is Some),
        decreases slots - n,
    {
        let c = slot_place(node, f, n);
        r.push(contains(below, &c));
        n = n + 1;
    }
    assert(r@ =~= child_flags(below@, node@, f as nat));
    r
}

fn push_children(b: &mut Vec<u8>, below: &Triple, node: &Triple, f: usize, far: u64, size: usize)
    requires
        f == 16 || f == 32,
        has_slots(node@, f as nat),
        below@.volume() <= usize::MAX,
        far + below@.volume() * size <= u64::MAX,
    ensures
        final(b)@ == old(b)@ + stacked(
            (f * f * f) as int,
            child_piece(below@, node@, f as nat, far as int, size as nat),
        ),
{
    let ghost start = b@;
    let ghost piece = child_piece(below@, node@, f as nat, far as int, size as nat);
    let slots: usize = if f == 16 { 4096 } else { 32768 };
    proof {
        lemma_cube(f as nat);
    }
    let mut n: usize = 0;
    assert(b@ =~= start + stacked(0, piece));
    while n < slots
        invariant
            n <= slots,
            slots == f * f * f,
            f == 16 || f == 32,
            has_slots(node@, f as nat),
            below@.volume() <= usize::MAX,
            far + below@.volume() * size <= u64::MAX,
            piece == child_piece(below@, node@, f as nat, far as int, size as nat),
            b@ == start + stacked(n as int, piece),
        decreases slots - n,
    {
        let c = slot_place(node, f, n);
        if contains(below, &c) {
            let i: usize = number_of(below, &c);
            proof {
                let m = below@.volume() as int;
                assert(0 <= i * size <= m * size) by (nonlinear_arith)
                    requires
                        0 <= i < m,
                        size >= 0,
                ;
            }
            push_le(b, far + (i as u64) * (size as u64), 8);
        } else {
            push_zeros(b, 8);
        }
        n = n + 1;
        assert(b@ =~= start + stacked(n as int, piece));
    }
}

pub proof fn lemma_has_slots(g: Dims, node: Dims, span: nat, f: nat)
    requires
        (f == 16 && span == 128) || (f == 32 && span == 4096),
        is_block_of(g, node, span),
    ensures
        has_slots(node, f),
{
    if f == 16 {
        assert(node.x * 128 < g.x);
        assert(node.y * 128 < g.y);
        assert(node.z * 128 < g.z);
    } else {
        assert(node.x * 4096 < g.x);
        assert(node.y * 4096 < g.y);
        assert(node.z * 4096 < g.z);
    }
}

fn push_internal(
    b: &mut Vec<u8>,
    g: &Triple,
    node: &Triple,
    span: usize,
    below: &Triple,
    f: usize,
    far: u64,
    size: usize,
    st: &NodeStat,
    p: Precision,
)
    requires
        (f == 16 && span == 128) || (f == 32 && span == 4096),
        is_block_of(g@, node@, span as nat),
        below@.volume() <= usize::MAX,
        far + below@.volume() * size <= u64::MAX,
    ensures
        final(b)@ == old(b)@ + internal_bytes(
            g@,
            node@,
            span as nat,
            below@,
            f as nat,
            far as int,
            size as nat,
            *st,
            p,
        ),
{
    proof {
        reveal(internal_bytes);
    }
    let l = internal_layout(
        p.width(),
        if f == 16 {
            LOWER_LOG2DIM
        } else {
            UPPER_LOG2DIM
        },
    );
    proof {
        lemma_has_slots(g@, node@, span as nat, f as nat);
    }
    let mut a: Vec<u8> = Vec::new();
    let ox: usize = node.x * span;
    let oy: usize = node.y * span;
    let oz: usize = node.z * span;
    assert(a@ =~= Seq::<u8>::empty());
    push_le(&mut a, ox as u64, 4);
    push_le(&mut a, oy as u64, 4);
    push_le(&mut a, oz as u64, 4);
    push_le(&mut a, find_last(ox, span, g.x) as u64, 4);
    push_le(&mut a, find_last(oy, span, g.y) as u64, 4);
    push_le(&mut a, find_last(oz, span, g.z) as u64, 4);
    pad_to(&mut a, l.flags);
    push_le(&mut a, 0, 8);
    pad_to(&mut a, l.child_mask);
    push_mask(&mut a, &find_child_flags(below, node, f));
    push_stat(&mut a, l.minimum, l.maximum, l.average, l.stddev, st, p);
    pad_to(&mut a, l.table);
    push_children(&mut a, below, node, f, far, size);
    pad_to(&mut a, l.size);
    push_all(b, &a);
}

// --------------------------------------------------------------------------
//  Grids
// --------------------------------------------------------------------------
/// `NanoVDB2`, at the head of a segment.
pub const MAGIC_FILE: u64 = 0x324244566f6e614e;

/// `NanoVDB1`, at the head of a grid.
pub const MAGIC_GRID: u64 = 0x314244566f6e614e;

/// Version 32.9.0.
pub const VERSION: u32 = 67_118_080;

/// All bits on: no checksum.
pub const CHECKSUM_DISABLED: u64 = 0xffff_ffff_ffff_ffff;

pub const CODEC_NONE: u16 = 0;

pub const GRID_TYPE_FLOAT: u32 = 1;

pub const GRID_TYPE_HALF: u32 = 9;

/// A density: a viewer renders it as a volume.
pub const GRID_CLASS_FOG_VOLUME: u32 = 2;

/// A box, the smallest and the largest value, the average and the deviation are
/// there, and the nodes stand breadth first.
pub const GRID_FLAGS: u32 = 62;

pub const FILE_HEADER_SIZE: usize = 16;

pub const FILE_META_SIZE: usize = 176;

pub const GRID_DATA_SIZE: usize = 672;

pub const TREE_DATA_SIZE: usize = 64;

/// Three single-precision bit patterns.
#[derive(Debug, Clone, Copy, PartialEq, Eq, Structural)]
pub struct Single3 {
    pub x: u32,
    pub y: u32,
    pub z: u32,
}

/// What floating-point arithmetic makes of a grid's origin and spacing: the corners
/// of the domain, half a cell beyond the outer centres, and one over the spacing.
#[derive(Debug, Clone, Copy)]
pub struct Frame {
    pub lo: Vec3,
    pub hi: Vec3,
    pub inverse: Vec3,
    pub inverse_single: Single3,
}

/// The values of a grid and the statistics of its nodes.
#[derive(Debug, Clone)]
pub struct Samples {
    pub values: Vec<Scalar>,
    pub root: NodeStat,
    pub upper: Vec<NodeStat>,
    pub lower: Vec<NodeStat>,
    pub leaf: Vec<NodeStat>,
}

impl Samples {
    /// One value per cell, and the statistics of every node.
    pub open spec fn cover(self, g: UniformGrid) -> bool {
        &&& self.values.len() == extent(g).volume()
        &&& self.has_statistics(g)
    }

    pub open spec fn has_statistics(self, g: UniformGrid) -> bool {
        &&& self.upper.len() == extent(g).in_blocks(4096).volume()
        &&& self.lower.len() == extent(g).in_blocks(128).volume()
        &&& self.leaf.len() == extent(g).in_blocks(8).volume()
    }
}

/// Where the root, the tiles, the upper and the lower nodes and the leaves begin.
pub open spec fn root_at() -> int {
    GRID_DATA_SIZE + TREE_DATA_SIZE
}

pub open spec fn tiles_at(p: Precision) -> int {
    root_at() + root_of(p.bytes()).size
}

pub open spec fn uppers_at(g: Dims, p: Precision) -> int {
    tiles_at(p) + g.in_blocks(4096).volume() * tile_of(p.bytes()).size
}

pub open spec fn lowers_at(g: Dims, p: Precision) -> int {
    uppers_at(g, p) + g.in_blocks(4096).volume() * internal_of(p.bytes(), 32768).size
}

pub open spec fn leaves_at(g: Dims, p: Precision) -> int {
    lowers_at(g, p) + g.in_blocks(128).volume() * internal_of(p.bytes(), 4096).size
}

/// The size of a grid.
pub open spec fn grid_size(g: Dims, p: Precision) -> int {
    leaves_at(g, p) + g.in_blocks(8).volume() * leaf_of(p.bytes()).size
}

/// The offsets of a grid's parts.
struct Parts {
    tiles: usize,
    uppers: usize,
    lowers: usize,
    leaves: usize,
    size: usize,
}

/// A grid whose file has offsets that fit the format.
pub open spec fn has_room(g: UniformGrid, p: Precision) -> bool {
    grid_size(extent(g), p) <= usize::MAX && grid_size(extent(g), p) <= i64::MAX
}

fn find_parts(grid: &UniformGrid, p: Precision) -> (r: Parts)
    requires
        is_block(*grid),
        has_room(*grid, p),
    ensures
        r.tiles == tiles_at(p),
        r.uppers == uppers_at(extent(*grid), p),
        r.lowers == lowers_at(extent(*grid), p),
        r.leaves == leaves_at(extent(*grid), p),
        r.size == grid_size(extent(*grid), p),
{
    let w: usize = p.width();
    let (leaf, lower, upper) = node_counts(grid);
    let root = root_layout(w);
    let tile = root_tile_layout(w);
    let big = internal_layout(w, UPPER_LOG2DIM);
    let small = internal_layout(w, LOWER_LOG2DIM);
    let end = leaf_layout(w);
    proof {
        lemma_counts(*grid, 8);
        lemma_counts(*grid, 128);
        lemma_counts(*grid, 4096);
        lemma_part_sizes(extent(*grid), p);
    }
    let nu: usize = volume_of(&upper);
    let nl: usize = volume_of(&lower);
    let nf: usize = volume_of(&leaf);
    let tiles: usize = GRID_DATA_SIZE + TREE_DATA_SIZE + root.size;
    let uppers: usize = tiles + nu * tile.size;
    let lowers: usize = uppers + nu * big.size;
    let leaves: usize = lowers + nl * small.size;
    Parts { tiles, uppers, lowers, leaves, size: leaves + nf * end.size }
}

proof fn lemma_sizes(w: nat)
    requires
        w == 2 || w == 4,
    ensures
        root_of(w).size == 64,
        tile_of(w).size == 32,
        internal_of(w, 32768).size == 270_400,
        internal_of(w, 4096).size == 33_856,
        leaf_of(w).size == (if w == 4 { 2144int } else { 1120 }),
{
    lemma_internal_numbers(w, 4096);
    lemma_internal_numbers(w, 32768);
    lemma_root_numbers(w);
    lemma_leaf_offsets(
        if w == 4 {
            Precision::F32
        } else {
            Precision::F16
        },
    );
}

pub(crate) proof fn lemma_root_numbers(w: nat)
    requires
        w == 2 || w == 4,
    ensures
        ({
            let l = root_of(w);
            let t = tile_of(w);
            &&& l.bbox == 0 && l.table_size == 24 && l.background == 28 && l.minimum == 28 + w
            &&& l.maximum == 28 + 2 * w && l.average == (if w == 4 { 40int } else { 36 })
            &&& l.stddev == l.average + 4 && l.size == 64
            &&& t.key == 0 && t.child == 8 && t.state == 16 && t.value == 20 && t.size == 32
        }),
{
    reveal(root_of);
    reveal(tile_of);
    lemma_aligned(24, 4, 6);
    lemma_aligned(8, 8, 1);
    lemma_aligned(16, 4, 4);
    if w == 4 {
        lemma_aligned(28, 4, 7);
        lemma_aligned(32, 4, 8);
        lemma_aligned(36, 4, 9);
        lemma_aligned(40, 4, 10);
        lemma_aligned(44, 4, 11);
        lemma_aligned_up(48, 32, 1, 16);
        lemma_aligned(20, 4, 5);
        lemma_aligned_up(24, 32, 0, 24);
    } else {
        lemma_aligned(28, 2, 14);
        lemma_aligned(30, 2, 15);
        lemma_aligned(32, 2, 16);
        lemma_aligned_up(34, 4, 8, 2);
        lemma_aligned(40, 4, 10);
        lemma_aligned_up(44, 32, 1, 12);
        lemma_aligned(20, 2, 10);
        lemma_aligned_up(22, 32, 0, 22);
    }
}

proof fn lemma_part_sizes(g: Dims, p: Precision)
    ensures
        tiles_at(p) == 800,
        tile_of(p.bytes()).size == 32,
        internal_of(p.bytes(), 32768).size == 270_400,
        internal_of(p.bytes(), 4096).size == 33_856,
        leaf_of(p.bytes()).size == (if p == Precision::F32 { 2144int } else { 1120 }),
        800 <= uppers_at(g, p) <= lowers_at(g, p) <= leaves_at(g, p) <= grid_size(g, p),
        0 <= g.in_blocks(4096).volume() * 270_400,
        0 <= g.in_blocks(4096).volume() * 32,
        0 <= g.in_blocks(128).volume() * 33_856,
        0 <= g.in_blocks(8).volume() * leaf_of(p.bytes()).size,
{
    let n = g.in_blocks(8).volume() as int;
    let s = leaf_of(p.bytes()).size as int;
    match p {
        Precision::F32 => {
            lemma_sizes(4);
        },
        Precision::F16 => {
            lemma_sizes(2);
        },
    }
    assert(n * s >= 0) by (nonlinear_arith)
        requires
            n >= 0,
            s >= 0,
    ;
}

/// A block of a block's extent begins inside it.
pub proof fn lemma_block_inside(g: UniformGrid, i: int, d: nat)
    requires
        is_block(g),
        d > 0,
        0 <= i < extent(g).in_blocks(d).volume(),
    ensures
        is_block_of(extent(g), extent(g).in_blocks(d).place(i), d),
        extent(g).in_blocks(d).holds(extent(g).in_blocks(d).place(i)),
{
    let e = extent(g);
    let b = e.in_blocks(d);
    every_number_is_a_place(b, i);
    let p = b.place(i);
    lemma_first_cell(e.x, p.x, d);
    lemma_first_cell(e.y, p.y, d);
    lemma_first_cell(e.z, p.z, d);
}

pub proof fn lemma_first_cell(n: nat, k: nat, d: nat)
    requires
        d > 0,
        k < tiles(n, d),
    ensures
        k * d < n,
{
    lemma_tiles(n, d);
    let t = tiles(n, d);
    assert(k * d + d <= t * d) by (nonlinear_arith)
        requires
            k + 1 <= t,
    ;
}

/// Whether single or half precision is stored.
pub open spec fn grid_type(p: Precision) -> u32 {
    match p {
        Precision::F32 => GRID_TYPE_FLOAT,
        Precision::F16 => GRID_TYPE_HALF,
    }
}

fn find_type(p: Precision) -> (r: u32)
    ensures
        r == grid_type(p),
{
    match p {
        Precision::F32 => GRID_TYPE_FLOAT,
        Precision::F16 => GRID_TYPE_HALF,
    }
}

/// Three numbers as they are.
pub open spec fn vector_bytes(v: Vec3) -> Seq<u8> {
    Seq::<u8>::empty() + le(v.x.bits as int, 8) + le(v.y.bits as int, 8) + le(v.z.bits as int, 8)
}

fn push_vector(b: &mut Vec<u8>, v: &Vec3)
    ensures
        final(b)@ == old(b)@ + vector_bytes(*v),
{
    let mut a: Vec<u8> = Vec::new();
    assert(a@ =~= Seq::<u8>::empty());
    push_le(&mut a, v.x.bits, 8);
    push_le(&mut a, v.y.bits, 8);
    push_le(&mut a, v.z.bits, 8);
    push_all(b, &a);
}

/// A matrix with a diagonal, and nothing beside it.
pub open spec fn diagonal_bytes(x: int, y: int, z: int, k: nat) -> Seq<u8> {
    Seq::<u8>::empty() + le(x, k) + zeros(3 * k) + le(y, k) + zeros(3 * k) + le(z, k)
}

fn push_diagonal(b: &mut Vec<u8>, x: u64, y: u64, z: u64, k: usize)
    requires
        k <= 8,
    ensures
        final(b)@ == old(b)@ + diagonal_bytes(x as int, y as int, z as int, k as nat),
{
    let mut a: Vec<u8> = Vec::new();
    assert(a@ =~= Seq::<u8>::empty());
    push_le(&mut a, x, k);
    push_zeros(&mut a, 3 * k);
    push_le(&mut a, y, k);
    push_zeros(&mut a, 3 * k);
    push_le(&mut a, z, k);
    push_all(b, &a);
}

/// The map from places to the world, in single and in full precision: the spacing,
/// its inverse, the first centre and a taper of one.
pub open spec fn map_bytes(g: UniformGrid, fr: Frame) -> Seq<u8> {
    let s = g.spacing;
    let o = g.origin;
    let i = fr.inverse;
    let n = fr.inverse_single;
    Seq::<u8>::empty() + diagonal_bytes(
        single(s.x) as int,
        single(s.y) as int,
        single(s.z) as int,
        4,
    ) + diagonal_bytes(n.x as int, n.y as int, n.z as int, 4) + le(single(o.x) as int, 4) + le(
        single(o.y) as int,
        4,
    ) + le(single(o.z) as int, 4) + le(0x3f80_0000, 4) + diagonal_bytes(
        s.x.bits as int,
        s.y.bits as int,
        s.z.bits as int,
        8,
    ) + diagonal_bytes(i.x.bits as int, i.y.bits as int, i.z.bits as int, 8) + vector_bytes(o) + le(
        ONE as int,
        8,
    )
}

fn write_map(g: &UniformGrid, fr: &Frame) -> (b: Vec<u8>)
    ensures
        b@ == map_bytes(*g, *fr),
{
    let mut b: Vec<u8> = Vec::new();
    let s = g.spacing;
    let o = g.origin;
    let i = fr.inverse;
    let n = fr.inverse_single;
    assert(b@ =~= Seq::<u8>::empty());
    push_diagonal(
        &mut b,
        to_single(s.x) as u64,
        to_single(s.y) as u64,
        to_single(s.z) as u64,
        4,
    );
    push_diagonal(&mut b, n.x as u64, n.y as u64, n.z as u64, 4);
    push_le(&mut b, to_single(o.x) as u64, 4);
    push_le(&mut b, to_single(o.y) as u64, 4);
    push_le(&mut b, to_single(o.z) as u64, 4);
    push_le(&mut b, 0x3f80_0000, 4);
    push_diagonal(&mut b, s.x.bits, s.y.bits, s.z.bits, 8);
    push_diagonal(&mut b, i.x.bits, i.y.bits, i.z.bits, 8);
    push_vector(&mut b, &o);
    push_le(&mut b, ONE, 8);
    b
}

/// The data of a grid.
#[verifier::opaque]
pub open spec fn grid_data(g: UniformGrid, fr: Frame, name: Seq<char>, p: Precision) -> Seq<u8> {
    let size = grid_size(extent(g), p);
    let a = Seq::<u8>::empty() + le(MAGIC_GRID as int, 8) + le(CHECKSUM_DISABLED as int, 8) + le(
        VERSION as int,
        4,
    ) + le(GRID_FLAGS as int, 4) + le(0, 4) + le(1, 4) + le(size, 8) + encoded(name);
    padded(a, 296) + map_bytes(g, fr) + vector_bytes(fr.lo) + vector_bytes(fr.hi) + vector_bytes(
        g.spacing,
    ) + le(GRID_CLASS_FOG_VOLUME as int, 4) + le(grid_type(p) as int, 4) + le(size, 8) + le(0, 4)
        + le(0, 4) + le(0, 8) + le(0, 8)
}

fn write_grid_data(
    g: &UniformGrid,
    fr: &Frame,
    name: &str,
    p: Precision,
    size: usize,
) -> (b: Vec<u8>)
    requires
        size == grid_size(extent(*g), p),
    ensures
        b@ == grid_data(*g, *fr, name@, p),
{
    proof {
        reveal(grid_data);
    }
    let mut b: Vec<u8> = Vec::new();
    assert(b@ =~= Seq::<u8>::empty());
    push_le(&mut b, MAGIC_GRID, 8);
    push_le(&mut b, CHECKSUM_DISABLED, 8);
    push_le(&mut b, VERSION as u64, 4);
    push_le(&mut b, GRID_FLAGS as u64, 4);
    push_le(&mut b, 0, 4);
    push_le(&mut b, 1, 4);
    push_le(&mut b, size as u64, 8);
    push_all(&mut b, &bytes_of(name));
    pad_to(&mut b, 296);
    push_all(&mut b, &write_map(g, fr));
    push_vector(&mut b, &fr.lo);
    push_vector(&mut b, &fr.hi);
    push_vector(&mut b, &g.spacing);
    push_le(&mut b, GRID_CLASS_FOG_VOLUME as u64, 4);
    push_le(&mut b, find_type(p) as u64, 4);
    push_le(&mut b, size as u64, 8);
    push_le(&mut b, 0, 4);
    push_le(&mut b, 0, 4);
    push_le(&mut b, 0, 8);
    push_le(&mut b, 0, 8);
    b
}

/// The data of a tree: where its nodes begin and how many there are. Counts are of
/// four bytes.
#[verifier::opaque]
pub open spec fn tree_data(g: Dims, p: Precision) -> Seq<u8> {
    let at = GRID_DATA_SIZE as int;
    Seq::<u8>::empty() + le(leaves_at(g, p) - at, 8) + le(lowers_at(g, p) - at, 8) + le(
        uppers_at(g, p) - at,
        8,
    ) + le(root_at() - at, 8) + le(g.in_blocks(8).volume() as int, 4) + le(
        g.in_blocks(128).volume() as int,
        4,
    ) + le(g.in_blocks(4096).volume() as int, 4) + le(0, 4) + le(0, 4) + le(0, 4) + le(
        g.volume() as int,
        8,
    )
}

fn write_tree_data(g: &UniformGrid, p: Precision, at: &Parts) -> (b: Vec<u8>)
    requires
        is_block(*g),
        at.uppers == uppers_at(extent(*g), p),
        at.lowers == lowers_at(extent(*g), p),
        at.leaves == leaves_at(extent(*g), p),
    ensures
        b@ == tree_data(extent(*g), p),
{
    proof {
        reveal(tree_data);
    }
    proof {
        lemma_counts(*g, 8);
        lemma_counts(*g, 128);
        lemma_counts(*g, 4096);
        lemma_part_sizes(extent(*g), p);
    }
    let (leaf, lower, upper) = node_counts(g);
    let mut b: Vec<u8> = Vec::new();
    assert(b@ =~= Seq::<u8>::empty());
    push_le(&mut b, (at.leaves - GRID_DATA_SIZE) as u64, 8);
    push_le(&mut b, (at.lowers - GRID_DATA_SIZE) as u64, 8);
    push_le(&mut b, (at.uppers - GRID_DATA_SIZE) as u64, 8);
    push_le(&mut b, TREE_DATA_SIZE as u64, 8);
    push_le(&mut b, volume_of(&leaf) as u64, 4);
    push_le(&mut b, volume_of(&lower) as u64, 4);
    push_le(&mut b, volume_of(&upper) as u64, 4);
    push_le(&mut b, 0, 4);
    push_le(&mut b, 0, 4);
    push_le(&mut b, 0, 4);
    push_le(&mut b, g.n() as u64, 8);
    b
}

/// The root.
#[verifier::opaque]
pub open spec fn root_bytes(g: Dims, st: NodeStat, p: Precision) -> Seq<u8> {
    let l = root_of(p.bytes());
    let a = Seq::<u8>::empty() + le(0, 4) + le(0, 4) + le(0, 4) + le(g.x - 1, 4) + le(g.y - 1, 4) + le(
        g.z - 1,
        4,
    );
    let b = padded(a, l.table_size as int) + le(g.in_blocks(4096).volume() as int, 4);
    let c = padded(b, l.background as int) + value_bytes(Scalar { bits: 0 }, p);
    let d = with_stat(c, l.minimum, l.maximum, l.average, l.stddev, st, p);
    padded(d, l.size as int)
}

fn write_root(g: &UniformGrid, st: &NodeStat, p: Precision) -> (b: Vec<u8>)
    requires
        is_block(*g),
    ensures
        b@ == root_bytes(extent(*g), *st, p),
{
    proof {
        reveal(root_bytes);
    }
    let l = root_layout(p.width());
    let (_, _, upper) = node_counts(g);
    proof {
        lemma_counts(*g, 4096);
    }
    let mut b: Vec<u8> = Vec::new();
    assert(b@ =~= Seq::<u8>::empty());
    push_le(&mut b, 0, 4);
    push_le(&mut b, 0, 4);
    push_le(&mut b, 0, 4);
    push_le(&mut b, (g.nx - 1) as u64, 4);
    push_le(&mut b, (g.ny - 1) as u64, 4);
    push_le(&mut b, (g.nz - 1) as u64, 4);
    pad_to(&mut b, l.table_size);
    push_le(&mut b, volume_of(&upper) as u64, 4);
    pad_to(&mut b, l.background);
    push_value(&mut b, Scalar { bits: 0 }, p);
    push_stat(&mut b, l.minimum, l.maximum, l.average, l.stddev, st, p);
    pad_to(&mut b, l.size);
    b
}

/// The key of an upper node: its place, in 21 bits a coordinate.
pub open spec fn root_key(node: Dims) -> int {
    (node.x * 0x400_0000_0000 + node.y * 0x20_0000 + node.z) as int
}

/// The key of the upper node at a place.
pub fn coord_to_key(node: &Triple) -> (r: u64)
    requires
        node.x < 0x20_0000,
        node.y < 0x20_0000,
        node.z < 0x20_0000,
    ensures
        r == root_key(node@),
{
    (node.x as u64) * 0x400_0000_0000 + (node.y as u64) * 0x20_0000 + (node.z as u64)
}

/// A key leads back to its place.
pub proof fn keys_name_places(node: Dims)
    requires
        node.x < 0x20_0000,
        node.y < 0x20_0000,
        node.z < 0x20_0000,
    ensures
        root_key(node) / 0x400_0000_0000 == node.x,
        (root_key(node) / 0x20_0000) % 0x20_0000 == node.y,
        root_key(node) % 0x20_0000 == node.z,
{
}

/// The tile of an upper node: its key and its offset from the root.
pub open spec fn tile_piece(g: Dims, p: Precision) -> spec_fn(int) -> Seq<u8> {
    |i: int|
        {
            let l = tile_of(p.bytes());
            let a = Seq::<u8>::empty() + le(root_key(g.in_blocks(4096).place(i)), 8);
            let b = padded(a, l.child as int) + le(
                uppers_at(g, p) + i * internal_of(p.bytes(), 32768).size - root_at(),
                8,
            );
            let c = padded(b, l.state as int) + le(0, 4);
            let d = padded(c, l.value as int) + value_bytes(Scalar { bits: 0 }, p);
            padded(d, l.size as int)
        }
}

pub open spec fn upper_piece(g: Dims, s: Samples, p: Precision) -> spec_fn(int) -> Seq<u8> {
    |i: int|
        internal_bytes(
            g,
            g.in_blocks(4096).place(i),
            4096,
            g.in_blocks(128),
            32,
            lowers_at(g, p) - (uppers_at(g, p) + i * internal_of(p.bytes(), 32768).size),
            internal_of(p.bytes(), 4096).size as nat,
            s.upper@[i],
            p,
        )
}

pub open spec fn lower_piece(g: Dims, s: Samples, p: Precision) -> spec_fn(int) -> Seq<u8> {
    |i: int|
        internal_bytes(
            g,
            g.in_blocks(128).place(i),
            128,
            g.in_blocks(8),
            16,
            leaves_at(g, p) - (lowers_at(g, p) + i * internal_of(p.bytes(), 4096).size),
            leaf_of(p.bytes()).size as nat,
            s.lower@[i],
            p,
        )
}

pub open spec fn leaf_pieces(g: Dims, s: Samples, p: Precision) -> spec_fn(int) -> Seq<u8> {
    |i: int| leaf_bytes(g, g.in_blocks(8).place(i), s.values@, s.leaf@[i], p)
}

/// A grid: its data, its tree, the root and its tiles, and the nodes.
pub open spec fn grid_bytes(
    g: UniformGrid,
    fr: Frame,
    name: Seq<char>,
    s: Samples,
    p: Precision,
) -> Seq<u8> {
    let e = extent(g);
    let nu = e.in_blocks(4096).volume() as int;
    let nl = e.in_blocks(128).volume() as int;
    let nf = e.in_blocks(8).volume() as int;
    grid_data(g, fr, name, p) + tree_data(e, p) + root_bytes(e, s.root, p) + stacked(
        nu,
        tile_piece(e, p),
    ) + stacked(nu, upper_piece(e, s, p)) + stacked(nl, lower_piece(e, s, p)) + stacked(
        nf,
        leaf_pieces(e, s, p),
    )
}

fn push_tiles(b: &mut Vec<u8>, grid: &UniformGrid, p: Precision, at: &Parts)
    requires
        is_block(*grid),
        has_room(*grid, p),
        at.uppers == uppers_at(extent(*grid), p),
        at.lowers == lowers_at(extent(*grid), p),
    ensures
        final(b)@ == old(b)@ + stacked(
            extent(*grid).in_blocks(4096).volume() as int,
            tile_piece(extent(*grid), p),
        ),
{
    let ghost start = b@;
    let ghost e = extent(*grid);
    let ghost piece = tile_piece(e, p);
    let (_, _, upper) = node_counts(grid);
    proof {
        lemma_counts(*grid, 4096);
        lemma_part_sizes(e, p);
    }
    let l = root_tile_layout(p.width());
    let big = internal_layout(p.width(), UPPER_LOG2DIM);
    let n: usize = volume_of(&upper);
    let mut i: usize = 0;
    assert(b@ =~= start + stacked(0, piece));
    while i < n
        invariant
            i <= n,
            is_block(*grid),
            has_room(*grid, p),
            e == extent(*grid),
            upper@ == e.in_blocks(4096),
            n == upper@.volume(),
            l == tile_of(p.bytes()),
            big == internal_of(p.bytes(), 32768),
            big.size == 270_400,
            at.uppers == uppers_at(e, p),
            at.lowers == lowers_at(e, p),
            800 <= at.uppers,
            at.lowers <= i64::MAX,
            at.lowers == at.uppers + n * 270_400,
            piece == tile_piece(e, p),
            b@ == start + stacked(i as int, piece),
        decreases n - i,
    {
        proof {
            lemma_block_inside(*grid, i as int, 4096);
        }
        let node = place_of(&upper, i);
        let mut a: Vec<u8> = Vec::new();
        assert(a@ =~= Seq::<u8>::empty());
        push_le(&mut a, coord_to_key(&node), 8);
        pad_to(&mut a, l.child);
        push_le(
            &mut a,
            (at.uppers + i * big.size - (GRID_DATA_SIZE + TREE_DATA_SIZE)) as u64,
            8,
        );
        pad_to(&mut a, l.state);
        push_le(&mut a, 0, 4);
        pad_to(&mut a, l.value);
        push_value(&mut a, Scalar { bits: 0 }, p);
        pad_to(&mut a, l.size);
        assert(a@ == piece(i as int));
        push_all(b, &a);
        i = i + 1;
        assert(b@ =~= start + stacked(i as int, piece));
    }
}

fn push_uppers(b: &mut Vec<u8>, grid: &UniformGrid, s: &Samples, p: Precision, at: &Parts)
    requires
        is_block(*grid),
        has_room(*grid, p),
        s.cover(*grid),
        at.uppers == uppers_at(extent(*grid), p),
        at.lowers == lowers_at(extent(*grid), p),
        at.leaves == leaves_at(extent(*grid), p),
    ensures
        final(b)@ == old(b)@ + stacked(
            extent(*grid).in_blocks(4096).volume() as int,
            upper_piece(extent(*grid), *s, p),
        ),
{
    let ghost start = b@;
    let ghost e = extent(*grid);
    let ghost piece = upper_piece(e, *s, p);
    let g = Triple { x: grid.nx, y: grid.ny, z: grid.nz };
    let (_, lower, upper) = node_counts(grid);
    proof {
        lemma_counts(*grid, 4096);
        lemma_counts(*grid, 128);
        lemma_part_sizes(e, p);
    }
    let big = internal_layout(p.width(), UPPER_LOG2DIM);
    let small = internal_layout(p.width(), LOWER_LOG2DIM);
    let n: usize = volume_of(&upper);
    let mut i: usize = 0;
    assert(b@ =~= start + stacked(0, piece));
    while i < n
        invariant
            i <= n,
            is_block(*grid),
            s.cover(*grid),
            e == extent(*grid),
            g@ == e,
            upper@ == e.in_blocks(4096),
            lower@ == e.in_blocks(128),
            lower@.volume() <= usize::MAX,
            n == upper@.volume(),
            big == internal_of(p.bytes(), 32768),
            big.size == 270_400,
            small == internal_of(p.bytes(), 4096),
            small.size == 33_856,
            at.uppers == uppers_at(e, p),
            at.lowers == lowers_at(e, p),
            at.lowers == at.uppers + n * 270_400,
            at.lowers + lower@.volume() * 33_856 <= i64::MAX,
            piece == upper_piece(e, *s, p),
            b@ == start + stacked(i as int, piece),
        decreases n - i,
    {
        proof {
            lemma_block_inside(*grid, i as int, 4096);
        }
        let node = place_of(&upper, i);
        let far: u64 = (at.lowers - (at.uppers + i * big.size)) as u64;
        push_internal(b, &g, &node, 4096, &lower, 32, far, small.size, &s.upper[i], p);
        i = i + 1;
        assert(b@ =~= start + stacked(i as int, piece));
    }
}

fn push_lowers(b: &mut Vec<u8>, grid: &UniformGrid, s: &Samples, p: Precision, at: &Parts)
    requires
        is_block(*grid),
        has_room(*grid, p),
        s.cover(*grid),
        at.lowers == lowers_at(extent(*grid), p),
        at.leaves == leaves_at(extent(*grid), p),
        at.size == grid_size(extent(*grid), p),
    ensures
        final(b)@ == old(b)@ + stacked(
            extent(*grid).in_blocks(128).volume() as int,
            lower_piece(extent(*grid), *s, p),
        ),
{
    let ghost start = b@;
    let ghost e = extent(*grid);
    let ghost piece = lower_piece(e, *s, p);
    let g = Triple { x: grid.nx, y: grid.ny, z: grid.nz };
    let (leaf, lower, _) = node_counts(grid);
    proof {
        lemma_counts(*grid, 8);
        lemma_counts(*grid, 128);
        lemma_part_sizes(e, p);
    }
    let small = internal_layout(p.width(), LOWER_LOG2DIM);
    let end = leaf_layout(p.width());
    let n: usize = volume_of(&lower);
    let mut i: usize = 0;
    assert(b@ =~= start + stacked(0, piece));
    while i < n
        invariant
            i <= n,
            is_block(*grid),
            s.cover(*grid),
            e == extent(*grid),
            g@ == e,
            leaf@ == e.in_blocks(8),
            lower@ == e.in_blocks(128),
            leaf@.volume() <= usize::MAX,
            n == lower@.volume(),
            small == internal_of(p.bytes(), 4096),
            small.size == 33_856,
            end == leaf_of(p.bytes()),
            at.lowers == lowers_at(e, p),
            at.leaves == leaves_at(e, p),
            at.leaves == at.lowers + n * 33_856,
            at.leaves + leaf@.volume() * end.size <= i64::MAX,
            piece == lower_piece(e, *s, p),
            b@ == start + stacked(i as int, piece),
        decreases n - i,
    {
        proof {
            lemma_block_inside(*grid, i as int, 128);
        }
        let node = place_of(&lower, i);
        let far: u64 = (at.leaves - (at.lowers + i * small.size)) as u64;
        push_internal(b, &g, &node, 128, &leaf, 16, far, end.size, &s.lower[i], p);
        i = i + 1;
        assert(b@ =~= start + stacked(i as int, piece));
    }
}

fn push_leaves(b: &mut Vec<u8>, grid: &UniformGrid, s: &Samples, p: Precision)
    requires
        is_block(*grid),
        s.cover(*grid),
    ensures
        final(b)@ == old(b)@ + stacked(
            extent(*grid).in_blocks(8).volume() as int,
            leaf_pieces(extent(*grid), *s, p),
        ),
{
    let ghost start = b@;
    let ghost e = extent(*grid);
    let ghost piece = leaf_pieces(e, *s, p);
    let g = Triple { x: grid.nx, y: grid.ny, z: grid.nz };
    let (leaf, _, _) = node_counts(grid);
    proof {
        lemma_counts(*grid, 8);
    }
    let n: usize = volume_of(&leaf);
    let mut i: usize = 0;
    assert(b@ =~= start + stacked(0, piece));
    while i < n
        invariant
            i <= n,
            is_block(*grid),
            s.cover(*grid),
            e == extent(*grid),
            g@ == e,
            leaf@ == e.in_blocks(8),
            n == leaf@.volume(),
            piece == leaf_pieces(e, *s, p),
            b@ == start + stacked(i as int, piece),
        decreases n - i,
    {
        proof {
            lemma_block_inside(*grid, i as int, 8);
        }
        let node = place_of(&leaf, i);
        push_leaf(b, &g, &node, &s.values, &s.leaf[i], p);
        i = i + 1;
        assert(b@ =~= start + stacked(i as int, piece));
    }
}

/// Build a grid.
pub fn build_blob(grid: &UniformGrid, frame: &Frame, name: &str, s: &Samples, p: Precision) -> (b: Vec<
    u8,
>)
    requires
        is_block(*grid),
        has_room(*grid, p),
        s.cover(*grid),
    ensures
        b@ == grid_bytes(*grid, *frame, name@, *s, p),
{
    let at = find_parts(grid, p);
    let mut b = write_grid_data(grid, frame, name, p, at.size);
    push_all(&mut b, &write_tree_data(grid, p, &at));
    push_all(&mut b, &write_root(grid, &s.root, p));
    push_tiles(&mut b, grid, p, &at);
    push_uppers(&mut b, grid, s, p, &at);
    push_lowers(&mut b, grid, s, p, &at);
    push_leaves(&mut b, grid, s, p);
    b
}

// --------------------------------------------------------------------------
//  Files
// --------------------------------------------------------------------------
/// The number that names are looked up by: FNV-1a, over the first `n` bytes.
pub open spec fn hash_of(b: Seq<u8>, n: int) -> u64
    decreases n,
{
    if n <= 0 {
        0xcbf2_9ce4_8422_2325
    } else {
        let h = hash_of(b, n - 1) ^ (b[n - 1] as u64);
        ((h * 0x100_0000_01b3) % 0x1_0000_0000_0000_0000) as u64
    }
}

/// The number of a name.
pub fn string_hash(s: &str) -> (h: u64)
    ensures
        h == hash_of(encoded(s@), encoded(s@).len() as int),
{
    let b = bytes_of(s);
    let mut h: u64 = 0xcbf2_9ce4_8422_2325;
    let mut i: usize = 0;
    while i < b.len()
        invariant
            i <= b.len(),
            h == hash_of(b@, i as int),
        decreases b.len() - i,
    {
        h = h ^ (b[i] as u64);
        let wide: u128 = (h as u128) * 0x100_0000_01b3u128;
        h = (wide % 0x1_0000_0000_0000_0000u128) as u64;
        i = i + 1;
    }
    h
}

/// The header and the meta data of a segment.
pub open spec fn segment_head(g: UniformGrid, fr: Frame, name: Seq<char>, p: Precision) -> Seq<u8> {
    let e = extent(g);
    let size = grid_size(e, p);
    let key = hash_of(encoded(name), encoded(name).len() as int);
    Seq::<u8>::empty() + le(MAGIC_FILE as int, 8) + le(VERSION as int, 4) + le(1, 2) + le(
        CODEC_NONE as int,
        2,
    ) + le(size, 8) + le(size, 8) + le(key as int, 8) + le(e.volume() as int, 8) + le(
        grid_type(p) as int,
        4,
    ) + le(GRID_CLASS_FOG_VOLUME as int, 4) + vector_bytes(fr.lo) + vector_bytes(fr.hi) + le(0, 4)
        + le(0, 4) + le(0, 4) + le(e.x - 1, 4) + le(e.y - 1, 4) + le(e.z - 1, 4) + vector_bytes(
        g.spacing,
    ) + le((encoded(name).len() + 1) as int, 4) + le(e.in_blocks(8).volume() as int, 4) + le(
        e.in_blocks(128).volume() as int,
        4,
    ) + le(e.in_blocks(4096).volume() as int, 4) + le(1, 4) + le(0, 4) + le(0, 4) + le(0, 4) + le(
        CODEC_NONE as int,
        2,
    ) + le(0, 2) + le(VERSION as int, 4)
}

/// A segment: its head, the name with a zero behind it, and the grid. A name of 256
/// bytes or more has no place in a grid.
#[verifier::opaque]
pub open spec fn segment(
    g: UniformGrid,
    fr: Frame,
    name: Seq<char>,
    s: Samples,
    p: Precision,
) -> Result<Seq<u8>, Failure> {
    if encoded(name).len() >= 256 {
        Err(Failure::Field { field: name, msg: long_name_text() })
    } else {
        Ok(
            segment_head(g, fr, name, p) + encoded(name) + le(0, 1) + grid_bytes(g, fr, name, s, p),
        )
    }
}

pub open spec fn long_name_text() -> Seq<char> {
    "grid name is 256 bytes or longer; nvdb writer does not use the long-grid-name blind-data path"@
}

fn long_name_message() -> (r: String)
    ensures
        r@ == long_name_text(),
{
    let mut s = copy("grid name is 256 bytes or longer; nvdb writer does not use the long-grid-name blind-data path");
    s
}

pub open spec fn cell_count_text(got: nat, want: nat) -> Seq<char> {
    decimal(got)
        + " values but the grid has "@
        + decimal(want)
        + " cells"@
}

pub(crate) fn cell_count_message(got: usize, want: usize) -> (r: String)
    ensures
        r@ == cell_count_text(got as nat, want as nat),
{
    let mut s = String::new();
    push_decimal(&mut s, got as u64);
    push_text(&mut s, " values but the grid has ");
    push_decimal(&mut s, want as u64);
    push_text(&mut s, " cells");
    assert(s@ =~= cell_count_text(got as nat, want as nat));
    s
}

fn write_segment_head(
    g: &UniformGrid,
    fr: &Frame,
    name: &str,
    name_size: usize,
    p: Precision,
    size: usize,
) -> (b: Vec<u8>)
    requires
        is_block(*g),
        name_size < 256,
        name_size == encoded(name@).len(),
        size == grid_size(extent(*g), p),
    ensures
        b@ == segment_head(*g, *fr, name@, p),
{
    proof {
        lemma_counts(*g, 8);
        lemma_counts(*g, 128);
        lemma_counts(*g, 4096);
    }
    let (leaf, lower, upper) = node_counts(g);
    let mut b: Vec<u8> = Vec::new();
    assert(b@ =~= Seq::<u8>::empty());
    push_le(&mut b, MAGIC_FILE, 8);
    push_le(&mut b, VERSION as u64, 4);
    push_le(&mut b, 1, 2);
    push_le(&mut b, CODEC_NONE as u64, 2);
    push_le(&mut b, size as u64, 8);
    push_le(&mut b, size as u64, 8);
    push_le(&mut b, string_hash(name), 8);
    push_le(&mut b, g.n() as u64, 8);
    push_le(&mut b, find_type(p) as u64, 4);
    push_le(&mut b, GRID_CLASS_FOG_VOLUME as u64, 4);
    push_vector(&mut b, &fr.lo);
    push_vector(&mut b, &fr.hi);
    push_le(&mut b, 0, 4);
    push_le(&mut b, 0, 4);
    push_le(&mut b, 0, 4);
    push_le(&mut b, (g.nx - 1) as u64, 4);
    push_le(&mut b, (g.ny - 1) as u64, 4);
    push_le(&mut b, (g.nz - 1) as u64, 4);
    push_vector(&mut b, &g.spacing);
    push_le(&mut b, (name_size + 1) as u64, 4);
    push_le(&mut b, volume_of(&leaf) as u64, 4);
    push_le(&mut b, volume_of(&lower) as u64, 4);
    push_le(&mut b, volume_of(&upper) as u64, 4);
    push_le(&mut b, 1, 4);
    push_le(&mut b, 0, 4);
    push_le(&mut b, 0, 4);
    push_le(&mut b, 0, 4);
    push_le(&mut b, CODEC_NONE as u64, 2);
    push_le(&mut b, 0, 2);
    push_le(&mut b, VERSION as u64, 4);
    b
}

/// Append the segment of one grid.
pub fn append_segment(
    out: &mut Vec<u8>,
    grid: &UniformGrid,
    frame: &Frame,
    name: &str,
    s: &Samples,
    p: Precision,
) -> (r: Result<(), Error>)
    requires
        is_block(*grid),
        has_room(*grid, p),
        s.cover(*grid),
    ensures
        match (r, segment(*grid, *frame, name@, *s, p)) {
            (Ok(_), Ok(b)) => final(out)@ == old(out)@ + b,
            (Err(e), Err(f)) => e@ == f && final(out)@ == old(out)@,
            _ => false,
        },
{
    proof {
        reveal(segment);
    }
    let text = bytes_of(name);
    if text.len() >= 256 {
        return Err(Error::Field { field: copy(name), msg: long_name_message() });
    }
    let at = find_parts(grid, p);
    let blob = build_blob(grid, frame, name, s, p);
    let mut b = write_segment_head(grid, frame, name, text.len(), p, at.size);
    push_all(&mut b, &text);
    push_le(&mut b, 0, 1);
    push_all(&mut b, &blob);
    push_all(out, &b);
    Ok(())
}

/// The values of a field on a grid. A vector has its components and its magnitude:
/// as one grid of vectors it would not open everywhere.
#[derive(Debug, Clone)]
pub enum GridValues {
    Scalar(Samples),
    Vector { x: Samples, y: Samples, z: Samples, mag: Samples },
}

/// A named field on a grid.
#[derive(Debug, Clone)]
pub struct GridField {
    pub name: String,
    pub values: GridValues,
}

impl GridField {
    /// The grids that a field makes, with the endings of their names.
    pub open spec fn grids(self) -> Seq<(Seq<char>, Samples)> {
        match self.values {
            GridValues::Scalar(s) => seq![(self.name@, s)],
            GridValues::Vector { x, y, z, mag } => seq![
                (self.name@ + ".x"@, x),
                (self.name@ + ".y"@, y),
                (self.name@ + ".z"@, z),
                (self.name@ + ".mag"@, mag),
            ],
        }
    }

    /// The number of its values.
    pub open spec fn count(self) -> nat {
        self.grids()[0].1.values.len() as nat
    }

    /// As many values in every grid, and the statistics of every node.
    pub open spec fn whole(self, g: UniformGrid) -> bool {
        forall|i: int|
            0 <= i < self.grids().len() ==> (#[trigger] self.grids()[i]).1.values.len()
                == self.count() && self.grids()[i].1.has_statistics(g)
    }
}

/// A field with as many values as there are cells.
pub open spec fn counted(f: GridField, g: UniformGrid) -> Result<(), Failure> {
    if f.count() != extent(g).volume() {
        Err(Failure::Field {
            field: f.name@,
            msg: cell_count_text(f.count(), extent(g).volume()),
        })
    } else {
        Ok(())
    }
}

/// Bytes in front of others, where there are such.
pub open spec fn in_front(b: Seq<u8>, r: Result<Seq<u8>, Failure>) -> Result<Seq<u8>, Failure> {
    match r {
        Ok(c) => Ok(b + c),
        Err(f) => Err(f),
    }
}

proof fn lemma_in_front(a: Seq<u8>, b: Seq<u8>, r: Result<Seq<u8>, Failure>)
    ensures
        in_front(a + b, r) == in_front(a, in_front(b, r)),
        in_front(Seq::empty(), r) == r,
        in_front(a, Ok(Seq::empty())) == Ok::<Seq<u8>, Failure>(a),
{
    match r {
        Ok(c) => {
            assert((a + b) + c =~= a + (b + c));
            assert(Seq::<u8>::empty() + c =~= c);
        },
        Err(_) => {},
    }
    assert(a + Seq::<u8>::empty() =~= a);
}

/// The segments of some grids, from the `i`-th on.
pub open spec fn segments(
    g: UniformGrid,
    fr: Frame,
    grids: Seq<(Seq<char>, Samples)>,
    p: Precision,
    i: int,
) -> Result<Seq<u8>, Failure>
    decreases grids.len() - i,
{
    if i < 0 || i >= grids.len() {
        Ok(Seq::empty())
    } else {
        match segment(g, fr, grids[i].0, grids[i].1, p) {
            Ok(b) => in_front(b, segments(g, fr, grids, p, i + 1)),
            Err(f) => Err(f),
        }
    }
}

/// The segments of some fields, from the `i`-th on.
pub open spec fn all_segments(
    g: UniformGrid,
    fr: Frame,
    fields: Seq<GridField>,
    p: Precision,
    i: int,
) -> Result<Seq<u8>, Failure>
    decreases fields.len() - i,
{
    if i < 0 || i >= fields.len() {
        Ok(Seq::empty())
    } else {
        match counted(fields[i], g) {
            Err(f) => Err(f),
            Ok(_) => match segments(g, fr, fields[i].grids(), p, 0) {
                Ok(b) => in_front(b, all_segments(g, fr, fields, p, i + 1)),
                Err(f) => Err(f),
            },
        }
    }
}

pub open spec fn empty_grid_text(kind: Seq<char>, nx: nat, ny: nat, nz: nat) -> Seq<char> {
    kind
        + ": grid dims must all be positive, got "@
        + decimal(nx)
        + "x"@
        + decimal(ny)
        + "x"@
        + decimal(nz)
}

pub(crate) fn empty_grid_message(kind: &str, nx: usize, ny: usize, nz: usize) -> (r: String)
    ensures
        r@ == empty_grid_text(kind@, nx as nat, ny as nat, nz as nat),
{
    let mut s = copy(kind);
    push_text(&mut s, ": grid dims must all be positive, got ");
    push_decimal(&mut s, nx as u64);
    push_text(&mut s, "x");
    push_decimal(&mut s, ny as u64);
    push_text(&mut s, "x");
    push_decimal(&mut s, nz as u64);
    s
}

/// The file of some fields on a grid.
pub open spec fn file_of(g: UniformGrid, fr: Frame, fields: Seq<GridField>, p: Precision) -> Result<
    Seq<u8>,
    Failure,
> {
    if g.nx == 0 || g.ny == 0 || g.nz == 0 {
        Err(Failure::Config(empty_grid_text("nvdb"@, g.nx as nat, g.ny as nat, g.nz as nat)))
    } else if fields.len() == 0 {
        Err(Failure::Config("nvdb: no fields to write"@))
    } else {
        all_segments(g, fr, fields, p, 0)
    }
}

fn ended(name: &str, ending: &str) -> (s: String)
    ensures
        s@ == name@ + ending@,
{
    let mut s = copy(name);
    push_text(&mut s, ending);
    s
}

fn append_field(
    out: &mut Vec<u8>,
    grid: &UniformGrid,
    frame: &Frame,
    field: &GridField,
    p: Precision,
) -> (r: Result<(), Error>)
    requires
        is_block(*grid),
        has_room(*grid, p),
        field.whole(*grid),
        field.count() == extent(*grid).volume(),
    ensures
        match (r, segments(*grid, *frame, field.grids(), p, 0)) {
            (Ok(_), Ok(b)) => final(out)@ == old(out)@ + b,
            (Err(e), Err(f)) => e@ == f,
            _ => false,
        },
{
    let ghost start = out@;
    let ghost gs = field.grids();
    let ghost rest = |i: int| segments(*grid, *frame, gs, p, i);
    match &field.values {
        GridValues::Scalar(s) => {
            assert(gs[0].1.cover(*grid));
            proof {
                reveal_with_fuel(segments, 2);
            }
            match append_segment(out, grid, frame, &field.name, s, p) {
                Ok(_) => {
                    assert(out@ =~= start + rest(0)->Ok_0);
                    Ok(())
                },
                Err(e) => Err(e),
            }
        },
        GridValues::Vector { x, y, z, mag } => {
            assert(gs[0].1.cover(*grid) && gs[1].1.cover(*grid));
            assert(gs[2].1.cover(*grid) && gs[3].1.cover(*grid));
            proof {
                reveal_with_fuel(segments, 5);
            }
            match append_segment(out, grid, frame, &ended(&field.name, ".x"), x, p) {
                Ok(_) => {},
                Err(e) => {
                    return Err(e);
                },
            }
            match append_segment(out, grid, frame, &ended(&field.name, ".y"), y, p) {
                Ok(_) => {},
                Err(e) => {
                    return Err(e);
                },
            }
            match append_segment(out, grid, frame, &ended(&field.name, ".z"), z, p) {
                Ok(_) => {},
                Err(e) => {
                    return Err(e);
                },
            }
            match append_segment(out, grid, frame, &ended(&field.name, ".mag"), mag, p) {
                Ok(_) => {
                    assert(out@ =~= start + rest(0)->Ok_0);
                    Ok(())
                },
                Err(e) => Err(e),
            }
        },
    }
}

fn field_count(field: &GridField) -> (r: usize)
    ensures
        r == field.count(),
{
    match &field.values {
        GridValues::Scalar(s) => s.values.len(),
        GridValues::Vector { x, y: _, z: _, mag: _ } => x.values.len(),
    }
}

/// Write fields on a grid: one segment for a field of numbers, and four for a field
/// of vectors.
pub fn write(
    grid: &UniformGrid,
    frame: &Frame,
    fields: &Vec<GridField>,
    precision: Precision,
) -> (r: Result<Vec<u8>, Error>)
    requires
        grid.nx > 0 && grid.ny > 0 && grid.nz > 0 ==> is_block(*grid) && has_room(
            *grid,
            precision,
        ),
        forall|i: int| 0 <= i < fields.len() ==> (#[trigger] fields@[i]).whole(*grid),
    ensures
        match (r, file_of(*grid, *frame, fields@, precision)) {
            (Ok(a), Ok(b)) => a@ == b,
            (Err(e), Err(f)) => e@ == f,
            _ => false,
        },
{
    if grid.nx == 0 || grid.ny == 0 || grid.nz == 0 {
        return Err(Error::Config(empty_grid_message("nvdb", grid.nx, grid.ny, grid.nz)));
    }
    if fields.len() == 0 {
        return Err(Error::Config(copy("nvdb: no fields to write")));
    }
    let n: usize = grid.n();
    let mut out: Vec<u8> = Vec::new();
    let ghost whole = all_segments(*grid, *frame, fields@, precision, 0);
    proof {
        assert(out@ =~= Seq::empty());
        lemma_in_front(Seq::empty(), Seq::empty(), whole);
    }
    let mut i: usize = 0;
    while i < fields.len()
        invariant
            i <= fields.len(),
            is_block(*grid),
            has_room(*grid, precision),
            n == extent(*grid).volume(),
            forall|i: int| 0 <= i < fields.len() ==> (#[trigger] fields@[i]).whole(*grid),
            whole == file_of(*grid, *frame, fields@, precision),
            whole == in_front(
                out@,
                all_segments(*grid, *frame, fields@, precision, i as int),
            ),
        decreases fields.len() - i,
    {
        let got: usize = field_count(&fields[i]);
        if got != n {
            return Err(
                Error::Field { field: copy(&fields[i].name), msg: cell_count_message(got, n) },
            );
        }
        let ghost was = out@;
        match append_field(&mut out, grid, frame, &fields[i], precision) {
            Ok(_) => {},
            Err(e) => {
                return Err(e);
            },
        }
        proof {
            let b = segments(*grid, *frame, fields@[i as int].grids(), precision, 0)->Ok_0;
            lemma_in_front(
                was,
                b,
                all_segments(*grid, *frame, fields@, precision, i + 1),
            );
        }
        i = i + 1;
    }
    proof {
        lemma_in_front(out@, Seq::empty(), whole);
    }
    Ok(out)
}

// --------------------------------------------------------------------------
//  What a node's statistics run over
// --------------------------------------------------------------------------
/// The cells of the first `n` slots of a leaf, in their order.
pub open spec fn cells_below(g: Dims, leaf: Dims, n: int) -> Seq<int>
    decreases n,
{
    if n <= 0 {
        Seq::empty()
    } else {
        match leaf_cell(g, leaf, n - 1) {
            Some(c) => cells_below(g, leaf, n - 1).push(c),
            None => cells_below(g, leaf, n - 1),
        }
    }
}

/// The cells of a leaf, in the order in which they are summed.
pub fn leaf_cells(grid: &UniformGrid, i: usize) -> (r: Vec<usize>)
    requires
        is_block(*grid),
        i < extent(*grid).in_blocks(8).volume(),
    ensures
        r@.map_values(|c: usize| c as int) == cells_below(
            extent(*grid),
            extent(*grid).in_blocks(8).place(i as int),
            512,
        ),
{
    let g = Triple { x: grid.nx, y: grid.ny, z: grid.nz };
    let (leaves, _, _) = node_counts(grid);
    proof {
        lemma_block_inside(*grid, i as int, 8);
    }
    let leaf = place_of(&leaves, i);
    let mut r: Vec<usize> = Vec::new();
    let mut n: usize = 0;
    assert(r@.map_values(|c: usize| c as int) =~= Seq::empty());
    while n < 512
        invariant
            n <= 512,
            is_block_of(g@, leaf@, 8),
            g@.volume() <= usize::MAX,
            r@.map_values(|c: usize| c as int) == cells_below(g@, leaf@, n as int),
        decreases 512 - n,
    {
        let c = slot_place(&leaf, 8, n);
        let ghost was = r@.map_values(|c: usize| c as int);
        if contains(&g, &c) {
            let k: usize = number_of(&g, &c);
            r.push(k);
            assert(r@.map_values(|c: usize| c as int) =~= was.push(k as int));
        }
        n = n + 1;
    }
    r
}

/// The place that number `n` of a block of side `f` stands for, the first
/// coordinate running fastest.
pub open spec fn spot(node: Dims, f: nat, n: int) -> Dims {
    Dims {
        x: node.x * f + (n % f as int) as nat,
        y: node.y * f + ((n / f as int) % f as int) as nat,
        z: node.z * f + (n / (f * f) as int) as nat,
    }
}

/// The nodes below a node, in the order in which they are summed: of the first `n`
/// spots those that there are.
pub open spec fn nodes_below(below: Dims, node: Dims, f: nat, n: int) -> Seq<int>
    decreases n,
{
    if n <= 0 {
        Seq::empty()
    } else {
        let c = spot(node, f, n - 1);
        if below.holds(c) {
            nodes_below(below, node, f, n - 1).push(below.number(c))
        } else {
            nodes_below(below, node, f, n - 1)
        }
    }
}

/// The lower nodes of an upper node, or the leaves of a lower one, in the order in
/// which they are summed.
pub fn node_members(grid: &UniformGrid, upper: bool, i: usize) -> (r: Vec<usize>)
    requires
        is_block(*grid),
        upper ==> i < extent(*grid).in_blocks(4096).volume(),
        !upper ==> i < extent(*grid).in_blocks(128).volume(),
    ensures
        r@.map_values(|c: usize| c as int) == (if upper {
            nodes_below(
                extent(*grid).in_blocks(128),
                extent(*grid).in_blocks(4096).place(i as int),
                32,
                32768,
            )
        } else {
            nodes_below(
                extent(*grid).in_blocks(8),
                extent(*grid).in_blocks(128).place(i as int),
                16,
                4096,
            )
        }),
{
    let (leaves, lowers, uppers) = node_counts(grid);
    proof {
        lemma_counts(*grid, 8);
        lemma_counts(*grid, 128);
    }
    if upper {
        proof {
            lemma_block_inside(*grid, i as int, 4096);
            lemma_has_slots(
                extent(*grid),
                extent(*grid).in_blocks(4096).place(i as int),
                4096,
                32,
            );
        }
        list_members(&lowers, &place_of(&uppers, i), 32)
    } else {
        proof {
            lemma_block_inside(*grid, i as int, 128);
            lemma_has_slots(extent(*grid), extent(*grid).in_blocks(128).place(i as int), 128, 16);
        }
        list_members(&leaves, &place_of(&lowers, i), 16)
    }
}

fn list_members(below: &Triple, node: &Triple, f: usize) -> (r: Vec<usize>)
    requires
        f == 16 || f == 32,
        has_slots(node@, f as nat),
        below@.volume() <= usize::MAX,
    ensures
        r@.map_values(|c: usize| c as int) == nodes_below(
            below@,
            node@,
            f as nat,
            (f * f * f) as int,
        ),
{
    let slots: usize = if f == 16 { 4096 } else { 32768 };
    proof {
        lemma_cube(f as nat);
    }
    let mut r: Vec<usize> = Vec::new();
    let mut n: usize = 0;
    assert(r@.map_values(|c: usize| c as int) =~= Seq::empty());
    while n < slots
        invariant
            n <= slots,
            slots == f * f * f,
            f == 16 || f == 32,
            has_slots(node@, f as nat),
            below@.volume() <= usize::MAX,
            r@.map_values(|c: usize| c as int) == nodes_below(below@, node@, f as nat, n as int),
        decreases slots - n,
    {
        let ghost was = r@.map_values(|c: usize| c as int);
        let c = spot_place(node, f, n);
        if contains(below, &c) {
            let k: usize = number_of(below, &c);
            r.push(k);
            assert(r@.map_values(|c: usize| c as int) =~= was.push(k as int));
        }
        n = n + 1;
    }
    r
}

fn spot_place(p: &Triple, f: usize, n: usize) -> (r: Triple)
    requires
        f == 16 || f == 32,
        n < f * f * f,
        has_slots(p@, f as nat),
    ensures
        r@ == spot(p@, f as nat, n as int),
{
    proof {
        lemma_cube(f as nat);
    }
    let s = slot_place(p, f, n);
    let a: usize = n / (f * f);
    let c: usize = n % f;
    proof {
        if f == 16 {
            assert(n / 256 < 16 && n % 16 < 16);
        } else {
            assert(n / 1024 < 32 && n % 32 < 32);
        }
    }
    Triple { x: p.x * f + c, y: s.y, z: p.z * f + a }
}

// --------------------------------------------------------------------------
//  What a reader finds
// --------------------------------------------------------------------------
pub(crate) proof fn lemma_value_len(v: Scalar, p: Precision)
    ensures
        value_bytes(v, p).len() == p.bytes(),
{
    lemma_le_len(single(v) as nat, 4);
    lemma_le_len(half(single(v)) as nat, 2);
}

/// The offsets of a leaf.
pub(crate) proof fn lemma_leaf_offsets(p: Precision)
    ensures
        ({
            let l = leaf_of(p.bytes());
            let w = p.bytes();
            &&& l.bbox_dif == 12 && l.flags == 15 && l.value_mask == 16 && l.minimum == 80
            &&& l.maximum == 80 + w && l.average == 80 + 2 * w && l.stddev == 84 + 2 * w
            &&& l.values == 96 && l.size == 96 + 512 * w && l.value_width == w
        }),
{
    reveal(leaf_of);
    lemma_aligned(12, 1, 12);
    lemma_aligned(15, 1, 15);
    lemma_aligned(16, 8, 2);
    match p {
        Precision::F32 => {
            lemma_aligned(80, 4, 20);
            lemma_aligned(84, 4, 21);
            lemma_aligned(88, 4, 22);
            lemma_aligned(92, 4, 23);
            lemma_aligned(96, 32, 3);
            lemma_aligned(96, 8, 12);
            lemma_aligned(2144, 32, 67);
            let l = leaf_of(4);
            assert(l.bbox_dif == 12 && l.flags == 15 && l.value_mask == 16 && l.minimum == 80);
            assert(l.maximum == 84 && l.average == 88 && l.stddev == 92);
            assert(l.values == 96 && l.size == 2144 && l.value_width == 4);
        },
        Precision::F16 => {
            lemma_aligned(80, 2, 40);
            lemma_aligned(82, 2, 41);
            lemma_aligned(84, 4, 21);
            lemma_aligned(88, 4, 22);
            lemma_aligned_up(92, 32, 2, 28);
            lemma_aligned(96, 8, 12);
            lemma_aligned(1120, 32, 35);
            let l = leaf_of(2);
            assert(l.bbox_dif == 12 && l.flags == 15 && l.value_mask == 16 && l.minimum == 80);
            assert(l.maximum == 82 && l.average == 84 && l.stddev == 88);
            assert(l.values == 96 && l.size == 1120 && l.value_width == 2);
        },
    }
}

pub(crate) proof fn lemma_stat_len(
    b: Seq<u8>,
    minimum: usize,
    st: NodeStat,
    p: Precision,
    average: usize,
    stddev: usize,
    maximum: usize,
)
    requires
        b.len() == minimum,
        maximum == minimum + p.bytes(),
        average == maximum + p.bytes(),
        stddev == average + 4,
    ensures
        with_stat(b, minimum, maximum, average, stddev, st, p).len() == stddev + 4,
        with_stat(b, minimum, maximum, average, stddev, st, p).take(minimum as int) == b,
{
    broadcast use lemma_le_len;

    lemma_value_len(st.minimum, p);
    lemma_value_len(st.maximum, p);
    assert(with_stat(b, minimum, maximum, average, stddev, st, p).take(minimum as int) =~= b);
}

/// A leaf fills its size; its mask stands at byte 16 and its values at byte 96.
pub proof fn leaves_are_laid_out(g: Dims, leaf: Dims, v: Seq<Scalar>, st: NodeStat, p: Precision)
    ensures
        ({
            let b = leaf_bytes(g, leaf, v, st, p);
            &&& b.len() == leaf_of(p.bytes()).size
            &&& b.len() == 96 + 512 * p.bytes()
            &&& b.subrange(16, 80) == mask_of(leaf_flags(g, leaf))
            &&& b.subrange(96, (96 + 512 * p.bytes()) as int) == stacked(
                512,
                leaf_piece(g, leaf, v, p),
            )
        }),
{
    broadcast use lemma_le_len;

    reveal(leaf_bytes);
    lemma_leaf_offsets(p);
    let w = p.bytes();
    let l = leaf_of(w);
    let a = Seq::<u8>::empty() + le((leaf.x * 8) as int, 4) + le((leaf.y * 8) as int, 4) + le(
        (leaf.z * 8) as int,
        4,
    );
    let b = padded(a, l.bbox_dif as int) + le(last_cell(leaf.x * 8, 8, g.x) - leaf.x * 8, 1) + le(
        last_cell(leaf.y * 8, 8, g.y) - leaf.y * 8,
        1,
    ) + le(last_cell(leaf.z * 8, 8, g.z) - leaf.z * 8, 1);
    let c = padded(b, l.flags as int) + le(0x12, 1);
    let m = mask_of(leaf_flags(g, leaf));
    assert(m.len() == 64);
    let d = padded(c, l.value_mask as int) + m;
    assert(d.len() == 80);
    assert(d.subrange(16, 80) =~= m);
    lemma_stat_len(d, l.minimum, st, p, l.average, l.stddev, l.maximum);
    let e = with_stat(d, l.minimum, l.maximum, l.average, l.stddev, st, p);
    assert(e.len() == 88 + 2 * w);
    let piece = leaf_piece(g, leaf, v, p);
    assert forall|k: int| 0 <= k < 512 implies (#[trigger] piece(k)).len() == w by {
        match leaf_cell(g, leaf, k) {
            Some(c) => lemma_value_len(v[c], p),
            None => {},
        }
    }
    crate::bytes::stacked_in_place(512, piece, w, 0);
    let s = stacked(512, piece);
    assert(s.len() == 512 * w);
    let f = padded(e, 96) + s;
    assert(f.len() == 96 + 512 * w);
    assert(f.subrange(96, (96 + 512 * w) as int) =~= s);
    assert(f.subrange(16, 80) =~= e.take(80).subrange(16, 80));
}

/// A cell inside the grid is one of the slots of its leaf.
pub(crate) proof fn lemma_slot_of_cell(c: Dims, f: nat)
    requires
        f > 0,
    ensures
        0 <= c.slot_number(f) < f * f * f,
        c.over(f).slot(f, c.slot_number(f)) == c,
{
    let a = (c.x % f) as int;
    let b = (c.y % f) as int;
    let d = (c.z % f) as int;
    let k = f as int;
    let n = c.slot_number(f);
    assert(0 <= a < k && 0 <= b < k && 0 <= d < k) by {
        vstd::arithmetic::div_mod::lemma_mod_bound(c.x as int, k);
        vstd::arithmetic::div_mod::lemma_mod_bound(c.y as int, k);
        vstd::arithmetic::div_mod::lemma_mod_bound(c.z as int, k);
    }
    assert(n == a * (k * k) + (b * k + d));
    assert(0 <= b * k + d < k * k) by (nonlinear_arith)
        requires
            0 <= b < k,
            0 <= d < k,
    ;
    assert(0 <= a * (k * k) && a * (k * k) + k * k <= k * k * k) by (nonlinear_arith)
        requires
            0 <= a < k,
    ;
    let r = b * k + d;
    vstd::arithmetic::div_mod::lemma_fundamental_div_mod_converse(n, k * k, a, r);
    let q = a * k + b;
    assert(n == q * k + d) by (nonlinear_arith)
        requires
            n == a * (k * k) + (b * k + d),
            q == a * k + b,
    ;
    vstd::arithmetic::div_mod::lemma_fundamental_div_mod_converse(n, k, q, d);
    vstd::arithmetic::div_mod::lemma_fundamental_div_mod_converse(q, k, a, b);
    vstd::arithmetic::div_mod::lemma_fundamental_div_mod(c.x as int, k);
    vstd::arithmetic::div_mod::lemma_fundamental_div_mod(c.y as int, k);
    vstd::arithmetic::div_mod::lemma_fundamental_div_mod(c.z as int, k);
    let h = c.over(f);
    assert(h.x * f + a == c.x) by {
        vstd::arithmetic::mul::lemma_mul_is_commutative(h.x as int, k);
    }
    assert(h.y * f + b == c.y) by {
        vstd::arithmetic::mul::lemma_mul_is_commutative(h.y as int, k);
    }
    assert(h.z * f + d == c.z) by {
        vstd::arithmetic::mul::lemma_mul_is_commutative(h.z as int, k);
    }
}

proof fn lemma_tile_of_cell(n: nat, c: nat, d: nat)
    requires
        d > 0,
        c < n,
    ensures
        c / d < tiles(n, d),
{
    lemma_tiles(n, d);
    let t = tiles(n, d) as int;
    let q = (c / d) as int;
    vstd::arithmetic::div_mod::lemma_fundamental_div_mod(c as int, d as int);
    assert(q < t) by (nonlinear_arith)
        requires
            d * q <= c,
            c < n,
            n <= t * d,
            d > 0,
    ;
}

/// The leaf of a cell, and the cell's slot in it.
pub open spec fn leaf_of_cell(g: Dims, c: Dims) -> int {
    g.in_blocks(8).number(c.over(8))
}

/// Every cell of the grid is stored: in its slot of its leaf, the mask has its bit
/// and the bytes are those of its value.
pub proof fn every_cell_is_stored(g: UniformGrid, s: Samples, p: Precision, c: Dims)
    requires
        is_block(g),
        s.cover(g),
        extent(g).holds(c),
    ensures
        ({
            let e = extent(g);
            let i = leaf_of_cell(e, c);
            let n = c.slot_number(8);
            let w = p.bytes();
            let b = leaf_pieces(e, s, p)(i);
            &&& 0 <= i < e.in_blocks(8).volume()
            &&& 0 <= n < 512
            &&& (b[16 + n / 8] as nat / crate::bytes::bit(n % 8)) % 2 == 1
            &&& b.subrange(96 + n * w, 96 + (n + 1) * w) == value_bytes(s.values@[e.number(c)], p)
        }),
{
    let e = extent(g);
    let h = c.over(8);
    let i = leaf_of_cell(e, c);
    let n = c.slot_number(8);
    let w = p.bytes();
    lemma_tile_of_cell(e.x, c.x, 8);
    lemma_tile_of_cell(e.y, c.y, 8);
    lemma_tile_of_cell(e.z, c.z, 8);
    numbers_name_places(e.in_blocks(8), h);
    lemma_slot_of_cell(c, 8);
    let st = s.leaf@[i];
    let b = leaf_pieces(e, s, p)(i);
    assert(b == leaf_bytes(e, h, s.values@, st, p));
    leaves_are_laid_out(e, h, s.values@, st, p);
    assert(leaf_cell(e, h, n) == Some(e.number(c)));
    let flags = leaf_flags(e, h);
    let on = |k: int| flags[k];
    crate::bytes::mask_holds_its_bits(64, on, n);
    assert(mask_of(flags) == crate::bytes::mask(64, on));
    assert(b[16 + n / 8] == b.subrange(16, 80)[n / 8]);
    let piece = leaf_piece(e, h, s.values@, p);
    assert forall|k: int| 0 <= k < 512 implies (#[trigger] piece(k)).len() == w by {
        match leaf_cell(e, h, k) {
            Some(x) => lemma_value_len(s.values@[x], p),
            None => {},
        }
    }
    crate::bytes::stacked_in_place(512, piece, w, n);
    assert(piece(n) == value_bytes(s.values@[e.number(c)], p));
    let all = b.subrange(96, (96 + 512 * w) as int);
    assert(b.subrange(96 + n * w, 96 + (n + 1) * w) =~= all.subrange(n * w, (n + 1) * w));
}

/// The offsets of an inner node: `m` is the size of a mask.
pub(crate) proof fn lemma_internal_offsets(p: Precision, slots: nat)
    requires
        slots == 4096 || slots == 32768,
    ensures
        ({
            let l = internal_of(p.bytes(), slots);
            let w = p.bytes();
            let m = slots / 8;
            &&& l.flags == 24 && l.value_mask == 32 && l.child_mask == 32 + m
            &&& l.minimum == 32 + 2 * m && l.maximum == 32 + 2 * m + w
            &&& l.average == 32 + 2 * m + 2 * w && l.stddev == 36 + 2 * m + 2 * w
            &&& l.table == 64 + 2 * m && l.size == 64 + 2 * m + 8 * slots
        }),
{
    match p {
        Precision::F32 => {
            if slots == 4096 {
                lemma_internal_numbers(4, 4096);
            } else {
                lemma_internal_numbers(4, 32768);
            }
        },
        Precision::F16 => {
            if slots == 4096 {
                lemma_internal_numbers(2, 4096);
            } else {
                lemma_internal_numbers(2, 32768);
            }
        },
    }
}

proof fn lemma_internal_numbers(w: nat, slots: nat)
    requires
        w == 2 || w == 4,
        slots == 4096 || slots == 32768,
    ensures
        ({
            let l = internal_of(w, slots);
            let m = slots / 8;
            &&& l.flags == 24 && l.value_mask == 32 && l.child_mask == 32 + m
            &&& l.minimum == 32 + 2 * m && l.maximum == 32 + 2 * m + w
            &&& l.average == 32 + 2 * m + 2 * w && l.stddev == 36 + 2 * m + 2 * w
            &&& l.table == 64 + 2 * m && l.size == 64 + 2 * m + 8 * slots
        }),
{
    reveal(internal_of);
    let m = slots / 8;
    lemma_aligned(24, 8, 3);
    lemma_aligned(32, 8, 4);
    let t: nat = if slots == 4096 {
        16
    } else {
        128
    };
    assert(m == 32 * t && slots == 256 * t);
    lemma_aligned(32 + m, 8, 4 + 4 * t);
    if w == 4 {
        lemma_aligned(32 + 2 * m, 4, 8 + 16 * t);
        lemma_aligned(36 + 2 * m, 4, 9 + 16 * t);
        lemma_aligned(40 + 2 * m, 4, 10 + 16 * t);
        lemma_aligned(44 + 2 * m, 4, 11 + 16 * t);
        lemma_aligned_up(48 + 2 * m, 32, 1 + 2 * t, 16);
    } else {
        lemma_aligned(32 + 2 * m, 2, 16 + 32 * t);
        lemma_aligned(34 + 2 * m, 2, 17 + 32 * t);
        lemma_aligned(36 + 2 * m, 4, 9 + 16 * t);
        lemma_aligned(40 + 2 * m, 4, 10 + 16 * t);
        lemma_aligned_up(44 + 2 * m, 32, 1 + 2 * t, 12);
    }
    lemma_aligned(64 + 2 * m, 8, 8 + 8 * t);
    lemma_aligned(64 + 2 * m + 8 * slots, 32, 2 + 66 * t);
}

/// An inner node fills its size; its mask of children and its table stand at their
/// offsets.
pub proof fn inner_nodes_are_laid_out(
    g: Dims,
    node: Dims,
    span: nat,
    below: Dims,
    f: nat,
    far: int,
    size: nat,
    st: NodeStat,
    p: Precision,
)
    requires
        f == 16 || f == 32,
    ensures
        ({
            let b = internal_bytes(g, node, span, below, f, far, size, st, p);
            let l = internal_of(p.bytes(), f * f * f);
            let slots = (f * f * f) as int;
            &&& b.len() == l.size
            &&& b.subrange(l.child_mask as int, l.child_mask + slots / 8) == mask_of(
                child_flags(below, node, f),
            )
            &&& b.subrange(l.table as int, l.table + 8 * slots) == stacked(
                slots,
                child_piece(below, node, f, far, size),
            )
        }),
{
    broadcast use lemma_le_len;

    reveal(internal_bytes);
    let slots = f * f * f;
    lemma_cube(f);
    lemma_internal_offsets(p, slots);
    let w = p.bytes();
    let l = internal_of(w, slots);
    let o = node.times(span);
    let a = Seq::<u8>::empty() + le(o.x as int, 4) + le(o.y as int, 4) + le(o.z as int, 4) + le(
        last_cell(o.x, span, g.x),
        4,
    ) + le(last_cell(o.y, span, g.y), 4) + le(last_cell(o.z, span, g.z), 4);
    assert(a.len() == 24);
    let b = padded(a, l.flags as int) + le(0, 8);
    assert(b.len() == 32);
    let m = mask_of(child_flags(below, node, f));
    assert(m.len() == slots / 8);
    let c = padded(b, l.child_mask as int) + m;
    assert(c.len() == l.minimum);
    assert(c.subrange(l.child_mask as int, l.minimum as int) =~= m);
    lemma_stat_len(c, l.minimum, st, p, l.average, l.stddev, l.maximum);
    let d = with_stat(c, l.minimum, l.maximum, l.average, l.stddev, st, p);
    let piece = child_piece(below, node, f, far, size);
    assert forall|k: int| 0 <= k < slots implies (#[trigger] piece(k)).len() == 8 by {}
    crate::bytes::stacked_in_place(slots as int, piece, 8, 0);
    let t = stacked(slots as int, piece);
    let e = padded(d, l.table as int) + t;
    assert(e.len() == l.size);
    assert(e.subrange(l.table as int, l.table + 8 * slots) =~= t);
    assert(e.subrange(l.child_mask as int, l.minimum as int) =~= d.take(
        l.minimum as int,
    ).subrange(l.child_mask as int, l.minimum as int));
}

/// The entry of a child leads from its node to it: in slot `n` stands the distance
/// to child `k`, and the mask has its bit.
pub proof fn children_are_found(
    g: Dims,
    node: Dims,
    span: nat,
    below: Dims,
    f: nat,
    far: int,
    size: nat,
    st: NodeStat,
    p: Precision,
    n: int,
    k: int,
)
    requires
        f == 16 || f == 32,
        0 <= n < f * f * f,
        child_number(below, node, f, n) == Some(k),
        0 <= far + k * size < crate::bytes::byte_pow(8),
    ensures
        ({
            let b = internal_bytes(g, node, span, below, f, far, size, st, p);
            let l = internal_of(p.bytes(), f * f * f);
            &&& crate::bytes::le_value(b.subrange(l.table + 8 * n, l.table + 8 * n + 8)) == far + k
                * size
            &&& (b[l.child_mask + n / 8] as nat / crate::bytes::bit(n % 8)) % 2 == 1
        }),
{
    broadcast use lemma_le_len;

    let slots = f * f * f;
    lemma_cube(f);
    let b = internal_bytes(g, node, span, below, f, far, size, st, p);
    let l = internal_of(p.bytes(), slots);
    inner_nodes_are_laid_out(g, node, span, below, f, far, size, st, p);
    lemma_internal_offsets(p, slots);
    let piece = child_piece(below, node, f, far, size);
    assert forall|j: int| 0 <= j < slots implies (#[trigger] piece(j)).len() == 8 by {}
    crate::bytes::stacked_in_place(slots as int, piece, 8, n);
    let t = b.subrange(l.table as int, l.table + 8 * slots);
    assert(b.subrange(l.table + 8 * n, l.table + 8 * n + 8) =~= t.subrange(n * 8, (n + 1) * 8));
    assert(piece(n) == le(far + k * size, 8));
    crate::bytes::le_reads_back((far + k * size) as nat, 8);
    let flags = child_flags(below, node, f);
    let on = |j: int| flags[j];
    crate::bytes::mask_holds_its_bits(slots / 8, on, n);
    assert(mask_of(flags) == crate::bytes::mask(slots / 8, on));
    let m = b.subrange(l.child_mask as int, l.child_mask + slots / 8);
    assert(b[l.child_mask + n / 8] == m[n / 8]);
}

proof fn lemma_head_lens(g: UniformGrid, fr: Frame, name: Seq<char>, s: Samples, p: Precision)
    requires
        encoded(name).len() < 256,
    ensures
        grid_data(g, fr, name, p).len() == 672,
        tree_data(extent(g), p).len() == 64,
        root_bytes(extent(g), s.root, p).len() == 64,
{
    broadcast use lemma_le_len;

    lemma_value_len(Scalar { bits: 0 }, p);
    lemma_value_len(s.root.minimum, p);
    lemma_value_len(s.root.maximum, p);
    reveal(grid_data);
    reveal(tree_data);
    reveal(root_bytes);
    lemma_root_numbers(p.bytes());
    assert(map_bytes(g, fr).len() == 264);
}

proof fn lemma_tile_len(g: Dims, p: Precision, i: int)
    ensures
        tile_piece(g, p)(i).len() == 32,
{
    broadcast use lemma_le_len;

    lemma_value_len(Scalar { bits: 0 }, p);
    lemma_root_numbers(p.bytes());
}

proof fn lemma_stack_lens(g: UniformGrid, s: Samples, p: Precision)
    ensures
        ({
            let e = extent(g);
            let nu = e.in_blocks(4096).volume() as int;
            let nl = e.in_blocks(128).volume() as int;
            let nf = e.in_blocks(8).volume() as int;
            &&& stacked(nu, tile_piece(e, p)).len() == nu * 32
            &&& stacked(nu, upper_piece(e, s, p)).len() == nu * 270_400
            &&& stacked(nl, lower_piece(e, s, p)).len() == nl * 33_856
            &&& stacked(nf, leaf_pieces(e, s, p)).len() == nf * leaf_of(p.bytes()).size
        }),
{
    let e = extent(g);
    let nu = e.in_blocks(4096).volume() as int;
    let nl = e.in_blocks(128).volume() as int;
    let nf = e.in_blocks(8).volume() as int;
    lemma_part_sizes(e, p);
    let tp = tile_piece(e, p);
    let up = upper_piece(e, s, p);
    let lp = lower_piece(e, s, p);
    let fp = leaf_pieces(e, s, p);
    assert forall|k: int| 0 <= k < nu implies (#[trigger] tp(k)).len() == 32 by {
        lemma_tile_len(e, p, k);
    }
    assert forall|k: int| 0 <= k < nu implies (#[trigger] up(k)).len() == 270_400 by {
        inner_nodes_are_laid_out(
            e,
            e.in_blocks(4096).place(k),
            4096,
            e.in_blocks(128),
            32,
            lowers_at(e, p) - (uppers_at(e, p) + k * internal_of(p.bytes(), 32768).size),
            internal_of(p.bytes(), 4096).size as nat,
            s.upper@[k],
            p,
        );
    }
    assert forall|k: int| 0 <= k < nl implies (#[trigger] lp(k)).len() == 33_856 by {
        inner_nodes_are_laid_out(
            e,
            e.in_blocks(128).place(k),
            128,
            e.in_blocks(8),
            16,
            leaves_at(e, p) - (lowers_at(e, p) + k * internal_of(p.bytes(), 4096).size),
            leaf_of(p.bytes()).size as nat,
            s.lower@[k],
            p,
        );
    }
    let w = leaf_of(p.bytes()).size as nat;
    assert forall|k: int| 0 <= k < nf implies (#[trigger] fp(k)).len() == w by {
        leaves_are_laid_out(e, e.in_blocks(8).place(k), s.values@, s.leaf@[k], p);
    }
    crate::bytes::stacked_in_place(nu, tp, 32, 0);
    crate::bytes::stacked_in_place(nu, up, 270_400, 0);
    crate::bytes::stacked_in_place(nl, lp, 33_856, 0);
    crate::bytes::stacked_in_place(nf, fp, w, 0);
}

/// A grid fills its size, and its nodes stand at their offsets: the upper nodes, the
/// lower ones and the leaves, each kind at multiples of its size.
pub proof fn nodes_are_in_place(g: UniformGrid, fr: Frame, name: Seq<char>, s: Samples, p: Precision)
    requires
        is_block(g),
        s.cover(g),
        encoded(name).len() < 256,
    ensures
        ({
            let e = extent(g);
            let b = grid_bytes(g, fr, name, s, p);
            let nu = e.in_blocks(4096).volume() as int;
            let nl = e.in_blocks(128).volume() as int;
            let nf = e.in_blocks(8).volume() as int;
            &&& b.len() == grid_size(e, p)
            &&& b.subrange(uppers_at(e, p), lowers_at(e, p)) == stacked(nu, upper_piece(e, s, p))
            &&& b.subrange(lowers_at(e, p), leaves_at(e, p)) == stacked(nl, lower_piece(e, s, p))
            &&& b.subrange(leaves_at(e, p), grid_size(e, p)) == stacked(nf, leaf_pieces(e, s, p))
        }),
{
    let e = extent(g);
    let nu = e.in_blocks(4096).volume() as int;
    let nl = e.in_blocks(128).volume() as int;
    let nf = e.in_blocks(8).volume() as int;
    lemma_part_sizes(e, p);
    lemma_head_lens(g, fr, name, s, p);
    let tp = tile_piece(e, p);
    let up = upper_piece(e, s, p);
    let lp = lower_piece(e, s, p);
    let fp = leaf_pieces(e, s, p);
    lemma_stack_lens(g, s, p);
    let h = grid_data(g, fr, name, p) + tree_data(e, p) + root_bytes(e, s.root, p) + stacked(nu, tp);
    assert(h.len() == uppers_at(e, p));
    lemma_join(h, stacked(nu, up), stacked(nl, lp), stacked(nf, fp));
}

proof fn lemma_join(h: Seq<u8>, u: Seq<u8>, l: Seq<u8>, f: Seq<u8>)
    ensures
        ({
            let b = h + u + l + f;
            let i = h.len() as int;
            let j = i + u.len();
            let k = j + l.len();
            &&& b.len() == k + f.len()
            &&& b.subrange(i, j) == u
            &&& b.subrange(j, k) == l
            &&& b.subrange(k, k + f.len()) == f
        }),
{
    let b = h + u + l + f;
    let i = h.len() as int;
    let j = i + u.len();
    let k = j + l.len();
    assert(b.subrange(i, j) =~= u);
    assert(b.subrange(j, k) =~= l);
    assert(b.subrange(k, k + f.len()) =~= f);
}

} // verus!
