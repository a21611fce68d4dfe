use ofgpu::mesh::Vec3;
use ofgpu::narrow::f32_to_f16_bits;
use ofgpu::nvdb::{
    ceil_div, coord_to_key, internal_layout, leaf_cells, leaf_layout, node_counts, node_members,
    number_of, place_of, root_layout, root_tile_layout, Frame, GridField, GridValues,
    InternalLayout, LeafLayout, NodeStat, Precision, Samples, Single3, Triple, UniformGrid,
    FILE_HEADER_SIZE, FILE_META_SIZE, GRID_CLASS_FOG_VOLUME, GRID_DATA_SIZE, GRID_TYPE_FLOAT,
    GRID_TYPE_HALF, LEAF_DIM, LOWER_LOG2DIM, MAGIC_FILE, TREE_DATA_SIZE, UPPER_DIM, UPPER_LOG2DIM,
};
use ofgpu::scalar::Scalar;

fn sc(v: f64) -> Scalar {
    Scalar { bits: v.to_bits() }
}

fn fl(s: Scalar) -> f64 {
    f64::from_bits(s.bits)
}

fn vec3(x: f64, y: f64, z: f64) -> Vec3 {
    Vec3 { x: sc(x), y: sc(y), z: sc(z) }
}

fn get_u16(b: &[u8], off: usize) -> u16 {
    u16::from_le_bytes([b[off], b[off + 1]])
}

fn get_u32(b: &[u8], off: usize) -> u32 {
    u32::from_le_bytes([b[off], b[off + 1], b[off + 2], b[off + 3]])
}

fn get_i32(b: &[u8], off: usize) -> i32 {
    get_u32(b, off) as i32
}

fn get_u64(b: &[u8], off: usize) -> u64 {
    let mut a = [0u8; 8];
    a.copy_from_slice(&b[off..off + 8]);
    u64::from_le_bytes(a)
}

fn get_i64(b: &[u8], off: usize) -> i64 {
    get_u64(b, off) as i64
}

fn get_f32(b: &[u8], off: usize) -> f32 {
    f32::from_bits(get_u32(b, off))
}

fn get_f64(b: &[u8], off: usize) -> f64 {
    f64::from_bits(get_u64(b, off))
}

fn mask_bit(b: &[u8], mask: usize, n: u32) -> bool {
    (get_u64(b, mask + 8 * (n as usize / 64)) >> (n % 64)) & 1 != 0
}

fn get_value(b: &[u8], off: usize, precision: Precision) -> f64 {
    match precision {
        Precision::F32 => get_f32(b, off) as f64,
        Precision::F16 => f16_bits_to_f32(get_u16(b, off)) as f64,
    }
}

fn f16_bits_to_f32(bits: u16) -> f32 {
    let sign: f64 = if bits & 0x8000 != 0 { -1.0 } else { 1.0 };
    let exp = ((bits >> 10) & 0x1f) as i32;
    let mant = (bits & 0x3ff) as f64;
    let value = if exp == 0 {
        sign * mant * 2f64.powi(-24)
    } else if exp == 31 {
        if mant == 0.0 { sign * f64::INFINITY } else { f64::NAN }
    } else {
        sign * (1.0 + mant / 1024.0) * 2f64.powi(exp - 15)
    };
    value as f32
}

fn half_bits(v: f32) -> u16 {
    f32_to_f16_bits(v.to_bits())
}

#[derive(Clone, Copy)]
struct Stats {
    count: u64,
    sum: f64,
    sumsq: f64,
    min: f64,
    max: f64,
}

impl Stats {
    fn empty() -> Stats {
        Stats { count: 0, sum: 0.0, sumsq: 0.0, min: f64::INFINITY, max: f64::NEG_INFINITY }
    }

    fn add(&mut self, o: Stats) {
        self.count += o.count;
        self.sum += o.sum;
        self.sumsq += o.sumsq;
        self.min = self.min.min(o.min);
        self.max = self.max.max(o.max);
    }

    fn node(&self) -> NodeStat {
        let n = self.count as f64;
        let avg = self.sum / n;
        let var = (self.sumsq / n - avg * avg).max(0.0);
        NodeStat {
            minimum: sc(self.min),
            maximum: sc(self.max),
            average: (avg as f32).to_bits(),
            deviation: (var.sqrt() as f32).to_bits(),
        }
    }
}

fn samples(grid: &UniformGrid, values: &[f64]) -> Samples {
    let (leaf, lower, upper) = node_counts(grid);
    let one = |v: f64| Stats { count: 1, sum: v, sumsq: v * v, min: v, max: v };
    let mut levels: Vec<Vec<Stats>> = Vec::new();
    let whole = values.len() == grid.n();
    for (d, n) in [leaf, lower, upper].iter().enumerate() {
        let mut level = Vec::new();
        for i in 0..n.x * n.y * n.z {
            let mut s = Stats::empty();
            if whole && d == 0 {
                for c in leaf_cells(grid, i) {
                    s.add(one(values[c]));
                }
            } else if whole {
                for c in node_members(grid, d == 2, i) {
                    s.add(levels[d - 1][c]);
                }
            }
            level.push(s);
        }
        levels.push(level);
    }
    let mut root = Stats::empty();
    for s in &levels[2] {
        root.add(*s);
    }
    let nodes = |d: usize| levels[d].iter().map(|s| s.node()).collect::<Vec<_>>();
    Samples {
        values: values.iter().map(|v| sc(*v)).collect(),
        root: root.node(),
        upper: nodes(2),
        lower: nodes(1),
        leaf: nodes(0),
    }
}

fn frame(g: &UniformGrid) -> Frame {
    let at = |o: Scalar, d: Scalar, n: f64| sc(fl(o) + fl(d) * n);
    let below = |o: Scalar, d: Scalar| sc(fl(o) - 0.5 * fl(d));
    let inverse = |d: Scalar| 1.0 / fl(d);
    Frame {
        lo: Vec3 {
            x: below(g.origin.x, g.spacing.x),
            y: below(g.origin.y, g.spacing.y),
            z: below(g.origin.z, g.spacing.z),
        },
        hi: Vec3 {
            x: at(g.origin.x, g.spacing.x, g.nx as f64 - 0.5),
            y: at(g.origin.y, g.spacing.y, g.ny as f64 - 0.5),
            z: at(g.origin.z, g.spacing.z, g.nz as f64 - 0.5),
        },
        inverse: vec3(inverse(g.spacing.x), inverse(g.spacing.y), inverse(g.spacing.z)),
        inverse_single: Single3 {
            x: (1.0 / fl(g.spacing.x) as f32).to_bits(),
            y: (1.0 / fl(g.spacing.y) as f32).to_bits(),
            z: (1.0 / fl(g.spacing.z) as f32).to_bits(),
        },
    }
}

fn scalar_field(grid: &UniformGrid, name: &str, values: &[f64]) -> GridField {
    GridField { name: name.to_string(), values: GridValues::Scalar(samples(grid, values)) }
}

fn vector_field(grid: &UniformGrid, name: &str, u: &[[f64; 3]]) -> GridField {
    let part = |k: usize| samples(grid, &u.iter().map(|v| v[k]).collect::<Vec<_>>());
    GridField {
        name: name.to_string(),
        values: GridValues::Vector {
            x: part(0),
            y: part(1),
            z: part(2),
            mag: samples(grid, &u.iter().map(mag).collect::<Vec<_>>()),
        },
    }
}

fn mag(v: &[f64; 3]) -> f64 {
    (v[0] * v[0] + v[1] * v[1] + v[2] * v[2]).sqrt()
}

fn lone_field(name: &str, values: &[f64]) -> GridField {
    let s = Stats::empty().node();
    GridField {
        name: name.to_string(),
        values: GridValues::Scalar(Samples {
            values: values.iter().map(|v| sc(*v)).collect(),
            root: s,
            upper: vec![],
            lower: vec![],
            leaf: vec![],
        }),
    }
}

struct ReadSegment {
    name: String,
    grid_type: u32,
    grid_class: u32,
    voxel_count: u64,
    node_count: [u32; 4],
    index_bbox: [i32; 6],
    world_bbox: [f64; 6],
    voxel_size: [f64; 3],
    nx: usize,
    ny: usize,
    nz: usize,
    values: Vec<f64>, // dense, idx = i + nx*(j + ny*k); NAN where inactive
}

fn read_all(bytes: &[u8]) -> Vec<ReadSegment> {
    let mut out = Vec::new();
    let mut pos = 0usize;
    while pos + FILE_HEADER_SIZE <= bytes.len() {
        let magic = get_u64(bytes, pos);
        assert_eq!(magic, MAGIC_FILE, "not a NanoVDB file segment at byte {pos}");
        let grid_count = get_u16(bytes, pos + 12);
        assert_eq!(grid_count, 1, "reader only handles one grid per segment");
        let mut p = pos + FILE_HEADER_SIZE;

        let grid_size = get_u64(bytes, p);
        let grid_type = get_u32(bytes, p + 32);
        let grid_class = get_u32(bytes, p + 36);
        let world_bbox = [
            get_f64(bytes, p + 40), get_f64(bytes, p + 48), get_f64(bytes, p + 56),
            get_f64(bytes, p + 64), get_f64(bytes, p + 72), get_f64(bytes, p + 80),
        ];
        let index_bbox = [
            get_i32(bytes, p + 88), get_i32(bytes, p + 92), get_i32(bytes, p + 96),
            get_i32(bytes, p + 100), get_i32(bytes, p + 104), get_i32(bytes, p + 108),
        ];
        let voxel_size = [get_f64(bytes, p + 112), get_f64(bytes, p + 120), get_f64(bytes, p + 128)];
        let name_size = get_u32(bytes, p + 136) as usize;
        let node_count = [
            get_u32(bytes, p + 140), get_u32(bytes, p + 144),
            get_u32(bytes, p + 148), get_u32(bytes, p + 152),
        ];
        p += FILE_META_SIZE;
        let name = String::from_utf8_lossy(&bytes[p..p + name_size - 1]).into_owned();
        p += name_size;

        let grid_off = p;
        let tree_off = grid_off + GRID_DATA_SIZE;
        let voxel_count = get_u64(bytes, tree_off + 56); // TreeData::mVoxelCount
        let precision = match grid_type {
            GRID_TYPE_FLOAT => Precision::F32,
            GRID_TYPE_HALF => Precision::F16,
            other => panic!("unexpected grid type {other}"),
        };

        let nx = (index_bbox[3] - index_bbox[0] + 1) as usize;
        let ny = (index_bbox[4] - index_bbox[1] + 1) as usize;
        let nz = (index_bbox[5] - index_bbox[2] + 1) as usize;
        let mut values = vec![f64::NAN; nx * ny * nz];

        let w = precision.width();
        let leaf_lay = leaf_layout(w);
        let lower_lay = internal_layout(w, LOWER_LOG2DIM);
        let upper_lay = internal_layout(w, UPPER_LOG2DIM);
        let root_lay = root_layout(w);
        let tile_lay = root_tile_layout(w);

        let root_off = tree_off + get_i64(bytes, tree_off + 24) as usize;
        let table_size = get_u32(bytes, root_off + root_lay.table_size) as usize;

        for t in 0..table_size {
            let tile_off = root_off + root_lay.size + t * tile_lay.size;
            let key = get_u64(bytes, tile_off + tile_lay.key);
            let child = get_i64(bytes, tile_off + tile_lay.child);
            let upper_off = (root_off as i64 + child) as usize;
            let upper_origin = key_to_coord(key, 12);
            read_internal(
                bytes, upper_off, &upper_lay, UPPER_LOG2DIM, upper_origin, UPPER_DIM / 32,
                precision, index_bbox, nx, ny, &lower_lay, &leaf_lay, &mut values,
                NodeKind::Upper,
            );
        }

        out.push(ReadSegment {
            name, grid_type, grid_class, voxel_count,
            node_count, index_bbox, world_bbox, voxel_size, nx, ny, nz, values,
        });
        pos = grid_off + grid_size as usize;
    }
    out
}

enum NodeKind {
    Upper,
    Lower,
}

fn read_internal(
    bytes: &[u8],
    off: usize,
    lay: &InternalLayout,
    log2dim: u32,
    origin: [i32; 3],
    child_span: usize,
    precision: Precision,
    index_bbox: [i32; 6],
    nx: usize,
    ny: usize,
    lower_lay: &InternalLayout,
    leaf_lay: &LeafLayout,
    values: &mut [f64],
    kind: NodeKind,
) {
    let fan = 1u32 << log2dim;
    for n in 0..lay.slots as u32 {
        if !mask_bit(bytes, off + lay.child_mask, n) {
            continue;
        }
        let a = n >> (2 * log2dim);
        let b = (n >> log2dim) & (fan - 1);
        let c = n & (fan - 1);
        let child_origin = [
            origin[0] + (a as i32) * child_span as i32,
            origin[1] + (b as i32) * child_span as i32,
            origin[2] + (c as i32) * child_span as i32,
        ];
        let table_off = off + lay.table + (n as usize) * lay.entry_size;
        let child_rel = get_i64(bytes, table_off);
        let child_off = (off as i64 + child_rel) as usize;
        match kind {
            NodeKind::Upper => {
                read_internal(
                    bytes, child_off, lower_lay, LOWER_LOG2DIM, child_origin, LEAF_DIM,
                    precision, index_bbox, nx, ny, lower_lay, leaf_lay, values,
                    NodeKind::Lower,
                );
            }
            NodeKind::Lower => {
                read_leaf(bytes, child_off, leaf_lay, child_origin, precision, index_bbox, nx, ny, values);
            }
        }
    }
}

fn read_leaf(
    bytes: &[u8],
    off: usize,
    lay: &LeafLayout,
    origin: [i32; 3],
    precision: Precision,
    index_bbox: [i32; 6],
    nx: usize,
    ny: usize,
    values: &mut [f64],
) {
    for lx in 0..LEAF_DIM as u32 {
        for ly in 0..LEAF_DIM as u32 {
            for lz in 0..LEAF_DIM as u32 {
                let n = (lx << 6) | (ly << 3) | lz;
                if !mask_bit(bytes, off + lay.value_mask, n) {
                    continue;
                }
                let gx = origin[0] + lx as i32;
                let gy = origin[1] + ly as i32;
                let gz = origin[2] + lz as i32;
                let i = (gx - index_bbox[0]) as usize;
                let j = (gy - index_bbox[1]) as usize;
                let k = (gz - index_bbox[2]) as usize;
                let v = get_value(bytes, off + lay.values + (n as usize) * lay.value_width, precision);
                values[i + nx * (j + ny * k)] = v;
            }
        }
    }
}

fn key_to_coord(key: u64, total: u32) -> [i32; 3] {
    let mask = 0x1f_ffffu64;
    let x = ((key >> 42) & mask) << total;
    let y = ((key >> 21) & mask) << total;
    let z = (key & mask) << total;
    [x as i32, y as i32, z as i32]
}

#[test]
fn layout_sizes_match_the_header() {
    assert_eq!(root_layout(4).size, 64);
    assert_eq!(root_layout(2).size, 64);
    assert_eq!(root_tile_layout(4).size, 32);
    assert_eq!(root_tile_layout(2).size, 32);
    assert_eq!(internal_layout(4, LOWER_LOG2DIM).size, 33_856);
    assert_eq!(internal_layout(2, LOWER_LOG2DIM).size, 33_856);
    assert_eq!(internal_layout(4, UPPER_LOG2DIM).size, 270_400);
    assert_eq!(internal_layout(2, UPPER_LOG2DIM).size, 270_400);
    assert_eq!(leaf_layout(4).size, 2144);
    assert_eq!(leaf_layout(2).size, 1120);
    assert_eq!(FILE_HEADER_SIZE, 16);
    assert_eq!(FILE_META_SIZE, 176);
    assert_eq!(GRID_DATA_SIZE, 672);
    assert_eq!(TREE_DATA_SIZE, 64);
    assert_eq!(MAGIC_FILE, 0x324244566f6e614e);
    for size in [
        root_layout(4).size, root_tile_layout(4).size,
        internal_layout(4, LOWER_LOG2DIM).size, internal_layout(4, UPPER_LOG2DIM).size,
        leaf_layout(4).size, leaf_layout(2).size,
    ] {
        assert_eq!(size % 32, 0, "every NANOVDB_ALIGN'd struct must be a multiple of 32 bytes");
    }
}

#[test]
fn node_counts_are_the_analytic_ceiling_division() {
    let grid = UniformGrid { nx: 20, ny: 5, nz: 33, origin: vec3(0.0, 0.0, 0.0), spacing: vec3(1.0, 1.0, 1.0) };
    let (leaf, lower, upper) = node_counts(&grid);
    assert_eq!([leaf.x, leaf.y, leaf.z], [ceil_div(20, 8), ceil_div(5, 8), ceil_div(33, 8)]);
    assert_eq!([leaf.x, leaf.y, leaf.z], [3, 1, 5]);
    assert_eq!([lower.x, lower.y, lower.z], [ceil_div(20, 128), ceil_div(5, 128), ceil_div(33, 128)]);
    assert_eq!([lower.x, lower.y, lower.z], [1, 1, 1]);
    assert_eq!([upper.x, upper.y, upper.z], [1, 1, 1]);
}

#[test]
fn half_conversion_round_trips_exact_values() {
    for &v in &[0.0f32, 1.0, -1.0, 2.0, 0.5, -0.5, 100.0, -293.0, 1173.0, 65504.0] {
        let bits = half_bits(v);
        let back = f16_bits_to_f32(bits);
        assert_eq!(back, v, "round trip of {v}");
    }
}

#[test]
fn half_conversion_rounds_a_temperature_to_its_nearest_half() {
    let half = f16_bits_to_f32(half_bits(1173.15));
    assert_eq!(half, 1173.0);
}

#[test]
fn half_conversion_known_bit_patterns() {
    assert_eq!(half_bits(1.0), 0x3c00);
    assert_eq!(half_bits(-1.0), 0xbc00);
    assert_eq!(half_bits(2.0), 0x4000);
    assert_eq!(half_bits(0.0), 0x0000);
    assert_eq!(half_bits(-0.0), 0x8000);
    assert_eq!(half_bits(f32::INFINITY), 0x7c00);
    assert_eq!(half_bits(f32::NEG_INFINITY), 0xfc00);
    assert!(f16_bits_to_f32(half_bits(f32::NAN)).is_nan());
}

#[test]
fn half_conversion_rounds_to_nearest_even() {
    let step = 2f32.powi(-10);
    let half_step = 2f32.powi(-11);
    let tie_at_even_mantissa = 1.0f32 + 0.0 * step + half_step;
    let tie_at_odd_mantissa = 1.0f32 + 1.0 * step + half_step;
    let b_even = half_bits(tie_at_even_mantissa);
    let b_odd = half_bits(tie_at_odd_mantissa);
    assert_eq!(b_even & 0x3ff, 0, "tie at mantissa 0 stays at the even mantissa (0)");
    assert_eq!(b_odd & 0x3ff, 2, "tie at mantissa 1 rounds up to the even mantissa (2)");
}

#[test]
fn half_conversion_smallest_subnormal_and_underflow() {
    let smallest = 2f32.powi(-24);
    assert_eq!(half_bits(smallest), 0x0001);
    assert_eq!(f16_bits_to_f32(0x0001), smallest);
    assert_eq!(half_bits(2f32.powi(-25)), 0x0000);
    assert_eq!(half_bits(2f32.powi(-25) * 1.5), 0x0001);
}

#[test]
fn half_conversion_overflow_to_infinity() {
    assert_eq!(half_bits(70000.0), 0x7c00);
    assert_eq!(half_bits(65520.0), 0x7c00); // rounds up past the largest finite half
}

fn make_grid(nx: usize, ny: usize, nz: usize) -> UniformGrid {
    UniformGrid {
        nx, ny, nz,
        origin: vec3(1.5, -2.0, 0.25),
        spacing: vec3(0.1, 0.2, 0.05),
    }
}

fn ramp_field(grid: &UniformGrid) -> Vec<f64> {
    let mut v = vec![0.0 as f64; grid.n()];
    for k in 0..grid.nz {
        for j in 0..grid.ny {
            for i in 0..grid.nx {
                let val = (i as f64) + 100.0 * (j as f64) + 10_000.0 * (k as f64) + 0.5;
                v[grid.idx(i, j, k)] = val;
            }
        }
    }
    v
}

#[test]
fn round_trips_every_voxel_bit_exact_at_fp32_small_grid() {
    let grid = make_grid(5, 4, 3);
    let field = ramp_field(&grid);
    let bytes =
        ofgpu::nvdb::write(&grid, &frame(&grid), &vec![scalar_field(&grid, "T", &field)], Precision::F32).expect("write");
    let segments = read_all(&bytes);
    assert_eq!(segments.len(), 1);
    let seg = &segments[0];
    assert_eq!(seg.name, "T");
    assert_eq!((seg.nx, seg.ny, seg.nz), (grid.nx, grid.ny, grid.nz));
    for k in 0..grid.nz {
        for j in 0..grid.ny {
            for i in 0..grid.nx {
                let want = field[grid.idx(i, j, k)] as f64;
                let got = seg.values[i + grid.nx * (j + grid.ny * k)];
                assert_eq!(got, want, "voxel ({i},{j},{k})");
            }
        }
    }
}

#[test]
fn round_trips_every_voxel_bit_exact_at_fp32_multi_node_grid() {
    let grid = make_grid(37, 21, 17); // spans several 8-leaves and crosses a 16-leaf lower boundary
    let field = ramp_field(&grid);
    let bytes =
        ofgpu::nvdb::write(&grid, &frame(&grid), &vec![scalar_field(&grid, "rho", &field)], Precision::F32).expect("write");
    let segments = read_all(&bytes);
    let seg = &segments[0];
    let (n_leaf, n_lower, n_upper) = node_counts(&grid);
    assert_eq!(seg.node_count[0], (n_leaf.x * n_leaf.y * n_leaf.z) as u32);
    assert_eq!(seg.node_count[1], (n_lower.x * n_lower.y * n_lower.z) as u32);
    assert_eq!(seg.node_count[2], (n_upper.x * n_upper.y * n_upper.z) as u32);
    assert_eq!(seg.node_count[3], 1);

    for k in 0..grid.nz {
        for j in 0..grid.ny {
            for i in 0..grid.nx {
                let want = field[grid.idx(i, j, k)] as f64;
                let got = seg.values[i + grid.nx * (j + grid.ny * k)];
                assert_eq!(got, want, "voxel ({i},{j},{k})");
            }
        }
    }
}

#[test]
fn fp16_round_trips_through_this_writers_own_reader() {
    let grid = make_grid(6, 5, 4);
    let mut field = vec![0.0 as f64; grid.n()];
    for (i, v) in field.iter_mut().enumerate() {
        *v = (293.15 + i as f64 * 0.37) as f64;
    }
    let bytes =
        ofgpu::nvdb::write(&grid, &frame(&grid), &vec![scalar_field(&grid, "T", &field)], Precision::F16).expect("write");
    let seg = &read_all(&bytes)[0];
    for idx in 0..grid.n() {
        let want = f16_bits_to_f32(half_bits(field[idx] as f32)) as f64;
        assert_eq!(seg.values[idx], want, "voxel {idx}");
    }
}

#[test]
fn vector_field_becomes_four_component_segments() {
    let grid = make_grid(4, 3, 2);
    let mut u = vec![[0.0; 3]; grid.n()];
    for k in 0..grid.nz {
        for j in 0..grid.ny {
            for i in 0..grid.nx {
                u[grid.idx(i, j, k)] = [i as f64, j as f64, k as f64];
            }
        }
    }
    let bytes =
        ofgpu::nvdb::write(&grid, &frame(&grid), &vec![vector_field(&grid, "U", &u)], Precision::F32).expect("write");
    let segments = read_all(&bytes);
    let names: Vec<&str> = segments.iter().map(|s| s.name.as_str()).collect();
    assert_eq!(names, ["U.x", "U.y", "U.z", "U.mag"]);

    let seg_x = &segments[0];
    let seg_mag = &segments[3];
    for k in 0..grid.nz {
        for j in 0..grid.ny {
            for i in 0..grid.nx {
                let idx = i + grid.nx * (j + grid.ny * k);
                assert_eq!(seg_x.values[idx], i as f64);
                let want_mag = (mag(&u[grid.idx(i, j, k)]) as f32) as f64;
                assert_eq!(seg_mag.values[idx], want_mag);
            }
        }
    }
}

#[test]
fn world_bbox_index_bbox_and_voxel_size_are_correct() {
    let grid = make_grid(10, 8, 6);
    let field = ramp_field(&grid);
    let bytes =
        ofgpu::nvdb::write(&grid, &frame(&grid), &vec![scalar_field(&grid, "p", &field)], Precision::F32).expect("write");
    let seg = &read_all(&bytes)[0];
    assert_eq!(seg.index_bbox, [0, 0, 0, 9, 7, 5]);
    assert_eq!(seg.voxel_size, [0.1f64, 0.2, 0.05]);
    assert_eq!(seg.grid_type, GRID_TYPE_FLOAT);
    assert_eq!(seg.grid_class, GRID_CLASS_FOG_VOLUME);
    assert_eq!(seg.voxel_count, grid.n() as u64);

    let (ox, oy, oz) = (1.5f64, -2.0, 0.25);
    let (dx, dy, dz) = (0.1f64, 0.2, 0.05);
    let want_min = [ox - 0.5 * dx, oy - 0.5 * dy, oz - 0.5 * dz];
    let want_max = [
        ox + dx * (10.0 - 0.5),
        oy + dy * (8.0 - 0.5),
        oz + dz * (6.0 - 0.5),
    ];
    for a in 0..3 {
        assert!((seg.world_bbox[a] - want_min[a]).abs() < 1e-12);
        assert!((seg.world_bbox[a + 3] - want_max[a]).abs() < 1e-12);
    }
}

#[test]
fn nvdb_rejects_a_field_length_that_does_not_match_the_grid() {
    let grid = make_grid(3, 3, 3);
    let field = vec![0.0 as f64; 5];
    let err = ofgpu::nvdb::write(&grid, &frame(&grid), &vec![scalar_field(&grid, "bad", &field)], Precision::F32)
        .unwrap_err();
    assert!(err.text().contains("bad"));
}

#[test]
fn nvdb_rejects_empty_dims_and_empty_field_list() {
    let field = vec![1.0 as f64; 1];
    let empty_grid = UniformGrid { nx: 0, ny: 1, nz: 1, origin: vec3(0.0, 0.0, 0.0), spacing: vec3(1.0, 1.0, 1.0) };
    assert!(ofgpu::nvdb::write(&empty_grid, &frame(&empty_grid), &vec![lone_field("a", &field)], Precision::F32).is_err());

    let grid = make_grid(2, 2, 2);
    assert!(ofgpu::nvdb::write(&grid, &frame(&grid), &vec![], Precision::F32).is_err());
}

#[test]
fn nodes_carry_the_statistics_of_their_cells() {
    let grid = make_grid(5, 4, 3);
    let field = ramp_field(&grid);
    let s = samples(&grid, &field);
    let bytes =
        ofgpu::nvdb::write(&grid, &frame(&grid), &vec![scalar_field(&grid, "T", &field)], Precision::F32)
            .expect("write");
    let root = FILE_HEADER_SIZE + FILE_META_SIZE + 2 + GRID_DATA_SIZE + TREE_DATA_SIZE;
    let lay = root_layout(4);
    assert_eq!(get_f32(&bytes, root + lay.minimum), 0.5);
    assert_eq!(get_f32(&bytes, root + lay.maximum), 20304.5);
    assert_eq!(get_u32(&bytes, root + lay.average), s.root.average);
    assert_eq!(get_u32(&bytes, root + lay.stddev), s.root.deviation);
}

#[test]
fn a_name_that_is_too_long_is_refused() {
    let grid = make_grid(2, 2, 2);
    let field = ramp_field(&grid);
    let long = "n".repeat(256);
    let e = ofgpu::nvdb::write(&grid, &frame(&grid), &vec![scalar_field(&grid, &long, &field)], Precision::F32)
        .unwrap_err()
        .text();
    assert!(e.contains("256 bytes or longer"), "{e}");
    let fits = "n".repeat(255);
    assert!(ofgpu::nvdb::write(&grid, &frame(&grid), &vec![scalar_field(&grid, &fits, &field)], Precision::F32)
        .is_ok());
}

#[test]
fn places_and_numbers_are_inverse() {
    let d = Triple { x: 3, y: 4, z: 5 };
    for i in 0..60 {
        let p = place_of(&d, i);
        assert_eq!(number_of(&d, &p), i);
    }
    assert_eq!(place_of(&d, 17), Triple { x: 2, y: 1, z: 1 });
    assert_eq!(coord_to_key(&Triple { x: 1, y: 2, z: 3 }), (1 << 42) | (2 << 21) | 3);
}
