use ofgpu::error::Error;
use ofgpu::mesh::Vec3;
use ofgpu::nvdb::{UniformGrid, LEAF_DIM, LOWER_DIM, LOWER_LOG2DIM, UPPER_LOG2DIM};
use ofgpu::output_types::OutputField;
use ofgpu::scalar::Scalar;
use ofgpu::vdb::{COMPRESS_NONE, MAGIC, NO_MASK_AND_ALL_VALS};

fn sc(v: f64) -> Scalar {
    Scalar { bits: v.to_bits() }
}

fn vec3(x: f64, y: f64, z: f64) -> Vec3 {
    Vec3 { x: sc(x), y: sc(y), z: sc(z) }
}

fn get_u32(b: &[u8], off: usize) -> u32 {
    u32::from_le_bytes([b[off], b[off + 1], b[off + 2], b[off + 3]])
}

fn get_i32(b: &[u8], off: usize) -> i32 {
    get_u32(b, off) as i32
}

fn get_u64(b: &[u8], off: usize) -> u64 {
    let mut a = [0u8; 8];
    a.copy_from_slice(&b[off..off + 8]);
    u64::from_le_bytes(a)
}

fn get_i64(b: &[u8], off: usize) -> i64 {
    get_u64(b, off) as i64
}

fn get_f32(b: &[u8], off: usize) -> f32 {
    f32::from_bits(get_u32(b, off))
}

fn get_f64(b: &[u8], off: usize) -> f64 {
    f64::from_bits(get_u64(b, off))
}

fn mask_bit(b: &[u8], mask: usize, n: u32) -> bool {
    (get_u64(b, mask + 8 * (n as usize / 64)) >> (n % 64)) & 1 != 0
}

fn write_scalar(grid: &UniformGrid, name: &str, v: &[f64]) -> Result<Vec<u8>, Error> {
    let v: Vec<Scalar> = v.iter().map(|x| sc(*x)).collect();
    ofgpu::vdb::write(grid, &vec![OutputField::scalar(name, &v)], &vec![vec![]])
}

fn write_vector(grid: &UniformGrid, name: &str, u: &[[f64; 3]]) -> Result<Vec<u8>, Error> {
    let v: Vec<Vec3> = u.iter().map(|x| vec3(x[0], x[1], x[2])).collect();
    let m: Vec<Scalar> = u.iter().map(|x| sc(mag(x))).collect();
    ofgpu::vdb::write(grid, &vec![OutputField::vector(name, &v)], &vec![m])
}

fn mag(v: &[f64; 3]) -> f64 {
    (v[0] * v[0] + v[1] * v[1] + v[2] * v[2]).sqrt()
}

struct ReadGrid {
    name: String,
    grid_type: String,
    class_metadata: Option<String>,
    voxel_size: [f64; 3],
    origin: [f64; 3],
    nx: usize,
    ny: usize,
    nz: usize,
    values: Vec<f64>, // dense, idx = i + nx*(j + ny*k); NaN where inactive
}

fn get_string(b: &[u8], pos: &mut usize) -> String {
    let len = get_u32(b, *pos) as usize;
    *pos += 4;
    let s = String::from_utf8_lossy(&b[*pos..*pos + len]).into_owned();
    *pos += len;
    s
}

enum Node {
    Internal { children: Vec<Node> },
    Leaf { origin: [i32; 3], active: [bool; 512] },
}

fn read_all(bytes: &[u8]) -> Vec<ReadGrid> {
    let magic = get_u64(bytes, 0);
    assert_eq!(magic, MAGIC, "not a .vdb file");
    let mut pos = 8 + 4 + 4 + 4; // magic, fileVersion, libMajor, libMinor
    pos += 1; // hasGridOffsets
    pos += 36; // uuid

    let meta_count = get_u32(bytes, pos);
    pos += 4;
    assert_eq!(meta_count, 0, "reader only handles files with no file-level metadata");

    let grid_count = get_i32(bytes, pos) as usize;
    pos += 4;

    let mut out = Vec::new();
    for _ in 0..grid_count {
        let name = get_string(bytes, &mut pos);
        let grid_type = get_string(bytes, &mut pos);
        let _instance_parent = get_string(bytes, &mut pos);

        let grid_pos = get_i64(bytes, pos) as usize;
        let block_pos = get_i64(bytes, pos + 8) as usize;
        let end_pos = get_i64(bytes, pos + 16) as usize;
        pos += 24;
        assert_eq!(pos, grid_pos, "gridPos must point right after the stream-position triple");

        let compression = get_u32(bytes, pos);
        pos += 4;
        assert_eq!(compression, COMPRESS_NONE, "reader only handles COMPRESS_NONE");

        let meta_count = get_u32(bytes, pos);
        pos += 4;
        let mut class_metadata = None;
        for _ in 0..meta_count {
            let mname = get_string(bytes, &mut pos);
            let mtype = get_string(bytes, &mut pos);
            assert_eq!(mtype, "string", "reader only handles string grid metadata");
            let len = get_u32(bytes, pos) as usize;
            pos += 4;
            let value = String::from_utf8_lossy(&bytes[pos..pos + len]).into_owned();
            pos += len;
            if mname == "class" {
                class_metadata = Some(value);
            }
        }

        let map_type = get_string(bytes, &mut pos);
        assert_eq!(map_type, "AffineMap");
        let mut m = [0f64; 16];
        for v in m.iter_mut() {
            *v = get_f64(bytes, pos);
            pos += 8;
        }
        let voxel_size = [m[0], m[5], m[10]];
        let origin = [m[12], m[13], m[14]];

        let _background = get_f32(bytes, pos);
        pos += 4;
        let num_tiles = get_u32(bytes, pos);
        pos += 4;
        let num_children = get_u32(bytes, pos);
        pos += 4;
        assert_eq!(num_tiles, 0, "reader only handles a tile-free root");

        let mut max_xyz = [0i32; 3];
        let mut roots = Vec::new();
        for _ in 0..num_children {
            let child_origin =
                [get_i32(bytes, pos), get_i32(bytes, pos + 4), get_i32(bytes, pos + 8)];
            pos += 12;
            let (node, new_pos) =
                read_internal_topology(bytes, pos, UPPER_LOG2DIM, child_origin, &mut max_xyz);
            pos = new_pos;
            roots.push(node);
        }
        assert_eq!(pos, block_pos, "topology must end exactly at blockPos");

        let (nx, ny, nz) =
            ((max_xyz[0] + 1) as usize, (max_xyz[1] + 1) as usize, (max_xyz[2] + 1) as usize);
        let mut values = vec![f64::NAN; nx * ny * nz];

        let mut bpos = block_pos;
        for node in &roots {
            bpos = read_buffers(bytes, bpos, node, nx, ny, &mut values);
        }
        assert_eq!(bpos, end_pos, "buffers must end exactly at endPos");

        pos = end_pos;
        out.push(ReadGrid {
            name, grid_type, class_metadata, voxel_size, origin, nx, ny, nz, values,
        });
    }
    out
}

fn read_internal_topology(
    bytes: &[u8],
    pos: usize,
    log2dim: u32,
    origin: [i32; 3],
    max_xyz: &mut [i32; 3],
) -> (Node, usize) {
    let slots = 1usize << (3 * log2dim);
    let mask_words = slots / 8;
    let child_mask_off = pos;
    let value_off = pos + 2 * mask_words;
    let metadata = bytes[value_off];
    assert_eq!(metadata, NO_MASK_AND_ALL_VALS, "this reader only handles NO_MASK_AND_ALL_VALS");
    let mut cursor = value_off + 1 + slots * 4;

    let fan = 1u32 << log2dim;
    let child_span = if log2dim == UPPER_LOG2DIM { LOWER_DIM } else { LEAF_DIM } as i32;
    let mut children = Vec::new();
    for n in 0..slots as u32 {
        if !mask_bit(bytes, child_mask_off, n) {
            continue;
        }
        let a = n >> (2 * log2dim);
        let bb = (n >> log2dim) & (fan - 1);
        let c = n & (fan - 1);
        let child_origin = [
            origin[0] + a as i32 * child_span,
            origin[1] + bb as i32 * child_span,
            origin[2] + c as i32 * child_span,
        ];
        if log2dim == UPPER_LOG2DIM {
            let (node, new_cursor) =
                read_internal_topology(bytes, cursor, LOWER_LOG2DIM, child_origin, max_xyz);
            children.push(node);
            cursor = new_cursor;
        } else {
            let (node, new_cursor) = read_leaf_topology(bytes, cursor, child_origin, max_xyz);
            children.push(node);
            cursor = new_cursor;
        }
    }
    (Node::Internal { children }, cursor)
}

fn read_leaf_topology(
    bytes: &[u8],
    pos: usize,
    origin: [i32; 3],
    max_xyz: &mut [i32; 3],
) -> (Node, usize) {
    let mask_off = pos;
    let mut active = [false; 512];
    for n in 0..512u32 {
        if !mask_bit(bytes, mask_off, n) {
            continue;
        }
        active[n as usize] = true;
        let lx = (n >> 6) as i32;
        let ly = ((n >> 3) & 7) as i32;
        let lz = (n & 7) as i32;
        max_xyz[0] = max_xyz[0].max(origin[0] + lx);
        max_xyz[1] = max_xyz[1].max(origin[1] + ly);
        max_xyz[2] = max_xyz[2].max(origin[2] + lz);
    }
    (Node::Leaf { origin, active }, pos + 64)
}

fn read_buffers(bytes: &[u8], pos: usize, node: &Node, nx: usize, ny: usize, values: &mut [f64]) -> usize {
    match node {
        Node::Internal { children } => {
            let mut cursor = pos;
            for child in children {
                cursor = read_buffers(bytes, cursor, child, nx, ny, values);
            }
            cursor
        }
        Node::Leaf { origin, active } => {
            let mask_off = pos;
            for n in 0..512u32 {
                assert_eq!(
                    mask_bit(bytes, mask_off, n), active[n as usize],
                    "topology and buffers value masks disagree at bit {n}"
                );
            }
            let value_off = pos + 64;
            let metadata = bytes[value_off];
            assert_eq!(metadata, NO_MASK_AND_ALL_VALS);
            let values_start = value_off + 1;
            for n in 0..512u32 {
                if !active[n as usize] {
                    continue;
                }
                let lx = (n >> 6) as i32;
                let ly = ((n >> 3) & 7) as i32;
                let lz = (n & 7) as i32;
                let gx = (origin[0] + lx) as usize;
                let gy = (origin[1] + ly) as usize;
                let gz = (origin[2] + lz) as usize;
                let v = get_f32(bytes, values_start + (n as usize) * 4) as f64;
                values[gx + nx * (gy + ny * gz)] = v;
            }
            values_start + 512 * 4
        }
    }
}
fn make_grid(nx: usize, ny: usize, nz: usize) -> UniformGrid {
    UniformGrid {
        nx, ny, nz,
        origin: vec3(1.5, -2.0, 0.25),
        spacing: vec3(0.1, 0.2, 0.05),
    }
}

fn ramp_field(grid: &UniformGrid) -> Vec<f64> {
    let mut v = vec![0.0 as f64; grid.n()];
    for k in 0..grid.nz {
        for j in 0..grid.ny {
            for i in 0..grid.nx {
                let val = (i as f64) + 100.0 * (j as f64) + 10_000.0 * (k as f64) + 0.5;
                v[grid.idx(i, j, k)] = val;
            }
        }
    }
    v
}

#[test]
fn round_trips_every_voxel_on_a_small_grid() {
    let grid = make_grid(5, 4, 3);
    let field = ramp_field(&grid);
    let bytes = write_scalar(&grid, "T", &field).expect("write");
    let grids = read_all(&bytes);
    assert_eq!(grids.len(), 1);
    let g = &grids[0];
    assert_eq!(g.name, "T");
    assert_eq!(g.grid_type, "Tree_float_5_4_3");
    assert_eq!(g.class_metadata.as_deref(), Some("fog volume"));
    assert_eq!((g.nx, g.ny, g.nz), (grid.nx, grid.ny, grid.nz));
    for k in 0..grid.nz {
        for j in 0..grid.ny {
            for i in 0..grid.nx {
                let want = field[grid.idx(i, j, k)] as f32 as f64;
                let got = g.values[i + grid.nx * (j + grid.ny * k)];
                assert_eq!(got, want, "voxel ({i},{j},{k})");
            }
        }
    }
}

#[test]
fn round_trips_a_multi_node_grid_crossing_lower_boundaries() {
    let grid = make_grid(37, 21, 17); // crosses several Leaf and Lower boundaries
    let field = ramp_field(&grid);
    let bytes = write_scalar(&grid, "rho", &field).expect("write");
    let g = &read_all(&bytes)[0];
    for k in 0..grid.nz {
        for j in 0..grid.ny {
            for i in 0..grid.nx {
                let want = field[grid.idx(i, j, k)] as f32 as f64;
                let got = g.values[i + grid.nx * (j + grid.ny * k)];
                assert_eq!(got, want, "voxel ({i},{j},{k})");
            }
        }
    }
}

#[test]
fn vector_field_becomes_four_component_grids() {
    let grid = make_grid(4, 3, 2);
    let mut u = vec![[0.0; 3]; grid.n()];
    for k in 0..grid.nz {
        for j in 0..grid.ny {
            for i in 0..grid.nx {
                u[grid.idx(i, j, k)] = [i as f64, j as f64, k as f64];
            }
        }
    }
    let bytes = write_vector(&grid, "U", &u).expect("write");
    let grids = read_all(&bytes);
    let names: Vec<&str> = grids.iter().map(|g| g.name.as_str()).collect();
    assert_eq!(names, ["U.x", "U.y", "U.z", "U.mag"]);

    let gx = &grids[0];
    let gmag = &grids[3];
    for k in 0..grid.nz {
        for j in 0..grid.ny {
            for i in 0..grid.nx {
                let idx = i + grid.nx * (j + grid.ny * k);
                assert_eq!(gx.values[idx], i as f64);
                let want_mag = (mag(&u[grid.idx(i, j, k)]) as f32) as f64;
                assert_eq!(gmag.values[idx], want_mag);
            }
        }
    }
}

#[test]
fn transform_round_trips_origin_and_spacing() {
    let grid = make_grid(6, 5, 4);
    let field = ramp_field(&grid);
    let bytes = write_scalar(&grid, "p", &field).expect("write");
    let g = &read_all(&bytes)[0];
    assert_eq!(g.voxel_size, [0.1f64, 0.2, 0.05]);
    assert_eq!(g.origin, [1.5f64, -2.0, 0.25]);
}

#[test]
fn vdb_rejects_a_field_length_that_does_not_match_the_grid() {
    let grid = make_grid(3, 3, 3);
    let field = vec![0.0 as f64; 5];
    let err = write_scalar(&grid, "bad", &field).unwrap_err();
    assert!(err.text().contains("bad"));
}

#[test]
fn vdb_rejects_empty_dims_and_empty_field_list() {
    let field = vec![1.0 as f64; 1];
    let empty_grid = UniformGrid {
        nx: 0, ny: 1, nz: 1, origin: vec3(0.0, 0.0, 0.0), spacing: vec3(1.0, 1.0, 1.0),
    };
    assert!(write_scalar(&empty_grid, "a", &field).is_err());

    let grid = make_grid(2, 2, 2);
    assert!(ofgpu::vdb::write(&grid, &vec![], &vec![]).is_err());
}
