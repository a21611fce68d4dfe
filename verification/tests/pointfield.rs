use ofgpu::error::Error;
use ofgpu::mesh::{HostMesh, Label, PatchInfo, PatchKind, Vec3};
use ofgpu::pointfield::{boundary_points, PointInterpolator};
use ofgpu::polymesh::{build_host_mesh, PolyMeshRaw};
use ofgpu::scalar::Scalar;

fn sc(v: f64) -> Scalar {
    Scalar { bits: v.to_bits() }
}

fn fl(s: Scalar) -> f64 {
    f64::from_bits(s.bits)
}

fn vec3(x: f64, y: f64, z: f64) -> Vec3 {
    Vec3 { x: sc(x), y: sc(y), z: sc(z) }
}

fn block(n: [usize; 3], lo: [f64; 3], hi: [f64; 3]) -> PolyMeshRaw {
    let at = |d: usize, i: usize| lo[d] + (hi[d] - lo[d]) * i as f64 / n[d] as f64;
    let node = |i: usize, j: usize, k: usize| -> Label {
        (i + (n[0] + 1) * (j + (n[1] + 1) * k)) as Label
    };
    let cell = |i: usize, j: usize, k: usize| -> Label { (i + n[0] * (j + n[1] * k)) as Label };
    let up = |d: usize, c: [usize; 3]| -> Vec<Label> {
        let [i, j, k] = c;
        match d {
            0 => vec![
                node(i + 1, j, k),
                node(i + 1, j + 1, k),
                node(i + 1, j + 1, k + 1),
                node(i + 1, j, k + 1),
            ],
            1 => vec![
                node(i, j + 1, k),
                node(i, j + 1, k + 1),
                node(i + 1, j + 1, k + 1),
                node(i + 1, j + 1, k),
            ],
            _ => vec![
                node(i, j, k + 1),
                node(i + 1, j, k + 1),
                node(i + 1, j + 1, k + 1),
                node(i, j + 1, k + 1),
            ],
        }
    };
    let down = |d: usize, c: [usize; 3]| -> Vec<Label> {
        let [i, j, k] = c;
        match d {
            0 => vec![node(i, j, k), node(i, j, k + 1), node(i, j + 1, k + 1), node(i, j + 1, k)],
            1 => vec![node(i, j, k), node(i + 1, j, k), node(i + 1, j, k + 1), node(i, j, k + 1)],
            _ => vec![node(i, j, k), node(i, j + 1, k), node(i + 1, j + 1, k), node(i + 1, j, k)],
        }
    };
    let mut points = Vec::new();
    for k in 0..=n[2] {
        for j in 0..=n[1] {
            for i in 0..=n[0] {
                points.push(vec3(at(0, i), at(1, j), at(2, k)));
            }
        }
    }
    let mut cells = Vec::new();
    for k in 0..n[2] {
        for j in 0..n[1] {
            for i in 0..n[0] {
                cells.push([i, j, k]);
            }
        }
    }
    let (mut faces, mut owner, mut neighbour) = (Vec::new(), Vec::new(), Vec::new());
    for c in &cells {
        for d in 0..3 {
            if c[d] + 1 < n[d] {
                let mut next = *c;
                next[d] += 1;
                faces.push(up(d, *c));
                owner.push(cell(c[0], c[1], c[2]));
                neighbour.push(cell(next[0], next[1], next[2]));
            }
        }
    }
    let mut patches = Vec::new();
    let mut start = 0;
    for (d, high, name) in [
        (0, false, "xmin"),
        (0, true, "xmax"),
        (1, false, "ymin"),
        (1, true, "ymax"),
        (2, false, "zmin"),
        (2, true, "zmax"),
    ] {
        let mut size = 0;
        for c in &cells {
            if high && c[d] + 1 == n[d] {
                faces.push(up(d, *c));
            } else if !high && c[d] == 0 {
                faces.push(down(d, *c));
            } else {
                continue;
            }
            owner.push(cell(c[0], c[1], c[2]));
            size += 1;
        }
        patches.push(PatchInfo {
            name: name.to_string(),
            patch_type: "patch".to_string(),
            kind: PatchKind::Generic,
            start,
            size,
            nbr_patch: None,
        });
        start += size;
    }
    PolyMeshRaw { points, faces, owner, neighbour, patches }
}

#[allow(dead_code)]
struct Geometry {
    sf: Vec<[f64; 3]>,
    cf: Vec<[f64; 3]>,
    v: Vec<f64>,
    c: Vec<[f64; 3]>,
}

fn at(v: &Vec3) -> [f64; 3] {
    [fl(v.x), fl(v.y), fl(v.z)]
}

fn geometry(raw: &PolyMeshRaw) -> Geometry {
    let n = raw.owner.iter().map(|o| *o as usize + 1).max().unwrap_or(0);
    let mut g = Geometry {
        sf: Vec::new(),
        cf: Vec::new(),
        v: vec![0.0; n],
        c: vec![[0.0; 3]; n],
    };
    let mut count = vec![0.0; n];
    for (f, face) in raw.faces.iter().enumerate() {
        let p: Vec<[f64; 3]> = face.iter().map(|i| at(&raw.points[*i as usize])).collect();
        let mut area = [0.0; 3];
        for i in 1..p.len() - 1 {
            for k in 0..3 {
                let (a, b) = ((k + 1) % 3, (k + 2) % 3);
                area[k] += 0.5
                    * ((p[i][a] - p[0][a]) * (p[i + 1][b] - p[0][b])
                        - (p[i][b] - p[0][b]) * (p[i + 1][a] - p[0][a]));
            }
        }
        let mut mid = [0.0; 3];
        for q in &p {
            for k in 0..3 {
                mid[k] += q[k] / p.len() as f64;
            }
        }
        let flux = (area[0] * mid[0] + area[1] * mid[1] + area[2] * mid[2]) / 3.0;
        let mut touch = |cell: usize, sign: f64| {
            g.v[cell] += sign * flux;
            count[cell] += 1.0;
            for k in 0..3 {
                g.c[cell][k] += mid[k];
            }
        };
        touch(raw.owner[f] as usize, 1.0);
        if f < raw.neighbour.len() {
            touch(raw.neighbour[f] as usize, -1.0);
        }
        g.sf.push(area);
        g.cf.push(mid);
    }
    for i in 0..n {
        for k in 0..3 {
            g.c[i][k] /= count[i];
        }
    }
    g
}

fn block_6x5x4() -> (PolyMeshRaw, HostMesh, Vec<[f64; 3]>) {
    let raw = block([6, 5, 4], [0.0, 0.0, 0.0], [1.2, 1.0, 0.8]);
    let m = build_host_mesh(&raw).expect("build_host_mesh");
    let c = geometry(&raw).c;
    (raw, m, c)
}

fn interpolator(raw: &PolyMeshRaw, m: &HostMesh, c: &[[f64; 3]]) -> PointInterpolator {
    let mut t = PointInterpolator::new(raw, m).expect("new");
    for p in 0..t.n_points {
        let row = t.offset[p] as usize..t.offset[p + 1] as usize;
        let x = at(&raw.points[p]);
        let w: Vec<f64> = row
            .clone()
            .map(|i| {
                let y = c[t.cell[i] as usize];
                let d = [x[0] - y[0], x[1] - y[1], x[2] - y[2]];
                let d = (d[0] * d[0] + d[1] * d[1] + d[2] * d[2]).sqrt();
                1.0 / d.max(f64::MIN_POSITIVE)
            })
            .collect();
        let sum: f64 = w.iter().sum();
        for (k, i) in row.enumerate() {
            t.weight[i] = sc(w[k] / sum);
        }
    }
    t
}

fn gather<const N: usize>(t: &PointInterpolator, cell: &[[f64; N]]) -> Vec<[f64; N]> {
    t.check_cell_len(cell.len()).unwrap();
    let mut out = Vec::new();
    for p in 0..t.n_points {
        let mut acc = [0.0; N];
        for i in t.offset[p] as usize..t.offset[p + 1] as usize {
            for k in 0..N {
                acc[k] = acc[k] + cell[t.cell[i] as usize][k] * fl(t.weight[i]);
            }
        }
        out.push(acc);
    }
    out
}

fn cell_to_point(t: &PointInterpolator, cell: &[f64]) -> Result<Vec<f64>, Error> {
    t.check_cell_len(cell.len())?;
    let one: Vec<[f64; 1]> = cell.iter().map(|v| [*v]).collect();
    Ok(gather(t, &one).iter().map(|v| v[0]).collect())
}

fn point_to_cell(t: &PointInterpolator, point: &[f64]) -> Result<Vec<f64>, Error> {
    t.check_point_len(point.len())?;
    let mut out = Vec::new();
    for c in 0..t.n_cells {
        let row = t.cell_offset[c] as usize..t.cell_offset[c + 1] as usize;
        let n = row.len();
        let sum: f64 = row.map(|i| point[t.cell_point[i] as usize]).sum();
        out.push(if n == 0 { 0.0 } else { sum / n as f64 });
    }
    Ok(out)
}

fn phi(x: f64, y: f64, z: f64) -> f64 {
    1.0 + 2.0 * x - 3.0 * y + 0.5 * z
}

#[test]
fn a_linear_field_is_exact_at_interior_points_and_bounded_at_boundary_points() {
    let (raw, m, c) = block_6x5x4();
    let interp = interpolator(&raw, &m, &c);
    let cell: Vec<f64> = c.iter().map(|c| phi(c[0], c[1], c[2])).collect();
    let point = cell_to_point(&interp, &cell).expect("cell_to_point");
    let is_b = boundary_points(&raw);

    let (hx, hy, hz): (f64, f64, f64) = (1.2 / 6.0, 1.0 / 5.0, 0.8 / 4.0);
    let (a, b, c): (f64, f64, f64) = (2.0, -3.0, 0.5);
    let bound = (a.abs() * hx + b.abs() * hy + c.abs() * hz) / 2.0;

    let (mut max_int, mut max_bnd, mut max_phi): (f64, f64, f64) =
        (0.0, 0.0, 0.0);
    for p in 0..raw.points.len() {
        let x = at(&raw.points[p]);
        let exact = phi(x[0], x[1], x[2]);
        max_phi = max_phi.max(exact.abs());
        let err = (point[p] - exact).abs();
        if is_b[p] {
            max_bnd = max_bnd.max(err);
        } else {
            max_int = max_int.max(err);
        }
    }
    println!("max interior error = {max_int:.3e} (tol 1e-12 * max|phi| = {:.3e})",
        1e-12 * max_phi);
    println!("max boundary error = {max_bnd:.3e} (bound {bound:.3e})");
    assert!(max_int <= 1e-12 * max_phi, "interior {max_int:.3e}");
    assert!(max_bnd <= bound + 1e-12, "boundary {max_bnd:.3e} > {bound:.3e}");
}

#[test]
fn the_vertex_mean_of_a_linear_point_field_is_the_cell_centre_value() {
    let (raw, m, c) = block_6x5x4();
    let interp = interpolator(&raw, &m, &c);
    let point: Vec<f64> = raw.points.iter().map(at).map(|x| phi(x[0], x[1], x[2])).collect();
    let back = point_to_cell(&interp, &point).expect("point_to_cell");

    let mut max_rel = 0.0 as f64;
    for i in 0..m.n_cells {
        let want = phi(c[i][0], c[i][1], c[i][2]);
        let err = (back[i] - want).abs() / want.abs().max(1.0);
        max_rel = max_rel.max(err);
    }
    println!("max relative vertex-mean error = {max_rel:.3e}");
    assert!(max_rel <= 1e-12, "vertex mean {max_rel:.3e}");
}

#[test]
fn the_round_trip_is_exact_on_interior_cells_of_a_uniform_block() {
    let (raw, m, c) = block_6x5x4();
    let interp = interpolator(&raw, &m, &c);
    let cell: Vec<f64> = c.iter().map(|c| phi(c[0], c[1], c[2])).collect();
    let point = cell_to_point(&interp, &cell).expect("cell_to_point");
    let back = point_to_cell(&interp, &point).expect("point_to_cell");
    let is_b = boundary_points(&raw);

    let (mut qualifying, mut max_rel) = (0usize, 0.0 as f64);
    for k in 0..m.n_cells {
        let (s, e) =
            (interp.cell_offset[k] as usize, interp.cell_offset[k + 1] as usize);
        if !(s..e).all(|i| !is_b[interp.cell_point[i] as usize]) {
            continue;
        }
        qualifying += 1;
        let want = phi(c[k][0], c[k][1], c[k][2]);
        max_rel = max_rel.max((back[k] - want).abs() / want.abs().max(1.0));
    }
    println!("qualifying cells = {qualifying}, max relative round-trip error = {max_rel:.3e}");
    assert_eq!(qualifying, 4 * 3 * 2);
    assert!(max_rel <= 1e-12, "round trip {max_rel:.3e}");
}

#[test]
fn the_vector_and_tensor_gathers_agree_with_the_scalar_one_componentwise() {
    let (raw, m, c) = block_6x5x4();
    let interp = interpolator(&raw, &m, &c);
    let s: Vec<f64> = (0..m.n_cells)
        .map(|c| ((7 * c) % 13) as f64 * 0.5 - 3.0 + c as f64 * 0.25)
        .collect();
    let v: Vec<[f64; 3]> = s
        .iter()
        .enumerate()
        .map(|(c, &x)| [x, -2.0 * x + c as f64, 0.125 * x])
        .collect();
    let t: Vec<[f64; 9]> = s
        .iter()
        .enumerate()
        .map(|(_, &x)| [
            x, x + 1.0, 2.0 * x,
            x - 1.0, -x, x * x * 0.01,
            0.5 * x, x + 0.25, 3.0 * x,
        ])
        .collect();

    let pv = gather(&interp, &v);
    let pt = gather(&interp, &t);
    let sx = cell_to_point(&interp,
        &v.iter().map(|p| p[0]).collect::<Vec<_>>(),
    ).unwrap();
    let sy = cell_to_point(&interp,
        &v.iter().map(|p| p[1]).collect::<Vec<_>>(),
    ).unwrap();
    let sz = cell_to_point(&interp,
        &v.iter().map(|p| p[2]).collect::<Vec<_>>(),
    ).unwrap();
    for p in 0..interp.n_points {
        assert_eq!(pv[p][0], sx[p], "vector x at point {p}");
        assert_eq!(pv[p][1], sy[p], "vector y at point {p}");
        assert_eq!(pv[p][2], sz[p], "vector z at point {p}");
    }
    let names = ["xx", "xy", "xz", "yx", "yy", "yz", "zx", "zy", "zz"];
    for k in 0..9 {
        let col: Vec<f64> = t.iter().map(|x| x[k]).collect();
        let sk = cell_to_point(&interp, &col).unwrap();
        for p in 0..interp.n_points {
            assert_eq!(pt[p][k], sk[p], "tensor {} at point {p}", names[k]);
        }
    }
}

#[test]
fn weights_sum_to_one_and_the_adjacency_of_a_block_is_what_geometry_says() {
    let (raw, m, c) = block_6x5x4();
    let interp = interpolator(&raw, &m, &c);
    let mut tally = std::collections::BTreeMap::<usize, usize>::new();
    for p in 0..interp.n_points {
        let (s, e) = (interp.offset[p] as usize, interp.offset[p + 1] as usize);
        let n = e - s;
        *tally.entry(n).or_insert(0) += 1;
        let wsum: f64 = interp.weight[s..e].iter().map(|w| fl(*w)).sum();
        assert!(
            (wsum - 1.0).abs() <= 1e-15 * n as f64,
            "point {p}: sum of {n} weights = {wsum:.3e}"
        );
    }
    let (nx, ny, nz) = (6usize, 5usize, 4usize);
    let want8 = (nx - 1) * (ny - 1) * (nz - 1);
    let want4 = 2 * ((ny - 1) * (nz - 1) + (nx - 1) * (nz - 1) + (nx - 1) * (ny - 1));
    let want2 = 4 * ((nx - 1) + (ny - 1) + (nz - 1));
    let want1 = 8;
    assert_eq!(tally.get(&8), Some(&want8), "interior points");
    assert_eq!(tally.get(&4), Some(&want4), "face points");
    assert_eq!(tally.get(&2), Some(&want2), "edge points");
    assert_eq!(tally.get(&1), Some(&want1), "corner points");
    let total: usize = tally.values().sum();
    assert_eq!(total, interp.n_points);
    println!("adjacency: 8 cells -> {want8}, 4 -> {want4}, 2 -> {want2}, 1 -> {want1}");
}

#[test]
fn it_refuses_a_field_of_the_wrong_length_by_name() {
    let (raw, m, c) = block_6x5x4();
    let interp = interpolator(&raw, &m, &c);

    let bad_cell = vec![0.0 as f64; interp.n_cells - 1];
    match cell_to_point(&interp, &bad_cell) {
        Err(Error::Field { field, msg }) => {
            assert_eq!(field, "cell");
            assert!(msg.contains("cell"), "msg: {msg}");
        }
        other => panic!("expected Error::Field, got {other:?}"),
    }
    let bad_point = vec![0.0 as f64; interp.n_points - 1];
    match point_to_cell(&interp, &bad_point) {
        Err(Error::Field { field, .. }) => assert_eq!(field, "point"),
        other => panic!("expected Error::Field, got {other:?}"),
    }
    let r = PointInterpolator::new(&raw, &HostMesh::empty());
    match r {
        Err(Error::Field { field, .. }) => assert_eq!(field, "points"),
        Err(_) => panic!("expected Error::Field"),
        Ok(_) => panic!("expected Error::Field, got Ok"),
    }
}
