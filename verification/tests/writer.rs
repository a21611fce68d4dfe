use ofgpu::contract::Policy;
use ofgpu::fields::{write_scalar_field, PatchFieldSpec, RawScalarField};
use ofgpu::mesh::{HostMesh, Label, PatchInfo, PatchKind, Vec3};
use ofgpu::nvdb::{
    Frame, GridField, GridValues, NodeStat, Precision, Samples, Single3, MAGIC_FILE,
};
use ofgpu::output_types::OutputField;
use ofgpu::polymesh::{build_host_mesh, PolyMeshRaw};
use ofgpu::scalar::Scalar;
use ofgpu::usda::{write_usda_scene, Quad};
use ofgpu::vdb::MAGIC;
use ofgpu::vtu::face_sides;
use ofgpu::writer::{
    cartesian_info, lowest_centre, path_under, step_name, CartesianGrid, CartesianInfo, FoamField,
    FoamWriter, NvdbWriter, UsdaWriter, VdbWriter, VtuWriter, WriteCtx,
};

const STRICT: Policy = Policy { permissive: false };

fn sc(v: f64) -> Scalar {
    Scalar { bits: v.to_bits() }
}

fn fl(s: Scalar) -> f64 {
    f64::from_bits(s.bits)
}

fn vec3(x: f64, y: f64, z: f64) -> Vec3 {
    Vec3 { x: sc(x), y: sc(y), z: sc(z) }
}

fn block(n: [usize; 3], lo: [f64; 3], hi: [f64; 3]) -> PolyMeshRaw {
    let at = |d: usize, i: usize| lo[d] + (hi[d] - lo[d]) * i as f64 / n[d] as f64;
    let node = |i: usize, j: usize, k: usize| -> Label {
        (i + (n[0] + 1) * (j + (n[1] + 1) * k)) as Label
    };
    let cell = |i: usize, j: usize, k: usize| -> Label { (i + n[0] * (j + n[1] * k)) as Label };
    let up = |d: usize, c: [usize; 3]| -> Vec<Label> {
        let [i, j, k] = c;
        match d {
            0 => vec![
                node(i + 1, j, k),
                node(i + 1, j + 1, k),
                node(i + 1, j + 1, k + 1),
                node(i + 1, j, k + 1),
            ],
            1 => vec![
                node(i, j + 1, k),
                node(i, j + 1, k + 1),
                node(i + 1, j + 1, k + 1),
                node(i + 1, j + 1, k),
            ],
            _ => vec![
                node(i, j, k + 1),
                node(i + 1, j, k + 1),
                node(i + 1, j + 1, k + 1),
                node(i, j + 1, k + 1),
            ],
        }
    };
    let down = |d: usize, c: [usize; 3]| -> Vec<Label> {
        let [i, j, k] = c;
        match d {
            0 => vec![node(i, j, k), node(i, j, k + 1), node(i, j + 1, k + 1), node(i, j + 1, k)],
            1 => vec![node(i, j, k), node(i + 1, j, k), node(i + 1, j, k + 1), node(i, j, k + 1)],
            _ => vec![node(i, j, k), node(i, j + 1, k), node(i + 1, j + 1, k), node(i + 1, j, k)],
        }
    };
    let mut points = Vec::new();
    for k in 0..=n[2] {
        for j in 0..=n[1] {
            for i in 0..=n[0] {
                points.push(vec3(at(0, i), at(1, j), at(2, k)));
            }
        }
    }
    let mut cells = Vec::new();
    for k in 0..n[2] {
        for j in 0..n[1] {
            for i in 0..n[0] {
                cells.push([i, j, k]);
            }
        }
    }
    let (mut faces, mut owner, mut neighbour) = (Vec::new(), Vec::new(), Vec::new());
    for c in &cells {
        for d in 0..3 {
            if c[d] + 1 < n[d] {
                let mut next = *c;
                next[d] += 1;
                faces.push(up(d, *c));
                owner.push(cell(c[0], c[1], c[2]));
                neighbour.push(cell(next[0], next[1], next[2]));
            }
        }
    }
    let mut patches = Vec::new();
    let mut start = 0;
    for (d, high, name) in [
        (0, false, "xmin"),
        (0, true, "xmax"),
        (1, false, "ymin"),
        (1, true, "ymax"),
        (2, false, "zmin"),
        (2, true, "zmax"),
    ] {
        let mut size = 0;
        for c in &cells {
            if high && c[d] + 1 == n[d] {
                faces.push(up(d, *c));
            } else if !high && c[d] == 0 {
                faces.push(down(d, *c));
            } else {
                continue;
            }
            owner.push(cell(c[0], c[1], c[2]));
            size += 1;
        }
        patches.push(PatchInfo {
            name: name.to_string(),
            patch_type: "patch".to_string(),
            kind: PatchKind::Generic,
            start,
            size,
            nbr_patch: None,
        });
        start += size;
    }
    PolyMeshRaw { points, faces, owner, neighbour, patches }
}

#[allow(dead_code)]
struct Geometry {
    sf: Vec<[f64; 3]>,
    cf: Vec<[f64; 3]>,
    v: Vec<f64>,
    c: Vec<[f64; 3]>,
}

fn at(v: &Vec3) -> [f64; 3] {
    [fl(v.x), fl(v.y), fl(v.z)]
}

fn geometry(raw: &PolyMeshRaw) -> Geometry {
    let n = raw.owner.iter().map(|o| *o as usize + 1).max().unwrap_or(0);
    let mut g = Geometry {
        sf: Vec::new(),
        cf: Vec::new(),
        v: vec![0.0; n],
        c: vec![[0.0; 3]; n],
    };
    let mut count = vec![0.0; n];
    for (f, face) in raw.faces.iter().enumerate() {
        let p: Vec<[f64; 3]> = face.iter().map(|i| at(&raw.points[*i as usize])).collect();
        let mut area = [0.0; 3];
        for i in 1..p.len() - 1 {
            for k in 0..3 {
                let (a, b) = ((k + 1) % 3, (k + 2) % 3);
                area[k] += 0.5
                    * ((p[i][a] - p[0][a]) * (p[i + 1][b] - p[0][b])
                        - (p[i][b] - p[0][b]) * (p[i + 1][a] - p[0][a]));
            }
        }
        let mut mid = [0.0; 3];
        for q in &p {
            for k in 0..3 {
                mid[k] += q[k] / p.len() as f64;
            }
        }
        let flux = (area[0] * mid[0] + area[1] * mid[1] + area[2] * mid[2]) / 3.0;
        let mut touch = |cell: usize, sign: f64| {
            g.v[cell] += sign * flux;
            count[cell] += 1.0;
            for k in 0..3 {
                g.c[cell][k] += mid[k];
            }
        };
        touch(raw.owner[f] as usize, 1.0);
        if f < raw.neighbour.len() {
            touch(raw.neighbour[f] as usize, -1.0);
        }
        g.sf.push(area);
        g.cf.push(mid);
    }
    for i in 0..n {
        for k in 0..3 {
            g.c[i][k] /= count[i];
        }
    }
    g
}

fn mesh_2x1x1() -> HostMesh {
    let raw = block([2, 1, 1], [0.0; 3], [1.0; 3]);
    let g = geometry(&raw);
    let mut m = build_host_mesh(&raw).expect("build_host_mesh");
    let n = m.n_internal_faces;
    let point = |v: &[f64; 3]| vec3(v[0], v[1], v[2]);
    m.sf = g.sf[..n].iter().map(point).collect();
    m.cf = g.cf[..n].iter().map(point).collect();
    m.b_sf = g.sf[n..].iter().map(point).collect();
    m.b_cf = g.cf[n..].iter().map(point).collect();
    m.c = g.c.iter().map(point).collect();
    m
}

fn corners(m: &HostMesh) -> Vec<Vec3> {
    let mut out = Vec::new();
    for s in face_sides(m) {
        let (c, a) = if s.boundary {
            (at(&m.b_cf[s.face]), at(&m.b_sf[s.face]))
        } else {
            (at(&m.cf[s.face]), at(&m.sf[s.face]))
        };
        let h = 0.5 * (a[0] * a[0] + a[1] * a[1] + a[2] * a[2]).sqrt().sqrt();
        let h = if s.outward { h } else { -h };
        for (u, v) in [(-h, -h), (h, -h), (h, h), (-h, h)] {
            out.push(vec3(c[0] + u, c[1] + v, c[2]));
        }
    }
    out
}

fn unit_frame() -> Frame {
    let one = 1.0f32.to_bits();
    Frame {
        lo: vec3(0.0, 0.0, 0.0),
        hi: vec3(1.0, 1.0, 1.0),
        inverse: vec3(1.0, 1.0, 1.0),
        inverse_single: Single3 { x: one, y: one, z: one },
    }
}

fn pair_stat() -> NodeStat {
    NodeStat {
        minimum: sc(1.0),
        maximum: sc(2.0),
        average: 1.5f32.to_bits(),
        deviation: 0.5f32.to_bits(),
    }
}

fn flat_quads(m: &HostMesh) -> Vec<Quad> {
    m.b_cf
        .iter()
        .map(|c| {
            let c = at(c);
            let p = |s: f64, t: f64| vec3(c[0] + s, c[1] + t, c[2]);
            Quad {
                area: sc(1.0),
                p0: p(-0.5, -0.5),
                p1: p(0.5, -0.5),
                p2: p(0.5, 0.5),
                p3: p(-0.5, 0.5),
            }
        })
        .collect()
}

#[test]
fn foam_writer_round_trips_a_scalar_field() {
    let w = FoamWriter::new("case");

    let mut p = RawScalarField::default();
    p.dimensions = "[0 2 -2 0 0 0 0]".to_string();
    p.internal = vec![sc(1.0), sc(2.0)];
    p.boundary.push((
        "movingWall".to_string(),
        PatchFieldSpec { patch_type: "fixedValue".to_string(), ..Default::default() },
    ));

    let foam = vec![FoamField::scalar("p", &p)];
    let m = mesh_2x1x1();
    let fields: Vec<OutputField> = vec![];
    let ctx = WriteCtx {
        time: sc(0.1),
        step: 1,
        name: "0.1",
        mesh: &m,
        cart: None,
        fields: &fields,
        foam: &foam,
    };
    let files = w.write_step(&ctx);
    assert_eq!(files.len(), 1);
    assert_eq!(files[0].path, "case/0.1/p");

    let text = String::from_utf8(files[0].contents.clone()).unwrap();
    assert!(text.contains("volScalarField"));
    assert!(text.contains("fixedValue"));
}

#[test]
fn foam_writer_matches_calling_the_field_writer_directly() {
    let mut p = RawScalarField::default();
    p.dimensions = "[0 1 0 0 0 0 0]".to_string();
    p.internal = vec![sc(3.0), sc(4.0)];

    let a = write_scalar_field("T", &p, "0.2");

    let w = FoamWriter::new("case");
    let foam = vec![FoamField::scalar("T", &p)];
    let m = mesh_2x1x1();
    let fields: Vec<OutputField> = vec![];
    let ctx = WriteCtx {
        time: sc(0.2),
        step: 2,
        name: "0.2",
        mesh: &m,
        cart: None,
        fields: &fields,
        foam: &foam,
    };
    let files = w.write_step(&ctx);
    let b = String::from_utf8(files[0].contents.clone()).unwrap();
    assert_eq!(a, b, "seam output must be byte-identical to the direct call");
}

#[test]
fn vtu_writer_writes_a_series_and_a_pvd() {
    let mut files = Vec::new();
    let mut w = VtuWriter::new("out", "case");
    let m = mesh_2x1x1();
    let vals = vec![sc(1.0); m.n_cells];
    let foam: Vec<FoamField> = vec![];

    for step in 0..3usize {
        let fields = vec![OutputField::scalar("p", &vals)];
        let ctx = WriteCtx {
            time: sc(step as f64 * 0.1),
            step,
            name: "ignored",
            mesh: &m,
            cart: None,
            fields: &fields,
            foam: &foam,
        };
        files.push(w.write_step(&ctx, &corners(&m)).unwrap());
        assert_eq!(w.series.len(), step);
        files.push(w.list_step(&ctx));
        assert_eq!(w.series.len(), step + 1);
    }

    let names: Vec<&str> = files.iter().map(|f| f.path.as_str()).collect();
    assert!(names.contains(&"out/case_000000.vtu"));
    assert!(names.contains(&"out/case_000002.vtu"));
    assert_eq!(names.len(), 6);
    let last = files.iter().rev().find(|f| f.path == "out/case.pvd").unwrap();
    let pvd = String::from_utf8(last.contents.clone()).unwrap();
    assert_eq!(pvd.matches("<DataSet").count(), 3);
}

#[test]
fn nvdb_writer_refuses_a_non_cartesian_mesh_by_default() {
    let w = NvdbWriter::new("out", "t", Precision::F32);
    let m = mesh_2x1x1();
    let vals = vec![sc(1.0); m.n_cells];
    let fields = vec![OutputField::scalar("p", &vals)];
    let foam: Vec<FoamField> = vec![];
    let ctx = WriteCtx {
        time: sc(0.0),
        step: 0,
        name: "0",
        mesh: &m,
        cart: None,
        fields: &fields,
        foam: &foam,
    };
    let grids = vec![];
    let err = w.write_step(STRICT, &ctx, &unit_frame(), &grids, &mut vec![]).unwrap_err().text();
    assert!(err.contains("nvdb"), "{err}");
    let skipped = w.write_step(Policy { permissive: true }, &ctx, &unit_frame(), &grids, &mut vec![]).unwrap();
    assert!(skipped.is_empty());
    let v = VdbWriter::new("out", "t");
    let err = v.write_step(STRICT, &ctx, &vec![], &mut vec![]).unwrap_err().text();
    assert!(err.contains("-output vdb") && err.contains("usda (boundary surface only)"), "{err}");
}

#[test]
fn nvdb_writer_writes_when_cartesian_is_given() {
    let w = NvdbWriter::new("out", "t", Precision::F32);
    let m = mesh_2x1x1();
    let cart = CartesianInfo {
        nx: 2,
        ny: 1,
        nz: 1,
        origin: vec3(0.0, 0.0, 0.0),
        spacing: vec3(0.5, 1.0, 1.0),
    };
    let vals = vec![sc(1.0), sc(2.0)];
    let fields = vec![OutputField::scalar("p", &vals)];
    let foam: Vec<FoamField> = vec![];
    let ctx = WriteCtx {
        time: sc(0.0),
        step: 0,
        name: "0",
        mesh: &m,
        cart: Some(&cart),
        fields: &fields,
        foam: &foam,
    };
    let grids = vec![GridField {
        name: "p".to_string(),
        values: GridValues::Scalar(Samples {
            values: vals.clone(),
            root: pair_stat(),
            upper: vec![pair_stat()],
            lower: vec![pair_stat()],
            leaf: vec![pair_stat()],
        }),
    }];
    let files = w.write_step(STRICT, &ctx, &unit_frame(), &grids, &mut vec![]).unwrap();
    assert_eq!(files.len(), 1);
    assert_eq!(files[0].path, "out/t_000000.nvdb");
    assert_eq!(files[0].contents[..8], MAGIC_FILE.to_le_bytes());

    let v = VdbWriter::new("out", "t");
    let files = v.write_step(STRICT, &ctx, &vec![vec![]], &mut vec![]).unwrap();
    assert_eq!(files[0].path, "out/t_000000.vdb");
    assert_eq!(files[0].contents[..8], MAGIC.to_le_bytes());
}

#[test]
fn usda_writer_accumulates_time_samples() {
    let mut w = UsdaWriter::new("scene.usda", "vdb", "case", "vdb");
    let mut text = String::new();
    let m = mesh_2x1x1();
    let vals = vec![sc(1.0); m.n_cells];
    let foam: Vec<FoamField> = vec![];

    for step in 0..2usize {
        let fields = vec![OutputField::scalar("T", &vals)];
        let ctx = WriteCtx {
            time: sc(step as f64),
            step,
            name: "ignored",
            mesh: &m,
            cart: None,
            fields: &fields,
            foam: &foam,
        };
        text = write_usda_scene(&w.write_step(&ctx, &flat_quads(&m)));
    }

    assert!(text.contains("def Volume \"T\""));
    assert!(text.contains("case_000000.vdb"));
    assert!(text.contains("case_000001.vdb"));
    assert!(text.contains("def GeomSubset"));
}

#[test]
fn a_vector_has_four_series_in_the_order_in_which_they_were_seen() {
    let mut w = UsdaWriter::new("scene.usda", "VDB", "case", "nvdb");
    let m = mesh_2x1x1();
    let u = vec![vec3(1.0, 0.0, 0.0); m.n_cells];
    let t = vec![sc(1.0); m.n_cells];
    let foam: Vec<FoamField> = vec![];
    for step in 0..2usize {
        let fields = if step == 0 {
            vec![OutputField::vector("U", &u)]
        } else {
            vec![OutputField::scalar("T", &t), OutputField::vector("U", &u)]
        };
        let ctx = WriteCtx {
            time: sc(step as f64),
            step,
            name: "ignored",
            mesh: &m,
            cart: None,
            fields: &fields,
            foam: &foam,
        };
        let scene = w.write_step(&ctx, &flat_quads(&m));
        assert_eq!(scene.volumes[0].name, "U_x");
        assert_eq!(scene.volumes[0].field_name, "U.x");
    }
    let names: Vec<&str> = w.series.iter().map(|s| s.name.as_str()).collect();
    assert_eq!(names, ["U.x", "U.y", "U.z", "U.mag", "T"]);
    let frames: Vec<usize> = w.series.iter().map(|s| s.frames.len()).collect();
    assert_eq!(frames, [2, 2, 2, 2, 1]);
    assert_eq!(w.series[4].frames[0].path, "./VDB/case_000001.nvdb");
}

#[test]
fn steps_are_numbered_with_at_least_six_digits() {
    assert_eq!(step_name("case", 0, "vtu"), "case_000000.vtu");
    assert_eq!(step_name("case", 123456, "vtu"), "case_123456.vtu");
    assert_eq!(step_name("case", 12345678, "vtu"), "case_12345678.vtu");
    assert_eq!(path_under("out", "a"), "out/a");
    assert_eq!(path_under("out/", "a"), "out/a");
    assert_eq!(path_under("", "a"), "a");
    assert_eq!(path_under("out", "/abs/a"), "/abs/a");
    assert_eq!(path_under("out", ""), "out/");
}

#[test]
fn a_grid_begins_half_a_cell_below_the_lowest_centre() {
    let m = mesh_2x1x1();
    let lo = lowest_centre(&m);
    assert_eq!(lo, vec3(0.25, 0.5, 0.5));
    let cart = CartesianGrid { nx: 2, ny: 1, nz: 1, dx: sc(0.5), dy: sc(1.0), dz: sc(1.0) };
    let corner = vec3(
        fl(lo.x) - 0.5 * fl(cart.dx),
        fl(lo.y) - 0.5 * fl(cart.dy),
        fl(lo.z) - 0.5 * fl(cart.dz),
    );
    let g = cartesian_info(&cart, corner);
    assert_eq!((g.nx, g.ny, g.nz), (2, 1, 1));
    assert_eq!(g.spacing, vec3(0.5, 1.0, 1.0));
    assert_eq!(g.origin, vec3(0.0, 0.0, 0.0));

    let mut shifted = m;
    for c in &mut shifted.c {
        c.x = sc(fl(c.x) - 3.0);
    }
    shifted.c.reverse();
    assert_eq!(lowest_centre(&shifted), vec3(-2.75, 0.5, 0.5));
}
