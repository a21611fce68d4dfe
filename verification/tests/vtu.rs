use ofgpu::error::Error;
use ofgpu::mesh::{HostMesh, Label, PatchInfo, PatchKind, Vec3};
use ofgpu::output_types::OutputField;
use ofgpu::polymesh::{build_host_mesh, PolyMeshRaw};
use ofgpu::scalar::Scalar;
use ofgpu::vtu::{face_sides, write_parcels_vtp, write_pvd, write_vtu, ParcelSnapshot};

fn sc(v: f64) -> Scalar {
    Scalar { bits: v.to_bits() }
}

fn fl(s: Scalar) -> f64 {
    f64::from_bits(s.bits)
}

fn vec3(x: f64, y: f64, z: f64) -> Vec3 {
    Vec3 { x: sc(x), y: sc(y), z: sc(z) }
}

fn block(n: [usize; 3], lo: [f64; 3], hi: [f64; 3]) -> PolyMeshRaw {
    let at = |d: usize, i: usize| lo[d] + (hi[d] - lo[d]) * i as f64 / n[d] as f64;
    let node = |i: usize, j: usize, k: usize| -> Label {
        (i + (n[0] + 1) * (j + (n[1] + 1) * k)) as Label
    };
    let cell = |i: usize, j: usize, k: usize| -> Label { (i + n[0] * (j + n[1] * k)) as Label };
    let up = |d: usize, c: [usize; 3]| -> Vec<Label> {
        let [i, j, k] = c;
        match d {
            0 => vec![
                node(i + 1, j, k),
                node(i + 1, j + 1, k),
                node(i + 1, j + 1, k + 1),
                node(i + 1, j, k + 1),
            ],
            1 => vec![
                node(i, j + 1, k),
                node(i, j + 1, k + 1),
                node(i + 1, j + 1, k + 1),
                node(i + 1, j + 1, k),
            ],
            _ => vec![
                node(i, j, k + 1),
                node(i + 1, j, k + 1),
                node(i + 1, j + 1, k + 1),
                node(i, j + 1, k + 1),
            ],
        }
    };
    let down = |d: usize, c: [usize; 3]| -> Vec<Label> {
        let [i, j, k] = c;
        match d {
            0 => vec![node(i, j, k), node(i, j, k + 1), node(i, j + 1, k + 1), node(i, j + 1, k)],
            1 => vec![node(i, j, k), node(i + 1, j, k), node(i + 1, j, k + 1), node(i, j, k + 1)],
            _ => vec![node(i, j, k), node(i, j + 1, k), node(i + 1, j + 1, k), node(i + 1, j, k)],
        }
    };
    let mut points = Vec::new();
    for k in 0..=n[2] {
        for j in 0..=n[1] {
            for i in 0..=n[0] {
                points.push(vec3(at(0, i), at(1, j), at(2, k)));
            }
        }
    }
    let mut cells = Vec::new();
    for k in 0..n[2] {
        for j in 0..n[1] {
            for i in 0..n[0] {
                cells.push([i, j, k]);
            }
        }
    }
    let (mut faces, mut owner, mut neighbour) = (Vec::new(), Vec::new(), Vec::new());
    for c in &cells {
        for d in 0..3 {
            if c[d] + 1 < n[d] {
                let mut next = *c;
                next[d] += 1;
                faces.push(up(d, *c));
                owner.push(cell(c[0], c[1], c[2]));
                neighbour.push(cell(next[0], next[1], next[2]));
            }
        }
    }
    let mut patches = Vec::new();
    let mut start = 0;
    for (d, high, name) in [
        (0, false, "xmin"),
        (0, true, "xmax"),
        (1, false, "ymin"),
        (1, true, "ymax"),
        (2, false, "zmin"),
        (2, true, "zmax"),
    ] {
        let mut size = 0;
        for c in &cells {
            if high && c[d] + 1 == n[d] {
                faces.push(up(d, *c));
            } else if !high && c[d] == 0 {
                faces.push(down(d, *c));
            } else {
                continue;
            }
            owner.push(cell(c[0], c[1], c[2]));
            size += 1;
        }
        patches.push(PatchInfo {
            name: name.to_string(),
            patch_type: "patch".to_string(),
            kind: PatchKind::Generic,
            start,
            size,
            nbr_patch: None,
        });
        start += size;
    }
    PolyMeshRaw { points, faces, owner, neighbour, patches }
}

#[allow(dead_code)]
struct Geometry {
    sf: Vec<[f64; 3]>,
    cf: Vec<[f64; 3]>,
    v: Vec<f64>,
    c: Vec<[f64; 3]>,
}

fn at(v: &Vec3) -> [f64; 3] {
    [fl(v.x), fl(v.y), fl(v.z)]
}

fn geometry(raw: &PolyMeshRaw) -> Geometry {
    let n = raw.owner.iter().map(|o| *o as usize + 1).max().unwrap_or(0);
    let mut g = Geometry {
        sf: Vec::new(),
        cf: Vec::new(),
        v: vec![0.0; n],
        c: vec![[0.0; 3]; n],
    };
    let mut count = vec![0.0; n];
    for (f, face) in raw.faces.iter().enumerate() {
        let p: Vec<[f64; 3]> = face.iter().map(|i| at(&raw.points[*i as usize])).collect();
        let mut area = [0.0; 3];
        for i in 1..p.len() - 1 {
            for k in 0..3 {
                let (a, b) = ((k + 1) % 3, (k + 2) % 3);
                area[k] += 0.5
                    * ((p[i][a] - p[0][a]) * (p[i + 1][b] - p[0][b])
                        - (p[i][b] - p[0][b]) * (p[i + 1][a] - p[0][a]));
            }
        }
        let mut mid = [0.0; 3];
        for q in &p {
            for k in 0..3 {
                mid[k] += q[k] / p.len() as f64;
            }
        }
        let flux = (area[0] * mid[0] + area[1] * mid[1] + area[2] * mid[2]) / 3.0;
        let mut touch = |cell: usize, sign: f64| {
            g.v[cell] += sign * flux;
            count[cell] += 1.0;
            for k in 0..3 {
                g.c[cell][k] += mid[k];
            }
        };
        touch(raw.owner[f] as usize, 1.0);
        if f < raw.neighbour.len() {
            touch(raw.neighbour[f] as usize, -1.0);
        }
        g.sf.push(area);
        g.cf.push(mid);
    }
    for i in 0..n {
        for k in 0..3 {
            g.c[i][k] /= count[i];
        }
    }
    g
}

fn mesh_2x1x1() -> HostMesh {
    let raw = block([2, 1, 1], [0.0; 3], [1.0; 3]);
    let g = geometry(&raw);
    let mut m = build_host_mesh(&raw).expect("build_host_mesh");
    let n = m.n_internal_faces;
    let point = |v: &[f64; 3]| vec3(v[0], v[1], v[2]);
    m.sf = g.sf[..n].iter().map(point).collect();
    m.cf = g.cf[..n].iter().map(point).collect();
    m.b_sf = g.sf[n..].iter().map(point).collect();
    m.b_cf = g.cf[n..].iter().map(point).collect();
    m.c = g.c.iter().map(point).collect();
    m
}

fn corners(m: &HostMesh) -> Vec<Vec3> {
    let mut out = Vec::new();
    for s in face_sides(m) {
        let (c, a) = if s.boundary {
            (at(&m.b_cf[s.face]), at(&m.b_sf[s.face]))
        } else {
            (at(&m.cf[s.face]), at(&m.sf[s.face]))
        };
        let h = 0.5 * (a[0] * a[0] + a[1] * a[1] + a[2] * a[2]).sqrt().sqrt();
        let h = if s.outward { h } else { -h };
        for (u, v) in [(-h, -h), (h, -h), (h, h), (-h, h)] {
            out.push(vec3(c[0] + u, c[1] + v, c[2]));
        }
    }
    out
}

struct Parsed {
    appended: Vec<u8>,
    offsets: std::collections::HashMap<String, u64>,
    n_points: usize,
    n_cells: usize,
}

fn find_bytes(haystack: &[u8], needle: &[u8]) -> Option<usize> {
    haystack.windows(needle.len()).position(|w| w == needle)
}

fn parse(bytes: &[u8]) -> Parsed {
    let marker = b"encoding=\"raw\">\n_";
    let marker_start = find_bytes(bytes, marker).expect("no AppendedData marker");
    let data_start = marker_start + marker.len();
    let end_marker = b"\n  </AppendedData>";
    let data_end =
        find_bytes(&bytes[data_start..], end_marker).expect("no AppendedData end") + data_start;
    let appended = bytes[data_start..data_end].to_vec();

    let text = std::str::from_utf8(&bytes[..marker_start]).expect("preamble is valid UTF-8");

    let mut offsets = std::collections::HashMap::new();
    for line in text.lines() {
        if !line.contains("format=\"appended\"") {
            continue;
        }
        let key = if let Some(i) = line.find("Name=\"") {
            let rest = &line[i + 6..];
            rest[..rest.find('"').unwrap()].to_string()
        } else if line.contains("Points") || line.contains("connectivity") {
            "points".to_string()
        } else {
            "unnamed".to_string()
        };
        let oi = line.find("offset=\"").unwrap() + 8;
        let rest = &line[oi..];
        let off: u64 = rest[..rest.find('"').unwrap()].parse().unwrap();
        offsets.insert(key, off);
    }

    let n_points = text
        .find("NumberOfPoints=\"")
        .map(|i| {
            let rest = &text[i + 16..];
            rest[..rest.find('"').unwrap()].parse().unwrap()
        })
        .unwrap();
    let n_cells = text
        .find("NumberOfCells=\"")
        .map(|i| {
            let rest = &text[i + 15..];
            rest[..rest.find('"').unwrap()].parse().unwrap()
        })
        .unwrap();

    Parsed { appended, offsets, n_points, n_cells }
}

fn block_at(p: &Parsed, offset: u64) -> &[u8] {
    let off = offset as usize;
    let len = u64::from_le_bytes(p.appended[off..off + 8].try_into().unwrap()) as usize;
    &p.appended[off + 8..off + 8 + len]
}

fn read_i64_block(p: &Parsed, name: &str) -> Vec<i64> {
    let off = p.offsets[name];
    block_at(p, off)
        .chunks_exact(8)
        .map(|c| i64::from_le_bytes(c.try_into().unwrap()))
        .collect()
}

#[test]
fn round_trips_and_offsets_are_consistent() {
    let m = mesh_2x1x1();
    let scalar_vals: Vec<f64> = (0..m.n_cells).map(|i| 1.5 * (i as f64) + 0.25).collect();
    let scalars: Vec<Scalar> = scalar_vals.iter().map(|v| sc(*v)).collect();
    let fields = vec![OutputField::scalar("p", &scalars)];

    let bytes = write_vtu(&m, &corners(&m), &fields, Some(sc(0.5))).expect("write_vtu");
    let p = parse(&bytes);

    assert_eq!(p.n_cells, m.n_cells);
    assert!(p.n_points > 0);

    let offsets_arr = read_i64_block(&p, "offsets");
    assert_eq!(offsets_arr.len(), m.n_cells);
    let connectivity = read_i64_block(&p, "connectivity");
    assert_eq!(*offsets_arr.last().unwrap(), connectivity.len() as i64);

    let faces_arr = read_i64_block(&p, "faces");
    let faceoffsets_arr = read_i64_block(&p, "faceoffsets");
    assert_eq!(faceoffsets_arr.len(), m.n_cells);

    let mut cursor = 0usize;
    for c in 0..m.n_cells {
        let n_faces_from_file = faces_arr[cursor];
        let expected = (m.cf_offset[c + 1] - m.cf_offset[c]) as i64
            + (m.bcf_offset[c + 1] - m.bcf_offset[c]) as i64;
        assert_eq!(n_faces_from_file, expected, "cell {c} face count");

        let mut walk = cursor + 1;
        for _ in 0..n_faces_from_file {
            let n_pts = faces_arr[walk] as usize;
            walk += 1 + n_pts;
        }
        assert_eq!(walk as i64, faceoffsets_arr[c], "faceoffsets exact for cell {c}");
        cursor = walk;
    }
    assert_eq!(cursor, faces_arr.len(), "appended faces section length exact");

    let field_off = p.offsets["p"];
    let raw = block_at(&p, field_off);
    assert_eq!(raw.len(), m.n_cells * 8);
    let read_back: Vec<f64> = raw
        .chunks_exact(8)
        .map(|c| f64::from_le_bytes(c.try_into().unwrap()))
        .collect();
    for (i, &v) in scalar_vals.iter().enumerate() {
        assert_eq!(read_back[i], v as f64, "field value {i} bit-exact");
    }
}

#[test]
fn rejects_mismatched_field_length() {
    let m = mesh_2x1x1();
    let too_short = vec![sc(0.0); m.n_cells - 1];
    let fields = vec![OutputField::scalar("bad", &too_short)];
    let err = write_vtu(&m, &corners(&m), &fields, None).unwrap_err();
    match err {
        Error::Field { field, .. } => assert_eq!(field, "bad"),
        other => panic!("expected Error::Field, got {other:?}"),
    }
}

#[test]
fn writes_pvd_collection() {
    let series = vec![
        (sc(0.0), "case_0.vtu".to_string()),
        (sc(1.0), "case_1.vtu".to_string()),
    ];
    let text = write_pvd(&series);
    assert!(text.contains("case_0.vtu"));
    assert!(text.contains("case_1.vtu"));
    assert!(text.contains("Collection"));
}

#[test]
fn vector_field_has_three_components() {
    let m = mesh_2x1x1();
    let vecs: Vec<Vec3> = (0..m.n_cells)
        .map(|i| vec3(i as f64, 2.0 * i as f64, -(i as f64)))
        .collect();
    let fields = vec![OutputField::vector("U", &vecs)];
    let bytes = write_vtu(&m, &corners(&m), &fields, None).expect("write_vtu");
    let p = parse(&bytes);
    let off = p.offsets["U"];
    let raw = block_at(&p, off);
    assert_eq!(raw.len(), m.n_cells * 3 * 8);
}

#[test]
fn every_face_side_has_its_four_corners() {
    let m = mesh_2x1x1();
    let sides = face_sides(&m);
    assert_eq!(sides.len(), 12);
    assert_eq!(sides.iter().filter(|s| !s.boundary).count(), 2);
    assert_eq!(sides.iter().filter(|s| !s.boundary && s.outward).count(), 1);
    let points = corners(&m);
    let bytes = write_vtu(&m, &points, &vec![], None).expect("write_vtu");
    let p = parse(&bytes);
    assert_eq!(p.n_points, 48);
    let raw = block_at(&p, 0);
    assert_eq!(raw.len(), 48 * 3 * 8);
    assert_eq!(raw[..8], points[0].x.bits.to_le_bytes());
}

#[test]
fn live_parcels_are_written_and_dead_ones_are_not() {
    let s = ParcelSnapshot {
        x: vec![vec3(1.0, 2.0, 3.0), vec3(4.0, 5.0, 6.0), vec3(7.0, 8.0, 9.0)],
        u: vec![vec3(0.0, 0.0, 0.0); 3],
        d: vec![sc(1e-3); 3],
        temperature: vec![sc(300.0); 3],
        n_p: vec![sc(10.0); 3],
        cell: vec![4, -1, 2],
        uid: vec![7, 8, 9],
    };
    assert_eq!(s.live(), vec![0, 2]);
    let bytes = write_parcels_vtp(&s, Some(sc(0.25)));
    let text = String::from_utf8_lossy(&bytes).into_owned();
    assert!(text.contains("NumberOfPoints=\"2\""));
    let marker = b"encoding=\"raw\">\n_";
    let at = find_bytes(&bytes, marker).unwrap() + marker.len();
    let blob = &bytes[at..];
    assert!(find_bytes(blob, &sc(7.0).bits.to_le_bytes()).is_some());
    assert!(find_bytes(blob, &sc(4.0).bits.to_le_bytes()).is_none());
}
