use ofgpu::error::Error;
use ofgpu::manifest::{
    check_layout, check_poly_path, layout_manifest, pair_patches, read_manifest, FaceGap,
    InterfaceEntry, InterfaceRequest, LoadedRegion, PairingCheck, RegionEntry, RegionKind,
    RegionsManifest, DEFAULT_TOLERANCE,
};
use ofgpu::mesh::{Label, PatchInfo, PatchKind, Vec3};
use ofgpu::polymesh::{build_host_mesh, read_poly_mesh, MeshFiles, PolyMeshRaw, TextFile};
use ofgpu::regions::{check_r1, reverse_face, split_by_zones, SplitInterface};
use ofgpu::scalar::Scalar;

fn sc(v: f64) -> Scalar {
    Scalar { bits: v.to_bits() }
}

fn fl(s: Scalar) -> f64 {
    f64::from_bits(s.bits)
}

fn vec3(x: f64, y: f64, z: f64) -> Vec3 {
    Vec3 { x: sc(x), y: sc(y), z: sc(z) }
}

fn block(n: [usize; 3], lo: [f64; 3], hi: [f64; 3]) -> PolyMeshRaw {
    let at = |d: usize, i: usize| lo[d] + (hi[d] - lo[d]) * i as f64 / n[d] as f64;
    let node = |i: usize, j: usize, k: usize| -> Label {
        (i + (n[0] + 1) * (j + (n[1] + 1) * k)) as Label
    };
    let cell = |i: usize, j: usize, k: usize| -> Label { (i + n[0] * (j + n[1] * k)) as Label };
    let up = |d: usize, c: [usize; 3]| -> Vec<Label> {
        let [i, j, k] = c;
        match d {
            0 => vec![
                node(i + 1, j, k),
                node(i + 1, j + 1, k),
                node(i + 1, j + 1, k + 1),
                node(i + 1, j, k + 1),
            ],
            1 => vec![
                node(i, j + 1, k),
                node(i, j + 1, k + 1),
                node(i + 1, j + 1, k + 1),
                node(i + 1, j + 1, k),
            ],
            _ => vec![
                node(i, j, k + 1),
                node(i + 1, j, k + 1),
                node(i + 1, j + 1, k + 1),
                node(i, j + 1, k + 1),
            ],
        }
    };
    let down = |d: usize, c: [usize; 3]| -> Vec<Label> {
        let [i, j, k] = c;
        match d {
            0 => vec![node(i, j, k), node(i, j, k + 1), node(i, j + 1, k + 1), node(i, j + 1, k)],
            1 => vec![node(i, j, k), node(i + 1, j, k), node(i + 1, j, k + 1), node(i, j, k + 1)],
            _ => vec![node(i, j, k), node(i, j + 1, k), node(i + 1, j + 1, k), node(i + 1, j, k)],
        }
    };
    let mut points = Vec::new();
    for k in 0..=n[2] {
        for j in 0..=n[1] {
            for i in 0..=n[0] {
                points.push(vec3(at(0, i), at(1, j), at(2, k)));
            }
        }
    }
    let mut cells = Vec::new();
    for k in 0..n[2] {
        for j in 0..n[1] {
            for i in 0..n[0] {
                cells.push([i, j, k]);
            }
        }
    }
    let (mut faces, mut owner, mut neighbour) = (Vec::new(), Vec::new(), Vec::new());
    for c in &cells {
        for d in 0..3 {
            if c[d] + 1 < n[d] {
                let mut next = *c;
                next[d] += 1;
                faces.push(up(d, *c));
                owner.push(cell(c[0], c[1], c[2]));
                neighbour.push(cell(next[0], next[1], next[2]));
            }
        }
    }
    let mut patches = Vec::new();
    let mut start = 0;
    for (d, high, name) in [
        (0, false, "xmin"),
        (0, true, "xmax"),
        (1, false, "ymin"),
        (1, true, "ymax"),
        (2, false, "zmin"),
        (2, true, "zmax"),
    ] {
        let mut size = 0;
        for c in &cells {
            if high && c[d] + 1 == n[d] {
                faces.push(up(d, *c));
            } else if !high && c[d] == 0 {
                faces.push(down(d, *c));
            } else {
                continue;
            }
            owner.push(cell(c[0], c[1], c[2]));
            size += 1;
        }
        patches.push(PatchInfo {
            name: name.to_string(),
            patch_type: "patch".to_string(),
            kind: PatchKind::Generic,
            start,
            size,
            nbr_patch: None,
        });
        start += size;
    }
    PolyMeshRaw { points, faces, owner, neighbour, patches }
}

#[allow(dead_code)]
struct Geometry {
    sf: Vec<[f64; 3]>,
    cf: Vec<[f64; 3]>,
    v: Vec<f64>,
    c: Vec<[f64; 3]>,
}

fn at(v: &Vec3) -> [f64; 3] {
    [fl(v.x), fl(v.y), fl(v.z)]
}

fn geometry(raw: &PolyMeshRaw) -> Geometry {
    let n = raw.owner.iter().map(|o| *o as usize + 1).max().unwrap_or(0);
    let mut g = Geometry {
        sf: Vec::new(),
        cf: Vec::new(),
        v: vec![0.0; n],
        c: vec![[0.0; 3]; n],
    };
    let mut count = vec![0.0; n];
    for (f, face) in raw.faces.iter().enumerate() {
        let p: Vec<[f64; 3]> = face.iter().map(|i| at(&raw.points[*i as usize])).collect();
        let mut area = [0.0; 3];
        for i in 1..p.len() - 1 {
            for k in 0..3 {
                let (a, b) = ((k + 1) % 3, (k + 2) % 3);
                area[k] += 0.5
                    * ((p[i][a] - p[0][a]) * (p[i + 1][b] - p[0][b])
                        - (p[i][b] - p[0][b]) * (p[i + 1][a] - p[0][a]));
            }
        }
        let mut mid = [0.0; 3];
        for q in &p {
            for k in 0..3 {
                mid[k] += q[k] / p.len() as f64;
            }
        }
        let flux = (area[0] * mid[0] + area[1] * mid[1] + area[2] * mid[2]) / 3.0;
        let mut touch = |cell: usize, sign: f64| {
            g.v[cell] += sign * flux;
            count[cell] += 1.0;
            for k in 0..3 {
                g.c[cell][k] += mid[k];
            }
        };
        touch(raw.owner[f] as usize, 1.0);
        if f < raw.neighbour.len() {
            touch(raw.neighbour[f] as usize, -1.0);
        }
        g.sf.push(area);
        g.cf.push(mid);
    }
    for i in 0..n {
        for k in 0..3 {
            g.c[i][k] /= count[i];
        }
    }
    g
}

fn union_block() -> PolyMeshRaw {
    block([4, 4, 8], [0.0, 0.0, 0.0], [1.0, 1.0, 2.0])
}

fn sub_block(z_lo: f64) -> PolyMeshRaw {
    block([4, 4, 4], [0.0, 0.0, z_lo], [1.0, 1.0, z_lo + 1.0])
}

fn distance(a: [f64; 3], b: [f64; 3]) -> f64 {
    let d = [a[0] - b[0], a[1] - b[1], a[2] - b[2]];
    (d[0] * d[0] + d[1] * d[1] + d[2] * d[2]).sqrt()
}

fn zones_of(raw: &PolyMeshRaw) -> Vec<(String, Vec<Label>)> {
    let g = geometry(raw);
    let (mut lower, mut upper) = (Vec::new(), Vec::new());
    for (c, z) in g.c.iter().enumerate() {
        if z[2] < 1.0 {
            lower.push(c as Label);
        } else {
            upper.push(c as Label);
        }
    }
    vec![("lower".to_string(), lower), ("upper".to_string(), upper)]
}

fn split_fixture() -> (Vec<(String, PolyMeshRaw)>, Vec<SplitInterface>, PolyMeshRaw) {
    let raw = union_block();
    let zones = zones_of(&raw);
    let (regions, ifaces) = split_by_zones(&raw, &zones).expect("split");
    (regions, ifaces, raw)
}

fn face_coords(raw: &PolyMeshRaw, f: usize) -> Vec<Vec3> {
    raw.faces[f].iter().map(|&v| raw.points[v as usize]).collect()
}

fn patch_owners(raw: &PolyMeshRaw, patch: &str) -> Vec<Label> {
    let n_if = raw.neighbour.len();
    let p = raw.patches.iter().find(|p| p.name == patch).expect(patch);
    raw.owner[n_if + p.start..n_if + p.start + p.size].to_vec()
}

fn patch_face_coords(raw: &PolyMeshRaw, patch: &str) -> Vec<Vec<Vec3>> {
    let n_if = raw.neighbour.len();
    let p = raw.patches.iter().find(|p| p.name == patch).expect(patch);
    (0..p.size).map(|k| face_coords(raw, n_if + p.start + k)).collect()
}

fn region(name: &str, kind: &str, dir: &str, material: Option<&str>) -> RegionEntry {
    RegionEntry {
        name: name.to_string(),
        kind: kind.to_string(),
        poly_mesh: dir.to_string(),
        material: material.map(|m| m.to_string()),
    }
}

fn interface(regions: [&str; 2], patches: [&str; 2], tolerance: f64) -> InterfaceEntry {
    InterfaceEntry {
        regions: regions.map(|s| s.to_string()),
        patches: patches.map(|s| s.to_string()),
        faces: None,
        tolerance: sc(tolerance),
    }
}

fn manifest(regions: Vec<RegionEntry>, interfaces: Vec<InterfaceEntry>) -> RegionsManifest {
    RegionsManifest { version: 1, units: "m".to_string(), regions, interfaces, source: None }
}

fn refused(m: RegionsManifest) -> String {
    read_manifest("regions.json", m).expect_err("a broken rule").text()
}

fn loaded(regions: &[(String, PolyMeshRaw)], kind: RegionKind) -> Vec<LoadedRegion> {
    regions
        .iter()
        .map(|(name, raw)| LoadedRegion {
            name: name.clone(),
            kind,
            material: None,
            raw: raw.clone(),
            mesh: build_host_mesh(raw).unwrap(),
        })
        .collect()
}

/// The files of a mesh, as a writer would leave them in a region's directory.
fn on_disk(raw: &PolyMeshRaw, dir: &str) -> MeshFiles {
    let file = |name: &str, body: String| TextFile {
        path: format!("{dir}/{name}"),
        text: format!(
            "FoamFile\n{{\n    version 2.0;\n    format ascii;\n    object {name};\n}}\n\n{body}\n"
        ),
    };
    let list = |items: Vec<String>| format!("{}\n(\n{}\n)", items.len(), items.join("\n"));
    let labels = |v: &Vec<Label>| list(v.iter().map(|x| x.to_string()).collect());
    let corner = |p: &Vec3| format!("({} {} {})", fl(p.x), fl(p.y), fl(p.z));
    let face = |f: &Vec<Label>| {
        let v: Vec<String> = f.iter().map(|x| x.to_string()).collect();
        format!("{}({})", f.len(), v.join(" "))
    };
    let patch = |p: &PatchInfo| {
        format!(
            "{}\n{{\n    type {};\n    nFaces {};\n    startFace {};\n}}",
            p.name,
            p.patch_type,
            p.size,
            raw.neighbour.len() + p.start
        )
    };
    MeshFiles {
        dir: dir.to_string(),
        points: file("points", list(raw.points.iter().map(corner).collect())),
        faces: file("faces", list(raw.faces.iter().map(face).collect())),
        owner: file("owner", labels(&raw.owner)),
        neighbour: file("neighbour", labels(&raw.neighbour)),
        boundary: file("boundary", list(raw.patches.iter().map(patch).collect())),
    }
}

fn measured(m: &RegionsManifest, r: &Vec<LoadedRegion>) -> Vec<Vec<FaceGap>> {
    let mut out = Vec::new();
    for i in 0..m.interfaces.len() {
        let mut gaps = Vec::new();
        if let Ok(p) = pair_patches(m, r, i) {
            let (a, b) = (geometry(&r[p.region_a].raw), geometry(&r[p.region_b].raw));
            for k in 0..p.size {
                let x = r[p.region_a].raw.neighbour.len() + p.start_a + k;
                let y = r[p.region_b].raw.neighbour.len() + p.start_b + k;
                let (ma, mb) = (distance(a.sf[x], [0.0; 3]), distance(b.sf[y], [0.0; 3]));
                let dot: f64 = (0..3).map(|d| a.sf[x][d] / ma * (b.sf[y][d] / mb)).sum();
                gaps.push(FaceGap {
                    centroid: sc(distance(a.cf[x], b.cf[y]) / ma.sqrt()),
                    area: sc((ma - mb).abs() / ma),
                    normal: sc(dot + 1.0),
                });
            }
        }
        out.push(gaps);
    }
    out
}

fn two_zone_layout() -> (RegionsManifest, Vec<LoadedRegion>) {
    let (regions, ifaces, _) = split_fixture();
    let names: Vec<String> = regions.iter().map(|r| r.0.clone()).collect();
    let m = layout_manifest(&names, &vec![RegionKind::Solid, RegionKind::Solid], &ifaces, None)
        .expect("layout_manifest");
    (m, loaded(&regions, RegionKind::Solid))
}

fn checked(
    m: RegionsManifest,
    r: &Vec<LoadedRegion>,
) -> Result<(Vec<InterfaceRequest>, Vec<PairingCheck>), Error> {
    let m = read_manifest("regions.json", m)?;
    let gaps = measured(&m, r);
    check_layout(&m, r, &gaps)
}

#[test]
fn a_manifest_that_breaks_a_rule_is_refused_by_name() {
    let fluid = || region("f", "fluid", "f/polyMesh", None);
    let solid = || region("s", "solid", "s/polyMesh", None);
    let two = || vec![fluid(), solid()];
    let mut second = manifest(vec![solid()], vec![]);
    second.version = 2;
    let mut feet = manifest(vec![solid()], vec![]);
    feet.units = "ft".to_string();
    let cases: Vec<(RegionsManifest, &[&str])> = vec![
        (second, &["2"]),
        (feet, &["ft", "scale"]),
        (
            manifest(vec![solid(), region("s", "solid", "x/polyMesh", None)], vec![]),
            &["twice", "'s'"],
        ),
        (manifest(vec![region("a b", "solid", "x/polyMesh", None)], vec![]), &["a b"]),
        (manifest(vec![region("s", "gas", "x/polyMesh", None)], vec![]), &["gas"]),
        (manifest(vec![region("f", "fluid", "x/polyMesh", Some("steel"))], vec![]), &["steel"]),
        (
            manifest(vec![fluid(), region("g", "fluid", "g/polyMesh", None)], vec![]),
            &["'f'", "'g'"],
        ),
        (manifest(vec![solid(), fluid()], vec![]), &["regions[1]", "'f'"]),
        (
            manifest(two(), vec![interface(["f", "f"], ["f_to_f", "f_to_f"], 1e-9)]),
            &["both sides"],
        ),
        (
            manifest(two(), vec![interface(["f", "ghost"], ["f_to_ghost", "ghost_to_f"], 1e-9)]),
            &["ghost"],
        ),
        (
            manifest(two(), vec![interface(["f", "s"], ["a", "b"], 1e-9)]),
            &["f_to_s", "s_to_f"],
        ),
        (
            manifest(two(), vec![interface(["f", "s"], ["f_to_s", "s_to_f"], 0.0)]),
            &["tolerance"],
        ),
    ];
    for (m, wants) in cases {
        let e = refused(m);
        for w in wants {
            assert!(e.contains(w), "want '{w}' in: {e}");
        }
    }
    let e = check_poly_path("C:/elsewhere/polyMesh", false).unwrap_err().text();
    assert!(e.contains("R6") && e.contains("C:/elsewhere/polyMesh"), "{e}");
    let e = check_poly_path("../x/polyMesh", false).unwrap_err().text();
    assert!(e.contains("R6") && e.contains(".."), "{e}");
    for p in ["/x", "a/../b", "a/..", "..", "C:/x"] {
        assert!(check_poly_path(p, false).is_err(), "{p}");
        assert!(check_poly_path(p, true).is_err(), "{p}");
    }
    for p in ["a\\..\\b", "C:\\x", "\\\\host\\x"] {
        assert!(check_poly_path(p, false).is_ok(), "{p}");
        assert!(check_poly_path(p, true).is_err(), "{p}");
    }
    for p in ["a/polyMesh", "a..b/polyMesh", "...", "x:y/polyMesh", "./a"] {
        assert!(check_poly_path(p, false).is_ok(), "{p}");
        assert!(check_poly_path(p, true).is_ok(), "{p}");
    }

    let raw = PolyMeshRaw {
        points: vec![vec3(0.0, 0.0, 0.0); 8],
        faces: vec![vec![0, 1, 2, 3], vec![4, 5, 6, 7]],
        owner: vec![1, 0],
        neighbour: vec![2, 1],
        patches: Vec::new(),
    };
    let e = check_r1(&raw, "test region").expect_err("ordering breaks").text();
    assert!(e.contains("R1") && e.contains("face 1"), "{e}");

    let (mut m, r) = two_zone_layout();
    m.interfaces[0].patches[0] = "nonsense".to_string();
    let e = checked(m, &r).unwrap_err().text();
    assert!(e.contains("nonsense") && e.contains("lower_to_upper"), "{e}");

    let (m, mut r) = two_zone_layout();
    for p in r[0].mesh.patches.iter_mut().filter(|p| p.name == "lower_to_upper") {
        p.patch_type = "wall".to_string();
    }
    let e = checked(m, &r).unwrap_err().text();
    assert!(e.contains("wall") && e.contains("R3"), "{e}");

    let (mut m, r) = two_zone_layout();
    assert_eq!(m.interfaces[0].faces, Some(16));
    m.interfaces[0].faces = Some(15);
    let e = checked(m, &r).unwrap_err().text();
    assert!(e.contains("15") && e.contains("16"), "{e}");
}

#[test]
fn the_layout_round_trips_through_disk_and_load_checks_r1_to_r6() {
    let (regions, _, _) = split_fixture();
    let (m, _) = two_zone_layout();
    let stored: Vec<(String, PolyMeshRaw)> = regions
        .iter()
        .enumerate()
        .map(|(i, (name, raw))| {
            let files = on_disk(raw, &m.regions[i].poly_mesh);
            (name.clone(), read_poly_mesh(&files).expect("the region reads back"))
        })
        .collect();
    let layout = loaded(&stored, RegionKind::Solid);
    assert_eq!(layout.len(), 2);
    for (i, (name, raw0)) in regions.iter().enumerate() {
        let lr = &layout[i];
        assert_eq!(m.regions[i].name, *name);
        assert_eq!(m.regions[i].poly_mesh, format!("{name}/polyMesh"));
        assert!(check_poly_path(&m.regions[i].poly_mesh, false).is_ok());
        assert!(check_r1(&lr.raw, name).is_ok());
        assert_eq!(lr.name, *name);
        assert_eq!(lr.kind, RegionKind::Solid);
        assert_eq!(lr.material, None);
        assert_eq!(lr.raw.points, raw0.points);
        assert_eq!(lr.raw.faces, raw0.faces);
        assert_eq!(lr.raw.owner, raw0.owner);
        assert_eq!(lr.raw.neighbour, raw0.neighbour);
        assert_eq!(lr.raw.patches.len(), raw0.patches.len());
        for (p, q) in lr.raw.patches.iter().zip(&raw0.patches) {
            assert_eq!(p.name, q.name);
            assert_eq!(p.patch_type, q.patch_type);
            assert_eq!(p.start, q.start);
            assert_eq!(p.size, q.size);
        }
    }
    assert_eq!(m.interfaces[0].tolerance, Scalar { bits: DEFAULT_TOLERANCE });
    assert_eq!(fl(m.interfaces[0].tolerance), 1e-9);
    let (interfaces, pairing) = checked(m, &layout).expect("check_layout");
    assert_eq!(interfaces.len(), 1);
    assert_eq!((interfaces[0].region_a, interfaces[0].region_b), (0, 1));
    assert_eq!(fl(interfaces[0].r_c), 0.0);
    for pc in &pairing {
        println!(
            "pairing {}: {} faces, worst centroid {:e}, area {:e}, normal {:e}",
            pc.name,
            pc.n_faces,
            fl(pc.worst_centroid),
            fl(pc.worst_area),
            fl(pc.worst_normal)
        );
        assert_eq!(pc.name, "lower <-> upper");
        assert_eq!(pc.n_faces, 16);
        assert!(fl(pc.worst_centroid) <= 1e-14, "{pc:?}");
        assert!(fl(pc.worst_area) <= 1e-15, "{pc:?}");
        assert!(fl(pc.worst_normal) <= 1e-15, "{pc:?}");
    }
}

#[test]
fn faces_that_do_not_meet_are_refused() {
    let gap = |c: f64, a: f64, n: f64| FaceGap { centroid: sc(c), area: sc(a), normal: sc(n) };
    let (m, r) = two_zone_layout();
    for (k, bad, want) in [
        (3, gap(1e-3, 0.0, 0.0), "|Cf_A - Cf_B|/sqrt(|Sf|) = 0.001"),
        (5, gap(0.0, 0.25, 0.0), "areas differ by 0.25"),
        (7, gap(0.0, 0.0, 2.0), "n_A . n_B + 1 = 2"),
        (9, gap(f64::NAN, 0.0, 0.0), "= NaN"),
    ] {
        let mut gaps = measured(&m, &r);
        gaps[0][k] = bad;
        let e = check_layout(&m, &r, &gaps).unwrap_err().text();
        assert!(e.contains(want) && e.contains(&format!("face {k}")), "{e}");
    }
}

#[test]
fn reversing_a_face_twice_gives_it_back() {
    assert_eq!(reverse_face(&[4, 7, 9, 2]), vec![4, 2, 9, 7]);
    assert_eq!(reverse_face(&reverse_face(&[4, 7, 9, 2])), vec![4, 7, 9, 2]);
}

#[test]
fn a_two_zone_block_splits_into_two_standalone_regions_with_one_conformal_pair() {
    let (regions, ifaces, _) = split_fixture();
    let (lo, up) = (&regions[0].1, &regions[1].1);
    let names: Vec<&str> = regions.iter().map(|(n, _)| n.as_str()).collect();
    assert_eq!(names, ["lower", "upper"]);
    assert_eq!(ifaces.len(), 1);
    let si = &ifaces[0];
    assert_eq!((si.region_a, si.region_b), (0, 1));
    assert_eq!(si.patch_a, "lower_to_upper");
    assert_eq!(si.patch_b, "upper_to_lower");
    assert_eq!(si.n_faces, 16);
    let (lo_ref, up_ref) =
        (sub_block(0.0), sub_block(1.0));
    for (name, raw) in [("lower", lo), ("upper", up)] {
        println!(
            "{name}: 64 cells, {} internal faces, {} boundary faces, 6 patches of 16",
            raw.neighbour.len(),
            raw.owner.len() - raw.neighbour.len()
        );
    }
    for (raw, want) in [
        (lo, &["xmin", "xmax", "ymin", "ymax", "zmin", "lower_to_upper"][..]),
        (up, &["xmin", "xmax", "ymin", "ymax", "zmax", "upper_to_lower"][..]),
    ] {
        let pn: Vec<&str> = raw.patches.iter().map(|p| p.name.as_str()).collect();
        assert_eq!(pn, want);
        assert!(raw.patches.iter().all(|p| p.patch_type == "patch" && p.size == 16));
    }
    assert_eq!(lo.owner, lo_ref.owner);
    assert_eq!(lo.neighbour, lo_ref.neighbour);
    let n_if = up.neighbour.len();
    assert_eq!(up.neighbour, up_ref.neighbour);
    assert_eq!(&up.owner[..n_if], &up_ref.owner[..n_if]);
    assert_ne!(up.owner, up_ref.owner, "patch order, not the mesh, differs");
    assert_eq!(patch_owners(up, "zmax"), patch_owners(&up_ref, "zmax"));
    assert_eq!(patch_owners(up, "upper_to_lower"), patch_owners(&up_ref, "zmin"));
    for f in 0..144 {
        assert_eq!(face_coords(lo, f), face_coords(&lo_ref, f), "lower internal {f}");
        assert_eq!(face_coords(up, f), face_coords(&up_ref, f), "upper internal {f}");
    }
    for name in ["xmin", "xmax", "ymin", "ymax"] {
        assert_eq!(patch_face_coords(lo, name), patch_face_coords(&lo_ref, name));
        assert_eq!(patch_face_coords(up, name), patch_face_coords(&up_ref, name));
    }
    assert_eq!(patch_face_coords(lo, "zmin"), patch_face_coords(&lo_ref, "zmin"));
    assert_eq!(patch_face_coords(lo, "lower_to_upper"), patch_face_coords(&lo_ref, "zmax"));
    assert_eq!(patch_face_coords(up, "zmax"), patch_face_coords(&up_ref, "zmax"));
    assert_eq!(patch_face_coords(up, "upper_to_lower"), patch_face_coords(&up_ref, "zmin"));
    let (lm, um) = (build_host_mesh(lo).unwrap(), build_host_mesh(up).unwrap());
    let (lref, uref) = (build_host_mesh(&lo_ref).unwrap(), build_host_mesh(&up_ref).unwrap());
    let (lg, ug) = (geometry(lo), geometry(up));
    let (lrg, urg) = (geometry(&lo_ref), geometry(&up_ref));
    for (m, r, n, tag) in [(&lg, &lrg, lm.n_cells, "lower"), (&ug, &urg, um.n_cells, "upper")] {
        for c in 0..n {
            assert_eq!(m.v[c].to_bits(), r.v[c].to_bits(), "{tag} v cell {c}");
            assert_eq!(m.c[c], r.c[c], "{tag} c cell {c}");
        }
    }
    let ifl = lm.patches.iter().find(|p| p.name == "lower_to_upper").unwrap();
    let zl = lref.patches.iter().find(|p| p.name == "zmax").unwrap();
    let ifu = um.patches.iter().find(|p| p.name == "upper_to_lower").unwrap();
    let zu = uref.patches.iter().find(|p| p.name == "zmin").unwrap();
    for k in 0..16 {
        let (a, b) = (144 + ifl.start + k, 144 + zl.start + k);
        assert_eq!(lg.sf[a], lrg.sf[b], "lower interface b_sf {k}");
        assert_eq!(lg.cf[a], lrg.cf[b], "lower interface b_cf {k}");
        let (a, b) = (144 + ifu.start + k, 144 + zu.start + k);
        assert_eq!(ug.sf[a], urg.sf[b], "upper interface b_sf {k}");
        assert_eq!(ug.cf[a], urg.cf[b], "upper interface b_cf {k}");
    }
    for k in 0..16 {
        let a = lg.sf[144 + ifl.start + k];
        let b = ug.sf[144 + ifu.start + k];
        assert_eq!((a[0] + b[0]).to_bits(), 0.0f64.to_bits(), "Sf x {k}");
        assert_eq!((a[1] + b[1]).to_bits(), 0.0f64.to_bits(), "Sf y {k}");
        assert_eq!((a[2] + b[2]).to_bits(), 0.0f64.to_bits(), "Sf z {k}");
        assert!(
            distance(lg.cf[144 + ifl.start + k], ug.cf[144 + ifu.start + k]) <= 1e-14,
            "interface centroid {k}"
        );
    }
}

#[test]
fn split_refuses_what_it_cannot_carry() {
    let raw = union_block();
    let e = split_by_zones(&raw, &vec![("lower".into(), (0..64).collect())]).unwrap_err();
    let e = e.text();
    assert!(e.contains("64 cells are in no zone") && e.contains("cell 64"), "{e}");
    let e = split_by_zones(&raw, &vec![("a".into(), vec![0, 1]), ("b".into(), vec![65, 1])])
        .unwrap_err()
        .text();
    assert!(e.contains("cell 1") && e.contains("'a'") && e.contains("'b'"), "{e}");
    let e = split_by_zones(&raw, &vec![("a".into(), vec![0, 500])]).unwrap_err().text();
    assert!(e.contains("500") && e.contains("128 cells"), "{e}");
    let e = split_by_zones(&raw, &vec![("a".into(), vec![0]), ("b".into(), vec![])])
        .unwrap_err()
        .text();
    assert!(e.contains("empty") && e.contains("'b'"), "{e}");
    let e = split_by_zones(&raw, &vec![("bad;name".into(), (0..128).collect())])
        .unwrap_err()
        .text();
    assert!(e.contains("bad;name"), "{e}");
    let mut cyc = raw.clone();
    cyc.patches.push(PatchInfo {
        name: "periodic".to_string(),
        patch_type: "cyclic".to_string(),
        kind: PatchKind::Cyclic,
        start: 0,
        size: 1,
        nbr_patch: None,
    });
    let e = split_by_zones(&cyc, &zones_of(&raw)).unwrap_err().text();
    assert!(e.contains("periodic") && e.contains("31.1"), "{e}");
}

#[test]
fn a_layout_is_not_written_over_another() {
    assert_eq!(
        ofgpu::manifest::existing_layout("out/regions.json").text(),
        ofgpu::error::Error::Config(
            "out/regions.json already exists - refusing to overwrite an existing layout; write to \
             a fresh directory"
                .to_string()
        )
        .text()
    );
}

#[test]
fn a_face_without_vertices_stays_inside_its_region() {
    let mut raw = block([3, 1, 1], [0.0, 0.0, 0.0], [3.0, 1.0, 1.0]);
    assert_eq!((raw.owner[0], raw.neighbour[0]), (0, 1));
    assert_eq!((raw.owner[1], raw.neighbour[1]), (1, 2));
    raw.faces[0].clear();
    let last = raw.faces.len() - 1;
    raw.faces[last].clear();
    let zones = vec![("a".to_string(), vec![0, 1]), ("b".to_string(), vec![2])];
    let (regions, ifaces) = split_by_zones(&raw, &zones).unwrap();
    assert_eq!(regions[0].1.neighbour, [1]);
    assert!(regions[0].1.faces[0].is_empty());
    assert_eq!(ifaces.len(), 1);
    assert_eq!(ifaces[0].n_faces, 1);
    assert_eq!(regions[1].1.faces.iter().filter(|f| f.is_empty()).count(), 1);

    let zones = vec![("a".to_string(), vec![0, 1])];
    raw.faces[1].clear();
    let e = split_by_zones(&raw, &zones).unwrap_err().text();
    assert!(e.contains("1 cells are in no zone"), "{e}");
}
