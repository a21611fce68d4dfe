use ofgpu::contract::Policy;
use ofgpu::error::Error;
use ofgpu::mesh::Vec3;
use ofgpu::msh::parse_msh;
use ofgpu::polymesh::{build_host_mesh, PolyMeshRaw};
use ofgpu::scalar::Scalar;

const STRICT: Policy = Policy { permissive: false };

fn fl(s: Scalar) -> f64 {
    f64::from_bits(s.bits)
}

fn at(v: &Vec3) -> [f64; 3] {
    [fl(v.x), fl(v.y), fl(v.z)]
}

fn cross(a: [f64; 3], b: [f64; 3]) -> [f64; 3] {
    [
        a[1] * b[2] - a[2] * b[1],
        a[2] * b[0] - a[0] * b[2],
        a[0] * b[1] - a[1] * b[0],
    ]
}

fn minus(a: [f64; 3], b: [f64; 3]) -> [f64; 3] {
    [a[0] - b[0], a[1] - b[1], a[2] - b[2]]
}

fn geometry(raw: &PolyMeshRaw, cells: usize) -> (Vec<f64>, f64) {
    let mut volume = vec![0.0; cells];
    let mut sum = vec![[0.0; 3]; cells];
    for (f, face) in raw.faces.iter().enumerate() {
        let p: Vec<[f64; 3]> = face.iter().map(|i| at(&raw.points[*i as usize])).collect();
        let mut area = [0.0; 3];
        let mut flux = 0.0;
        for i in 1..p.len() - 1 {
            let c = cross(minus(p[i], p[0]), minus(p[i + 1], p[0]));
            for k in 0..3 {
                area[k] += 0.5 * c[k];
                flux += 0.5 * c[k] * (p[0][k] + p[i][k] + p[i + 1][k]) / 3.0;
            }
        }
        let o = raw.owner[f] as usize;
        volume[o] += flux / 3.0;
        for k in 0..3 {
            sum[o][k] += area[k];
        }
        if f < raw.neighbour.len() {
            let n = raw.neighbour[f] as usize;
            volume[n] -= flux / 3.0;
            for k in 0..3 {
                sum[n][k] -= area[k];
            }
        }
    }
    let mut worst: f64 = 0.0;
    for s in &sum {
        worst = worst.max((s[0] * s[0] + s[1] * s[1] + s[2] * s[2]).sqrt());
    }
    (volume, worst)
}

fn parse(text: &str) -> Result<PolyMeshRaw, Error> {
    parse_msh(STRICT, text, "<memory>", &mut vec![])
}

fn one_hex_msh() -> String {
    let pts = [
        (0.0, 0.0, 0.0), (1.0, 0.0, 0.0), (1.0, 1.0, 0.0), (0.0, 1.0, 0.0),
        (0.0, 0.0, 1.0), (1.0, 0.0, 1.0), (1.0, 1.0, 1.0), (0.0, 1.0, 1.0),
    ];
    let tags: Vec<i64> = (0..8).map(|i| 11 + i).collect();

    let mut nodes_body = String::new();
    for &t in &tags {
        nodes_body += &format!("{t}\n");
    }
    for &(x, y, z) in pts.iter() {
        nodes_body += &format!("{x} {y} {z}\n");
    }

    let hex_nodes: Vec<String> = tags.iter().map(|t| t.to_string()).collect();

    format!(
        r#"$MeshFormat
4.1 0 8
$EndMeshFormat
$PhysicalNames
1
2 1 "walls"
$EndPhysicalNames
$Entities
0 0 1 1
1 0 0 0 1 1 1 1 1 0
7 0 0 0 1 1 1 0 0
$EndEntities
$Nodes
1 8 11 18
3 1 0 8
{nodes_body}$EndNodes
$Elements
2 7 1 7
2 1 3 6
1 11 14 13 12
2 15 16 17 18
3 11 12 16 15
4 14 18 17 13
5 11 15 18 14
6 12 13 17 16
3 5 5 1
7 {hex}
$EndElements
"#,
        hex = hex_nodes.join(" ")
    )
}

#[test]
fn one_hex_has_six_boundary_faces_and_closes() {
    let raw = match parse(&one_hex_msh()) {
        Ok(r) => r,
        Err(e) => panic!("parse failed: {}", e.text()),
    };
    assert_eq!(raw.points.len(), 8);
    assert_eq!(raw.faces.len(), 6);
    assert_eq!(raw.owner, vec![0; 6]);
    assert_eq!(raw.neighbour.len(), 0);
    assert_eq!(raw.patches.len(), 1);
    assert_eq!(raw.patches[0].name, "walls");
    assert_eq!(raw.patches[0].size, 6);

    let m = match build_host_mesh(&raw) {
        Ok(m) => m,
        Err(e) => panic!("build_host_mesh failed: {}", e.text()),
    };
    assert_eq!(m.n_cells, 1);
    let (v, closure) = geometry(&raw, m.n_cells);
    assert!((v[0] - 1.0).abs() < 1e-10, "v = {}", v[0]);
    assert!(closure < 1e-10, "closure error {}", closure);
}

fn two_hex_msh() -> String {
    let pts = [
        (0.0, 0.0, 0.0), (1.0, 0.0, 0.0), (1.0, 1.0, 0.0), (0.0, 1.0, 0.0),
        (0.0, 0.0, 1.0), (1.0, 0.0, 1.0), (1.0, 1.0, 1.0), (0.0, 1.0, 1.0),
        (2.0, 0.0, 0.0), (2.0, 1.0, 0.0), (2.0, 0.0, 1.0), (2.0, 1.0, 1.0),
    ];
    let hex0 = [0, 1, 2, 3, 4, 5, 6, 7];
    let hex1 = [1, 8, 9, 2, 5, 10, 11, 6];

    let tags: Vec<i64> = (0..pts.len() as i64).map(|i| i + 1).collect();
    let mut nodes_body = String::new();
    for &t in &tags {
        nodes_body += &format!("{t}\n");
    }
    for &(x, y, z) in &pts {
        nodes_body += &format!("{x} {y} {z}\n");
    }
    let n = pts.len();

    let to_tags = |ids: &[usize]| -> String {
        ids.iter().map(|&i| (i + 1).to_string()).collect::<Vec<_>>().join(" ")
    };

    format!(
        r#"$MeshFormat
4.1 0 8
$EndMeshFormat
$PhysicalNames
1
2 1 "walls"
$EndPhysicalNames
$Entities
0 0 0 1
7 0 0 0 2 1 1 0 0
$EndEntities
$Nodes
1 {n} 1 {n}
3 1 0 {n}
{nodes_body}$EndNodes
$Elements
1 2 1 2
3 5 5 2
1 {hex0}
2 {hex1}
$EndElements
"#,
        hex0 = to_tags(&hex0),
        hex1 = to_tags(&hex1),
    )
}

#[test]
fn two_hexes_share_one_internal_face_with_owner_lower_than_neighbour() {
    let raw = match parse(&two_hex_msh()) {
        Ok(r) => r,
        Err(e) => panic!("parse failed: {}", e.text()),
    };
    assert_eq!(raw.neighbour.len(), 1, "exactly one internal face");
    assert_eq!(raw.owner[0], 0);
    assert_eq!(raw.neighbour[0], 1);
    assert_eq!(raw.faces.len() - raw.neighbour.len(), 10, "10 boundary faces");

    let m = match build_host_mesh(&raw) {
        Ok(m) => m,
        Err(e) => panic!("build_host_mesh failed: {}", e.text()),
    };
    assert_eq!(m.n_cells, 2);
    assert_eq!(m.n_internal_faces, 1);
    let (v, closure) = geometry(&raw, m.n_cells);
    assert!((v.iter().sum::<f64>() - 2.0).abs() < 1e-10);
    assert!(closure < 1e-10, "closure error {}", closure);
    assert!(m.owner.iter().zip(&m.neighbour).all(|(o, n)| o < n));
}

#[test]
fn tet_and_pyramid_each_read_with_the_right_face_count() {
    let tet_pts = [
        (0.0, 0.0, 0.0), (1.0, 0.0, 0.0), (0.0, 1.0, 0.0), (0.0, 0.0, 1.0),
    ];
    let pyr_pts = [
        (10.0, 0.0, 0.0), (11.0, 0.0, 0.0), (11.0, 1.0, 0.0), (10.0, 1.0, 0.0),
        (10.5, 0.5, 1.0),
    ];
    let all_pts: Vec<(f64, f64, f64)> =
        tet_pts.iter().chain(pyr_pts.iter()).copied().collect();
    let tags: Vec<i64> = (1..=all_pts.len() as i64).collect();
    let mut nodes_body = String::new();
    for &t in &tags {
        nodes_body += &format!("{t}\n");
    }
    for &(x, y, z) in &all_pts {
        nodes_body += &format!("{x} {y} {z}\n");
    }
    let n = all_pts.len();

    let text = format!(
        r#"$MeshFormat
4.1 0 8
$EndMeshFormat
$PhysicalNames
1
2 1 "walls"
$EndPhysicalNames
$Entities
0 0 0 2
4 0 0 0 1 1 1 0 0
7 0 0 0 11 1 1 0 0
$EndEntities
$Nodes
1 {n} 1 {n}
3 1 0 {n}
{nodes_body}$EndNodes
$Elements
2 2 1 2
3 4 4 1
1 1 2 3 4
3 7 7 1
2 5 6 7 8 9
$EndElements
"#
    );

    let raw = match parse(&text) {
        Ok(r) => r,
        Err(e) => panic!("parse failed: {}", e.text()),
    };
    assert_eq!(raw.neighbour.len(), 0, "the tet and pyramid do not touch");
    assert_eq!(raw.faces.len(), 4 + 5);

    let m = match build_host_mesh(&raw) {
        Ok(m) => m,
        Err(e) => panic!("build_host_mesh failed: {}", e.text()),
    };
    assert_eq!(m.n_cells, 2);
    let (_, closure) = geometry(&raw, m.n_cells);
    assert!(closure < 1e-9, "closure error {}", closure);
}

#[test]
fn a_physical_name_split_into_two_patches() {
    let pts = [
        (0.0, 0.0, 0.0), (1.0, 0.0, 0.0), (1.0, 1.0, 0.0), (0.0, 1.0, 0.0),
        (0.0, 0.0, 1.0), (1.0, 0.0, 1.0), (1.0, 1.0, 1.0), (0.0, 1.0, 1.0),
    ];
    let tags: Vec<i64> = (1..=8).collect();
    let mut nodes_body = String::new();
    for &t in &tags {
        nodes_body += &format!("{t}\n");
    }
    for &(x, y, z) in &pts {
        nodes_body += &format!("{x} {y} {z}\n");
    }

    let text = format!(
        r#"$MeshFormat
4.1 0 8
$EndMeshFormat
$PhysicalNames
2
2 1 "inlet"
2 2 "outlet"
$EndPhysicalNames
$Entities
0 0 2 1
1 0 0 0 1 1 1 1 1 0
2 0 0 0 1 1 1 1 2 0
100 0 0 0 1 1 1 0 0
$EndEntities
$Nodes
1 8 1 8
3 1 0 8
{nodes_body}$EndNodes
$Elements
3 7 1 7
2 1 3 3
1 1 4 3 2
2 1 2 6 5
3 1 5 8 4
2 2 3 3
4 5 8 7 6
5 4 8 7 3
6 2 3 7 6
3 5 5 1
7 1 2 3 4 5 6 7 8
$EndElements
"#
    );

    let raw = match parse(&text) {
        Ok(r) => r,
        Err(e) => panic!("parse failed: {}", e.text()),
    };
    assert_eq!(raw.patches.len(), 2, "{:?}", raw.patches.iter().map(|p| &p.name).collect::<Vec<_>>());
    let names: Vec<&str> = raw.patches.iter().map(|p| p.name.as_str()).collect();
    assert!(names.contains(&"inlet"));
    assert!(names.contains(&"outlet"));
    assert_eq!(raw.patches.iter().map(|p| p.size).sum::<usize>(), 6);
    for p in &raw.patches {
        assert_eq!(p.size, 3, "each named patch has 3 of the 6 faces");
    }

    let m = match build_host_mesh(&raw) {
        Ok(m) => m,
        Err(e) => panic!("build_host_mesh failed: {}", e.text()),
    };
    let (_, closure) = geometry(&raw, m.n_cells);
    assert!(closure < 1e-10, "closure error {}", closure);
}

#[test]
fn missing_physical_names_is_a_strict_error_naming_permissive() {
    let text = one_hex_msh().replace(
        "$PhysicalNames\n1\n2 1 \"walls\"\n$EndPhysicalNames\n",
        "",
    );
    let e = match parse_msh(STRICT, &text, "<memory>", &mut vec![]) {
        Err(e) => e.text(),
        Ok(_) => panic!("a mesh with no $PhysicalNames must be refused"),
    };
    assert!(e.contains("-permissive"), "{e}");
}

#[test]
fn missing_physical_names_under_permissive_falls_back_to_default_faces() {
    let text = one_hex_msh().replace(
        "$PhysicalNames\n1\n2 1 \"walls\"\n$EndPhysicalNames\n",
        "",
    );
    let raw = match parse_msh(Policy { permissive: true }, &text, "<memory>", &mut vec![]) {
        Ok(r) => r,
        Err(e) => panic!("permissive parse failed: {}", e.text()),
    };
    assert_eq!(raw.patches.len(), 1);
    assert_eq!(raw.patches[0].name, "defaultFaces");
}

#[test]
fn binary_msh_is_refused() {
    let text = one_hex_msh().replace("4.1 0 8", "4.1 1 8");
    let e = match parse_msh(STRICT, &text, "<memory>", &mut vec![]) {
        Err(e) => e.text(),
        Ok(_) => panic!("binary MSH must be refused"),
    };
    assert!(e.to_lowercase().contains("binary"), "{e}");
}
#[test]
fn parametric_nodes_read_xyz_first() {
    let msh = "$MeshFormat
4.1 0 8
$EndMeshFormat
$PhysicalNames
1
2 1 \"wall\"
$EndPhysicalNames
$Entities
0 0 1 0
1 0 0 0 1 1 0 1 1 0
$EndEntities
$Nodes
1 3 1 3
2 1 1 3
1
2
3
0 0 0 0.5 0.5
1 0 0 0.9 0.1
0 1 0 0.1 0.9
$EndNodes
$Elements
1 1 1 1
2 1 2 1
1 1 2 3
$EndElements
";
    let raw = parse_msh(STRICT, msh, "parametric.msh", &mut vec![]);
    match raw {
        Ok(r) => {
            assert!(fl(r.points[0].x).abs() < 1e-14 && fl(r.points[0].y).abs() < 1e-14);
            assert!((fl(r.points[1].x) - 1.0).abs() < 1e-14);
            assert!((fl(r.points[2].y) - 1.0).abs() < 1e-14);
        }
        Err(e) => {
            let msg = e.text();
            assert!(msg.contains("volume") || msg.contains("cell"), "unexpected: {msg}");
        }
    }
}

#[test]
fn faces_without_a_patch_are_counted() {
    let mut notes = Vec::new();
    assert!(parse_msh(STRICT, &one_hex_msh(), "<memory>", &mut notes).is_ok());
    let covered = notes.len();
    let text = one_hex_msh().replace(
        "$PhysicalNames\n1\n2 1 \"walls\"\n$EndPhysicalNames\n",
        "",
    );
    let mut notes = Vec::new();
    let raw = parse_msh(Policy { permissive: true }, &text, "<memory>", &mut notes).unwrap();
    assert_eq!(notes.len(), 2);
    assert!(notes[0].contains("msh/physicalNames") && notes[0].contains("defaultFaces"), "{}", notes[0]);
    assert_eq!(
        notes[1],
        "6 boundary face(s) were not covered by any physical surface; assigned to patch 'defaultFaces'"
    );
    assert_eq!(raw.patches[0].size, 6);
    let mut notes = Vec::new();
    assert!(parse_msh(STRICT, &text, "<memory>", &mut notes).is_err());
    assert!(notes.is_empty());
    assert!(covered <= 1);
}
