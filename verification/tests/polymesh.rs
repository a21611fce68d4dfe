use ofgpu::mesh::{Label, PatchKind, Vec3};
use ofgpu::polymesh::{
    build_host_mesh, find_poly_mesh_dir, poly_mesh_dirs, read_poly_mesh, MeshFiles, PolyMeshRaw,
    TextFile,
};
use ofgpu::scalar::Scalar;

fn sc(v: f64) -> Scalar {
    Scalar { bits: v.to_bits() }
}

fn fl(s: Scalar) -> f64 {
    f64::from_bits(s.bits)
}

fn vec3(x: f64, y: f64, z: f64) -> Vec3 {
    Vec3 { x: sc(x), y: sc(y), z: sc(z) }
}

fn at(v: &Vec3) -> [f64; 3] {
    [fl(v.x), fl(v.y), fl(v.z)]
}

fn cross(a: [f64; 3], b: [f64; 3]) -> [f64; 3] {
    [
        a[1] * b[2] - a[2] * b[1],
        a[2] * b[0] - a[0] * b[2],
        a[0] * b[1] - a[1] * b[0],
    ]
}

fn minus(a: [f64; 3], b: [f64; 3]) -> [f64; 3] {
    [a[0] - b[0], a[1] - b[1], a[2] - b[2]]
}

fn geometry(raw: &PolyMeshRaw, cells: usize) -> (Vec<f64>, f64) {
    let mut volume = vec![0.0; cells];
    let mut sum = vec![[0.0; 3]; cells];
    for (f, face) in raw.faces.iter().enumerate() {
        let p: Vec<[f64; 3]> = face.iter().map(|i| at(&raw.points[*i as usize])).collect();
        let mut area = [0.0; 3];
        let mut flux = 0.0;
        for i in 1..p.len() - 1 {
            let c = cross(minus(p[i], p[0]), minus(p[i + 1], p[0]));
            for k in 0..3 {
                area[k] += 0.5 * c[k];
                flux += 0.5 * c[k] * (p[0][k] + p[i][k] + p[i + 1][k]) / 3.0;
            }
        }
        let o = raw.owner[f] as usize;
        volume[o] += flux / 3.0;
        for k in 0..3 {
            sum[o][k] += area[k];
        }
        if f < raw.neighbour.len() {
            let n = raw.neighbour[f] as usize;
            volume[n] -= flux / 3.0;
            for k in 0..3 {
                sum[n][k] -= area[k];
            }
        }
    }
    let mut worst: f64 = 0.0;
    for s in &sum {
        worst = worst.max((s[0] * s[0] + s[1] * s[1] + s[2] * s[2]).sqrt());
    }
    (volume, worst)
}

const POINTS: &str = r#"
FoamFile
{
    version     2.0;
    format      ascii;
    class       vectorField;
    location    "constant/polyMesh";
    object      points;
}

12
(
(0 0 0)
(1 0 0)
(2 0 0)
(0 1 0)
(1 1 0)
(2 1 0)
(0 0 1)
(1 0 1)
(2 0 1)
(0 1 1)
(1 1 1)
(2 1 1)
)
"#;

const FACES: &str = r#"
FoamFile
{
    version     2.0;
    format      ascii;
    class       faceList;
    location    "constant/polyMesh";
    object      faces;
}

11
(
4(1 4 10 7)
4 (0 6 9 3)
4(2 5 11 8)
4 (0 1 7 6)
4(1 2 8 7)
4 (3 9 10 4)
4(4 10 11 5)
4 (0 3 4 1)
4(1 4 5 2)
4 (6 7 10 9)
4(7 8 11 10)
)
"#;

const OWNER: &str = r#"
FoamFile
{
    version     2.0;
    format      ascii;
    class       labelList;
    note        "nPoints:12  nCells:2  nFaces:11  nInternalFaces:1";
    location    "constant/polyMesh";
    object      owner;
}

11
(
0 0 1 0 1 0 1 0 1 0 1
)
"#;

const NEIGHBOUR: &str = r#"
FoamFile
{
    version     2.0;
    format      ascii;
    class       labelList;
    note        "nPoints:12  nCells:2  nFaces:11  nInternalFaces:1";
    location    "constant/polyMesh";
    object      neighbour;
}

1
(
1
)
"#;

const BOUNDARY: &str = r#"
FoamFile
{
    version     2.0;
    format      ascii;
    class       polyBoundaryMesh;
    location    "constant/polyMesh";
    object      boundary;
}

6
(
    inlet
    {
        type            patch;
        nFaces          1;
        startFace       1;
    }
    outlet
    {
        type            patch;
        nFaces          1;
        startFace       2;
    }
    cyc_lo
    {
        type            cyclic;
        inGroups        1(cyclic);
        nFaces          2;
        startFace       3;
        matchTolerance  0.0001;
        transform       translational;
        separationVector (0 -1 0);
        neighbourPatch  cyc_hi;
    }
    cyc_hi
    {
        type            cyclic;
        inGroups        1(cyclic);
        nFaces          2;
        startFace       5;
        neighbourPatch  cyc_lo;
    }
    frontAndBack
    {
        type            empty;
        inGroups        1(empty);
        nFaces          4;
        startFace       7;
    }
    unused
    {
        type            patch;
        nFaces          0;
        startFace       11;
    }
)
"#;

fn file(name: &str, text: &str) -> TextFile {
    TextFile { path: name.to_string(), text: text.to_string() }
}

fn case(boundary: &str) -> MeshFiles {
    MeshFiles {
        dir: "case".to_string(),
        points: file("points", POINTS),
        faces: file("faces", FACES),
        owner: file("owner", OWNER),
        neighbour: file("neighbour", NEIGHBOUR),
        boundary: file("boundary", boundary),
    }
}

fn expected_faces() -> Vec<Vec<Label>> {
    vec![
        vec![1, 4, 10, 7],
        vec![0, 6, 9, 3],
        vec![2, 5, 11, 8],
        vec![0, 1, 7, 6],
        vec![1, 2, 8, 7],
        vec![3, 9, 10, 4],
        vec![4, 10, 11, 5],
        vec![0, 3, 4, 1],
        vec![1, 4, 5, 2],
        vec![6, 7, 10, 9],
        vec![7, 8, 11, 10],
    ]
}

#[test]
fn reads_both_face_forms_and_resolves_the_cyclic_pair() {
    let raw = read_poly_mesh(&case(BOUNDARY)).unwrap();

    assert_eq!(raw.points.len(), 12);
    assert_eq!(raw.points[11], vec3(2.0, 1.0, 1.0));
    assert_eq!(raw.faces, expected_faces());
    assert_eq!(raw.owner, vec![0, 0, 1, 0, 1, 0, 1, 0, 1, 0, 1]);
    assert_eq!(raw.neighbour, vec![1]);

    assert_eq!(raw.patches.len(), 6);
    let starts: Vec<usize> = raw.patches.iter().map(|p| p.start).collect();
    let sizes: Vec<usize> = raw.patches.iter().map(|p| p.size).collect();
    assert_eq!(starts, vec![0, 1, 2, 4, 6, 10]);
    assert_eq!(sizes, vec![1, 1, 2, 2, 4, 0]);

    assert_eq!(raw.patches[2].nbr_patch, Some(3));
    assert_eq!(raw.patches[3].nbr_patch, Some(2));
    assert_eq!(raw.patches[0].nbr_patch, None);
    assert_eq!(raw.patches[4].kind, PatchKind::Empty);
    assert_eq!(raw.patches[4].patch_type, "empty");
    assert_eq!(raw.patches[5].size, 0);
}

#[test]
fn rejects_non_contiguous_patches() {
    let bad = BOUNDARY.replace("startFace       2;", "startFace       3;");

    assert!(
        read_poly_mesh(&case(&bad)).is_err(),
        "a boundary with a gap must not be accepted"
    );
}

#[test]
fn rejects_a_cyclic_naming_a_patch_that_does_not_exist() {
    let bad = BOUNDARY.replace("neighbourPatch  cyc_hi;", "neighbourPatch  nope;");

    assert!(read_poly_mesh(&case(&bad)).is_err());
}

#[test]
fn rejects_a_binary_file_before_tokenising_it() {
    let mut files = case(BOUNDARY);
    files.points.text = POINTS.replace("format      ascii;", "format      binary;");

    let msg = match read_poly_mesh(&files) {
        Err(e) => e.text(),
        Ok(_) => panic!("a binary file must be refused"),
    };
    assert!(msg.contains("foamFormatConvert"), "unhelpful message: {msg}");
}

#[test]
fn builds_the_flattened_boundary_and_the_cyclic_addressing() {
    let raw = read_poly_mesh(&case(BOUNDARY)).unwrap();
    let m = build_host_mesh(&raw).unwrap();

    assert_eq!(m.n_cells, 2);
    assert_eq!(m.n_internal_faces, 1);
    assert_eq!(m.n_boundary_faces, 10);
    assert_eq!(m.n_points, 12);

    assert_eq!(m.owner, vec![0]);
    assert_eq!(m.neighbour, vec![1]);
    assert_eq!(m.b_face_cells, vec![0, 1, 0, 1, 0, 1, 0, 1, 0, 1]);
    assert_eq!(m.b_patch, vec![0, 1, 2, 2, 3, 3, 4, 4, 4, 4]);

    let empty = PatchKind::Empty.label();
    assert_eq!(&m.b_kind[6..10], &[empty, empty, empty, empty]);

    assert_eq!(m.b_nbr_cell, vec![-1, -1, 0, 1, 0, 1, -1, -1, -1, -1]);

    assert!((geometry(&raw, m.n_cells).0.iter().sum::<f64>() - 2.0).abs() < 1e-12);
}

#[test]
fn rejects_a_mesh_that_is_not_upper_triangular() {
    let raw = PolyMeshRaw {
        points: vec![vec3(0.0, 0.0, 0.0); 4],
        faces: vec![vec![0, 1, 2, 3]],
        owner: vec![1],
        neighbour: vec![0],
        patches: Vec::new(),
    };
    assert!(build_host_mesh(&raw).is_err());
}

fn four_points(owner: Vec<Label>, neighbour: Vec<Label>) -> PolyMeshRaw {
    PolyMeshRaw {
        points: vec![vec3(0.0, 0.0, 0.0); 4],
        faces: vec![vec![0, 1, 2, 3]; owner.len()],
        owner,
        neighbour,
        patches: Vec::new(),
    }
}

#[test]
fn internal_faces_are_sorted_by_owner_then_neighbour() {
    let e = build_host_mesh(&four_points(vec![1, 0], vec![2, 1])).unwrap_err().text();
    assert!(e.contains("face 1") && e.contains("upper-triangular"), "{e}");
    let e = build_host_mesh(&four_points(vec![0, 0, 0], vec![1, 3, 2])).unwrap_err().text();
    assert!(e.contains("face 2 has owner 0 and neighbour 2"), "{e}");
    let m = build_host_mesh(&four_points(vec![0, 0, 1, 1], vec![1, 2, 2, 2])).unwrap();
    assert_eq!(m.owner, vec![0, 0, 1, 1]);
    assert_eq!(m.neighbour, vec![1, 2, 2, 2]);
}

#[test]
fn probes_case_root_constant_and_polymesh() {
    let root = "/tmp/probe";
    let stored = "/tmp/probe/constant/polyMesh";
    for d in [
        root.to_string(),
        format!("{root}/constant"),
        format!("{root}/constant/polyMesh"),
    ] {
        let found: Vec<bool> = poly_mesh_dirs(&d).iter().map(|x| x == stored).collect();
        let dir = find_poly_mesh_dir(&d, &found).unwrap();
        assert_eq!(dir, stored);
        let raw = read_poly_mesh(&case(BOUNDARY)).unwrap();
        assert_eq!(raw.faces.len(), 11, "probing failed from {}", d);
        assert_eq!(raw.patches.len(), 6);
    }
}

#[test]
fn a_case_without_a_mesh_is_told_where_it_was_looked_for() {
    let e = find_poly_mesh_dir("case", &vec![false, false, false]).unwrap_err();
    assert_eq!(
        e.text(),
        ofgpu::error::Error::Mesh(
            "cannot find a polyMesh under 'case'. Tried:\n    case/constant/polyMesh/points\n    \
             case/polyMesh/points\n    case/points"
                .to_string()
        )
        .text()
    );
}

#[test]
fn a_mesh_with_nothing_in_it() {
    let raw = PolyMeshRaw::default();
    assert!(raw.points.is_empty() && raw.faces.is_empty() && raw.owner.is_empty());
    assert!(raw.neighbour.is_empty() && raw.patches.is_empty());
}
