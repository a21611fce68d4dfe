use ofgpu::digits::show_pointed;
use ofgpu::mesh::{HostMesh, PatchInfo, PatchKind, Vec3};
use ofgpu::scalar::Scalar;
use ofgpu::usda::{
    bbox, boundary_surface, write_usda_scene, Quad, SceneSpec, VdbFrame, VdbSource, VolumeAsset,
};

fn sc(v: f64) -> Scalar {
    Scalar { bits: v.to_bits() }
}

fn fl(s: Scalar) -> f64 {
    f64::from_bits(s.bits)
}

fn vec3(x: f64, y: f64, z: f64) -> Vec3 {
    Vec3 { x: sc(x), y: sc(y), z: sc(z) }
}

fn quads(m: &HostMesh) -> Vec<Quad> {
    let n = m.n_boundary_faces.min(m.b_cf.len()).min(m.b_sf.len());
    let mut out = Vec::new();
    for f in 0..n {
        let (c, a) = (arr(&m.b_cf[f]), arr(&m.b_sf[f]));
        let mag = (a[0] * a[0] + a[1] * a[1] + a[2] * a[2]).sqrt();
        let e = a.map(|x| x / mag);
        let r = if e[0].abs() < 0.9 { [1.0, 0.0, 0.0] } else { [0.0, 1.0, 0.0] };
        let d = e[0] * r[0] + e[1] * r[1] + e[2] * r[2];
        let u: Vec<f64> = (0..3).map(|k| r[k] - e[k] * d).collect();
        let l = (u[0] * u[0] + u[1] * u[1] + u[2] * u[2]).sqrt();
        let u: Vec<f64> = u.iter().map(|x| x / l).collect();
        let v = [
            e[1] * u[2] - e[2] * u[1],
            e[2] * u[0] - e[0] * u[2],
            e[0] * u[1] - e[1] * u[0],
        ];
        let h = mag.sqrt() * 0.5;
        let p = |s: f64, t: f64| {
            let q: Vec<f64> = (0..3).map(|k| c[k] + u[k] * (s * h) + v[k] * (t * h)).collect();
            vec3(q[0], q[1], q[2])
        };
        out.push(Quad {
            area: sc(mag),
            p0: p(-1.0, -1.0),
            p1: p(1.0, -1.0),
            p2: p(1.0, 1.0),
            p3: p(-1.0, 1.0),
        });
    }
    out
}

fn arr(v: &Vec3) -> [f64; 3] {
    [fl(v.x), fl(v.y), fl(v.z)]
}

fn fmt_v3(v: Vec3) -> String {
    format!("({}, {}, {})", show_pointed(v.x), show_pointed(v.y), show_pointed(v.z))
}

fn two_patch_mesh() -> HostMesh {
    let mut m = HostMesh::empty();
    m.n_boundary_faces = 2;
    m.b_cf = vec![vec3(0.0, 0.0, 0.0), vec3(2.0, 0.0, 0.0)];
    m.b_sf = vec![vec3(1.0, 0.0, 0.0), vec3(-1.0, 0.0, 0.0)];
    m.b_mag_sf = vec![sc(1.0), sc(1.0)];
    m.b_patch = vec![0, 1];
    m.patches = vec![
        PatchInfo {
            name: "inlet".into(),
            patch_type: "patch".into(),
            kind: PatchKind::Generic,
            start: 0,
            size: 1,
            nbr_patch: None,
        },
        PatchInfo {
            name: "outlet".into(),
            patch_type: "patch".into(),
            kind: PatchKind::Generic,
            start: 1,
            size: 1,
            nbr_patch: None,
        },
    ];
    m
}

#[test]
fn boundary_surface_partitions_faces_exactly() {
    let m = two_patch_mesh();
    let surf = boundary_surface(&m, &quads(&m));

    assert_eq!(surf.face_vertex_counts.len(), 4);
    assert!(surf.face_vertex_counts.iter().all(|&c| c == 3));
    assert_eq!(surf.patches.len(), 2);

    let n_faces = surf.face_vertex_counts.len();
    let mut seen = vec![0u32; n_faces];
    for p in &surf.patches {
        for &i in &p.face_indices {
            seen[i as usize] += 1;
        }
    }
    assert!(seen.iter().all(|&c| c == 1), "partition violated: {:?}", seen);

    assert_eq!(surf.patches[0].face_indices, vec![0, 1]);
    assert_eq!(surf.patches[1].face_indices, vec![2, 3]);
}

#[test]
fn boundary_surface_extent_matches_points_bbox() {
    let m = two_patch_mesh();
    let surf = boundary_surface(&m, &quads(&m));
    let (lo, hi) = bbox(&surf.points);
    assert_eq!(surf.extent.0, lo);
    assert_eq!(surf.extent.1, hi);
    assert!((fl(surf.extent.0.x) - 0.0).abs() < 1e-6);
    assert!((fl(surf.extent.1.x) - 2.0).abs() < 1e-6);
    assert!((fl(surf.extent.0.y) - (-0.5)).abs() < 1e-6);
    assert!((fl(surf.extent.1.y) - 0.5).abs() < 1e-6);
}

#[test]
fn write_usda_scene_has_header_and_one_subset_per_patch() {
    let m = two_patch_mesh();
    let boundary = boundary_surface(&m, &quads(&m));
    let spec = SceneSpec { volumes: vec![], boundary: Some(boundary) };

    let text = write_usda_scene(&spec);

    assert!(text.starts_with("#usda 1.0\n"));
    assert!(text.contains("metersPerUnit = 1"));
    assert!(text.contains("upAxis = \"Z\""));
    assert_eq!(text.matches("def GeomSubset").count(), 2);
    assert!(text.contains("def GeomSubset \"inlet\""));
    assert!(text.contains("def GeomSubset \"outlet\""));
    assert!(text.contains("familyName = \"materialBind\""));
    assert!(text.contains("familyType = \"partition\""));
}

#[test]
fn write_usda_scene_extent_matches_bbox() {
    let m = two_patch_mesh();
    let boundary = boundary_surface(&m, &quads(&m));
    let expected_extent = boundary.extent;
    let spec = SceneSpec { volumes: vec![], boundary: Some(boundary) };

    let text = write_usda_scene(&spec);

    let expected = format!(
        "float3[] extent = [{}, {}]",
        fmt_v3(expected_extent.0),
        fmt_v3(expected_extent.1)
    );
    assert!(text.contains(&expected), "expected `{}` in:\n{}", expected, text);
}

#[test]
fn write_usda_scene_series_emits_time_samples() {
    let vol = VolumeAsset {
        name: "plume".into(),
        field_name: "temperature".into(),
        vdb: VdbSource::Series(vec![
            VdbFrame { time: sc(0.0), path: "./plume_0000.vdb".into() },
            VdbFrame { time: sc(1.0), path: "./plume_0001.vdb".into() },
        ]),
        extent: Some((vec3(-7.3, -3.1, 0.0), vec3(7.3, 3.1, 3.0))),
    };
    let spec = SceneSpec { volumes: vec![vol], boundary: None };

    let text = write_usda_scene(&spec);

    assert!(text.contains("def Volume \"plume\""));
    assert!(text.contains("def OpenVDBAsset \"temperature\""));
    assert!(text.contains("asset filePath.timeSamples = {"));
    assert!(text.contains("0: @./plume_0000.vdb@,"));
    assert!(text.contains("1: @./plume_0001.vdb@,"));
    assert!(text.contains("token fieldName = \"temperature\""));
}

#[test]
fn write_usda_scene_single_vdb_has_no_time_samples() {
    let vol = VolumeAsset {
        name: "plume".into(),
        field_name: "temperature".into(),
        vdb: VdbSource::Single("./plume_0040.vdb".into()),
        extent: Some((vec3(-7.3, -3.1, 0.0), vec3(7.3, 3.1, 3.0))),
    };
    let spec = SceneSpec { volumes: vec![vol], boundary: None };

    let text = write_usda_scene(&spec);

    assert!(text.contains("asset filePath = @./plume_0040.vdb@"));
    assert!(!text.contains("timeSamples"));
}

#[test]
fn a_face_of_no_area_is_not_drawn() {
    let m = two_patch_mesh();
    let mut q = quads(&m);
    q[0].area = sc(0.0);
    let surf = boundary_surface(&m, &q);
    assert_eq!(surf.points.len(), 4);
    assert_eq!(surf.face_vertex_indices, vec![0, 1, 2, 0, 2, 3]);
    assert!(surf.patches[0].face_indices.is_empty());
    assert_eq!(surf.patches[1].face_indices, vec![0, 1]);
}

#[test]
fn a_scene_is_copied_with_all_it_holds() {
    let empty = SceneSpec::default();
    assert!(empty.volumes.is_empty() && empty.boundary.is_none());

    let m = two_patch_mesh();
    let series = VolumeAsset {
        name: "plume".into(),
        field_name: "temperature".into(),
        vdb: VdbSource::Series(vec![
            VdbFrame { time: sc(0.0), path: "./plume_0000.vdb".into() },
            VdbFrame { time: sc(1.0), path: "./plume_0001.vdb".into() },
        ]),
        extent: Some((vec3(-7.3, -3.1, 0.0), vec3(7.3, 3.1, 3.0))),
    };
    let single = VolumeAsset {
        name: "smoke".into(),
        field_name: "density".into(),
        vdb: VdbSource::Single("./smoke.vdb".into()),
        extent: None,
    };
    let spec = SceneSpec {
        volumes: vec![series, single],
        boundary: Some(boundary_surface(&m, &quads(&m))),
    };
    let text = write_usda_scene(&spec);
    let twin = spec.clone();
    assert_eq!(write_usda_scene(&twin), text);
    assert_ne!(write_usda_scene(&empty), text);
}
