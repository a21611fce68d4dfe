use ofgpu::ldu::CsrPattern;
use ofgpu::ldu_ops::{
    add_boundary_contributions, amul, csr_fill, neg_sum_diag, relax, set_fixed_cells, set_values,
    Shape,
};
use ofgpu::mesh::{HostMesh, Label, PatchInfo, PatchKind};
use ofgpu::scalar::Scalar;

fn sc(v: f64) -> Scalar {
    Scalar { bits: v.to_bits() }
}

fn chain_mesh() -> HostMesh {
    let mut m = HostMesh::empty();
    m.n_cells = 4;
    m.n_internal_faces = 3;
    m.n_boundary_faces = 4;
    m.owner = vec![0, 1, 2];
    m.neighbour = vec![1, 2, 3];
    m.b_face_cells = vec![0, 3, 0, 3];
    m.b_nbr_cell = vec![-1, -1, 3, 0];
    m.b_patch = vec![0, 1, 2, 3];
    let names = ["left", "right", "cyc_a", "cyc_b"];
    for (p, name) in names.iter().enumerate() {
        let cyclic = p >= 2;
        m.patches.push(PatchInfo {
            name: name.to_string(),
            patch_type: if cyclic { "cyclic" } else { "patch" }.to_string(),
            kind: if cyclic { PatchKind::Cyclic } else { PatchKind::Generic },
            start: p,
            size: 1,
            nbr_patch: if cyclic { Some(5 - p) } else { None },
        });
    }
    m.b_kind = m.patches.iter().map(|p| p.kind.label()).collect();
    m.build_cell_face_maps();
    m
}

fn shape(m: &HostMesh) -> Shape {
    Shape {
        n_cells: m.n_cells,
        n_internal_faces: m.n_internal_faces,
        n_boundary_faces: m.n_boundary_faces,
    }
}

#[test]
fn relax_rejects_a_non_positive_factor() {
    let s = shape(&chain_mesh());
    assert!(relax(s, s, 4, sc(0.0)).is_err());
    assert!(relax(s, s, 4, sc(-0.5)).is_err());
    assert!(relax(s, s, 4, sc(f64::NAN)).is_err());
    assert_eq!(relax(s, s, 4, sc(0.7)).unwrap(), 4);
    let e = relax(s, s, 4, sc(-0.5)).unwrap_err().text();
    assert!(e.contains("-0.5"), "{e}");
    assert!(relax(s, s, 3, sc(0.7)).is_err());
}

#[test]
fn csr_fill_rejects_a_pattern_from_a_different_mesh() {
    let hm = chain_mesh();
    let mut smaller = hm.clone();
    smaller.n_cells = 3;
    smaller.n_internal_faces = 2;
    smaller.n_boundary_faces = 0;
    smaller.owner.truncate(2);
    smaller.neighbour.truncate(2);
    smaller.b_face_cells.clear();
    smaller.b_nbr_cell.clear();
    smaller.b_kind.clear();
    smaller.b_patch.clear();
    smaller.patches.clear();
    smaller.build_cell_face_maps();
    let p = CsrPattern::build(&smaller).unwrap();
    assert!(csr_fill(p.n_rows, p.nnz, shape(&hm)).is_err());
    assert_eq!(csr_fill(p.n_rows, p.nnz, shape(&smaller)).unwrap(), 3);
    assert!(csr_fill(p.n_rows, p.nnz + 2, shape(&smaller)).is_err());
}

#[test]
fn an_empty_mesh_launches_nothing() {
    let mut hm = HostMesh::empty();
    hm.build_cell_face_maps();
    assert_eq!(hm.cf_offset, vec![0]);
    assert_eq!(hm.bcf_offset, vec![0]);
    let s = shape(&hm);
    assert_eq!(neg_sum_diag(s, s).unwrap(), 0);
    assert_eq!(relax(s, s, 0, sc(0.7)).unwrap(), 0);
    assert_eq!(set_values(s, s).unwrap(), 0);
    assert_eq!(add_boundary_contributions(s, s).unwrap(), 0);
    assert_eq!(amul(s, s, 0, 0).unwrap(), 0);
    assert_eq!(csr_fill(0, 0, s).unwrap(), 0);
}

#[test]
fn a_matrix_of_another_mesh_is_refused_by_every_launcher() {
    let a = shape(&chain_mesh());
    let m = Shape { n_cells: 5, ..a };
    for (e, name) in [
        (neg_sum_diag(a, m), "neg_sum_diag"),
        (add_boundary_contributions(a, m), "add_boundary_contributions"),
        (set_values(a, m), "set_values"),
        (amul(a, m, 4, 4), "amul"),
        (relax(a, m, 4, sc(1.0)), "relax"),
    ] {
        let e = e.unwrap_err().text();
        assert!(e.starts_with(name), "{e}");
        assert!(e.contains("matrix is 4/3/4"), "{e}");
    }
    assert!(amul(a, a, 3, 4).is_err());
    assert!(amul(a, a, 4, 3).is_err());
}

#[test]
fn a_pattern_has_a_column_for_every_coupling() {
    let hm = chain_mesh();
    let p = CsrPattern::build(&hm).unwrap();
    assert_eq!(p.n_rows, 4);
    assert_eq!(p.n_coupled, 2);
    assert_eq!(p.nnz, 12);
    assert_eq!(p.row_ptr, vec![0, 3, 6, 9, 12]);
    assert_eq!(p.col_ind, vec![0, 1, 3, 0, 1, 2, 1, 2, 3, 0, 2, 3]);
    assert_eq!(p.diag_slot, vec![0, 4, 7, 11]);
    assert_eq!(p.upper_slot, vec![1, 5, 8]);
    assert_eq!(p.lower_slot, vec![3, 6, 10]);
    assert_eq!(p.coupled_slot, vec![-1, -1, 2, 9]);
}

#[test]
fn a_filled_pattern_is_the_matrix() {
    let hm = chain_mesh();
    let p = CsrPattern::build(&hm).unwrap();
    let diag = [2.0, 3.0, 4.0, 5.0];
    let upper = [0.5, -1.0, 2.0];
    let lower = [1.5, 0.25, -0.75];
    let bc = [-0.9, 1.1, 0.4, -0.6];
    let mut val = vec![f64::NAN; p.nnz];
    for c in 0..4 {
        val[p.diag_slot[c] as usize] = diag[c];
    }
    for f in 0..3 {
        val[p.upper_slot[f] as usize] = upper[f];
        val[p.lower_slot[f] as usize] = lower[f];
    }
    for b in 0..4 {
        if p.coupled_slot[b] >= 0 {
            val[p.coupled_slot[b] as usize] = -bc[b];
        }
    }
    let mut dense = [[0.0; 4]; 4];
    for r in 0..4 {
        for j in p.row_ptr[r] as usize..p.row_ptr[r + 1] as usize {
            dense[r][p.col_ind[j] as usize] += val[j];
        }
    }
    assert_eq!(
        dense,
        [
            [2.0, 0.5, 0.0, -0.4],
            [1.5, 3.0, -1.0, 0.0],
            [0.0, 0.25, 4.0, 2.0],
            [0.6, 0.0, -0.75, 5.0],
        ]
    );
}

#[test]
fn two_couplings_of_one_pair_of_cells_are_refused() {
    let mut m = HostMesh::empty();
    m.n_cells = 2;
    m.n_internal_faces = 1;
    m.n_boundary_faces = 2;
    m.owner = vec![0];
    m.neighbour = vec![1];
    m.b_face_cells = vec![0, 1];
    m.b_nbr_cell = vec![1, 0];
    m.b_kind = vec![PatchKind::Cyclic.label(); 2];
    m.b_patch = vec![0, 1];
    m.build_cell_face_maps();
    let e = CsrPattern::build(&m).unwrap_err().text();
    assert!(e.contains("cell 0 reaches cell 1"), "{e}");
}

#[test]
fn fixed_cells_are_flagged_with_their_values() {
    let cells: [Label; 2] = [1, 3];
    let (flags, values) = set_fixed_cells(4, &cells, &[sc(7.5), sc(-3.25)]).unwrap();
    assert_eq!(flags, vec![0, 1, 0, 1]);
    assert_eq!(values, vec![sc(0.0), sc(7.5), sc(0.0), sc(-3.25)]);
    assert!(set_fixed_cells(4, &cells, &[sc(7.5)]).is_err());
    let e = set_fixed_cells(4, &[1, 4], &[sc(0.0), sc(0.0)]).unwrap_err().text();
    assert_eq!(e, "set_fixed_cells: cell 4 is outside [0, 4)");
    assert!(set_fixed_cells(4, &[-1], &[sc(0.0)]).is_err());
}
