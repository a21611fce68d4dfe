//! What an operation on a matrix asks of the matrix and the mesh before it is
//! launched on a device, and how many threads it takes: none where there is
//! nothing to do.

use vstd::prelude::*;

use crate::digits::{show, shown};
use crate::error::{Error, Failure};
use crate::mesh::{filled, Label};
use crate::scalar::Scalar;
use crate::text::{copy, decimal, push_decimal, push_signed, push_text, signed_decimal};

verus! {

/// The size of a matrix or a mesh.
#[derive(Debug, Clone, Copy, PartialEq, Eq, Structural)]
pub struct Shape {
    pub n_cells: usize,
    pub n_internal_faces: usize,
    pub n_boundary_faces: usize,
}

pub open spec fn shape_text(what: Seq<char>, ac: nat, af: nat, ab: nat, mc: nat, mf: nat, mb: nat) -> Seq<char> {
    what
        + ": matrix is "@
        + decimal(ac)
        + "/"@
        + decimal(af)
        + "/"@
        + decimal(ab)
        + " cells/faces/boundary faces but the mesh is "@
        + decimal(mc)
        + "/"@
        + decimal(mf)
        + "/"@
        + decimal(mb)
}

pub(crate) fn shape_message(what: &str, ac: usize, af: usize, ab: usize, mc: usize, mf: usize, mb: usize) -> (r: String)
    ensures
        r@ == shape_text(what@, ac as nat, af as nat, ab as nat, mc as nat, mf as nat, mb as nat),
{
    let mut s = copy(what);
    push_text(&mut s, ": matrix is ");
    push_decimal(&mut s, ac as u64);
    push_text(&mut s, "/");
    push_decimal(&mut s, af as u64);
    push_text(&mut s, "/");
    push_decimal(&mut s, ab as u64);
    push_text(&mut s, " cells/faces/boundary faces but the mesh is ");
    push_decimal(&mut s, mc as u64);
    push_text(&mut s, "/");
    push_decimal(&mut s, mf as u64);
    push_text(&mut s, "/");
    push_decimal(&mut s, mb as u64);
    s
}

pub open spec fn amul_len_text(psi: nat, apsi: nat, rows: nat) -> Seq<char> {
    "amul: psi has "@
        + decimal(psi)
        + " and A.psi has "@
        + decimal(apsi)
        + " elements, but the matrix has "@
        + decimal(rows)
        + " rows"@
}

pub(crate) fn amul_len_message(psi: usize, apsi: usize, rows: usize) -> (r: String)
    ensures
        r@ == amul_len_text(psi as nat, apsi as nat, rows as nat),
{
    let mut s = copy("amul: psi has ");
    push_decimal(&mut s, psi as u64);
    push_text(&mut s, " and A.psi has ");
    push_decimal(&mut s, apsi as u64);
    push_text(&mut s, " elements, but the matrix has ");
    push_decimal(&mut s, rows as u64);
    push_text(&mut s, " rows");
    s
}

pub open spec fn relax_factor_text(alpha: Seq<char>) -> Seq<char> {
    "relax: the under-relaxation factor is "@
        + alpha
        + "; it must be finite and positive (the diagonal is divided by it)"@
}

pub(crate) fn relax_factor_message(alpha: &str) -> (r: String)
    ensures
        r@ == relax_factor_text(alpha@),
{
    let mut s = copy("relax: the under-relaxation factor is ");
    push_text(&mut s, alpha);
    push_text(&mut s, "; it must be finite and positive (the diagonal is divided by it)");
    s
}

pub open spec fn relax_len_text(psi: nat, rows: nat) -> Seq<char> {
    "relax: psi has "@
        + decimal(psi)
        + " elements, but the matrix has "@
        + decimal(rows)
        + " rows"@
}

pub(crate) fn relax_len_message(psi: usize, rows: usize) -> (r: String)
    ensures
        r@ == relax_len_text(psi as nat, rows as nat),
{
    let mut s = copy("relax: psi has ");
    push_decimal(&mut s, psi as u64);
    push_text(&mut s, " elements, but the matrix has ");
    push_decimal(&mut s, rows as u64);
    push_text(&mut s, " rows");
    s
}

pub open spec fn fixed_len_text(cells: nat, values: nat) -> Seq<char> {
    "set_fixed_cells: "@
        + decimal(cells)
        + " cells but "@
        + decimal(values)
        + " values"@
}

pub(crate) fn fixed_len_message(cells: usize, values: usize) -> (r: String)
    ensures
        r@ == fixed_len_text(cells as nat, values as nat),
{
    let mut s = copy("set_fixed_cells: ");
    push_decimal(&mut s, cells as u64);
    push_text(&mut s, " cells but ");
    push_decimal(&mut s, values as u64);
    push_text(&mut s, " values");
    s
}

pub open spec fn fixed_cell_text(cell: int, cells: nat) -> Seq<char> {
    "set_fixed_cells: cell "@
        + signed_decimal(cell)
        + " is outside [0, "@
        + decimal(cells)
        + ")"@
}

pub(crate) fn fixed_cell_message(cell: i64, cells: usize) -> (r: String)
    ensures
        r@ == fixed_cell_text(cell as int, cells as nat),
{
    let mut s = copy("set_fixed_cells: cell ");
    push_signed(&mut s, cell);
    push_text(&mut s, " is outside [0, ");
    push_decimal(&mut s, cells as u64);
    push_text(&mut s, ")");
    s
}

pub open spec fn csr_rows_text(rows: nat, cells: nat) -> Seq<char> {
    "csr_fill: the CSR has "@
        + decimal(rows)
        + " rows but the matrix has "@
        + decimal(cells)
}

pub(crate) fn csr_rows_message(rows: usize, cells: usize) -> (r: String)
    ensures
        r@ == csr_rows_text(rows as nat, cells as nat),
{
    let mut s = copy("csr_fill: the CSR has ");
    push_decimal(&mut s, rows as u64);
    push_text(&mut s, " rows but the matrix has ");
    push_decimal(&mut s, cells as u64);
    s
}

pub open spec fn csr_entries_text(nnz: nat, cells: nat, faces: nat, want: nat) -> Seq<char> {
    "csr_fill: the CSR holds "@
        + decimal(nnz)
        + " non-zeros; an LDU matrix with "@
        + decimal(cells)
        + " cells and "@
        + decimal(faces)
        + " internal faces needs exactly "@
        + decimal(want)
}

pub(crate) fn csr_entries_message(nnz: usize, cells: usize, faces: usize, want: usize) -> (r: String)
    ensures
        r@ == csr_entries_text(nnz as nat, cells as nat, faces as nat, want as nat),
{
    let mut s = copy("csr_fill: the CSR holds ");
    push_decimal(&mut s, nnz as u64);
    push_text(&mut s, " non-zeros; an LDU matrix with ");
    push_decimal(&mut s, cells as u64);
    push_text(&mut s, " cells and ");
    push_decimal(&mut s, faces as u64);
    push_text(&mut s, " internal faces needs exactly ");
    push_decimal(&mut s, want as u64);
    s
}

/// Why a matrix and a mesh do not go together, if they do not.
pub open spec fn shape_fault(a: Shape, m: Shape, what: Seq<char>) -> Option<Failure> {
    if a != m {
        Some(
            Failure::Config(
                shape_text(
                    what,
                    a.n_cells as nat,
                    a.n_internal_faces as nat,
                    a.n_boundary_faces as nat,
                    m.n_cells as nat,
                    m.n_internal_faces as nat,
                    m.n_boundary_faces as nat,
                ),
            ),
        )
    } else {
        None
    }
}

/// The number of threads, or why there is nothing to launch.
pub open spec fn launches(r: Result<usize, Error>, fault: Option<Failure>, n: usize) -> bool {
    match (r, fault) {
        (Ok(k), None) => k == n,
        (Err(e), Some(f)) => e@ == f,
        _ => false,
    }
}

/// Refuse a matrix that is not of the mesh's shape.
pub fn check_shape(a: Shape, m: Shape, what: &str) -> (r: Result<(), Error>)
    ensures
        match (r, shape_fault(a, m, what@)) {
            (Ok(_), None) => true,
            (Err(e), Some(f)) => e@ == f,
            _ => false,
        },
{
    if a.n_cells != m.n_cells || a.n_internal_faces != m.n_internal_faces || a.n_boundary_faces
        != m.n_boundary_faces {
        return Err(
            Error::Config(
                shape_message(
                    what,
                    a.n_cells,
                    a.n_internal_faces,
                    a.n_boundary_faces,
                    m.n_cells,
                    m.n_internal_faces,
                    m.n_boundary_faces,
                ),
            ),
        );
    }
    Ok(())
}

fn launch_per_cell(a: Shape, m: Shape, what: &str) -> (r: Result<usize, Error>)
    ensures
        launches(r, shape_fault(a, m, what@), a.n_cells),
{
    match check_shape(a, m, what) {
        Ok(_) => Ok(a.n_cells),
        Err(e) => Err(e),
    }
}

/// The diagonal as the negative sum of a row: one thread for a cell.
pub fn neg_sum_diag(a: Shape, m: Shape) -> (r: Result<usize, Error>)
    ensures
        launches(r, shape_fault(a, m, "neg_sum_diag"@), a.n_cells),
{
    launch_per_cell(a, m, "neg_sum_diag")
}

/// The boundary folded into diagonal and source: one thread for a cell.
pub fn add_boundary_contributions(a: Shape, m: Shape) -> (r: Result<usize, Error>)
    ensures
        launches(r, shape_fault(a, m, "add_boundary_contributions"@), a.n_cells),
{
    launch_per_cell(a, m, "add_boundary_contributions")
}

/// Fixed values eliminated: one thread for a cell.
pub fn set_values(a: Shape, m: Shape) -> (r: Result<usize, Error>)
    ensures
        launches(r, shape_fault(a, m, "set_values"@), a.n_cells),
{
    launch_per_cell(a, m, "set_values")
}

/// Why a product cannot be formed, if it cannot.
pub open spec fn amul_fault(a: Shape, m: Shape, apsi: usize, psi: usize) -> Option<Failure> {
    match shape_fault(a, m, "amul"@) {
        Some(f) => Some(f),
        None => if apsi < a.n_cells || psi < a.n_cells {
            Some(Failure::Config(amul_len_text(psi as nat, apsi as nat, a.n_cells as nat)))
        } else {
            None
        },
    }
}

/// The product with a vector of `psi` elements, into one of `apsi`.
pub fn amul(a: Shape, m: Shape, apsi: usize, psi: usize) -> (r: Result<usize, Error>)
    ensures
        launches(r, amul_fault(a, m, apsi, psi), a.n_cells),
{
    match check_shape(a, m, "amul") {
        Ok(_) => {},
        Err(e) => {
            return Err(e);
        },
    }
    if apsi < a.n_cells || psi < a.n_cells {
        return Err(Error::Config(amul_len_message(psi, apsi, a.n_cells)));
    }
    Ok(a.n_cells)
}

/// Why a matrix cannot be relaxed, if it cannot.
pub open spec fn relax_fault(a: Shape, m: Shape, psi: usize, alpha: Scalar) -> Option<Failure> {
    match shape_fault(a, m, "relax"@) {
        Some(f) => Some(f),
        None => if !(Scalar { bits: 0 }).less(alpha) || !alpha.is_finite() {
            Some(Failure::Config(relax_factor_text(shown(alpha))))
        } else if psi < a.n_cells {
            Some(Failure::Config(relax_len_text(psi as nat, a.n_cells as nat)))
        } else {
            None
        },
    }
}

/// Under-relaxation by a factor, which has to be finite and positive.
pub fn relax(a: Shape, m: Shape, psi: usize, alpha: Scalar) -> (r: Result<usize, Error>)
    ensures
        launches(r, relax_fault(a, m, psi, alpha), a.n_cells),
{
    match check_shape(a, m, "relax") {
        Ok(_) => {},
        Err(e) => {
            return Err(e);
        },
    }
    let nil = Scalar { bits: 0 };
    if !nil.below(alpha) || !alpha.finite() {
        let t = show(alpha);
        return Err(Error::Config(relax_factor_message(&t)));
    }
    if psi < a.n_cells {
        return Err(Error::Config(relax_len_message(psi, a.n_cells)));
    }
    Ok(a.n_cells)
}

/// A cell that a matrix does not have.
pub open spec fn foreign_in(cells: Seq<Label>, n: int) -> spec_fn(int) -> bool {
    |i: int| cells[i] < 0 || cells[i] >= n
}

/// Why cells cannot be fixed, if they cannot.
pub open spec fn fixed_fault(n: int, cells: Seq<Label>, values: nat) -> Option<Failure> {
    let i = crate::list::first(cells.len() as int, 0, foreign_in(cells, n));
    if cells.len() != values {
        Some(Failure::Config(fixed_len_text(cells.len(), values)))
    } else if i < cells.len() {
        Some(Failure::Config(fixed_cell_text(cells[i] as int, n as nat)))
    } else {
        None
    }
}

/// The last of the first `k` entries for a cell, or -1.
pub open spec fn last_entry(cells: Seq<Label>, k: int, c: int) -> int
    decreases k,
{
    if k <= 0 {
        -1
    } else if cells[k - 1] == c {
        k - 1
    } else {
        last_entry(cells, k - 1, c)
    }
}

/// Which cells are fixed: 1 for one that is.
pub open spec fn fixed_flags(n: nat, cells: Seq<Label>, k: int) -> Seq<Label> {
    Seq::new(n, |c: int| if last_entry(cells, k, c) >= 0 { 1 as Label } else { 0 as Label })
}

/// The values they are fixed to: the last one given.
pub open spec fn fixed_values(n: nat, cells: Seq<Label>, values: Seq<Scalar>, k: int) -> Seq<Scalar> {
    Seq::new(
        n,
        |c: int|
            if last_entry(cells, k, c) >= 0 {
                values[last_entry(cells, k, c)]
            } else {
                Scalar { bits: 0 }
            },
    )
}

/// Which cells of a matrix with `n` are fixed, and to what.
pub fn set_fixed_cells(n: usize, cells: &[Label], values: &[Scalar]) -> (r: Result<
    (Vec<Label>, Vec<Scalar>),
    Error,
>)
    ensures
        match (r, fixed_fault(n as int, cells@, values@.len())) {
            (Ok((f, v)), None) => f@ == fixed_flags(n as nat, cells@, cells@.len() as int) && v@
                == fixed_values(n as nat, cells@, values@, cells@.len() as int),
            (Err(e), Some(f)) => e@ == f,
            _ => false,
        },
{
    if cells.len() != values.len() {
        return Err(Error::Config(fixed_len_message(cells.len(), values.len())));
    }
    let mut flags: Vec<Label> = filled(0, n);
    let mut vals: Vec<Scalar> = filled(Scalar { bits: 0 }, n);
    let ghost bad = foreign_in(cells@, n as int);
    let mut i: usize = 0;
    assert(flags@ =~= fixed_flags(n as nat, cells@, 0));
    assert(vals@ =~= fixed_values(n as nat, cells@, values@, 0));
    while i < cells.len()
        invariant
            i <= cells.len() == values.len(),
            flags.len() == n,
            vals.len() == n,
            bad == foreign_in(cells@, n as int),
            crate::list::first(cells@.len() as int, 0, bad) == crate::list::first(
                cells@.len() as int,
                i as int,
                bad,
            ),
            flags@ == fixed_flags(n as nat, cells@, i as int),
            vals@ == fixed_values(n as nat, cells@, values@, i as int),
        decreases cells.len() - i,
    {
        let c: Label = cells[i];
        if c < 0 || c as usize >= n {
            return Err(Error::Config(fixed_cell_message(c as i64, n)));
        }
        flags.set(c as usize, 1);
        vals.set(c as usize, values[i]);
        i = i + 1;
        assert(flags@ =~= fixed_flags(n as nat, cells@, i as int));
        assert(vals@ =~= fixed_values(n as nat, cells@, values@, i as int));
    }
    Ok((flags, vals))
}

proof fn lemma_last_entry(cells: Seq<Label>, k: int, c: int)
    requires
        0 <= k <= cells.len(),
    ensures
        -1 <= last_entry(cells, k, c) < k,
        last_entry(cells, k, c) >= 0 ==> cells[last_entry(cells, k, c)] == c,
        forall|i: int| last_entry(cells, k, c) < i < k ==> (#[trigger] cells[i]) != c,
    decreases k,
{
    if k > 0 && cells[k - 1] != c {
        lemma_last_entry(cells, k - 1, c);
    }
}

/// A cell that is listed is fixed, to the last value that is listed for it.
pub proof fn listed_cells_take_their_last_value(
    n: nat,
    cells: Seq<Label>,
    values: Seq<Scalar>,
    i: int,
)
    requires
        cells.len() == values.len(),
        0 <= i < cells.len(),
        0 <= cells[i] < n,
        forall|j: int| i < j < cells.len() ==> (#[trigger] cells[j]) != cells[i],
    ensures
        fixed_flags(n, cells, cells.len() as int)[cells[i] as int] == 1,
        fixed_values(n, cells, values, cells.len() as int)[cells[i] as int] == values[i],
{
    lemma_last_entry(cells, cells.len() as int, cells[i] as int);
}

/// No other cell is fixed.
pub proof fn other_cells_stay_free(n: nat, cells: Seq<Label>, values: Seq<Scalar>, c: int)
    requires
        0 <= c < n,
        forall|j: int| 0 <= j < cells.len() ==> (#[trigger] cells[j]) != c,
    ensures
        fixed_flags(n, cells, cells.len() as int)[c] == 0,
        fixed_values(n, cells, values, cells.len() as int)[c] == (Scalar { bits: 0 }),
{
    lemma_last_entry(cells, cells.len() as int, c);
}

/// Why a pattern cannot be filled from a matrix, if it cannot.
pub open spec fn csr_fault(rows: usize, nnz: usize, a: Shape) -> Option<Failure> {
    let want = a.n_cells + 2 * a.n_internal_faces;
    if rows != a.n_cells {
        Some(Failure::Config(csr_rows_text(rows as nat, a.n_cells as nat)))
    } else if nnz != want {
        Some(
            Failure::Config(
                csr_entries_text(
                    nnz as nat,
                    a.n_cells as nat,
                    a.n_internal_faces as nat,
                    want as nat,
                ),
            ),
        )
    } else {
        None
    }
}

/// Fill a pattern of `rows` rows and `nnz` entries: one thread for a cell or a face.
pub fn csr_fill(rows: usize, nnz: usize, a: Shape) -> (r: Result<usize, Error>)
    requires
        a.n_cells + 2 * a.n_internal_faces <= usize::MAX,
    ensures
        launches(
            r,
            csr_fault(rows, nnz, a),
            if a.n_cells > a.n_internal_faces {
                a.n_cells
            } else {
                a.n_internal_faces
            },
        ),
{
    if rows != a.n_cells {
        return Err(Error::Config(csr_rows_message(rows, a.n_cells)));
    }
    let want: usize = a.n_cells + 2 * a.n_internal_faces;
    if nnz != want {
        return Err(
            Error::Config(csr_entries_message(nnz, a.n_cells, a.n_internal_faces, want)),
        );
    }
    if a.n_cells > a.n_internal_faces {
        Ok(a.n_cells)
    } else {
        Ok(a.n_internal_faces)
    }
}

} // verus!
