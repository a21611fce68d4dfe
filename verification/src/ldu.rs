//! The rows of a matrix on a mesh: a diagonal, an entry for every internal face of
//! a cell, and one for every coupled boundary face.

use vstd::prelude::*;

use crate::error::{Error, Failure};
use crate::list::{bucket, bucket_is_complete, flat};
use crate::mesh::{as_cells, filled, side_face, side_own, sides, table_row, HostMesh, Label};
use crate::text::{copy, decimal, push_decimal, push_text};

verus! {

/// Where an entry of a row comes from.
#[derive(Debug, Clone, Copy, PartialEq, Eq, Structural)]
pub enum ColSource {
    Diagonal,
    /// A side of an internal face: twice the face, and one more on the side of
    /// its neighbour.
    Side(usize),
    /// A coupled boundary face.
    Coupled(usize),
}

/// The cell that a boundary face is coupled to.
pub open spec fn coupled_cell(m: HostMesh, b: int) -> Option<Label> {
    if 0 <= b < m.b_nbr_cell.len() && 0 <= m.b_nbr_cell[b] < m.n_cells {
        Some(m.b_nbr_cell[b])
    } else {
        None
    }
}

/// The coupled ones among the first `n` of some boundary faces.
pub open spec fn coupled_among(m: HostMesh, s: Seq<usize>, n: int) -> Seq<ColSource>
    decreases n,
{
    if n <= 0 {
        Seq::empty()
    } else if coupled_cell(m, s[n - 1] as int) is Some {
        coupled_among(m, s, n - 1).push(ColSource::Coupled(s[n - 1]))
    } else {
        coupled_among(m, s, n - 1)
    }
}

/// The entries of row `c`.
pub open spec fn sources(m: HostMesh, c: int) -> Seq<ColSource> {
    let bs = m.rows_of_boundary()[c];
    seq![ColSource::Diagonal] + m.rows_of_sides()[c].map_values(|j: usize| ColSource::Side(j))
        + coupled_among(m, bs, bs.len() as int)
}

/// The column of an entry of row `c`.
pub open spec fn column(m: HostMesh, c: int, s: ColSource) -> Label {
    match s {
        ColSource::Diagonal => c as Label,
        ColSource::Side(j) => if j % 2 == 0 {
            m.neighbour[(j / 2) as int]
        } else {
            m.owner[(j / 2) as int]
        },
        ColSource::Coupled(b) => m.b_nbr_cell[b as int],
    }
}

/// Two entries of row `c` have the column `v`.
pub open spec fn clashes(m: HostMesh, c: int, v: Label) -> bool {
    exists|i: int, j: int|
        0 <= i < j < sources(m, c).len() && column(m, c, #[trigger] sources(m, c)[i]) == v
            && column(m, c, #[trigger] sources(m, c)[j]) == v
}

/// The first clash: in the first row that has one, at the lowest column.
pub open spec fn first_clash(m: HostMesh, c: int, v: Label) -> bool {
    &&& 0 <= c < m.n_cells
    &&& clashes(m, c, v)
    &&& forall|w: Label| w < v ==> !#[trigger] clashes(m, c, w)
    &&& forall|d: int, w: Label| 0 <= d < c ==> !#[trigger] clashes(m, d, w)
}

/// The pattern of a sparse matrix by rows, and where each entry stands in it.
#[derive(Debug, Clone)]
pub struct CsrPattern {
    pub n_rows: usize,
    pub nnz: usize,
    pub row_ptr: Vec<Label>,
    pub col_ind: Vec<Label>,
    pub diag_slot: Vec<Label>,
    pub upper_slot: Vec<Label>,
    pub lower_slot: Vec<Label>,
    /// -1 for a boundary face that is not coupled.
    pub coupled_slot: Vec<Label>,
    pub n_coupled: usize,
}

/// A slot is in a row and holds a column.
pub open spec fn holds(
    row_ptr: Seq<Label>,
    col_ind: Seq<Label>,
    slot: Label,
    row: int,
    col: Label,
) -> bool {
    row_ptr[row] <= slot < row_ptr[row + 1] && col_ind[slot as int] == col
}

/// The number of coupled faces in the first `n` rows.
pub open spec fn coupled_total(m: HostMesh, n: int) -> int
    decreases n,
{
    if n <= 0 {
        0
    } else {
        let bs = m.rows_of_boundary()[n - 1];
        coupled_total(m, n - 1) + coupled_among(m, bs, bs.len() as int).len()
    }
}

/// The number of entries in the first `n` rows.
pub open spec fn entry_total(m: HostMesh, n: int) -> int
    decreases n,
{
    if n <= 0 {
        0
    } else {
        entry_total(m, n - 1) + sources(m, n - 1).len()
    }
}

impl CsrPattern {
    /// The rows are as long as they should be.
    pub open spec fn lays_out(&self, m: HostMesh) -> bool {
        &&& self.n_rows == m.n_cells
        &&& self.row_ptr.len() == m.n_cells + 1
        &&& forall|c: int| 0 <= c <= m.n_cells ==> #[trigger] self.row_ptr[c] == entry_total(m, c)
        &&& self.nnz == entry_total(m, m.n_cells as int)
        &&& self.col_ind.len() == self.nnz
        &&& self.n_coupled == coupled_total(m, m.n_cells as int)
    }

    /// The columns of a row ascend.
    pub open spec fn ascends(&self, m: HostMesh) -> bool {
        forall|c: int, i: int, j: int|
            #![trigger self.row_ptr[c], self.col_ind[i], self.col_ind[j]]
            0 <= c < m.n_cells && self.row_ptr[c] <= i < j < self.row_ptr[c + 1]
                ==> self.col_ind[i] < self.col_ind[j]
    }

    /// Every entry has a slot in its row, at its column.
    pub open spec fn places(&self, m: HostMesh) -> bool {
        let r = self.row_ptr@;
        let k = self.col_ind@;
        &&& self.diag_slot.len() == m.n_cells
        &&& forall|c: int|
            0 <= c < m.n_cells ==> holds(r, k, #[trigger] self.diag_slot[c], c, c as Label)
        &&& self.upper_slot.len() == m.n_internal_faces
        &&& forall|f: int|
            0 <= f < m.n_internal_faces ==> holds(
                r,
                k,
                #[trigger] self.upper_slot[f],
                m.owner[f] as int,
                m.neighbour[f],
            )
        &&& self.lower_slot.len() == m.n_internal_faces
        &&& forall|f: int|
            0 <= f < m.n_internal_faces ==> holds(
                r,
                k,
                #[trigger] self.lower_slot[f],
                m.neighbour[f] as int,
                m.owner[f],
            )
        &&& self.coupled_slot.len() == m.n_boundary_faces
        &&& forall|b: int|
            0 <= b < m.n_boundary_faces ==> match coupled_cell(m, b) {
                Some(v) => holds(r, k, #[trigger] self.coupled_slot[b], m.b_face_cells[b] as int, v),
                None => self.coupled_slot[b] == -1,
            }
    }
}

pub open spec fn clash_text(c: nat, v: nat) -> Seq<char> {
    "CsrPattern::build: cell "@
        + decimal(c)
        + " reaches cell "@
        + decimal(v)
        + " through two different couplings (an internal face and a coupled boundary face, or two coupled boundary faces). The CSR has one entry per (row, column) and `amul` SUMS both terms, so exporting this matrix would silently drop one of them. Mesh the periodic pair with more than one cell across, or solve it with the LDU path"@
}

pub(crate) fn clash_message(c: usize, v: usize) -> (r: String)
    ensures
        r@ == clash_text(c as nat, v as nat),
{
    let mut s = copy("CsrPattern::build: cell ");
    push_decimal(&mut s, c as u64);
    push_text(&mut s, " reaches cell ");
    push_decimal(&mut s, v as u64);
    push_text(&mut s, " through two different couplings (an internal face and a coupled boundary face, or two coupled boundary faces). The CSR has one entry per (row, column) and `amul` SUMS both terms, so exporting this matrix would silently drop one of them. Mesh the periodic pair with more than one cell across, or solve it with the LDU path");
    s
}

/// The cell that a boundary face is coupled to.
fn coupled_to(m: &HostMesh, b: usize) -> (r: Option<Label>)
    ensures
        r == coupled_cell(*m, b as int),
{
    if b < m.b_nbr_cell.len() {
        let c: Label = m.b_nbr_cell[b];
        if c >= 0 && (c as usize) < m.n_cells {
            return Some(c);
        }
    }
    None
}

/// The row of a side is the row of its cell, and a side is in its row once.
proof fn lemma_sides_of(m: HostMesh, c: int)
    requires
        m.addressed(),
        0 <= c < m.n_cells,
    ensures
        forall|a: int|
            #![trigger m.rows_of_sides()[c][a]]
            0 <= a < m.rows_of_sides()[c].len() ==> m.rows_of_sides()[c][a] < 2
                * m.n_internal_faces && sides(
                m.owner@,
                m.neighbour@,
            )[m.rows_of_sides()[c][a] as int] == c,
        forall|j: int|
            #![trigger sides(m.owner@, m.neighbour@)[j]]
            0 <= j < 2 * m.n_internal_faces && sides(m.owner@, m.neighbour@)[j] == c
                ==> m.rows_of_sides()[c].contains(j as usize),
        forall|a: int, b: int|
            0 <= a < b < m.rows_of_sides()[c].len() ==> m.rows_of_sides()[c][a]
                < m.rows_of_sides()[c][b],
{
    let keys = sides(m.owner@, m.neighbour@);
    bucket_is_complete(keys, c, keys.len() as int);
}

proof fn lemma_faces_of(m: HostMesh, c: int)
    requires
        m.addressed(),
        0 <= c < m.n_cells,
    ensures
        forall|a: int|
            #![trigger m.rows_of_boundary()[c][a]]
            0 <= a < m.rows_of_boundary()[c].len() ==> m.rows_of_boundary()[c][a]
                < m.n_boundary_faces && m.b_face_cells[m.rows_of_boundary()[c][a] as int] == c,
        forall|b: int|
            #![trigger m.b_face_cells[b]]
            0 <= b < m.n_boundary_faces && m.b_face_cells[b] == c
                ==> m.rows_of_boundary()[c].contains(b as usize),
        forall|a: int, b: int|
            0 <= a < b < m.rows_of_boundary()[c].len() ==> m.rows_of_boundary()[c][a]
                < m.rows_of_boundary()[c][b],
{
    let keys = as_cells(m.b_face_cells@);
    bucket_is_complete(keys, c, keys.len() as int);
    assert forall|a: int|
        #![trigger m.rows_of_boundary()[c][a]]
        0 <= a < m.rows_of_boundary()[c].len() implies m.rows_of_boundary()[c][a]
        < m.n_boundary_faces && m.b_face_cells[m.rows_of_boundary()[c][a] as int] == c by {
        let b = m.rows_of_boundary()[c][a] as int;
        assert(keys[b] == c);
        assert(0 <= m.b_face_cells[b] < m.n_cells);
    }
    assert forall|b: int|
        #![trigger m.b_face_cells[b]]
        0 <= b < m.n_boundary_faces && m.b_face_cells[b] == c implies m.rows_of_boundary()[
        c].contains(b as usize) by {
        assert(keys[b] == c);
    }
}

/// The coupled faces of a list are those of its faces that are coupled.
proof fn lemma_coupled_among(m: HostMesh, s: Seq<usize>, n: int)
    requires
        0 <= n <= s.len(),
        forall|a: int, b: int| 0 <= a < b < s.len() ==> s[a] < s[b],
    ensures
        forall|i: int|
            #![trigger coupled_among(m, s, n)[i]]
            0 <= i < coupled_among(m, s, n).len() ==> {
                &&& coupled_among(m, s, n)[i] is Coupled
                &&& coupled_cell(m, coupled_among(m, s, n)[i]->Coupled_0 as int) is Some
                &&& exists|a: int| 0 <= a < n && #[trigger] s[a] == coupled_among(m, s, n)[i]->Coupled_0
            },
        forall|a: int|
            0 <= a < n && coupled_cell(m, #[trigger] s[a] as int) is Some ==> coupled_among(
                m,
                s,
                n,
            ).contains(ColSource::Coupled(s[a])),
        coupled_among(m, s, n).no_duplicates(),
        coupled_among(m, s, n).len() <= n,
    decreases n,
{
    if n > 0 {
        lemma_coupled_among(m, s, n - 1);
        let d = coupled_among(m, s, n - 1);
        let e = coupled_among(m, s, n);
        assert forall|a: int|
            0 <= a < n && coupled_cell(m, #[trigger] s[a] as int) is Some implies e.contains(
            ColSource::Coupled(s[a]),
        ) by {
            if a < n - 1 {
                assert(d.contains(ColSource::Coupled(s[a])));
                let k = choose|k: int| 0 <= k < d.len() && d[k] == ColSource::Coupled(s[a]);
                assert(e[k] == ColSource::Coupled(s[a]));
            } else {
                assert(e[d.len() as int] == ColSource::Coupled(s[a]));
            }
        }
        assert forall|i: int| #![trigger e[i]] 0 <= i < e.len() implies ({
            &&& e[i] is Coupled
            &&& coupled_cell(m, e[i]->Coupled_0 as int) is Some
            &&& exists|a: int| 0 <= a < n && #[trigger] s[a] == e[i]->Coupled_0
        }) by {
            if i < d.len() {
                assert(e[i] == d[i]);
                let a = choose|a: int| 0 <= a < n - 1 && #[trigger] s[a] == d[i]->Coupled_0;
                assert(s[a] == e[i]->Coupled_0);
            } else {
                assert(s[n - 1] == e[i]->Coupled_0);
            }
        }
        assert forall|i: int, j: int| 0 <= i < e.len() && 0 <= j < e.len() && i != j implies e[i]
            != e[j] by {
            if i == d.len() {
                let a = choose|a: int| 0 <= a < n - 1 && #[trigger] s[a] == d[j]->Coupled_0;
                assert(s[a] < s[n - 1]);
            } else if j == d.len() {
                let a = choose|a: int| 0 <= a < n - 1 && #[trigger] s[a] == d[i]->Coupled_0;
                assert(s[a] < s[n - 1]);
            }
        }
    }
}

/// An entry of row `c`: what it is, and that its column is a cell.
pub open spec fn belongs(m: HostMesh, c: int, s: ColSource) -> bool {
    match s {
        ColSource::Diagonal => true,
        ColSource::Side(j) => j < 2 * m.n_internal_faces && sides(m.owner@, m.neighbour@)[j as int]
            == c,
        ColSource::Coupled(b) => b < m.n_boundary_faces && m.b_face_cells[b as int] == c
            && coupled_cell(m, b as int) is Some,
    }
}

/// A row holds exactly the entries that belong to it, each once.
pub proof fn rows_hold_what_belongs(m: HostMesh, c: int)
    requires
        m.addressed(),
        0 <= c < m.n_cells,
    ensures
        forall|i: int|
            0 <= i < sources(m, c).len() ==> belongs(m, c, #[trigger] sources(m, c)[i]),
        forall|s: ColSource| #[trigger] belongs(m, c, s) ==> sources(m, c).contains(s),
        sources(m, c).no_duplicates(),
{
    lemma_sides_of(m, c);
    lemma_faces_of(m, c);
    let ss = m.rows_of_sides()[c];
    let bs = m.rows_of_boundary()[c];
    lemma_coupled_among(m, bs, bs.len() as int);
    let mid = ss.map_values(|j: usize| ColSource::Side(j));
    let cp = coupled_among(m, bs, bs.len() as int);
    let all = sources(m, c);
    let n = ss.len() as int;
    assert(all[0] == ColSource::Diagonal);
    assert forall|i: int| 1 <= i < 1 + n implies all[i] == ColSource::Side(ss[i - 1]) by {}
    assert forall|i: int| 1 + n <= i < all.len() implies all[i] == cp[i - 1 - n] by {}
    assert forall|i: int| 0 <= i < all.len() implies belongs(m, c, #[trigger] all[i]) by {
        if i == 0 {
        } else if i < 1 + n {
            assert(ss[i - 1] < 2 * m.n_internal_faces);
        } else {
            let x = cp[i - 1 - n];
            let a = choose|a: int| 0 <= a < bs.len() && #[trigger] bs[a] == x->Coupled_0;
            assert(m.b_face_cells[bs[a] as int] == c);
        }
    }
    assert forall|s: ColSource| #[trigger] belongs(m, c, s) implies all.contains(s) by {
        match s {
            ColSource::Diagonal => {
                assert(all[0] == s);
            },
            ColSource::Side(j) => {
                assert(sides(m.owner@, m.neighbour@)[j as int] == c);
                assert(ss.contains(j));
                let k = choose|k: int| 0 <= k < ss.len() && ss[k] == j;
                assert(all[1 + k] == s);
            },
            ColSource::Coupled(b) => {
                assert(m.b_face_cells[b as int] == c);
                assert(bs.contains(b));
                let a = choose|a: int| 0 <= a < bs.len() && bs[a] == b;
                assert(cp.contains(ColSource::Coupled(bs[a])));
                let k = choose|k: int| 0 <= k < cp.len() && cp[k] == s;
                assert(all[1 + n + k] == s);
            },
        }
    }
    assert forall|i: int, j: int| 0 <= i < all.len() && 0 <= j < all.len() && i != j implies all[i]
        != all[j] by {
        if i < 1 + n && j < 1 + n && i > 0 && j > 0 {
            if i < j {
                assert(ss[i - 1] < ss[j - 1]);
            } else {
                assert(ss[j - 1] < ss[i - 1]);
            }
        }
    }
}

/// Columns in ascending order, with room for equals.
spec fn in_order(m: HostMesh, c: int, s: Seq<ColSource>) -> bool {
    forall|i: int, j: int|
        0 <= i < j < s.len() ==> column(m, c, #[trigger] s[i]) <= column(m, c, #[trigger] s[j])
}

/// The entries of a row, in the order of its faces.
fn gather(m: &HostMesh, c: usize) -> (r: Vec<ColSource>)
    requires
        m.addressed(),
        m.mapped(),
        c < m.n_cells,
    ensures
        r@ == sources(*m, c as int),
{
    let ghost cs = m.rows_of_sides();
    let ghost bs = m.rows_of_boundary();
    let ghost call = flat(cs, cs.len() as int);
    let ghost ball = flat(bs, bs.len() as int);
    let ghost mine = cs[c as int];
    let ghost bmine = bs[c as int];
    proof {
        table_row(m.cf_offset@, call, cs, c as int);
        table_row(m.bcf_offset@, ball, bs, c as int);
        lemma_sides_of(*m, c as int);
        lemma_faces_of(*m, c as int);
    }
    let mut out: Vec<ColSource> = Vec::new();
    out.push(ColSource::Diagonal);
    let from: usize = m.cf_offset[c] as usize;
    let to: usize = m.cf_offset[c + 1] as usize;
    let ghost mapped = mine.map_values(|j: usize| ColSource::Side(j));
    let mut k: usize = from;
    assert(out@ =~= seq![ColSource::Diagonal] + mapped.take(0));
    while k < to
        invariant
            from <= k <= to,
            to <= call.len(),
            m.cf_face@ == call.map_values(|j: usize| side_face(j)),
            m.cf_own@ == call.map_values(|j: usize| side_own(j)),
            mine == call.subrange(from as int, to as int),
            mapped == mine.map_values(|j: usize| ColSource::Side(j)),
            forall|a: int|
                #![trigger mine[a]]
                0 <= a < mine.len() ==> mine[a] < 2 * m.n_internal_faces,
            2 * m.n_internal_faces <= i32::MAX,
            out@ == seq![ColSource::Diagonal] + mapped.take(k - from),
        decreases to - k,
    {
        let ghost j = call[k as int];
        assert(mine[k - from] == j);
        assert(m.cf_face[k as int] == side_face(j));
        assert(m.cf_own[k as int] == side_own(j));
        let f: usize = m.cf_face[k] as usize;
        let side: usize = if m.cf_own[k] != 0 {
            2 * f
        } else {
            2 * f + 1
        };
        assert(side == j);
        out.push(ColSource::Side(side));
        k = k + 1;
        assert(out@ =~= seq![ColSource::Diagonal] + mapped.take(k - from));
    }
    assert(mapped.take(k - from) =~= mapped);
    let ghost before = out@;
    let bfrom: usize = m.bcf_offset[c] as usize;
    let bto: usize = m.bcf_offset[c + 1] as usize;
    let mut q: usize = bfrom;
    assert(out@ =~= before + coupled_among(*m, bmine, 0));
    while q < bto
        invariant
            bfrom <= q <= bto,
            bto <= ball.len(),
            m.bcf_face@ == ball.map_values(|j: usize| j as Label),
            bmine == ball.subrange(bfrom as int, bto as int),
            forall|a: int|
                #![trigger bmine[a]]
                0 <= a < bmine.len() ==> bmine[a] < m.n_boundary_faces,
            m.n_boundary_faces <= i32::MAX,
            out@ == before + coupled_among(*m, bmine, q - bfrom),
        decreases bto - q,
    {
        let ghost j = ball[q as int];
        assert(bmine[q - bfrom] == j);
        assert(m.bcf_face[q as int] == j as Label);
        let b: usize = m.bcf_face[q] as usize;
        if coupled_to(m, b).is_some() {
            out.push(ColSource::Coupled(b));
        }
        q = q + 1;
        assert(out@ =~= before + coupled_among(*m, bmine, q - bfrom));
    }
    assert(out@ =~= sources(*m, c as int));
    out
}

fn column_of(m: &HostMesh, c: usize, s: ColSource) -> (r: Label)
    requires
        m.addressed(),
        c < m.n_cells,
        belongs(*m, c as int, s),
    ensures
        r == column(*m, c as int, s),
        0 <= r < m.n_cells,
{
    match s {
        ColSource::Diagonal => c as Label,
        ColSource::Side(j) => {
            assert(0 <= m.neighbour[(j / 2) as int] < m.n_cells);
            assert(0 <= m.owner[(j / 2) as int] < m.n_cells);
            if j % 2 == 0 {
                m.neighbour[j / 2]
            } else {
                m.owner[j / 2]
            }
        },
        ColSource::Coupled(b) => m.b_nbr_cell[b],
    }
}

/// The entries of a row, by their columns.
fn sort_row(m: &HostMesh, c: usize, list: &Vec<ColSource>) -> (r: Vec<ColSource>)
    requires
        m.addressed(),
        c < m.n_cells,
        forall|i: int| 0 <= i < list.len() ==> belongs(*m, c as int, #[trigger] list[i]),
    ensures
        in_order(*m, c as int, r@),
        r@.to_multiset() == list@.to_multiset(),
        r.len() == list.len(),
        forall|i: int| 0 <= i < r.len() ==> belongs(*m, c as int, #[trigger] r[i]),
{
    broadcast use vstd::seq_lib::group_to_multiset_ensures;

    let mut out: Vec<ColSource> = Vec::new();
    let mut i: usize = 0;
    assert(list@.take(0) =~= Seq::empty());
    while i < list.len()
        invariant
            i <= list.len(),
            m.addressed(),
            c < m.n_cells,
            forall|k: int| 0 <= k < list.len() ==> belongs(*m, c as int, #[trigger] list[k]),
            forall|k: int| 0 <= k < out.len() ==> belongs(*m, c as int, #[trigger] out[k]),
            out.len() == i,
            in_order(*m, c as int, out@),
            out@.to_multiset() == list@.take(i as int).to_multiset(),
        decreases list.len() - i,
    {
        let x: ColSource = list[i];
        let v: Label = column_of(m, c, x);
        let mut at: usize = out.len();
        while at > 0 && column_of(m, c, out[at - 1]) > v
            invariant
                at <= out.len(),
                m.addressed(),
                c < m.n_cells,
                forall|k: int| 0 <= k < out.len() ==> belongs(*m, c as int, #[trigger] out[k]),
                forall|k: int|
                    at <= k < out.len() ==> column(*m, c as int, #[trigger] out[k]) > v,
            decreases at,
        {
            at = at - 1;
        }
        let ghost before = out@;
        out.insert(at, x);
        proof {
            assert forall|a: int, b: int| 0 <= a < b < out.len() implies column(
                *m,
                c as int,
                #[trigger] out[a],
            ) <= column(*m, c as int, #[trigger] out[b]) by {
                let pa = if a < at {
                    a
                } else {
                    a - 1
                };
                let pb = if b < at {
                    b
                } else {
                    b - 1
                };
                if a != at && b != at {
                    assert(out[a] == before[pa] && out[b] == before[pb]);
                } else if a == at {
                    assert(out[b] == before[pb]);
                } else {
                    assert(out[a] == before[pa]);
                    if pa < at - 1 {
                        assert(column(*m, c as int, before[pa]) <= column(
                            *m,
                            c as int,
                            before[at - 1],
                        ));
                    }
                }
            }
            assert forall|k: int| 0 <= k < out.len() implies belongs(
                *m,
                c as int,
                #[trigger] out[k],
            ) by {
                if k < at {
                    assert(out[k] == before[k]);
                } else if k > at {
                    assert(out[k] == before[k - 1]);
                }
            }
            vstd::seq_lib::to_multiset_insert(before, at as int, x);
            vstd::seq_lib::to_multiset_build(list@.take(i as int), x);
            assert(list@.take(i + 1) =~= list@.take(i as int).push(x));
            assert(out@ =~= before.insert(at as int, x));
        }
        i = i + 1;
    }
    assert(list@.take(i as int) =~= list@);
    out
}

/// The first place where two entries behind each other share a column.
fn find_clash(m: &HostMesh, c: usize, row: &Vec<ColSource>) -> (r: Option<Label>)
    requires
        m.addressed(),
        c < m.n_cells,
        in_order(*m, c as int, row@),
        row@.to_multiset() == sources(*m, c as int).to_multiset(),
        forall|i: int| 0 <= i < row.len() ==> belongs(*m, c as int, #[trigger] row[i]),
    ensures
        match r {
            Some(v) => 0 <= v && clashes(*m, c as int, v) && forall|w: Label|
                w < v ==> !#[trigger] clashes(*m, c as int, w),
            None => (forall|w: Label| !#[trigger] clashes(*m, c as int, w)) && forall|
                i: int,
                j: int,
            |
                0 <= i < j < row.len() ==> column(*m, c as int, #[trigger] row[i]) < column(
                    *m,
                    c as int,
                    #[trigger] row[j],
                ),
        },
{
    let mut k: usize = 0;
    while k + 1 < row.len()
        invariant
            k <= row.len(),
            row.len() > 0 ==> k < row.len(),
            m.addressed(),
            c < m.n_cells,
            in_order(*m, c as int, row@),
            row@.to_multiset() == sources(*m, c as int).to_multiset(),
            forall|i: int| 0 <= i < row.len() ==> belongs(*m, c as int, #[trigger] row[i]),
            forall|i: int, j: int|
                0 <= i < j <= k ==> column(*m, c as int, #[trigger] row[i]) < column(
                    *m,
                    c as int,
                    #[trigger] row[j],
                ),
        decreases row.len() - k,
    {
        let v: Label = column_of(m, c, row[k]);
        let w: Label = column_of(m, c, row[k + 1]);
        if v == w {
            proof {
                lemma_clash_in_row(*m, c as int, row@, k as int, k + 1);
                assert forall|x: Label| x < v implies !#[trigger] clashes(*m, c as int, x) by {
                    if clashes(*m, c as int, x) {
                        let (a, b) = lemma_row_of_clash(*m, c as int, row@, x);
                        if a > k {
                            assert(column(*m, c as int, row[k as int]) <= column(
                                *m,
                                c as int,
                                row[a],
                            ));
                        }
                        if b > k {
                            assert(column(*m, c as int, row[k as int]) <= column(
                                *m,
                                c as int,
                                row[b],
                            ));
                        }
                        assert(a <= k && b <= k);
                    }
                }
            }
            return Some(v);
        }
        proof {
            assert(column(*m, c as int, row[k as int]) <= column(*m, c as int, row[k + 1]));
            assert forall|i: int, j: int| 0 <= i < j <= k + 1 implies column(
                *m,
                c as int,
                #[trigger] row[i],
            ) < column(*m, c as int, #[trigger] row[j]) by {
                if j == k + 1 && i < k {
                    assert(column(*m, c as int, row[i]) < column(*m, c as int, row[k as int]));
                }
            }
        }
        k = k + 1;
    }
    proof {
        assert forall|x: Label| !#[trigger] clashes(*m, c as int, x) by {
            if clashes(*m, c as int, x) {
                let (a, b) = lemma_row_of_clash(*m, c as int, row@, x);
                if a < b {
                    assert(column(*m, c as int, row[a]) < column(*m, c as int, row[b]));
                } else {
                    assert(column(*m, c as int, row[b]) < column(*m, c as int, row[a]));
                }
            }
        }
    }
    None
}

/// Two entries of a sorted row that share a column clash.
proof fn lemma_clash_in_row(m: HostMesh, c: int, row: Seq<ColSource>, a: int, b: int)
    requires
        m.addressed(),
        0 <= c < m.n_cells,
        row.to_multiset() == sources(m, c).to_multiset(),
        0 <= a < b < row.len(),
        column(m, c, row[a]) == column(m, c, row[b]),
    ensures
        clashes(m, c, column(m, c, row[a])),
{
    broadcast use vstd::seq_lib::group_to_multiset_ensures;

    let all = sources(m, c);
    rows_hold_what_belongs(m, c);
    all.lemma_multiset_has_no_duplicates();
    row.lemma_multiset_has_no_duplicates_conv();
    assert(row.contains(row[a]) && row.contains(row[b]));
    assert(row.to_multiset().count(row[a]) > 0);
    assert(row.to_multiset().count(row[b]) > 0);
    assert(all.contains(row[a]) && all.contains(row[b]));
    let i = choose|i: int| 0 <= i < all.len() && all[i] == row[a];
    let j = choose|j: int| 0 <= j < all.len() && all[j] == row[b];
    assert(row[a] != row[b]);
    assert(column(m, c, all[i]) == column(m, c, all[j]));
    if i < j {
        assert(clashes(m, c, column(m, c, row[a])));
    } else {
        assert(j < i);
        assert(clashes(m, c, column(m, c, row[a])));
    }
}

/// Where two entries that clash stand in the sorted row.
proof fn lemma_row_of_clash(m: HostMesh, c: int, row: Seq<ColSource>, v: Label) -> (r: (int, int))
    requires
        m.addressed(),
        0 <= c < m.n_cells,
        row.to_multiset() == sources(m, c).to_multiset(),
        clashes(m, c, v),
    ensures
        0 <= r.0 < row.len(),
        0 <= r.1 < row.len(),
        r.0 != r.1,
        column(m, c, row[r.0]) == v,
        column(m, c, row[r.1]) == v,
{
    broadcast use vstd::seq_lib::group_to_multiset_ensures;

    let all = sources(m, c);
    rows_hold_what_belongs(m, c);
    let (i, j) = choose|i: int, j: int|
        0 <= i < j < all.len() && column(m, c, #[trigger] all[i]) == v && column(
            m,
            c,
            #[trigger] all[j],
        ) == v;
    assert(all.contains(all[i]) && all.contains(all[j]));
    assert(all.to_multiset().count(all[i]) > 0);
    assert(all.to_multiset().count(all[j]) > 0);
    assert(row.contains(all[i]) && row.contains(all[j]));
    let a = choose|a: int| 0 <= a < row.len() && row[a] == all[i];
    let b = choose|b: int| 0 <= b < row.len() && row[b] == all[j];
    assert(all[i] != all[j]);
    (a, b)
}

impl CsrPattern {
    /// Where an entry of row `c` was put.
    spec fn slot(&self, c: int, s: ColSource) -> Label {
        match s {
            ColSource::Diagonal => self.diag_slot[c],
            ColSource::Side(j) => if j % 2 == 0 {
                self.upper_slot[(j / 2) as int]
            } else {
                self.lower_slot[(j / 2) as int]
            },
            ColSource::Coupled(b) => self.coupled_slot[b as int],
        }
    }

    /// There is room for every slot.
    spec fn sized(&self, m: HostMesh) -> bool {
        &&& self.diag_slot.len() == m.n_cells
        &&& self.upper_slot.len() == m.n_internal_faces
        &&& self.lower_slot.len() == m.n_internal_faces
        &&& self.coupled_slot.len() == m.n_boundary_faces
    }

    /// The rows before `c` are done.
    spec fn so_far(&self, m: HostMesh, c: int) -> bool {
        let r = self.row_ptr@;
        let k = self.col_ind@;
        &&& self.sized(m)
        &&& r.len() == c + 1
        &&& forall|d: int| 0 <= d <= c ==> #[trigger] r[d] == entry_total(m, d)
        &&& k.len() == entry_total(m, c)
        &&& self.n_coupled == coupled_total(m, c)
        &&& forall|d: int, i: int, j: int|
            #![trigger r[d], k[i], k[j]]
            0 <= d < c && r[d] <= i < j < r[d + 1] ==> k[i] < k[j]
        &&& forall|d: int, s: ColSource|
            0 <= d < c && #[trigger] belongs(m, d, s) ==> holds(
                r,
                k,
                self.slot(d, s),
                d,
                column(m, d, s),
            )
        &&& forall|b: int|
            0 <= b < m.n_boundary_faces && (coupled_cell(m, b) is None || m.b_face_cells[b] >= c)
                ==> #[trigger] self.coupled_slot[b] == -1
    }

    /// Put an entry of row `c` at a slot.
    fn put(&mut self, Ghost(m): Ghost<HostMesh>, c: usize, s: ColSource, at: Label)
        requires
            old(self).sized(m),
            c < m.n_cells,
            belongs(m, c as int, s),
        ensures
            final(self).sized(m),
            final(self).row_ptr == old(self).row_ptr,
            final(self).col_ind == old(self).col_ind,
            final(self).n_coupled == old(self).n_coupled,
            final(self).n_rows == old(self).n_rows,
            final(self).slot(c as int, s) == at,
            forall|d: int, t: ColSource|
                0 <= d < m.n_cells && #[trigger] belongs(m, d, t) && (d != c || t != s)
                    ==> final(self).slot(d, t) == old(self).slot(d, t),
            forall|b: int|
                0 <= b < m.n_boundary_faces && !belongs(m, c as int, ColSource::Coupled(b as usize))
                    ==> #[trigger] final(self).coupled_slot[b] == old(self).coupled_slot[b],
    {
        match s {
            ColSource::Diagonal => {
                self.diag_slot.set(c, at);
            },
            ColSource::Side(j) => {
                if j % 2 == 0 {
                    self.upper_slot.set(j / 2, at);
                } else {
                    self.lower_slot.set(j / 2, at);
                }
            },
            ColSource::Coupled(b) => {
                self.coupled_slot.set(b, at);
            },
        }
    }
}

/// No more entries than cells, sides and boundary faces.
proof fn lemma_entry_total(m: HostMesh, c: int)
    requires
        m.addressed(),
        0 <= c <= m.n_cells,
    ensures
        0 <= entry_total(m, c) <= c + flat(m.rows_of_sides(), c).len() + flat(
            m.rows_of_boundary(),
            c,
        ).len(),
        0 <= coupled_total(m, c) <= flat(m.rows_of_boundary(), c).len(),
    decreases c,
{
    if c > 0 {
        lemma_entry_total(m, c - 1);
        let bs = m.rows_of_boundary()[c - 1];
        lemma_faces_of(m, c - 1);
        lemma_coupled_among(m, bs, bs.len() as int);
    }
}

proof fn lemma_entry_bound(m: HostMesh, c: int)
    requires
        m.addressed(),
        0 <= c <= m.n_cells,
        m.n_cells + 2 * m.n_internal_faces + m.n_boundary_faces <= i32::MAX,
    ensures
        0 <= entry_total(m, c) <= i32::MAX,
        0 <= coupled_total(m, c) <= m.n_boundary_faces,
{
    let n = m.n_cells as nat;
    let sk = sides(m.owner@, m.neighbour@);
    let bk = as_cells(m.b_face_cells@);
    lemma_entry_total(m, c);
    assert forall|i: int| 0 <= i < sk.len() implies sk[i] < n by {
        assert(0 <= m.owner[i / 2] < n);
        assert(0 <= m.neighbour[i / 2] < n);
    }
    assert forall|i: int| 0 <= i < bk.len() implies bk[i] < n by {
        assert(0 <= m.b_face_cells[i] < n);
    }
    crate::mesh::lemma_buckets_total(sk, n, sk.len() as int);
    crate::mesh::lemma_buckets_total(bk, n, bk.len() as int);
    assert(Seq::new(n, |k: int| bucket(sk, k, sk.len() as int)) =~= m.rows_of_sides());
    assert(Seq::new(n, |k: int| bucket(bk, k, bk.len() as int)) =~= m.rows_of_boundary());
    crate::list::lemma_flat_len(m.rows_of_sides(), c, n as int);
    crate::list::lemma_flat_len(m.rows_of_boundary(), c, n as int);
}

/// How many entries of a row are coupled.
fn count_coupled(m: &HostMesh, c: usize, list: &Vec<ColSource>) -> (r: usize)
    requires
        m.addressed(),
        c < m.n_cells,
        list@ == sources(*m, c as int),
    ensures
        r == coupled_among(
            *m,
            m.rows_of_boundary()[c as int],
            m.rows_of_boundary()[c as int].len() as int,
        ).len(),
{
    let ghost ss = m.rows_of_sides()[c as int];
    let ghost bs = m.rows_of_boundary()[c as int];
    let ghost cp = coupled_among(*m, bs, bs.len() as int);
    proof {
        lemma_faces_of(*m, c as int);
        lemma_coupled_among(*m, bs, bs.len() as int);
    }
    let mut n: usize = 0;
    let mut i: usize = 0;
    while i < list.len()
        invariant
            n <= i <= list.len(),
            list@ == sources(*m, c as int),
            ss == m.rows_of_sides()[c as int],
            bs == m.rows_of_boundary()[c as int],
            cp == coupled_among(*m, bs, bs.len() as int),
            list.len() == 1 + ss.len() + cp.len(),
            forall|k: int| #![trigger cp[k]] 0 <= k < cp.len() ==> cp[k] is Coupled,
            n == (if i <= 1 + ss.len() {
                0
            } else {
                i - 1 - ss.len()
            }),
        decreases list.len() - i,
    {
        match list[i] {
            ColSource::Coupled(_) => {
                assert(i >= 1 + ss.len());
                n = n + 1;
            },
            _ => {
                proof {
                    if i >= 1 + ss.len() {
                        assert(list[i as int] == cp[i - 1 - ss.len()]);
                    }
                }
            },
        }
        i = i + 1;
    }
    n
}

impl CsrPattern {
    /// Append row `c`, whose columns ascend.
    fn push_row(&mut self, m: &HostMesh, c: usize, row: &Vec<ColSource>, coupled: usize)
        requires
            m.addressed(),
            c < m.n_cells,
            m.n_cells + 2 * m.n_internal_faces + m.n_boundary_faces <= i32::MAX,
            old(self).so_far(*m, c as int),
            row.len() == sources(*m, c as int).len(),
            forall|i: int| 0 <= i < row.len() ==> belongs(*m, c as int, #[trigger] row[i]),
            forall|s: ColSource| #[trigger] belongs(*m, c as int, s) ==> row@.contains(s),
            row@.no_duplicates(),
            forall|i: int, j: int|
                0 <= i < j < row.len() ==> column(*m, c as int, #[trigger] row[i]) < column(
                    *m,
                    c as int,
                    #[trigger] row[j],
                ),
            coupled + coupled_total(*m, c as int) == coupled_total(*m, c + 1),
        ensures
            final(self).so_far(*m, c + 1),
            final(self).n_rows == old(self).n_rows,
    {
        let ghost was = *self;
        let ghost base = self.col_ind@.len() as int;
        proof {
            lemma_entry_bound(*m, c as int);
            lemma_entry_bound(*m, c + 1);
        }
        let mut k: usize = 0;
        while k < row.len()
            invariant
                k <= row.len(),
                m.addressed(),
                c < m.n_cells,
                was.so_far(*m, c as int),
                self.sized(*m),
                self.row_ptr == was.row_ptr,
                self.n_coupled == was.n_coupled,
                self.n_rows == was.n_rows,
                base == was.col_ind@.len(),
                base + row.len() <= i32::MAX,
                self.col_ind.len() == base + k,
                forall|i: int| 0 <= i < base ==> #[trigger] self.col_ind[i] == was.col_ind[i],
                forall|i: int|
                    0 <= i < k ==> #[trigger] self.col_ind[base + i] == column(
                        *m,
                        c as int,
                        row[i],
                    ),
                forall|i: int| 0 <= i < row.len() ==> belongs(*m, c as int, #[trigger] row[i]),
                row@.no_duplicates(),
                forall|i: int|
                    0 <= i < k ==> self.slot(c as int, #[trigger] row[i]) == base + i,
                forall|d: int, t: ColSource|
                    0 <= d < m.n_cells && d != c && #[trigger] belongs(*m, d, t) ==> self.slot(d, t)
                        == was.slot(d, t),
                forall|b: int|
                    0 <= b < m.n_boundary_faces && !belongs(
                        *m,
                        c as int,
                        ColSource::Coupled(b as usize),
                    ) ==> #[trigger] self.coupled_slot[b] == was.coupled_slot[b],
            decreases row.len() - k,
        {
            let s: ColSource = row[k];
            let at: Label = self.col_ind.len() as Label;
            let v: Label = column_of(m, c, s);
            let ghost before = *self;
            self.put(Ghost(*m), c, s, at);
            proof {
                assert forall|i: int| 0 <= i < k implies self.slot(c as int, #[trigger] row[i])
                    == base + i by {
                    assert(row[i] != s);
                    assert(belongs(*m, c as int, row[i]));
                    assert(before.slot(c as int, row[i]) == base + i);
                }
            }
            self.col_ind.push(v);
            k = k + 1;
        }
        let end: Label = self.col_ind.len() as Label;
        self.row_ptr.push(end);
        self.n_coupled = self.n_coupled + coupled;
        proof {
            let r = self.row_ptr@;
            let q = self.col_ind@;
            assert forall|d: int| 0 <= d <= c + 1 implies #[trigger] r[d] == entry_total(*m, d) by {
                if d <= c {
                    assert(r[d] == was.row_ptr@[d]);
                }
            }
            assert forall|d: int, i: int, j: int|
                #![trigger r[d], q[i], q[j]]
                0 <= d < c + 1 && r[d] <= i < j < r[d + 1] implies q[i] < q[j] by {
                if d < c {
                    assert(r[d] == was.row_ptr@[d]);
                    assert(r[d + 1] == was.row_ptr@[d + 1]);
                    lemma_totals_grow(*m, d + 1, c as int);
                    lemma_totals_grow(*m, 0, d);
                    assert(j < base);
                    assert(q[i] == was.col_ind[i] && q[j] == was.col_ind[j]);
                } else {
                    assert(r[c as int] == was.row_ptr@[c as int]);
                    assert(r[c as int] == base);
                    assert(q[base + (i - base)] == column(*m, c as int, row[i - base]));
                    assert(q[base + (j - base)] == column(*m, c as int, row[j - base]));
                }
            }
            assert forall|d: int, s: ColSource|
                0 <= d < c + 1 && #[trigger] belongs(*m, d, s) implies holds(
                r,
                q,
                self.slot(d, s),
                d,
                column(*m, d, s),
            ) by {
                if d < c {
                    assert(holds(
                        was.row_ptr@,
                        was.col_ind@,
                        was.slot(d, s),
                        d,
                        column(*m, d, s),
                    ));
                    assert(self.slot(d, s) == was.slot(d, s));
                    assert(r[d] == was.row_ptr@[d]);
                    assert(r[d + 1] == was.row_ptr@[d + 1]);
                    lemma_totals_grow(*m, d + 1, c as int);
                    lemma_totals_grow(*m, 0, d);
                    assert(q[self.slot(d, s) as int] == was.col_ind[self.slot(d, s) as int]);
                } else {
                    assert(row@.contains(s));
                    let i = choose|i: int| 0 <= i < row.len() && row[i] == s;
                    assert(self.slot(c as int, row[i]) == base + i);
                    assert(r[c as int] == was.row_ptr@[c as int]);
                    assert(q[base + i] == column(*m, c as int, row[i]));
                }
            }
            assert forall|b: int|
                0 <= b < m.n_boundary_faces && (coupled_cell(*m, b) is None || m.b_face_cells[b]
                    >= c + 1) implies #[trigger] self.coupled_slot[b] == -1 by {
                assert(!belongs(*m, c as int, ColSource::Coupled(b as usize)));
                assert(self.coupled_slot[b] == was.coupled_slot[b]);
            }
        }
    }

    /// The pattern of the matrices on a mesh.
    ///
    /// A row holds the diagonal, an entry for every internal face of the cell, and
    /// one for every coupled boundary face, with its columns in ascending order.
    /// Two entries with one column are refused: a matrix of this form has room for
    /// one of them only.
    pub fn build(m: &HostMesh) -> (r: Result<CsrPattern, Error>)
        requires
            m.addressed(),
            m.mapped(),
            m.n_cells + 2 * m.n_internal_faces + m.n_boundary_faces <= i32::MAX,
        ensures
            match r {
                Ok(p) => {
                    &&& p.lays_out(*m)
                    &&& p.ascends(*m)
                    &&& p.places(*m)
                    &&& forall|c: int, v: Label|
                        0 <= c < m.n_cells ==> !#[trigger] clashes(*m, c, v)
                },
                Err(e) => exists|c: int, v: Label| #[trigger]
                    first_clash(*m, c, v) && e@ == Failure::Mesh(clash_text(c as nat, v as nat)),
            },
    {
        broadcast use vstd::seq_lib::group_to_multiset_ensures;

        let n: usize = m.n_cells;
        let mut row_ptr: Vec<Label> = Vec::new();
        row_ptr.push(0);
        let mut p = CsrPattern {
            n_rows: n,
            nnz: 0,
            row_ptr,
            col_ind: Vec::new(),
            diag_slot: filled(0, n),
            upper_slot: filled(0, m.n_internal_faces),
            lower_slot: filled(0, m.n_internal_faces),
            coupled_slot: filled(-1, m.n_boundary_faces),
            n_coupled: 0,
        };
        let mut c: usize = 0;
        while c < n
            invariant
                c <= n == m.n_cells,
                m.addressed(),
                m.mapped(),
                m.n_cells + 2 * m.n_internal_faces + m.n_boundary_faces <= i32::MAX,
                p.so_far(*m, c as int),
                p.n_rows == n,
                forall|d: int, v: Label| 0 <= d < c ==> !#[trigger] clashes(*m, d, v),
            decreases n - c,
        {
            let list = gather(m, c);
            proof {
                rows_hold_what_belongs(*m, c as int);
            }
            let coupled: usize = count_coupled(m, c, &list);
            let row = sort_row(m, c, &list);
            match find_clash(m, c, &row) {
                Some(v) => {
                    assert(first_clash(*m, c as int, v));
                    return Err(Error::Mesh(clash_message(c, v as usize)));
                },
                None => {},
            }
            proof {
                let all = sources(*m, c as int);
                all.lemma_multiset_has_no_duplicates();
                row@.lemma_multiset_has_no_duplicates_conv();
                assert forall|s: ColSource| #[trigger] belongs(
                    *m,
                    c as int,
                    s,
                ) implies row@.contains(s) by {
                    assert(all.contains(s));
                    assert(all.to_multiset().count(s) > 0) by {
                        all.to_multiset_ensures();
                    }
                    row@.to_multiset_ensures();
                }
            }
            p.push_row(m, c, &row, coupled);
            c = c + 1;
        }
        proof {
            lemma_entry_bound(*m, n as int);
        }
        p.nnz = p.col_ind.len();
        proof {
            lemma_placed(p, *m);
        }
        Ok(p)
    }
}

proof fn lemma_totals_grow(m: HostMesh, a: int, b: int)
    requires
        0 <= a <= b,
    ensures
        0 <= entry_total(m, a) <= entry_total(m, b),
    decreases b,
{
    if a < b {
        lemma_totals_grow(m, a, b - 1);
    } else if a > 0 {
        lemma_totals_grow(m, a - 1, b - 1);
    }
}

proof fn lemma_placed(p: CsrPattern, m: HostMesh)
    requires
        m.addressed(),
        p.so_far(m, m.n_cells as int),
    ensures
        p.places(m),
{
    let r = p.row_ptr@;
    let k = p.col_ind@;
    let keys = sides(m.owner@, m.neighbour@);
    assert forall|c: int| 0 <= c < m.n_cells implies holds(
        r,
        k,
        #[trigger] p.diag_slot[c],
        c,
        c as Label,
    ) by {
        assert(belongs(m, c, ColSource::Diagonal));
    }
    assert forall|f: int| 0 <= f < m.n_internal_faces implies holds(
        r,
        k,
        #[trigger] p.upper_slot[f],
        m.owner[f] as int,
        m.neighbour[f],
    ) by {
        let j = (2 * f) as usize;
        assert(keys[2 * f] == m.owner[f] as usize);
        assert(0 <= m.owner[f] < m.n_cells);
        assert(belongs(m, m.owner[f] as int, ColSource::Side(j)));
    }
    assert forall|f: int| 0 <= f < m.n_internal_faces implies holds(
        r,
        k,
        #[trigger] p.lower_slot[f],
        m.neighbour[f] as int,
        m.owner[f],
    ) by {
        let j = (2 * f + 1) as usize;
        assert(keys[2 * f + 1] == m.neighbour[f] as usize);
        assert(0 <= m.neighbour[f] < m.n_cells);
        assert(belongs(m, m.neighbour[f] as int, ColSource::Side(j)));
    }
    assert forall|b: int| 0 <= b < m.n_boundary_faces implies match coupled_cell(m, b) {
        Some(v) => holds(r, k, #[trigger] p.coupled_slot[b], m.b_face_cells[b] as int, v),
        None => p.coupled_slot[b] == -1,
    } by {
        assert(0 <= m.b_face_cells[b] < m.n_cells);
        if coupled_cell(m, b) is Some {
            assert(belongs(m, m.b_face_cells[b] as int, ColSource::Coupled(b as usize)));
        }
    }
}

proof fn lemma_entry_sum(m: HostMesh, c: int)
    requires
        0 <= c <= m.n_cells,
    ensures
        entry_total(m, c) == c + flat(m.rows_of_sides(), c).len() + coupled_total(m, c),
    decreases c,
{
    if c > 0 {
        lemma_entry_sum(m, c - 1);
    }
}

/// A matrix has an entry for every cell, two for every internal face, and one for
/// every coupled boundary face.
pub proof fn entries_are_counted(m: HostMesh)
    requires
        m.addressed(),
    ensures
        entry_total(m, m.n_cells as int) == m.n_cells + 2 * m.n_internal_faces + coupled_total(
            m,
            m.n_cells as int,
        ),
{
    let n = m.n_cells as nat;
    let sk = sides(m.owner@, m.neighbour@);
    lemma_entry_sum(m, n as int);
    assert forall|i: int| 0 <= i < sk.len() implies sk[i] < n by {
        assert(0 <= m.owner[i / 2] < n);
        assert(0 <= m.neighbour[i / 2] < n);
    }
    crate::mesh::lemma_buckets_total(sk, n, sk.len() as int);
    assert(Seq::new(n, |k: int| bucket(sk, k, sk.len() as int)) =~= m.rows_of_sides());
}

/// Without a coupled boundary face, no entry is coupled.
pub proof fn plain_meshes_couple_nothing(m: HostMesh, c: int)
    requires
        0 <= c <= m.n_cells,
        forall|b: int| #[trigger] coupled_cell(m, b) is None,
    ensures
        coupled_total(m, c) == 0,
    decreases c,
{
    if c > 0 {
        plain_meshes_couple_nothing(m, c - 1);
        let bs = m.rows_of_boundary()[c - 1];
        lemma_none_coupled(m, bs, bs.len() as int);
    }
}

proof fn lemma_none_coupled(m: HostMesh, s: Seq<usize>, n: int)
    requires
        0 <= n,
        forall|b: int| #[trigger] coupled_cell(m, b) is None,
    ensures
        coupled_among(m, s, n).len() == 0,
    decreases n,
{
    if n > 0 {
        lemma_none_coupled(m, s, n - 1);
        assert(coupled_cell(m, s[n - 1] as int) is None);
    }
}

proof fn lemma_in_order(p: CsrPattern, m: HostMesh, c: int, i: int, j: int)
    requires
        p.ascends(m),
        0 <= c < m.n_cells,
        p.row_ptr[c] <= i < p.row_ptr[c + 1],
        p.row_ptr[c] <= j < p.row_ptr[c + 1],
        p.col_ind[i] < p.col_ind[j],
    ensures
        i < j,
{
    if j < i {
        assert(p.row_ptr[c] <= j < i < p.row_ptr[c + 1]);
        assert(p.col_ind[j] < p.col_ind[i]);
    }
}

/// The upper entry of a face lies in the row of the face's owner, behind the diagonal, and
/// the lower one in the row of its neighbour, in front of the diagonal: each says what the
/// other cell adds.
pub proof fn upper_entries_lie_above_the_diagonal(p: CsrPattern, m: HostMesh, f: int)
    requires
        m.addressed(),
        p.ascends(m),
        p.places(m),
        0 <= f < m.n_internal_faces,
        m.owner@[f] < m.neighbour@[f],
    ensures
        ({
            let own = m.owner@[f] as int;
            let nbr = m.neighbour@[f] as int;
            let u = p.upper_slot@[f] as int;
            let l = p.lower_slot@[f] as int;
            &&& p.row_ptr@[own] <= p.diag_slot@[own] < u < p.row_ptr@[own + 1]
            &&& p.col_ind@[p.diag_slot@[own] as int] == own
            &&& p.col_ind@[u] == nbr
            &&& p.row_ptr@[nbr] <= l < p.diag_slot@[nbr] < p.row_ptr@[nbr + 1]
            &&& p.col_ind@[p.diag_slot@[nbr] as int] == nbr
            &&& p.col_ind@[l] == own
        }),
{
    let own = m.owner[f] as int;
    let nbr = m.neighbour[f] as int;
    let u = p.upper_slot[f];
    let l = p.lower_slot[f];
    let d = p.diag_slot[own];
    let e = p.diag_slot[nbr];
    assert(holds(p.row_ptr@, p.col_ind@, u, own, m.neighbour[f]));
    assert(holds(p.row_ptr@, p.col_ind@, l, nbr, m.owner[f]));
    assert(holds(p.row_ptr@, p.col_ind@, d, own, own as Label));
    assert(holds(p.row_ptr@, p.col_ind@, e, nbr, nbr as Label));
    lemma_in_order(p, m, own, d as int, u as int);
    lemma_in_order(p, m, nbr, l as int, e as int);
}

/// The slot of a coupled face lies in the row of the face's cell, at the column of the cell
/// that it is coupled to; a face that is coupled to nothing has none.
pub proof fn coupled_entries_join_two_cells(p: CsrPattern, m: HostMesh, b: int)
    requires
        m.addressed(),
        p.places(m),
        0 <= b < m.n_boundary_faces,
        m.b_nbr_cell.len() == m.n_boundary_faces,
    ensures
        ({
            let c = m.b_face_cells@[b] as int;
            let v = m.b_nbr_cell@[b];
            let k = p.coupled_slot@[b];
            &&& 0 <= v < m.n_cells ==> p.row_ptr@[c] <= k < p.row_ptr@[c + 1]
                && p.col_ind@[k as int] == v
            &&& !(0 <= v < m.n_cells) ==> k == -1
        }),
{
    let k = p.coupled_slot[b];
    assert(coupled_cell(m, b) is Some == (0 <= m.b_nbr_cell[b] < m.n_cells));
}

} // verus!
