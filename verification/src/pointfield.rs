//! Which cells share a point, and which points a cell has: what values are carried
//! along between cells and points.

use vstd::prelude::*;

use crate::error::{Error, Failure};
use crate::list::{first, flat, lemma_empty_rows, lemma_one_row, rows};
use crate::mesh::{filled, is_table, join_rows, repeated, HostMesh, Label};
use crate::polymesh::{PolyMeshRaw, RawMesh};
use crate::scalar::Scalar;
use crate::text::{copy, decimal, push_decimal, push_signed, push_text, signed_decimal};

verus! {

/// A cell stands on one side of a face.
pub open spec fn beside(m: RawMesh, f: int, c: int) -> bool {
    m.owner[f] == c || (f < m.neighbour.len() && m.neighbour[f] == c)
}

/// A cell has a face that lists a point.
pub open spec fn touches(m: RawMesh, p: int, c: int) -> bool {
    exists|f: int|
        0 <= f < m.faces.len() && (#[trigger] m.faces[f]).contains(p as Label) && beside(m, f, c)
}

/// The pairs of a point and a cell that has it: what the tables hold.
pub open spec fn pairs(m: RawMesh, n: int) -> Set<(int, int)> {
    Set::new(|q: (int, int)| 0 <= q.0 < m.points.len() && 0 <= q.1 < n && touches(m, q.0, q.1))
}

/// Values in ascending order, each once.
pub open spec fn ascending(s: Seq<usize>) -> bool {
    forall|i: int, j: int| 0 <= i < j < s.len() ==> s[i] < s[j]
}

/// The cells that share each point, in ascending order.
pub open spec fn point_rows(m: RawMesh, r: Seq<Seq<usize>>) -> bool {
    &&& r.len() == m.points.len()
    &&& forall|p: int| 0 <= p < r.len() ==> ascending(#[trigger] r[p])
    &&& forall|p: int, c: usize|
        0 <= p < r.len() ==> ((#[trigger] r[p]).contains(c) <==> #[trigger] touches(m, p, c as int))
}

/// The points of each cell, in ascending order.
pub open spec fn cell_rows(m: RawMesh, n: int, r: Seq<Seq<usize>>) -> bool {
    &&& r.len() == n
    &&& forall|c: int| 0 <= c < r.len() ==> ascending(#[trigger] r[c])
    &&& forall|c: int, p: usize|
        0 <= c < r.len() ==> ((#[trigger] r[c]).contains(p) <==> p < m.points.len()
            && #[trigger] touches(m, p as int, c))
}

pub open spec fn as_labels(s: Seq<usize>) -> Seq<Label> {
    s.map_values(|v: usize| v as Label)
}

/// Points and the cells that share them, with the weight of each cell at a point.
#[derive(Debug, Clone)]
pub struct PointInterpolator {
    pub n_points: usize,
    pub n_cells: usize,
    /// Where the cells of each point start.
    pub offset: Vec<Label>,
    pub cell: Vec<Label>,
    /// One for every entry of `cell`.
    pub weight: Vec<Scalar>,
    /// Where the points of each cell start.
    pub cell_offset: Vec<Label>,
    pub cell_point: Vec<Label>,
}

impl PointInterpolator {
    /// The two tables are those of a mesh.
    pub open spec fn lists(&self, m: RawMesh, n: int) -> bool {
        &&& self.n_points == m.points.len()
        &&& self.n_cells == n
        &&& exists|r: Seq<Seq<usize>>| #[trigger]
            point_rows(m, r) && is_table(self.offset@, flat(r, r.len() as int), r) && self.cell@
                == as_labels(flat(r, r.len() as int))
        &&& exists|r: Seq<Seq<usize>>| #[trigger]
            cell_rows(m, n, r) && is_table(self.cell_offset@, flat(r, r.len() as int), r)
                && self.cell_point@ == as_labels(flat(r, r.len() as int))
    }
}

pub open spec fn point_count_text(got: nat, want: nat) -> Seq<char> {
    "has "@
        + decimal(got)
        + " value(s), mesh has "@
        + decimal(want)
        + " point(s)"@
}

pub(crate) fn point_count_message(got: usize, want: usize) -> (r: String)
    ensures
        r@ == point_count_text(got as nat, want as nat),
{
    let mut s = copy("has ");
    push_decimal(&mut s, got as u64);
    push_text(&mut s, " value(s), mesh has ");
    push_decimal(&mut s, want as u64);
    push_text(&mut s, " point(s)");
    s
}

pub open spec fn cell_count_text(got: nat, want: nat) -> Seq<char> {
    "has "@
        + decimal(got)
        + " value(s), mesh has "@
        + decimal(want)
        + " cell(s)"@
}

pub(crate) fn cell_count_message(got: usize, want: usize) -> (r: String)
    ensures
        r@ == cell_count_text(got as nat, want as nat),
{
    let mut s = copy("has ");
    push_decimal(&mut s, got as u64);
    push_text(&mut s, " value(s), mesh has ");
    push_decimal(&mut s, want as u64);
    push_text(&mut s, " cell(s)");
    s
}

pub open spec fn foreign_cell_text(c: int, n: nat) -> Seq<char> {
    "has cell "@
        + signed_decimal(c)
        + " value(s), mesh has "@
        + decimal(n)
        + " cell(s)"@
}

pub(crate) fn foreign_cell_message(c: i64, n: usize) -> (r: String)
    ensures
        r@ == foreign_cell_text(c as int, n as nat),
{
    let mut s = copy("has cell ");
    push_signed(&mut s, c);
    push_text(&mut s, " value(s), mesh has ");
    push_decimal(&mut s, n as u64);
    push_text(&mut s, " cell(s)");
    s
}

pub open spec fn foreign_point_text(p: int, n: nat) -> Seq<char> {
    "has point "@
        + signed_decimal(p)
        + " value(s), mesh has "@
        + decimal(n)
        + " point(s)"@
}

pub(crate) fn foreign_point_message(p: i64, n: usize) -> (r: String)
    ensures
        r@ == foreign_point_text(p as int, n as nat),
{
    let mut s = copy("has point ");
    push_signed(&mut s, p);
    push_text(&mut s, " value(s), mesh has ");
    push_decimal(&mut s, n as u64);
    push_text(&mut s, " point(s)");
    s
}

/// A cell that a mesh does not have.
pub open spec fn cell_fault(what: Seq<char>, c: Label, n: int) -> Option<Failure> {
    if c < 0 || c >= n {
        Some(Failure::Field { field: what, msg: foreign_cell_text(c as int, n as nat) })
    } else {
        None
    }
}

/// A vertex that is no point.
pub open spec fn foreign_in(face: Seq<Label>, n: int) -> spec_fn(int) -> bool {
    |i: int| face[i] < 0 || face[i] >= n
}

/// What is wrong with face `f`: its owner, its vertices, its neighbour.
pub open spec fn face_fault(m: RawMesh, n: int, f: int) -> Option<Failure> {
    let points = m.points.len() as int;
    let i = first(m.faces[f].len() as int, 0, foreign_in(m.faces[f], points));
    match cell_fault("owner"@, m.owner[f], n) {
        Some(x) => Some(x),
        None => if i < m.faces[f].len() {
            Some(
                Failure::Field {
                    field: "faces"@,
                    msg: foreign_point_text(m.faces[f][i] as int, points as nat),
                },
            )
        } else if f < m.neighbour.len() {
            cell_fault("neighbour"@, m.neighbour[f], n)
        } else {
            None
        },
    }
}

/// The first thing wrong from face `f` on.
pub open spec fn face_faults(m: RawMesh, n: int, f: int) -> Option<Failure>
    decreases m.faces.len() - f,
{
    if f < 0 || f >= m.faces.len() {
        None
    } else {
        match face_fault(m, n, f) {
            Some(x) => Some(x),
            None => face_faults(m, n, f + 1),
        }
    }
}

/// Why points and cells cannot be related, if they cannot.
pub open spec fn relate_fault(m: RawMesh, points: int, n: int) -> Option<Failure> {
    if m.points.len() != points {
        Some(
            Failure::Field {
                field: "points"@,
                msg: point_count_text(m.points.len(), points as nat),
            },
        )
    } else {
        face_faults(m, n, 0)
    }
}

/// Every label of the mesh is within it.
pub open spec fn labelled(m: RawMesh, n: int) -> bool {
    &&& forall|f: int| 0 <= f < m.faces.len() ==> 0 <= #[trigger] m.owner[f] < n
    &&& forall|f: int|
        0 <= f < m.faces.len() && f < m.neighbour.len() ==> 0 <= #[trigger] m.neighbour[f] < n
    &&& forall|f: int, i: int|
        0 <= f < m.faces.len() && 0 <= i < m.faces[f].len() ==> 0 <= #[trigger] m.faces[f][i]
            < m.points.len()
}

/// The labels of a face that has nothing wrong.
proof fn lemma_face_labels(m: RawMesh, n: int, f: int)
    requires
        0 <= f < m.faces.len(),
        face_fault(m, n, f) is None,
    ensures
        0 <= m.owner[f] < n,
        f < m.neighbour.len() ==> 0 <= m.neighbour[f] < n,
        forall|i: int|
            0 <= i < m.faces[f].len() ==> 0 <= #[trigger] m.faces[f][i] < m.points.len(),
{
    let bad = foreign_in(m.faces[f], m.points.len() as int);
    crate::list::lemma_first(m.faces[f].len() as int, 0, bad);
    assert forall|i: int| 0 <= i < m.faces[f].len() implies 0 <= #[trigger] m.faces[f][i]
        < m.points.len() by {
        assert(!bad(i));
    }
}

fn first_foreign(face: &Vec<Label>, n: usize) -> (r: usize)
    ensures
        r == first(face.len() as int, 0, foreign_in(face@, n as int)),
        r <= face.len(),
{
    let mut i: usize = 0;
    while i < face.len()
        invariant
            i <= face.len(),
            first(face.len() as int, 0, foreign_in(face@, n as int)) == first(
                face.len() as int,
                i as int,
                foreign_in(face@, n as int),
            ),
        decreases face.len() - i,
    {
        if face[i] < 0 || face[i] as usize >= n {
            return i;
        }
        i = i + 1;
    }
    i
}

fn check_cell(what: &str, c: Label, n: usize) -> (r: Result<(), Error>)
    ensures
        match (r, cell_fault(what@, c, n as int)) {
            (Ok(_), None) => true,
            (Err(e), Some(f)) => e@ == f,
            _ => false,
        },
{
    if c < 0 || c as usize >= n {
        return Err(Error::Field { field: copy(what), msg: foreign_cell_message(c as i64, n) });
    }
    Ok(())
}

fn check_faces(raw: &PolyMeshRaw, n: usize) -> (r: Result<(), Error>)
    requires
        raw.faces.len() <= raw.owner.len(),
    ensures
        match (r, face_faults(raw@, n as int, 0)) {
            (Ok(_), None) => labelled(raw@, n as int),
            (Err(e), Some(f)) => e@ == f,
            _ => false,
        },
{
    let ghost m = raw@;
    let points: usize = raw.points.len();
    let mut f: usize = 0;
    while f < raw.faces.len()
        invariant
            f <= raw.faces.len() <= raw.owner.len(),
            m == raw@,
            points == m.points.len(),
            face_faults(m, n as int, 0) == face_faults(m, n as int, f as int),
            forall|g: int| 0 <= g < f ==> 0 <= #[trigger] m.owner[g] < n,
            forall|g: int|
                0 <= g < f && g < m.neighbour.len() ==> 0 <= #[trigger] m.neighbour[g] < n,
            forall|g: int, i: int|
                0 <= g < f && 0 <= i < m.faces[g].len() ==> 0 <= #[trigger] m.faces[g][i]
                    < m.points.len(),
        decreases raw.faces.len() - f,
    {
        assert(m.faces[f as int] == raw.faces[f as int]@);
        match check_cell("owner", raw.owner[f], n) {
            Ok(_) => {},
            Err(e) => {
                return Err(e);
            },
        }
        let i: usize = first_foreign(&raw.faces[f], points);
        if i < raw.faces[f].len() {
            return Err(
                Error::Field {
                    field: copy("faces"),
                    msg: foreign_point_message(raw.faces[f][i] as i64, points),
                },
            );
        }
        if f < raw.neighbour.len() {
            match check_cell("neighbour", raw.neighbour[f], n) {
                Ok(_) => {},
                Err(e) => {
                    return Err(e);
                },
            }
        }
        proof {
            lemma_face_labels(m, n as int, f as int);
        }
        f = f + 1;
    }
    Ok(())
}

/// Put a value into an ascending list, unless it is there.
fn insert_value(s: &mut Vec<usize>, v: usize)
    requires
        ascending(old(s)@),
    ensures
        ascending(final(s)@),
        forall|x: usize| final(s)@.contains(x) <==> old(s)@.contains(x) || x == v,
        final(s).len() <= old(s).len() + 1,
{
    let mut at: usize = s.len();
    while at > 0 && s[at - 1] > v
        invariant
            at <= s.len(),
            s@ == old(s)@,
            ascending(s@),
            forall|k: int| at <= k < s.len() ==> #[trigger] s[k] > v,
        decreases at,
    {
        at = at - 1;
    }
    if at > 0 && s[at - 1] == v {
        assert(s@.contains(v));
        return;
    }
    let ghost before = s@;
    s.insert(at, v);
    proof {
        let after = s@;
        assert(after =~= before.insert(at as int, v));
        assert forall|i: int, j: int| 0 <= i < j < after.len() implies after[i] < after[j] by {
            if i < at && j > at && at > 0 {
                assert(before[i] < before[j - 1]);
            } else if j == at && i < at - 1 {
                assert(before[i] < before[at - 1]);
            }
        }
        assert forall|x: usize| after.contains(x) <==> before.contains(x) || x == v by {
            if before.contains(x) {
                let i = choose|i: int| 0 <= i < before.len() && before[i] == x;
                if i < at {
                    assert(after[i] == x);
                } else {
                    assert(after[i + 1] == x);
                }
            }
            if x == v {
                assert(after[at as int] == x);
            }
            if after.contains(x) {
                let i = choose|i: int| 0 <= i < after.len() && after[i] == x;
                if i < at {
                    assert(before[i] == x);
                } else if i > at {
                    assert(before[i - 1] == x);
                }
            }
        }
    }
}

/// A cell has one of the first `n` faces, and the face lists a point.
spec fn touched(m: RawMesh, n: int, p: int, c: int) -> bool {
    exists|f: int|
        0 <= f < n && (#[trigger] m.faces[f]).contains(p as Label) && beside(m, f, c)
}

/// The points of face `f` among its first `i` vertices, or those of an earlier face.
spec fn reached(m: RawMesh, f: int, i: int, both: bool, p: int, c: int) -> bool {
    touched(m, f, p, c) || (m.faces[f].take(i).contains(p as Label) && (m.owner[f] == c || (both
        && m.neighbour[f] == c)))
}

/// The pairs of the first `k` rows, and of the first `i` entries of the next.
spec fn pairs_before(r: Seq<Seq<usize>>, k: int, i: int) -> Set<(int, int)> {
    Set::new(
        |q: (int, int)|
            (0 <= q.0 < k && 0 <= q.1 <= usize::MAX && r[q.0].contains(q.1 as usize)) || (q.0 == k
                && 0 <= q.1 <= usize::MAX && r[k].take(i).contains(q.1 as usize)),
    )
}

/// Rows in ascending order have as many pairs as entries.
proof fn lemma_pairs_before(r: Seq<Seq<usize>>, k: int, i: int)
    requires
        0 <= k < r.len(),
        0 <= i <= r[k].len(),
        forall|p: int| 0 <= p < r.len() ==> ascending(#[trigger] r[p]),
    ensures
        pairs_before(r, k, i).finite(),
        pairs_before(r, k, i).len() == flat(r, k).len() + i,
    decreases k, i,
{
    let s = pairs_before(r, k, i);
    if i > 0 {
        lemma_pairs_before(r, k, i - 1);
        let less = r[k].take(i - 1);
        let more = r[k].take(i);
        let x = (k, r[k][i - 1] as int);
        assert(more =~= less.push(r[k][i - 1]));
        assert(!less.contains(r[k][i - 1]));
        assert forall|v: usize| more.contains(v) <==> less.contains(v) || v == r[k][i - 1] by {
            assert(more[i - 1] == r[k][i - 1]);
            if less.contains(v) {
                let j = choose|j: int| 0 <= j < less.len() && less[j] == v;
                assert(more[j] == v);
            }
            if more.contains(v) {
                let j = choose|j: int| 0 <= j < more.len() && more[j] == v;
                if j < i - 1 {
                    assert(less[j] == v);
                }
            }
        }
        assert(s =~= pairs_before(r, k, i - 1).insert(x));
    } else if k > 0 {
        lemma_pairs_before(r, k - 1, r[k - 1].len() as int);
        assert(r[k - 1].take(r[k - 1].len() as int) =~= r[k - 1]);
        assert(s =~= pairs_before(r, k - 1, r[k - 1].len() as int));
    } else {
        assert(s =~= Set::empty());
    }
}

/// The rows of the points hold every pair once.
proof fn lemma_pairs_in_rows(m: RawMesh, n: int, r: Seq<Seq<usize>>)
    requires
        point_rows(m, r),
        0 <= n <= usize::MAX,
        forall|p: int, i: int| 0 <= p < r.len() && 0 <= i < r[p].len() ==> #[trigger] r[p][i] < n,
    ensures
        flat(r, r.len() as int).len() == pairs(m, n).len(),
{
    let k = r.len() - 1;
    if k >= 0 {
        lemma_pairs_before(r, k, r[k].len() as int);
        assert(r[k].take(r[k].len() as int) =~= r[k]);
        let s = pairs_before(r, k, r[k].len() as int);
        assert forall|q: (int, int)| s.contains(q) <==> pairs(m, n).contains(q) by {
            if 0 <= q.0 < r.len() && 0 <= q.1 <= usize::MAX {
                let c = q.1 as usize;
                assert(r[q.0].contains(c) <==> touches(m, q.0, c as int));
                if r[q.0].contains(c) {
                    let i = choose|i: int| 0 <= i < r[q.0].len() && r[q.0][i] == c;
                    assert(r[q.0][i] < n);
                }
            }
        }
        assert(s =~= pairs(m, n));
    } else {
        assert(pairs(m, n) =~= Set::empty());
    }
}

/// The points that a face lists, with a cell.
spec fn listed(face: Seq<Label>, c: Label) -> Seq<(int, int)> {
    face.map_values(|v: Label| (v as int, c as int))
}

/// The points that the first `k` faces list, with the cells on their sides.
spec fn incidences(m: RawMesh, k: int) -> Seq<(int, int)>
    decreases k,
{
    if k <= 0 {
        Seq::empty()
    } else {
        incidences(m, k - 1) + listed(m.faces[k - 1], m.owner[k - 1]) + (if k <= m.neighbour.len() {
            listed(m.faces[k - 1], m.neighbour[k - 1])
        } else {
            Seq::empty()
        })
    }
}

proof fn lemma_incidences(m: RawMesh, k: int)
    requires
        0 <= k <= m.faces.len(),
        m.points.len() <= i32::MAX,
    ensures
        incidences(m, k).len() == flat(m.faces, k).len() + flat(
            m.faces,
            if k < m.neighbour.len() { k } else { m.neighbour.len() as int },
        ).len(),
        forall|p: int, c: int|
            0 <= p < m.points.len() && #[trigger] touched(m, k, p, c) ==> incidences(m, k).contains(
                (p, c),
            ),
    decreases k,
{
    if k > 0 {
        lemma_incidences(m, k - 1);
        let before = incidences(m, k - 1);
        let own = listed(m.faces[k - 1], m.owner[k - 1]);
        let all = incidences(m, k);
        assert forall|p: int, c: int| 0 <= p < m.points.len() && #[trigger] touched(
            m,
            k,
            p,
            c,
        ) implies all.contains((p, c)) by {
            lemma_touched_step(m, k - 1, p, c);
            if touched(m, k - 1, p, c) {
                assert(before.contains((p, c)));
                let i = choose|i: int| 0 <= i < before.len() && before[i] == (p, c);
                assert(all[i] == (p, c));
            } else {
                let face = m.faces[k - 1];
                let i = choose|i: int| 0 <= i < face.len() && face[i] == p as Label;
                if m.owner[k - 1] == c {
                    assert(own[i] == (p, c));
                    assert(all[before.len() + i] == (p, c));
                } else {
                    assert(all[before.len() + own.len() + i] == (p, c));
                }
            }
        }
    }
}

/// There are no more pairs of a point and a cell than the faces list points, an internal
/// face once for each of its sides.
pub proof fn pairs_are_listed_by_the_faces(m: RawMesh, n: int)
    requires
        m.points.len() <= i32::MAX,
        m.neighbour.len() <= m.faces.len(),
    ensures
        pairs(m, n).finite(),
        pairs(m, n).len() <= flat(m.faces, m.faces.len() as int).len() + flat(
            m.faces,
            m.neighbour.len() as int,
        ).len(),
{
    let k = m.faces.len() as int;
    let all = incidences(m, k);
    lemma_incidences(m, k);
    assert forall|q: (int, int)| pairs(m, n).contains(q) implies all.to_set().contains(q) by {
        assert(touched(m, k, q.0, q.1));
    }
    vstd::seq_lib::seq_to_set_is_finite(all);
    all.lemma_cardinality_of_set();
    vstd::set_lib::lemma_len_subset(pairs(m, n), all.to_set());
}

/// The cells that share each point.
fn point_cells(raw: &PolyMeshRaw, n: usize) -> (r: Vec<Vec<usize>>)
    requires
        labelled(raw@, n as int),
        raw.faces.len() <= raw.owner.len(),
        raw.points.len() <= i32::MAX,
    ensures
        r.len() == raw.points.len(),
        point_rows(raw@, rows(r@)),
        forall|p: int, i: int|
            0 <= p < r.len() && 0 <= i < r[p].len() ==> #[trigger] r[p]@[i] < n,
{
    let ghost m = raw@;
    let points: usize = raw.points.len();
    let n_if: usize = raw.neighbour.len();
    let mut out: Vec<Vec<usize>> = Vec::new();
    let mut k: usize = 0;
    while k < points
        invariant
            k <= points,
            out.len() == k,
            forall|p: int| 0 <= p < k ==> (#[trigger] out[p])@ == Seq::<usize>::empty(),
        decreases points - k,
    {
        out.push(Vec::new());
        k = k + 1;
    }
    let mut f: usize = 0;
    while f < raw.faces.len()
        invariant
            f <= raw.faces.len() <= raw.owner.len(),
            m == raw@,
            labelled(m, n as int),
            n_if == m.neighbour.len(),
            out.len() == points == m.points.len(),
            points <= i32::MAX,
            forall|p: int| 0 <= p < points ==> ascending((#[trigger] out[p])@),
            forall|p: int, c: usize|
                0 <= p < points ==> ((#[trigger] out[p])@.contains(c) <==> #[trigger] touched(
                    m,
                    f as int,
                    p,
                    c as int,
                )),
        decreases raw.faces.len() - f,
    {
        let face = &raw.faces[f];
        assert(m.faces[f as int] == face@);
        assert(0 <= m.owner[f as int] < n);
        let own: usize = raw.owner[f] as usize;
        let both: bool = f < n_if;
        let nbr: usize = if both {
            assert(0 <= m.neighbour[f as int] < n);
            raw.neighbour[f] as usize
        } else {
            own
        };
        let mut i: usize = 0;
        while i < face.len()
            invariant
                f < raw.faces.len(),
                i <= face.len(),
                m == raw@,
                m.faces[f as int] == face@,
                labelled(m, n as int),
                both == (f < m.neighbour.len()),
                own == m.owner[f as int],
                both ==> nbr == m.neighbour[f as int],
                !both ==> nbr == own,
                out.len() == points == m.points.len(),
                points <= i32::MAX,
                forall|p: int| 0 <= p < points ==> ascending((#[trigger] out[p])@),
                forall|p: int, c: usize|
                    0 <= p < points ==> ((#[trigger] out[p])@.contains(c) <==> #[trigger] reached(
                        m,
                        f as int,
                        i as int,
                        both,
                        p,
                        c as int,
                    )),
            decreases face.len() - i,
        {
            assert(0 <= m.faces[f as int][i as int] < m.points.len());
            let v: usize = face[i] as usize;
            let ghost before = out@;
            insert_value(&mut out[v], own);
            insert_value(&mut out[v], nbr);
            proof {
                let less = face@.take(i as int);
                let more = face@.take(i + 1);
                assert(more =~= less.push(face@[i as int]));
                assert forall|p: int, c: usize| 0 <= p < points implies ((
                #[trigger] out[p])@.contains(c) <==> #[trigger] reached(
                    m,
                    f as int,
                    i + 1,
                    both,
                    p,
                    c as int,
                )) by {
                    assert(before[p]@.contains(c) <==> reached(
                        m,
                        f as int,
                        i as int,
                        both,
                        p,
                        c as int,
                    ));
                    assert(more.contains(p as Label) <==> less.contains(p as Label) || p == v) by {
                        if less.contains(p as Label) {
                            let k = choose|k: int| 0 <= k < less.len() && less[k] == p as Label;
                            assert(more[k] == p as Label);
                        }
                        if p == v {
                            assert(more[i as int] == p as Label);
                        }
                        if more.contains(p as Label) {
                            let k = choose|k: int| 0 <= k < more.len() && more[k] == p as Label;
                            if k < i {
                                assert(less[k] == p as Label);
                            }
                        }
                    }
                }
            }
            i = i + 1;
        }
        proof {
            assert(face@.take(i as int) =~= face@);
            assert forall|p: int, c: usize| 0 <= p < points implies ((#[trigger] out[p])@.contains(c)
                <==> #[trigger] touched(m, f + 1, p, c as int)) by {
                assert(out[p]@.contains(c) <==> reached(
                    m,
                    f as int,
                    face.len() as int,
                    both,
                    p,
                    c as int,
                ));
                lemma_touched_step(m, f as int, p, c as int);
            }
        }
        f = f + 1;
    }
    proof {
        let r = rows(out@);
        assert forall|p: int| 0 <= p < r.len() implies ascending(#[trigger] r[p]) by {
            assert(r[p] == out[p]@);
        }
        assert forall|p: int, c: usize| 0 <= p < r.len() implies ((#[trigger] r[p]).contains(c)
            <==> #[trigger] touches(m, p, c as int)) by {
            assert(r[p] == out[p]@);
            assert(out[p]@.contains(c) <==> touched(m, m.faces.len() as int, p, c as int));
        }
        assert forall|p: int, i: int| 0 <= p < out.len() && 0 <= i < out[p].len() implies
            #[trigger] out[p]@[i] < n by {
            let c = out[p]@[i];
            assert(out[p]@.contains(c));
            assert(touched(m, m.faces.len() as int, p, c as int));
            let f = choose|f: int|
                0 <= f < m.faces.len() && (#[trigger] m.faces[f]).contains(p as Label) && beside(
                    m,
                    f,
                    c as int,
                );
            assert(0 <= m.owner[f] < n);
            if f < m.neighbour.len() {
                assert(0 <= m.neighbour[f] < n);
            }
        }
    }
    out
}

proof fn lemma_touched_step(m: RawMesh, f: int, p: int, c: int)
    requires
        0 <= f < m.faces.len(),
    ensures
        touched(m, f + 1, p, c) <==> (touched(m, f, p, c) || (m.faces[f].contains(p as Label)
            && beside(m, f, c))),
{
    if touched(m, f, p, c) {
        let g = choose|g: int|
            0 <= g < f && (#[trigger] m.faces[g]).contains(p as Label) && beside(m, g, c);
        assert(m.faces[g].contains(p as Label));
    }
    if m.faces[f].contains(p as Label) && beside(m, f, c) {
        assert(touched(m, f + 1, p, c));
    }
    if touched(m, f + 1, p, c) {
        let g = choose|g: int|
            0 <= g < f + 1 && (#[trigger] m.faces[g]).contains(p as Label) && beside(m, g, c);
        if g < f {
            assert(m.faces[g].contains(p as Label));
        }
    }
}

/// The points of each cell, from the cells of each point.
fn cell_points(pc: &Vec<Vec<usize>>, n: usize, Ghost(m): Ghost<RawMesh>) -> (r: Vec<Vec<usize>>)
    requires
        point_rows(m, rows(pc@)),
        forall|p: int, i: int|
            0 <= p < pc.len() && 0 <= i < pc[p].len() ==> #[trigger] pc[p]@[i] < n,
    ensures
        r.len() == n,
        cell_rows(m, n as int, rows(r@)),
        flat(rows(r@), r.len() as int).len() == flat(rows(pc@), pc.len() as int).len(),
{
    let mut out: Vec<Vec<usize>> = Vec::new();
    let mut k: usize = 0;
    while k < n
        invariant
            k <= n,
            out.len() == k,
            forall|c: int| 0 <= c < k ==> (#[trigger] out[c])@ == Seq::<usize>::empty(),
        decreases n - k,
    {
        out.push(Vec::new());
        k = k + 1;
    }
    let mut p: usize = 0;
    proof {
        lemma_empty_rows(rows(out@), n as int);
    }
    assert forall|q: int| 0 <= q < pc.len() implies ascending((#[trigger] pc[q])@) by {
        assert(rows(pc@)[q] == pc[q]@);
    }
    while p < pc.len()
        invariant
            p <= pc.len(),
            out.len() == n,
            flat(rows(out@), n as int).len() == flat(rows(pc@), p as int).len(),
            forall|p: int, i: int|
                0 <= p < pc.len() && 0 <= i < pc[p].len() ==> #[trigger] pc[p]@[i] < n,
            forall|q: int| 0 <= q < pc.len() ==> ascending((#[trigger] pc[q])@),
            forall|c: int| 0 <= c < n ==> ascending((#[trigger] out[c])@),
            forall|c: int, i: int|
                0 <= c < n && 0 <= i < out[c].len() ==> #[trigger] out[c]@[i] < p,
            forall|c: int, q: usize|
                #![trigger out[c]@.contains(q)]
                0 <= c < n ==> (out[c]@.contains(q) <==> q < p && pc[q as int]@.contains(
                    c as usize,
                )),
            point_rows(m, rows(pc@)),
        decreases pc.len() - p,
    {
        let row = &pc[p];
        let ghost start = out@;
        let mut i: usize = 0;
        assert(rows(pc@)[p as int] == row@);
        while i < row.len()
            invariant
                p < pc.len(),
                i <= row.len(),
                row@ == pc[p as int]@,
                ascending(row@),
                out.len() == n,
                start.len() == n,
                flat(rows(out@), n as int).len() == flat(rows(pc@), p as int).len() + i,
                forall|p: int, i: int|
                    0 <= p < pc.len() && 0 <= i < pc[p].len() ==> #[trigger] pc[p]@[i] < n,
                forall|c: int|
                    0 <= c < n ==> (#[trigger] out[c])@ == (if row@.take(i as int).contains(
                        c as usize,
                    ) {
                        start[c]@.push(p)
                    } else {
                        start[c]@
                    }),
            decreases row.len() - i,
        {
            let c: usize = row[i];
            assert(pc[p as int]@[i as int] < n);
            let ghost before = out@;
            proof {
                let less = row@.take(i as int);
                if less.contains(c) {
                    let k = choose|k: int| 0 <= k < less.len() && less[k] == c;
                    assert(row@[k] < row@[i as int]);
                }
            }
            out[c].push(p);
            proof {
                assert forall|k: int| #![trigger rows(out@)[k]] 0 <= k < n && k
                    != c implies rows(out@)[k].len() == rows(before)[k].len() by {
                    assert(out[k] == before[k]);
                }
                lemma_one_row(rows(before), rows(out@), c as int, n as int);
                let less = row@.take(i as int);
                let more = row@.take(i + 1);
                assert(more =~= less.push(c));
                assert forall|d: int| 0 <= d < n implies (#[trigger] out[d])@ == (
                if more.contains(d as usize) {
                    start[d]@.push(p)
                } else {
                    start[d]@
                }) by {
                    if d == c {
                        assert(more[i as int] == c);
                    } else {
                        assert(out[d] == before[d]);
                        if less.contains(d as usize) {
                            let k = choose|k: int| 0 <= k < less.len() && less[k] == d as usize;
                            assert(more[k] == d as usize);
                        }
                        if more.contains(d as usize) {
                            let k = choose|k: int| 0 <= k < more.len() && more[k] == d as usize;
                            assert(less[k] == d as usize);
                        }
                    }
                }
            }
            i = i + 1;
        }
        proof {
            assert(row@.take(i as int) =~= row@);
            assert forall|c: int| 0 <= c < n implies ascending((#[trigger] out[c])@) by {
                let s = start[c]@;
                let e = out[c]@;
                assert forall|a: int, b: int| 0 <= a < b < e.len() implies e[a] < e[b] by {
                    if b == s.len() {
                        assert(start[c]@[a] < p);
                    }
                }
            }
            assert forall|c: int, i: int| 0 <= c < n && 0 <= i < out[c].len() implies
                #[trigger] out[c]@[i] < p + 1 by {
                if i < start[c]@.len() {
                    assert(start[c]@[i] < p);
                }
            }
            assert forall|c: int, q: usize|
                #![trigger out[c]@.contains(q)]
                0 <= c < n implies (out[c]@.contains(q) <==> q < p + 1 && pc[q as int]@.contains(
                c as usize,
            )) by {
                let s = start[c]@;
                let e = out[c]@;
                assert(s.contains(q) <==> q < p && pc[q as int]@.contains(c as usize));
                if s.contains(q) {
                    let k = choose|k: int| 0 <= k < s.len() && s[k] == q;
                    assert(e[k] == q);
                }
                if q == p && row@.contains(c as usize) {
                    assert(e[s.len() as int] == q);
                }
                if e.contains(q) {
                    let k = choose|k: int| 0 <= k < e.len() && e[k] == q;
                    if k < s.len() {
                        assert(s[k] == q);
                    }
                }
            }
        }
        p = p + 1;
    }
    proof {
        let r = rows(out@);
        assert forall|c: int| 0 <= c < r.len() implies ascending(#[trigger] r[c]) by {
            assert(r[c] == out[c]@);
        }
        assert forall|c: int, q: usize| 0 <= c < r.len() implies ((#[trigger] r[c]).contains(q)
            <==> q < m.points.len() && #[trigger] touches(m, q as int, c)) by {
            assert(r[c] == out[c]@);
            assert(out[c]@.contains(q) <==> q < pc.len() && pc[q as int]@.contains(c as usize));
            if q < pc.len() {
                assert(rows(pc@)[q as int] == pc[q as int]@);
                assert(rows(pc@)[q as int].contains(c as usize) <==> touches(
                    m,
                    q as int,
                    c as usize as int,
                ));
            }
        }
    }
    out
}

/// The labels of a table's entries.
fn to_labels(v: &Vec<usize>) -> (r: Vec<Label>)
    ensures
        r@ == as_labels(v@),
{
    let mut out: Vec<Label> = Vec::new();
    let mut i: usize = 0;
    while i < v.len()
        invariant
            i <= v.len(),
            out@ == as_labels(v@.take(i as int)),
        decreases v.len() - i,
    {
        out.push(v[i] as Label);
        i = i + 1;
        assert(out@ =~= as_labels(v@.take(i as int)));
    }
    assert(v@.take(i as int) =~= v@);
    out
}

impl PointInterpolator {
    /// Relate the points and the cells of a mesh. The weights have room, and are
    /// not filled in: they depend on the geometry.
    pub fn new(raw: &PolyMeshRaw, m: &HostMesh) -> (r: Result<PointInterpolator, Error>)
        requires
            raw.faces.len() <= raw.owner.len(),
            raw.points.len() <= i32::MAX,
            relate_fault(raw@, m.n_points as int, m.n_cells as int) is None ==> pairs(
                raw@,
                m.n_cells as int,
            ).len() <= i32::MAX,
        ensures
            match (r, relate_fault(raw@, m.n_points as int, m.n_cells as int)) {
                (Ok(p), None) => p.lists(raw@, m.n_cells as int) && p.weight@ == repeated(
                    Scalar { bits: 0 },
                    p.cell.len() as int,
                ),
                (Err(e), Some(f)) => e@ == f,
                _ => false,
            },
    {
        if raw.points.len() != m.n_points {
            return Err(
                Error::Field {
                    field: copy("points"),
                    msg: point_count_message(raw.points.len(), m.n_points),
                },
            );
        }
        let n: usize = m.n_cells;
        match check_faces(raw, n) {
            Ok(_) => {},
            Err(e) => {
                return Err(e);
            },
        }
        let pc = point_cells(raw, n);
        let cp = cell_points(&pc, n, Ghost(raw@));
        proof {
            lemma_pairs_in_rows(raw@, n as int, rows(pc@));
        }
        let (offset, items) = join_rows(&pc);
        let (cell_offset, citems) = join_rows(&cp);
        let cell = to_labels(&items);
        let cell_point = to_labels(&citems);
        let weight = filled(Scalar { bits: 0 }, cell.len());
        Ok(
            PointInterpolator {
                n_points: raw.points.len(),
                n_cells: n,
                offset,
                cell,
                weight,
                cell_offset,
                cell_point,
            },
        )
    }
}

impl PointInterpolator {
    /// A field on the cells has a value for every cell.
    pub fn check_cell_len(&self, got: usize) -> (r: Result<(), Error>)
        ensures
            match r {
                Ok(_) => got == self.n_cells,
                Err(e) => got != self.n_cells && e@ == (Failure::Field {
                    field: "cell"@,
                    msg: cell_count_text(got as nat, self.n_cells as nat),
                }),
            },
    {
        if got != self.n_cells {
            return Err(
                Error::Field { field: copy("cell"), msg: cell_count_message(got, self.n_cells) },
            );
        }
        Ok(())
    }

    /// A field on the points has a value for every point.
    pub fn check_point_len(&self, got: usize) -> (r: Result<(), Error>)
        ensures
            match r {
                Ok(_) => got == self.n_points,
                Err(e) => got != self.n_points && e@ == (Failure::Field {
                    field: "point"@,
                    msg: point_count_text(got as nat, self.n_points as nat),
                }),
            },
    {
        if got != self.n_points {
            return Err(
                Error::Field {
                    field: copy("point"),
                    msg: point_count_message(got, self.n_points),
                },
            );
        }
        Ok(())
    }
}

/// A cell is among the cells of a point exactly where the point is among the
/// points of the cell.
pub proof fn the_tables_are_inverse(
    m: RawMesh,
    n: int,
    r: Seq<Seq<usize>>,
    s: Seq<Seq<usize>>,
    p: usize,
    c: usize,
)
    requires
        point_rows(m, r),
        cell_rows(m, n, s),
        p < m.points.len(),
        c < n,
    ensures
        r[p as int].contains(c) <==> s[c as int].contains(p),
{
    assert(r[p as int].contains(c) <==> touches(m, p as int, c as int));
    assert(s[c as int].contains(p) <==> p < m.points.len() && touches(m, p as int, c as int));
}

/// A boundary face lists a point.
pub open spec fn on_boundary(m: RawMesh, p: int) -> bool {
    exists|f: int|
        m.neighbour.len() <= f < m.faces.len() && (#[trigger] m.faces[f]).contains(p as Label)
}

spec fn on_boundary_before(m: RawMesh, n: int, p: int) -> bool {
    exists|f: int| m.neighbour.len() <= f < n && (#[trigger] m.faces[f]).contains(p as Label)
}

/// Which points some boundary face lists.
pub fn boundary_points(raw: &PolyMeshRaw) -> (r: Vec<bool>)
    requires
        raw.neighbour.len() <= raw.faces.len(),
        raw.points.len() <= i32::MAX,
        forall|f: int, i: int|
            raw.neighbour.len() <= f < raw.faces.len() && 0 <= i < raw.faces[f].len() ==> 0
                <= #[trigger] raw.faces[f]@[i] < raw.points.len(),
    ensures
        r@ == Seq::new(raw.points@.len(), |p: int| on_boundary(raw@, p)),
{
    let ghost m = raw@;
    let points: usize = raw.points.len();
    let mut out: Vec<bool> = filled(false, points);
    let mut f: usize = raw.neighbour.len();
    while f < raw.faces.len()
        invariant
            raw.neighbour.len() <= f <= raw.faces.len(),
            m == raw@,
            out.len() == points == m.points.len(),
            points <= i32::MAX,
            forall|f: int, i: int|
                raw.neighbour.len() <= f < raw.faces.len() && 0 <= i < raw.faces[f].len() ==> 0
                    <= #[trigger] raw.faces[f]@[i] < raw.points.len(),
            forall|p: int|
                0 <= p < points ==> #[trigger] out[p] == on_boundary_before(m, f as int, p),
        decreases raw.faces.len() - f,
    {
        let face = &raw.faces[f];
        assert(m.faces[f as int] == face@);
        let ghost start = out@;
        let mut i: usize = 0;
        while i < face.len()
            invariant
                raw.neighbour.len() <= f < raw.faces.len(),
                i <= face.len(),
                face@ == raw.faces[f as int]@,
                out.len() == points == raw.points.len(),
                start.len() == points,
                points <= i32::MAX,
                forall|f: int, i: int|
                    raw.neighbour.len() <= f < raw.faces.len() && 0 <= i < raw.faces[f].len()
                        ==> 0 <= #[trigger] raw.faces[f]@[i] < raw.points.len(),
                forall|p: int|
                    0 <= p < points ==> #[trigger] out[p] == (start[p] || face@.take(
                        i as int,
                    ).contains(p as Label)),
            decreases face.len() - i,
        {
            assert(0 <= raw.faces[f as int]@[i as int] < raw.points.len());
            let v: usize = face[i] as usize;
            let ghost before = out@;
            out.set(v, true);
            proof {
                let less = face@.take(i as int);
                let more = face@.take(i + 1);
                assert forall|p: int| 0 <= p < points implies #[trigger] out[p] == (start[p]
                    || more.contains(p as Label)) by {
                    if less.contains(p as Label) {
                        let k = choose|k: int| 0 <= k < less.len() && less[k] == p as Label;
                        assert(more[k] == p as Label);
                    }
                    if p == v {
                        assert(more[i as int] == p as Label);
                    } else {
                        assert(out[p] == before[p]);
                        if more.contains(p as Label) {
                            let k = choose|k: int| 0 <= k < more.len() && more[k] == p as Label;
                            assert(less[k] == p as Label);
                        }
                    }
                }
            }
            i = i + 1;
        }
        proof {
            assert(face@.take(i as int) =~= face@);
            assert forall|p: int| 0 <= p < points implies #[trigger] out[p] == on_boundary_before(
                m,
                f + 1,
                p,
            ) by {
                if on_boundary_before(m, f + 1, p) {
                    let g = choose|g: int|
                        m.neighbour.len() <= g < f + 1 && (#[trigger] m.faces[g]).contains(
                            p as Label,
                        );
                    if g < f {
                        assert(on_boundary_before(m, f as int, p));
                    }
                }
                if on_boundary_before(m, f as int, p) {
                    let g = choose|g: int|
                        m.neighbour.len() <= g < f && (#[trigger] m.faces[g]).contains(p as Label);
                    assert(m.faces[g].contains(p as Label));
                }
                if m.faces[f as int].contains(p as Label) {
                    assert(on_boundary_before(m, f + 1, p));
                }
            }
        }
        f = f + 1;
    }
    assert(out@ =~= Seq::new(raw.points@.len(), |p: int| on_boundary(m, p)));
    out
}

} // verus!
