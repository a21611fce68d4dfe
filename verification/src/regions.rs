//! Several meshes in one layout: how one mesh is split by zones, and the manifest
//! that names the meshes and the patches where they meet.

use vstd::prelude::*;

use crate::error::{Error, Failure};
use crate::list::{all_buckets, bucket, bucket_is_complete, buckets, first, flat, rows};
use crate::mesh::{
    copy_list, filled, patches_of, repeated, Label, Patch, PatchInfo, PatchKind, Vec3,
};
use crate::polymesh::{cell_count, faces_of, lemma_beyond, PolyMeshRaw, RawMesh};
use crate::text::{copy, decimal, push_decimal, push_signed, push_text, same, signed_decimal};
use crate::tokenizer::{fresh, Tok, Token, Tokenizer};

verus! {

// --------------------------------------------------------------------------
//  Names
// --------------------------------------------------------------------------
/// A name that reads back as one word.
pub open spec fn is_one_word(name: Seq<char>) -> bool {
    fresh(name, Seq::empty()).toks == seq![Token::Word(name)]
}

pub open spec fn bad_name_text(what: Seq<char>, name: Seq<char>) -> Seq<char> {
    what
        + " name '"@
        + name
        + "' cannot be written as one word"@
}

pub(crate) fn bad_name_message(what: &str, name: &str) -> (r: String)
    ensures
        r@ == bad_name_text(what@, name@),
{
    let mut s = copy(what);
    push_text(&mut s, " name '");
    push_text(&mut s, name);
    push_text(&mut s, "' cannot be written as one word");
    s
}

/// A name has to be one word, for a boundary file to hold it.
pub open spec fn name_fault(name: Seq<char>, what: Seq<char>) -> Option<Failure> {
    if is_one_word(name) {
        None
    } else {
        Some(Failure::Mesh(bad_name_text(what, name)))
    }
}

/// Refuse a name that a boundary file cannot hold.
pub fn check_patch_name(name: &str, what: &str) -> (r: Result<(), Error>)
    requires
        name@.len() < usize::MAX,
    ensures
        match (r, name_fault(name@, what@)) {
            (Ok(_), None) => true,
            (Err(e), Some(f)) => e@ == f,
            _ => false,
        },
{
    proof {
        reveal_strlit("");
        assert(""@ =~= Seq::<char>::empty());
    }
    let ts = Tokenizer::new(name, "");
    let ghost toks = fresh(name@, Seq::empty()).toks;
    let one: bool = match ts.peek_at(0) {
        Some(Tok::Word(w)) => same(w, name),
        _ => false,
    };
    let more: bool = ts.peek_at(1).is_some();
    if one && !more {
        assert(toks =~= seq![Token::Word(name@)]);
        Ok(())
    } else {
        Err(Error::Mesh(bad_name_message(what, name)))
    }
}

// --------------------------------------------------------------------------
//  Faces
// --------------------------------------------------------------------------
/// A face seen from its other side: the first vertex stays, the others turn
/// round.
pub open spec fn reversed(f: Seq<Label>) -> Seq<Label> {
    Seq::new(
        f.len(),
        |i: int| if i == 0 {
            f[0]
        } else {
            f[f.len() - i]
        },
    )
}

/// Reverse a face's loop, keeping the first vertex.
pub fn reverse_face(f: &[Label]) -> (r: Vec<Label>)
    requires
        f.len() > 0,
    ensures
        r@ == reversed(f@),
{
    let mut out: Vec<Label> = Vec::new();
    out.push(f[0]);
    let mut i: usize = 1;
    while i < f.len()
        invariant
            1 <= i <= f.len(),
            out@ == reversed(f@).take(i as int),
        decreases f.len() - i,
    {
        out.push(f[f.len() - i]);
        i = i + 1;
        assert(out@ =~= reversed(f@).take(i as int));
    }
    assert(out@ =~= reversed(f@));
    out
}

/// Reversing a face twice gives the face back.
pub proof fn reversing_twice_is_nothing(f: Seq<Label>)
    ensures
        reversed(reversed(f)) == f,
        reversed(f).len() == f.len(),
        f.len() > 0 ==> reversed(f)[0] == f[0],
{
    assert(reversed(reversed(f)) =~= f);
}

// --------------------------------------------------------------------------
//  Zones
// --------------------------------------------------------------------------
/// A name and the cells it stands for.
pub struct Zone {
    pub name: Seq<char>,
    pub cells: Seq<Label>,
}

pub open spec fn zones_of(v: Seq<(String, Vec<Label>)>) -> Seq<Zone> {
    v.map_values(|z: (String, Vec<Label>)| Zone { name: z.0@, cells: z.1@ })
}

pub open spec fn empty_zone_text(name: Seq<char>) -> Seq<char> {
    "split_by_zones: zone '"@
        + name
        + "' is empty - a zone with no cells is not a region"@
}

pub(crate) fn empty_zone_message(name: &str) -> (r: String)
    ensures
        r@ == empty_zone_text(name@),
{
    let mut s = copy("split_by_zones: zone '");
    push_text(&mut s, name);
    push_text(&mut s, "' is empty - a zone with no cells is not a region");
    s
}

pub open spec fn no_such_cell_text(name: Seq<char>, cell: int, cells: nat) -> Seq<char> {
    "split_by_zones: zone '"@
        + name
        + "' labels cell "@
        + signed_decimal(cell)
        + ", but the mesh has "@
        + decimal(cells)
        + " cells"@
}

pub(crate) fn no_such_cell_message(name: &str, cell: i64, cells: usize) -> (r: String)
    ensures
        r@ == no_such_cell_text(name@, cell as int, cells as nat),
{
    let mut s = copy("split_by_zones: zone '");
    push_text(&mut s, name);
    push_text(&mut s, "' labels cell ");
    push_signed(&mut s, cell);
    push_text(&mut s, ", but the mesh has ");
    push_decimal(&mut s, cells as u64);
    push_text(&mut s, " cells");
    s
}

pub open spec fn two_zones_text(cell: nat, a: Seq<char>, b: Seq<char>) -> Seq<char> {
    "split_by_zones: cell "@
        + decimal(cell)
        + " is in two zones, '"@
        + a
        + "' and '"@
        + b
        + "'"@
}

pub(crate) fn two_zones_message(cell: usize, a: &str, b: &str) -> (r: String)
    ensures
        r@ == two_zones_text(cell as nat, a@, b@),
{
    let mut s = copy("split_by_zones: cell ");
    push_decimal(&mut s, cell as u64);
    push_text(&mut s, " is in two zones, '");
    push_text(&mut s, a);
    push_text(&mut s, "' and '");
    push_text(&mut s, b);
    push_text(&mut s, "'");
    s
}

pub open spec fn no_zone_text(n: nat, cell: nat) -> Seq<char> {
    "split_by_zones: "@
        + decimal(n)
        + " cells are in no zone, starting with cell "@
        + decimal(cell)
        + " - `ofgpu-regions split` needs a cellZones entry for every cell"@
}

pub(crate) fn no_zone_message(n: usize, cell: usize) -> (r: String)
    ensures
        r@ == no_zone_text(n as nat, cell as nat),
{
    let mut s = copy("split_by_zones: ");
    push_decimal(&mut s, n as u64);
    push_text(&mut s, " cells are in no zone, starting with cell ");
    push_decimal(&mut s, cell as u64);
    push_text(&mut s, " - `ofgpu-regions split` needs a cellZones entry for every cell");
    s
}

pub open spec fn cyclic_parent_text(name: Seq<char>) -> Seq<char> {
    "split_by_zones: the parent mesh carries cyclic patch '"@
        + name
        + "'. A cyclic pair is declared once and matched then (rule 31.1: nearest transformed centroid, a bijection, |Sf| equal with Sf opposed), and its faces couple by position within the patch (mesh::geometry::cyclic_pairing); a split renumbers and re-partitions them, so neither survives it - split before the cyclic is declared"@
}

pub(crate) fn cyclic_parent_message(name: &str) -> (r: String)
    ensures
        r@ == cyclic_parent_text(name@),
{
    let mut s = copy("split_by_zones: the parent mesh carries cyclic patch '");
    push_text(&mut s, name);
    push_text(&mut s, "'. A cyclic pair is declared once and matched then (rule 31.1: nearest transformed centroid, a bijection, |Sf| equal with Sf opposed), and its faces couple by position within the patch (mesh::geometry::cyclic_pairing); a split renumbers and re-partitions them, so neither survives it - split before the cyclic is declared");
    s
}

/// The first fault in the names of the zones from `z` on, or in their being empty.
pub open spec fn zone_faults(zones: Seq<Zone>, z: int) -> Option<Failure>
    decreases zones.len() - z,
{
    if z < 0 || z >= zones.len() {
        None
    } else {
        match name_fault(zones[z].name, "cellZone"@) {
            Some(f) => Some(f),
            None => if zones[z].cells.len() == 0 {
                Some(Failure::Mesh(empty_zone_text(zones[z].name)))
            } else {
                zone_faults(zones, z + 1)
            },
        }
    }
}

/// The zone of every cell, from cell `i` of zone `z` on: `t` is what came before,
/// with the number of zones for a cell that has none.
pub open spec fn assigned(zones: Seq<Zone>, z: int, i: int, t: Seq<usize>) -> Result<
    Seq<usize>,
    Seq<char>,
>
    decreases zones.len() - z, zones[z].cells.len() - i,
{
    if z < 0 || z >= zones.len() {
        Ok(t)
    } else if i < 0 || i >= zones[z].cells.len() {
        assigned(zones, z + 1, 0, t)
    } else {
        let c = zones[z].cells[i];
        if c < 0 || c >= t.len() {
            Err(no_such_cell_text(zones[z].name, c as int, t.len()))
        } else if t[c as int] != zones.len() {
            Err(two_zones_text(c as nat, zones[t[c as int] as int].name, zones[z].name))
        } else {
            assigned(zones, z, i + 1, t.update(c as int, z as usize))
        }
    }
}

/// The zone of every cell of a mesh.
pub open spec fn zone_table(zones: Seq<Zone>, cells: nat) -> Result<Seq<usize>, Seq<char>> {
    assigned(zones, 0, 0, repeated(zones.len() as usize, cells as int))
}

/// A cyclic patch.
pub open spec fn cyclic_in(p: Seq<Patch>) -> spec_fn(int) -> bool {
    |i: int| p[i].kind == PatchKind::Cyclic
}

/// Why a mesh cannot be split, if it cannot.
pub open spec fn split_fault(m: RawMesh, zones: Seq<Zone>) -> Option<Failure> {
    match zone_faults(zones, 0) {
        Some(f) => Some(f),
        None => match zone_table(zones, cell_count(m) as nat) {
            Err(t) => Some(Failure::Mesh(t)),
            Ok(t) => {
                let lost = bucket(t, zones.len() as int, t.len() as int);
                let c = first(m.patches.len() as int, 0, cyclic_in(m.patches));
                if lost.len() > 0 {
                    Some(Failure::Mesh(no_zone_text(lost.len(), lost[0] as nat)))
                } else if c < m.patches.len() {
                    Some(Failure::Mesh(cyclic_parent_text(m.patches[c].name)))
                } else {
                    None
                }
            },
        },
    }
}

// --------------------------------------------------------------------------
//  One region
// --------------------------------------------------------------------------
/// The number of a cell within its zone.
pub open spec fn rank_of(t: Seq<usize>, c: int) -> int {
    bucket(t, t[c] as int, c).len() as int
}

/// The zone of an internal face, or the number of zones where its two cells are in
/// different ones.
pub open spec fn inner_keys(m: RawMesh, t: Seq<usize>, n: usize) -> Seq<usize> {
    Seq::new(
        m.neighbour.len(),
        |f: int|
            if t[m.owner[f] as int] == t[m.neighbour[f] as int] {
                t[m.owner[f] as int]
            } else {
                n
            },
    )
}

/// The number of a pair of zones.
pub open spec fn pair_number(a: int, b: int, n: int) -> int {
    if a < b {
        a * n + b
    } else {
        b * n + a
    }
}

/// The pair of zones on the two sides of an internal face, as a number.
pub open spec fn link_keys(m: RawMesh, t: Seq<usize>, n: usize) -> Seq<usize> {
    Seq::new(
        m.neighbour.len(),
        |f: int|
            pair_number(
                t[m.owner[f] as int] as int,
                t[m.neighbour[f] as int] as int,
                n as int,
            ) as usize,
    )
}

/// The zones of the faces of a patch.
pub open spec fn patch_keys(m: RawMesh, t: Seq<usize>, p: Patch) -> Seq<usize> {
    Seq::new(p.size as nat, |k: int| t[m.owner[m.neighbour.len() + p.start + k] as int])
}

/// Where an internal face is to stand: by its owner, then by its neighbour.
pub open spec fn sort_key(m: RawMesh, t: Seq<usize>, f: usize) -> (int, int) {
    (rank_of(t, m.owner[f as int] as int), rank_of(t, m.neighbour[f as int] as int))
}

pub open spec fn later(a: (int, int), b: (int, int)) -> bool {
    a.0 > b.0 || (a.0 == b.0 && a.1 > b.1)
}

/// A face put where it belongs, behind those that it equals.
pub open spec fn placed(m: RawMesh, t: Seq<usize>, s: Seq<usize>, f: usize) -> Seq<usize>
    decreases s.len(),
{
    if s.len() == 0 || !later(sort_key(m, t, s.last()), sort_key(m, t, f)) {
        s.push(f)
    } else {
        placed(m, t, s.drop_last(), f).push(s.last())
    }
}

/// Faces in order of their keys; equals stay as they are.
pub open spec fn in_key_order(m: RawMesh, t: Seq<usize>, s: Seq<usize>) -> Seq<usize>
    decreases s.len(),
{
    if s.len() == 0 {
        s
    } else {
        placed(m, t, in_key_order(m, t, s.drop_last()), s.last())
    }
}

/// The internal faces of a zone, in order.
pub open spec fn inner_faces(m: RawMesh, t: Seq<usize>, n: usize, z: int) -> Seq<usize> {
    in_key_order(m, t, bucket(inner_keys(m, t, n), z, m.neighbour.len() as int))
}

/// The owner's side of each of some faces.
pub open spec fn own_sides(s: Seq<usize>) -> Seq<usize> {
    s.map_values(|f: usize| (2 * f) as usize)
}

/// The faces of a patch that a zone keeps.
pub open spec fn kept_sides(m: RawMesh, t: Seq<usize>, p: Patch, z: int) -> Seq<usize> {
    bucket(patch_keys(m, t, p), z, p.size).map_values(
        |k: usize| (2 * (m.neighbour.len() + p.start + k)) as usize,
    )
}

/// The faces between two zones, each from the side of zone `z`.
pub open spec fn link_sides(m: RawMesh, t: Seq<usize>, n: usize, z: int, other: int) -> Seq<usize> {
    bucket(
        link_keys(m, t, n),
        pair_number(z, other, n as int),
        m.neighbour.len() as int,
    ).map_values(
        |f: usize|
            if t[m.owner[f as int] as int] == z {
                (2 * f) as usize
            } else {
                (2 * f + 1) as usize
            },
    )
}

/// Boundary faces so far, and the patches they make.
pub struct Layout {
    pub sides: Seq<usize>,
    pub patches: Seq<Patch>,
}

/// One patch more, unless it has no face.
pub open spec fn with_patch(
    l: Layout,
    name: Seq<char>,
    patch_type: Seq<char>,
    kind: PatchKind,
    more: Seq<usize>,
) -> Layout {
    if more.len() == 0 {
        l
    } else {
        Layout {
            sides: l.sides + more,
            patches: l.patches.push(
                Patch {
                    name,
                    patch_type,
                    kind,
                    start: l.sides.len() as int,
                    size: more.len() as int,
                    nbr_patch: None,
                },
            ),
        }
    }
}

/// What a zone keeps of the first `k` patches.
pub open spec fn kept(m: RawMesh, t: Seq<usize>, z: int, k: int) -> Layout
    decreases k,
{
    if k <= 0 {
        Layout { sides: Seq::empty(), patches: Seq::empty() }
    } else {
        let p = m.patches[k - 1];
        with_patch(
            kept(m, t, z, k - 1),
            p.name,
            p.patch_type,
            p.kind,
            kept_sides(m, t, p, z),
        )
    }
}

/// The name of the patch where one zone meets another.
pub open spec fn link_name(a: Seq<char>, b: Seq<char>) -> Seq<char> {
    a + "_to_"@ + b
}

/// And the patches where it meets the first `k` zones.
pub open spec fn linked(m: RawMesh, zones: Seq<Zone>, t: Seq<usize>, z: int, k: int) -> Layout
    decreases k,
{
    if k <= 0 {
        kept(m, t, z, m.patches.len() as int)
    } else if k - 1 == z {
        linked(m, zones, t, z, k - 1)
    } else {
        with_patch(
            linked(m, zones, t, z, k - 1),
            link_name(zones[z].name, zones[k - 1].name),
            "patch"@,
            PatchKind::Generic,
            link_sides(m, t, zones.len() as usize, z, k - 1),
        )
    }
}

/// The loop of a face, from one of its sides.
pub open spec fn side_loop(m: RawMesh, j: usize) -> Seq<Label> {
    if j % 2 == 0 {
        m.faces[(j / 2) as int]
    } else {
        reversed(m.faces[(j / 2) as int])
    }
}

/// The cell on a side of a face.
pub open spec fn side_cell(m: RawMesh, j: usize) -> Label {
    if j % 2 == 0 {
        m.owner[(j / 2) as int]
    } else {
        m.neighbour[(j / 2) as int]
    }
}

/// All faces of a region, each from the region's side.
pub open spec fn region_sides(m: RawMesh, zones: Seq<Zone>, t: Seq<usize>, z: int) -> Seq<usize> {
    own_sides(inner_faces(m, t, zones.len() as usize, z)) + linked(
        m,
        zones,
        t,
        z,
        zones.len() as int,
    ).sides
}

/// The values among the first `n`, each once, in the order in which they come.
pub open spec fn distinct(s: Seq<Label>, n: int) -> Seq<Label>
    decreases n,
{
    if n <= 0 {
        Seq::empty()
    } else if distinct(s, n - 1).contains(s[n - 1]) {
        distinct(s, n - 1)
    } else {
        distinct(s, n - 1).push(s[n - 1])
    }
}

/// The loops of some sides.
pub open spec fn loops_of(m: RawMesh, sides: Seq<usize>) -> Seq<Seq<Label>> {
    sides.map_values(|j: usize| side_loop(m, j))
}

/// The points that some loops use, in the order of their first use.
pub open spec fn used_points(loops: Seq<Seq<Label>>) -> Seq<Label> {
    let all = flat(loops, loops.len() as int);
    distinct(all, all.len() as int)
}

/// Labels replaced by where they stand in a list.
pub open spec fn renumbered(loop_: Seq<Label>, d: Seq<Label>) -> Seq<Label> {
    loop_.map_values(|v: Label| d.index_of(v) as Label)
}

/// The mesh of a region.
pub open spec fn region(m: RawMesh, zones: Seq<Zone>, t: Seq<usize>, z: int) -> RawMesh {
    let n = zones.len() as usize;
    let inner = inner_faces(m, t, n, z);
    let sides = region_sides(m, zones, t, z);
    let loops = loops_of(m, sides);
    let d = used_points(loops);
    RawMesh {
        points: d.map_values(|v: Label| m.points[v as int]),
        faces: loops.map_values(|l: Seq<Label>| renumbered(l, d)),
        owner: sides.map_values(|j: usize| rank_of(t, side_cell(m, j) as int) as Label),
        neighbour: inner.map_values(|f: usize| rank_of(t, m.neighbour[f as int] as int) as Label),
        patches: linked(m, zones, t, z, n as int).patches,
    }
}

/// Two regions that meet.
#[derive(Debug, Clone)]
pub struct SplitInterface {
    pub region_a: usize,
    pub patch_a: String,
    pub region_b: usize,
    pub patch_b: String,
    pub n_faces: usize,
}

/// The contents of a [`SplitInterface`].
pub struct Meeting {
    pub region_a: int,
    pub patch_a: Seq<char>,
    pub region_b: int,
    pub patch_b: Seq<char>,
    pub n_faces: int,
}

impl View for SplitInterface {
    type V = Meeting;

    open spec fn view(&self) -> Meeting {
        Meeting {
            region_a: self.region_a as int,
            patch_a: self.patch_a@,
            region_b: self.region_b as int,
            patch_b: self.patch_b@,
            n_faces: self.n_faces as int,
        }
    }
}

pub open spec fn meetings_of(v: Seq<SplitInterface>) -> Seq<Meeting> {
    v.map_values(|s: SplitInterface| s@)
}

/// Where zone `a` meets the zones from `a + 1` up to `b`.
pub open spec fn meetings_with(m: RawMesh, zones: Seq<Zone>, t: Seq<usize>, a: int, b: int) -> Seq<
    Meeting,
>
    decreases b - a,
{
    if b <= a + 1 {
        Seq::empty()
    } else {
        let fs = link_sides(m, t, zones.len() as usize, a, b - 1);
        let before = meetings_with(m, zones, t, a, b - 1);
        if fs.len() == 0 {
            before
        } else {
            before.push(
                Meeting {
                    region_a: a,
                    patch_a: link_name(zones[a].name, zones[b - 1].name),
                    region_b: b - 1,
                    patch_b: link_name(zones[b - 1].name, zones[a].name),
                    n_faces: fs.len() as int,
                },
            )
        }
    }
}

/// Where the first `a` zones meet the others.
pub open spec fn meetings(m: RawMesh, zones: Seq<Zone>, t: Seq<usize>, a: int) -> Seq<Meeting>
    decreases a,
{
    if a <= 0 {
        Seq::empty()
    } else {
        meetings(m, zones, t, a - 1) + meetings_with(m, zones, t, a - 1, zones.len() as int)
    }
}

/// A mesh whose labels and patches stay within it.
pub open spec fn sound(m: RawMesh) -> bool {
    let inner = m.neighbour.len();
    &&& m.owner.len() == m.faces.len()
    &&& inner <= m.faces.len()
    &&& m.faces.len() <= i32::MAX
    &&& m.points.len() <= i32::MAX
    &&& cell_count(m) <= i32::MAX
    &&& forall|f: int| 0 <= f < m.owner.len() ==> 0 <= #[trigger] m.owner[f]
    &&& forall|f: int| 0 <= f < inner ==> 0 <= #[trigger] m.neighbour[f]
    &&& forall|f: int, i: int|
        0 <= f < m.faces.len() && 0 <= i < m.faces[f].len() ==> 0 <= #[trigger] m.faces[f][i]
            < m.points.len()
    &&& forall|k: int|
        0 <= k < m.patches.len() ==> 0 <= (#[trigger] m.patches[k]).start && 0
            <= m.patches[k].size && inner + m.patches[k].start + m.patches[k].size
            <= m.faces.len()
}

/// Every face between two zones has a vertex, so that it can be seen from both sides.
pub open spec fn links_have_vertices(m: RawMesh, t: Seq<usize>) -> bool {
    forall|f: int|
        0 <= f < m.neighbour.len() && t[m.owner[f] as int] != t[m.neighbour[f] as int] ==> (
        #[trigger] m.faces[f]).len() > 0
}

/// Every cell that a sound mesh names is one of its cells.
pub proof fn lemma_cells_in_range(m: RawMesh)
    requires
        sound(m),
    ensures
        0 <= cell_count(m),
        forall|f: int| 0 <= f < m.owner.len() ==> 0 <= #[trigger] m.owner[f] < cell_count(m),
        forall|f: int|
            0 <= f < m.neighbour.len() ==> 0 <= #[trigger] m.neighbour[f] < cell_count(m),
{
    lemma_beyond(m.owner, m.owner.len() as int);
    lemma_beyond(m.neighbour, m.neighbour.len() as int);
}

fn check_zones(zones: &Vec<(String, Vec<Label>)>) -> (r: Result<(), Error>)
    requires
        forall|z: int| 0 <= z < zones.len() ==> (#[trigger] zones[z]).0@.len() < usize::MAX,
    ensures
        match (r, zone_faults(zones_of(zones@), 0)) {
            (Ok(_), None) => true,
            (Err(e), Some(f)) => e@ == f,
            _ => false,
        },
{
    let ghost zv = zones_of(zones@);
    let mut z: usize = 0;
    while z < zones.len()
        invariant
            z <= zones.len(),
            zv == zones_of(zones@),
            forall|z: int| 0 <= z < zones.len() ==> (#[trigger] zones[z]).0@.len() < usize::MAX,
            zone_faults(zv, 0) == zone_faults(zv, z as int),
        decreases zones.len() - z,
    {
        assert(zv[z as int] == (Zone { name: zones[z as int].0@, cells: zones[z as int].1@ }));
        match check_patch_name(&zones[z].0, "cellZone") {
            Ok(_) => {},
            Err(e) => {
                return Err(e);
            },
        }
        if zones[z].1.len() == 0 {
            return Err(Error::Mesh(empty_zone_message(&zones[z].0)));
        }
        z = z + 1;
    }
    Ok(())
}

fn assign(zones: &Vec<(String, Vec<Label>)>, n_cells: usize) -> (r: Result<Vec<usize>, String>)
    ensures
        match (r, zone_table(zones_of(zones@), n_cells as nat)) {
            (Ok(t), Ok(u)) => t@ == u && t.len() == n_cells && forall|c: int|
                0 <= c < t.len() ==> #[trigger] t[c] <= zones.len(),
            (Err(m), Err(n)) => m@ == n,
            _ => false,
        },
{
    let ghost zv = zones_of(zones@);
    let n: usize = zones.len();
    let mut t: Vec<usize> = filled(n, n_cells);
    let ghost whole = zone_table(zv, n_cells as nat);
    let mut z: usize = 0;
    while z < n
        invariant
            z <= n == zones.len(),
            zv == zones_of(zones@),
            t.len() == n_cells,
            whole == zone_table(zv, n_cells as nat),
            whole == assigned(zv, z as int, 0, t@),
            forall|c: int| 0 <= c < t.len() ==> #[trigger] t[c] <= n,
        decreases n - z,
    {
        let cells = &zones[z].1;
        assert(zv[z as int] == (Zone { name: zones[z as int].0@, cells: zones[z as int].1@ }));
        let mut i: usize = 0;
        while i < cells.len()
            invariant
                z < n == zones.len(),
                i <= cells.len(),
                zv == zones_of(zones@),
                cells@ == zones[z as int].1@,
                zv[z as int] == (Zone { name: zones[z as int].0@, cells: cells@ }),
                t.len() == n_cells,
                whole == zone_table(zv, n_cells as nat),
                whole == assigned(zv, z as int, i as int, t@),
                forall|c: int| 0 <= c < t.len() ==> #[trigger] t[c] <= n,
            decreases cells.len() - i,
        {
            let l: Label = cells[i];
            if l < 0 || l as usize >= n_cells {
                return Err(no_such_cell_message(&zones[z].0, l as i64, n_cells));
            }
            let c: usize = l as usize;
            if t[c] != n {
                assert(zv[t[c as int] as int] == (Zone {
                    name: zones[t[c as int] as int].0@,
                    cells: zones[t[c as int] as int].1@,
                }));
                return Err(two_zones_message(c, &zones[t[c]].0, &zones[z].0));
            }
            t.set(c, z);
            i = i + 1;
        }
        z = z + 1;
    }
    Ok(t)
}

/// How many cells have no zone, and the first of them.
fn count_lost(t: &Vec<usize>, n: usize) -> (r: (usize, usize))
    ensures
        r.0 == bucket(t@, n as int, t.len() as int).len(),
        r.0 > 0 ==> r.1 == bucket(t@, n as int, t.len() as int)[0],
        r.0 == 0 ==> forall|c: int| 0 <= c < t.len() ==> #[trigger] t[c] != n,
{
    let mut count: usize = 0;
    let mut at: usize = 0;
    let mut c: usize = 0;
    while c < t.len()
        invariant
            count <= c <= t.len(),
            count == bucket(t@, n as int, c as int).len(),
            count > 0 ==> at == bucket(t@, n as int, c as int)[0],
            count == 0 ==> forall|b: int| 0 <= b < c ==> #[trigger] t[b] != n,
        decreases t.len() - c,
    {
        if t[c] == n {
            if count == 0 {
                at = c;
            }
            count = count + 1;
        }
        c = c + 1;
    }
    (count, at)
}

fn first_cyclic(p: &Vec<PatchInfo>) -> (r: usize)
    ensures
        r == first(p.len() as int, 0, cyclic_in(patches_of(p@))),
        r <= p.len(),
{
    let ghost cy = cyclic_in(patches_of(p@));
    let mut i: usize = 0;
    while i < p.len()
        invariant
            i <= p.len(),
            cy == cyclic_in(patches_of(p@)),
            first(p.len() as int, 0, cy) == first(p.len() as int, i as int, cy),
        decreases p.len() - i,
    {
        assert(patches_of(p@)[i as int] == p[i as int]@);
        if p[i].kind == PatchKind::Cyclic {
            return i;
        }
        i = i + 1;
    }
    i
}

pub(crate) proof fn lemma_bucket_len(keys: Seq<usize>, k: int, i: int)
    requires
        0 <= i,
    ensures
        bucket(keys, k, i).len() <= i,
    decreases i,
{
    if i > 0 {
        lemma_bucket_len(keys, k, i - 1);
    }
}

/// The number of every cell within its zone.
fn ranks(t: &Vec<usize>, n: usize) -> (r: Vec<Label>)
    requires
        t.len() <= i32::MAX,
        forall|c: int| 0 <= c < t.len() ==> #[trigger] t[c] < n,
    ensures
        r.len() == t.len(),
        forall|c: int| 0 <= c < t.len() ==> #[trigger] r[c] == rank_of(t@, c),
{
    let mut count: Vec<Label> = filled(0, n);
    let mut out: Vec<Label> = Vec::new();
    let mut c: usize = 0;
    while c < t.len()
        invariant
            c <= t.len() <= i32::MAX,
            count.len() == n,
            out.len() == c,
            forall|b: int| 0 <= b < t.len() ==> #[trigger] t[b] < n,
            forall|z: int| 0 <= z < n ==> #[trigger] count[z] == bucket(t@, z, c as int).len(),
            forall|b: int| 0 <= b < c ==> #[trigger] out[b] == rank_of(t@, b),
        decreases t.len() - c,
    {
        let z: usize = t[c];
        proof {
            lemma_bucket_len(t@, z as int, c as int);
        }
        let k: Label = count[z];
        out.push(k);
        count.set(z, k + 1);
        c = c + 1;
    }
    out
}

/// What a split works with.
struct Split<'a> {
    raw: &'a PolyMeshRaw,
    zones: &'a Vec<(String, Vec<Label>)>,
    t: Vec<usize>,
    rank: Vec<Label>,
    inner: Vec<Vec<usize>>,
    links: Vec<Vec<usize>>,
    kept: Vec<Vec<Vec<usize>>>,
}

impl<'a> Split<'a> {
    spec fn ready(&self) -> bool {
        let m = self.raw@;
        let n = self.zones.len();
        &&& sound(m)
        &&& links_have_vertices(m, self.t@)
        &&& n * n <= usize::MAX
        &&& n < usize::MAX
        &&& self.t.len() == cell_count(m)
        &&& forall|c: int| 0 <= c < self.t.len() ==> #[trigger] self.t[c] < n
        &&& self.rank.len() == self.t.len()
        &&& forall|c: int|
            0 <= c < self.t.len() ==> #[trigger] self.rank[c] == rank_of(self.t@, c)
    }

    spec fn wf(&self) -> bool {
        let m = self.raw@;
        let n = self.zones.len();
        &&& self.ready()
        &&& self.inner.len() == n + 1
        &&& rows(self.inner@) == all_buckets(inner_keys(m, self.t@, n), (n + 1) as nat)
        &&& self.links.len() == n * n
        &&& rows(self.links@) == all_buckets(link_keys(m, self.t@, n), (n * n) as nat)
        &&& self.kept.len() == self.raw.patches.len()
        &&& forall|k: int|
            0 <= k < self.kept.len() ==> (#[trigger] self.kept[k]).len() == n && rows(
                self.kept[k]@,
            ) == all_buckets(patch_keys(m, self.t@, m.patches[k]), n as nat)
    }

    fn sort_inner(&mut self)
        requires
            old(self).ready(),
        ensures
            *final(self) == (Split { inner: final(self).inner, ..*old(self) }),
            final(self).inner.len() == old(self).zones.len() + 1,
            rows(final(self).inner@) == all_buckets(
                inner_keys(old(self).raw@, old(self).t@, old(self).zones.len()),
                (old(self).zones.len() + 1) as nat,
            ),
    {
        let n: usize = self.zones.len();
        let n_if: usize = self.raw.neighbour.len();
        let ghost want = inner_keys(self.raw@, self.t@, n);
        proof {
            lemma_cells_in_range(self.raw@);
        }
        let mut keys: Vec<usize> = Vec::new();
        let mut f: usize = 0;
        while f < n_if
            invariant
                f <= n_if == self.raw.neighbour.len(),
                self.ready(),
                n == self.zones.len(),
                want == inner_keys(self.raw@, self.t@, n),
                keys@ == want.take(f as int),
                forall|f: int|
                    0 <= f < self.raw@.owner.len() ==> 0 <= #[trigger] self.raw@.owner[f]
                        < cell_count(self.raw@),
                forall|f: int|
                    0 <= f < self.raw@.neighbour.len() ==> 0 <= #[trigger] self.raw@.neighbour[f]
                        < cell_count(self.raw@),
                forall|i: int| 0 <= i < keys.len() ==> keys[i] < n + 1,
            decreases n_if - f,
        {
            assert(0 <= self.raw@.owner[f as int] < cell_count(self.raw@));
            assert(0 <= self.raw@.neighbour[f as int] < cell_count(self.raw@));
            let a: usize = self.t[self.raw.owner[f] as usize];
            let b: usize = self.t[self.raw.neighbour[f] as usize];
            keys.push(
                if a == b {
                    a
                } else {
                    n
                },
            );
            f = f + 1;
            assert(keys@ =~= want.take(f as int));
        }
        assert(keys@ =~= want);
        self.inner = buckets(&keys, n + 1);
    }

    fn sort_links(&mut self)
        requires
            old(self).ready(),
        ensures
            *final(self) == (Split { links: final(self).links, ..*old(self) }),
            final(self).links.len() == old(self).zones.len() * old(self).zones.len(),
            rows(final(self).links@) == all_buckets(
                link_keys(old(self).raw@, old(self).t@, old(self).zones.len()),
                (old(self).zones.len() * old(self).zones.len()) as nat,
            ),
    {
        let n: usize = self.zones.len();
        let n_if: usize = self.raw.neighbour.len();
        let ghost want = link_keys(self.raw@, self.t@, n);
        proof {
            lemma_cells_in_range(self.raw@);
        }
        let mut keys: Vec<usize> = Vec::new();
        let mut f: usize = 0;
        while f < n_if
            invariant
                f <= n_if == self.raw.neighbour.len(),
                self.ready(),
                n == self.zones.len(),
                want == link_keys(self.raw@, self.t@, n),
                keys@ == want.take(f as int),
                forall|f: int|
                    0 <= f < self.raw@.owner.len() ==> 0 <= #[trigger] self.raw@.owner[f]
                        < cell_count(self.raw@),
                forall|f: int|
                    0 <= f < self.raw@.neighbour.len() ==> 0 <= #[trigger] self.raw@.neighbour[f]
                        < cell_count(self.raw@),
                forall|i: int| 0 <= i < keys.len() ==> keys[i] < n * n,
            decreases n_if - f,
        {
            assert(0 <= self.raw@.owner[f as int] < cell_count(self.raw@));
            assert(0 <= self.raw@.neighbour[f as int] < cell_count(self.raw@));
            let a: usize = self.t[self.raw.owner[f] as usize];
            let b: usize = self.t[self.raw.neighbour[f] as usize];
            let k: usize = pair_index(a, b, n);
            keys.push(k);
            f = f + 1;
            assert(keys@ =~= want.take(f as int));
        }
        assert(keys@ =~= want);
        let nn: usize = n * n;
        self.links = buckets(&keys, nn);
    }

    fn sort_kept(&mut self)
        requires
            old(self).ready(),
        ensures
            *final(self) == (Split { kept: final(self).kept, ..*old(self) }),
            final(self).kept.len() == old(self).raw.patches.len(),
            forall|k: int|
                0 <= k < final(self).kept.len() ==> (#[trigger] final(self).kept[k]).len()
                    == old(self).zones.len() && rows(final(self).kept[k]@) == all_buckets(
                    patch_keys(old(self).raw@, old(self).t@, old(self).raw@.patches[k]),
                    old(self).zones.len() as nat,
                ),
    {
        let n: usize = self.zones.len();
        let mut all: Vec<Vec<Vec<usize>>> = Vec::new();
        let mut k: usize = 0;
        while k < self.raw.patches.len()
            invariant
                k <= self.raw.patches.len(),
                n == self.zones.len(),
                self.ready(),
                all.len() == k,
                forall|j: int|
                    0 <= j < k ==> (#[trigger] all[j]).len() == n && rows(all[j]@) == all_buckets(
                        patch_keys(self.raw@, self.t@, self.raw@.patches[j]),
                        n as nat,
                    ),
            decreases self.raw.patches.len() - k,
        {
            let more = self.patch_buckets(k);
            all.push(more);
            k = k + 1;
        }
        self.kept = all;
    }

    fn patch_buckets(&self, k: usize) -> (r: Vec<Vec<usize>>)
        requires
            self.ready(),
            k < self.raw.patches.len(),
        ensures
            r.len() == self.zones.len(),
            rows(r@) == all_buckets(
                patch_keys(self.raw@, self.t@, self.raw@.patches[k as int]),
                self.zones.len() as nat,
            ),
    {
        let n: usize = self.zones.len();
        let ghost m = self.raw@;
        let ghost want = patch_keys(m, self.t@, m.patches[k as int]);
        proof {
            lemma_cells_in_range(m);
            assert(m.patches[k as int] == self.raw.patches[k as int]@);
        }
        let base: usize = self.raw.neighbour.len() + self.raw.patches[k].start;
        let size: usize = self.raw.patches[k].size;
        let mut keys: Vec<usize> = Vec::new();
        let mut i: usize = 0;
        while i < size
            invariant
                i <= size,
                self.ready(),
                m == self.raw@,
                m.patches[k as int].size == size,
                base == m.neighbour.len() + m.patches[k as int].start,
                base + size <= m.faces.len(),
                n == self.zones.len(),
                want == patch_keys(m, self.t@, m.patches[k as int]),
                keys@ == want.take(i as int),
                forall|f: int|
                    0 <= f < m.owner.len() ==> 0 <= #[trigger] m.owner[f] < cell_count(m),
                forall|i: int| 0 <= i < keys.len() ==> keys[i] < n,
            decreases size - i,
        {
            assert(0 <= m.owner[base + i] < cell_count(m));
            keys.push(self.t[self.raw.owner[base + i] as usize]);
            i = i + 1;
            assert(keys@ =~= want.take(i as int));
        }
        assert(keys@ =~= want);
        buckets(&keys, n)
    }
}

/// The number of a pair of zones.
fn pair_index(a: usize, b: usize, n: usize) -> (r: usize)
    requires
        a < n,
        b < n,
        n * n <= usize::MAX,
    ensures
        r == pair_number(a as int, b as int, n as int),
        r < n * n,
{
    proof {
        lemma_pair_number(a as int, b as int, n as int);
    }
    if a < b {
        a * n + b
    } else {
        b * n + a
    }
}

pub(crate) proof fn lemma_pair_number(a: int, b: int, n: int)
    requires
        0 <= a < n,
        0 <= b < n,
    ensures
        0 <= pair_number(a, b, n) < n * n,
        0 <= a * n <= pair_number(a, b, n) || 0 <= b * n <= pair_number(a, b, n),
        a < b ==> 0 <= a * n < n * n,
        a >= b ==> 0 <= b * n < n * n,
{
    assert((a + 1) * n <= n * n) by (nonlinear_arith)
        requires
            0 <= a < n,
    ;
    assert((b + 1) * n <= n * n) by (nonlinear_arith)
        requires
            0 <= b < n,
    ;
    assert((a + 1) * n == a * n + n) by (nonlinear_arith);
    assert((b + 1) * n == b * n + n) by (nonlinear_arith);
    assert(0 <= a * n) by (nonlinear_arith)
        requires
            0 <= a < n,
    ;
    assert(0 <= b * n) by (nonlinear_arith)
        requires
            0 <= b < n,
    ;
}

impl<'a> Split<'a> {
    /// Does face `a` come behind face `b`?
    fn comes_later(&self, a: usize, b: usize) -> (r: bool)
        requires
            self.ready(),
            a < self.raw.neighbour.len(),
            b < self.raw.neighbour.len(),
        ensures
            r == later(sort_key(self.raw@, self.t@, a), sort_key(self.raw@, self.t@, b)),
    {
        proof {
            lemma_cells_in_range(self.raw@);
            assert(0 <= self.raw@.owner[a as int] < cell_count(self.raw@));
            assert(0 <= self.raw@.owner[b as int] < cell_count(self.raw@));
            assert(0 <= self.raw@.neighbour[a as int] < cell_count(self.raw@));
            assert(0 <= self.raw@.neighbour[b as int] < cell_count(self.raw@));
        }
        let ao: Label = self.rank[self.raw.owner[a] as usize];
        let bo: Label = self.rank[self.raw.owner[b] as usize];
        let an: Label = self.rank[self.raw.neighbour[a] as usize];
        let bn: Label = self.rank[self.raw.neighbour[b] as usize];
        ao > bo || (ao == bo && an > bn)
    }

    /// The internal faces of a zone, in order.
    fn ordered(&self, z: usize) -> (r: Vec<usize>)
        requires
            self.wf(),
            z < self.zones.len(),
        ensures
            r@ == inner_faces(self.raw@, self.t@, self.zones.len(), z as int),
            forall|i: int| 0 <= i < r.len() ==> #[trigger] r[i] < self.raw.neighbour.len(),
    {
        let ghost m = self.raw@;
        let ghost n_if = m.neighbour.len() as int;
        let ghost keys = inner_keys(m, self.t@, self.zones.len());
        let list = &self.inner[z];
        proof {
            assert(rows(self.inner@)[z as int] == list@);
            bucket_is_complete(keys, z as int, n_if);
        }
        let mut out: Vec<usize> = Vec::new();
        let mut i: usize = 0;
        assert(list@.take(0) =~= Seq::empty());
        while i < list.len()
            invariant
                i <= list.len(),
                self.ready(),
                m == self.raw@,
                n_if == m.neighbour.len(),
                out@ == in_key_order(m, self.t@, list@.take(i as int)),
                forall|k: int| 0 <= k < list.len() ==> #[trigger] list[k] < n_if,
                forall|k: int| 0 <= k < out.len() ==> #[trigger] out[k] < n_if,
            decreases list.len() - i,
        {
            let f: usize = list[i];
            let ghost before = out@;
            let mut at: usize = out.len();
            assert(before.take(at as int) =~= before);
            assert(before.skip(at as int) =~= Seq::empty());
            assert(placed(m, self.t@, before.take(at as int), f) + before.skip(at as int) =~= placed(
                m,
                self.t@,
                before,
                f,
            ));
            while at > 0 && self.comes_later(out[at - 1], f)
                invariant
                    at <= out.len(),
                    self.ready(),
                    m == self.raw@,
                    n_if == m.neighbour.len(),
                    f < n_if,
                    out@ == before,
                    forall|k: int| 0 <= k < out.len() ==> #[trigger] out[k] < n_if,
                    placed(m, self.t@, before, f) == placed(
                        m,
                        self.t@,
                        before.take(at as int),
                        f,
                    ) + before.skip(at as int),
                decreases at,
            {
                at = at - 1;
                proof {
                    let p = before.take(at + 1);
                    assert(p.last() == before[at as int]);
                    assert(p.drop_last() =~= before.take(at as int));
                    assert(placed(m, self.t@, before.take(at as int), f).push(p.last())
                        + before.skip(at + 1) =~= placed(m, self.t@, before.take(at as int), f)
                        + before.skip(at as int));
                }
            }
            out.insert(at, f);
            proof {
                if at > 0 {
                    assert(before.take(at as int).last() == before[at - 1]);
                }
                assert(before.take(at as int).push(f) + before.skip(at as int) =~= before.insert(
                    at as int,
                    f,
                ));
                let more = list@.take(i + 1);
                assert(more.drop_last() =~= list@.take(i as int));
                assert(more.last() == f);
            }
            i = i + 1;
        }
        assert(list@.take(i as int) =~= list@);
        out
    }

    /// The faces of patch `k` that a zone keeps.
    fn kept_of(&self, k: usize, z: usize) -> (r: Vec<usize>)
        requires
            self.wf(),
            z < self.zones.len(),
            k < self.raw.patches.len(),
        ensures
            r@ == kept_sides(self.raw@, self.t@, self.raw@.patches[k as int], z as int),
            forall|i: int| 0 <= i < r.len() ==> (#[trigger] r[i]) / 2 < self.raw.faces.len() && r[i]
                % 2 == 0,
    {
        let ghost m = self.raw@;
        let ghost p = m.patches[k as int];
        let ghost keys = patch_keys(m, self.t@, p);
        let list = &self.kept[k][z];
        proof {
            assert(p == self.raw.patches[k as int]@);
            assert(rows(self.kept[k as int]@)[z as int] == list@);
            bucket_is_complete(keys, z as int, p.size);
        }
        let base: usize = self.raw.neighbour.len() + self.raw.patches[k].start;
        let ghost want = kept_sides(m, self.t@, p, z as int);
        let mut out: Vec<usize> = Vec::new();
        let mut i: usize = 0;
        while i < list.len()
            invariant
                i <= list.len(),
                sound(m),
                p == m.patches[k as int],
                0 <= k < m.patches.len(),
                m == self.raw@,
                base == m.neighbour.len() + p.start,
                want == kept_sides(m, self.t@, p, z as int),
                want.len() == list.len(),
                forall|j: int| 0 <= j < list.len() ==> #[trigger] want[j] == (2 * (base + list[j])) as usize,
                forall|j: int| 0 <= j < list.len() ==> #[trigger] list[j] < p.size,
                out@ == want.take(i as int),
                forall|j: int| 0 <= j < out.len() ==> (#[trigger] out[j]) / 2 < m.faces.len() && out[j]
                    % 2 == 0,
            decreases list.len() - i,
        {
            assert(list[i as int] < p.size);
            assert(want[i as int] == (2 * (base + list[i as int])) as usize);
            out.push(2 * (base + list[i]));
            i = i + 1;
            assert(out@ =~= want.take(i as int));
        }
        assert(out@ =~= want);
        out
    }

    /// The faces between two zones, from the side of zone `z`.
    fn link_of(&self, z: usize, other: usize) -> (r: Vec<usize>)
        requires
            self.wf(),
            z < self.zones.len(),
            other < self.zones.len(),
            z != other,
        ensures
            r@ == link_sides(self.raw@, self.t@, self.zones.len(), z as int, other as int),
            forall|i: int| 0 <= i < r.len() ==> self.is_side(#[trigger] r[i]),
    {
        let ghost m = self.raw@;
        let n: usize = self.zones.len();
        let ghost n_if = m.neighbour.len() as int;
        let ghost keys = link_keys(m, self.t@, n);
        let at: usize = pair_index(z, other, n);
        let list = &self.links[at];
        proof {
            lemma_cells_in_range(m);
            assert(rows(self.links@)[at as int] == list@);
            bucket_is_complete(keys, at as int, n_if);
            assert forall|j: int| 0 <= j < list.len() implies #[trigger] list[j] < n_if
                && self.t[m.owner[list[j] as int] as int] != self.t[m.neighbour[list[j] as int] as int] by {
                let f = list[j] as int;
                assert(keys[f] == at);
                assert(0 <= m.owner[f] < cell_count(m));
                assert(0 <= m.neighbour[f] < cell_count(m));
                let a = self.t[m.owner[f] as int];
                let b = self.t[m.neighbour[f] as int];
                lemma_pair_number(a as int, b as int, n as int);
                lemma_pair_is(a as int, b as int, z as int, other as int, n as int);
            }
        }
        let ghost want = link_sides(m, self.t@, n, z as int, other as int);
        let mut out: Vec<usize> = Vec::new();
        let mut i: usize = 0;
        while i < list.len()
            invariant
                i <= list.len(),
                self.ready(),
                m == self.raw@,
                n_if == m.neighbour.len(),
                want.len() == list.len(),
                forall|f: int|
                    0 <= f < m.owner.len() ==> 0 <= #[trigger] m.owner[f] < cell_count(m),
                forall|j: int|
                    0 <= j < list.len() ==> #[trigger] want[j] == (if self.t[m.owner[list[j] as int] as int] == z {
                        (2 * list[j]) as usize
                    } else {
                        (2 * list[j] + 1) as usize
                    }),
                forall|j: int|
                    0 <= j < list.len() ==> #[trigger] list[j] < n_if && self.t[m.owner[list[j] as int] as int]
                        != self.t[m.neighbour[list[j] as int] as int],
                out@ == want.take(i as int),
                forall|j: int| 0 <= j < out.len() ==> self.is_side(#[trigger] out[j]),
            decreases list.len() - i,
        {
            let f: usize = list[i];
            assert(f < n_if);
            assert(0 <= m.owner[f as int] < cell_count(m));
            assert(want[i as int] == (if self.t[m.owner[list[i as int] as int] as int] == z {
                (2 * list[i as int]) as usize
            } else {
                (2 * list[i as int] + 1) as usize
            }));
            if self.t[self.raw.owner[f] as usize] == z {
                out.push(2 * f);
            } else {
                out.push(2 * f + 1);
            }
            i = i + 1;
            assert(out@ =~= want.take(i as int));
        }
        assert(out@ =~= want);
        out
    }
}

/// The name of the patch where one zone meets another.
fn name_link(a: &str, b: &str) -> (r: String)
    ensures
        r@ == link_name(a@, b@),
{
    let mut s = copy(a);
    push_text(&mut s, "_to_");
    push_text(&mut s, b);
    s
}

/// Boundary faces so far, and the patches they make.
struct Draft {
    sides: Vec<usize>,
    patches: Vec<PatchInfo>,
}

impl Draft {
    spec fn layout(&self) -> Layout {
        Layout { sides: self.sides@, patches: patches_of(self.patches@) }
    }

    fn add_patch(
        &mut self,
        name: String,
        patch_type: &str,
        kind: PatchKind,
        more: &mut Vec<usize>,
    )
        ensures
            final(self).layout() == with_patch(
                old(self).layout(),
                name@,
                patch_type@,
                kind,
                old(more)@,
            ),
            forall|i: int|
                0 <= i < final(self).sides.len() ==> (old(self).sides@.contains(
                    #[trigger] final(self).sides[i],
                ) || old(more)@.contains(final(self).sides[i])),
    {
        let ghost was = self.sides@;
        let ghost add = more@;
        if more.len() == 0 {
            assert forall|i: int| 0 <= i < self.sides.len() implies was.contains(
                #[trigger] self.sides[i],
            ) || add.contains(self.sides[i]) by {
                assert(was[i] == self.sides[i]);
            }
            return;
        }
        let p = PatchInfo {
            name,
            patch_type: copy(patch_type),
            kind,
            start: self.sides.len(),
            size: more.len(),
            nbr_patch: None,
        };
        assert(patches_of(self.patches@.push(p)) =~= patches_of(self.patches@).push(p@));
        self.patches.push(p);
        self.sides.append(more);
        assert forall|i: int| 0 <= i < self.sides.len() implies was.contains(
            #[trigger] self.sides[i],
        ) || add.contains(self.sides[i]) by {
            if i < was.len() {
                assert(was[i] == self.sides[i]);
            } else {
                assert(add[i - was.len()] == self.sides[i]);
            }
        }
    }
}

impl<'a> Split<'a> {
    /// A side of a face that the mesh has, with a cell on it: the neighbour's side only
    /// where the face lies between two zones.
    spec fn is_side(&self, j: usize) -> bool {
        let m = self.raw@;
        let f = (j / 2) as int;
        &&& f < m.faces.len()
        &&& j % 2 == 1 ==> f < m.neighbour.len() && self.t[m.owner[f] as int]
            != self.t[m.neighbour[f] as int]
    }

    /// The boundary of a zone.
    fn boundary(&self, z: usize) -> (r: Draft)
        requires
            self.wf(),
            z < self.zones.len(),
        ensures
            r.layout() == linked(
                self.raw@,
                zones_of(self.zones@),
                self.t@,
                z as int,
                self.zones.len() as int,
            ),
            forall|i: int| 0 <= i < r.sides.len() ==> self.is_side(#[trigger] r.sides[i]),
    {
        let ghost m = self.raw@;
        let ghost zv = zones_of(self.zones@);
        let n: usize = self.zones.len();
        let mut d = Draft { sides: Vec::new(), patches: Vec::new() };
        assert(d.layout().sides =~= Seq::empty());
        assert(d.layout().patches =~= Seq::empty());
        let mut k: usize = 0;
        while k < self.raw.patches.len()
            invariant
                k <= self.raw.patches.len(),
                self.wf(),
                m == self.raw@,
                z < self.zones.len(),
                d.layout() == kept(m, self.t@, z as int, k as int),
                forall|i: int| 0 <= i < d.sides.len() ==> self.is_side(#[trigger] d.sides[i]),
            decreases self.raw.patches.len() - k,
        {
            let p = &self.raw.patches[k];
            assert(m.patches[k as int] == p@);
            let mut more = self.kept_of(k, z);
            let ghost was = d.sides@;
            let ghost add = more@;
            d.add_patch(copy(&p.name), &p.patch_type, p.kind, &mut more);
            proof {
                assert forall|i: int| 0 <= i < d.sides.len() implies self.is_side(
                    #[trigger] d.sides[i],
                ) by {
                    let x = d.sides[i];
                    if was.contains(x) {
                        let a = choose|a: int| 0 <= a < was.len() && was[a] == x;
                        assert(self.is_side(was[a]));
                    } else {
                        assert(add.contains(x));
                    }
                }
            }
            k = k + 1;
        }
        let mut o: usize = 0;
        while o < n
            invariant
                o <= n == self.zones.len(),
                self.wf(),
                m == self.raw@,
                zv == zones_of(self.zones@),
                z < self.zones.len(),
                d.layout() == linked(m, zv, self.t@, z as int, o as int),
                forall|i: int| 0 <= i < d.sides.len() ==> self.is_side(#[trigger] d.sides[i]),
            decreases n - o,
        {
            if o != z {
                assert(zv[o as int].name == self.zones[o as int].0@);
                assert(zv[z as int].name == self.zones[z as int].0@);
                let mut more = self.link_of(z, o);
                let ghost was = d.sides@;
                let ghost add = more@;
                let name = name_link(&self.zones[z].0, &self.zones[o].0);
                d.add_patch(name, "patch", PatchKind::Generic, &mut more);
                proof {
                    assert forall|i: int| 0 <= i < d.sides.len() implies self.is_side(
                        #[trigger] d.sides[i],
                    ) by {
                        let x = d.sides[i];
                        if was.contains(x) {
                            let a = choose|a: int| 0 <= a < was.len() && was[a] == x;
                            assert(self.is_side(was[a]));
                        } else {
                            assert(add.contains(x));
                        }
                    }
                }
            }
            o = o + 1;
        }
        d
    }

    /// The loop of a face, from one of its sides.
    fn loop_of(&self, j: usize) -> (r: Vec<Label>)
        requires
            self.ready(),
            self.is_side(j),
        ensures
            r@ == side_loop(self.raw@, j),
            forall|i: int| 0 <= i < r.len() ==> 0 <= #[trigger] r[i] < self.raw.points.len(),
    {
        let ghost m = self.raw@;
        let f: usize = j / 2;
        assert(m.faces[f as int] == self.raw.faces[f as int]@);
        if j % 2 == 0 {
            let out = copy_list(&self.raw.faces[f]);
            assert forall|i: int| 0 <= i < out.len() implies 0 <= #[trigger] out[i]
                < self.raw.points.len() by {
                assert(0 <= m.faces[f as int][i] < m.points.len());
            }
            out
        } else {
            assert(m.faces[f as int].len() > 0);
            let out = reverse_face(&self.raw.faces[f]);
            assert forall|i: int| 0 <= i < out.len() implies 0 <= #[trigger] out[i]
                < self.raw.points.len() by {
                let face = m.faces[f as int];
                let k = if i == 0 {
                    0int
                } else {
                    face.len() - i
                };
                assert(0 <= m.faces[f as int][k] < m.points.len());
            }
            out
        }
    }

    /// The number of the cell on a side, within its zone.
    fn rank_on(&self, j: usize) -> (r: Label)
        requires
            self.ready(),
            self.is_side(j),
        ensures
            r == rank_of(self.t@, side_cell(self.raw@, j) as int) as Label,
    {
        let ghost m = self.raw@;
        proof {
            lemma_cells_in_range(m);
        }
        let f: usize = j / 2;
        if j % 2 == 0 {
            assert(0 <= m.owner[f as int] < cell_count(m));
            self.rank[self.raw.owner[f] as usize]
        } else {
            assert(0 <= m.neighbour[f as int] < cell_count(m));
            self.rank[self.raw.neighbour[f] as usize]
        }
    }
}

/// A list with the place of every value in it.
struct Uses {
    /// The place of a point, or [`usize::MAX`].
    place: Vec<usize>,
    list: Vec<Label>,
}

impl Uses {
    spec fn wf(&self, points: int) -> bool {
        &&& self.place.len() == points
        &&& self.list@.no_duplicates()
        &&& forall|i: int| 0 <= i < self.list.len() ==> 0 <= #[trigger] self.list[i] < points
        &&& forall|v: int|
            0 <= v < points ==> (#[trigger] self.place[v] == usize::MAX && !self.list@.contains(
                v as Label,
            )) || (self.place[v] < self.list.len() && self.list[self.place[v] as int] == v)
    }

    /// The place of a point, which is new where the point was not used yet.
    fn use_point(&mut self, v: Label) -> (r: usize)
        requires
            0 <= v < old(self).place.len() <= i32::MAX,
            old(self).wf(old(self).place.len() as int),
        ensures
            final(self).place.len() == old(self).place.len(),
            final(self).wf(old(self).place.len() as int),
            final(self).list@ == (if old(self).list@.contains(v) {
                old(self).list@
            } else {
                old(self).list@.push(v)
            }),
            r < final(self).list.len(),
            final(self).list[r as int] == v,
    {
        let ghost was = self.list@;
        let at: usize = self.place[v as usize];
        if at != usize::MAX {
            assert(was[at as int] == v);
            return at;
        }
        let fresh_at: usize = self.list.len();
        self.list.push(v);
        let grown: usize = self.list.len();
        self.place.set(v as usize, fresh_at);
        proof {
            let points = self.place.len() as int;
            assert(self.list[fresh_at as int] == v);
            assert forall|w: int| 0 <= w < points implies (#[trigger] self.place[w] == usize::MAX
                && !self.list@.contains(w as Label)) || (self.place[w] < self.list.len()
                && self.list[self.place[w] as int] == w) by {
                if w != v {
                    assert(old(self).place[w] == self.place[w]);
                    if self.place[w] == usize::MAX {
                        if self.list@.contains(w as Label) {
                            let i = choose|i: int|
                                0 <= i < self.list.len() && self.list[i] == w as Label;
                            assert(i < was.len());
                            assert(was[i] == w as Label);
                        }
                    }
                }
            }
            assert(self.list@.no_duplicates()) by {
                assert forall|i: int, j: int|
                    0 <= i < self.list.len() && 0 <= j < self.list.len() && i
                        != j implies self.list[i] != self.list[j] by {
                    if i == was.len() {
                        assert(was.contains(was[j]));
                    } else if j == was.len() {
                        assert(was.contains(was[i]));
                    }
                }
            }
        }
        fresh_at
    }
}

/// A value keeps its place as the list grows.
proof fn lemma_distinct_prefix(s: Seq<Label>, a: int, b: int)
    requires
        0 <= a <= b,
    ensures
        distinct(s, a).len() <= distinct(s, b).len(),
        forall|i: int|
            0 <= i < distinct(s, a).len() ==> distinct(s, b)[i] == #[trigger] distinct(s, a)[i],
    decreases b - a,
{
    if a < b {
        lemma_distinct_prefix(s, a, b - 1);
    }
}

pub(crate) proof fn lemma_distinct_is(s: Seq<Label>, n: int)
    requires
        0 <= n <= s.len(),
    ensures
        distinct(s, n).no_duplicates(),
        forall|i: int| 0 <= i < n ==> distinct(s, n).contains(#[trigger] s[i]),
    decreases n,
{
    if n > 0 {
        lemma_distinct_is(s, n - 1);
        let d = distinct(s, n - 1);
        let e = distinct(s, n);
        assert forall|i: int| 0 <= i < n implies e.contains(#[trigger] s[i]) by {
            if i < n - 1 {
                let k = choose|k: int| 0 <= k < d.len() && d[k] == s[i];
                assert(e[k] == s[i]);
            } else if !d.contains(s[n - 1]) {
                assert(e[d.len() as int] == s[n - 1]);
            }
        }
        assert(e.no_duplicates()) by {
            assert forall|i: int, j: int|
                0 <= i < e.len() && 0 <= j < e.len() && i != j implies e[i] != e[j] by {
                if i == d.len() {
                    assert(d.contains(d[j]));
                } else if j == d.len() {
                    assert(d.contains(d[i]));
                }
            }
        }
    }
}

/// A place in a list without duplicates is the place of its value.
proof fn lemma_place(d: Seq<Label>, i: int)
    requires
        d.no_duplicates(),
        0 <= i < d.len(),
    ensures
        d.index_of(d[i]) == i,
{
    let j = d.index_of(d[i]);
    assert(d.contains(d[i]));
    assert(0 <= j < d.len() && d[j] == d[i]);
}

pub(crate) proof fn lemma_flat_step(loops: Seq<Seq<Label>>, k: int, i: int)
    requires
        0 <= k < loops.len(),
        0 <= i < loops[k].len(),
    ensures
        flat(loops, k).len() + i < flat(loops, loops.len() as int).len(),
        flat(loops, loops.len() as int)[flat(loops, k).len() + i] == loops[k][i],
{
    crate::list::flat_holds_every_list(loops, k, loops.len() as int);
    let all = flat(loops, loops.len() as int);
    let from = flat(loops, k).len() as int;
    let to = flat(loops, k + 1).len() as int;
    assert(all.subrange(from, to)[i] == all[from + i]);
}

/// Labels that stand for the values of a loop in a list.
spec fn numbered(out: Seq<Label>, lp: Seq<Label>, list: Seq<Label>) -> bool {
    &&& out.len() == lp.len()
    &&& forall|i: int|
        0 <= i < out.len() ==> 0 <= #[trigger] out[i] < list.len() && list[out[i] as int] == lp[i]
}

spec fn grows(a: Seq<Label>, b: Seq<Label>) -> bool {
    a.len() <= b.len() && forall|i: int| 0 <= i < a.len() ==> #[trigger] b[i] == a[i]
}

proof fn lemma_numbered(out: Seq<Label>, lp: Seq<Label>, d: Seq<Label>)
    requires
        numbered(out, lp, d),
        d.no_duplicates(),
        d.len() <= i32::MAX,
    ensures
        out == renumbered(lp, d),
{
    assert forall|i: int| 0 <= i < out.len() implies #[trigger] out[i] == renumbered(lp, d)[i] by {
        lemma_place(d, out[i] as int);
    }
    assert(out =~= renumbered(lp, d));
}

pub(crate) proof fn lemma_distinct_bound(d: Seq<Label>, points: int)
    requires
        0 <= points,
        d.no_duplicates(),
        forall|i: int| 0 <= i < d.len() ==> 0 <= #[trigger] d[i] < points,
    ensures
        d.len() <= points,
{
    let ints = d.map_values(|v: Label| v as int);
    assert(ints.no_duplicates());
    let range = vstd::set_lib::set_int_range(0, points);
    vstd::set_lib::lemma_int_range(0, points);
    ints.unique_seq_to_set();
    assert(ints.to_set().subset_of(range));
    vstd::set_lib::lemma_len_subset(ints.to_set(), range);
}

/// Renumber the points of some loops by their first use.
fn renumber(loops: &Vec<Vec<Label>>, points: &Vec<Vec3>) -> (r: (Vec<Vec3>, Vec<Vec<Label>>))
    requires
        points.len() <= i32::MAX,
        forall|k: int, i: int|
            0 <= k < loops.len() && 0 <= i < loops[k].len() ==> 0 <= #[trigger] loops[k]@[i]
                < points.len(),
    ensures
        r.0@ == used_points(rows(loops@)).map_values(|v: Label| points@[v as int]),
        faces_of(r.1@) == rows(loops@).map_values(
            |l: Seq<Label>| renumbered(l, used_points(rows(loops@))),
        ),
{
    let n: usize = points.len();
    let ghost lv = rows(loops@);
    let ghost all = flat(lv, lv.len() as int);
    let mut uses = Uses { place: filled(usize::MAX, n), list: Vec::new() };
    let mut out: Vec<Vec<Label>> = Vec::new();
    let mut k: usize = 0;
    assert(uses.list@ =~= distinct(all, 0));
    while k < loops.len()
        invariant
            k <= loops.len(),
            n == points.len() <= i32::MAX,
            lv == rows(loops@),
            all == flat(lv, lv.len() as int),
            uses.place.len() == n,
            uses.wf(n as int),
            uses.list@ == distinct(all, flat(lv, k as int).len() as int),
            out.len() == k,
            forall|j: int|
                0 <= j < k ==> numbered((#[trigger] out[j])@, lv[j], uses.list@),
            forall|k: int, i: int|
                0 <= k < loops.len() && 0 <= i < loops[k].len() ==> 0 <= #[trigger] loops[k]@[i]
                    < points.len(),
        decreases loops.len() - k,
    {
        let lp = &loops[k];
        assert(lv[k as int] == lp@);
        let ghost before = uses.list@;
        let mut face: Vec<Label> = Vec::new();
        let mut i: usize = 0;
        while i < lp.len()
            invariant
                k < loops.len(),
                i <= lp.len(),
                n == points.len() <= i32::MAX,
                lv == rows(loops@),
                all == flat(lv, lv.len() as int),
                lv[k as int] == lp@,
                lp@ == loops[k as int]@,
                uses.place.len() == n,
                uses.wf(n as int),
                grows(before, uses.list@),
                uses.list@ == distinct(all, flat(lv, k as int).len() + i),
                numbered(face@, lp@.take(i as int), uses.list@),
                forall|k: int, i: int|
                    0 <= k < loops.len() && 0 <= i < loops[k].len() ==> 0
                        <= #[trigger] loops[k]@[i] < points.len(),
            decreases lp.len() - i,
        {
            let v: Label = lp[i];
            assert(0 <= loops[k as int]@[i as int] < points.len());
            proof {
                lemma_flat_step(lv, k as int, i as int);
            }
            let ghost shorter = uses.list@;
            let at: usize = uses.use_point(v);
            proof {
                lemma_distinct_bound(uses.list@, n as int);
                assert(uses.list@ =~= distinct(all, flat(lv, k as int).len() + i + 1));
                assert(grows(shorter, uses.list@));
            }
            let ghost face_was = face@;
            face.push(at as Label);
            i = i + 1;
            proof {
                assert(numbered(face@, lp@.take(i as int), uses.list@)) by {
                    assert forall|q: int| 0 <= q < face@.len() implies 0 <= #[trigger] face@[q]
                        < uses.list@.len() && uses.list@[face@[q] as int] == lp@.take(
                        i as int,
                    )[q] by {
                        if q < face_was.len() {
                            assert(face_was[q] == face@[q]);
                            assert(uses.list@[face@[q] as int] == shorter[face_was[q] as int]);
                        }
                    }
                }
            }
        }
        proof {
            assert(lp@.take(i as int) =~= lp@);
            assert forall|j: int| 0 <= j < k implies numbered(
                (#[trigger] out[j])@,
                lv[j],
                uses.list@,
            ) by {
                let o = out[j]@;
                assert forall|q: int| 0 <= q < o.len() implies 0 <= #[trigger] o[q]
                    < uses.list@.len() && uses.list@[o[q] as int] == lv[j][q] by {
                    assert(uses.list@[o[q] as int] == before[o[q] as int]);
                }
            }
        }
        out.push(face);
        k = k + 1;
    }
    let ghost d = used_points(lv);
    proof {
        assert(uses.list@ == d);
        lemma_distinct_bound(d, n as int);
        assert forall|j: int| 0 <= j < out.len() implies (#[trigger] out[j])@ == renumbered(
            lv[j],
            d,
        ) by {
            lemma_numbered(out[j]@, lv[j], d);
        }
        assert(faces_of(out@) =~= lv.map_values(|l: Seq<Label>| renumbered(l, d)));
    }
    let mut pts: Vec<Vec3> = Vec::new();
    let mut q: usize = 0;
    while q < uses.list.len()
        invariant
            q <= uses.list.len(),
            n == points.len(),
            uses.wf(n as int),
            pts@ == uses.list@.take(q as int).map_values(|v: Label| points@[v as int]),
        decreases uses.list.len() - q,
    {
        let v: Label = uses.list[q];
        pts.push(points[v as usize]);
        q = q + 1;
        assert(pts@ =~= uses.list@.take(q as int).map_values(|v: Label| points@[v as int]));
    }
    assert(uses.list@.take(q as int) =~= uses.list@);
    (pts, out)
}

impl<'a> Split<'a> {
    /// The mesh of a zone.
    fn build_region(&self, z: usize) -> (r: PolyMeshRaw)
        requires
            self.wf(),
            z < self.zones.len(),
        ensures
            r@ == region(self.raw@, zones_of(self.zones@), self.t@, z as int),
    {
        let ghost m = self.raw@;
        let ghost zv = zones_of(self.zones@);
        let ghost want = region_sides(m, zv, self.t@, z as int);
        let inner = self.ordered(z);
        let mut d = self.boundary(z);
        let mut sides: Vec<usize> = Vec::new();
        let mut neighbour: Vec<Label> = Vec::new();
        let mut i: usize = 0;
        proof {
            lemma_cells_in_range(m);
        }
        while i < inner.len()
            invariant
                i <= inner.len(),
                self.ready(),
                m == self.raw@,
                forall|k: int| 0 <= k < inner.len() ==> #[trigger] inner[k] < m.neighbour.len(),
                forall|f: int|
                    0 <= f < m.neighbour.len() ==> 0 <= #[trigger] m.neighbour[f] < cell_count(m),
                sides@ == own_sides(inner@.take(i as int)),
                forall|k: int| 0 <= k < sides.len() ==> self.is_side(#[trigger] sides[k]),
                neighbour@ == inner@.take(i as int).map_values(
                    |f: usize| rank_of(self.t@, m.neighbour[f as int] as int) as Label,
                ),
            decreases inner.len() - i,
        {
            let f: usize = inner[i];
            assert(0 <= m.neighbour[f as int] < cell_count(m));
            sides.push(2 * f);
            neighbour.push(self.rank[self.raw.neighbour[f] as usize]);
            i = i + 1;
            assert(sides@ =~= own_sides(inner@.take(i as int)));
            assert(neighbour@ =~= inner@.take(i as int).map_values(
                |f: usize| rank_of(self.t@, m.neighbour[f as int] as int) as Label,
            ));
        }
        assert(inner@.take(i as int) =~= inner@);
        let ghost inner_s = sides@;
        let ghost outer_s = d.sides@;
        sides.append(&mut d.sides);
        proof {
            assert(sides@ == want);
            assert forall|k: int| 0 <= k < sides.len() implies self.is_side(#[trigger] sides[k]) by {
                if k < inner_s.len() {
                    assert(self.is_side(inner_s[k]));
                } else {
                    assert(self.is_side(outer_s[k - inner_s.len()]));
                }
            }
        }
        let mut loops: Vec<Vec<Label>> = Vec::new();
        let mut owner: Vec<Label> = Vec::new();
        let mut k: usize = 0;
        while k < sides.len()
            invariant
                k <= sides.len(),
                self.ready(),
                m == self.raw@,
                forall|k: int| 0 <= k < sides.len() ==> self.is_side(#[trigger] sides[k]),
                loops.len() == k,
                forall|j: int| 0 <= j < k ==> (#[trigger] loops[j])@ == side_loop(m, sides[j]),
                forall|j: int, i: int|
                    0 <= j < k && 0 <= i < loops[j].len() ==> 0 <= #[trigger] loops[j]@[i]
                        < m.points.len(),
                owner@ == sides@.take(k as int).map_values(
                    |j: usize| rank_of(self.t@, side_cell(m, j) as int) as Label,
                ),
            decreases sides.len() - k,
        {
            let j: usize = sides[k];
            let lp = self.loop_of(j);
            loops.push(lp);
            owner.push(self.rank_on(j));
            k = k + 1;
            assert(owner@ =~= sides@.take(k as int).map_values(
                |j: usize| rank_of(self.t@, side_cell(m, j) as int) as Label,
            ));
        }
        assert(sides@.take(k as int) =~= sides@);
        let (points, faces) = renumber(&loops, &self.raw.points);
        proof {
            assert(rows(loops@) =~= loops_of(m, want));
        }
        PolyMeshRaw { points, faces, owner, neighbour, patches: d.patches }
    }

    /// Where the zones meet.
    fn meet(&self) -> (r: Vec<SplitInterface>)
        requires
            self.wf(),
        ensures
            meetings_of(r@) == meetings(
                self.raw@,
                zones_of(self.zones@),
                self.t@,
                self.zones.len() as int,
            ),
    {
        let ghost m = self.raw@;
        let ghost zv = zones_of(self.zones@);
        let n: usize = self.zones.len();
        let mut out: Vec<SplitInterface> = Vec::new();
        let mut a: usize = 0;
        assert(meetings_of(out@) =~= Seq::empty());
        while a < n
            invariant
                a <= n == self.zones.len(),
                self.wf(),
                m == self.raw@,
                zv == zones_of(self.zones@),
                meetings_of(out@) == meetings(m, zv, self.t@, a as int),
            decreases n - a,
        {
            let ghost before = meetings_of(out@);
            let mut b: usize = a + 1;
            assert(before + Seq::<Meeting>::empty() =~= before);
            while b < n
                invariant
                    a < b <= n == self.zones.len(),
                    self.wf(),
                    m == self.raw@,
                    zv == zones_of(self.zones@),
                    meetings_of(out@) == before + meetings_with(
                        m,
                        zv,
                        self.t@,
                        a as int,
                        b as int,
                    ),
                decreases n - b,
            {
                let fs = self.link_of(a, b);
                assert(zv[a as int].name == self.zones[a as int].0@);
                assert(zv[b as int].name == self.zones[b as int].0@);
                if fs.len() > 0 {
                    let s = SplitInterface {
                        region_a: a,
                        patch_a: name_link(&self.zones[a].0, &self.zones[b].0),
                        region_b: b,
                        patch_b: name_link(&self.zones[b].0, &self.zones[a].0),
                        n_faces: fs.len(),
                    };
                    proof {
                        assert(meetings_of(out@.push(s)) =~= meetings_of(out@).push(s@));
                        assert((before + meetings_with(m, zv, self.t@, a as int, b as int)).push(s@)
                            =~= before + meetings_with(
                            m,
                            zv,
                            self.t@,
                            a as int,
                            b as int,
                        ).push(s@));
                    }
                    out.push(s);
                }
                b = b + 1;
            }
            a = a + 1;
        }
        out
    }
}

/// Split a mesh by zones: one mesh for every zone, in the order of the zones, and
/// where they meet.
///
/// A zone's cells are numbered in ascending order of their numbers in the mesh. A
/// face inside a zone stays internal, in order of owner and neighbour; a face
/// between two zones becomes a face of each, seen from its own side, the `k`-th of
/// both being the `k`-th such face of the mesh. A boundary face keeps its patch;
/// a patch without faces is dropped. Points are numbered by first use.
pub fn split_by_zones(raw: &PolyMeshRaw, zones: &Vec<(String, Vec<Label>)>) -> (r: Result<
    (Vec<(String, PolyMeshRaw)>, Vec<SplitInterface>),
    Error,
>)
    requires
        sound(raw@),
        split_fault(raw@, zones_of(zones@)) is None ==> links_have_vertices(
            raw@,
            zone_table(zones_of(zones@), cell_count(raw@) as nat)->Ok_0,
        ),
        zones.len() * zones.len() <= usize::MAX,
        zones.len() < usize::MAX,
        forall|z: int| 0 <= z < zones.len() ==> (#[trigger] zones[z]).0@.len() < usize::MAX,
    ensures
        match (r, split_fault(raw@, zones_of(zones@))) {
            (Err(e), Some(f)) => e@ == f,
            (Ok((regions, ifaces)), None) => {
                let zv = zones_of(zones@);
                let t = zone_table(zv, cell_count(raw@) as nat)->Ok_0;
                &&& regions.len() == zones.len()
                &&& forall|z: int|
                    #![trigger regions[z]]
                    0 <= z < zones.len() ==> regions[z].0@ == zv[z].name && regions[z].1@ == region(
                        raw@,
                        zv,
                        t,
                        z,
                    )
                &&& meetings_of(ifaces@) == meetings(raw@, zv, t, zones.len() as int)
            },
            _ => false,
        },
{
    let ghost m = raw@;
    let ghost zv = zones_of(zones@);
    match check_zones(zones) {
        Ok(_) => {},
        Err(e) => {
            return Err(e);
        },
    }
    let a: i64 = crate::polymesh::count_beyond(&raw.owner);
    let b: i64 = crate::polymesh::count_beyond(&raw.neighbour);
    let n_cells: usize = if a > b {
        a as usize
    } else {
        b as usize
    };
    let n: usize = zones.len();
    let t: Vec<usize> = match assign(zones, n_cells) {
        Ok(t) => t,
        Err(m) => {
            return Err(Error::Mesh(m));
        },
    };
    let (lost, at) = count_lost(&t, n);
    if lost > 0 {
        return Err(Error::Mesh(no_zone_message(lost, at)));
    }
    let c: usize = first_cyclic(&raw.patches);
    if c < raw.patches.len() {
        assert(m.patches[c as int] == raw.patches[c as int]@);
        return Err(Error::Mesh(cyclic_parent_message(&raw.patches[c].name)));
    }
    proof {
        assert forall|c: int| 0 <= c < t.len() implies #[trigger] t[c] < n by {
            assert(t[c] <= n && t[c] != n);
        }
    }
    let rank = ranks(&t, n);
    let mut sp = Split {
        raw,
        zones,
        t,
        rank,
        inner: Vec::new(),
        links: Vec::new(),
        kept: Vec::new(),
    };
    sp.sort_inner();
    sp.sort_links();
    sp.sort_kept();
    let mut out: Vec<(String, PolyMeshRaw)> = Vec::new();
    let mut z: usize = 0;
    while z < n
        invariant
            z <= n == zones.len(),
            sp.wf(),
            sp.raw@ == raw@,
            sp.zones@ == zones@,
            zv == zones_of(zones@),
            out.len() == z,
            forall|k: int|
                #![trigger out[k]]
                0 <= k < z ==> out[k].0@ == zv[k].name && out[k].1@ == region(
                    raw@,
                    zv,
                    sp.t@,
                    k,
                ),
        decreases n - z,
    {
        let mesh = sp.build_region(z);
        assert(zv[z as int].name == zones[z as int].0@);
        out.push((copy(&zones[z].0), mesh));
        z = z + 1;
    }
    let ifaces = sp.meet();
    Ok((out, ifaces))
}

// --------------------------------------------------------------------------
//  The order of the internal faces
// --------------------------------------------------------------------------
/// A face that sorts before the one in front of it.
pub open spec fn unordered_in(m: RawMesh) -> spec_fn(int) -> bool {
    |f: int|
        m.owner[f] < m.owner[f - 1] || (m.owner[f] == m.owner[f - 1] && m.neighbour[f]
            < m.neighbour[f - 1])
}

/// The first internal face out of order.
pub open spec fn order_fault(m: RawMesh) -> Option<int> {
    let f = first(m.neighbour.len() as int, 1, unordered_in(m));
    if f < m.neighbour.len() {
        Some(f)
    } else {
        None
    }
}

pub open spec fn out_of_order_text(what: Seq<char>, face: nat, o: int, n: int, before: nat, po: int, pn: int) -> Seq<char> {
    what
        + ": internal face "@
        + decimal(face)
        + " has (owner, neighbour) = ("@
        + signed_decimal(o)
        + ", "@
        + signed_decimal(n)
        + "), which sorts before face "@
        + decimal(before)
        + "'s ("@
        + signed_decimal(po)
        + ", "@
        + signed_decimal(pn)
        + ") - a region's polyMesh keeps its internal faces ordered by owner then neighbour (R1)"@
}

pub(crate) fn out_of_order_message(what: &str, face: usize, o: i64, n: i64, before: usize, po: i64, pn: i64) -> (r: String)
    ensures
        r@ == out_of_order_text(what@, face as nat, o as int, n as int, before as nat, po as int, pn as int),
{
    let mut s = copy(what);
    push_text(&mut s, ": internal face ");
    push_decimal(&mut s, face as u64);
    push_text(&mut s, " has (owner, neighbour) = (");
    push_signed(&mut s, o);
    push_text(&mut s, ", ");
    push_signed(&mut s, n);
    push_text(&mut s, "), which sorts before face ");
    push_decimal(&mut s, before as u64);
    push_text(&mut s, "'s (");
    push_signed(&mut s, po);
    push_text(&mut s, ", ");
    push_signed(&mut s, pn);
    push_text(&mut s, ") - a region's polyMesh keeps its internal faces ordered by owner then neighbour (R1)");
    s
}

/// The internal faces of a region are in order of owner, then neighbour.
pub fn check_r1(raw: &PolyMeshRaw, what: &str) -> (r: Result<(), Error>)
    requires
        raw.neighbour.len() <= raw.owner.len(),
    ensures
        match (r, order_fault(raw@)) {
            (Ok(_), None) => true,
            (Err(e), Some(f)) => e@ == Failure::Mesh(
                out_of_order_text(
                    what@,
                    f as nat,
                    raw.owner[f] as int,
                    raw.neighbour[f] as int,
                    (f - 1) as nat,
                    raw.owner[f - 1] as int,
                    raw.neighbour[f - 1] as int,
                ),
            ),
            _ => false,
        },
{
    let n: usize = raw.neighbour.len();
    let ghost un = unordered_in(raw@);
    let mut f: usize = 1;
    while f < n
        invariant
            1 <= f,
            f <= n || f == 1,
            n == raw.neighbour.len() <= raw.owner.len(),
            un == unordered_in(raw@),
            first(n as int, 1, un) == first(n as int, f as int, un),
        decreases n - f,
    {
        if raw.owner[f] < raw.owner[f - 1] || (raw.owner[f] == raw.owner[f - 1]
            && raw.neighbour[f] < raw.neighbour[f - 1]) {
            return Err(
                Error::Mesh(
                    out_of_order_message(
                        what,
                        f,
                        raw.owner[f] as i64,
                        raw.neighbour[f] as i64,
                        f - 1,
                        raw.owner[f - 1] as i64,
                        raw.neighbour[f - 1] as i64,
                    ),
                ),
            );
        }
        f = f + 1;
    }
    Ok(())
}

// --------------------------------------------------------------------------
//  What a split keeps
// --------------------------------------------------------------------------
proof fn lemma_assigned(zones: Seq<Zone>, z: int, i: int, t: Seq<usize>, c: int, y: int)
    requires
        0 <= z <= zones.len() < usize::MAX,
        z < zones.len() ==> 0 <= i <= zones[z].cells.len(),
        z == zones.len() ==> i == 0,
        0 <= c < t.len() <= i32::MAX,
        0 <= y < zones.len(),
        assigned(zones, z, i, t) is Ok,
        forall|k: int|
            0 <= k < z && zones[k].cells.contains(c as Label) ==> #[trigger] t[c] == k,
        z < zones.len() && zones[z].cells.take(i).contains(c as Label) ==> t[c] == z,
        t[c] != zones.len() ==> t[c] <= z && t[c] < zones.len() && (t[c] < z
            ==> zones[t[c] as int].cells.contains(c as Label)) && (t[c] == z
            ==> zones[z].cells.take(i).contains(c as Label)),
    ensures
        assigned(zones, z, i, t)->Ok_0.len() == t.len(),
        (assigned(zones, z, i, t)->Ok_0[c] == y) <==> zones[y].cells.contains(c as Label),
    decreases zones.len() - z, zones[z].cells.len() - i,
{
    if z < zones.len() {
        let cells = zones[z].cells;
        if i >= cells.len() {
            assert(cells.take(i) =~= cells);
            if z + 1 < zones.len() {
                assert(zones[z + 1].cells.take(0) =~= Seq::empty());
            }
            lemma_assigned(zones, z + 1, 0, t, c, y);
        } else {
            let u = t.update(cells[i] as int, z as usize);
            assert(cells.take(i + 1) =~= cells.take(i).push(cells[i]));
            if cells[i] == c {
                assert(cells.take(i + 1).contains(c as Label)) by {
                    assert(cells.take(i + 1)[i] == c as Label);
                }
            } else {
                let less = cells.take(i);
                let more = cells.take(i + 1);
                if more.contains(c as Label) {
                    let k = choose|k: int| 0 <= k < more.len() && more[k] == c as Label;
                    assert(less[k] == c as Label);
                }
                if less.contains(c as Label) {
                    let k = choose|k: int| 0 <= k < less.len() && less[k] == c as Label;
                    assert(more[k] == c as Label);
                }
            }
            lemma_assigned(zones, z, i + 1, u, c, y);
        }
    }
}

/// A cell is in a region exactly where the region's zone lists it.
pub proof fn cells_go_where_they_are_listed(zones: Seq<Zone>, cells: nat, c: int, z: int)
    requires
        zones.len() < usize::MAX,
        cells <= i32::MAX,
        0 <= c < cells,
        0 <= z < zones.len(),
        zone_table(zones, cells) is Ok,
    ensures
        zone_table(zones, cells)->Ok_0[c] == z <==> zones[z].cells.contains(c as Label),
{
    let t = repeated(zones.len() as usize, cells as int);
    assert(zones[0].cells.take(0) =~= Seq::empty());
    lemma_assigned(zones, 0, 0, t, c, z);
}

/// No entry comes behind a later one.
pub open spec fn sorted_by_key(m: RawMesh, t: Seq<usize>, s: Seq<usize>) -> bool {
    forall|i: int, j: int|
        0 <= i < j < s.len() ==> !later(
            sort_key(m, t, #[trigger] s[i]),
            sort_key(m, t, #[trigger] s[j]),
        )
}

proof fn lemma_placed(m: RawMesh, t: Seq<usize>, s: Seq<usize>, f: usize)
    requires
        sorted_by_key(m, t, s),
    ensures
        sorted_by_key(m, t, placed(m, t, s, f)),
        placed(m, t, s, f).to_multiset() == s.to_multiset().insert(f),
        forall|i: int|
            0 <= i < placed(m, t, s, f).len() ==> s.contains(#[trigger] placed(m, t, s, f)[i])
                || placed(m, t, s, f)[i] == f,
    decreases s.len(),
{
    broadcast use vstd::seq_lib::group_to_multiset_ensures;

    let p = placed(m, t, s, f);
    if s.len() == 0 || !later(sort_key(m, t, s.last()), sort_key(m, t, f)) {
        assert forall|i: int, j: int| 0 <= i < j < p.len() implies !later(
            sort_key(m, t, #[trigger] p[i]),
            sort_key(m, t, #[trigger] p[j]),
        ) by {
            if j == s.len() {
                if i < s.len() - 1 {
                    assert(!later(sort_key(m, t, s[i]), sort_key(m, t, s[s.len() - 1])));
                }
            }
        }
        assert forall|i: int| 0 <= i < p.len() implies s.contains(#[trigger] p[i]) || p[i] == f by {
            if i < s.len() {
                assert(s[i] == p[i]);
            }
        }
    } else {
        let d = s.drop_last();
        let q = placed(m, t, d, f);
        lemma_placed(m, t, d, f);
        assert(s =~= d.push(s.last()));
        assert forall|i: int| 0 <= i < p.len() implies s.contains(#[trigger] p[i]) || p[i] == f by {
            if i < q.len() {
                assert(p[i] == q[i]);
                if d.contains(q[i]) {
                    let k = choose|k: int| 0 <= k < d.len() && d[k] == q[i];
                    assert(s[k] == q[i]);
                }
            } else {
                assert(s[s.len() - 1] == p[i]);
            }
        }
        assert forall|i: int, j: int| 0 <= i < j < p.len() implies !later(
            sort_key(m, t, #[trigger] p[i]),
            sort_key(m, t, #[trigger] p[j]),
        ) by {
            if j < q.len() {
                assert(p[i] == q[i] && p[j] == q[j]);
            } else {
                assert(p[j] == s.last());
                assert(p[i] == q[i]);
                if d.contains(q[i]) {
                    let k = choose|k: int| 0 <= k < d.len() && d[k] == q[i];
                    assert(!later(sort_key(m, t, s[k]), sort_key(m, t, s[s.len() - 1])));
                }
            }
        }
        assert(p.to_multiset() =~= s.to_multiset().insert(f));
    }
}

/// Ordering faces by their keys keeps the faces and sorts them.
pub proof fn key_order_sorts(m: RawMesh, t: Seq<usize>, s: Seq<usize>)
    ensures
        sorted_by_key(m, t, in_key_order(m, t, s)),
        in_key_order(m, t, s).to_multiset() == s.to_multiset(),
    decreases s.len(),
{
    broadcast use vstd::seq_lib::group_to_multiset_ensures;

    if s.len() > 0 {
        let d = s.drop_last();
        key_order_sorts(m, t, d);
        lemma_placed(m, t, in_key_order(m, t, d), s.last());
        assert(s =~= d.push(s.last()));
    }
}

/// A pair of zones has a number of its own.
pub(crate) proof fn lemma_pair_is(a: int, b: int, c: int, d: int, n: int)
    requires
        0 <= a < n,
        0 <= b < n,
        0 <= c < n,
        0 <= d < n,
        pair_number(a, b, n) == pair_number(c, d, n),
    ensures
        (a == c && b == d) || (a == d && b == c),
{
    let (p, q) = if a < b {
        (a, b)
    } else {
        (b, a)
    };
    let (x, y) = if c < d {
        (c, d)
    } else {
        (d, c)
    };
    assert(p * n + q == x * n + y);
    assert(p == x) by (nonlinear_arith)
        requires
            p * n + q == x * n + y,
            0 <= q < n,
            0 <= y < n,
            0 <= p,
            0 <= x,
    ;
}

/// Where two regions meet, face `k` of one is face `k` of the other, seen from the
/// other side.
pub proof fn links_pair_by_number(
    m: RawMesh,
    t: Seq<usize>,
    n: usize,
    a: int,
    b: int,
    k: int,
)
    requires
        sound(m),
        t.len() == cell_count(m),
        forall|c: int| 0 <= c < t.len() ==> #[trigger] t[c] < n,
        n * n <= usize::MAX,
        0 <= a < n,
        0 <= b < n,
        a != b,
        0 <= k < link_sides(m, t, n, a, b).len(),
    ensures
        link_sides(m, t, n, b, a).len() == link_sides(m, t, n, a, b).len(),
        ({
            let x = link_sides(m, t, n, a, b)[k];
            let y = link_sides(m, t, n, b, a)[k];
            &&& x / 2 == y / 2
            &&& x % 2 != y % 2
            &&& t[side_cell(m, x) as int] == a
            &&& t[side_cell(m, y) as int] == b
            &&& side_loop(m, y) == reversed(side_loop(m, x))
        }),
{
    let keys = link_keys(m, t, n);
    let at = pair_number(a, b, n as int);
    assert(at == pair_number(b, a, n as int));
    let fs = bucket(keys, at, m.neighbour.len() as int);
    bucket_is_complete(keys, at, m.neighbour.len() as int);
    lemma_cells_in_range(m);
    let f = fs[k];
    assert(keys[f as int] == at);
    assert(0 <= m.owner[f as int] < cell_count(m));
    assert(0 <= m.neighbour[f as int] < cell_count(m));
    let p = t[m.owner[f as int] as int];
    let q = t[m.neighbour[f as int] as int];
    lemma_pair_number(p as int, q as int, n as int);
    lemma_pair_is(p as int, q as int, a, b, n as int);
    let x = link_sides(m, t, n, a, b)[k];
    let y = link_sides(m, t, n, b, a)[k];
    assert(x == if p == a { (2 * f) as usize } else { (2 * f + 1) as usize });
    assert(y == if p == b { (2 * f) as usize } else { (2 * f + 1) as usize });
    reversing_twice_is_nothing(m.faces[f as int]);
}

/// A cell keeps its place among the cells of its zone.
pub proof fn ranks_keep_order(t: Seq<usize>, a: int, b: int)
    requires
        0 <= a < b < t.len(),
        t[a] == t[b],
    ensures
        rank_of(t, a) < rank_of(t, b),
{
    lemma_bucket_grows(t, t[a] as int, a, b);
}

proof fn lemma_bucket_grows(t: Seq<usize>, z: int, a: int, b: int)
    requires
        0 <= a < b <= t.len(),
        t[a] == z,
    ensures
        bucket(t, z, a).len() < bucket(t, z, b).len(),
    decreases b - a,
{
    if a + 1 < b {
        lemma_bucket_grows(t, z, a, b - 1);
    }
}

/// A region keeps the order of a mesh: the owner of an internal face comes before
/// its neighbour, and the faces are in order of owner, then neighbour.
pub proof fn regions_keep_the_order(m: RawMesh, zones: Seq<Zone>, t: Seq<usize>, z: int)
    requires
        sound(m),
        zones.len() < usize::MAX,
        0 <= z < zones.len(),
        t.len() == cell_count(m),
        forall|f: int| 0 <= f < m.neighbour.len() ==> m.owner[f] < #[trigger] m.neighbour[f],
    ensures
        ({
            let r = region(m, zones, t, z);
            &&& r.neighbour.len() <= r.owner.len()
            &&& forall|f: int|
                0 <= f < r.neighbour.len() ==> r.owner[f] < #[trigger] r.neighbour[f]
            &&& order_fault(r) is None
        }),
{
    let n = zones.len() as usize;
    let r = region(m, zones, t, z);
    let keys = inner_keys(m, t, n);
    let raw_inner = bucket(keys, z, m.neighbour.len() as int);
    let inner = inner_faces(m, t, n, z);
    let sides = region_sides(m, zones, t, z);
    lemma_cells_in_range(m);
    key_order_sorts(m, t, raw_inner);
    bucket_is_complete(keys, z, m.neighbour.len() as int);
    broadcast use vstd::seq_lib::group_to_multiset_ensures;

    assert forall|i: int| 0 <= i < inner.len() implies #[trigger] inner[i] < m.neighbour.len()
        && keys[inner[i] as int] == z by {
        assert(inner.contains(inner[i]));
        assert(inner.to_multiset().count(inner[i]) > 0);
        assert(raw_inner.to_multiset().count(inner[i]) > 0);
        assert(raw_inner.contains(inner[i]));
        let k = choose|k: int| 0 <= k < raw_inner.len() && raw_inner[k] == inner[i];
        assert(raw_inner[k] < m.neighbour.len());
    }
    assert forall|f: int| 0 <= f < r.neighbour.len() implies r.owner[f] == sort_key(
        m,
        t,
        inner[f],
    ).0 && #[trigger] r.neighbour[f] == sort_key(m, t, inner[f]).1 && r.owner[f]
        < r.neighbour[f] by {
        let g = inner[f] as int;
        assert(inner[f] < m.neighbour.len());
        assert(sides[f] == own_sides(inner)[f]);
        assert(sides[f] == 2 * g);
        assert(side_cell(m, sides[f]) == m.owner[g]);
        assert(0 <= m.owner[g] < cell_count(m));
        assert(0 <= m.neighbour[g] < cell_count(m));
        assert(m.owner[g] < m.neighbour[g]);
        lemma_bucket_len(t, t[m.owner[g] as int] as int, m.owner[g] as int);
        lemma_bucket_len(t, t[m.neighbour[g] as int] as int, m.neighbour[g] as int);
        assert(keys[g] == z);
        assert(t[m.owner[g] as int] == t[m.neighbour[g] as int]);
        ranks_keep_order(t, m.owner[g] as int, m.neighbour[g] as int);
    }
    let bad = first(r.neighbour.len() as int, 1, unordered_in(r));
    if r.neighbour.len() > 0 {
        crate::list::lemma_first(r.neighbour.len() as int, 1, unordered_in(r));
        if bad < r.neighbour.len() {
            assert(unordered_in(r)(bad));
            assert(r.neighbour[bad] == sort_key(m, t, inner[bad]).1);
            assert(r.neighbour[bad - 1] == sort_key(m, t, inner[bad - 1]).1);
            assert(!later(sort_key(m, t, inner[bad - 1]), sort_key(m, t, inner[bad])));
        }
    }
}

/// Face `k` of a region, read through the region's points, is the face it came
/// from, read through the mesh's points.
pub proof fn regions_keep_the_points(
    m: RawMesh,
    zones: Seq<Zone>,
    t: Seq<usize>,
    z: int,
    k: int,
    i: int,
)
    requires
        m.points.len() <= i32::MAX,
        0 <= k < region_sides(m, zones, t, z).len(),
        0 <= i < side_loop(m, region_sides(m, zones, t, z)[k]).len(),
        used_points(loops_of(m, region_sides(m, zones, t, z))).len() <= i32::MAX,
    ensures
        ({
            let r = region(m, zones, t, z);
            r.points[r.faces[k][i] as int] == m.points[side_loop(
                m,
                region_sides(m, zones, t, z)[k],
            )[i] as int]
        }),
{
    let loops = loops_of(m, region_sides(m, zones, t, z));
    let all = flat(loops, loops.len() as int);
    let d = used_points(loops);
    lemma_flat_step(loops, k, i);
    lemma_distinct_is(all, all.len() as int);
    let v = loops[k][i];
    assert(d.contains(all[flat(loops, k).len() + i]));
    let at = choose|at: int| 0 <= at < d.len() && d[at] == v;
    lemma_place(d, at);
}

/// One that joins region `a` to a later one, over a face at least, under the names
/// of both.
pub open spec fn joins_two(j: Meeting, zones: Seq<Zone>) -> bool {
    &&& 0 <= j.region_a < j.region_b < zones.len()
    &&& j.patch_a == link_name(zones[j.region_a].name, zones[j.region_b].name)
    &&& j.patch_b == link_name(zones[j.region_b].name, zones[j.region_a].name)
    &&& j.n_faces > 0
}

proof fn lemma_meetings_with(m: RawMesh, zones: Seq<Zone>, t: Seq<usize>, a: int, b: int)
    requires
        0 <= a,
        b <= zones.len(),
    ensures
        forall|i: int|
            0 <= i < meetings_with(m, zones, t, a, b).len() ==> joins_two(
                #[trigger] meetings_with(m, zones, t, a, b)[i],
                zones,
            ),
    decreases b - a,
{
    if b > a + 1 {
        lemma_meetings_with(m, zones, t, a, b - 1);
        let s = meetings_with(m, zones, t, a, b);
        let h = meetings_with(m, zones, t, a, b - 1);
        assert forall|i: int| 0 <= i < s.len() implies joins_two(#[trigger] s[i], zones) by {
            if i < h.len() {
                assert(s[i] == h[i]);
            }
        }
    }
}

proof fn lemma_meetings(m: RawMesh, zones: Seq<Zone>, t: Seq<usize>, a: int)
    requires
        a <= zones.len(),
    ensures
        forall|i: int|
            0 <= i < meetings(m, zones, t, a).len() ==> joins_two(
                #[trigger] meetings(m, zones, t, a)[i],
                zones,
            ),
    decreases a,
{
    if a > 0 {
        lemma_meetings(m, zones, t, a - 1);
        lemma_meetings_with(m, zones, t, a - 1, zones.len() as int);
        let s = meetings(m, zones, t, a);
        let h = meetings(m, zones, t, a - 1);
        let w = meetings_with(m, zones, t, a - 1, zones.len() as int);
        assert forall|i: int| 0 <= i < s.len() implies joins_two(#[trigger] s[i], zones) by {
            if i < h.len() {
                assert(s[i] == h[i]);
            } else {
                assert(s[i] == w[i - h.len()]);
            }
        }
    }
}

/// Every interface of a split joins two regions, the earlier one first, over a face at
/// least, and its patches carry the names of both.
pub proof fn interfaces_join_two_regions(m: RawMesh, zones: Seq<Zone>, t: Seq<usize>, i: int)
    requires
        0 <= i < meetings(m, zones, t, zones.len() as int).len(),
    ensures
        joins_two(meetings(m, zones, t, zones.len() as int)[i], zones),
{
    lemma_meetings(m, zones, t, zones.len() as int);
}

} // verus!
