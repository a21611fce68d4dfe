//! What a mesh that is read holds: every face with its cells, in the patch that is named
//! for it, and every word of the file where it belongs.

use vstd::prelude::*;

use crate::error::Failure;
use crate::list::{
    all_buckets, bucket, bucket_is_complete, flat, flat_holds_every_list, lemma_first,
};
use crate::mesh::{
    as_cells, side_face, side_own, sides, table_row, HostMesh, Label, Patch, PatchKind, Vec3,
};
use crate::msh::{
    box_entity, by_cells, each_once, element_block, elements_of, face_key, face_patch,
    face_patches, first_tag, integer_in, integers, many, mesh_of, name_line, node_block,
    node_line, node_lines, numbers, patch_name, patch_numbers, shape_of, some_of, vertices_at,
    with_element, with_face, Around, ElemShape, Named, Nodes, Parts, Rec, Reel, Solid,
};
use crate::numeral::parsed;
use crate::polymesh::{
    addresses, beyond, boundary_in, cell_across, cell_count, count_at, covers, faces_in, labels_in,
    laid_out, mesh_in, partner_fault, partner_faults, partnered, patch_key, patch_named,
    patch_of_face, patches_from, points_in, MeshFiles, Partial, RawMesh, Written,
};
use crate::reader::raw_at;
use crate::scalar::Scalar;
use crate::tokenizer::Stream;
use crate::vtu::cell_faces;

verus! {

// --------------------------------------------------------------------------
//  Faces and patches
// --------------------------------------------------------------------------
/// A face has these vertices, in order.
pub open spec fn outlined(f: Seq<Label>, v: Seq<u32>) -> bool {
    f.len() == v.len() && forall|i: int| 0 <= i < v.len() ==> #[trigger] f[i] == v[i] as Label
}

/// Face `f` of a mesh is this internal face.
pub open spec fn is_inner(m: RawMesh, f: int, r: Rec) -> bool {
    &&& 0 <= f < m.neighbour.len()
    &&& outlined(m.faces[f], r.verts)
    &&& m.owner[f] == r.owner as Label
    &&& r.neighbour is Some
    &&& m.neighbour[f] == r.neighbour->Some_0 as Label
}

/// Face `j` of patch `k` is this boundary face.
pub open spec fn is_outer(m: RawMesh, k: int, j: int, r: Rec) -> bool {
    let f = m.neighbour.len() + m.patches[k].start + j;
    &&& 0 <= k < m.patches.len()
    &&& 0 <= j < m.patches[k].size
    &&& m.neighbour.len() <= f < m.faces.len()
    &&& outlined(m.faces[f], r.verts)
    &&& m.owner[f] == r.owner as Label
    &&& r.neighbour is None
}

proof fn lemma_some_of(r: Seq<Rec>, n: int, inner: bool)
    requires
        0 <= n <= r.len(),
    ensures
        some_of(r, n, inner).len() <= n,
        forall|x: Rec|
            #![trigger some_of(r, n, inner).contains(x)]
            some_of(r, n, inner).contains(x) <==> (exists|a: int|
                0 <= a < n && #[trigger] r[a] == x && (x.neighbour is Some) == inner),
    decreases n,
{
    if n > 0 {
        lemma_some_of(r, n - 1, inner);
        let s = some_of(r, n - 1, inner);
        let t = some_of(r, n, inner);
        assert forall|x: Rec| #![trigger t.contains(x)] t.contains(x) <==> (exists|a: int|
            0 <= a < n && #[trigger] r[a] == x && (x.neighbour is Some) == inner) by {
            if t.contains(x) {
                let i = choose|i: int| 0 <= i < t.len() && t[i] == x;
                if i < s.len() {
                    assert(s[i] == x);
                    assert(s.contains(x));
                } else {
                    assert(r[n - 1] == x);
                }
            }
            if exists|a: int| 0 <= a < n && #[trigger] r[a] == x && (x.neighbour is Some) == inner {
                let a = choose|a: int|
                    0 <= a < n && #[trigger] r[a] == x && (x.neighbour is Some) == inner;
                if a < n - 1 {
                    assert(s.contains(x));
                    let i = choose|i: int| 0 <= i < s.len() && s[i] == x;
                    assert(t[i] == x);
                } else {
                    assert(t[t.len() - 1] == x);
                }
            }
        }
    }
}

proof fn lemma_with_face(s: Seq<Rec>, f: Rec, x: Rec)
    ensures
        with_face(s, f).contains(x) <==> (s.contains(x) || x == f),
        with_face(s, f).len() == s.len() + 1,
    decreases s.len(),
{
    let t = with_face(s, f);
    if s.len() == 0 || !crate::msh::behind(s.last(), f) {
        assert(t[t.len() - 1] == f);
        if s.contains(x) {
            let i = choose|i: int| 0 <= i < s.len() && s[i] == x;
            assert(t[i] == x);
        }
    } else {
        let rest = s.drop_last();
        lemma_with_face(rest, f, x);
        let u = with_face(rest, f);
        assert(t[t.len() - 1] == s.last());
        if u.contains(x) {
            let i = choose|i: int| 0 <= i < u.len() && u[i] == x;
            assert(t[i] == x);
        }
        if t.contains(x) {
            let i = choose|i: int| 0 <= i < t.len() && t[i] == x;
            if i < u.len() {
                assert(u[i] == x);
            }
        }
        if s.contains(x) {
            let i = choose|i: int| 0 <= i < s.len() && s[i] == x;
            if i < rest.len() {
                assert(rest[i] == x);
            }
        }
        if rest.contains(x) {
            let i = choose|i: int| 0 <= i < rest.len() && rest[i] == x;
            assert(s[i] == x);
        }
    }
}

proof fn lemma_by_cells(s: Seq<Rec>, x: Rec)
    ensures
        by_cells(s).contains(x) <==> s.contains(x),
        by_cells(s).len() == s.len(),
    decreases s.len(),
{
    if s.len() > 0 {
        let rest = s.drop_last();
        lemma_by_cells(rest, x);
        lemma_with_face(by_cells(rest), s.last(), x);
        if s.contains(x) {
            let i = choose|i: int| 0 <= i < s.len() && s[i] == x;
            if i < rest.len() {
                assert(rest[i] == x);
            }
        }
        if rest.contains(x) {
            let i = choose|i: int| 0 <= i < rest.len() && rest[i] == x;
            assert(s[i] == x);
        }
        assert(s[s.len() - 1] == s.last());
    }
}

proof fn lemma_each_once(v: Seq<Seq<char>>, n: int)
    requires
        0 <= n <= v.len(),
    ensures
        each_once(v, n).len() <= n,
        forall|i: int| 0 <= i < n ==> each_once(v, n).contains(#[trigger] v[i]),
        forall|i: int, j: int|
            0 <= i < j < each_once(v, n).len() ==> each_once(v, n)[i] != each_once(v, n)[j],
    decreases n,
{
    if n > 0 {
        lemma_each_once(v, n - 1);
        let s = each_once(v, n - 1);
        let t = each_once(v, n);
        assert forall|i: int| 0 <= i < n implies t.contains(#[trigger] v[i]) by {
            if i < n - 1 {
                assert(s.contains(v[i]));
                let j = choose|j: int| 0 <= j < s.len() && s[j] == v[i];
                assert(t[j] == v[i]);
            } else if !s.contains(v[n - 1]) {
                assert(t[t.len() - 1] == v[n - 1]);
            }
        }
        assert forall|i: int, j: int| 0 <= i < j < t.len() implies t[i] != t[j] by {
            if t.len() > s.len() && j == t.len() - 1 {
                assert(s[i] == t[i]);
            }
        }
    }
}

/// A face that two cells have is in the mesh, with its vertices in the order of the cell
/// that has it first, and that cell for its owner.
pub proof fn faces_of_two_cells_are_internal(
    points: Seq<Vec3>,
    recs: Seq<Rec>,
    names: Map<u128, Seq<char>>,
    a: int,
)
    requires
        0 <= a < recs.len(),
        recs[a].neighbour is Some,
    ensures
        exists|f: int| #[trigger] is_inner(mesh_of(points, recs, names), f, recs[a]),
{
    let r = recs[a];
    let s = some_of(recs, recs.len() as int, true);
    let inner = by_cells(s);
    lemma_some_of(recs, recs.len() as int, true);
    assert(s.contains(r));
    lemma_by_cells(s, r);
    let f = choose|f: int| 0 <= f < inner.len() && inner[f] == r;
    assert(is_inner(mesh_of(points, recs, names), f, r));
}

/// And no other face is internal.
pub proof fn internal_faces_have_two_cells(
    points: Seq<Vec3>,
    recs: Seq<Rec>,
    names: Map<u128, Seq<char>>,
    f: int,
)
    requires
        0 <= f < mesh_of(points, recs, names).neighbour.len(),
    ensures
        exists|a: int|
            0 <= a < recs.len() && is_inner(mesh_of(points, recs, names), f, #[trigger] recs[a]),
{
    let s = some_of(recs, recs.len() as int, true);
    let inner = by_cells(s);
    let r = inner[f];
    lemma_some_of(recs, recs.len() as int, true);
    lemma_by_cells(s, r);
    assert(inner.contains(r));
    assert(s.contains(r));
    let a = choose|a: int| 0 <= a < recs.len() && recs[a] == r && r.neighbour is Some;
    assert(is_inner(mesh_of(points, recs, names), f, recs[a]));
}

/// What a boundary face's patch is called: as the surface was named that has the same
/// vertices, or `defaultFaces`.
pub open spec fn called(name: Seq<char>, verts: Seq<u32>, names: Map<u128, Seq<char>>) -> bool {
    &&& names.contains_key(face_key(verts)) ==> name == names[face_key(verts)]
    &&& !names.contains_key(face_key(verts)) ==> name == "defaultFaces"@
}

spec fn outer_of(recs: Seq<Rec>) -> Seq<Rec> {
    some_of(recs, recs.len() as int, false)
}

spec fn groups_of(recs: Seq<Rec>, names: Map<u128, Seq<char>>) -> Seq<Seq<usize>> {
    let patch = face_patches(outer_of(recs), names);
    let order = each_once(patch, patch.len() as int);
    all_buckets(patch_numbers(patch, order), order.len())
}

proof fn lemma_groups(recs: Seq<Rec>, names: Map<u128, Seq<char>>)
    requires
        recs.len() <= usize::MAX,
    ensures
        ({
            let outer = outer_of(recs);
            let patch = face_patches(outer, names);
            let order = each_once(patch, patch.len() as int);
            let keys = patch_numbers(patch, order);
            &&& outer.len() <= recs.len()
            &&& order.len() <= outer.len()
            &&& keys.len() == outer.len()
            &&& groups_of(recs, names).len() == order.len()
            &&& forall|i: int|
                0 <= i < outer.len() ==> #[trigger] keys[i] < order.len() && order[keys[i] as int]
                    == face_patch(outer[i], names)
        }),
{
    lemma_some_of(recs, recs.len() as int, false);
    let outer = outer_of(recs);
    let patch = face_patches(outer, names);
    let order = each_once(patch, patch.len() as int);
    let keys = patch_numbers(patch, order);
    lemma_each_once(patch, patch.len() as int);
    assert forall|i: int| 0 <= i < outer.len() implies #[trigger] keys[i] < order.len()
        && order[keys[i] as int] == face_patch(outer[i], names) by {
        assert(order.contains(patch[i]));
        let at = order.index_of(patch[i]);
        assert(0 <= at < order.len() && order[at] == patch[i]);
        assert(keys[i] == at as usize);
    }
}

/// Member `j` of group `k` is a boundary face of its patch.
proof fn lemma_member(
    points: Seq<Vec3>,
    recs: Seq<Rec>,
    names: Map<u128, Seq<char>>,
    k: int,
    j: int,
)
    requires
        recs.len() <= usize::MAX,
        0 <= k < groups_of(recs, names).len(),
        0 <= j < groups_of(recs, names)[k].len(),
    ensures
        ({
            let m = mesh_of(points, recs, names);
            let i = groups_of(recs, names)[k][j];
            &&& i < outer_of(recs).len()
            &&& outer_of(recs).contains(outer_of(recs)[i as int])
            &&& is_outer(m, k, j, outer_of(recs)[i as int])
            &&& called(m.patches[k].name, outer_of(recs)[i as int].verts, names)
        }),
{
    let m = mesh_of(points, recs, names);
    let outer = outer_of(recs);
    let patch = face_patches(outer, names);
    let order = each_once(patch, patch.len() as int);
    let keys = patch_numbers(patch, order);
    let groups = groups_of(recs, names);
    let placed = flat(groups, groups.len() as int);
    let i = groups[k][j];
    lemma_groups(recs, names);
    lemma_some_of(recs, recs.len() as int, false);
    bucket_is_complete(keys, k, keys.len() as int);
    assert(groups[k] == bucket(keys, k, keys.len() as int));
    assert(i < outer.len() && keys[i as int] == k);
    flat_holds_every_list(groups, k, groups.len() as int);
    let at = flat(groups, k).len() as int;
    assert(placed.subrange(at, flat(groups, k + 1).len() as int)[j] == groups[k][j]);
    assert(placed[at + j] == i);
    assert(outer.contains(outer[i as int]));
    let inner = m.neighbour.len() as int;
    assert(m.patches[k].start == at && m.patches[k].size == groups[k].len());
    assert(m.faces[inner + at + j] == crate::msh::labels_of(outer[i as int].verts));
    assert(m.owner[inner + at + j] == outer[i as int].owner as Label);
}

/// A face that one cell has is on the boundary, in the patch that is named for it.
pub proof fn faces_of_one_cell_are_in_their_patch(
    points: Seq<Vec3>,
    recs: Seq<Rec>,
    names: Map<u128, Seq<char>>,
    a: int,
)
    requires
        recs.len() <= usize::MAX,
        0 <= a < recs.len(),
        recs[a].neighbour is None,
    ensures
        exists|k: int, j: int|
            #[trigger] is_outer(mesh_of(points, recs, names), k, j, recs[a]) && called(
                mesh_of(points, recs, names).patches[k].name,
                recs[a].verts,
                names,
            ),
{
    let outer = outer_of(recs);
    let patch = face_patches(outer, names);
    let order = each_once(patch, patch.len() as int);
    let keys = patch_numbers(patch, order);
    let groups = groups_of(recs, names);
    lemma_groups(recs, names);
    lemma_some_of(recs, recs.len() as int, false);
    assert(outer.contains(recs[a]));
    let i = choose|i: int| 0 <= i < outer.len() && outer[i] == recs[a];
    let k = keys[i] as int;
    bucket_is_complete(keys, k, keys.len() as int);
    assert(groups[k] == bucket(keys, k, keys.len() as int));
    assert(groups[k].contains(i as usize));
    let j = choose|j: int| 0 <= j < groups[k].len() && groups[k][j] == i as usize;
    lemma_member(points, recs, names, k, j);
    assert(is_outer(mesh_of(points, recs, names), k, j, recs[a]));
}

/// And every face of a patch is a face that one cell has, and that is named for the patch.
pub proof fn patches_hold_what_is_named_for_them(
    points: Seq<Vec3>,
    recs: Seq<Rec>,
    names: Map<u128, Seq<char>>,
    k: int,
    j: int,
)
    requires
        recs.len() <= usize::MAX,
        0 <= k < mesh_of(points, recs, names).patches.len(),
        0 <= j < mesh_of(points, recs, names).patches[k].size,
    ensures
        exists|a: int|
            0 <= a < recs.len() && is_outer(
                mesh_of(points, recs, names),
                k,
                j,
                #[trigger] recs[a],
            ) && called(mesh_of(points, recs, names).patches[k].name, recs[a].verts, names),
{
    lemma_groups(recs, names);
    lemma_some_of(recs, recs.len() as int, false);
    lemma_member(points, recs, names, k, j);
    let r = outer_of(recs)[groups_of(recs, names)[k][j] as int];
    assert(outer_of(recs).contains(r));
    let a = choose|a: int| 0 <= a < recs.len() && recs[a] == r && !(r.neighbour is Some);
    assert(is_outer(mesh_of(points, recs, names), k, j, recs[a]));
}

/// The points are as they were, and the patches are plain ones, each with a name of its own.
pub proof fn patches_of_an_element_file_are_plain(
    points: Seq<Vec3>,
    recs: Seq<Rec>,
    names: Map<u128, Seq<char>>,
)
    ensures
        ({
            let m = mesh_of(points, recs, names);
            &&& m.points == points
            &&& m.owner.len() == m.faces.len()
            &&& m.neighbour.len() <= m.faces.len()
            &&& forall|k: int|
                0 <= k < m.patches.len() ==> (#[trigger] m.patches[k]).patch_type == "patch"@
                    && m.patches[k].kind == PatchKind::Generic && m.patches[k].nbr_patch is None
            &&& forall|k: int, l: int|
                0 <= k < l < m.patches.len() ==> (#[trigger] m.patches[k]).name != (
                #[trigger] m.patches[l]).name
        }),
{
    let patch = face_patches(outer_of(recs), names);
    lemma_each_once(patch, patch.len() as int);
}

// --------------------------------------------------------------------------
//  Words of an element file
// --------------------------------------------------------------------------
/// Word `at` is a number.
pub open spec fn is_number_at(s: Reel, at: int, v: Scalar) -> bool {
    0 <= at < s.toks.len() && parsed(s.toks[at]) == Some(v)
}

proof fn lemma_numbers(s: Reel, n: int)
    ensures
        many(s, n, numbers()) matches Ok((v, e)) ==> {
            &&& v.len() == (if n > 0 { n } else { 0 })
            &&& e == s.pos + v.len()
            &&& forall|i: int|
                0 <= i < v.len() ==> is_number_at(s, s.pos + i, #[trigger] v[i])
        },
    decreases n,
{
    assert(numbers()(s) == s.number());
    if n > 0 {
        match s.number() {
            Ok((x, e)) => {
                lemma_numbers(s.to(e), n - 1);
                match many(s.to(e), n - 1, numbers()) {
                    Ok((w, _)) => {
                        let v = seq![x] + w;
                        assert(many(s, n, numbers())->Ok_0.0 == v);
                        assert forall|i: int| 0 <= i < v.len() implies is_number_at(
                            s,
                            s.pos + i,
                            #[trigger] v[i],
                        ) by {
                            if i > 0 {
                                assert(v[i] == w[i - 1]);
                                assert(is_number_at(s.to(e), e + (i - 1), w[i - 1]));
                            }
                        }
                    },
                    Err(_) => {},
                }
            },
            Err(_) => {},
        }
    }
}

/// A node stands where its three words say: the first is its `x`, the next its `y` and the
/// third its `z`. Its tag leads to it, and what was read before stays.
pub proof fn nodes_keep_their_coordinates(s: Reel, tag: i64, extra: int, st: Nodes)
    requires
        node_line(s, tag, extra, st) is Ok,
        st.points.len() <= u32::MAX,
    ensures
        ({
            let nx = node_line(s, tag, extra, st)->Ok_0.0;
            let n = st.points.len() as int;
            &&& nx.points.len() == n + 1
            &&& nx.points.take(n) == st.points
            &&& is_number_at(s, s.pos, nx.points[n].x)
            &&& is_number_at(s, s.pos + 1, nx.points[n].y)
            &&& is_number_at(s, s.pos + 2, nx.points[n].z)
            &&& nx.index.contains_key(tag) && nx.index[tag] == n
            &&& forall|t: i64| #[trigger]
                st.index.contains_key(t) ==> nx.index.contains_key(t) && nx.index[t] == st.index[t]
            &&& node_line(s, tag, extra, st)->Ok_0.1 == s.pos + 3 + (if extra > 0 {
                extra
            } else {
                0
            })
        }),
{
    lemma_numbers(s, 3);
    let (c, a) = many(s, 3, numbers())->Ok_0;
    lemma_numbers(s.to(a), extra);
    let nx = node_line(s, tag, extra, st)->Ok_0.0;
    assert(nx.points.take(st.points.len() as int) =~= st.points);
    assert(is_number_at(s, s.pos + 0, c[0]));
    assert(is_number_at(s, s.pos + 1, c[1]));
    assert(is_number_at(s, s.pos + 2, c[2]));
}

/// Word `at` is an integer.
pub open spec fn is_integer_at(s: Reel, at: int, v: i64) -> bool {
    &&& 0 <= at < s.toks.len()
    &&& integer_in(s.toks[at]) matches Some(n)
    &&& n as i64 == v
}

proof fn lemma_integers(s: Reel, n: int)
    ensures
        many(s, n, integers()) matches Ok((v, e)) ==> {
            &&& v.len() == (if n > 0 { n } else { 0 })
            &&& e == s.pos + v.len()
            &&& forall|i: int| 0 <= i < v.len() ==> is_integer_at(s, s.pos + i, #[trigger] v[i])
        },
    decreases n,
{
    assert(integers()(s) == s.integer());
    if n > 0 {
        match s.integer() {
            Ok((x, e)) => {
                lemma_integers(s.to(e), n - 1);
                match many(s.to(e), n - 1, integers()) {
                    Ok((w, _)) => {
                        let v = seq![x] + w;
                        assert(many(s, n, integers())->Ok_0.0 == v);
                        assert forall|i: int| 0 <= i < v.len() implies is_integer_at(
                            s,
                            s.pos + i,
                            #[trigger] v[i],
                        ) by {
                            if i > 0 {
                                assert(v[i] == w[i - 1]);
                                assert(is_integer_at(s.to(e), e + (i - 1), w[i - 1]));
                            }
                        }
                    },
                    Err(_) => {},
                }
            },
            Err(_) => {},
        }
    }
}

/// A named group is given by its dimension, its tag and its name, in this order.
pub proof fn groups_are_given_by_dimension_tag_and_name(s: Reel)
    requires
        name_line(s) is Ok,
    ensures
        ({
            let (n, e) = name_line(s)->Ok_0;
            &&& is_integer_at(s, s.pos, n.dim)
            &&& is_integer_at(s, s.pos + 1, n.tag)
            &&& n.name == s.toks[s.pos + 2]
            &&& e == s.pos + 3
        }),
{
}

/// A surface is given by its tag, the six numbers of its box, and then by how many groups it
/// is in and by their tags; the first of them is the one that counts.
pub proof fn surfaces_are_given_by_tag_box_and_groups(s: Reel)
    requires
        box_entity(s) is Ok,
    ensures
        ({
            let (tag, groups) = box_entity(s)->Ok_0.0;
            let n = groups.len() as int;
            &&& is_integer_at(s, s.pos, tag)
            &&& n > 0 ==> is_integer_at(s, s.pos + 7, n as i64)
            &&& forall|i: int|
                0 <= i < n ==> is_integer_at(s, s.pos + 8 + i, #[trigger] groups[i])
            &&& n > 0 ==> first_tag(groups) == Some(groups[0])
            &&& n == 0 ==> first_tag(groups) is None
        }),
{
    let (tag, a) = s.integer()->Ok_0;
    lemma_numbers(s.to(a), 6);
    let b = many(s.to(a), 6, numbers())->Ok_0.1;
    let (k, c) = s.to(b).integer()->Ok_0;
    lemma_integers(s.to(c), k as int);
    let groups = box_entity(s)->Ok_0.0.1;
    assert forall|i: int| 0 <= i < groups.len() implies is_integer_at(
        s,
        s.pos + 8 + i,
        #[trigger] groups[i],
    ) by {
        assert(is_integer_at(s.to(c), c + i, groups[i]));
    }
}

/// The head of a block of elements is a dimension, an entity, a type and a number. The
/// elements are of the type, as many as the number, and named for the entity's group of the
/// dimension.
pub proof fn blocks_are_headed_by_what_they_hold(s: Reel, w: Around, st: Parts)
    requires
        element_block(s, w, st) is Ok,
    ensures
        ({
            let ((nx, k), e) = element_block(s, w, st)->Ok_0;
            exists|dim: i64, entity: i64, kind: i64, n: i64|
                {
                    &&& is_integer_at(s, s.pos, dim)
                    &&& is_integer_at(s, s.pos + 1, entity)
                    &&& is_integer_at(s, s.pos + 2, kind)
                    &&& #[trigger] is_integer_at(s, s.pos + 3, n)
                    &&& k == n
                    &&& shape_of(kind) is Some
                    &&& elements_of(
                        s.to(s.pos + 4),
                        n as int,
                        shape_of(kind)->Some_0,
                        #[trigger] patch_name(
                            shape_of(kind)->Some_0,
                            dim,
                            entity,
                            w.surfaces,
                            w.names,
                        ),
                        w.index,
                        st,
                    ) == Ok::<_, Failure>((nx, e))
                }
        }),
{
    lemma_integers(s, 4);
    let (h, a) = many(s, 4, integers())->Ok_0;
    assert(is_integer_at(s, s.pos + 0, h[0]));
    assert(is_integer_at(s, s.pos + 1, h[1]));
    assert(is_integer_at(s, s.pos + 2, h[2]));
    assert(is_integer_at(s, s.pos + 3, h[3]));
    let name = patch_name(shape_of(h[2])->Some_0, h[0], h[1], w.surfaces, w.names);
    assert(s.to(a) == s.to(s.pos + 4));
}

proof fn lemma_node_lines(s: Reel, tags: Seq<i64>, i: int, extra: int, st: Nodes)
    requires
        0 <= i <= tags.len(),
        node_lines(s, tags, i, extra, st) is Ok,
        st.points.len() + tags.len() - i <= u32::MAX,
    ensures
        ({
            let nx = node_lines(s, tags, i, extra, st)->Ok_0.0;
            let n = st.points.len() as int;
            &&& nx.points.len() == n + tags.len() - i
            &&& nx.points.take(n) == st.points
            &&& forall|t: i64| #[trigger] st.index.contains_key(t) ==> leads_to(nx, t, st.index[t])
            &&& forall|j: int|
                i <= j < tags.len() ==> leads_to(nx, #[trigger] tags[j], (n + j - i) as u32)
        }),
    decreases tags.len() - i,
{
    let nx = node_lines(s, tags, i, extra, st)->Ok_0.0;
    let n = st.points.len() as int;
    if i < tags.len() {
        nodes_keep_their_coordinates(s, tags[i], extra, st);
        let (mid, e) = node_line(s, tags[i], extra, st)->Ok_0;
        lemma_node_lines(s.to(e), tags, i + 1, extra, mid);
        assert(nx.points.take(n) =~= nx.points.take(n + 1).take(n));
        assert forall|t: i64| #[trigger] st.index.contains_key(t) implies leads_to(
            nx,
            t,
            st.index[t],
        ) by {
            assert(mid.index.contains_key(t));
            assert(leads_to(nx, t, mid.index[t]));
        }
        assert forall|j: int| i <= j < tags.len() implies leads_to(
            nx,
            #[trigger] tags[j],
            (n + j - i) as u32,
        ) by {
            if j == i {
                assert(mid.index.contains_key(tags[i]));
                assert(leads_to(nx, tags[i], mid.index[tags[i]]));
            }
        }
    } else {
        assert(nx.points.take(n) =~= st.points);
    }
}

/// A node's tag leads to its number.
pub open spec fn leads_to(st: Nodes, tag: i64, number: u32) -> bool {
    st.index.contains_key(tag) && st.index[tag] == number
}

/// The fourth word of a block of nodes says how many there are, and the words behind it are
/// their tags: tag `j` leads to node `j` of the block, behind those that were read before.
pub proof fn blocks_number_their_nodes(s: Reel, st: Nodes, n: i64)
    requires
        node_block(s, st) is Ok,
        is_integer_at(s, s.pos + 3, n),
        0 <= n,
        st.points.len() + n <= u32::MAX,
    ensures
        ({
            let nx = node_block(s, st)->Ok_0.0;
            let m = st.points.len() as int;
            &&& nx.points.len() == m + n
            &&& nx.points.take(m) == st.points
            &&& forall|j: int, t: i64|
                0 <= j < n && #[trigger] is_integer_at(s, s.pos + 4 + j, t) ==> leads_to(
                    nx,
                    t,
                    (m + j) as u32,
                )
        }),
{
    lemma_integers(s, 4);
    let (h, a) = many(s, 4, integers())->Ok_0;
    assert(is_integer_at(s, s.pos + 3, h[3]));
    assert(h[3] == n);
    lemma_integers(s.to(a), n as int);
    let (tags, b) = many(s.to(a), n as int, integers())->Ok_0;
    let extra = if h[2] != 0 { h[0] as int } else { 0 };
    lemma_node_lines(s.to(b), tags, 0, extra, st);
    let nx = node_block(s, st)->Ok_0.0;
    let m = st.points.len() as int;
    assert forall|j: int, t: i64|
        0 <= j < n && #[trigger] is_integer_at(s, s.pos + 4 + j, t) implies leads_to(
        nx,
        t,
        (m + j) as u32,
    ) by {
        assert(is_integer_at(s.to(a), a + j, tags[j]));
        assert(tags[j] == t);
    }
}

/// Word `at` is the tag of a node.
pub open spec fn is_tag_at(s: Reel, at: int, node: u32, index: Map<i64, u32>) -> bool {
    &&& 0 <= at < s.toks.len()
    &&& integer_in(s.toks[at]) matches Some(t)
    &&& index.contains_key(t as i64)
    &&& index[t as i64] == node
}

/// Vertex `i` of an element is the node whose tag is word `i`.
pub proof fn elements_keep_the_order_of_their_nodes(s: Reel, n: int, index: Map<i64, u32>)
    requires
        0 <= n,
        vertices_at(s, n, index) is Ok,
    ensures
        vertices_at(s, n, index)->Ok_0.0.len() == n,
        vertices_at(s, n, index)->Ok_0.1 == s.pos + n,
        forall|i: int|
            0 <= i < n ==> is_tag_at(
                s,
                s.pos + i,
                #[trigger] vertices_at(s, n, index)->Ok_0.0[i],
                index,
            ),
    decreases n,
{
    if n > 0 {
        let (t, a) = s.integer()->Ok_0;
        let r = s.to(a);
        elements_keep_the_order_of_their_nodes(r, n - 1, index);
        let w = vertices_at(r, n - 1, index)->Ok_0.0;
        let v = vertices_at(s, n, index)->Ok_0.0;
        assert(v == seq![index[t]] + w);
        assert forall|i: int| 0 <= i < n implies is_tag_at(
            s,
            s.pos + i,
            #[trigger] v[i],
            index,
        ) by {
            if i > 0 {
                assert(v[i] == w[i - 1]);
                assert(is_tag_at(r, r.pos + (i - 1), w[i - 1], index));
            }
        }
    }
}

/// A cell is of a shape.
pub open spec fn is_of(c: Solid, shape: ElemShape) -> bool {
    shape matches ElemShape::Cell(kind, _) && c.kind == kind && c.verts.len() == shape.nodes()
}

/// A name stays.
pub open spec fn keeps_name(st: Parts, nx: Parts, key: u128) -> bool {
    nx.names.contains_key(key) && nx.names[key] == st.names[key]
}

/// The elements of a block are what its head says: as many cells of its type, or names for
/// faces that have none yet, all of them the name of the block's group.
pub proof fn blocks_add_their_elements(
    s: Reel,
    n: int,
    shape: ElemShape,
    patch: Option<Seq<char>>,
    index: Map<i64, u32>,
    st: Parts,
)
    requires
        0 <= n,
        elements_of(s, n, shape, patch, index, st) is Ok,
    ensures
        ({
            let nx = elements_of(s, n, shape, patch, index, st)->Ok_0.0;
            let k = st.cells.len() as int;
            &&& nx.cells.len() == k + (if shape is Cell { n } else { 0 })
            &&& nx.cells.take(k) == st.cells
            &&& forall|i: int|
                k <= i < nx.cells.len() ==> is_of(#[trigger] nx.cells[i], shape)
            &&& forall|key: u128| #[trigger]
                st.names.contains_key(key) ==> keeps_name(st, nx, key)
            &&& forall|key: u128| #[trigger]
                nx.names.contains_key(key) ==> st.names.contains_key(key) || (shape is Surface
                    && patch == Some(nx.names[key]))
        }),
    decreases n,
{
    let nx = elements_of(s, n, shape, patch, index, st)->Ok_0.0;
    let k = st.cells.len() as int;
    if n > 0 {
        let (_, a) = s.integer()->Ok_0;
        let (v, e) = vertices_at(s.to(a), shape.nodes() as int, index)->Ok_0;
        elements_keep_the_order_of_their_nodes(s.to(a), shape.nodes() as int, index);
        let mid = with_element(st, shape, patch, v);
        blocks_add_their_elements(s.to(e), n - 1, shape, patch, index, mid);
        assert(nx == elements_of(s.to(e), n - 1, shape, patch, index, mid)->Ok_0.0);
        assert(mid.cells.take(k) =~= st.cells);
        assert forall|key: u128| #[trigger] st.names.contains_key(key) implies keeps_name(
            st,
            nx,
            key,
        ) by {
            assert(mid.names.contains_key(key));
            assert(keeps_name(mid, nx, key));
        }
        assert forall|key: u128| #[trigger] nx.names.contains_key(key) implies (
        st.names.contains_key(key) || (shape is Surface && patch == Some(nx.names[key]))) by {
            if mid.names.contains_key(key) {
                assert(keeps_name(mid, nx, key));
            }
        }
        assert(nx.cells.take(k) =~= nx.cells.take(mid.cells.len() as int).take(k));
        if shape is Cell {
            assert(nx.cells[k] == nx.cells.take(mid.cells.len() as int)[k]);
        }
    } else {
        assert(nx.cells.take(k) =~= st.cells);
    }
}

/// A surface element names the face it lies on, unless an earlier one has.
pub proof fn surfaces_name_their_faces(st: Parts, n: usize, name: Seq<char>, v: Seq<u32>)
    ensures
        ({
            let nx = with_element(st, ElemShape::Surface(n), Some(name), v);
            &&& nx.cells == st.cells
            &&& nx.names.contains_key(face_key(v))
            &&& st.names.contains_key(face_key(v)) ==> nx.names == st.names
            &&& !st.names.contains_key(face_key(v)) ==> nx.names[face_key(v)] == name
        }),
{
}

/// The elements of a surface are named as the last group of the surface's dimension and
/// first tag is.
pub proof fn patches_are_named_by_their_group(
    n: usize,
    dim: i64,
    entity: i64,
    surfaces: Map<i64, Option<i64>>,
    names: Seq<Named>,
    i: int,
)
    requires
        surfaces.contains_key(entity),
        surfaces[entity] is Some,
        0 <= i < names.len(),
        names[i].dim == dim && names[i].tag == surfaces[entity]->Some_0,
        forall|j: int|
            i < j < names.len() ==> (#[trigger] names[j]).dim != dim || names[j].tag
                != surfaces[entity]->Some_0,
    ensures
        patch_name(ElemShape::Surface(n), dim, entity, surfaces, names) == Some(names[i].name),
    decreases names.len(),
{
    if i < names.len() - 1 {
        assert(names.last() == names[names.len() - 1]);
        let rest = names.drop_last();
        assert forall|j: int| i < j < rest.len() implies (#[trigger] rest[j]).dim != dim
            || rest[j].tag != surfaces[entity]->Some_0 by {
            assert(rest[j] == names[j]);
        }
        patches_are_named_by_their_group(n, dim, entity, surfaces, rest, i);
    }
}

/// A group without a name names nothing.
pub proof fn nameless_groups_name_nothing(
    n: usize,
    dim: i64,
    entity: i64,
    surfaces: Map<i64, Option<i64>>,
    names: Seq<Named>,
)
    requires
        surfaces.contains_key(entity) && surfaces[entity] is Some ==> forall|j: int|
            0 <= j < names.len() ==> (#[trigger] names[j]).dim != dim || names[j].tag
                != surfaces[entity]->Some_0,
    ensures
        patch_name(ElemShape::Surface(n), dim, entity, surfaces, names) is None,
    decreases names.len(),
{
    if names.len() > 0 && surfaces.contains_key(entity) && surfaces[entity] is Some {
        assert(names.last() == names[names.len() - 1]);
        let rest = names.drop_last();
        assert forall|j: int| 0 <= j < rest.len() implies (#[trigger] rest[j]).dim != dim
            || rest[j].tag != surfaces[entity]->Some_0 by {
            assert(rest[j] == names[j]);
        }
        nameless_groups_name_nothing(n, dim, entity, surfaces, rest);
    }
}

// --------------------------------------------------------------------------
//  Patches of a stored mesh
// --------------------------------------------------------------------------
/// A key of a patch says what it is called: `nFaces` how many faces there are, `startFace`
/// which is the first, `type` the type and `neighbourPatch` the partner. What other keys
/// said stays.
pub proof fn keys_say_what_they_are_called(s: Stream, p: Partial)
    requires
        s.ahead(0) is Some,
        !(s.ahead(0)->Some_0 is Punct),
        !s.to(s.pos + 1).is_punct('{'),
        patch_key(s, p) is Ok,
    ensures
        ({
            let key = s.ahead(0)->Some_0.text();
            let v = s.to(s.pos + 1);
            let (q, e) = patch_key(s, p)->Ok_0;
            &&& if key == "nFaces"@ {
                count_at(v) == Ok::<_, Failure>((q.n_faces->Some_0, e))
                    && q.n_faces is Some
            } else {
                q.n_faces == p.n_faces
            }
            &&& if key == "startFace"@ {
                count_at(v) == Ok::<_, Failure>((q.start_face->Some_0, e))
                    && q.start_face is Some
            } else {
                q.start_face == p.start_face
            }
            &&& if key == "type"@ {
                raw_at(v, Seq::empty()) == Ok::<_, Failure>((q.patch_type, e))
            } else {
                q.patch_type == p.patch_type
            }
            &&& if key == "neighbourPatch"@ {
                raw_at(v, Seq::empty()) == Ok::<_, Failure>((q.neighbour_patch, e))
            } else {
                q.neighbour_patch == p.neighbour_patch
            }
        }),
{
    reveal_strlit("nFaces");
    reveal_strlit("startFace");
    reveal_strlit("type");
    reveal_strlit("neighbourPatch");
    assert("nFaces"@.len() == 6 && "startFace"@.len() == 9);
    assert("type"@.len() == 4 && "neighbourPatch"@.len() == 14);
}

proof fn lemma_laid_out(w: Seq<Written>, i: int, at: int, inner: int, faces: int)
    requires
        0 <= i <= w.len(),
        laid_out(w, i, at, inner, faces) is Ok,
    ensures
        ({
            let p = laid_out(w, i, at, inner, faces)->Ok_0;
            &&& p.len() == w.len() - i
            &&& forall|k: int|
                0 <= k < p.len() ==> p[k].nbr_patch is None && carries(
                    #[trigger] p[k],
                    w[i + k],
                    inner,
                )
        }),
    decreases w.len() - i,
{
    lemma_types();
    if i < w.len() {
        lemma_laid_out(w, i + 1, at + w[i].n_faces, inner, faces);
        let rest = laid_out(w, i + 1, at + w[i].n_faces, inner, faces)->Ok_0;
        let p = laid_out(w, i, at, inner, faces)->Ok_0;
        assert forall|k: int| 0 <= k < p.len() implies p[k].nbr_patch is None && carries(
            #[trigger] p[k],
            w[i + k],
            inner,
        ) by {
            if k > 0 {
                assert(p[k] == rest[k - 1]);
                assert(carries(rest[k - 1], w[i + 1 + (k - 1)], inner));
            }
        }
    }
}

/// A patch has the name, the type and the faces that its entry says, counted from the first
/// boundary face; a `cyclic` and an `empty` patch are of kinds of their own.
pub open spec fn carries(p: Patch, w: Written, inner: int) -> bool {
    &&& p.name == w.name
    &&& p.patch_type == w.patch_type
    &&& p.start + inner == w.start_face
    &&& p.size == w.n_faces
    &&& (p.kind == PatchKind::Cyclic) == (w.patch_type == "cyclic"@)
    &&& (p.kind == PatchKind::Empty) == (w.patch_type == "empty"@)
}

proof fn lemma_types()
    ensures
        "cyclic"@ != "empty"@,
{
    reveal_strlit("cyclic");
    reveal_strlit("empty");
    assert("cyclic"@.len() == 6 && "empty"@.len() == 5);
}

proof fn lemma_no_fault(p: Seq<Patch>, w: Seq<Written>, i: int, k: int)
    requires
        0 <= i <= k < p.len(),
        partner_faults(p, w, i) is None,
    ensures
        partner_fault(p, w, k) is None,
    decreases k - i,
{
    if i < k {
        lemma_no_fault(p, w, i + 1, k);
    }
}

proof fn lemma_named(p: Seq<Patch>, name: Seq<char>)
    ensures
        0 <= patch_named(p, name) <= p.len(),
        patch_named(p, name) < p.len() ==> p[patch_named(p, name)].name == name,
{
    lemma_first(p.len() as int, 0, |i: int| p[i].name == name);
}

/// A patch that is read is what its entry says. A cyclic one has a partner: the patch of
/// the name that the entry gives, with as many faces. No other patch has one.
pub proof fn patches_are_what_their_entries_say(w: Seq<Written>, inner: int, faces: int, k: int)
    requires
        patches_from(w, inner, faces) is Ok,
        w.len() <= usize::MAX,
        0 <= k < w.len(),
    ensures
        ({
            let p = patches_from(w, inner, faces)->Ok_0;
            &&& p.len() == w.len()
            &&& carries(p[k], w[k], inner)
            &&& w[k].patch_type != "cyclic"@ ==> p[k].nbr_patch is None
            &&& w[k].patch_type == "cyclic"@ ==> {
                let q = p[k].nbr_patch->Some_0 as int;
                &&& p[k].nbr_patch is Some
                &&& 0 <= q < p.len()
                &&& p[q].name == w[k].neighbour_patch
                &&& p[q].size == p[k].size
            }
        }),
{
    let laid = laid_out(w, 0, inner, inner, faces)->Ok_0;
    let p = patches_from(w, inner, faces)->Ok_0;
    lemma_types();
    lemma_laid_out(w, 0, inner, inner, faces);
    assert(carries(laid[k], w[0 + k], inner));
    assert(p[k] == partnered(laid, w, k));
    lemma_no_fault(laid, w, 0, k);
    if laid[k].kind == PatchKind::Cyclic {
        lemma_named(laid, w[k].neighbour_patch);
        let q = patch_named(laid, w[k].neighbour_patch);
        assert(0 <= q < laid.len());
        assert(p[q] == partnered(laid, w, q));
    }
}

proof fn lemma_patch_of_face(p: Seq<Patch>, n: int, i: int, k: int)
    requires
        0 <= k < n <= p.len(),
        covers(p[k], i),
        forall|l: int| 0 <= l < p.len() && l != k ==> !covers(#[trigger] p[l], i),
    ensures
        patch_of_face(p, n, i) == k,
    decreases n,
{
    if k < n - 1 {
        assert(!covers(p[n - 1], i));
        lemma_patch_of_face(p, n - 1, i, k);
    }
}

proof fn lemma_nothing_across(p: Seq<Patch>, cells: Seq<Label>, n: int, i: int)
    requires
        0 <= n <= p.len(),
        forall|l: int|
            0 <= l < p.len() && covers(#[trigger] p[l], i) ==> p[l].kind != PatchKind::Cyclic,
    ensures
        cell_across(p, cells, n, i) == -1,
    decreases n,
{
    if n > 0 {
        lemma_nothing_across(p, cells, n - 1, i);
    }
}

/// A boundary face of an addressed mesh knows the one patch that covers it, the kind of the
/// patch, the cell behind it, and the cell across it: of a cyclic patch the cell behind the
/// partner's face of the same number, and otherwise none.
pub proof fn boundary_faces_know_their_patch(h: HostMesh, m: RawMesh, i: int, k: int)
    requires
        addresses(h, m),
        m.owner.len() == m.faces.len(),
        m.neighbour.len() <= m.faces.len(),
        m.patches.len() <= i32::MAX,
        0 <= i < m.faces.len() - m.neighbour.len(),
        0 <= k < m.patches.len(),
        covers(m.patches[k], i),
        forall|l: int| 0 <= l < m.patches.len() && l != k ==> !covers(#[trigger] m.patches[l], i),
        m.patches[k].kind == PatchKind::Cyclic ==> m.patches[k].nbr_patch is Some,
    ensures
        ({
            let p = m.patches[k];
            let inner = m.neighbour.len() as int;
            &&& h.b_patch@[i] == k
            &&& h.b_kind@[i] == match p.kind {
                PatchKind::Generic => 0,
                PatchKind::Cyclic => 1,
                PatchKind::Empty => 2int,
            }
            &&& h.b_face_cells@[i] == m.owner[inner + i]
            &&& p.kind != PatchKind::Cyclic ==> h.b_nbr_cell@[i] == -1
            &&& p.kind == PatchKind::Cyclic && 0 <= m.patches[p.nbr_patch->Some_0 as int].start + i
                - p.start < m.owner.len() - inner ==> h.b_nbr_cell@[i] == m.owner[inner
                + m.patches[p.nbr_patch->Some_0 as int].start + (i - p.start)]
        }),
{
    let n = m.patches.len() as int;
    let inner = m.neighbour.len() as int;
    let cells = m.owner.skip(inner);
    lemma_patch_of_face(m.patches, n, i, k);
    if m.patches[k].kind == PatchKind::Cyclic {
        crate::polymesh::cyclic_faces_pair_by_number(m.patches, cells, n, k, i);
    } else {
        lemma_nothing_across(m.patches, cells, n, i);
    }
}

/// A mesh that is read holds what its five files hold, each in its place: as many owners as
/// faces, and no more neighbours.
pub proof fn meshes_hold_their_files(m: MeshFiles)
    requires
        mesh_in(m) is Ok,
    ensures
        ({
            let r = mesh_in(m)->Ok_0;
            &&& points_in(m.points.text@, m.points.path@) == Ok::<_, Failure>(r.points)
            &&& faces_in(m.faces.text@, m.faces.path@) == Ok::<_, Failure>(r.faces)
            &&& labels_in(m.owner.text@, m.owner.path@) == Ok::<_, Failure>(r.owner)
            &&& labels_in(m.neighbour.text@, m.neighbour.path@) == Ok::<_, Failure>(r.neighbour)
            &&& boundary_in(m.boundary.text@, m.boundary.path@) is Ok
            &&& r.patches.len() == boundary_in(m.boundary.text@, m.boundary.path@)->Ok_0.len()
            &&& r.owner.len() == r.faces.len()
            &&& r.neighbour.len() <= r.faces.len()
        }),
{
    let w = boundary_in(m.boundary.text@, m.boundary.path@)->Ok_0;
    let r = mesh_in(m)->Ok_0;
    lemma_laid_out(
        w,
        0,
        r.neighbour.len() as int,
        r.neighbour.len() as int,
        r.faces.len() as int,
    );
}

proof fn lemma_beyond(v: Seq<Label>, n: int)
    requires
        0 <= n <= v.len(),
    ensures
        beyond(v, n) >= 0,
        forall|i: int| 0 <= i < n ==> #[trigger] v[i] < beyond(v, n),
        beyond(v, n) > 0 ==> exists|i: int| 0 <= i < n && #[trigger] v[i] == beyond(v, n) - 1,
    decreases n,
{
    if n > 0 {
        lemma_beyond(v, n - 1);
        if beyond(v, n) != beyond(v, n - 1) {
            assert(v[n - 1] == beyond(v, n) - 1);
        }
    }
}

/// A mesh has as many cells as its faces speak of: every cell that is named is one of them,
/// and the last one is named.
pub proof fn cells_are_those_that_are_named(m: RawMesh)
    ensures
        forall|f: int| 0 <= f < m.owner.len() ==> #[trigger] m.owner[f] < cell_count(m),
        forall|f: int| 0 <= f < m.neighbour.len() ==> #[trigger] m.neighbour[f] < cell_count(m),
        cell_count(m) > 0 ==> (exists|f: int|
            0 <= f < m.owner.len() && #[trigger] m.owner[f] == cell_count(m) - 1) || (exists|
            f: int,
        | 0 <= f < m.neighbour.len() && #[trigger] m.neighbour[f] == cell_count(m) - 1),
{
    lemma_beyond(m.owner, m.owner.len() as int);
    lemma_beyond(m.neighbour, m.neighbour.len() as int);
}

// --------------------------------------------------------------------------
//  Cells and their faces
// --------------------------------------------------------------------------
/// Entry `j` of a mesh's lists of internal faces is a face of cell `c`, seen from the side
/// that it says.
pub open spec fn lists_face(h: HostMesh, c: int, j: int) -> bool {
    let f = h.cf_face@[j] as int;
    &&& 0 <= f < h.n_internal_faces
    &&& h.cf_own@[j] == 1 || h.cf_own@[j] == 0
    &&& h.cf_own@[j] == 1 ==> h.owner@[f] == c
    &&& h.cf_own@[j] == 0 ==> h.neighbour@[f] == c
}

proof fn lemma_row(h: HostMesh, c: int)
    requires
        h.addressed(),
        h.mapped(),
        0 <= c < h.n_cells,
    ensures
        ({
            let cs = h.rows_of_sides();
            let all = flat(cs, cs.len() as int);
            let s = sides(h.owner@, h.neighbour@);
            &&& cs.len() == h.n_cells
            &&& all.len() == h.cf_face.len() && all.len() == h.cf_own.len()
            &&& 0 <= h.cf_offset@[c] <= h.cf_offset@[c + 1] <= all.len()
            &&& cs[c] == bucket(s, c, s.len() as int)
            &&& all.subrange(h.cf_offset@[c] as int, h.cf_offset@[c + 1] as int) == cs[c]
        }),
{
    let cs = h.rows_of_sides();
    table_row(h.cf_offset@, flat(cs, cs.len() as int), cs, c);
}

/// Every internal face that is listed for a cell is a face of the cell.
pub proof fn cells_list_their_own_faces(h: HostMesh, c: int, j: int)
    requires
        h.addressed(),
        h.mapped(),
        0 <= c < h.n_cells,
        h.cf_offset@[c] <= j < h.cf_offset@[c + 1],
    ensures
        lists_face(h, c, j),
{
    let cs = h.rows_of_sides();
    let all = flat(cs, cs.len() as int);
    let s = sides(h.owner@, h.neighbour@);
    lemma_row(h, c);
    bucket_is_complete(s, c, s.len() as int);
    let i = j - h.cf_offset@[c];
    assert(cs[c][i] == all[j]);
    let x = all[j];
    assert(x < s.len() && s[x as int] == c);
    assert(h.cf_face@[j] == side_face(x) && h.cf_own@[j] == side_own(x));
}

/// And every internal face is listed for its owner, as the owner's, and for its neighbour.
pub proof fn faces_are_listed_for_their_cells(h: HostMesh, f: int, own: bool)
    requires
        h.addressed(),
        h.mapped(),
        0 <= f < h.n_internal_faces,
    ensures
        ({
            let c = if own { h.owner@[f] as int } else { h.neighbour@[f] as int };
            exists|j: int|
                h.cf_offset@[c] <= j < h.cf_offset@[c + 1] && #[trigger] h.cf_face@[j] == f
                    && h.cf_own@[j] == (if own { 1int } else { 0 })
        }),
{
    let c = if own { h.owner@[f] as int } else { h.neighbour@[f] as int };
    let cs = h.rows_of_sides();
    let all = flat(cs, cs.len() as int);
    let s = sides(h.owner@, h.neighbour@);
    let x = 2 * f + (if own { 0int } else { 1 });
    lemma_row(h, c);
    bucket_is_complete(s, c, s.len() as int);
    assert(x / 2 == f && x % 2 == (if own { 0int } else { 1 }));
    assert(s[x] == c);
    assert(cs[c].contains(x as usize));
    let i = choose|i: int| 0 <= i < cs[c].len() && cs[c][i] == x as usize;
    let j = h.cf_offset@[c] + i;
    assert(all.subrange(h.cf_offset@[c] as int, h.cf_offset@[c + 1] as int)[i] == all[j]);
    assert(all[j] == x as usize);
    assert(h.cf_face@[j] == side_face(x as usize) && h.cf_own@[j] == side_own(x as usize));
    assert(h.cf_face@[j] == f);
}

/// The boundary faces that are listed for a cell are those that lie on it.
pub proof fn cells_list_their_boundary_faces(h: HostMesh, c: int, f: int)
    requires
        h.addressed(),
        h.mapped(),
        0 <= c < h.n_cells,
        0 <= f < h.n_boundary_faces,
    ensures
        (h.b_face_cells@[f] == c) <==> (exists|j: int|
            h.bcf_offset@[c] <= j < h.bcf_offset@[c + 1] && #[trigger] h.bcf_face@[j] == f),
{
    let bs = h.rows_of_boundary();
    let all = flat(bs, bs.len() as int);
    let s = as_cells(h.b_face_cells@);
    table_row(h.bcf_offset@, all, bs, c);
    assert(bs[c] == bucket(s, c, s.len() as int));
    bucket_is_complete(s, c, s.len() as int);
    let a = h.bcf_offset@[c] as int;
    let e = h.bcf_offset@[c + 1] as int;
    if h.b_face_cells@[f] == c {
        assert(s[f] == c);
        assert(bs[c].contains(f as usize));
        let i = choose|i: int| 0 <= i < bs[c].len() && bs[c][i] == f as usize;
        assert(all.subrange(a, e)[i] == all[a + i]);
        assert(h.bcf_face@[a + i] == all[a + i] as Label);
        assert(h.bcf_face@[a + i] == f);
    }
    if exists|j: int| a <= j < e && #[trigger] h.bcf_face@[j] == f {
        let j = choose|j: int| a <= j < e && #[trigger] h.bcf_face@[j] == f;
        assert(all.subrange(a, e)[j - a] == all[j]);
        assert(bs[c][j - a] == all[j]);
        assert(all[j] < s.len() && s[all[j] as int] == c);
        assert(h.bcf_face@[j] == all[j] as Label);
        assert(all[j] == f);
    }
}

/// A face that is drawn for a cell is a face of the cell, and is turned outward only where
/// the cell is its owner: the owner's side of an internal face, and every boundary face.
pub proof fn drawn_faces_point_outward(h: HostMesh, c: int, k: int)
    requires
        h.addressed(),
        h.mapped(),
        0 <= c < h.n_cells,
        0 <= k < cell_faces(h, c).len(),
    ensures
        ({
            let s = cell_faces(h, c)[k];
            &&& s.boundary ==> s.outward && s.face < h.n_boundary_faces && h.b_face_cells@[s.face as int]
                == c
            &&& !s.boundary ==> s.face < h.n_internal_faces && (if s.outward {
                h.owner@[s.face as int] == c
            } else {
                h.neighbour@[s.face as int] == c
            })
        }),
{
    let a = h.cf_offset@[c] as int;
    let n = h.cf_offset@[c + 1] - a;
    lemma_row(h, c);
    if k < n {
        cells_list_their_own_faces(h, c, a + k);
    } else {
        let bs = h.rows_of_boundary();
        let all = flat(bs, bs.len() as int);
        let s = as_cells(h.b_face_cells@);
        table_row(h.bcf_offset@, all, bs, c);
        assert(bs[c] == bucket(s, c, s.len() as int));
        bucket_is_complete(s, c, s.len() as int);
        let b = h.bcf_offset@[c] as int;
        let e = h.bcf_offset@[c + 1] as int;
        let j = b + (k - n);
        assert(all.subrange(b, e)[j - b] == all[j]);
        assert(bs[c][j - b] == all[j]);
        assert(all[j] < s.len() && s[all[j] as int] == c);
        assert(h.bcf_face@[j] == all[j] as Label);
    }
}

} // verus!
