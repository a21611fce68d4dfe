//! What a scene and a series show: every face of the boundary that has an area, in two
//! triangles; every grid of every step; and every number in its place.

use vstd::prelude::*;

use crate::digits::pointed;
use crate::mesh::Vec3;
use crate::output_types::{FieldValues, OutputField};
use crate::scalar::Scalar;
use crate::text::decimal;
use crate::usda::{
    corner, drawn, extent_line_text, extent_text, field_line_text, frame_line_text, frames_text,
    listed, number_item, scene_text, source_text, subset_block_text,
    subsets_text, surface_points, surface_text, time_text, triangle_corner, vector_item,
    vector_text, volume_text, volumes_text, PatchSubset, Quad, SceneSpec, SurfaceOut, VdbFrame,
    VdbSource, VolumeAsset,
};
use crate::vtu::{data_set_text, data_sets, series_text, turned};
use crate::vtu_laws::{has_text, lemma_in_either, lemma_itself};
use crate::writer::{
    after_step, foam_file, frames_are_kept, grid_names, one_series_each, six_digits, step_file,
    under, with_frame, with_frames, FoamField, FrameView, UsdaWriter,
};

verus! {

// --------------------------------------------------------------------------
//  Surfaces
// --------------------------------------------------------------------------
/// The faces that are drawn are those with an area, each once and in order.
pub proof fn faces_with_an_area_are_drawn(q: Seq<Quad>, n: int)
    requires
        0 <= n <= q.len(),
    ensures
        forall|i: int, j: int| 0 <= i < j < drawn(q, n).len() ==> drawn(q, n)[i] < drawn(q, n)[j],
        forall|i: int|
            0 <= i < drawn(q, n).len() ==> 0 <= #[trigger] drawn(q, n)[i] < n && (Scalar {
                bits: 0,
            }).less(q[drawn(q, n)[i]].area),
        forall|f: int|
            0 <= f < n && (Scalar { bits: 0 }).less((#[trigger] q[f]).area) ==> drawn(
                q,
                n,
            ).contains(f),
    decreases n,
{
    if n > 0 {
        faces_with_an_area_are_drawn(q, n - 1);
        let s = drawn(q, n - 1);
        let t = drawn(q, n);
        assert forall|f: int|
            0 <= f < n && (Scalar { bits: 0 }).less((#[trigger] q[f]).area) implies t.contains(
            f,
        ) by {
            if f < n - 1 {
                assert(s.contains(f));
                let i = choose|i: int| 0 <= i < s.len() && s[i] == f;
                assert(t[i] == f);
            } else {
                assert(t[t.len() - 1] == f);
            }
        }
    }
}

/// A face that is drawn makes two triangles, with its corners `0 1 2` and `0 2 3`: they lie
/// on either side of a diagonal, and go round as the face does.
pub proof fn squares_are_cut_along_a_diagonal(q: Seq<Quad>, d: Seq<int>, k: int)
    requires
        0 <= k < d.len() <= 0x3fff_ffff,
        0 <= d[k] < q.len(),
    ensures
        ({
            let p = surface_points(q, d);
            let f = q[d[k]];
            &&& p.len() == 4 * d.len()
            &&& p[triangle_corner(6 * k) as int] == f.p0
            &&& p[triangle_corner(6 * k + 1) as int] == f.p1
            &&& p[triangle_corner(6 * k + 2) as int] == f.p2
            &&& p[triangle_corner(6 * k + 3) as int] == f.p0
            &&& p[triangle_corner(6 * k + 4) as int] == f.p2
            &&& p[triangle_corner(6 * k + 5) as int] == f.p3
        }),
{
    let p = surface_points(q, d);
    assert forall|i: int| 0 <= i < 6 implies (6 * k + i) / 6 == k && (#[trigger] (6 * k + i)) % 6
        == i by {}
    assert((6 * k + 0) / 6 == k && (6 * k + 0) % 6 == 0);
    assert(triangle_corner(6 * k) == 4 * k);
    assert(triangle_corner(6 * k + 1) == 4 * k + 1);
    assert(triangle_corner(6 * k + 2) == 4 * k + 2);
    assert(triangle_corner(6 * k + 3) == 4 * k);
    assert(triangle_corner(6 * k + 4) == 4 * k + 2);
    assert(triangle_corner(6 * k + 5) == 4 * k + 3);
    assert((4 * k) / 4 == k && (4 * k) % 4 == 0);
    assert((4 * k + 1) / 4 == k && (4 * k + 1) % 4 == 1);
    assert((4 * k + 2) / 4 == k && (4 * k + 2) % 4 == 2);
    assert((4 * k + 3) / 4 == k && (4 * k + 3) % 4 == 3);
    assert(p[4 * k] == corner(q, d, 4 * k));
    assert(p[4 * k + 1] == corner(q, d, 4 * k + 1));
    assert(p[4 * k + 2] == corner(q, d, 4 * k + 2));
    assert(p[4 * k + 3] == corner(q, d, 4 * k + 3));
}

// --------------------------------------------------------------------------
//  Text
// --------------------------------------------------------------------------
/// Three numbers in brackets.
pub open spec fn triple(x: Scalar, y: Scalar, z: Scalar) -> Seq<char> {
    "("@ + pointed(x) + ", "@ + pointed(y) + ", "@ + pointed(z) + ")"@
}

/// The line of a box: its lower corner, and then its upper one.
pub open spec fn box_line(lo: Vec3, hi: Vec3) -> Seq<char> {
    "    float3[] extent = ["@ + triple(lo.x, lo.y, lo.z) + ", "@ + triple(hi.x, hi.y, hi.z)
        + "]\n"@
}

/// The line of a file: the time, and then the file.
pub open spec fn frame_line(f: VdbFrame) -> Seq<char> {
    "            "@ + time_text(f.time) + ": @"@ + f.path@ + "@,\n"@
}

proof fn lemma_frame(f: Seq<VdbFrame>, n: int, i: int)
    requires
        0 <= i < n <= f.len(),
    ensures
        has_text(frames_text(f, n), frame_line(f[i])),
    decreases n,
{
    broadcast use lemma_in_either;

    if i < n - 1 {
        lemma_frame(f, n - 1, i);
    } else {
        lemma_itself(frame_line(f[i]));
        assert(frame_line_text(time_text(f[i].time), f[i].path@) == frame_line(f[i]));
    }
}

proof fn lemma_source(v: VdbSource, t: Seq<char>)
    requires
        v matches VdbSource::Series(f) && has_text(frames_text(f@, f.len() as int), t),
    ensures
        has_text(source_text(v), t),
{
    broadcast use lemma_in_either;

}

/// What stands in the source of a volume, or in its extent, stands in the volume.
proof fn lemma_volume(v: VolumeAsset, t: Seq<char>)
    requires
        has_text(source_text(v.vdb), t) || has_text(extent_text(v.extent), t),
    ensures
        has_text(volume_text(v), t),
{
    broadcast use lemma_in_either;

}

proof fn lemma_volumes(v: Seq<VolumeAsset>, n: int, k: int, t: Seq<char>)
    requires
        0 <= k < n <= v.len(),
        has_text(volume_text(v[k]), t),
    ensures
        has_text(volumes_text(v, n), t),
    decreases n,
{
    broadcast use lemma_in_either;

    if k < n - 1 {
        lemma_volumes(v, n - 1, k, t);
    }
}

proof fn lemma_scene(s: SceneSpec, k: int, t: Seq<char>)
    requires
        0 <= k < s.volumes.len(),
        has_text(volume_text(s.volumes@[k]), t),
    ensures
        has_text(scene_text(s), t),
{
    broadcast use lemma_in_either;

    lemma_volumes(s.volumes@, s.volumes.len() as int, k, t);
}

/// A scene says of every volume which file holds it at which time.
pub proof fn scenes_name_the_file_of_every_time(s: SceneSpec, k: int, i: int)
    requires
        0 <= k < s.volumes.len(),
        s.volumes@[k].vdb is Series,
        0 <= i < s.volumes@[k].vdb->Series_0.len(),
    ensures
        has_text(scene_text(s), frame_line(s.volumes@[k].vdb->Series_0@[i])),
{
    let v = s.volumes@[k];
    let f = v.vdb->Series_0;
    lemma_frame(f@, f.len() as int, i);
    lemma_source(v.vdb, frame_line(f@[i]));
    lemma_volume(v, frame_line(f@[i]));
    lemma_scene(s, k, frame_line(f@[i]));
}

/// A volume of one file is said to be that file.
pub proof fn scenes_name_the_only_file(s: SceneSpec, k: int)
    requires
        0 <= k < s.volumes.len(),
        s.volumes@[k].vdb is Single,
    ensures
        has_text(
            scene_text(s),
            "        asset filePath = @"@ + s.volumes@[k].vdb->Single_0@ + "@\n"@,
        ),
{
    let v = s.volumes@[k];
    let t = "        asset filePath = @"@ + v.vdb->Single_0@ + "@\n"@;
    lemma_itself(t);
    assert(source_text(v.vdb) == t);
    lemma_volume(v, t);
    lemma_scene(s, k, t);
}

/// The extent of a volume is in the scene, from its lower corner to its upper one.
pub proof fn scenes_give_the_extents(s: SceneSpec, k: int)
    requires
        0 <= k < s.volumes.len(),
        s.volumes@[k].extent is Some,
    ensures
        ({
            let (lo, hi) = s.volumes@[k].extent->Some_0;
            has_text(scene_text(s), box_line(lo, hi))
        }),
{
    let v = s.volumes@[k];
    let (lo, hi) = v.extent->Some_0;
    lemma_itself(box_line(lo, hi));
    assert(extent_text(v.extent) == box_line(lo, hi));
    lemma_volume(v, box_line(lo, hi));
    lemma_scene(s, k, box_line(lo, hi));
}

/// The head of a volume names it, points at the asset below it, and names the grid.
pub proof fn scenes_name_their_grids(s: SceneSpec, k: int)
    requires
        0 <= k < s.volumes.len(),
    ensures
        ({
            let v = s.volumes@[k];
            let name = v.name@;
            let field = v.field_name@;
            &&& has_text(scene_text(s), "def Volume \""@ + name + "\"\n"@)
            &&& has_text(
                scene_text(s),
                "    rel field:"@ + field + " = </"@ + name + "/"@ + field + ">\n\n"@,
            )
            &&& has_text(scene_text(s), "        token fieldName = \""@ + field + "\"\n"@)
        }),
{
    let v = s.volumes@[k];
    lemma_volume_head(v);
    lemma_scene(s, k, "def Volume \""@ + v.name@ + "\"\n"@);
    lemma_scene(
        s,
        k,
        "    rel field:"@ + v.field_name@ + " = </"@ + v.name@ + "/"@ + v.field_name@ + ">\n\n"@,
    );
    lemma_scene(s, k, "        token fieldName = \""@ + v.field_name@ + "\"\n"@);
}

proof fn lemma_volume_head(v: VolumeAsset)
    ensures
        has_text(volume_text(v), "def Volume \""@ + v.name@ + "\"\n"@),
        has_text(
            volume_text(v),
            "    rel field:"@ + v.field_name@ + " = </"@ + v.name@ + "/"@ + v.field_name@ + ">\n\n"@,
        ),
        has_text(volume_text(v), "        token fieldName = \""@ + v.field_name@ + "\"\n"@),
{
    broadcast use lemma_in_either;

    let a = "def Volume \""@ + v.name@ + "\"\n"@;
    let b = "    rel field:"@ + v.field_name@ + " = </"@ + v.name@ + "/"@ + v.field_name@
        + ">\n\n"@;
    let c = "        token fieldName = \""@ + v.field_name@ + "\"\n"@;
    lemma_itself(a);
    lemma_itself(b);
    lemma_itself(c);
    assert(field_line_text(v.field_name@, v.name@) == b);
    let front = a + "{\n"@ + extent_text(v.extent) + b + "    def OpenVDBAsset \""@
        + v.field_name@ + "\"\n"@ + "    {\n"@ + source_text(v.vdb);
    assert(has_text(front, a) && has_text(front, b));
    assert(volume_text(v) =~= front + c + "    }\n"@ + "}\n"@);
    assert(has_text(front + c, c));
    assert(has_text(front + c, a) && has_text(front + c, b));
}

proof fn lemma_listed(n: int, item: spec_fn(int) -> Seq<char>, i: int)
    requires
        0 <= i < n,
    ensures
        has_text(listed(n, item), item(i)),
    decreases n,
{
    broadcast use lemma_in_either;

    if i < n - 1 {
        lemma_listed(n - 1, item, i);
    } else {
        lemma_itself(item(i));
    }
}

/// Every point of a surface is listed, with its three coordinates in order.
pub proof fn points_are_listed_with_their_coordinates(v: Seq<Vec3>, i: int)
    requires
        0 <= i < v.len(),
    ensures
        has_text(
            listed(v.len() as int, vector_item(v)),
            triple(v[i].x, v[i].y, v[i].z),
        ),
{
    lemma_listed(v.len() as int, vector_item(v), i);
    assert(vector_item(v)(i) == triple(v[i].x, v[i].y, v[i].z));
}

/// The lists of a surface: its points, how many corners its faces have, and which.
pub proof fn surfaces_show_their_lists(s: SurfaceOut)
    ensures
        ({
            let t = surface_text(s);
            let c = s.face_vertex_counts@;
            let i = s.face_vertex_indices@;
            &&& has_text(
                t,
                "    point3f[] points = ["@ + listed(s.points.len() as int, vector_item(s.points@))
                    + "]\n"@,
            )
            &&& has_text(
                t,
                "    int[] faceVertexCounts = ["@ + listed(c.len() as int, number_item(c)) + "]\n"@,
            )
            &&& has_text(
                t,
                "    int[] faceVertexIndices = ["@ + listed(i.len() as int, number_item(i))
                    + "]\n"@,
            )
            &&& has_text(t, box_line(s.extent.0, s.extent.1))
        }),
{
    broadcast use lemma_in_either;

    let c = s.face_vertex_counts@;
    let i = s.face_vertex_indices@;
    let lp = listed(s.points.len() as int, vector_item(s.points@));
    let lc = listed(c.len() as int, number_item(c));
    let li = listed(i.len() as int, number_item(i));
    let a = "    point3f[] points = ["@ + lp + "]\n"@;
    let b = "    int[] faceVertexCounts = ["@ + lc + "]\n"@;
    let d = "    int[] faceVertexIndices = ["@ + li + "]\n"@;
    let e = box_line(s.extent.0, s.extent.1);
    lemma_itself(a);
    lemma_itself(b);
    lemma_itself(d);
    lemma_itself(e);
    let h = "def Mesh \"boundary\"\n"@ + "{\n"@
        + "    uniform token subsetFamily:materialBind:familyType = \"partition\"\n"@;
    let f = h + a + b + d + e;
    assert(has_text(f, a) && has_text(f, b) && has_text(f, d) && has_text(f, e));
    let rest = subsets_text(s.patches@, s.patches.len() as int) + "}\n"@;
    assert(extent_line_text(vector_text(s.extent.0), vector_text(s.extent.1)) == e);
    assert(surface_text(s) =~= f + rest);
}

/// A named part of a surface and the numbers of its triangles.
pub open spec fn subset_lines(p: PatchSubset) -> Seq<char> {
    let i = p.face_indices@;
    "\n    def GeomSubset \""@ + p.name@
        + "\"\n    {\n        uniform token elementType = \"face\"\n        uniform token familyName = \"materialBind\"\n        int[] indices = ["@
        + listed(i.len() as int, number_item(i)) + "]\n    }\n"@
}

/// The triangles of every patch are listed under the patch's name.
pub proof fn subsets_are_shown_under_their_name(p: Seq<PatchSubset>, n: int, k: int)
    requires
        0 <= k < n <= p.len(),
    ensures
        has_text(subsets_text(p, n), subset_lines(p[k])),
    decreases n,
{
    broadcast use lemma_in_either;

    let i = p[k].face_indices@;
    if k < n - 1 {
        subsets_are_shown_under_their_name(p, n - 1, k);
    } else {
        lemma_itself(subset_lines(p[k]));
        assert(subset_block_text(p[k].name@, listed(i.len() as int, number_item(i)))
            == subset_lines(p[k]));
    }
}

/// The numbers of a list are written in decimal.
pub proof fn numbers_are_listed(v: Seq<u32>, i: int)
    requires
        0 <= i < v.len(),
    ensures
        has_text(listed(v.len() as int, number_item(v)), decimal(v[i] as nat)),
{
    lemma_listed(v.len() as int, number_item(v), i);
    assert(number_item(v)(i) == decimal(v[i] as nat));
}

// --------------------------------------------------------------------------
//  Series
// --------------------------------------------------------------------------
/// The line of a file of a series: its time, and its path with slashes.
pub open spec fn dated_line(time: Scalar, file: Seq<char>) -> Seq<char> {
    "    <DataSet timestep=\""@ + crate::digits::shown(time) + "\" part=\"0\" file=\""@
        + file.map_values(|c: char| if c == '\\' { '/' } else { c }) + "\"/>\n"@
}

proof fn lemma_data_set(series: Seq<(Scalar, String)>, n: int, k: int, t: Seq<char>)
    requires
        0 <= k < n <= series.len(),
        t == dated_line(series[k].0, series[k].1@),
    ensures
        has_text(data_sets(series, n), t),
    decreases n,
{
    broadcast use lemma_in_either;

    if k < n - 1 {
        lemma_data_set(series, n - 1, k, t);
    } else {
        lemma_itself(t);
        assert(data_set_text(crate::digits::shown(series[k].0), turned(series[k].1@)) =~= t);
    }
}

/// A series shows for every time the file that holds it.
pub proof fn series_show_every_time(series: Seq<(Scalar, String)>, k: int)
    requires
        0 <= k < series.len(),
    ensures
        has_text(series_text(series), dated_line(series[k].0, series[k].1@)),
{
    broadcast use lemma_in_either;

    lemma_data_set(series, series.len() as int, k, dated_line(series[k].0, series[k].1@));
}

/// The last frame of a grid.
pub open spec fn ends_with(s: Seq<(Seq<char>, Seq<FrameView>)>, name: Seq<char>, f: FrameView) -> bool {
    exists|i: int|
        0 <= i < s.len() && (#[trigger] s[i]).0 == name && s[i].1.len() > 0 && s[i].1.last() == f
}

proof fn lemma_frame_more(
    s: Seq<(Seq<char>, Seq<FrameView>)>,
    name: Seq<char>,
    f: FrameView,
    other: Seq<char>,
)
    requires
        one_series_each(s),
    ensures
        one_series_each(with_frame(s, name, f)),
        ends_with(s, other, f) || other == name ==> ends_with(with_frame(s, name, f), other, f),
{
    frames_are_kept(s, name, f);
    let t = with_frame(s, name, f);
    if other == name {
        crate::writer::lemma_series_at(s, name, 0);
        let i = crate::writer::series_at(s, name, 0);
        let j = choose|j: int| 0 <= j < t.len() && (#[trigger] t[j]).0 == name && t[j].1.last() == f;
        if i < s.len() {
            assert(t =~= s.update(i, (name, s[i].1.push(f))));
            assert(t[j].1 == s[j].1.push(f));
        } else {
            assert(t =~= s.push((name, seq![f])));
            if j < s.len() {
                assert(t[j].1 == s[j].1.push(f));
            }
        }
        assert(t[j].1.len() > 0);
    } else if ends_with(s, other, f) {
        let j = choose|j: int|
            0 <= j < s.len() && (#[trigger] s[j]).0 == other && s[j].1.len() > 0 && s[j].1.last()
                == f;
        assert(t[j].0 == other && t[j].1 == s[j].1);
    }
}

proof fn lemma_frames_more(
    s: Seq<(Seq<char>, Seq<FrameView>)>,
    names: Seq<Seq<char>>,
    f: FrameView,
    n: int,
    other: Seq<char>,
)
    requires
        one_series_each(s),
        0 <= n <= names.len(),
    ensures
        one_series_each(with_frames(s, names, f, n)),
        ends_with(s, other, f) || (exists|i: int| 0 <= i < n && #[trigger] names[i] == other)
            ==> ends_with(with_frames(s, names, f, n), other, f),
    decreases n,
{
    if n > 0 {
        lemma_frames_more(s, names, f, n - 1, other);
        lemma_frame_more(with_frames(s, names, f, n - 1), names[n - 1], f, other);
    }
}

proof fn lemma_step(
    s: Seq<(Seq<char>, Seq<FrameView>)>,
    fields: Seq<OutputField>,
    f: FrameView,
    n: int,
    k: int,
    i: int,
)
    requires
        one_series_each(s),
        0 <= n <= fields.len(),
        0 <= k < fields.len(),
        0 <= i < grid_names(fields[k]).len(),
    ensures
        one_series_each(after_step(s, fields, f, n)),
        k < n ==> ends_with(after_step(s, fields, f, n), grid_names(fields[k])[i], f),
    decreases n,
{
    if n > 0 {
        lemma_step(s, fields, f, n - 1, k, i);
        let names = grid_names(fields[n - 1]);
        lemma_frames_more(
            after_step(s, fields, f, n - 1),
            names,
            f,
            names.len() as int,
            grid_names(fields[k])[i],
        );
        if k == n - 1 {
            assert(names[i] == grid_names(fields[k])[i]);
        }
    }
}

/// After a step every field ends with the step's frame: a field of numbers under its name,
/// and a field of vectors under the names of its three components and of its magnitude.
pub proof fn steps_reach_every_grid(
    s: Seq<(Seq<char>, Seq<FrameView>)>,
    fields: Seq<OutputField>,
    f: FrameView,
    k: int,
)
    requires
        one_series_each(s),
        0 <= k < fields.len(),
    ensures
        ({
            let t = after_step(s, fields, f, fields.len() as int);
            let name = fields[k].name@;
            match fields[k].values {
                FieldValues::Scalar(_) => ends_with(t, name, f),
                FieldValues::Vector(_) => {
                    &&& ends_with(t, name + ".x"@, f)
                    &&& ends_with(t, name + ".y"@, f)
                    &&& ends_with(t, name + ".z"@, f)
                    &&& ends_with(t, name + ".mag"@, f)
                },
            }
        }),
{
    let n = fields.len() as int;
    lemma_step(s, fields, f, n, k, 0);
    if fields[k].values is Vector {
        lemma_step(s, fields, f, n, k, 1);
        lemma_step(s, fields, f, n, k, 2);
        lemma_step(s, fields, f, n, k, 3);
    }
}

// --------------------------------------------------------------------------
//  Files
// --------------------------------------------------------------------------
/// A step has at least six digits in its file's name: zeros, and then the number.
pub proof fn steps_have_six_digits(stem: Seq<char>, step: nat, ext: Seq<char>)
    ensures
        ({
            let d = decimal(step);
            let t = six_digits(step);
            &&& step_file(stem, step, ext) == stem + "_"@ + t + "."@ + ext
            &&& t.len() == (if d.len() < 6 { 6 } else { d.len() as int })
            &&& t.skip(t.len() - d.len()) == d
            &&& forall|i: int| 0 <= i < t.len() - d.len() ==> #[trigger] t[i] == '0'
        }),
{
    let d = decimal(step);
    let t = six_digits(step);
    assert(t.skip(t.len() - d.len()) =~= d);
}

/// A scene points at the files that the volume writers write: its path, from the directory
/// of the scene, leads to the file of the step.
pub proof fn scenes_find_their_volumes(w: UsdaWriter, root: Seq<char>, step: nat)
    requires
        w.vdb_dir@ == "VDB"@,
        w.vdb_stem@.len() > 0,
        w.vdb_stem@[0] != '/',
    ensures
        ({
            let file = step_file(w.vdb_stem@, step, w.vdb_ext@);
            let path = w.volume_path(step);
            &&& path.len() > 2 && path[0] == '.' && path[1] == '/'
            &&& under(under(root, "VDB"@), file) == under(root, path.skip(2))
        }),
{
    reveal_strlit("./");
    reveal_strlit("/");
    reveal_strlit("VDB");
    let file = step_file(w.vdb_stem@, step, w.vdb_ext@);
    let path = w.volume_path(step);
    assert(file[0] == w.vdb_stem@[0]);
    assert("VDB"@.len() == 3 && "VDB"@[0] == 'V' && "VDB"@[2] == 'B');
    assert(path[0] == '.' && path[1] == '/');
    assert(path.skip(2) =~= "VDB"@ + "/"@ + file);
    assert(path.skip(2)[0] == 'V');
    let dir = under(root, "VDB"@);
    assert(dir.last() == 'B');
    assert(under(dir, file) =~= under(root, path.skip(2)));
}

/// A field is written into the directory of its time, under its own name.
pub proof fn fields_are_written_under_their_name(dir: Seq<char>, f: FoamField, time: Seq<char>)
    requires
        dir.len() > 0 && dir.last() != '/',
        time.len() > 0 && time[0] != '/' && time.last() != '/',
        f.name@.len() > 0 && f.name@[0] != '/',
    ensures
        foam_file(dir, f, time).0 == dir + "/"@ + time + "/"@ + f.name@,
{
    assert(under(dir, time) == dir + "/"@ + time);
    assert(under(dir, time).last() == time.last());
}

} // verus!
