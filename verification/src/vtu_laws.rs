//! What is found in a VTK file: the XML names every array and says where it stands, and
//! there stand the numbers that were given for it.

use vstd::prelude::*;

use crate::bytes::{byte_pow, encoded, le_reads_back, le_value, lemma_le_len, stacked_in_place};
use crate::mesh::{HostMesh, Vec3};
use crate::nvdb::le;
use crate::output_types::{FieldValues, OutputField};
use crate::scalar::{of_whole, Scalar};
use crate::text::decimal;
use crate::vtu::{
    appended, at_slots, blocks_stand_at_their_offsets, cell_array_text, cell_data, cell_faces,
    cell_records, cloud_blocks, cloud_file, cloud_xml, connectivity, corner_ends, data_array_text,
    face_records, faces_before, field_arrays, live_slots, mesh_blocks,
    mesh_file, mesh_xml, names_of, number_piece, numbers_block, offset_of, offsets_of,
    points_array_text, record_ends, records_are_whole, time_array_text,
    vector_piece, vectors_block, whole_block, whole_piece, xml_end, Named, ParcelSnapshot,
};

verus! {

// --------------------------------------------------------------------------
//  Numbers in bytes
// --------------------------------------------------------------------------
/// The number that eight bytes from `at` on spell, the lowest byte first.
pub open spec fn word_at(b: Seq<u8>, at: int) -> nat {
    le_value(b.subrange(at, at + 8))
}

/// Some bytes are these numbers, eight bytes each.
pub open spec fn spells_numbers(b: Seq<u8>, v: Seq<Scalar>) -> bool {
    &&& b.len() == 8 * v.len()
    &&& forall|i: int| 0 <= i < v.len() ==> word_at(b, 8 * i) == (#[trigger] v[i]).bits
}

/// Some bytes are these vectors: the numbers `x`, `y` and `z` of each, eight bytes each.
pub open spec fn spells_vectors(b: Seq<u8>, v: Seq<Vec3>) -> bool {
    &&& b.len() == 24 * v.len()
    &&& forall|i: int|
        0 <= i < v.len() ==> {
            &&& word_at(b, 24 * i) == (#[trigger] v[i]).x.bits
            &&& word_at(b, 24 * i + 8) == v[i].y.bits
            &&& word_at(b, 24 * i + 16) == v[i].z.bits
        }
}

/// Some bytes are these whole numbers, eight bytes each.
pub open spec fn spells_wholes(b: Seq<u8>, v: Seq<nat>) -> bool {
    &&& b.len() == 8 * v.len()
    &&& forall|i: int| 0 <= i < v.len() && v[i] < byte_pow(8) ==> word_at(b, 8 * i) == #[trigger] v[i]
}

proof fn lemma_eight()
    ensures
        byte_pow(8) == 0x1_0000_0000_0000_0000,
{
    reveal_with_fuel(byte_pow, 9);
}

/// A block of numbers spells the numbers.
pub proof fn numbers_are_spelled(v: Seq<Scalar>)
    ensures
        spells_numbers(numbers_block(v), v),
{
    let b = numbers_block(v);
    let piece = number_piece(v);
    lemma_eight();
    assert forall|k: int| 0 <= k < v.len() implies (#[trigger] piece(k)).len() == 8 by {
        lemma_le_len(v[k].bits as nat, 8);
    }
    stacked_in_place(v.len() as int, piece, 8, 0);
    assert forall|i: int| 0 <= i < v.len() implies word_at(b, 8 * i) == (#[trigger] v[i]).bits by {
        stacked_in_place(v.len() as int, piece, 8, i);
        le_reads_back(v[i].bits as nat, 8);
        assert(b.subrange(8 * i, 8 * i + 8) == piece(i));
    }
}

/// A block of whole numbers spells the numbers that fit.
pub proof fn wholes_are_spelled(v: Seq<nat>)
    ensures
        spells_wholes(whole_block(v), v),
{
    let b = whole_block(v);
    let piece = whole_piece(v);
    assert forall|k: int| 0 <= k < v.len() implies (#[trigger] piece(k)).len() == 8 by {
        lemma_le_len(v[k], 8);
    }
    stacked_in_place(v.len() as int, piece, 8, 0);
    assert forall|i: int| 0 <= i < v.len() && v[i] < byte_pow(8) implies word_at(b, 8 * i)
        == #[trigger] v[i] by {
        stacked_in_place(v.len() as int, piece, 8, i);
        le_reads_back(v[i], 8);
        assert(b.subrange(8 * i, 8 * i + 8) == piece(i));
    }
}

/// A block of vectors spells the vectors: of each the first number is `x`, the second `y`
/// and the third `z`.
pub proof fn vectors_are_spelled(v: Seq<Vec3>)
    ensures
        spells_vectors(vectors_block(v), v),
{
    let b = vectors_block(v);
    let piece = vector_piece(v);
    lemma_eight();
    assert forall|k: int| 0 <= k < v.len() implies (#[trigger] piece(k)).len() == 24 by {
        lemma_le_len(v[k].x.bits as nat, 8);
        lemma_le_len(v[k].y.bits as nat, 8);
        lemma_le_len(v[k].z.bits as nat, 8);
    }
    stacked_in_place(v.len() as int, piece, 24, 0);
    assert forall|i: int| 0 <= i < v.len() implies {
        &&& word_at(b, 24 * i) == (#[trigger] v[i]).x.bits
        &&& word_at(b, 24 * i + 8) == v[i].y.bits
        &&& word_at(b, 24 * i + 16) == v[i].z.bits
    } by {
        stacked_in_place(v.len() as int, piece, 24, i);
        let p = piece(i);
        let at = 24 * i;
        assert(p.len() == 24);
        assert(b.subrange(at, at + 24) == p);
        le_reads_back(v[i].x.bits as nat, 8);
        le_reads_back(v[i].y.bits as nat, 8);
        le_reads_back(v[i].z.bits as nat, 8);
        assert(b.subrange(at, at + 8) =~= p.subrange(0, 8));
        assert(b.subrange(at + 8, at + 16) =~= p.subrange(8, 16));
        assert(b.subrange(at + 16, at + 24) =~= p.subrange(16, 24));
        assert(p.subrange(0, 8) =~= le(v[i].x.bits as int, 8));
        assert(p.subrange(8, 16) =~= le(v[i].y.bits as int, 8));
        assert(p.subrange(16, 24) =~= le(v[i].z.bits as int, 8));
    }
}

// --------------------------------------------------------------------------
//  Arrays in a file
// --------------------------------------------------------------------------
/// A text stands in another.
#[verifier::opaque]
pub open spec fn has_text(s: Seq<char>, t: Seq<char>) -> bool {
    exists|p: int| 0 <= p <= s.len() - t.len() && #[trigger] s.subrange(p, p + t.len()) == t
}

pub(crate) proof fn lemma_itself(t: Seq<char>)
    ensures
        has_text(t, t),
{
    reveal(has_text);
    assert(t.subrange(0, 0int + t.len()) =~= t);
}

proof fn lemma_in_left(a: Seq<char>, b: Seq<char>, t: Seq<char>)
    requires
        has_text(a, t),
    ensures
        has_text(a + b, t),
{
    reveal(has_text);
    let p = choose|p: int|
        0 <= p <= a.len() - t.len() && #[trigger] a.subrange(p, p + t.len()) == t;
    assert((a + b).subrange(p, p + t.len()) =~= t);
}

proof fn lemma_in_right(a: Seq<char>, b: Seq<char>, t: Seq<char>)
    requires
        has_text(b, t),
    ensures
        has_text(a + b, t),
{
    reveal(has_text);
    let p = choose|p: int|
        0 <= p <= b.len() - t.len() && #[trigger] b.subrange(p, p + t.len()) == t;
    assert((a + b).subrange(a.len() + p, a.len() + p + t.len()) =~= t);
}

/// A text stands in two joined ones where it stands in either.
pub(crate) broadcast proof fn lemma_in_either(a: Seq<char>, b: Seq<char>, t: Seq<char>)
    requires
        has_text(a, t) || has_text(b, t),
    ensures
        #[trigger] has_text(a + b, t),
{
    if has_text(a, t) {
        lemma_in_left(a, b, t);
    } else {
        lemma_in_right(a, b, t);
    }
}

/// A file shows an array: its XML has the line of the array, and behind the XML, at the
/// offset, stand the length of the block and the block.
pub open spec fn shows(file: Seq<u8>, xml: Seq<char>, line: Seq<char>, at: nat, block: Seq<u8>) -> bool {
    let from = encoded(xml).len() as int + at;
    &&& has_text(xml, line)
    &&& from + 8 + block.len() <= file.len()
    &&& file.take(encoded(xml).len() as int) == encoded(xml)
    &&& block.len() < byte_pow(8) ==> word_at(file, from) == block.len()
    &&& file.subrange(from + 8, from + 8 + block.len()) == block
}

proof fn lemma_shows(xml: Seq<char>, b: Seq<Seq<u8>>, k: int, line: Seq<char>)
    requires
        0 <= k < b.len(),
        has_text(xml, line),
    ensures
        shows(
            encoded(xml) + appended(b, b.len() as int) + encoded(xml_end()),
            xml,
            line,
            offset_of(b, k),
            b[k],
        ),
{
    let file = encoded(xml) + appended(b, b.len() as int) + encoded(xml_end());
    let all = appended(b, b.len() as int);
    let h = encoded(xml).len() as int;
    let at = offset_of(b, k) as int;
    blocks_stand_at_their_offsets(b, k, b.len() as int);
    assert(file.take(h) =~= encoded(xml));
    assert(file.subrange(h + at, h + at + 8) =~= all.subrange(at, at + 8));
    assert(file.subrange(h + at + 8, h + at + 8 + b[k].len()) =~= all.subrange(
        at + 8,
        at + 8 + b[k].len(),
    ));
    if b[k].len() < byte_pow(8) {
        le_reads_back(b[k].len(), 8);
    }
}

/// The line of an array of numbers with a name.
pub open spec fn array_line(kind: Seq<char>, name: Seq<char>, comps: nat, at: nat) -> Seq<char> {
    "        <DataArray type=\""@ + kind + "\" Name=\""@ + name + "\" NumberOfComponents=\""@
        + decimal(comps) + "\" format=\"appended\" offset=\""@ + decimal(at) + "\"/>\n"@
}

/// The line of an array that says what the cells are.
pub open spec fn cells_line(kind: Seq<char>, name: Seq<char>, at: nat) -> Seq<char> {
    "        <DataArray type=\""@ + kind + "\" Name=\""@ + name
        + "\" format=\"appended\" offset=\""@ + decimal(at) + "\"/>\n"@
}

/// The lines of the points.
pub open spec fn points_lines(at: nat) -> Seq<char> {
    "      <Points>\n        <DataArray type=\"Float64\" NumberOfComponents=\"3\" format=\"appended\" offset=\""@
        + decimal(at) + "\"/>\n      </Points>\n"@
}

/// The lines of the time.
pub open spec fn time_lines(at: nat) -> Seq<char> {
    "      <FieldData>\n        <DataArray type=\"Float64\" Name=\"TIME\" NumberOfTuples=\"1\" format=\"appended\" offset=\""@
        + decimal(at) + "\"/>\n      </FieldData>\n"@
}

/// A block holds the values of a field: one number for every value, or three.
pub open spec fn spells_field(b: Seq<u8>, f: OutputField) -> bool {
    match f.values {
        FieldValues::Scalar(v) => spells_numbers(b, v@),
        FieldValues::Vector(v) => spells_vectors(b, v@),
    }
}

/// How many numbers a value of a field has.
pub open spec fn numbers_each(f: OutputField) -> nat {
    match f.values {
        FieldValues::Scalar(_) => 1,
        FieldValues::Vector(_) => 3,
    }
}

proof fn lemma_field_line(names: Seq<Named>, at: Seq<nat>, from: int, n: int, k: int)
    requires
        0 <= k < n <= names.len(),
    ensures
        has_text(
            field_arrays(names, at, from, n),
            array_line("Float64"@, names[k].0, names[k].1, at[from + k]),
        ),
    decreases n,
{
    broadcast use lemma_in_either;

    let line = array_line("Float64"@, names[k].0, names[k].1, at[from + k]);
    if k < n - 1 {
        lemma_field_line(names, at, from, n - 1, k);
    } else {
        assert(data_array_text("Float64"@, names[k].0, names[k].1, at[from + k]) == line);
        lemma_itself(line);
    }
}

/// Every field of a mesh is found in the file under its name, with its components: its
/// values stand at the offset that the XML gives.
pub proof fn fields_are_found(
    m: HostMesh,
    points: Seq<Vec3>,
    fields: Seq<OutputField>,
    time: Option<Scalar>,
    k: int,
)
    requires
        mesh_file(m, points, fields, time) is Ok,
        0 <= k < fields.len(),
    ensures
        exists|xml: Seq<char>, at: nat, block: Seq<u8>|
            #[trigger] shows(
                mesh_file(m, points, fields, time)->Ok_0,
                xml,
                array_line(
                    "Float64"@,
                    fields[k].name@,
                    numbers_each(fields[k]),
                    at,
                ),
                at,
                block,
            ) && spells_field(block, fields[k]),
{
    let b = mesh_blocks(m, points, fields, time);
    let names = names_of(fields);
    let from = if time is Some { 7int } else { 6int };
    let xml = mesh_xml(points.len(), m.n_cells as nat, time is Some, names, offsets_of(b));
    let at = offset_of(b, from + k);
    let line = array_line("Float64"@, fields[k].name@, numbers_each(fields[k]), at);
    assert(b[from + k] == crate::vtu::field_block(fields[k]));
    lemma_xml_has_field(points.len(), m.n_cells as nat, time is Some, names, offsets_of(b), k);
    assert(names[k] == (fields[k].name@, numbers_each(fields[k])));
    lemma_shows(xml, b, from + k, line);
    match fields[k].values {
        FieldValues::Scalar(v) => {
            numbers_are_spelled(v@);
        },
        FieldValues::Vector(v) => {
            vectors_are_spelled(v@);
        },
    }
    assert(spells_field(b[from + k], fields[k]));
    assert(shows(mesh_file(m, points, fields, time)->Ok_0, xml, line, at, b[from + k]));
}

proof fn lemma_xml_has_field(
    points: nat,
    cells: nat,
    timed: bool,
    names: Seq<Named>,
    at: Seq<nat>,
    k: int,
)
    requires
        0 <= k < names.len(),
    ensures
        has_text(
            mesh_xml(points, cells, timed, names, at),
            array_line("Float64"@, names[k].0, names[k].1, at[(if timed { 7int } else { 6 }) + k]),
        ),
{
    broadcast use lemma_in_either;

    let from = if timed { 7int } else { 6int };
    let line = array_line("Float64"@, names[k].0, names[k].1, at[from + k]);
    lemma_field_line(names, at, from, names.len() as int, k);
    assert(has_text(cell_data(names, at, from), line));
}

proof fn lemma_xml_has_points(points: nat, cells: nat, timed: bool, names: Seq<Named>, at: Seq<nat>)
    ensures
        has_text(mesh_xml(points, cells, timed, names, at), points_lines(at[0])),
        timed ==> has_text(mesh_xml(points, cells, timed, names, at), time_lines(at[6])),
{
    broadcast use lemma_in_either;

    lemma_itself(points_lines(at[0]));
    assert(points_array_text(at[0]) == points_lines(at[0]));
    lemma_itself(time_lines(at[6]));
    assert(time_array_text(at[6]) == time_lines(at[6]));
}

proof fn lemma_cloud_has_points(n: nat, timed: bool, at: Seq<nat>, k: int)
    ensures
        has_text(cloud_xml(n, timed, at, k), points_lines(at[0])),
{
    broadcast use lemma_in_either;

    lemma_itself(points_lines(at[0]));
    assert(points_array_text(at[0]) == points_lines(at[0]));
}

/// The points of a mesh are found in its file.
#[verifier::rlimit(40)]
#[verifier::spinoff_prover]
pub proof fn points_are_found(
    m: HostMesh,
    points: Seq<Vec3>,
    fields: Seq<OutputField>,
    time: Option<Scalar>,
)
    requires
        mesh_file(m, points, fields, time) is Ok,
    ensures
        exists|xml: Seq<char>, at: nat, block: Seq<u8>|
            #[trigger] shows(
                mesh_file(m, points, fields, time)->Ok_0,
                xml,
                points_lines(at),
                at,
                block,
            ) && spells_vectors(block, points),
{
    let b = mesh_blocks(m, points, fields, time);
    let at = offsets_of(b);
    let xml = mesh_xml(points.len(), m.n_cells as nat, time is Some, names_of(fields), at);
    lemma_xml_has_points(points.len(), m.n_cells as nat, time is Some, names_of(fields), at);
    assert(b[0] == vectors_block(points));
    assert(at[0] == offset_of(b, 0));
    lemma_shows(xml, b, 0, points_lines(offset_of(b, 0)));
    vectors_are_spelled(points);
    let file = mesh_file(m, points, fields, time)->Ok_0;
    assert(shows(file, xml, points_lines(offset_of(b, 0)), offset_of(b, 0), b[0]));
}

/// The time is found in the file of a mesh that has one.
pub proof fn the_time_is_found(
    m: HostMesh,
    points: Seq<Vec3>,
    fields: Seq<OutputField>,
    t: Scalar,
)
    requires
        mesh_file(m, points, fields, Some(t)) is Ok,
    ensures
        exists|xml: Seq<char>, at: nat, block: Seq<u8>|
            #[trigger] shows(
                mesh_file(m, points, fields, Some(t))->Ok_0,
                xml,
                time_lines(at),
                at,
                block,
            ) && spells_numbers(block, seq![t]),
{
    let b = mesh_blocks(m, points, fields, Some(t));
    let at = offsets_of(b);
    let xml = mesh_xml(points.len(), m.n_cells as nat, true, names_of(fields), at);
    lemma_xml_has_points(points.len(), m.n_cells as nat, true, names_of(fields), at);
    assert(b[6] == numbers_block(seq![t]));
    assert(at[6] == offset_of(b, 6));
    lemma_shows(xml, b, 6, time_lines(offset_of(b, 6)));
    numbers_are_spelled(seq![t]);
    let file = mesh_file(m, points, fields, Some(t))->Ok_0;
    assert(shows(file, xml, time_lines(offset_of(b, 6)), offset_of(b, 6), b[6]));
}

/// What the cells are is found in the file of a mesh: their corners, where these end, their
/// types, their faces, and where these end.
pub proof fn cells_are_found(
    m: HostMesh,
    points: Seq<Vec3>,
    fields: Seq<OutputField>,
    time: Option<Scalar>,
)
    requires
        mesh_file(m, points, fields, time) is Ok,
    ensures
        ({
            let file = mesh_file(m, points, fields, time)->Ok_0;
            &&& exists|xml: Seq<char>, at: nat, block: Seq<u8>|
                #[trigger] shows(file, xml, cells_line("Int64"@, "connectivity"@, at), at, block)
                    && spells_wholes(block, connectivity(m))
            &&& exists|xml: Seq<char>, at: nat, block: Seq<u8>|
                #[trigger] shows(file, xml, cells_line("Int64"@, "offsets"@, at), at, block)
                    && spells_wholes(block, corner_ends(m))
            &&& exists|xml: Seq<char>, at: nat, block: Seq<u8>|
                #[trigger] shows(file, xml, cells_line("UInt8"@, "types"@, at), at, block)
                    && block.len() == m.n_cells && forall|c: int|
                    0 <= c < block.len() ==> #[trigger] block[c] == 42
            &&& exists|xml: Seq<char>, at: nat, block: Seq<u8>|
                #[trigger] shows(file, xml, cells_line("Int64"@, "faces"@, at), at, block)
                    && spells_wholes(block, cell_records(m, m.n_cells as int))
            &&& exists|xml: Seq<char>, at: nat, block: Seq<u8>|
                #[trigger] shows(file, xml, cells_line("Int64"@, "faceoffsets"@, at), at, block)
                    && spells_wholes(block, record_ends(m))
        }),
{
    let b = mesh_blocks(m, points, fields, time);
    let at = offsets_of(b);
    let xml = mesh_xml(points.len(), m.n_cells as nat, time is Some, names_of(fields), at);
    lemma_cells_line(m, points, fields, time, 1, "Int64"@, "connectivity"@);
    lemma_cells_line(m, points, fields, time, 2, "Int64"@, "offsets"@);
    lemma_cells_line(m, points, fields, time, 3, "UInt8"@, "types"@);
    lemma_cells_line(m, points, fields, time, 4, "Int64"@, "faces"@);
    lemma_cells_line(m, points, fields, time, 5, "Int64"@, "faceoffsets"@);
    wholes_are_spelled(connectivity(m));
    wholes_are_spelled(corner_ends(m));
    wholes_are_spelled(cell_records(m, m.n_cells as int));
    wholes_are_spelled(record_ends(m));
}

proof fn lemma_cells_line(
    m: HostMesh,
    points: Seq<Vec3>,
    fields: Seq<OutputField>,
    time: Option<Scalar>,
    k: int,
    kind: Seq<char>,
    name: Seq<char>,
)
    requires
        mesh_file(m, points, fields, time) is Ok,
        1 <= k <= 5,
        kind == if k == 3 { "UInt8"@ } else { "Int64"@ },
        name == if k == 1 {
            "connectivity"@
        } else if k == 2 {
            "offsets"@
        } else if k == 3 {
            "types"@
        } else if k == 4 {
            "faces"@
        } else {
            "faceoffsets"@
        },
    ensures
        ({
            let b = mesh_blocks(m, points, fields, time);
            let xml = mesh_xml(
                points.len(),
                m.n_cells as nat,
                time is Some,
                names_of(fields),
                offsets_of(b),
            );
            shows(
                mesh_file(m, points, fields, time)->Ok_0,
                xml,
                cells_line(kind, name, offset_of(b, k)),
                offset_of(b, k),
                b[k],
            )
        }),
{
    broadcast use lemma_in_either;

    let b = mesh_blocks(m, points, fields, time);
    let at = offsets_of(b);
    let xml = mesh_xml(points.len(), m.n_cells as nat, time is Some, names_of(fields), at);
    let line = cells_line(kind, name, at[k]);
    lemma_itself(line);
    assert(cell_array_text(kind, name, at[k]) == line);
    assert(has_text(xml, line));
    lemma_shows(xml, b, k, line);
}

/// The record of a cell says how many faces it has, and for each of them its four corners:
/// those of the face that [`crate::vtu::face_sides`] lists for it, in their order. The
/// corners and the record of a cell end where those of the next one begin.
pub proof fn records_name_the_corners(m: HostMesh, c: int, j: int, q: int)
    requires
        m.mapped(),
        0 <= c < m.n_cells,
        0 <= j < cell_faces(m, c).len(),
        0 <= q < 4,
    ensures
        ({
            let at = if c == 0 {
                0
            } else {
                record_ends(m)[c - 1] as int
            };
            let all = cell_records(m, c + 1);
            let corner = 4 * (faces_before(m, c) + j) + q;
            &&& all[at] == cell_faces(m, c).len()
            &&& all[at + 1 + 5 * j] == 4
            &&& all[at + 2 + 5 * j + q] == corner
            &&& record_ends(m)[c] == at + 1 + 5 * cell_faces(m, c).len()
            &&& corner_ends(m)[c] == 4 * (faces_before(m, c) + cell_faces(m, c).len())
        }),
{
    records_are_whole(m, c);
    let n = faces_before(m, c + 1) - faces_before(m, c);
    lemma_face_record(faces_before(m, c), n, j, q);
    crate::vtu::faces_are_counted(m, c);
    crate::vtu::faces_are_counted(m, c + 1);
}

proof fn lemma_face_record(first: int, n: int, j: int, q: int)
    requires
        0 <= first,
        0 <= j < n,
        0 <= q < 4,
    ensures
        face_records(first, n).len() == 5 * n,
        face_records(first, n)[5 * j] == 4,
        face_records(first, n)[5 * j + 1 + q] == 4 * (first + j) + q,
    decreases n,
{
    if j < n - 1 {
        lemma_face_record(first, n - 1, j, q);
    } else {
        lemma_record_len(first, n - 1);
    }
}

proof fn lemma_record_len(first: int, n: int)
    requires
        0 <= n,
    ensures
        face_records(first, n).len() == 5 * n,
    decreases n,
{
    if n > 0 {
        lemma_record_len(first, n - 1);
    }
}

// --------------------------------------------------------------------------
//  Parcels
// --------------------------------------------------------------------------
proof fn lemma_cloud_array(
    s: ParcelSnapshot,
    time: Option<Scalar>,
    k: int,
    kind: Seq<char>,
    name: Seq<char>,
    comps: nat,
)
    requires
        0 <= k <= 6,
        kind == if k == 4 { "Int64"@ } else { "Float64"@ },
        comps == if k == 0 { 3nat } else { 1 },
        name == if k == 0 {
            "U"@
        } else if k == 1 {
            "d"@
        } else if k == 2 {
            "T"@
        } else if k == 3 {
            "nP"@
        } else if k == 4 {
            "cell"@
        } else if k == 5 {
            "uidHigh"@
        } else {
            "uidLow"@
        },
    ensures
        ({
            let b = cloud_blocks(s, time);
            let n = live_slots(s.cell@, s.cell.len() as int).len();
            let from = if time is Some { 4int } else { 3int };
            let xml = cloud_xml(n, time is Some, offsets_of(b), from);
            shows(
                cloud_file(s, time),
                xml,
                array_line(kind, name, comps, offset_of(b, from + k)),
                offset_of(b, from + k),
                b[from + k],
            )
        }),
{
    broadcast use lemma_in_either;

    let b = cloud_blocks(s, time);
    let n = live_slots(s.cell@, s.cell.len() as int).len();
    let from = if time is Some { 4int } else { 3int };
    let at = offsets_of(b);
    let xml = cloud_xml(n, time is Some, at, from);
    let line = array_line(kind, name, comps, at[from + k]);
    lemma_itself(line);
    assert(data_array_text(kind, name, comps, at[from + k]) == line);
    assert(has_text(xml, line));
    lemma_shows(xml, b, from + k, line);
}

/// The velocities of the parcels of a cloud are found in its file under `U`.
pub proof fn velocities_of_parcels_are_found(s: ParcelSnapshot, time: Option<Scalar>)
    ensures
        exists|xml: Seq<char>, at: nat, block: Seq<u8>|
            #[trigger] shows(
                cloud_file(s, time),
                xml,
                array_line("Float64"@, "U"@, 3, at),
                at,
                block,
            ) && spells_vectors(
                block,
                Seq::new(
                    live_slots(s.cell@, s.cell.len() as int).len(),
                    |i: int| s.u@[live_slots(s.cell@, s.cell.len() as int)[i]],
                ),
            ),
{
    let b = cloud_blocks(s, time);
    let live = live_slots(s.cell@, s.cell.len() as int);
    let from = if time is Some { 4int } else { 3int };
    let v = Seq::new(
        live_slots(s.cell@, s.cell.len() as int).len(),
        |i: int| s.u@[live_slots(s.cell@, s.cell.len() as int)[i]],
    );
    lemma_cloud_array(s, time, 0, "Float64"@, "U"@, 3);
    assert(at_slots(s.u@, live) =~= v);
    vectors_are_spelled(v);
    assert(b[from + 0] == vectors_block(v));
}

/// Their diameters are found under `d`.
pub proof fn diameters_of_parcels_are_found(s: ParcelSnapshot, time: Option<Scalar>)
    ensures
        exists|xml: Seq<char>, at: nat, block: Seq<u8>|
            #[trigger] shows(
                cloud_file(s, time),
                xml,
                array_line("Float64"@, "d"@, 1, at),
                at,
                block,
            ) && spells_numbers(
                block,
                Seq::new(
                    live_slots(s.cell@, s.cell.len() as int).len(),
                    |i: int| s.d@[live_slots(s.cell@, s.cell.len() as int)[i]],
                ),
            ),
{
    let b = cloud_blocks(s, time);
    let live = live_slots(s.cell@, s.cell.len() as int);
    let from = if time is Some { 4int } else { 3int };
    let v = Seq::new(
        live_slots(s.cell@, s.cell.len() as int).len(),
        |i: int| s.d@[live_slots(s.cell@, s.cell.len() as int)[i]],
    );
    lemma_cloud_array(s, time, 1, "Float64"@, "d"@, 1);
    assert(at_slots(s.d@, live) =~= v);
    numbers_are_spelled(v);
    assert(b[from + 1] == numbers_block(v));
}

/// Their temperatures are found under `T`.
pub proof fn temperatures_of_parcels_are_found(s: ParcelSnapshot, time: Option<Scalar>)
    ensures
        exists|xml: Seq<char>, at: nat, block: Seq<u8>|
            #[trigger] shows(
                cloud_file(s, time),
                xml,
                array_line("Float64"@, "T"@, 1, at),
                at,
                block,
            ) && spells_numbers(
                block,
                Seq::new(
                    live_slots(s.cell@, s.cell.len() as int).len(),
                    |i: int| s.temperature@[live_slots(s.cell@, s.cell.len() as int)[i]],
                ),
            ),
{
    let b = cloud_blocks(s, time);
    let live = live_slots(s.cell@, s.cell.len() as int);
    let from = if time is Some { 4int } else { 3int };
    let v = Seq::new(
        live_slots(s.cell@, s.cell.len() as int).len(),
        |i: int| s.temperature@[live_slots(s.cell@, s.cell.len() as int)[i]],
    );
    lemma_cloud_array(s, time, 2, "Float64"@, "T"@, 1);
    assert(at_slots(s.temperature@, live) =~= v);
    numbers_are_spelled(v);
    assert(b[from + 2] == numbers_block(v));
}

/// How many particles each stands for is found under `nP`.
pub proof fn numbers_of_parcels_are_found(s: ParcelSnapshot, time: Option<Scalar>)
    ensures
        exists|xml: Seq<char>, at: nat, block: Seq<u8>|
            #[trigger] shows(
                cloud_file(s, time),
                xml,
                array_line("Float64"@, "nP"@, 1, at),
                at,
                block,
            ) && spells_numbers(
                block,
                Seq::new(
                    live_slots(s.cell@, s.cell.len() as int).len(),
                    |i: int| s.n_p@[live_slots(s.cell@, s.cell.len() as int)[i]],
                ),
            ),
{
    let b = cloud_blocks(s, time);
    let live = live_slots(s.cell@, s.cell.len() as int);
    let from = if time is Some { 4int } else { 3int };
    let v = Seq::new(
        live_slots(s.cell@, s.cell.len() as int).len(),
        |i: int| s.n_p@[live_slots(s.cell@, s.cell.len() as int)[i]],
    );
    lemma_cloud_array(s, time, 3, "Float64"@, "nP"@, 1);
    assert(at_slots(s.n_p@, live) =~= v);
    numbers_are_spelled(v);
    assert(b[from + 3] == numbers_block(v));
}

/// Their cells are found under `cell`.
pub proof fn cells_of_parcels_are_found(s: ParcelSnapshot, time: Option<Scalar>)
    ensures
        exists|xml: Seq<char>, at: nat, block: Seq<u8>|
            #[trigger] shows(
                cloud_file(s, time),
                xml,
                array_line("Int64"@, "cell"@, 1, at),
                at,
                block,
            ) && spells_wholes(
                block,
                Seq::new(
                    live_slots(s.cell@, s.cell.len() as int).len(),
                    |i: int| s.cell@[live_slots(s.cell@, s.cell.len() as int)[i]] as nat,
                ),
            ),
{
    let b = cloud_blocks(s, time);
    let live = live_slots(s.cell@, s.cell.len() as int);
    let from = if time is Some { 4int } else { 3int };
    let v = Seq::new(
        live_slots(s.cell@, s.cell.len() as int).len(),
        |i: int| s.cell@[live_slots(s.cell@, s.cell.len() as int)[i]] as nat,
    );
    lemma_cloud_array(s, time, 4, "Int64"@, "cell"@, 1);
    assert(live.map_values(|i: int| s.cell@[i] as nat) =~= v);
    wholes_are_spelled(v);
    assert(b[from + 4] == whole_block(v));
}

/// The upper half of the number that tells a parcel from all others is found under `uidHigh`.
pub proof fn upper_halves_of_parcels_are_found(s: ParcelSnapshot, time: Option<Scalar>)
    ensures
        exists|xml: Seq<char>, at: nat, block: Seq<u8>|
            #[trigger] shows(
                cloud_file(s, time),
                xml,
                array_line("Float64"@, "uidHigh"@, 1, at),
                at,
                block,
            ) && exists|h: Seq<nat>|
                #[trigger] is_high_half(s, live_slots(s.cell@, s.cell.len() as int), h) && spells_numbers(
                    block,
                    as_numbers(h),
                ),
{
    let b = cloud_blocks(s, time);
    let live = live_slots(s.cell@, s.cell.len() as int);
    let from = if time is Some { 4int } else { 3int };
    let h = Seq::new(live.len(), |i: int| (s.uid@[live[i]] / 0x1_0000_0000) as nat);
    lemma_cloud_array(s, time, 5, "Float64"@, "uidHigh"@, 1);
    assert(live.map_values(|i: int| of_whole((s.uid@[i] / 0x1_0000_0000) as nat)) =~= as_numbers(h));
    numbers_are_spelled(as_numbers(h));
    assert(b[from + 5] == numbers_block(as_numbers(h)));
    assert(is_high_half(s, live, h));
}

proof fn lemma_low_half(s: ParcelSnapshot, live: Seq<int>, h: Seq<nat>)
    requires
        h == Seq::new(live.len(), |i: int| (s.uid@[live[i]] % 0x1_0000_0000) as nat),
    ensures
        is_low_half(s, live, h),
{
}

/// The lower half is found under `uidLow`.
#[verifier::rlimit(40)]
#[verifier::spinoff_prover]
pub proof fn lower_halves_of_parcels_are_found(s: ParcelSnapshot, time: Option<Scalar>)
    ensures
        exists|xml: Seq<char>, at: nat, block: Seq<u8>|
            #[trigger] shows(
                cloud_file(s, time),
                xml,
                array_line("Float64"@, "uidLow"@, 1, at),
                at,
                block,
            ) && exists|h: Seq<nat>|
                #[trigger] is_low_half(s, live_slots(s.cell@, s.cell.len() as int), h) && spells_numbers(
                    block,
                    as_numbers(h),
                ),
{
    let b = cloud_blocks(s, time);
    let live = live_slots(s.cell@, s.cell.len() as int);
    let from = if time is Some { 4int } else { 3int };
    let h = Seq::new(live.len(), |i: int| (s.uid@[live[i]] % 0x1_0000_0000) as nat);
    lemma_cloud_array(s, time, 6, "Float64"@, "uidLow"@, 1);
    assert(live.map_values(|i: int| of_whole((s.uid@[i] % 0x1_0000_0000) as nat)) =~= as_numbers(h));
    numbers_are_spelled(as_numbers(h));
    assert(b[from + 6] == numbers_block(as_numbers(h)));
    lemma_low_half(s, live, h);
}

/// Whole numbers as numbers.
pub open spec fn as_numbers(h: Seq<nat>) -> Seq<Scalar> {
    h.map_values(|x: nat| of_whole(x))
}

/// The upper halves of the numbers of some parcels.
pub open spec fn is_high_half(s: ParcelSnapshot, live: Seq<int>, h: Seq<nat>) -> bool {
    h.len() == live.len() && forall|i: int|
        0 <= i < h.len() ==> h[i] * 0x1_0000_0000 <= s.uid@[#[trigger] live[i]] < (h[i] + 1)
            * 0x1_0000_0000
}

/// The lower halves of the numbers of some parcels: what is missing to the next multiple
/// below.
pub open spec fn is_low_half(s: ParcelSnapshot, live: Seq<int>, l: Seq<nat>) -> bool {
    l.len() == live.len() && forall|i: int|
        0 <= i < l.len() ==> l[i] < 0x1_0000_0000 && (s.uid@[#[trigger] live[i]] - l[i])
            % 0x1_0000_0000 == 0
}

/// The places of the parcels of a cloud are found in its file.
pub proof fn parcels_are_placed(s: ParcelSnapshot, time: Option<Scalar>)
    ensures
        exists|xml: Seq<char>, at: nat, block: Seq<u8>|
            #[trigger] shows(cloud_file(s, time), xml, points_lines(at), at, block)
                && spells_vectors(
                block,
                Seq::new(
                    live_slots(s.cell@, s.cell.len() as int).len(),
                    |i: int| s.x@[live_slots(s.cell@, s.cell.len() as int)[i]],
                ),
            ),
{
    let b = cloud_blocks(s, time);
    let live = live_slots(s.cell@, s.cell.len() as int);
    let at = offsets_of(b);
    let k = if time is Some { 4int } else { 3int };
    let xml = cloud_xml(live.len(), time is Some, at, k);
    let x = Seq::new(live.len(), |i: int| s.x@[live[i]]);
    lemma_cloud_has_points(live.len(), time is Some, at, k);
    assert(at_slots(s.x@, live) =~= x);
    assert(b[0] == vectors_block(x));
    assert(at[0] == offset_of(b, 0));
    lemma_shows(xml, b, 0, points_lines(offset_of(b, 0)));
    vectors_are_spelled(x);
    assert(shows(cloud_file(s, time), xml, points_lines(offset_of(b, 0)), offset_of(b, 0), b[0]));
}

} // verus!
