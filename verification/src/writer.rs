//! What each format writes at a step: the names of the files, what they hold, and
//! the series of the earlier steps that some of them list.
//!
//! What only floating-point arithmetic gives (corners of faces, magnitudes,
//! statistics of nodes) comes in with the step.

use vstd::prelude::*;

use crate::bytes::{bytes_of, encoded};
use crate::contract::{decided, passed_over, refusal, strict, unsupported, Policy};
use crate::digits::zeros;
use crate::error::{Error, Failure};
use crate::exact::lemma_decimal;
use crate::fields::{
    scalar_field_text, surface_field_text, vector_field_text, write_scalar_field,
    write_surface_scalar_field, write_vector_field, Collapse, RawScalarField, RawVectorField,
    PHI_PRECISION,
};
use crate::mesh::{HostMesh, Vec3};
use crate::nvdb;
use crate::nvdb::{file_of, has_room, is_block, Frame, GridField, Precision, UniformGrid};
use crate::output_types::{FieldValues, OutputField};
use crate::scalar::Scalar;
use crate::text::{
    chars_of, copy, decimal, digits_value, push_decimal, push_text, same, string_of, texts,
};
use crate::usda::{
    boundary_count, boundary_surface, box_of, drawn, low_corner, min_of, subsets_are,
    surface_points, triangle_corner, Quad, SceneSpec, SurfaceOut, VdbFrame, VdbSource, VolumeAsset,
};
use crate::vdb;
use crate::vdb::archive_of;
use crate::vtu::{
    faces_before, mesh_blocks, mesh_file, offset_of, series_text, write_pvd, write_vtu,
};

verus! {

// --------------------------------------------------------------------------
//  Names of files
// --------------------------------------------------------------------------
/// A number with at least six digits.
pub open spec fn six_digits(n: nat) -> Seq<char> {
    let d = decimal(n);
    if d.len() < 6 {
        zeros((6 - d.len()) as nat) + d
    } else {
        d
    }
}

/// `<stem>_<step>.<ext>`.
pub open spec fn step_file(stem: Seq<char>, step: nat, ext: Seq<char>) -> Seq<char> {
    stem + "_"@ + six_digits(step) + "."@ + ext
}

fn push_six_digits(s: &mut String, n: usize)
    ensures
        final(s)@ == old(s)@ + six_digits(n as nat),
{
    let ghost start = s@;
    let mut d = String::new();
    assert(d@ =~= Seq::empty());
    push_decimal(&mut d, n as u64);
    assert(d@ =~= decimal(n as nat));
    let len: usize = chars_of(&d).len();
    let mut k: usize = len;
    while k < 6
        invariant
            len <= k,
            len < 6 ==> k <= 6,
            len >= 6 ==> k == len,
            s@ == start + zeros((k - len) as nat),
        decreases 6 - k,
    {
        s.push('0');
        k = k + 1;
        assert(s@ =~= start + zeros((k - len) as nat));
    }
    push_text(s, &d);
    assert(s@ =~= start + six_digits(n as nat));
}

/// The file of a step.
pub fn step_name(stem: &str, step: usize, ext: &str) -> (s: String)
    ensures
        s@ == step_file(stem@, step as nat, ext@),
{
    let mut s = copy(stem);
    push_text(&mut s, "_");
    push_six_digits(&mut s, step);
    push_text(&mut s, ".");
    push_text(&mut s, ext);
    s
}

/// A path under a directory. A name that starts at the root stands by itself.
pub open spec fn under(dir: Seq<char>, name: Seq<char>) -> Seq<char> {
    if name.len() > 0 && name[0] == '/' {
        name
    } else if dir.len() == 0 || dir.last() == '/' {
        dir + name
    } else {
        dir + "/"@ + name
    }
}

/// The path of something in a directory.
pub fn path_under(dir: &str, name: &str) -> (s: String)
    ensures
        s@ == under(dir@, name@),
{
    let head = chars_of(name);
    if head.len() > 0 && head[0] == '/' {
        return copy(name);
    }
    let c = chars_of(dir);
    let mut s = copy(dir);
    let n: usize = c.len();
    if n > 0 && c[n - 1] != '/' {
        push_text(&mut s, "/");
    }
    push_text(&mut s, name);
    s
}

/// Different steps have different files.
pub proof fn steps_have_their_own_files(stem: Seq<char>, a: nat, b: nat, ext: Seq<char>)
    requires
        step_file(stem, a, ext) == step_file(stem, b, ext),
    ensures
        a == b,
{
    let x = step_file(stem, a, ext);
    let y = step_file(stem, b, ext);
    reveal_strlit("_");
    reveal_strlit(".");
    let n = stem.len() as int + 1;
    let da = six_digits(a);
    let db = six_digits(b);
    assert(x.len() == n + da.len() + 1 + ext.len());
    assert(y.len() == n + db.len() + 1 + ext.len());
    assert(x.subrange(n, n + da.len()) =~= da);
    assert(y.subrange(n, n + db.len()) =~= db);
    lemma_six_digits(a);
    lemma_six_digits(b);
}

proof fn lemma_six_digits(n: nat)
    ensures
        digits_value(six_digits(n)) == n,
{
    let d = decimal(n);
    lemma_decimal(n);
    if d.len() < 6 {
        lemma_zeros_in_front((6 - d.len()) as nat, d);
    }
}

proof fn lemma_zeros_in_front(k: nat, d: Seq<char>)
    ensures
        digits_value(zeros(k) + d) == digits_value(d),
    decreases d.len(), k,
{
    let s = zeros(k) + d;
    if d.len() > 0 {
        assert(s.drop_last() =~= zeros(k) + d.drop_last());
        lemma_zeros_in_front(k, d.drop_last());
    } else if k > 0 {
        assert(s =~= zeros(k));
        assert(s.drop_last() =~= zeros((k - 1) as nat) + d);
        lemma_zeros_in_front((k - 1) as nat, d);
        assert(s.last() == '0');
    } else {
        assert(s =~= d);
    }
}

// --------------------------------------------------------------------------
//  The step
// --------------------------------------------------------------------------
/// A dense grid of cells, as a volume file holds it.
pub type CartesianInfo = UniformGrid;

/// The cells of a uniform box.
#[derive(Debug, Clone, Copy)]
pub struct CartesianGrid {
    pub nx: usize,
    pub ny: usize,
    pub nz: usize,
    pub dx: Scalar,
    pub dy: Scalar,
    pub dz: Scalar,
}

/// The least coordinates of the first `n` centres.
pub open spec fn lowest(c: Seq<Vec3>, n: int) -> Vec3
    decreases n,
{
    if n <= 0 {
        c[0]
    } else {
        low_corner(lowest(c, n - 1), c[n - 1])
    }
}

/// The least coordinates of a mesh's cell centres. A grid's origin lies half a cell
/// below them.
pub fn lowest_centre(m: &HostMesh) -> (r: Vec3)
    requires
        0 < m.c.len(),
        m.n_cells <= m.c.len(),
    ensures
        r == lowest(m.c@, m.n_cells as int),
{
    let mut lo = m.c[0];
    let mut i: usize = 0;
    while i < m.n_cells
        invariant
            i <= m.n_cells <= m.c.len(),
            lo == lowest(m.c@, i as int),
        decreases m.n_cells - i,
    {
        let c = m.c[i];
        lo = Vec3 { x: min_of(lo.x, c.x), y: min_of(lo.y, c.y), z: min_of(lo.z, c.z) };
        i = i + 1;
    }
    lo
}

/// The grid of a uniform box. `origin` is the corner at which the first cell begins,
/// half a cell below [`lowest_centre`]; a volume file takes it as the place of its
/// first sample.
pub fn cartesian_info(cart: &CartesianGrid, origin: Vec3) -> (r: CartesianInfo)
    ensures
        r.nx == cart.nx && r.ny == cart.ny && r.nz == cart.nz,
        r.origin == origin,
        r.spacing.x == cart.dx && r.spacing.y == cart.dy && r.spacing.z == cart.dz,
{
    UniformGrid {
        nx: cart.nx,
        ny: cart.ny,
        nz: cart.nz,
        origin,
        spacing: Vec3 { x: cart.dx, y: cart.dy, z: cart.dz },
    }
}

/// A field with its boundary, as a time directory holds it.
#[derive(Debug, Clone, Copy)]
pub enum FoamPayload<'a> {
    Scalar(&'a RawScalarField),
    Vector(&'a RawVectorField),
    /// One value per face, with the digits that a flux needs.
    Surface(&'a RawScalarField),
}

/// A field and the name of its file.
#[derive(Debug, Clone, Copy)]
pub struct FoamField<'a> {
    pub name: &'a str,
    pub payload: FoamPayload<'a>,
}

impl<'a> FoamField<'a> {
    pub fn scalar(name: &'a str, f: &'a RawScalarField) -> (r: FoamField<'a>)
        ensures
            r.name == name,
            r.payload == FoamPayload::Scalar(f),
    {
        FoamField { name, payload: FoamPayload::Scalar(f) }
    }

    pub fn vector(name: &'a str, f: &'a RawVectorField) -> (r: FoamField<'a>)
        ensures
            r.name == name,
            r.payload == FoamPayload::Vector(f),
    {
        FoamField { name, payload: FoamPayload::Vector(f) }
    }

    pub fn surface(name: &'a str, f: &'a RawScalarField) -> (r: FoamField<'a>)
        ensures
            r.name == name,
            r.payload == FoamPayload::Surface(f),
    {
        FoamField { name, payload: FoamPayload::Surface(f) }
    }
}

/// What a writer is handed at a step.
#[derive(Debug, Clone, Copy)]
pub struct WriteCtx<'a> {
    pub time: Scalar,
    pub step: usize,
    /// The name of the time directory.
    pub name: &'a str,
    pub mesh: &'a HostMesh,
    /// The grid, where the mesh is a uniform box.
    pub cart: Option<&'a CartesianInfo>,
    pub fields: &'a Vec<OutputField<'a>>,
    pub foam: &'a Vec<FoamField<'a>>,
}

/// A file to be written.
#[derive(Debug, Clone)]
pub struct OutputFile {
    pub path: String,
    pub contents: Vec<u8>,
}

impl View for OutputFile {
    type V = (Seq<char>, Seq<u8>);

    open spec fn view(&self) -> (Seq<char>, Seq<u8>) {
        (self.path@, self.contents@)
    }
}

/// The paths and the contents of some files.
pub open spec fn files_of(v: Seq<OutputFile>) -> Seq<(Seq<char>, Seq<u8>)> {
    v.map_values(|f: OutputFile| f@)
}

/// Does a result hold the files that are wanted?
pub open spec fn files_agree(
    r: Result<Vec<OutputFile>, Error>,
    want: Result<Seq<(Seq<char>, Seq<u8>)>, Failure>,
) -> bool {
    match (r, want) {
        (Ok(v), Ok(w)) => files_of(v@) == w,
        (Err(e), Err(f)) => e@ == f,
        _ => false,
    }
}

// --------------------------------------------------------------------------
//  Time directories
// --------------------------------------------------------------------------
/// Writes the fields of a step into a directory named after its time.
#[derive(Debug, Clone)]
pub struct FoamWriter {
    pub case_dir: String,
}

/// The text of a field's file.
pub open spec fn foam_text(f: FoamField, time: Seq<char>) -> Seq<char> {
    match f.payload {
        FoamPayload::Scalar(raw) => scalar_field_text(
            raw@,
            "volScalarField"@,
            f.name@,
            time,
            6,
            Collapse::Equal,
        ),
        FoamPayload::Vector(raw) => vector_field_text(
            raw@,
            "volVectorField"@,
            f.name@,
            time,
            6,
            Collapse::Equal,
        ),
        FoamPayload::Surface(raw) => surface_field_text(
            raw@,
            f.name@,
            time,
            PHI_PRECISION as nat,
            true,
        ),
    }
}

/// The file of a field in a time directory.
pub open spec fn foam_file(dir: Seq<char>, f: FoamField, time: Seq<char>) -> (Seq<char>, Seq<u8>) {
    (under(under(dir, time), f.name@), encoded(foam_text(f, time)))
}

impl FoamWriter {
    pub fn new(case_dir: &str) -> (r: FoamWriter)
        ensures
            r.case_dir@ == case_dir@,
    {
        FoamWriter { case_dir: copy(case_dir) }
    }

    /// The files of a step, one per field.
    pub fn write_step(&self, ctx: &WriteCtx) -> (r: Vec<OutputFile>)
        ensures
            files_of(r@) == ctx.foam@.map_values(
                |f: FoamField| foam_file(self.case_dir@, f, ctx.name@),
            ),
    {
        let dir = path_under(&self.case_dir, ctx.name);
        let ghost want = |f: FoamField| foam_file(self.case_dir@, f, ctx.name@);
        let mut out: Vec<OutputFile> = Vec::new();
        let mut i: usize = 0;
        while i < ctx.foam.len()
            invariant
                i <= ctx.foam.len(),
                dir@ == under(self.case_dir@, ctx.name@),
                out.len() == i,
                want == (|f: FoamField| foam_file(self.case_dir@, f, ctx.name@)),
                forall|k: int| 0 <= k < i ==> (#[trigger] out@[k])@ == want(ctx.foam@[k]),
            decreases ctx.foam.len() - i,
        {
            let f = &ctx.foam[i];
            let text = match &f.payload {
                FoamPayload::Scalar(raw) => write_scalar_field(f.name, raw, ctx.name),
                FoamPayload::Vector(raw) => write_vector_field(f.name, raw, ctx.name),
                FoamPayload::Surface(raw) => write_surface_scalar_field(f.name, raw, ctx.name),
            };
            assert(text@ == foam_text(*f, ctx.name@));
            out.push(OutputFile { path: path_under(&dir, f.name), contents: bytes_of(&text) });
            i = i + 1;
        }
        assert(files_of(out@) =~= ctx.foam@.map_values(want));
        out
    }
}

// --------------------------------------------------------------------------
//  Meshes
// --------------------------------------------------------------------------
/// Writes a mesh file per step, and the list of them all.
#[derive(Debug)]
pub struct VtuWriter {
    pub dir: String,
    pub stem: String,
    /// The files so far and their times.
    pub series: Vec<(Scalar, String)>,
}

/// The times and the names of a series.
pub open spec fn series_of(v: Seq<(Scalar, String)>) -> Seq<(Scalar, Seq<char>)> {
    v.map_values(|e: (Scalar, String)| (e.0, e.1@))
}

impl VtuWriter {
    pub fn new(dir: &str, stem: &str) -> (r: VtuWriter)
        ensures
            r.dir@ == dir@,
            r.stem@ == stem@,
            r.series.len() == 0,
    {
        VtuWriter { dir: copy(dir), stem: copy(stem), series: Vec::new() }
    }

    /// The file of a step. It is listed once it has been written, by
    /// [`VtuWriter::list_step`]: a step that cannot be written is not.
    pub fn write_step(&self, ctx: &WriteCtx, corners: &Vec<Vec3>) -> (r: Result<OutputFile, Error>)
        requires
            ctx.mesh.mapped(),
            corners.len() == 4 * faces_before(*ctx.mesh, ctx.mesh.n_cells as int),
            ({
                let b = mesh_blocks(*ctx.mesh, corners@, ctx.fields@, Some(ctx.time));
                offset_of(b, b.len() as int) <= u64::MAX
            }),
        ensures
            match (r, mesh_file(*ctx.mesh, corners@, ctx.fields@, Some(ctx.time))) {
                (Err(e), Err(f)) => e@ == f,
                (Ok(o), Ok(b)) => o@ == (
                    under(self.dir@, step_file(self.stem@, ctx.step as nat, "vtu"@)),
                    b,
                ),
                _ => false,
            },
    {
        match write_vtu(ctx.mesh, corners, ctx.fields, Some(ctx.time)) {
            Ok(contents) => {
                let name = step_name(&self.stem, ctx.step, "vtu");
                Ok(OutputFile { path: path_under(&self.dir, &name), contents })
            },
            Err(e) => Err(e),
        }
    }

    /// Take the file of a step, which has been written, into the list; the result is
    /// the file of the list, with all the steps so far.
    pub fn list_step(&mut self, ctx: &WriteCtx) -> (r: OutputFile)
        ensures
            final(self).dir@ == old(self).dir@,
            final(self).stem@ == old(self).stem@,
            series_of(final(self).series@) == series_of(old(self).series@).push(
                (ctx.time, step_file(old(self).stem@, ctx.step as nat, "vtu"@)),
            ),
            r@ == (
                under(old(self).dir@, old(self).stem@ + ".pvd"@),
                encoded(series_text(final(self).series@)),
            ),
    {
        let ghost was = self.series@;
        let name = step_name(&self.stem, ctx.step, "vtu");
        let ghost entry = (ctx.time, name);
        self.series.push((ctx.time, name));
        assert(series_of(self.series@) =~= series_of(was).push((ctx.time, entry.1@)));
        let mut list = copy(&self.stem);
        push_text(&mut list, ".pvd");
        OutputFile {
            path: path_under(&self.dir, &list),
            contents: bytes_of(&write_pvd(&self.series)),
        }
    }
}

// --------------------------------------------------------------------------
//  Volumes
// --------------------------------------------------------------------------
/// What there is for a mesh that is no uniform box.
pub open spec fn mesh_shaped() -> Seq<char> {
    "foam, vtu, usda (boundary surface only)"@
}

/// The files of a volume format: one, or what the policy makes of a mesh that is no
/// uniform box.
pub open spec fn volume_files(
    p: Policy,
    dir: Seq<char>,
    stem: Seq<char>,
    step: nat,
    ext: Seq<char>,
    file: Option<Result<Seq<u8>, Failure>>,
) -> Result<Seq<(Seq<char>, Seq<u8>)>, Failure> {
    match file {
        None => decided(
            p,
            refusal(
                "-output "@ + ext,
                "a non-Cartesian mesh"@,
                mesh_shaped(),
                Seq::empty(),
                "skipping the "@ + ext + " write for this mesh"@,
            ),
            Seq::empty(),
        ),
        Some(Err(f)) => Err(f),
        Some(Ok(b)) => Ok(seq![(under(dir, step_file(stem, step, ext)), b)]),
    }
}

fn refuse_mesh(p: Policy, ext: &str, notes: &mut Vec<String>) -> (r: Result<Vec<OutputFile>, Error>)
    ensures
        texts(final(notes)@) == texts(old(notes)@) + passed_over(
            volume_files(strict(), Seq::empty(), Seq::empty(), 0, ext@, None),
            volume_files(p, Seq::empty(), Seq::empty(), 0, ext@, None),
        ),
        files_agree(r, volume_files(p, Seq::empty(), Seq::empty(), 0, ext@, None)),
{
    let mut setting = copy("-output ");
    push_text(&mut setting, ext);
    let mut fallback = copy("skipping the ");
    push_text(&mut fallback, ext);
    push_text(&mut fallback, " write for this mesh");
    let none: Vec<OutputFile> = Vec::new();
    assert(files_of(none@) =~= Seq::empty());
    unsupported(
        p,
        &setting,
        "a non-Cartesian mesh",
        "foam, vtu, usda (boundary surface only)",
        &fallback,
        none,
        notes,
    )
}

fn single_file(dir: &str, stem: &str, step: usize, ext: &str, contents: Vec<u8>) -> (r: Vec<
    OutputFile,
>)
    ensures
        files_of(r@) == seq![(under(dir@, step_file(stem@, step as nat, ext@)), contents@)],
{
    let mut out: Vec<OutputFile> = Vec::new();
    out.push(OutputFile { path: path_under(dir, &step_name(stem, step, ext)), contents });
    assert(files_of(out@) =~= seq![out@[0]@]);
    out
}

/// Writes a NanoVDB file per step.
#[derive(Debug, Clone)]
pub struct NvdbWriter {
    pub dir: String,
    pub stem: String,
    pub precision: Precision,
}

impl NvdbWriter {
    pub fn new(dir: &str, stem: &str, precision: Precision) -> (r: NvdbWriter)
        ensures
            r.dir@ == dir@,
            r.stem@ == stem@,
            r.precision == precision,
    {
        NvdbWriter { dir: copy(dir), stem: copy(stem), precision }
    }

    /// The file of a step. `fields` holds the step's fields with the statistics of
    /// their nodes.
    pub fn write_step(
        &self,
        p: Policy,
        ctx: &WriteCtx,
        frame: &Frame,
        fields: &Vec<GridField>,
        notes: &mut Vec<String>,
    ) -> (r: Result<Vec<OutputFile>, Error>)
        requires
            ctx.cart matches Some(g) ==> {
                &&& g.nx > 0 && g.ny > 0 && g.nz > 0 ==> is_block(*g) && has_room(
                    *g,
                    self.precision,
                )
                &&& forall|i: int| 0 <= i < fields.len() ==> (#[trigger] fields@[i]).whole(*g)
            },
        ensures
            texts(final(notes)@) == texts(old(notes)@) + passed_over(
                volume_files(
                    strict(),
                    self.dir@,
                    self.stem@,
                    ctx.step as nat,
                    "nvdb"@,
                    match ctx.cart {
                        Some(g) => Some(file_of(*g, *frame, fields@, self.precision)),
                        None => None,
                    },
                ),
                volume_files(
                    p,
                    self.dir@,
                    self.stem@,
                    ctx.step as nat,
                    "nvdb"@,
                    match ctx.cart {
                        Some(g) => Some(file_of(*g, *frame, fields@, self.precision)),
                        None => None,
                    },
                ),
            ),
            files_agree(
                r,
                volume_files(
                    p,
                    self.dir@,
                    self.stem@,
                    ctx.step as nat,
                    "nvdb"@,
                    match ctx.cart {
                        Some(g) => Some(file_of(*g, *frame, fields@, self.precision)),
                        None => None,
                    },
                ),
            ),
    {
        match ctx.cart {
            None => refuse_mesh(p, "nvdb", notes),
            Some(grid) => match nvdb::write(grid, frame, fields, self.precision) {
                Ok(b) => Ok(single_file(&self.dir, &self.stem, ctx.step, "nvdb", b)),
                Err(e) => Err(e),
            },
        }
    }
}

/// Writes an OpenVDB file per step.
#[derive(Debug, Clone)]
pub struct VdbWriter {
    pub dir: String,
    pub stem: String,
}

impl VdbWriter {
    pub fn new(dir: &str, stem: &str) -> (r: VdbWriter)
        ensures
            r.dir@ == dir@,
            r.stem@ == stem@,
    {
        VdbWriter { dir: copy(dir), stem: copy(stem) }
    }

    /// The file of a step. `mags` holds the magnitudes of each field of vectors.
    pub fn write_step(
        &self,
        p: Policy,
        ctx: &WriteCtx,
        mags: &Vec<Vec<Scalar>>,
        notes: &mut Vec<String>,
    ) -> (r: Result<Vec<OutputFile>, Error>)
        requires
            ctx.cart matches Some(g) ==> {
                &&& mags.len() == ctx.fields.len()
                &&& forall|i: int|
                    0 <= i < ctx.fields.len() && (#[trigger] ctx.fields@[i]).values is Vector
                        ==> mags@[i].len() == ctx.fields@[i].count()
                &&& g.nx > 0 && g.ny > 0 && g.nz > 0 ==> is_block(*g)
                &&& archive_of(*g, ctx.fields@, mags@) matches Ok(b) ==> b.len() <= u64::MAX
            },
        ensures
            texts(final(notes)@) == texts(old(notes)@) + passed_over(
                volume_files(
                    strict(),
                    self.dir@,
                    self.stem@,
                    ctx.step as nat,
                    "vdb"@,
                    match ctx.cart {
                        Some(g) => Some(archive_of(*g, ctx.fields@, mags@)),
                        None => None,
                    },
                ),
                volume_files(
                    p,
                    self.dir@,
                    self.stem@,
                    ctx.step as nat,
                    "vdb"@,
                    match ctx.cart {
                        Some(g) => Some(archive_of(*g, ctx.fields@, mags@)),
                        None => None,
                    },
                ),
            ),
            files_agree(
                r,
                volume_files(
                    p,
                    self.dir@,
                    self.stem@,
                    ctx.step as nat,
                    "vdb"@,
                    match ctx.cart {
                        Some(g) => Some(archive_of(*g, ctx.fields@, mags@)),
                        None => None,
                    },
                ),
            ),
    {
        match ctx.cart {
            None => refuse_mesh(p, "vdb", notes),
            Some(grid) => match vdb::write(grid, ctx.fields, mags) {
                Ok(b) => Ok(single_file(&self.dir, &self.stem, ctx.step, "vdb", b)),
                Err(e) => Err(e),
            },
        }
    }
}

// --------------------------------------------------------------------------
//  Scenes
// --------------------------------------------------------------------------
/// The files of one grid, step by step.
#[derive(Debug)]
pub struct GridSeries {
    pub name: String,
    pub frames: Vec<VdbFrame>,
}

/// A frame's time and file.
pub type FrameView = (Scalar, Seq<char>);

pub open spec fn frames_of(v: Seq<VdbFrame>) -> Seq<FrameView> {
    v.map_values(|f: VdbFrame| (f.time, f.path@))
}

impl View for GridSeries {
    type V = (Seq<char>, Seq<FrameView>);

    open spec fn view(&self) -> (Seq<char>, Seq<FrameView>) {
        (self.name@, frames_of(self.frames@))
    }
}

/// The names and the frames of some series.
pub open spec fn all_series(v: Seq<GridSeries>) -> Seq<(Seq<char>, Seq<FrameView>)> {
    v.map_values(|s: GridSeries| s@)
}

/// Where the series of a grid is, from `i` on.
pub open spec fn series_at(s: Seq<(Seq<char>, Seq<FrameView>)>, name: Seq<char>, i: int) -> int
    decreases s.len() - i,
{
    if i < 0 || i >= s.len() || s[i].0 == name {
        i
    } else {
        series_at(s, name, i + 1)
    }
}

/// A frame more for a grid. A new grid comes last.
pub open spec fn with_frame(
    s: Seq<(Seq<char>, Seq<FrameView>)>,
    name: Seq<char>,
    f: FrameView,
) -> Seq<(Seq<char>, Seq<FrameView>)> {
    let i = series_at(s, name, 0);
    if i < s.len() {
        s.update(i, (name, s[i].1.push(f)))
    } else {
        s.push((name, seq![f]))
    }
}

/// The grids that a field makes in a volume file.
pub open spec fn grid_names(f: OutputField) -> Seq<Seq<char>> {
    match f.values {
        FieldValues::Scalar(_) => seq![f.name@],
        FieldValues::Vector(_) => seq![
            f.name@ + ".x"@,
            f.name@ + ".y"@,
            f.name@ + ".z"@,
            f.name@ + ".mag"@,
        ],
    }
}

/// A frame more for the first `n` of some grids.
pub open spec fn with_frames(
    s: Seq<(Seq<char>, Seq<FrameView>)>,
    names: Seq<Seq<char>>,
    f: FrameView,
    n: int,
) -> Seq<(Seq<char>, Seq<FrameView>)>
    decreases n,
{
    if n <= 0 {
        s
    } else {
        with_frame(with_frames(s, names, f, n - 1), names[n - 1], f)
    }
}

/// A frame more for every grid of the first `n` fields.
pub open spec fn after_step(
    s: Seq<(Seq<char>, Seq<FrameView>)>,
    fields: Seq<OutputField>,
    f: FrameView,
    n: int,
) -> Seq<(Seq<char>, Seq<FrameView>)>
    decreases n,
{
    if n <= 0 {
        s
    } else {
        let names = grid_names(fields[n - 1]);
        with_frames(after_step(s, fields, f, n - 1), names, f, names.len() as int)
    }
}

/// A name without points, as a prim may have it.
pub open spec fn prim_name(s: Seq<char>) -> Seq<char> {
    s.map_values(
        |c: char|
            if c == '.' {
                '_'
            } else {
                c
            },
    )
}

/// Is this the volume of a series?
pub open spec fn is_volume_of(v: VolumeAsset, s: (Seq<char>, Seq<FrameView>)) -> bool {
    &&& v.name@ == prim_name(s.0)
    &&& v.field_name@ == s.0
    &&& v.vdb matches VdbSource::Series(f) && frames_of(f@) == s.1
    &&& v.extent is None
}

/// Is this the surface of a mesh's boundary?
pub open spec fn is_surface_of(r: SurfaceOut, m: HostMesh, quads: Seq<Quad>) -> bool {
    let d = drawn(quads, quads.len() as int);
    &&& r.points@ == surface_points(quads, d)
    &&& r.face_vertex_counts@ == Seq::new(2 * d.len(), |i: int| 3u32)
    &&& r.face_vertex_indices@ == Seq::new(6 * d.len(), |i: int| triangle_corner(i))
    &&& r.extent == box_of(r.points@, r.points.len() as int)
    &&& subsets_are(r.patches@, m, d)
}

/// Writes one scene, which points at the volume files of every step so far.
#[derive(Debug)]
pub struct UsdaWriter {
    pub path: String,
    pub vdb_dir: String,
    pub vdb_stem: String,
    pub vdb_ext: String,
    /// The grids in the order in which they were first seen.
    pub series: Vec<GridSeries>,
}

fn prim_name_of(s: &str) -> (r: String)
    ensures
        r@ == prim_name(s@),
{
    let c = chars_of(s);
    let mut v: Vec<char> = Vec::new();
    let mut i: usize = 0;
    while i < c.len()
        invariant
            i <= c.len(),
            c@ == s@,
            v@ == prim_name(s@).take(i as int),
        decreases c.len() - i,
    {
        v.push(
            if c[i] == '.' {
                '_'
            } else {
                c[i]
            },
        );
        i = i + 1;
        assert(v@ =~= prim_name(s@).take(i as int));
    }
    assert(v@ =~= prim_name(s@));
    string_of(&v)
}

fn copy_frames(v: &Vec<VdbFrame>) -> (r: Vec<VdbFrame>)
    ensures
        frames_of(r@) == frames_of(v@),
{
    let mut out: Vec<VdbFrame> = Vec::new();
    let mut i: usize = 0;
    while i < v.len()
        invariant
            i <= v.len(),
            out.len() == i,
            forall|k: int|
                0 <= k < i ==> (#[trigger] out@[k]).time == v@[k].time && out@[k].path@
                    == v@[k].path@,
        decreases v.len() - i,
    {
        out.push(VdbFrame { time: v[i].time, path: copy(&v[i].path) });
        i = i + 1;
    }
    assert(frames_of(out@) =~= frames_of(v@));
    out
}

/// Every grid has one series.
pub open spec fn one_series_each(s: Seq<(Seq<char>, Seq<FrameView>)>) -> bool {
    forall|i: int, j: int| 0 <= i < j < s.len() ==> (#[trigger] s[i]).0 != (#[trigger] s[j]).0
}

pub(crate) proof fn lemma_series_at(s: Seq<(Seq<char>, Seq<FrameView>)>, name: Seq<char>, i: int)
    requires
        0 <= i <= s.len(),
    ensures
        i <= series_at(s, name, i) <= s.len(),
        series_at(s, name, i) < s.len() ==> s[series_at(s, name, i)].0 == name,
        forall|k: int| i <= k < series_at(s, name, i) ==> (#[trigger] s[k]).0 != name,
    decreases s.len() - i,
{
    if i < s.len() && s[i].0 != name {
        lemma_series_at(s, name, i + 1);
    }
}

/// A frame more leaves one series for every grid, drops none of the frames, and
/// leaves the other grids as they are.
pub proof fn frames_are_kept(s: Seq<(Seq<char>, Seq<FrameView>)>, name: Seq<char>, f: FrameView)
    requires
        one_series_each(s),
    ensures
        one_series_each(with_frame(s, name, f)),
        s.len() <= with_frame(s, name, f).len(),
        forall|i: int|
            0 <= i < s.len() ==> (#[trigger] with_frame(s, name, f)[i]).0 == s[i].0 && (if s[i].0
                == name {
                with_frame(s, name, f)[i].1 == s[i].1.push(f)
            } else {
                with_frame(s, name, f)[i].1 == s[i].1
            }),
        exists|i: int|
            0 <= i < with_frame(s, name, f).len() && (#[trigger] with_frame(s, name, f)[i]).0
                == name && with_frame(s, name, f)[i].1.last() == f,
{
    lemma_series_at(s, name, 0);
    let i = series_at(s, name, 0);
    let t = with_frame(s, name, f);
    assert(t[i].0 == name && t[i].1.last() == f);
}

proof fn lemma_frames_kept(
    s: Seq<(Seq<char>, Seq<FrameView>)>,
    names: Seq<Seq<char>>,
    f: FrameView,
    n: int,
)
    requires
        one_series_each(s),
    ensures
        one_series_each(with_frames(s, names, f, n)),
    decreases n,
{
    if n > 0 {
        lemma_frames_kept(s, names, f, n - 1);
        frames_are_kept(with_frames(s, names, f, n - 1), names[n - 1], f);
    }
}

impl UsdaWriter {
    /// Every grid has one series.
    pub open spec fn wf(self) -> bool {
        one_series_each(all_series(self.series@))
    }

    /// The volume file of a step, as the scene points at it.
    pub open spec fn volume_path(self, step: nat) -> Seq<char> {
        "./"@ + self.vdb_dir@ + "/"@ + step_file(self.vdb_stem@, step, self.vdb_ext@)
    }

    /// All but the series.
    pub open spec fn same_target(self, other: UsdaWriter) -> bool {
        &&& self.path@ == other.path@
        &&& self.vdb_dir@ == other.vdb_dir@
        &&& self.vdb_stem@ == other.vdb_stem@
        &&& self.vdb_ext@ == other.vdb_ext@
    }

    pub fn new(path: &str, vdb_dir: &str, vdb_stem: &str, vdb_ext: &str) -> (r: UsdaWriter)
        ensures
            r.wf(),
            r.path@ == path@,
            r.vdb_dir@ == vdb_dir@,
            r.vdb_stem@ == vdb_stem@,
            r.vdb_ext@ == vdb_ext@,
            r.series@.len() == 0,
    {
        UsdaWriter {
            path: copy(path),
            vdb_dir: copy(vdb_dir),
            vdb_stem: copy(vdb_stem),
            vdb_ext: copy(vdb_ext),
            series: Vec::new(),
        }
    }

    fn push_frame(&mut self, name: &str, time: Scalar, file: &str)
        requires
            old(self).wf(),
        ensures
            final(self).wf(),
            final(self).same_target(*old(self)),
            all_series(final(self).series@) == with_frame(
                all_series(old(self).series@),
                name@,
                (time, file@),
            ),
    {
        let ghost start = all_series(self.series@);
        let ghost f: FrameView = (time, file@);
        proof {
            frames_are_kept(start, name@, f);
        }
        let mut i: usize = 0;
        while i < self.series.len() && !same(&self.series[i].name, name)
            invariant
                i <= self.series.len(),
                start == all_series(self.series@),
                self.same_target(*old(self)),
                series_at(start, name@, 0) == series_at(start, name@, i as int),
            decreases self.series.len() - i,
        {
            assert(start[i as int].0 == self.series@[i as int].name@);
            i = i + 1;
        }
        let frame = VdbFrame { time, path: copy(file) };
        if i < self.series.len() {
            assert(start[i as int].0 == self.series@[i as int].name@);
            let ghost was = self.series@[i as int];
            let ghost before = self.series@;
            let mut entry = GridSeries { name: copy(name), frames: Vec::new() };
            std::mem::swap(&mut entry, &mut self.series[i]);
            let ghost had = entry.frames@;
            entry.frames.push(frame);
            assert(frames_of(entry.frames@) =~= frames_of(had).push(f));
            std::mem::swap(&mut entry, &mut self.series[i]);
            assert(all_series(self.series@) =~= with_frame(start, name@, f));
        } else {
            let mut frames: Vec<VdbFrame> = Vec::new();
            frames.push(frame);
            assert(frames_of(frames@) =~= seq![f]);
            self.series.push(GridSeries { name: copy(name), frames });
            assert(all_series(self.series@) =~= with_frame(start, name@, f));
        }
    }

    fn push_field(&mut self, field: &OutputField, time: Scalar, file: &str)
        requires
            old(self).wf(),
        ensures
            final(self).wf(),
            final(self).same_target(*old(self)),
            all_series(final(self).series@) == with_frames(
                all_series(old(self).series@),
                grid_names(*field),
                (time, file@),
                grid_names(*field).len() as int,
            ),
    {
        proof {
            reveal_with_fuel(with_frames, 5);
        }
        match &field.values {
            FieldValues::Scalar(_) => {
                self.push_frame(field.name, time, file);
            },
            FieldValues::Vector(_) => {
                let mut x = copy(field.name);
                push_text(&mut x, ".x");
                self.push_frame(&x, time, file);
                let mut y = copy(field.name);
                push_text(&mut y, ".y");
                self.push_frame(&y, time, file);
                let mut z = copy(field.name);
                push_text(&mut z, ".z");
                self.push_frame(&z, time, file);
                let mut m = copy(field.name);
                push_text(&mut m, ".mag");
                self.push_frame(&m, time, file);
            },
        }
    }

    fn volumes(&self) -> (r: Vec<VolumeAsset>)
        ensures
            r.len() == self.series.len(),
            forall|k: int|
                0 <= k < r.len() ==> is_volume_of(#[trigger] r@[k], all_series(self.series@)[k]),
    {
        let mut out: Vec<VolumeAsset> = Vec::new();
        let mut i: usize = 0;
        while i < self.series.len()
            invariant
                i <= self.series.len(),
                out.len() == i,
                forall|k: int|
                    0 <= k < i ==> is_volume_of(#[trigger] out@[k], all_series(self.series@)[k]),
            decreases self.series.len() - i,
        {
            let s = &self.series[i];
            assert(all_series(self.series@)[i as int] == s@);
            out.push(
                VolumeAsset {
                    name: prim_name_of(&s.name),
                    field_name: copy(&s.name),
                    vdb: VdbSource::Series(copy_frames(&s.frames)),
                    extent: None,
                },
            );
            i = i + 1;
        }
        out
    }

    /// The scene after a step: a volume for every grid seen so far, with a frame for
    /// every step that had it, and the boundary of the mesh.
    pub fn write_step(&mut self, ctx: &WriteCtx, quads: &Vec<Quad>) -> (r: SceneSpec)
        requires
            old(self).wf(),
            quads.len() == boundary_count(*ctx.mesh),
            quads.len() <= 0x3fff_ffff,
        ensures
            final(self).wf(),
            final(self).same_target(*old(self)),
            all_series(final(self).series@) == after_step(
                all_series(old(self).series@),
                ctx.fields@,
                (ctx.time, old(self).volume_path(ctx.step as nat)),
                ctx.fields.len() as int,
            ),
            r.volumes.len() == final(self).series.len(),
            forall|k: int|
                0 <= k < r.volumes.len() ==> is_volume_of(
                    #[trigger] r.volumes@[k],
                    all_series(final(self).series@)[k],
                ),
            r.boundary matches Some(s) && is_surface_of(s, *ctx.mesh, quads@),
    {
        let mut file = copy("./");
        push_text(&mut file, &self.vdb_dir);
        push_text(&mut file, "/");
        push_text(&mut file, &step_name(&self.vdb_stem, ctx.step, &self.vdb_ext));
        let ghost start = all_series(self.series@);
        let ghost f: FrameView = (ctx.time, file@);
        let mut i: usize = 0;
        while i < ctx.fields.len()
            invariant
                i <= ctx.fields.len(),
                self.wf(),
                self.same_target(*old(self)),
                f == (ctx.time, file@),
                all_series(self.series@) == after_step(start, ctx.fields@, f, i as int),
            decreases ctx.fields.len() - i,
        {
            self.push_field(&ctx.fields[i], ctx.time, &file);
            i = i + 1;
        }
        SceneSpec {
            volumes: self.volumes(),
            boundary: Some(boundary_surface(ctx.mesh, quads)),
        }
    }
}

} // verus!
