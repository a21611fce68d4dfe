//! A mesh as it is stored in `constant/polyMesh`, and what a solver makes of it.
//!
//! A patch starts at an offset among the boundary faces, never at a face of the
//! whole mesh. The internal faces come first, in upper-triangular order. Face
//! `k` of one half of a cyclic pair is the partner of face `k` of the other.

use vstd::prelude::*;

use crate::error::{parse_error, Error, Failure};
use crate::list::first;
use crate::mesh::{
    copy_list, copy_part, copy_patches, filled, kind_of_type, origin, patches_of, repeated,
    HostMesh, Label, Patch, PatchInfo, PatchKind, Vec3,
};
use crate::reader::{
    ahead_of, closed_by, gather_raw, label_at, label_reader, lemma_ahead_of, lemma_nothing_behind,
    lemma_raw_at, list_at, name_at, no_punct, open, opened, raw_at, read_labels, read_vectors, several,
    to_the_end, vector_reader, Read,
};
use crate::scalar::{Scalar, ONE};
use crate::text::{
    copy, decimal, push_decimal, push_signed, push_text, same, signed_decimal, texts,
};
use crate::tokenizer::{entry_end, lemma_entry_end, Stream, Tokenizer};
use crate::writer::{path_under, under};

verus! {

// --------------------------------------------------------------------------
//  What is stored
// --------------------------------------------------------------------------
/// A mesh as it is stored, before any geometry.
#[derive(Debug, Clone)]
pub struct PolyMeshRaw {
    pub points: Vec<Vec3>,
    /// All faces, the internal ones first.
    pub faces: Vec<Vec<Label>>,
    pub owner: Vec<Label>,
    pub neighbour: Vec<Label>,
    pub patches: Vec<PatchInfo>,
}

/// The contents of a [`PolyMeshRaw`].
pub struct RawMesh {
    pub points: Seq<Vec3>,
    pub faces: Seq<Seq<Label>>,
    pub owner: Seq<Label>,
    pub neighbour: Seq<Label>,
    pub patches: Seq<Patch>,
}

/// The contents of a list of faces.
pub open spec fn faces_of(v: Seq<Vec<Label>>) -> Seq<Seq<Label>> {
    v.map_values(|f: Vec<Label>| f@)
}

impl View for PolyMeshRaw {
    type V = RawMesh;

    open spec fn view(&self) -> RawMesh {
        RawMesh {
            points: self.points@,
            faces: faces_of(self.faces@),
            owner: self.owner@,
            neighbour: self.neighbour@,
            patches: patches_of(self.patches@),
        }
    }
}

impl Default for PolyMeshRaw {
    /// A mesh with nothing in it.
    fn default() -> (r: PolyMeshRaw)
        ensures
            r.points.len() == 0,
            r.faces.len() == 0,
            r.owner.len() == 0,
            r.neighbour.len() == 0,
            r.patches.len() == 0,
    {
        PolyMeshRaw {
            points: Vec::new(),
            faces: Vec::new(),
            owner: Vec::new(),
            neighbour: Vec::new(),
            patches: Vec::new(),
        }
    }
}

/// A text and the name of the file it was read from.
#[derive(Debug, Clone)]
pub struct TextFile {
    pub path: String,
    pub text: String,
}

impl TextFile {
    /// The text has a length that can be counted past.
    pub open spec fn fits(&self) -> bool {
        self.text@.len() < usize::MAX
    }
}

/// The five files of a mesh.
#[derive(Debug, Clone)]
pub struct MeshFiles {
    pub dir: String,
    pub points: TextFile,
    pub faces: TextFile,
    pub owner: TextFile,
    pub neighbour: TextFile,
    pub boundary: TextFile,
}

impl MeshFiles {
    pub open spec fn fit(&self) -> bool {
        self.points.fits() && self.faces.fits() && self.owner.fits() && self.neighbour.fits()
            && self.boundary.fits()
    }
}

// --------------------------------------------------------------------------
//  Points, faces, labels
// --------------------------------------------------------------------------
/// The points of a `points` file.
pub open spec fn points_in(text: Seq<char>, path: Seq<char>) -> Result<Seq<Vec3>, Failure> {
    match opened(text, path) {
        Err(f) => Err(f),
        Ok(s) => to_the_end(s, list_at(s, "negative point count"@, false, vector_reader())),
    }
}

/// Read a `points` file: `n ( (x y z) ... )`, or without the count.
pub fn read_points(file: &TextFile) -> (r: Result<Vec<Vec3>, Error>)
    requires
        file.fits(),
    ensures
        match (r, points_in(file.text@, file.path@)) {
            (Ok(v), Ok(w)) => v@ == w,
            (Err(e), Err(f)) => e@ == f,
            _ => false,
        },
{
    let mut ts: Tokenizer = match open(&file.text, &file.path) {
        Ok(ts) => ts,
        Err(e) => {
            return Err(e);
        },
    };
    match read_vectors(&mut ts, "negative point count", false) {
        Err(e) => Err(e),
        Ok(v) => match ts.check_scan_error() {
            Err(e) => Err(e),
            Ok(_) => Ok(v),
        },
    }
}

/// The labels of an `owner` or `neighbour` file.
pub open spec fn labels_in(text: Seq<char>, path: Seq<char>) -> Result<Seq<Label>, Failure> {
    match opened(text, path) {
        Err(f) => Err(f),
        Ok(s) => to_the_end(s, list_at(s, "negative list size"@, true, label_reader())),
    }
}

/// Read an `owner` or `neighbour` file: `n ( i i i )`, `n{i}`, or `( i i i )`.
pub fn read_label_list(file: &TextFile) -> (r: Result<Vec<Label>, Error>)
    requires
        file.fits(),
    ensures
        match (r, labels_in(file.text@, file.path@)) {
            (Ok(v), Ok(w)) => v@ == w,
            (Err(e), Err(f)) => e@ == f,
            _ => false,
        },
{
    let mut ts: Tokenizer = match open(&file.text, &file.path) {
        Ok(ts) => ts,
        Err(e) => {
            return Err(e);
        },
    };
    match read_labels(&mut ts, "negative list size", true) {
        Err(e) => Err(e),
        Ok(v) => match ts.check_scan_error() {
            Err(e) => Err(e),
            Ok(_) => Ok(v),
        },
    }
}

/// One face, `n ( a b c d )`: the count is always written.
pub open spec fn face_at(s: Stream) -> Read<Seq<Label>> {
    match label_at(s) {
        Err(f) => Err(f),
        Ok((n, a)) => if n < 0 {
            Err(s.to(a).failure("negative vertex count"@))
        } else if !s.to(a).is_punct('(') {
            Err(no_punct(s.to(a), '('))
        } else {
            closed_by(s, several(s.to(a + 1), n as int, label_reader()), ')')
        },
    }
}

pub open spec fn face_reader() -> spec_fn(Stream) -> Read<Seq<Label>> {
    |s: Stream| face_at(s)
}

/// The faces of a `faces` file.
pub open spec fn faces_in(text: Seq<char>, path: Seq<char>) -> Result<Seq<Seq<Label>>, Failure> {
    match opened(text, path) {
        Err(f) => Err(f),
        Ok(s) => to_the_end(
            s,
            match label_at(s) {
                Err(f) => Err(f),
                Ok((n, a)) => if n < 0 {
                    Err(s.to(a).failure("negative face count"@))
                } else if !s.to(a).is_punct('(') {
                    Err(no_punct(s.to(a), '('))
                } else {
                    closed_by(s, several(s.to(a + 1), n as int, face_reader()), ')')
                },
            },
        ),
    }
}

fn read_face(ts: &mut Tokenizer) -> (r: Result<Vec<Label>, Error>)
    requires
        old(ts).wf(),
    ensures
        final(ts).wf(),
        match (r, face_at(old(ts)@)) {
            (Ok(v), Ok((w, e))) => v@ == w && final(ts)@ == old(ts)@.to(e),
            (Err(e), Err(f)) => e@ == f,
            _ => false,
        },
{
    let n: Label = match ts.expect_label() {
        Ok(n) => n,
        Err(e) => {
            return Err(e);
        },
    };
    if n < 0 {
        return Err(ts.err("negative vertex count"));
    }
    match ts.expect_punct('(') {
        Ok(_) => {},
        Err(e) => {
            return Err(e);
        },
    }
    match crate::reader::read_several_labels(ts, n as usize) {
        Err(e) => Err(e),
        Ok(v) => match ts.expect_punct(')') {
            Ok(_) => Ok(v),
            Err(e) => Err(e),
        },
    }
}

fn read_several_faces(ts: &mut Tokenizer, n: usize) -> (r: Result<Vec<Vec<Label>>, Error>)
    requires
        old(ts).wf(),
    ensures
        final(ts).wf(),
        match (r, several(old(ts)@, n as int, face_reader())) {
            (Ok(v), Ok((w, e))) => faces_of(v@) == w && final(ts)@ == old(ts)@.to(e),
            (Err(e), Err(f)) => e@ == f,
            _ => false,
        },
{
    let ghost s = ts@;
    let ghost whole = several(s, n as int, face_reader());
    let mut v: Vec<Vec<Label>> = Vec::new();
    let mut i: usize = 0;
    proof {
        assert(faces_of(v@) =~= Seq::empty());
        lemma_ahead_of::<Seq<Label>>(Seq::empty(), arbitrary(), whole);
    }
    while i < n
        invariant
            i <= n,
            ts.wf(),
            s == old(ts)@,
            ts@ == s.to(ts@.pos),
            whole == several(s, n as int, face_reader()),
            whole == ahead_of(faces_of(v@), several(ts@, n - i, face_reader())),
        decreases n - i,
    {
        let ghost here = ts@;
        let x: Vec<Label> = match read_face(ts) {
            Ok(x) => x,
            Err(e) => {
                return Err(e);
            },
        };
        proof {
            lemma_ahead_of(faces_of(v@), x@, several(ts@, n - i - 1, face_reader()));
            assert(face_reader()(here) == face_at(here));
            assert(faces_of(v@.push(x)) =~= faces_of(v@).push(x@));
        }
        v.push(x);
        i = i + 1;
    }
    proof {
        lemma_nothing_behind(faces_of(v@), ts@.pos);
    }
    Ok(v)
}

/// Read a `faces` file. The compact `4(a b c d)` and the long `4 (a b c d)` read
/// the same.
pub fn read_faces(file: &TextFile) -> (r: Result<Vec<Vec<Label>>, Error>)
    requires
        file.fits(),
    ensures
        match (r, faces_in(file.text@, file.path@)) {
            (Ok(v), Ok(w)) => faces_of(v@) == w,
            (Err(e), Err(f)) => e@ == f,
            _ => false,
        },
{
    let mut ts: Tokenizer = match open(&file.text, &file.path) {
        Ok(ts) => ts,
        Err(e) => {
            return Err(e);
        },
    };
    let n: Label = match ts.expect_label() {
        Ok(n) => n,
        Err(e) => {
            return Err(e);
        },
    };
    if n < 0 {
        return Err(ts.err("negative face count"));
    }
    match ts.expect_punct('(') {
        Ok(_) => {},
        Err(e) => {
            return Err(e);
        },
    }
    let v: Vec<Vec<Label>> = match read_several_faces(&mut ts, n as usize) {
        Err(e) => {
            return Err(e);
        },
        Ok(v) => v,
    };
    match ts.expect_punct(')') {
        Ok(_) => {},
        Err(e) => {
            return Err(e);
        },
    }
    match ts.check_scan_error() {
        Err(e) => Err(e),
        Ok(_) => Ok(v),
    }
}

// --------------------------------------------------------------------------
//  The boundary
// --------------------------------------------------------------------------
/// What is written of one patch.
#[derive(Debug, Clone)]
pub struct PatchEntry {
    pub name: String,
    pub patch_type: String,
    pub neighbour_patch: String,
    pub n_faces: Label,
    pub start_face: Label,
}

/// The contents of a [`PatchEntry`].
pub struct Written {
    pub name: Seq<char>,
    pub patch_type: Seq<char>,
    pub neighbour_patch: Seq<char>,
    pub n_faces: Label,
    pub start_face: Label,
}

impl View for PatchEntry {
    type V = Written;

    open spec fn view(&self) -> Written {
        Written {
            name: self.name@,
            patch_type: self.patch_type@,
            neighbour_patch: self.neighbour_patch@,
            n_faces: self.n_faces,
            start_face: self.start_face,
        }
    }
}

/// An entry as far as it has been read.
pub struct Partial {
    pub patch_type: Seq<char>,
    pub neighbour_patch: Seq<char>,
    pub n_faces: Option<Label>,
    pub start_face: Option<Label>,
}

/// An entry of which nothing has been read.
pub open spec fn nothing_yet() -> Partial {
    Partial {
        patch_type: Seq::empty(),
        neighbour_patch: Seq::empty(),
        n_faces: None,
        start_face: None,
    }
}

/// One label and the `;` behind it.
pub open spec fn count_at(s: Stream) -> Read<Label> {
    closed_by(s, label_at(s), ';')
}

/// One key of a patch and its value.
pub open spec fn patch_key(s: Stream, p: Partial) -> Read<Partial> {
    match s.ahead(0) {
        None => Err(s.failure("expected a name"@)),
        Some(t) => if t is Punct {
            Err(s.failure("expected a keyword"@))
        } else {
            let k = t.text();
            let v = s.to(s.pos + 1);
            if v.is_punct('{') {
                match entry_end(v) {
                    Err(f) => Err(f),
                    Ok(e) => Ok((p, e)),
                }
            } else if k == "type"@ {
                match raw_at(v, Seq::empty()) {
                    Err(f) => Err(f),
                    Ok((x, e)) => Ok((Partial { patch_type: x, ..p }, e)),
                }
            } else if k == "neighbourPatch"@ {
                match raw_at(v, Seq::empty()) {
                    Err(f) => Err(f),
                    Ok((x, e)) => Ok((Partial { neighbour_patch: x, ..p }, e)),
                }
            } else if k == "nFaces"@ {
                match count_at(v) {
                    Err(f) => Err(f),
                    Ok((x, e)) => Ok((Partial { n_faces: Some(x), ..p }, e)),
                }
            } else if k == "startFace"@ {
                match count_at(v) {
                    Err(f) => Err(f),
                    Ok((x, e)) => Ok((Partial { start_face: Some(x), ..p }, e)),
                }
            } else {
                match entry_end(v) {
                    Err(f) => Err(f),
                    Ok(e) => Ok((p, e)),
                }
            }
        },
    }
}

/// The keys of a patch up to its closing brace.
pub open spec fn patch_keys(s: Stream, p: Partial) -> Read<Partial>
    decreases s.toks.len() - s.pos,
{
    if s.done() || s.is_punct('}') {
        Ok((p, s.pos))
    } else if s.is_punct(';') {
        patch_keys(s.to(s.pos + 1), p)
    } else {
        match patch_key(s, p) {
            Err(f) => Err(f),
            Ok((q, e)) => if e <= s.pos || e > s.toks.len() {
                Ok((q, s.pos))
            } else {
                patch_keys(s.to(e), q)
            },
        }
    }
}

pub open spec fn missing_counts_text(name: Seq<char>) -> Seq<char> {
    "patch '"@
        + name
        + "' is missing nFaces/startFace"@
}

pub(crate) fn missing_counts_message(name: &str) -> (r: String)
    ensures
        r@ == missing_counts_text(name@),
{
    let mut s = copy("patch '");
    push_text(&mut s, name);
    push_text(&mut s, "' is missing nFaces/startFace");
    s
}

/// `name { type ..; nFaces ..; startFace ..; }`
pub open spec fn patch_at(s: Stream) -> Read<Written> {
    match name_at(s) {
        Err(f) => Err(f),
        Ok((name, a)) => if !s.to(a).is_punct('{') {
            Err(no_punct(s.to(a), '{'))
        } else {
            match closed_by(s, patch_keys(s.to(a + 1), nothing_yet()), '}') {
                Err(f) => Err(f),
                Ok((p, e)) => match (p.n_faces, p.start_face) {
                    (Some(n), Some(b)) => Ok(
                        (
                            Written {
                                name,
                                patch_type: p.patch_type,
                                neighbour_patch: p.neighbour_patch,
                                n_faces: n,
                                start_face: b,
                            },
                            e,
                        ),
                    ),
                    _ => Err(Failure::Parse { path: s.path, msg: missing_counts_text(name) }),
                },
            }
        },
    }
}

pub open spec fn patch_reader() -> spec_fn(Stream) -> Read<Written> {
    |s: Stream| patch_at(s)
}

/// The patches of a `boundary` file.
pub open spec fn boundary_in(text: Seq<char>, path: Seq<char>) -> Result<Seq<Written>, Failure> {
    match opened(text, path) {
        Err(f) => Err(f),
        Ok(s) => to_the_end(
            s,
            match label_at(s) {
                Err(f) => Err(f),
                Ok((n, a)) => if n < 0 {
                    Err(s.to(a).failure("negative patch count"@))
                } else if !s.to(a).is_punct('(') {
                    Err(no_punct(s.to(a), '('))
                } else {
                    closed_by(s, several(s.to(a + 1), n as int, patch_reader()), ')')
                },
            },
        ),
    }
}

/// The contents of a list of entries.
pub open spec fn written_of(v: Seq<PatchEntry>) -> Seq<Written> {
    v.map_values(|e: PatchEntry| e@)
}

/// An entry as far as it has been read.
struct Draft {
    patch_type: String,
    neighbour_patch: String,
    n_faces: Option<Label>,
    start_face: Option<Label>,
}

impl Draft {
    spec fn partial(self) -> Partial {
        Partial {
            patch_type: self.patch_type@,
            neighbour_patch: self.neighbour_patch@,
            n_faces: self.n_faces,
            start_face: self.start_face,
        }
    }
}

fn read_count(ts: &mut Tokenizer) -> (r: Result<Label, Error>)
    requires
        old(ts).wf(),
    ensures
        final(ts).wf(),
        crate::reader::reads(old(ts)@, r, final(ts)@, count_at(old(ts)@)),
{
    let n: Label = match ts.expect_label() {
        Ok(n) => n,
        Err(e) => {
            return Err(e);
        },
    };
    match ts.expect_punct(';') {
        Ok(_) => Ok(n),
        Err(e) => Err(e),
    }
}

fn read_patch_key(ts: &mut Tokenizer, d: &mut Draft) -> (r: Result<(), Error>)
    requires
        old(ts).wf(),
        !old(ts)@.done(),
    ensures
        final(ts).wf(),
        match (r, patch_key(old(ts)@, old(d).partial())) {
            (Ok(_), Ok((p, e))) => final(d).partial() == p && final(ts)@ == old(ts)@.to(e)
                && e > old(ts)@.pos,
            (Err(e), Err(f)) => e@ == f,
            _ => false,
        },
{
    let ghost s = ts@;
    proof {
        ts.lemma_wf();
    }
    let mark: bool = match ts.peek_at(0) {
        Some(t) => t.is_punct_any(),
        None => false,
    };
    if mark {
        return Err(ts.err("expected a keyword"));
    }
    let k: String = match ts.expect_word() {
        Ok(k) => k,
        Err(e) => {
            return Err(e);
        },
    };
    let ghost v = ts@;
    if ts.is_punct('{') {
        proof {
            lemma_entry_end(v);
        }
        return ts.skip_entry();
    }
    if same(&k, "type") {
        return match gather_raw(ts) {
            Err(e) => Err(e),
            Ok(x) => {
                proof {
                    lemma_raw_at(v, Seq::empty());
                }
                d.patch_type = x;
                Ok(())
            },
        };
    }
    if same(&k, "neighbourPatch") {
        return match gather_raw(ts) {
            Err(e) => Err(e),
            Ok(x) => {
                proof {
                    lemma_raw_at(v, Seq::empty());
                }
                d.neighbour_patch = x;
                Ok(())
            },
        };
    }
    if same(&k, "nFaces") {
        return match read_count(ts) {
            Err(e) => Err(e),
            Ok(x) => {
                d.n_faces = Some(x);
                Ok(())
            },
        };
    }
    if same(&k, "startFace") {
        return match read_count(ts) {
            Err(e) => Err(e),
            Ok(x) => {
                d.start_face = Some(x);
                Ok(())
            },
        };
    }
    proof {
        lemma_entry_end(v);
    }
    ts.skip_entry()
}

fn read_patch_keys(ts: &mut Tokenizer) -> (r: Result<Draft, Error>)
    requires
        old(ts).wf(),
    ensures
        final(ts).wf(),
        match (r, patch_keys(old(ts)@, nothing_yet())) {
            (Ok(d), Ok((p, e))) => d.partial() == p && final(ts)@ == old(ts)@.to(e),
            (Err(e), Err(f)) => e@ == f,
            _ => false,
        },
{
    let ghost s = ts@;
    let mut d = Draft {
        patch_type: String::new(),
        neighbour_patch: String::new(),
        n_faces: None,
        start_face: None,
    };
    let ghost whole = patch_keys(s, nothing_yet());
    proof {
        assert(d.partial().patch_type =~= Seq::empty());
        assert(d.partial().neighbour_patch =~= Seq::empty());
    }
    while !ts.done() && !ts.is_punct('}')
        invariant
            ts.wf(),
            s == old(ts)@,
            ts@ == s.to(ts@.pos),
            whole == patch_keys(s, nothing_yet()),
            whole == patch_keys(ts@, d.partial()),
        decreases ts@.toks.len() - ts@.pos,
    {
        proof {
            ts.lemma_wf();
        }
        if ts.is_punct(';') {
            ts.advance();
        } else {
            match read_patch_key(ts, &mut d) {
                Ok(_) => {},
                Err(e) => {
                    return Err(e);
                },
            }
            proof {
                ts.lemma_wf();
            }
        }
    }
    Ok(d)
}

fn read_patch(ts: &mut Tokenizer) -> (r: Result<PatchEntry, Error>)
    requires
        old(ts).wf(),
    ensures
        final(ts).wf(),
        match (r, patch_at(old(ts)@)) {
            (Ok(v), Ok((w, e))) => v@ == w && final(ts)@ == old(ts)@.to(e),
            (Err(e), Err(f)) => e@ == f,
            _ => false,
        },
{
    let name: String = match ts.expect_word() {
        Ok(n) => n,
        Err(e) => {
            return Err(e);
        },
    };
    match ts.expect_punct('{') {
        Ok(_) => {},
        Err(e) => {
            return Err(e);
        },
    }
    let d: Draft = match read_patch_keys(ts) {
        Ok(d) => d,
        Err(e) => {
            return Err(e);
        },
    };
    match ts.expect_punct('}') {
        Ok(_) => {},
        Err(e) => {
            return Err(e);
        },
    }
    match (d.n_faces, d.start_face) {
        (Some(n_faces), Some(start_face)) => Ok(
            PatchEntry {
                name,
                patch_type: d.patch_type,
                neighbour_patch: d.neighbour_patch,
                n_faces,
                start_face,
            },
        ),
        _ => {
            let m = missing_counts_message(&name);
            Err(parse_error(ts.path(), m))
        },
    }
}

fn read_several_patches(ts: &mut Tokenizer, n: usize) -> (r: Result<Vec<PatchEntry>, Error>)
    requires
        old(ts).wf(),
    ensures
        final(ts).wf(),
        match (r, several(old(ts)@, n as int, patch_reader())) {
            (Ok(v), Ok((w, e))) => written_of(v@) == w && final(ts)@ == old(ts)@.to(e),
            (Err(e), Err(f)) => e@ == f,
            _ => false,
        },
{
    let ghost s = ts@;
    let ghost whole = several(s, n as int, patch_reader());
    let mut v: Vec<PatchEntry> = Vec::new();
    let mut i: usize = 0;
    proof {
        assert(written_of(v@) =~= Seq::empty());
        lemma_ahead_of::<Written>(Seq::empty(), arbitrary(), whole);
    }
    while i < n
        invariant
            i <= n,
            ts.wf(),
            s == old(ts)@,
            ts@ == s.to(ts@.pos),
            whole == several(s, n as int, patch_reader()),
            whole == ahead_of(written_of(v@), several(ts@, n - i, patch_reader())),
        decreases n - i,
    {
        let ghost here = ts@;
        let x: PatchEntry = match read_patch(ts) {
            Ok(x) => x,
            Err(e) => {
                return Err(e);
            },
        };
        proof {
            lemma_ahead_of(written_of(v@), x@, several(ts@, n - i - 1, patch_reader()));
            assert(patch_reader()(here) == patch_at(here));
            assert(written_of(v@.push(x)) =~= written_of(v@).push(x@));
        }
        v.push(x);
        i = i + 1;
    }
    proof {
        lemma_nothing_behind(written_of(v@), ts@.pos);
    }
    Ok(v)
}

/// Read a `boundary` file. Keys that do not bear on the addressing are passed
/// over, sub-dictionaries included.
pub fn read_boundary(file: &TextFile) -> (r: Result<Vec<PatchEntry>, Error>)
    requires
        file.fits(),
    ensures
        match (r, boundary_in(file.text@, file.path@)) {
            (Ok(v), Ok(w)) => written_of(v@) == w,
            (Err(e), Err(f)) => e@ == f,
            _ => false,
        },
{
    let mut ts: Tokenizer = match open(&file.text, &file.path) {
        Ok(ts) => ts,
        Err(e) => {
            return Err(e);
        },
    };
    let n: Label = match ts.expect_label() {
        Ok(n) => n,
        Err(e) => {
            return Err(e);
        },
    };
    if n < 0 {
        return Err(ts.err("negative patch count"));
    }
    match ts.expect_punct('(') {
        Ok(_) => {},
        Err(e) => {
            return Err(e);
        },
    }
    let v: Vec<PatchEntry> = match read_several_patches(&mut ts, n as usize) {
        Err(e) => {
            return Err(e);
        },
        Ok(v) => v,
    };
    match ts.expect_punct(')') {
        Ok(_) => {},
        Err(e) => {
            return Err(e);
        },
    }
    match ts.check_scan_error() {
        Err(e) => Err(e),
        Ok(_) => Ok(v),
    }
}

// --------------------------------------------------------------------------
//  The whole mesh
// --------------------------------------------------------------------------
pub open spec fn owner_count_text(dir: Seq<char>, owners: nat, faces: nat) -> Seq<char> {
    dir
        + ": owner has "@
        + decimal(owners)
        + " entries but faces has "@
        + decimal(faces)
}

pub(crate) fn owner_count_message(dir: &str, owners: usize, faces: usize) -> (r: String)
    ensures
        r@ == owner_count_text(dir@, owners as nat, faces as nat),
{
    let mut s = copy(dir);
    push_text(&mut s, ": owner has ");
    push_decimal(&mut s, owners as u64);
    push_text(&mut s, " entries but faces has ");
    push_decimal(&mut s, faces as u64);
    s
}

pub open spec fn neighbour_count_text(dir: Seq<char>, inner: nat, faces: nat) -> Seq<char> {
    dir
        + ": neighbour has "@
        + decimal(inner)
        + " entries, more than the "@
        + decimal(faces)
        + " faces"@
}

pub(crate) fn neighbour_count_message(dir: &str, inner: usize, faces: usize) -> (r: String)
    ensures
        r@ == neighbour_count_text(dir@, inner as nat, faces as nat),
{
    let mut s = copy(dir);
    push_text(&mut s, ": neighbour has ");
    push_decimal(&mut s, inner as u64);
    push_text(&mut s, " entries, more than the ");
    push_decimal(&mut s, faces as u64);
    push_text(&mut s, " faces");
    s
}

pub open spec fn gap_text(name: Seq<char>, start: int, end: int) -> Seq<char> {
    "patch '"@
        + name
        + "' starts at face "@
        + signed_decimal(start)
        + " but the previous patch ends at "@
        + signed_decimal(end)
        + ". ofgpu needs the boundary faces contiguous and in patch order, which is how polyMesh always stores them - the mesh looks inconsistent."@
}

pub(crate) fn gap_message(name: &str, start: i64, end: i64) -> (r: String)
    ensures
        r@ == gap_text(name@, start as int, end as int),
{
    let mut s = copy("patch '");
    push_text(&mut s, name);
    push_text(&mut s, "' starts at face ");
    push_signed(&mut s, start);
    push_text(&mut s, " but the previous patch ends at ");
    push_signed(&mut s, end);
    push_text(&mut s, ". ofgpu needs the boundary faces contiguous and in patch order, which is how polyMesh always stores them - the mesh looks inconsistent.");
    s
}

pub open spec fn overrun_text(name: Seq<char>, start: int, size: int, faces: nat) -> Seq<char> {
    "patch '"@
        + name
        + "' runs off the end of the face list ("@
        + signed_decimal(start)
        + " + "@
        + signed_decimal(size)
        + " > "@
        + decimal(faces)
        + ")"@
}

pub(crate) fn overrun_message(name: &str, start: i64, size: i64, faces: usize) -> (r: String)
    ensures
        r@ == overrun_text(name@, start as int, size as int, faces as nat),
{
    let mut s = copy("patch '");
    push_text(&mut s, name);
    push_text(&mut s, "' runs off the end of the face list (");
    push_signed(&mut s, start);
    push_text(&mut s, " + ");
    push_signed(&mut s, size);
    push_text(&mut s, " > ");
    push_decimal(&mut s, faces as u64);
    push_text(&mut s, ")");
    s
}

pub open spec fn uncovered_text(inner: nat, end: int, faces: nat) -> Seq<char> {
    "the patches cover faces "@
        + decimal(inner)
        + ".."@
        + signed_decimal(end)
        + " but the mesh has "@
        + decimal(faces)
        + " faces"@
}

pub(crate) fn uncovered_message(inner: usize, end: i64, faces: usize) -> (r: String)
    ensures
        r@ == uncovered_text(inner as nat, end as int, faces as nat),
{
    let mut s = copy("the patches cover faces ");
    push_decimal(&mut s, inner as u64);
    push_text(&mut s, "..");
    push_signed(&mut s, end);
    push_text(&mut s, " but the mesh has ");
    push_decimal(&mut s, faces as u64);
    push_text(&mut s, " faces");
    s
}

pub open spec fn no_partner_text(name: Seq<char>) -> Seq<char> {
    "cyclic patch '"@
        + name
        + "' has no neighbourPatch entry"@
}

pub(crate) fn no_partner_message(name: &str) -> (r: String)
    ensures
        r@ == no_partner_text(name@),
{
    let mut s = copy("cyclic patch '");
    push_text(&mut s, name);
    push_text(&mut s, "' has no neighbourPatch entry");
    s
}

pub open spec fn lost_partner_text(name: Seq<char>, partner: Seq<char>) -> Seq<char> {
    "cyclic patch '"@
        + name
        + "' names neighbourPatch '"@
        + partner
        + "', which does not exist"@
}

pub(crate) fn lost_partner_message(name: &str, partner: &str) -> (r: String)
    ensures
        r@ == lost_partner_text(name@, partner@),
{
    let mut s = copy("cyclic patch '");
    push_text(&mut s, name);
    push_text(&mut s, "' names neighbourPatch '");
    push_text(&mut s, partner);
    push_text(&mut s, "', which does not exist");
    s
}

pub open spec fn odd_partner_text(name: Seq<char>, partner: Seq<char>) -> Seq<char> {
    "cyclic patches '"@
        + name
        + "' and '"@
        + partner
        + "' have different face counts"@
}

pub(crate) fn odd_partner_message(name: &str, partner: &str) -> (r: String)
    ensures
        r@ == odd_partner_text(name@, partner@),
{
    let mut s = copy("cyclic patches '");
    push_text(&mut s, name);
    push_text(&mut s, "' and '");
    push_text(&mut s, partner);
    push_text(&mut s, "' have different face counts");
    s
}


/// The patches from `i` on: they follow each other from face `at` on, and end
/// where the faces do.
pub open spec fn laid_out(
    w: Seq<Written>,
    i: int,
    at: int,
    inner: int,
    faces: int,
) -> Result<Seq<Patch>, Seq<char>>
    decreases w.len() - i,
{
    if i < 0 || i >= w.len() {
        if at != faces {
            Err(uncovered_text(inner as nat, at, faces as nat))
        } else {
            Ok(Seq::empty())
        }
    } else {
        let e = w[i];
        if e.start_face != at {
            Err(gap_text(e.name, e.start_face as int, at))
        } else if e.n_faces < 0 || e.start_face + e.n_faces > faces {
            Err(overrun_text(e.name, e.start_face as int, e.n_faces as int, faces as nat))
        } else {
            match laid_out(w, i + 1, at + e.n_faces, inner, faces) {
                Err(m) => Err(m),
                Ok(rest) => Ok(
                    seq![
                        Patch {
                            name: e.name,
                            patch_type: e.patch_type,
                            kind: kind_of_type(e.patch_type),
                            start: e.start_face - inner,
                            size: e.n_faces as int,
                            nbr_patch: None,
                        },
                    ] + rest,
                ),
            }
        }
    }
}

/// The first patch of a name, or the number of patches.
pub open spec fn patch_named(p: Seq<Patch>, name: Seq<char>) -> int {
    first(p.len() as int, 0, |i: int| p[i].name == name)
}

/// What is wrong with the partner of patch `k`.
pub open spec fn partner_fault(p: Seq<Patch>, w: Seq<Written>, k: int) -> Option<Seq<char>> {
    let nbr = w[k].neighbour_patch;
    let j = patch_named(p, nbr);
    if p[k].kind != PatchKind::Cyclic {
        None
    } else if nbr.len() == 0 {
        Some(no_partner_text(p[k].name))
    } else if j >= p.len() {
        Some(lost_partner_text(p[k].name, nbr))
    } else if p[j].size != p[k].size {
        Some(odd_partner_text(p[k].name, nbr))
    } else {
        None
    }
}

/// The first fault of a partner from patch `k` on.
pub open spec fn partner_faults(p: Seq<Patch>, w: Seq<Written>, k: int) -> Option<Seq<char>>
    decreases p.len() - k,
{
    if k < 0 || k >= p.len() {
        None
    } else {
        match partner_fault(p, w, k) {
            Some(m) => Some(m),
            None => partner_faults(p, w, k + 1),
        }
    }
}

/// A patch with its partner.
pub open spec fn partnered(p: Seq<Patch>, w: Seq<Written>, k: int) -> Patch {
    if p[k].kind != PatchKind::Cyclic {
        p[k]
    } else {
        Patch { nbr_patch: Some(patch_named(p, w[k].neighbour_patch) as usize), ..p[k] }
    }
}

/// The patches of a mesh with `inner` internal faces out of `faces`.
pub open spec fn patches_from(w: Seq<Written>, inner: int, faces: int) -> Result<
    Seq<Patch>,
    Seq<char>,
> {
    match laid_out(w, 0, inner, inner, faces) {
        Err(m) => Err(m),
        Ok(p) => match partner_faults(p, w, 0) {
            Some(m) => Err(m),
            None => Ok(Seq::new(p.len(), |k: int| partnered(p, w, k))),
        },
    }
}

/// The mesh that five files make.
pub open spec fn mesh_in(m: MeshFiles) -> Result<RawMesh, Failure> {
    match points_in(m.points.text@, m.points.path@) {
        Err(f) => Err(f),
        Ok(points) => match faces_in(m.faces.text@, m.faces.path@) {
            Err(f) => Err(f),
            Ok(faces) => match labels_in(m.owner.text@, m.owner.path@) {
                Err(f) => Err(f),
                Ok(owner) => match labels_in(m.neighbour.text@, m.neighbour.path@) {
                    Err(f) => Err(f),
                    Ok(neighbour) => if owner.len() != faces.len() {
                        Err(
                            Failure::Mesh(owner_count_text(m.dir@, owner.len(), faces.len())),
                        )
                    } else if neighbour.len() > faces.len() {
                        Err(
                            Failure::Mesh(
                                neighbour_count_text(m.dir@, neighbour.len(), faces.len()),
                            ),
                        )
                    } else {
                        match boundary_in(m.boundary.text@, m.boundary.path@) {
                            Err(f) => Err(f),
                            Ok(w) => match patches_from(
                                w,
                                neighbour.len() as int,
                                faces.len() as int,
                            ) {
                                Err(msg) => Err(Failure::Parse { path: m.boundary.path@, msg }),
                                Ok(patches) => Ok(
                                    RawMesh { points, faces, owner, neighbour, patches },
                                ),
                            },
                        }
                    },
                },
            },
        },
    }
}

/// One patch more in front.
pub open spec fn behind(v: Seq<Patch>, r: Result<Seq<Patch>, Seq<char>>) -> Result<
    Seq<Patch>,
    Seq<char>,
> {
    match r {
        Ok(w) => Ok(v + w),
        Err(m) => Err(m),
    }
}

proof fn lemma_behind(v: Seq<Patch>, x: Patch, r: Result<Seq<Patch>, Seq<char>>)
    ensures
        behind(v.push(x), r) == behind(v, behind(seq![x], r)),
        behind(Seq::empty(), r) == r,
{
    match r {
        Ok(w) => {
            assert(v.push(x) + w =~= v + (seq![x] + w));
            assert(Seq::<Patch>::empty() + w =~= w);
        },
        Err(_) => {},
    }
}

fn lay_out(w: &Vec<PatchEntry>, inner: usize, faces: usize) -> (r: Result<Vec<PatchInfo>, String>)
    requires
        inner <= faces <= i32::MAX,
    ensures
        match (r, laid_out(written_of(w@), 0, inner as int, inner as int, faces as int)) {
            (Ok(p), Ok(q)) => patches_of(p@) == q && p.len() == w.len(),
            (Err(m), Err(n)) => m@ == n,
            _ => false,
        },
{
    let ghost wv = written_of(w@);
    let ghost whole = laid_out(wv, 0, inner as int, inner as int, faces as int);
    let mut out: Vec<PatchInfo> = Vec::new();
    let mut at: i64 = inner as i64;
    let mut i: usize = 0;
    proof {
        assert(patches_of(out@) =~= Seq::empty());
        lemma_behind(Seq::empty(), arbitrary(), whole);
    }
    while i < w.len()
        invariant
            i <= w.len(),
            out.len() == i,
            inner <= faces <= i32::MAX,
            inner <= at <= faces,
            wv == written_of(w@),
            whole == laid_out(wv, 0, inner as int, inner as int, faces as int),
            whole == behind(
                patches_of(out@),
                laid_out(wv, i as int, at as int, inner as int, faces as int),
            ),
        decreases w.len() - i,
    {
        let e = &w[i];
        assert(wv[i as int] == e@);
        if e.start_face as i64 != at {
            return Err(gap_message(&e.name, e.start_face as i64, at));
        }
        if e.n_faces < 0 || e.start_face as i64 + e.n_faces as i64 > faces as i64 {
            return Err(
                overrun_message(&e.name, e.start_face as i64, e.n_faces as i64, faces),
            );
        }
        let p = PatchInfo {
            name: copy(&e.name),
            patch_type: copy(&e.patch_type),
            kind: PatchKind::from_type(&e.patch_type),
            start: e.start_face as usize - inner,
            size: e.n_faces as usize,
            nbr_patch: None,
        };
        proof {
            lemma_behind(
                patches_of(out@),
                p@,
                laid_out(wv, i + 1, at + e.n_faces, inner as int, faces as int),
            );
            assert(patches_of(out@.push(p)) =~= patches_of(out@).push(p@));
        }
        out.push(p);
        at = at + e.n_faces as i64;
        i = i + 1;
    }
    if at != faces as i64 {
        return Err(uncovered_message(inner, at, faces));
    }
    proof {
        assert(patches_of(out@) + Seq::<Patch>::empty() =~= patches_of(out@));
    }
    Ok(out)
}

pub(crate) fn find_patch(p: &Vec<PatchInfo>, name: &str) -> (r: usize)
    ensures
        r == patch_named(patches_of(p@), name@),
        r <= p.len(),
{
    let ghost pv = patches_of(p@);
    let ghost named = |i: int| pv[i].name == name@;
    let mut i: usize = 0;
    while i < p.len()
        invariant
            i <= p.len(),
            pv == patches_of(p@),
            named == (|i: int| pv[i].name == name@),
            first(p.len() as int, 0, named) == first(p.len() as int, i as int, named),
        decreases p.len() - i,
    {
        if same(&p[i].name, name) {
            return i;
        }
        i = i + 1;
    }
    i
}

/// What is wrong with a partner, or where it is.
fn partner(p: &Vec<PatchInfo>, w: &Vec<PatchEntry>, k: usize) -> (r: Result<
    Option<usize>,
    String,
>)
    requires
        p.len() == w.len(),
        k < p.len(),
    ensures
        match (r, partner_fault(patches_of(p@), written_of(w@), k as int)) {
            (Err(m), Some(n)) => m@ == n,
            (Ok(j), None) => j == partnered(patches_of(p@), written_of(w@), k as int).nbr_patch
                || (p[k as int].kind != PatchKind::Cyclic && j is None),
            _ => false,
        },
{
    let ghost pv = patches_of(p@);
    let ghost wv = written_of(w@);
    assert(pv[k as int] == p[k as int]@);
    assert(wv[k as int] == w[k as int]@);
    if p[k].kind != PatchKind::Cyclic {
        return Ok(None);
    }
    let nbr = &w[k].neighbour_patch;
    if nbr.as_str().is_empty() {
        return Err(no_partner_message(&p[k].name));
    }
    let j: usize = find_patch(p, nbr);
    if j >= p.len() {
        return Err(lost_partner_message(&p[k].name, nbr));
    }
    assert(pv[j as int] == p[j as int]@);
    if p[j].size != p[k].size {
        return Err(odd_partner_message(&p[k].name, nbr));
    }
    Ok(Some(j))
}

fn partners(p: Vec<PatchInfo>, w: &Vec<PatchEntry>) -> (r: Result<Vec<PatchInfo>, String>)
    requires
        p.len() == w.len(),
    ensures
        match (r, partner_faults(patches_of(p@), written_of(w@), 0)) {
            (Err(m), Some(n)) => m@ == n,
            (Ok(q), None) => patches_of(q@) == Seq::new(
                p@.len(),
                |k: int| partnered(patches_of(p@), written_of(w@), k),
            ),
            _ => false,
        },
{
    let ghost pv = patches_of(p@);
    let ghost wv = written_of(w@);
    let mut out: Vec<PatchInfo> = Vec::new();
    let mut k: usize = 0;
    while k < p.len()
        invariant
            k <= p.len() == w.len(),
            out.len() == k,
            pv == patches_of(p@),
            wv == written_of(w@),
            partner_faults(pv, wv, 0) == partner_faults(pv, wv, k as int),
            forall|j: int| 0 <= j < k ==> (#[trigger] out[j])@ == partnered(pv, wv, j),
        decreases p.len() - k,
    {
        assert(pv[k as int] == p[k as int]@);
        match partner(&p, w, k) {
            Err(m) => {
                return Err(m);
            },
            Ok(None) => {
                out.push(p[k].copy());
            },
            Ok(Some(j)) => {
                let mut q = p[k].copy();
                q.nbr_patch = Some(j);
                out.push(q);
            },
        }
        k = k + 1;
    }
    assert(patches_of(out@) =~= Seq::new(p@.len(), |k: int| partnered(pv, wv, k)));
    Ok(out)
}

/// As many values are read as were asked for.
pub proof fn lemma_several_len<T>(s: Stream, n: int, one: spec_fn(Stream) -> Read<T>)
    requires
        0 <= n,
    ensures
        several(s, n, one) matches Ok((v, _)) ==> v.len() == n,
    decreases n,
{
    if n > 0 {
        match one(s) {
            Ok((v, e)) => {
                lemma_several_len(s.to(e), n - 1, one);
            },
            Err(_) => {},
        }
    }
}

/// Read a mesh. The boundary faces have to be contiguous and in patch order, and
/// a cyclic patch has to name a partner of its own size.
pub fn read_poly_mesh(files: &MeshFiles) -> (r: Result<PolyMeshRaw, Error>)
    requires
        files.fit(),
    ensures
        match (r, mesh_in(*files)) {
            (Ok(m), Ok(w)) => m@ == w,
            (Err(e), Err(f)) => e@ == f,
            _ => false,
        },
{
    let points: Vec<Vec3> = match read_points(&files.points) {
        Ok(v) => v,
        Err(e) => {
            return Err(e);
        },
    };
    let faces: Vec<Vec<Label>> = match read_faces(&files.faces) {
        Ok(v) => v,
        Err(e) => {
            return Err(e);
        },
    };
    let owner: Vec<Label> = match read_label_list(&files.owner) {
        Ok(v) => v,
        Err(e) => {
            return Err(e);
        },
    };
    let neighbour: Vec<Label> = match read_label_list(&files.neighbour) {
        Ok(v) => v,
        Err(e) => {
            return Err(e);
        },
    };
    let n_faces: usize = faces.len();
    let n_if: usize = neighbour.len();
    assert(faces_of(faces@).len() == n_faces);
    if owner.len() != n_faces {
        return Err(Error::Mesh(owner_count_message(&files.dir, owner.len(), n_faces)));
    }
    if n_if > n_faces {
        return Err(Error::Mesh(neighbour_count_message(&files.dir, n_if, n_faces)));
    }
    let entries: Vec<PatchEntry> = match read_boundary(&files.boundary) {
        Ok(v) => v,
        Err(e) => {
            return Err(e);
        },
    };
    proof {
        let s = opened(files.faces.text@, files.faces.path@)->Ok_0;
        let (n, a) = label_at(s)->Ok_0;
        lemma_several_len(s.to(a + 1), n as int, face_reader());
    }
    let laid: Vec<PatchInfo> = match lay_out(&entries, n_if, n_faces) {
        Ok(v) => v,
        Err(m) => {
            return Err(parse_error(&files.boundary.path, m));
        },
    };
    let patches: Vec<PatchInfo> = match partners(laid, &entries) {
        Ok(v) => v,
        Err(m) => {
            return Err(parse_error(&files.boundary.path, m));
        },
    };
    Ok(PolyMeshRaw { points, faces, owner, neighbour, patches })
}

// --------------------------------------------------------------------------
//  What a solver makes of it
// --------------------------------------------------------------------------
pub open spec fn host_owner_count_text(owners: nat, faces: nat) -> Seq<char> {
    "build_host_mesh: owner has "@
        + decimal(owners)
        + " entries but there are "@
        + decimal(faces)
        + " faces"@
}

pub(crate) fn host_owner_count_message(owners: usize, faces: usize) -> (r: String)
    ensures
        r@ == host_owner_count_text(owners as nat, faces as nat),
{
    let mut s = copy("build_host_mesh: owner has ");
    push_decimal(&mut s, owners as u64);
    push_text(&mut s, " entries but there are ");
    push_decimal(&mut s, faces as u64);
    push_text(&mut s, " faces");
    s
}

pub open spec fn host_inner_count_text(inner: nat, faces: nat) -> Seq<char> {
    "build_host_mesh: "@
        + decimal(inner)
        + " internal faces out of "@
        + decimal(faces)
        + " total"@
}

pub(crate) fn host_inner_count_message(inner: usize, faces: usize) -> (r: String)
    ensures
        r@ == host_inner_count_text(inner as nat, faces as nat),
{
    let mut s = copy("build_host_mesh: ");
    push_decimal(&mut s, inner as u64);
    push_text(&mut s, " internal faces out of ");
    push_decimal(&mut s, faces as u64);
    push_text(&mut s, " total");
    s
}

pub open spec fn negative_owner_text(face: nat, cell: int) -> Seq<char> {
    "build_host_mesh: face "@
        + decimal(face)
        + " has negative owner "@
        + signed_decimal(cell)
}

pub(crate) fn negative_owner_message(face: usize, cell: i64) -> (r: String)
    ensures
        r@ == negative_owner_text(face as nat, cell as int),
{
    let mut s = copy("build_host_mesh: face ");
    push_decimal(&mut s, face as u64);
    push_text(&mut s, " has negative owner ");
    push_signed(&mut s, cell);
    s
}

pub open spec fn negative_neighbour_text(face: nat, cell: int) -> Seq<char> {
    "build_host_mesh: face "@
        + decimal(face)
        + " has negative neighbour "@
        + signed_decimal(cell)
}

pub(crate) fn negative_neighbour_message(face: usize, cell: i64) -> (r: String)
    ensures
        r@ == negative_neighbour_text(face as nat, cell as int),
{
    let mut s = copy("build_host_mesh: face ");
    push_decimal(&mut s, face as u64);
    push_text(&mut s, " has negative neighbour ");
    push_signed(&mut s, cell);
    s
}

pub open spec fn too_many_cells_text(cells: nat) -> Seq<char> {
    "build_host_mesh: "@
        + decimal(cells)
        + " cells does not fit in a 32-bit label"@
}

pub(crate) fn too_many_cells_message(cells: usize) -> (r: String)
    ensures
        r@ == too_many_cells_text(cells as nat),
{
    let mut s = copy("build_host_mesh: ");
    push_decimal(&mut s, cells as u64);
    push_text(&mut s, " cells does not fit in a 32-bit label");
    s
}

pub open spec fn not_upper_text(face: nat, own: int, nbr: int) -> Seq<char> {
    "build_host_mesh: face "@
        + decimal(face)
        + " has owner "@
        + signed_decimal(own)
        + " >= neighbour "@
        + signed_decimal(nbr)
        + "; polyMesh is not in upper-triangular order"@
}

pub(crate) fn not_upper_message(face: usize, own: i64, nbr: i64) -> (r: String)
    ensures
        r@ == not_upper_text(face as nat, own as int, nbr as int),
{
    let mut s = copy("build_host_mesh: face ");
    push_decimal(&mut s, face as u64);
    push_text(&mut s, " has owner ");
    push_signed(&mut s, own);
    push_text(&mut s, " >= neighbour ");
    push_signed(&mut s, nbr);
    push_text(&mut s, "; polyMesh is not in upper-triangular order");
    s
}

pub open spec fn not_sorted_text(face: nat, own: int, nbr: int) -> Seq<char> {
    "build_host_mesh: face "@
        + decimal(face)
        + " has owner "@
        + signed_decimal(own)
        + " and neighbour "@
        + signed_decimal(nbr)
        + ", which come before those of the face in front of it; polyMesh is not in upper-triangular order"@
}

pub(crate) fn not_sorted_message(face: usize, own: i64, nbr: i64) -> (r: String)
    ensures
        r@ == not_sorted_text(face as nat, own as int, nbr as int),
{
    let mut s = copy("build_host_mesh: face ");
    push_decimal(&mut s, face as u64);
    push_text(&mut s, " has owner ");
    push_signed(&mut s, own);
    push_text(&mut s, " and neighbour ");
    push_signed(&mut s, nbr);
    push_text(
        &mut s,
        ", which come before those of the face in front of it; polyMesh is not in upper-triangular order",
    );
    s
}

pub open spec fn patch_overrun_text(name: Seq<char>, start: nat, end: nat, faces: nat) -> Seq<char> {
    "build_host_mesh: patch '"@
        + name
        + "' covers boundary faces "@
        + decimal(start)
        + ".."@
        + decimal(end)
        + " but there are only "@
        + decimal(faces)
}

pub(crate) fn patch_overrun_message(name: &str, start: usize, end: usize, faces: usize) -> (r: String)
    ensures
        r@ == patch_overrun_text(name@, start as nat, end as nat, faces as nat),
{
    let mut s = copy("build_host_mesh: patch '");
    push_text(&mut s, name);
    push_text(&mut s, "' covers boundary faces ");
    push_decimal(&mut s, start as u64);
    push_text(&mut s, "..");
    push_decimal(&mut s, end as u64);
    push_text(&mut s, " but there are only ");
    push_decimal(&mut s, faces as u64);
    s
}

pub open spec fn partner_range_text(name: Seq<char>, n: nat, total: nat) -> Seq<char> {
    "build_host_mesh: cyclic patch '"@
        + name
        + "' names patch "@
        + decimal(n)
        + " of "@
        + decimal(total)
}

pub(crate) fn partner_range_message(name: &str, n: usize, total: usize) -> (r: String)
    ensures
        r@ == partner_range_text(name@, n as nat, total as nat),
{
    let mut s = copy("build_host_mesh: cyclic patch '");
    push_text(&mut s, name);
    push_text(&mut s, "' names patch ");
    push_decimal(&mut s, n as u64);
    push_text(&mut s, " of ");
    push_decimal(&mut s, total as u64);
    s
}

pub open spec fn partner_size_text(name: Seq<char>, partner: Seq<char>) -> Seq<char> {
    "build_host_mesh: cyclic patches '"@
        + name
        + "' and '"@
        + partner
        + "' have different sizes"@
}

pub(crate) fn partner_size_message(name: &str, partner: &str) -> (r: String)
    ensures
        r@ == partner_size_text(name@, partner@),
{
    let mut s = copy("build_host_mesh: cyclic patches '");
    push_text(&mut s, name);
    push_text(&mut s, "' and '");
    push_text(&mut s, partner);
    push_text(&mut s, "' have different sizes");
    s
}

pub open spec fn bad_vertex_text(face: nat, v: int, points: nat) -> Seq<char> {
    "build_host_mesh: face "@
        + decimal(face)
        + " refers to point "@
        + signed_decimal(v)
        + " but there are "@
        + decimal(points)
        + " points"@
}

pub(crate) fn bad_vertex_message(face: usize, v: i64, points: usize) -> (r: String)
    ensures
        r@ == bad_vertex_text(face as nat, v as int, points as nat),
{
    let mut s = copy("build_host_mesh: face ");
    push_decimal(&mut s, face as u64);
    push_text(&mut s, " refers to point ");
    push_signed(&mut s, v);
    push_text(&mut s, " but there are ");
    push_decimal(&mut s, points as u64);
    push_text(&mut s, " points");
    s
}


/// One more than the largest of the first `n` labels; 0 where there is none.
pub open spec fn beyond(v: Seq<Label>, n: int) -> int
    decreases n,
{
    if n <= 0 {
        0
    } else if v[n - 1] + 1 > beyond(v, n - 1) {
        v[n - 1] + 1
    } else {
        beyond(v, n - 1)
    }
}

/// The number of cells that the addressing speaks of.
pub open spec fn cell_count(m: RawMesh) -> int {
    let a = beyond(m.owner, m.owner.len() as int);
    let b = beyond(m.neighbour, m.neighbour.len() as int);
    if a > b {
        a
    } else {
        b
    }
}

/// Every label is below the bound.
pub proof fn lemma_beyond(v: Seq<Label>, n: int)
    requires
        0 <= n <= v.len(),
    ensures
        forall|i: int| 0 <= i < n ==> #[trigger] v[i] < beyond(v, n),
        0 <= beyond(v, n) <= i32::MAX + 1,
    decreases n,
{
    if n > 0 {
        lemma_beyond(v, n - 1);
    }
}

/// A label below 0.
pub open spec fn negative_in(v: Seq<Label>) -> spec_fn(int) -> bool {
    |f: int| v[f] < 0
}

/// A face whose owner does not come before its neighbour.
pub open spec fn misordered_in(m: RawMesh) -> spec_fn(int) -> bool {
    |f: int| m.owner[f] >= m.neighbour[f]
}

/// A face that, by its owner and then its neighbour, comes before the face in
/// front of it.
pub open spec fn unsorted_in(m: RawMesh) -> spec_fn(int) -> bool {
    |f: int|
        f > 0 && (m.owner[f] < m.owner[f - 1] || (m.owner[f] == m.owner[f - 1] && m.neighbour[f]
            < m.neighbour[f - 1]))
}

/// A patch that leaves the boundary.
pub open spec fn leaving(p: Seq<Patch>, faces: int) -> spec_fn(int) -> bool {
    |i: int| p[i].start + p[i].size > faces
}

/// What is wrong with the partner of a patch.
pub open spec fn pair_fault(p: Seq<Patch>, k: int) -> Option<Seq<char>> {
    if p[k].kind != PatchKind::Cyclic {
        None
    } else {
        match p[k].nbr_patch {
            None => None,
            Some(n) => if n >= p.len() {
                Some(partner_range_text(p[k].name, n as nat, p.len()))
            } else if p[n as int].size != p[k].size {
                Some(partner_size_text(p[k].name, p[n as int].name))
            } else {
                None
            },
        }
    }
}

/// The first fault of a pair from patch `k` on.
pub open spec fn pair_faults(p: Seq<Patch>, k: int) -> Option<Seq<char>>
    decreases p.len() - k,
{
    if k < 0 || k >= p.len() {
        None
    } else {
        match pair_fault(p, k) {
            Some(m) => Some(m),
            None => pair_faults(p, k + 1),
        }
    }
}

/// A vertex that is no point.
pub open spec fn stray_in(face: Seq<Label>, points: int) -> spec_fn(int) -> bool {
    |i: int| face[i] < 0 || face[i] >= points
}

/// The first stray vertex of the faces from `f` on.
pub open spec fn stray_vertex(faces: Seq<Seq<Label>>, points: int, f: int) -> Option<Seq<char>>
    decreases faces.len() - f,
{
    if f < 0 || f >= faces.len() {
        None
    } else {
        let i = first(faces[f].len() as int, 0, stray_in(faces[f], points));
        if i < faces[f].len() {
            Some(bad_vertex_text(f as nat, faces[f][i] as int, points as nat))
        } else {
            stray_vertex(faces, points, f + 1)
        }
    }
}

/// Why a mesh cannot be addressed, if it cannot.
pub open spec fn host_fault(m: RawMesh) -> Option<Seq<char>> {
    let inner = m.neighbour.len() as int;
    let faces = m.faces.len() as int;
    let o = first(m.owner.len() as int, 0, negative_in(m.owner));
    let n = first(inner, 0, negative_in(m.neighbour));
    let u = first(inner, 0, misordered_in(m));
    let w = first(inner, 0, unsorted_in(m));
    let l = first(m.patches.len() as int, 0, leaving(m.patches, faces - inner));
    if m.owner.len() != faces {
        Some(host_owner_count_text(m.owner.len(), faces as nat))
    } else if inner > faces {
        Some(host_inner_count_text(inner as nat, faces as nat))
    } else if o < m.owner.len() {
        Some(negative_owner_text(o as nat, m.owner[o] as int))
    } else if n < inner {
        Some(negative_neighbour_text(n as nat, m.neighbour[n] as int))
    } else if cell_count(m) > i32::MAX {
        Some(too_many_cells_text(cell_count(m) as nat))
    } else if u < inner {
        Some(not_upper_text(u as nat, m.owner[u] as int, m.neighbour[u] as int))
    } else if w < inner {
        Some(not_sorted_text(w as nat, m.owner[w] as int, m.neighbour[w] as int))
    } else if l < m.patches.len() {
        let p = m.patches[l];
        Some(
            patch_overrun_text(
                p.name,
                p.start as nat,
                (p.start + p.size) as nat,
                (faces - inner) as nat,
            ),
        )
    } else {
        match pair_faults(m.patches, 0) {
            Some(t) => Some(t),
            None => stray_vertex(m.faces, m.points.len() as int, 0),
        }
    }
}

/// Does a patch cover a boundary face?
pub open spec fn covers(p: Patch, i: int) -> bool {
    p.start <= i < p.start + p.size
}

/// The last of the first `n` patches that covers a boundary face, or -1.
pub open spec fn patch_of_face(p: Seq<Patch>, n: int, i: int) -> int
    decreases n,
{
    if n <= 0 {
        -1
    } else if covers(p[n - 1], i) {
        n - 1
    } else {
        patch_of_face(p, n - 1, i)
    }
}

/// The kind of a boundary face.
pub open spec fn kind_at(p: Seq<Patch>, n: int, i: int) -> Label {
    let k = patch_of_face(p, n, i);
    if k < 0 {
        PatchKind::Generic.number()
    } else {
        p[k].kind.number()
    }
}

/// A patch that pairs its faces with those of another.
pub open spec fn pairs_up(p: Patch) -> bool {
    p.kind == PatchKind::Cyclic && p.nbr_patch is Some
}

/// The cell across a boundary face, or -1: face `k` of a cyclic patch faces face
/// `k` of its partner.
pub open spec fn cell_across(p: Seq<Patch>, cells: Seq<Label>, n: int, i: int) -> Label
    decreases n,
{
    if n <= 0 {
        (-1) as Label
    } else if pairs_up(p[n - 1]) && covers(p[n - 1], i) {
        let q = p[p[n - 1].nbr_patch->Some_0 as int];
        cells[q.start + (i - p[n - 1].start)]
    } else {
        cell_across(p, cells, n - 1, i)
    }
}

/// What the addressing of a stored mesh is.
pub open spec fn addresses(h: HostMesh, m: RawMesh) -> bool {
    let inner = m.neighbour.len() as int;
    let faces = m.faces.len() as int;
    let b = faces - inner;
    &&& h.n_cells == cell_count(m)
    &&& h.n_internal_faces == inner
    &&& h.n_boundary_faces == b
    &&& h.n_points == m.points.len()
    &&& h.owner@ == m.owner.take(inner)
    &&& h.neighbour@ == m.neighbour
    &&& patches_of(h.patches@) == m.patches
    &&& h.b_face_cells@ == m.owner.skip(inner)
    &&& h.b_kind@ == Seq::new(b as nat, |i: int| kind_at(m.patches, m.patches.len() as int, i))
    &&& h.b_patch@ == Seq::new(
        b as nat,
        |i: int| patch_of_face(m.patches, m.patches.len() as int, i) as Label,
    )
    &&& h.b_nbr_cell@ == Seq::new(
        b as nat,
        |i: int| cell_across(m.patches, m.owner.skip(inner), m.patches.len() as int, i),
    )
}

/// The geometry has room, and is not filled in: a boundary face that is coupled to
/// nothing has weight 1.
pub open spec fn unfilled(h: HostMesh) -> bool {
    let nil = Scalar { bits: 0 };
    let inner = h.n_internal_faces as int;
    let b = h.n_boundary_faces as int;
    let n = h.n_cells as int;
    &&& h.b_weights@ == repeated(Scalar { bits: ONE }, b)
    &&& h.v@ == repeated(nil, n) && h.c@ == repeated(origin(), n)
    &&& h.sf@ == repeated(origin(), inner) && h.mag_sf@ == repeated(nil, inner)
    &&& h.cf@ == repeated(origin(), inner) && h.weights@ == repeated(nil, inner)
    &&& h.delta_coeffs@ == repeated(nil, inner) && h.non_orth_corr@ == repeated(origin(), inner)
    &&& h.b_sf@ == repeated(origin(), b) && h.b_mag_sf@ == repeated(nil, b)
    &&& h.b_cf@ == repeated(origin(), b) && h.b_delta_coeffs@ == repeated(nil, b)
    &&& h.b_y@ == repeated(nil, b)
}

impl PolyMeshRaw {
    /// The patches end at a boundary face that can be counted.
    pub open spec fn patches_fit(&self) -> bool {
        forall|k: int|
            0 <= k < self.patches.len() ==> (#[trigger] self.patches[k]).start
                + self.patches[k].size <= usize::MAX
    }
}

fn first_negative(v: &Vec<Label>) -> (r: usize)
    ensures
        r == first(v.len() as int, 0, negative_in(v@)),
        r <= v.len(),
{
    let mut i: usize = 0;
    while i < v.len()
        invariant
            i <= v.len(),
            first(v.len() as int, 0, negative_in(v@)) == first(
                v.len() as int,
                i as int,
                negative_in(v@),
            ),
        decreases v.len() - i,
    {
        if v[i] < 0 {
            return i;
        }
        i = i + 1;
    }
    i
}

pub(crate) fn count_beyond(v: &Vec<Label>) -> (r: i64)
    ensures
        r == beyond(v@, v.len() as int),
        0 <= r <= 0x8000_0000,
{
    let mut top: i64 = 0;
    let mut i: usize = 0;
    while i < v.len()
        invariant
            i <= v.len(),
            0 <= top <= 0x8000_0000,
            top == beyond(v@, i as int),
        decreases v.len() - i,
    {
        if v[i] as i64 + 1 > top {
            top = v[i] as i64 + 1;
        }
        i = i + 1;
    }
    top
}

fn first_misordered(raw: &PolyMeshRaw) -> (r: usize)
    requires
        raw.neighbour.len() <= raw.owner.len(),
    ensures
        r == first(raw.neighbour.len() as int, 0, misordered_in(raw@)),
        r <= raw.neighbour.len(),
{
    let n: usize = raw.neighbour.len();
    let mut f: usize = 0;
    while f < n
        invariant
            f <= n == raw.neighbour.len() <= raw.owner.len(),
            first(n as int, 0, misordered_in(raw@)) == first(
                n as int,
                f as int,
                misordered_in(raw@),
            ),
        decreases n - f,
    {
        if raw.owner[f] >= raw.neighbour[f] {
            return f;
        }
        f = f + 1;
    }
    f
}

fn first_unsorted(raw: &PolyMeshRaw) -> (r: usize)
    requires
        raw.neighbour.len() <= raw.owner.len(),
    ensures
        r == first(raw.neighbour.len() as int, 0, unsorted_in(raw@)),
        r <= raw.neighbour.len(),
{
    let n: usize = raw.neighbour.len();
    let mut f: usize = 0;
    while f < n
        invariant
            f <= n == raw.neighbour.len() <= raw.owner.len(),
            first(n as int, 0, unsorted_in(raw@)) == first(n as int, f as int, unsorted_in(raw@)),
        decreases n - f,
    {
        if f > 0 && (raw.owner[f] < raw.owner[f - 1] || (raw.owner[f] == raw.owner[f - 1]
            && raw.neighbour[f] < raw.neighbour[f - 1])) {
            return f;
        }
        f = f + 1;
    }
    f
}

fn first_leaving(p: &Vec<PatchInfo>, faces: usize) -> (r: usize)
    requires
        forall|k: int| 0 <= k < p.len() ==> (#[trigger] p[k]).start + p[k].size <= usize::MAX,
    ensures
        r == first(p.len() as int, 0, leaving(patches_of(p@), faces as int)),
        r <= p.len(),
        forall|k: int| 0 <= k < r ==> (#[trigger] p[k]).start + p[k].size <= faces,
{
    let ghost lv = leaving(patches_of(p@), faces as int);
    let mut i: usize = 0;
    while i < p.len()
        invariant
            i <= p.len(),
            lv == leaving(patches_of(p@), faces as int),
            forall|k: int| 0 <= k < p.len() ==> (#[trigger] p[k]).start + p[k].size <= usize::MAX,
            forall|k: int| 0 <= k < i ==> (#[trigger] p[k]).start + p[k].size <= faces,
            first(p.len() as int, 0, lv) == first(p.len() as int, i as int, lv),
        decreases p.len() - i,
    {
        assert(patches_of(p@)[i as int] == p[i as int]@);
        if p[i].start + p[i].size > faces {
            return i;
        }
        i = i + 1;
    }
    i
}

fn check_pairs(p: &Vec<PatchInfo>) -> (r: Option<String>)
    ensures
        match (r, pair_faults(patches_of(p@), 0)) {
            (Some(m), Some(n)) => m@ == n,
            (None, None) => forall|k: int|
                0 <= k < p.len() && pairs_up((#[trigger] p[k])@) ==> p[k].nbr_patch->Some_0
                    < p.len() && p[p[k].nbr_patch->Some_0 as int].size == p[k].size,
            _ => false,
        },
{
    let ghost pv = patches_of(p@);
    let mut k: usize = 0;
    while k < p.len()
        invariant
            k <= p.len(),
            pv == patches_of(p@),
            pair_faults(pv, 0) == pair_faults(pv, k as int),
            forall|j: int|
                0 <= j < k && pairs_up((#[trigger] p[j])@) ==> p[j].nbr_patch->Some_0 < p.len()
                    && p[p[j].nbr_patch->Some_0 as int].size == p[j].size,
        decreases p.len() - k,
    {
        assert(pv[k as int] == p[k as int]@);
        if p[k].kind == PatchKind::Cyclic {
            match p[k].nbr_patch {
                None => {},
                Some(n) => {
                    if n >= p.len() {
                        return Some(partner_range_message(&p[k].name, n, p.len()));
                    }
                    assert(pv[n as int] == p[n as int]@);
                    if p[n].size != p[k].size {
                        return Some(partner_size_message(&p[k].name, &p[n].name));
                    }
                },
            }
        }
        k = k + 1;
    }
    None
}

fn first_stray(face: &Vec<Label>, points: usize) -> (r: usize)
    ensures
        r == first(face.len() as int, 0, stray_in(face@, points as int)),
        r <= face.len(),
{
    let mut i: usize = 0;
    while i < face.len()
        invariant
            i <= face.len(),
            first(face.len() as int, 0, stray_in(face@, points as int)) == first(
                face.len() as int,
                i as int,
                stray_in(face@, points as int),
            ),
        decreases face.len() - i,
    {
        if face[i] < 0 || face[i] as usize >= points {
            return i;
        }
        i = i + 1;
    }
    i
}

fn check_vertices(faces: &Vec<Vec<Label>>, points: usize) -> (r: Option<String>)
    ensures
        match (r, stray_vertex(faces_of(faces@), points as int, 0)) {
            (Some(m), Some(n)) => m@ == n,
            (None, None) => true,
            _ => false,
        },
{
    let ghost fv = faces_of(faces@);
    let mut f: usize = 0;
    while f < faces.len()
        invariant
            f <= faces.len(),
            fv == faces_of(faces@),
            stray_vertex(fv, points as int, 0) == stray_vertex(fv, points as int, f as int),
        decreases faces.len() - f,
    {
        assert(fv[f as int] == faces[f as int]@);
        let i: usize = first_stray(&faces[f], points);
        if i < faces[f].len() {
            return Some(bad_vertex_message(f, faces[f][i] as i64, points));
        }
        f = f + 1;
    }
    None
}

/// The kind and the patch of every boundary face.
fn mark_faces(p: &Vec<PatchInfo>, n: usize) -> (r: (Vec<Label>, Vec<Label>))
    requires
        p.len() <= i32::MAX,
        forall|k: int| 0 <= k < p.len() ==> (#[trigger] p[k]).start + p[k].size <= n,
    ensures
        r.0@ == Seq::new(n as nat, |i: int| kind_at(patches_of(p@), p.len() as int, i)),
        r.1@ == Seq::new(
            n as nat,
            |i: int| patch_of_face(patches_of(p@), p.len() as int, i) as Label,
        ),
{
    let ghost pv = patches_of(p@);
    let mut kind: Vec<Label> = filled(PatchKind::Generic.label(), n);
    let mut patch: Vec<Label> = filled(-1, n);
    let mut k: usize = 0;
    while k < p.len()
        invariant
            k <= p.len() <= i32::MAX,
            pv == patches_of(p@),
            forall|k: int| 0 <= k < p.len() ==> (#[trigger] p[k]).start + p[k].size <= n,
            kind.len() == n,
            patch.len() == n,
            forall|i: int| 0 <= i < n ==> #[trigger] kind[i] == kind_at(pv, k as int, i),
            forall|i: int|
                0 <= i < n ==> #[trigger] patch[i] == patch_of_face(pv, k as int, i) as Label,
        decreases p.len() - k,
    {
        let start: usize = p[k].start;
        let size: usize = p[k].size;
        let number: Label = p[k].kind.label();
        assert(pv[k as int] == p[k as int]@);
        let mut j: usize = 0;
        while j < size
            invariant
                k < p.len() <= i32::MAX,
                pv == patches_of(p@),
                pv[k as int] == p[k as int]@,
                start == p[k as int].start,
                size == p[k as int].size,
                number == p[k as int].kind.number(),
                start + size <= n,
                j <= size,
                kind.len() == n,
                patch.len() == n,
                forall|i: int|
                    0 <= i < n ==> #[trigger] kind[i] == (if start <= i < start + j {
                        kind_at(pv, k + 1, i)
                    } else {
                        kind_at(pv, k as int, i)
                    }),
                forall|i: int|
                    0 <= i < n ==> #[trigger] patch[i] == (if start <= i < start + j {
                        patch_of_face(pv, k + 1, i) as Label
                    } else {
                        patch_of_face(pv, k as int, i) as Label
                    }),
            decreases size - j,
        {
            kind.set(start + j, number);
            patch.set(start + j, k as Label);
            assert(covers(pv[k as int], start + j));
            j = j + 1;
        }
        assert forall|i: int| 0 <= i < n implies #[trigger] kind[i] == kind_at(pv, k + 1, i) by {
            assert(covers(pv[k as int], i) == (start <= i < start + size));
        }
        assert forall|i: int| 0 <= i < n implies #[trigger] patch[i] == patch_of_face(pv, k + 1, i)
            as Label by {
            assert(covers(pv[k as int], i) == (start <= i < start + size));
        }
        k = k + 1;
    }
    assert(kind@ =~= Seq::new(n as nat, |i: int| kind_at(pv, p.len() as int, i)));
    assert(patch@ =~= Seq::new(n as nat, |i: int| patch_of_face(pv, p.len() as int, i) as Label));
    (kind, patch)
}

/// The cell across every boundary face.
fn pair_cells(p: &Vec<PatchInfo>, cells: &Vec<Label>) -> (r: Vec<Label>)
    requires
        forall|k: int| 0 <= k < p.len() ==> (#[trigger] p[k]).start + p[k].size <= cells.len(),
        forall|k: int|
            0 <= k < p.len() && pairs_up((#[trigger] p[k])@) ==> p[k].nbr_patch->Some_0 < p.len()
                && p[p[k].nbr_patch->Some_0 as int].size == p[k].size,
    ensures
        r@ == Seq::new(
            cells@.len(),
            |i: int| cell_across(patches_of(p@), cells@, p.len() as int, i),
        ),
{
    let ghost pv = patches_of(p@);
    let n: usize = cells.len();
    let mut out: Vec<Label> = filled(-1, n);
    let mut k: usize = 0;
    while k < p.len()
        invariant
            k <= p.len(),
            pv == patches_of(p@),
            n == cells.len(),
            out.len() == n,
            forall|k: int| 0 <= k < p.len() ==> (#[trigger] p[k]).start + p[k].size <= n,
            forall|k: int|
                0 <= k < p.len() && pairs_up((#[trigger] p[k])@) ==> p[k].nbr_patch->Some_0
                    < p.len() && p[p[k].nbr_patch->Some_0 as int].size == p[k].size,
            forall|i: int|
                0 <= i < n ==> #[trigger] out[i] == cell_across(pv, cells@, k as int, i),
        decreases p.len() - k,
    {
        assert(pv[k as int] == p[k as int]@);
        let partner: Option<usize> = if p[k].kind == PatchKind::Cyclic {
            p[k].nbr_patch
        } else {
            None
        };
        match partner {
            None => {
                assert forall|i: int| 0 <= i < n implies #[trigger] out[i] == cell_across(
                    pv,
                    cells@,
                    k + 1,
                    i,
                ) by {
                    assert(!pairs_up(pv[k as int]));
                }
            },
            Some(m) => {
                let start: usize = p[k].start;
                let size: usize = p[k].size;
                assert(pairs_up(p[k as int]@));
                assert(pv[m as int] == p[m as int]@);
                let other: usize = p[m].start;
                assert(p[m as int].start + p[m as int].size <= n);
                let mut j: usize = 0;
                while j < size
                    invariant
                        k < p.len(),
                        m < p.len(),
                        pv == patches_of(p@),
                        pv[k as int] == p[k as int]@,
                        pv[m as int] == p[m as int]@,
                        pairs_up(pv[k as int]),
                        pv[k as int].nbr_patch == Some(m),
                        start == p[k as int].start,
                        size == p[k as int].size,
                        other == p[m as int].start,
                        start + size <= n,
                        other + size <= n,
                        n == cells.len(),
                        out.len() == n,
                        j <= size,
                        forall|i: int|
                            0 <= i < n ==> #[trigger] out[i] == (if start <= i < start + j {
                                cell_across(pv, cells@, k + 1, i)
                            } else {
                                cell_across(pv, cells@, k as int, i)
                            }),
                    decreases size - j,
                {
                    out.set(start + j, cells[other + j]);
                    assert(covers(pv[k as int], start + j));
                    j = j + 1;
                }
                assert forall|i: int| 0 <= i < n implies #[trigger] out[i] == cell_across(
                    pv,
                    cells@,
                    k + 1,
                    i,
                ) by {
                    assert(covers(pv[k as int], i) == (start <= i < start + size));
                }
            },
        }
        k = k + 1;
    }
    assert(out@ =~= Seq::new(cells@.len(), |i: int| cell_across(pv, cells@, p.len() as int, i)));
    out
}

/// Why a mesh cannot be addressed, if it cannot.
fn find_fault(raw: &PolyMeshRaw) -> (r: Option<String>)
    requires
        raw.patches_fit(),
    ensures
        match (r, host_fault(raw@)) {
            (Some(m), Some(n)) => m@ == n,
            (None, None) => {
                let b = raw.faces.len() - raw.neighbour.len();
                &&& b >= 0
                &&& raw.owner.len() == raw.faces.len()
                &&& forall|k: int|
                    0 <= k < raw.patches.len() ==> (#[trigger] raw.patches[k]).start
                        + raw.patches[k].size <= b
                &&& forall|k: int|
                    0 <= k < raw.patches.len() && pairs_up((#[trigger] raw.patches[k])@)
                        ==> raw.patches[k].nbr_patch->Some_0 < raw.patches.len()
                        && raw.patches[raw.patches[k].nbr_patch->Some_0 as int].size
                        == raw.patches[k].size
            },
            _ => false,
        },
{
    let n_faces: usize = raw.faces.len();
    let n_if: usize = raw.neighbour.len();
    assert(raw@.faces.len() == n_faces);
    if raw.owner.len() != n_faces {
        return Some(host_owner_count_message(raw.owner.len(), n_faces));
    }
    if n_if > n_faces {
        return Some(host_inner_count_message(n_if, n_faces));
    }
    let o: usize = first_negative(&raw.owner);
    if o < raw.owner.len() {
        return Some(negative_owner_message(o, raw.owner[o] as i64));
    }
    let n: usize = first_negative(&raw.neighbour);
    if n < n_if {
        return Some(negative_neighbour_message(n, raw.neighbour[n] as i64));
    }
    let a: i64 = count_beyond(&raw.owner);
    let b: i64 = count_beyond(&raw.neighbour);
    let cells: i64 = if a > b {
        a
    } else {
        b
    };
    if cells > 0x7fff_ffff {
        return Some(too_many_cells_message(cells as usize));
    }
    let u: usize = first_misordered(raw);
    if u < n_if {
        return Some(not_upper_message(u, raw.owner[u] as i64, raw.neighbour[u] as i64));
    }
    let w: usize = first_unsorted(raw);
    if w < n_if {
        return Some(not_sorted_message(w, raw.owner[w] as i64, raw.neighbour[w] as i64));
    }
    let n_bf: usize = n_faces - n_if;
    let l: usize = first_leaving(&raw.patches, n_bf);
    if l < raw.patches.len() {
        let p = &raw.patches[l];
        assert(raw@.patches[l as int] == p@);
        return Some(patch_overrun_message(&p.name, p.start, p.start + p.size, n_bf));
    }
    match check_pairs(&raw.patches) {
        Some(m) => {
            return Some(m);
        },
        None => {},
    }
    check_vertices(&raw.faces, raw.points.len())
}

/// The addressing of a stored mesh, with room for its geometry.
///
/// The number of cells comes from the addressing; it is not stored. Internal faces
/// stand in upper-triangular order, each with its owner below its neighbour and all
/// of them sorted by owner and then by neighbour; a mesh that does not is refused.
pub fn build_host_mesh(raw: &PolyMeshRaw) -> (r: Result<HostMesh, Error>)
    requires
        raw.patches_fit(),
        raw.patches.len() <= i32::MAX,
        2 * raw.neighbour.len() <= i32::MAX,
        raw.faces.len() - raw.neighbour.len() <= i32::MAX,
    ensures
        match (r, host_fault(raw@)) {
            (Err(e), Some(m)) => e@ == Failure::Mesh(m),
            (Ok(h), None) => addresses(h, raw@) && unfilled(h) && h.addressed() && h.mapped(),
            _ => false,
        },
{
    match find_fault(raw) {
        Some(m) => {
            return Err(Error::Mesh(m));
        },
        None => {},
    }
    let n_faces: usize = raw.faces.len();
    let n_if: usize = raw.neighbour.len();
    let n_bf: usize = n_faces - n_if;
    let a: i64 = count_beyond(&raw.owner);
    let b: i64 = count_beyond(&raw.neighbour);
    let n_cells: usize = if a > b {
        a as usize
    } else {
        b as usize
    };
    let cells = copy_part(&raw.owner, n_if, n_faces);
    assert(cells@ =~= raw.owner@.skip(n_if as int));
    let (b_kind, b_patch) = mark_faces(&raw.patches, n_bf);
    let b_nbr_cell = pair_cells(&raw.patches, &cells);
    let nil = Scalar { bits: 0 };
    let mut m = HostMesh {
        n_cells,
        n_internal_faces: n_if,
        n_boundary_faces: n_bf,
        n_points: raw.points.len(),
        owner: copy_part(&raw.owner, 0, n_if),
        neighbour: copy_list(&raw.neighbour),
        patches: copy_patches(&raw.patches),
        b_face_cells: cells,
        b_kind,
        b_patch,
        b_nbr_cell,
        b_weights: filled(Scalar { bits: ONE }, n_bf),
        v: filled(nil, n_cells),
        c: filled(Vec3::zero(), n_cells),
        sf: filled(Vec3::zero(), n_if),
        mag_sf: filled(nil, n_if),
        cf: filled(Vec3::zero(), n_if),
        weights: filled(nil, n_if),
        delta_coeffs: filled(nil, n_if),
        non_orth_corr: filled(Vec3::zero(), n_if),
        b_sf: filled(Vec3::zero(), n_bf),
        b_mag_sf: filled(nil, n_bf),
        b_cf: filled(Vec3::zero(), n_bf),
        b_delta_coeffs: filled(nil, n_bf),
        b_y: filled(nil, n_bf),
        cf_offset: Vec::new(),
        cf_face: Vec::new(),
        cf_own: Vec::new(),
        bcf_offset: Vec::new(),
        bcf_face: Vec::new(),
    };
    proof {
        assert(m.owner@ =~= raw.owner@.take(n_if as int));
        lemma_addressed(m, raw@);
    }
    m.build_cell_face_maps();
    Ok(m)
}

/// A mesh without a fault is addressed within its bounds.
proof fn lemma_addressed(h: HostMesh, m: RawMesh)
    requires
        host_fault(m) is None,
        addresses(h, m),
        2 * m.neighbour.len() <= i32::MAX,
        m.faces.len() - m.neighbour.len() <= i32::MAX,
    ensures
        h.addressed(),
{
    let inner = m.neighbour.len() as int;
    lemma_beyond(m.owner, m.owner.len() as int);
    lemma_beyond(m.neighbour, inner);
    crate::list::lemma_first(m.owner.len() as int, 0, negative_in(m.owner));
    crate::list::lemma_first(inner, 0, negative_in(m.neighbour));
    assert forall|f: int| 0 <= f < h.n_internal_faces implies 0 <= #[trigger] h.owner[f]
        < h.n_cells by {
        assert(!negative_in(m.owner)(f));
        assert(h.owner@[f] == m.owner[f]);
    }
    assert forall|f: int| 0 <= f < h.n_internal_faces implies 0 <= #[trigger] h.neighbour[f]
        < h.n_cells by {
        assert(!negative_in(m.neighbour)(f));
    }
    assert forall|f: int| 0 <= f < h.n_boundary_faces implies 0 <= #[trigger] h.b_face_cells[f]
        < h.n_cells by {
        assert(!negative_in(m.owner)(inner + f));
        assert(h.b_face_cells@[f] == m.owner[inner + f]);
    }
}

/// Does a face come before another by owner and then by neighbour, or with it?
pub open spec fn face_before(m: RawMesh, f: int, g: int) -> bool {
    m.owner[f] < m.owner[g] || (m.owner[f] == m.owner[g] && m.neighbour[f] <= m.neighbour[g])
}

/// A mesh that is not refused has its internal faces in upper-triangular order.
pub proof fn accepted_meshes_are_in_order(m: RawMesh, f: int, g: int)
    requires
        host_fault(m) is None,
        0 <= f <= g < m.neighbour.len(),
    ensures
        m.owner[f] < m.neighbour[f],
        face_before(m, f, g),
    decreases g - f,
{
    let inner = m.neighbour.len() as int;
    crate::list::lemma_first(inner, 0, misordered_in(m));
    crate::list::lemma_first(inner, 0, unsorted_in(m));
    assert(!misordered_in(m)(f));
    if f < g {
        accepted_meshes_are_in_order(m, f, g - 1);
        assert(!unsorted_in(m)(g));
    }
}

/// Patch after patch without a gap, from one boundary face to another.
pub open spec fn tiles(p: Seq<Patch>, from: int, to: int) -> bool
    decreases p.len(),
{
    if p.len() == 0 {
        from == to
    } else {
        p[0].start == from && p[0].size >= 0 && tiles(p.skip(1), from + p[0].size, to)
    }
}

proof fn lemma_laid_out_tiles(w: Seq<Written>, i: int, at: int, inner: int, faces: int)
    requires
        0 <= i <= w.len(),
        laid_out(w, i, at, inner, faces) is Ok,
    ensures
        tiles(laid_out(w, i, at, inner, faces)->Ok_0, at - inner, faces - inner),
        laid_out(w, i, at, inner, faces)->Ok_0.len() == w.len() - i,
    decreases w.len() - i,
{
    if i < w.len() {
        lemma_laid_out_tiles(w, i + 1, at + w[i].n_faces, inner, faces);
        let rest = laid_out(w, i + 1, at + w[i].n_faces, inner, faces)->Ok_0;
        let p = laid_out(w, i, at, inner, faces)->Ok_0;
        assert(p.skip(1) =~= rest);
    }
}

proof fn lemma_tiles_cover(p: Seq<Patch>, from: int, to: int, i: int)
    requires
        tiles(p, from, to),
    ensures
        from <= to,
        from <= i < to ==> exists|k: int| 0 <= k < p.len() && covers(#[trigger] p[k], i),
        forall|k: int| 0 <= k < p.len() && covers(#[trigger] p[k], i) ==> from <= i < to,
        forall|k: int, l: int|
            0 <= k < p.len() && 0 <= l < p.len() && covers(#[trigger] p[k], i) && covers(
                #[trigger] p[l],
                i,
            ) ==> k == l,
    decreases p.len(),
{
    if p.len() > 0 {
        let q = p.skip(1);
        lemma_tiles_cover(q, from + p[0].size, to, i);
        assert forall|k: int| 0 <= k < p.len() && covers(#[trigger] p[k], i) implies from <= i
            < to by {
            if k > 0 {
                assert(covers(q[k - 1], i));
            }
        }
        assert forall|k: int, l: int|
            0 <= k < p.len() && 0 <= l < p.len() && covers(#[trigger] p[k], i) && covers(
                #[trigger] p[l],
                i,
            ) implies k == l by {
            if k > 0 {
                assert(covers(q[k - 1], i));
            }
            if l > 0 {
                assert(covers(q[l - 1], i));
            }
        }
        if from <= i < to {
            if i < from + p[0].size {
                assert(covers(p[0], i));
            } else {
                let k = choose|k: int| 0 <= k < q.len() && covers(#[trigger] q[k], i);
                assert(covers(p[k + 1], i));
            }
        }
    }
}

/// The patches that are read tile the boundary: every boundary face is in exactly
/// one of them.
pub proof fn patches_tile_the_boundary(w: Seq<Written>, inner: int, faces: int, i: int)
    requires
        patches_from(w, inner, faces) is Ok,
        0 <= i < faces - inner,
    ensures
        ({
            let p = patches_from(w, inner, faces)->Ok_0;
            &&& exists|k: int| 0 <= k < p.len() && covers(#[trigger] p[k], i)
            &&& forall|k: int, l: int|
                0 <= k < p.len() && 0 <= l < p.len() && covers(#[trigger] p[k], i) && covers(
                    #[trigger] p[l],
                    i,
                ) ==> k == l
        }),
{
    let laid = laid_out(w, 0, inner, inner, faces)->Ok_0;
    let p = patches_from(w, inner, faces)->Ok_0;
    lemma_laid_out_tiles(w, 0, inner, inner, faces);
    lemma_tiles_cover(laid, 0, faces - inner, i);
    assert forall|k: int| 0 <= k < p.len() implies covers(#[trigger] p[k], i) == covers(
        laid[k],
        i,
    ) by {
        assert(p[k] == partnered(laid, w, k));
    }
    let k = choose|k: int| 0 <= k < laid.len() && covers(#[trigger] laid[k], i);
    assert(covers(p[k], i));
}

/// The cell across a cyclic face is the cell of the partner's face of the same
/// number, where no later cyclic patch covers the face too.
pub proof fn cyclic_faces_pair_by_number(p: Seq<Patch>, cells: Seq<Label>, n: int, k: int, i: int)
    requires
        0 <= k < n <= p.len(),
        pairs_up(p[k]),
        covers(p[k], i),
        forall|l: int| k < l < n ==> !covers(#[trigger] p[l], i),
    ensures
        cell_across(p, cells, n, i) == cells[p[p[k].nbr_patch->Some_0 as int].start + (i
            - p[k].start)],
    decreases n,
{
    if k < n - 1 {
        assert(!covers(p[n - 1], i));
        cyclic_faces_pair_by_number(p, cells, n - 1, k, i);
    }
}

// --------------------------------------------------------------------------
//  Where a mesh is stored
// --------------------------------------------------------------------------
/// The directories that may hold the mesh of a case: below the case itself, below its
/// `constant`, or the one that was named.
pub open spec fn mesh_dirs(case: Seq<char>) -> Seq<Seq<char>> {
    seq![under(under(case, "constant"@), "polyMesh"@), under(case, "polyMesh"@), case]
}

/// The directories that may hold the mesh of a case, in the order of trial.
pub fn poly_mesh_dirs(case_dir: &str) -> (r: Vec<String>)
    ensures
        texts(r@) == mesh_dirs(case_dir@),
{
    let mut r: Vec<String> = Vec::new();
    r.push(path_under(&path_under(case_dir, "constant"), "polyMesh"));
    r.push(path_under(case_dir, "polyMesh"));
    r.push(copy(case_dir));
    assert(texts(r@) =~= mesh_dirs(case_dir@));
    r
}

/// What a user is told where no mesh is found.
pub open spec fn no_mesh_text(case: Seq<char>) -> Seq<char> {
    let d = mesh_dirs(case);
    "cannot find a polyMesh under '"@ + case + "'. Tried:"@ + "\n    "@ + under(d[0], "points"@)
        + "\n    "@ + under(d[1], "points"@) + "\n    "@ + under(d[2], "points"@)
}

/// The directory of the mesh of a case: the first of [`poly_mesh_dirs`] in which
/// `points` was found.
pub fn find_poly_mesh_dir(case_dir: &str, found: &Vec<bool>) -> (r: Result<String, Error>)
    requires
        found.len() == 3,
    ensures
        match r {
            Ok(d) => exists|k: int|
                #![trigger found[k]]
                0 <= k < 3 && found[k] && d@ == mesh_dirs(case_dir@)[k] && forall|j: int|
                    0 <= j < k ==> !#[trigger] found[j],
            Err(e) => e@ == Failure::Mesh(no_mesh_text(case_dir@)) && forall|j: int|
                0 <= j < 3 ==> !#[trigger] found[j],
        },
{
    let dirs = poly_mesh_dirs(case_dir);
    let ghost d = mesh_dirs(case_dir@);
    assert(texts(dirs@).len() == dirs.len());
    assert(dirs.len() == 3);
    assert(texts(dirs@)[0] == d[0] && texts(dirs@)[1] == d[1] && texts(dirs@)[2] == d[2]);
    assert(dirs[0]@ == d[0] && dirs[1]@ == d[1] && dirs[2]@ == d[2]);
    if found[0] {
        return Ok(copy(&dirs[0]));
    }
    if found[1] {
        return Ok(copy(&dirs[1]));
    }
    if found[2] {
        return Ok(copy(&dirs[2]));
    }
    let mut s = copy("cannot find a polyMesh under '");
    push_text(&mut s, case_dir);
    push_text(&mut s, "'. Tried:");
    push_text(&mut s, "\n    ");
    push_text(&mut s, &path_under(&dirs[0], "points"));
    push_text(&mut s, "\n    ");
    push_text(&mut s, &path_under(&dirs[1], "points"));
    push_text(&mut s, "\n    ");
    push_text(&mut s, &path_under(&dirs[2], "points"));
    Err(Error::Mesh(s))
}

} // verus!
