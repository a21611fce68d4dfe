//! What a run writes: the formats and their schedules, from the command line or from
//! a case's `output` block, and every refusal that can be raised before a file is
//! opened.

use vstd::prelude::*;

use crate::contract::{
    agrees, decided, passed_over, refusal, strict, unsupported, unsupported_note, Policy,
};
use crate::digits::{show, shown};
use crate::error::{Error, Failure};
use crate::list::{first, lemma_first};
use crate::nvdb::Precision;
use crate::output_types::OutputField;
use crate::scalar::Scalar;
use crate::text::{
    chars_of, copy, decimal, join, join_from, lemma_texts_push, push_decimal, push_text, same,
    string_between, texts, trim, trimmed,
};
use crate::writer::{
    path_under, under, FoamWriter, NvdbWriter, UsdaWriter, VdbWriter, VtuWriter, WriteCtx,
};

verus! {

// --------------------------------------------------------------------------
//  Formats
// --------------------------------------------------------------------------
/// A format that results are written in.
#[derive(Debug, Clone, Copy, PartialEq, Eq, Structural)]
pub enum OutputFormat {
    Foam,
    Vtu,
    Nvdb,
    Vdb,
    Usda,
}

impl OutputFormat {
    /// The name of a format.
    pub open spec fn spelling(self) -> Seq<char> {
        match self {
            OutputFormat::Foam => "foam"@,
            OutputFormat::Vtu => "vtu"@,
            OutputFormat::Nvdb => "nvdb"@,
            OutputFormat::Vdb => "vdb"@,
            OutputFormat::Usda => "usda"@,
        }
    }

    /// The name of the format, in case files and on the command line.
    pub fn name(self) -> (r: &'static str)
        ensures
            r@ == self.spelling(),
    {
        match self {
            OutputFormat::Foam => "foam",
            OutputFormat::Vtu => "vtu",
            OutputFormat::Nvdb => "nvdb",
            OutputFormat::Vdb => "vdb",
            OutputFormat::Usda => "usda",
        }
    }
}

/// The names of some formats.
pub open spec fn spellings(f: Seq<OutputFormat>) -> Seq<Seq<char>> {
    f.map_values(|x: OutputFormat| x.spelling())
}

fn names_of(f: &Vec<OutputFormat>) -> (r: Vec<String>)
    ensures
        texts(r@) == spellings(f@),
{
    let mut out: Vec<String> = Vec::new();
    let mut i: usize = 0;
    assert(texts(out@) =~= spellings(f@).take(0));
    while i < f.len()
        invariant
            i <= f.len(),
            texts(out@) == spellings(f@).take(i as int),
        decreases f.len() - i,
    {
        let n = copy(f[i].name());
        proof {
            lemma_texts_push(out@, n);
        }
        out.push(n);
        i = i + 1;
        assert(texts(out@) =~= spellings(f@).take(i as int));
    }
    assert(texts(out@) =~= spellings(f@));
    out
}

fn copy_formats(f: &Vec<OutputFormat>) -> (r: Vec<OutputFormat>)
    ensures
        r@ == f@,
{
    let mut out: Vec<OutputFormat> = Vec::new();
    let mut i: usize = 0;
    while i < f.len()
        invariant
            i <= f.len(),
            out@ == f@.take(i as int),
        decreases f.len() - i,
    {
        out.push(f[i]);
        i = i + 1;
        assert(out@ =~= f@.take(i as int));
    }
    assert(out@ =~= f@);
    out
}

/// The first comma from `i` on, or the end.
pub open spec fn comma(s: Seq<char>, i: int) -> int {
    first(s.len() as int, i, |k: int| s[k] == ',')
}

/// The entries of a comma list from `i` on, without the blanks around them. An entry
/// with nothing in it is none.
pub open spec fn entries(s: Seq<char>, i: int) -> Seq<Seq<char>>
    decreases s.len() + 1 - i,
{
    if i < 0 || i > s.len() {
        Seq::empty()
    } else {
        proof {
            lemma_first(s.len() as int, i, |k: int| s[k] == ',');
        }
        let e = comma(s, i);
        let t = trimmed(s.subrange(i, e));
        (if t.len() > 0 {
            seq![t]
        } else {
            Seq::empty()
        }) + entries(s, e + 1)
    }
}

fn find_comma(s: &Vec<char>, i: usize) -> (r: usize)
    requires
        i <= s.len(),
    ensures
        r == comma(s@, i as int),
        i <= r <= s.len(),
{
    let mut k: usize = i;
    let ghost p = |k: int| s@[k] == ',';
    while k < s.len() && s[k] != ','
        invariant
            i <= k <= s.len(),
            p == (|k: int| s@[k] == ','),
            first(s.len() as int, i as int, p) == first(s.len() as int, k as int, p),
        decreases s.len() - k,
    {
        k = k + 1;
    }
    k
}

/// The entries of a comma list.
pub fn comma_list(t: &str) -> (r: Vec<String>)
    ensures
        texts(r@) == entries(t@, 0),
{
    let s = chars_of(t);
    let mut out: Vec<String> = Vec::new();
    let mut i: usize = 0;
    assert(texts(out@) + entries(s@, 0) =~= entries(s@, 0));
    loop
        invariant
            i <= s.len(),
            s@ == t@,
            texts(out@) + entries(s@, i as int) == entries(s@, 0),
        decreases s.len() - i,
    {
        let e: usize = find_comma(&s, i);
        let w = trim(&string_between(&s, i, e));
        let ghost was = texts(out@);
        let ghost rest = entries(s@, e + 1);
        assert(w@ == trimmed(s@.subrange(i as int, e as int)));
        if !w.as_str().is_empty() {
            proof {
                lemma_texts_push(out@, w);
                assert(was + (seq![w@] + rest) =~= was.push(w@) + rest);
            }
            out.push(w);
        } else {
            assert(was + (Seq::<Seq<char>>::empty() + rest) =~= was + rest);
        }
        assert(texts(out@) + entries(s@, e + 1) == entries(s@, 0));
        if e >= s.len() {
            assert(entries(s@, e + 1) =~= Seq::empty());
            assert(texts(out@) + entries(s@, e + 1) =~= texts(out@));
            return out;
        }
        i = e + 1;
    }
}

/// Where a list of formats stands, which decides what it may name.
#[derive(Debug, Clone, Copy, PartialEq, Eq, Structural)]
pub enum Column {
    /// On the command line: every format.
    Any,
    /// Under `visualisation`: the dense grids.
    Visual,
    /// Under `exact`: the formats that keep the cells.
    Exact,
}

impl Column {
    /// The format that an entry names, where the column takes it.
    pub open spec fn accepts(self, t: Seq<char>) -> Option<OutputFormat> {
        match self {
            Column::Any => if t == "foam"@ {
                Some(OutputFormat::Foam)
            } else if t == "vtu"@ {
                Some(OutputFormat::Vtu)
            } else if t == "nvdb"@ {
                Some(OutputFormat::Nvdb)
            } else if t == "vdb"@ {
                Some(OutputFormat::Vdb)
            } else if t == "usda"@ {
                Some(OutputFormat::Usda)
            } else {
                None
            },
            Column::Visual => if t == "vdb"@ {
                Some(OutputFormat::Vdb)
            } else if t == "nvdb"@ {
                Some(OutputFormat::Nvdb)
            } else {
                None
            },
            Column::Exact => if t == "vtu"@ {
                Some(OutputFormat::Vtu)
            } else if t == "openfoam"@ || t == "foam"@ {
                Some(OutputFormat::Foam)
            } else {
                None
            },
        }
    }

    /// Where an entry that the column does not take belongs.
    pub open spec fn note(self, t: Seq<char>) -> Seq<char> {
        match self {
            Column::Any => Seq::empty(),
            Column::Visual => if t == "vtu"@ || t == "openfoam"@ || t == "foam"@ {
                "vtu and openfoam are the exact, polyhedra-preserving formats: name them under output.exact, which is where a mesh-shaped writer belongs. output.visualisation is the dense voxel grid a renderer reads"@
            } else if t == "usda"@ {
                "a .usda scene carries no voxels of its own - it REFERENCES the volume files. Ask for it with output.visualisation.usdScene: true alongside a vdb or nvdb format"@
            } else {
                Seq::empty()
            },
            Column::Exact => if t == "vdb"@ || t == "nvdb"@ {
                "vdb and nvdb are dense voxel grids on a Cartesian lattice - they do not preserve a polyhedral cell and so cannot be the exact format. Name them under output.visualisation"@
            } else if t == "usda"@ {
                "a .usda scene references volume files; ask for it with output.visualisation.usdScene: true"@
            } else {
                Seq::empty()
            },
        }
    }

    fn pick(self, t: &str) -> (r: Option<OutputFormat>)
        ensures
            r == self.accepts(t@),
    {
        match self {
            Column::Any => if same(t, "foam") {
                Some(OutputFormat::Foam)
            } else if same(t, "vtu") {
                Some(OutputFormat::Vtu)
            } else if same(t, "nvdb") {
                Some(OutputFormat::Nvdb)
            } else if same(t, "vdb") {
                Some(OutputFormat::Vdb)
            } else if same(t, "usda") {
                Some(OutputFormat::Usda)
            } else {
                None
            },
            Column::Visual => if same(t, "vdb") {
                Some(OutputFormat::Vdb)
            } else if same(t, "nvdb") {
                Some(OutputFormat::Nvdb)
            } else {
                None
            },
            Column::Exact => if same(t, "vtu") {
                Some(OutputFormat::Vtu)
            } else if same(t, "openfoam") || same(t, "foam") {
                Some(OutputFormat::Foam)
            } else {
                None
            },
        }
    }

    fn note_on(self, t: &str) -> (r: &'static str)
        ensures
            r@ == self.note(t@),
    {
        proof {
            reveal_strlit("");
            assert(""@ =~= Seq::<char>::empty());
        }
        match self {
            Column::Any => "",
            Column::Visual => if same(t, "vtu") || same(t, "openfoam") || same(t, "foam") {
                "vtu and openfoam are the exact, polyhedra-preserving formats: name them under output.exact, which is where a mesh-shaped writer belongs. output.visualisation is the dense voxel grid a renderer reads"
            } else if same(t, "usda") {
                "a .usda scene carries no voxels of its own - it REFERENCES the volume files. Ask for it with output.visualisation.usdScene: true alongside a vdb or nvdb format"
            } else {
                ""
            },
            Column::Exact => if same(t, "vdb") || same(t, "nvdb") {
                "vdb and nvdb are dense voxel grids on a Cartesian lattice - they do not preserve a polyhedral cell and so cannot be the exact format. Name them under output.visualisation"
            } else if same(t, "usda") {
                "a .usda scene references volume files; ask for it with output.visualisation.usdScene: true"
            } else {
                ""
            },
        }
    }
}

/// The formats that entries name, in their order, or the first entry that the column
/// does not take.
pub open spec fn listed(c: Column, t: Seq<Seq<char>>) -> Result<Seq<OutputFormat>, Seq<char>> {
    let k = first(t.len() as int, 0, |i: int| c.accepts(t[i]) is None);
    if k < t.len() {
        Err(t[k])
    } else {
        Ok(Seq::new(t.len(), |i: int| c.accepts(t[i])->Some_0))
    }
}

fn pick_all(c: Column, t: &Vec<String>) -> (r: Result<Vec<OutputFormat>, usize>)
    ensures
        match (r, listed(c, texts(t@))) {
            (Ok(a), Ok(b)) => a@ == b,
            (Err(k), Err(w)) => k < t.len() && t@[k as int]@ == w,
            _ => false,
        },
{
    let ghost w = texts(t@);
    let ghost p = |i: int| c.accepts(w[i]) is None;
    let mut out: Vec<OutputFormat> = Vec::new();
    let mut i: usize = 0;
    while i < t.len()
        invariant
            i <= t.len(),
            w == texts(t@),
            p == (|i: int| c.accepts(w[i]) is None),
            first(w.len() as int, 0, p) == first(w.len() as int, i as int, p),
            out.len() == i,
            forall|k: int| 0 <= k < i ==> c.accepts(w[k]) == Some(#[trigger] out@[k]),
        decreases t.len() - i,
    {
        assert(w[i as int] == t@[i as int]@);
        match c.pick(&t[i]) {
            Some(f) => {
                out.push(f);
            },
            None => {
                assert(p(i as int));
                return Err(i);
            },
        }
        i = i + 1;
    }
    assert(out@ =~= Seq::new(w.len(), |i: int| c.accepts(w[i])->Some_0));
    Ok(out)
}

/// The text for an entry of the command line that names no format.
pub open spec fn unknown_format_text(t: Seq<char>) -> Seq<char> {
    "-output: \""@
        + t
        + "\" is not a format ofgpu writes; available: foam, vtu, nvdb, vdb, usda"@
}

fn unknown_format_message(t: &str) -> (r: String)
    ensures
        r@ == unknown_format_text(t@),
{
    let mut s = copy("-output: \"");
    push_text(&mut s, t);
    push_text(&mut s, "\" is not a format ofgpu writes; available: foam, vtu, nvdb, vdb, usda");
    s
}

/// The formats of a comma list, or what is wrong with it.
pub open spec fn formats_in(s: Seq<char>) -> Result<Seq<OutputFormat>, Failure> {
    match listed(Column::Any, entries(s, 0)) {
        Ok(f) => Ok(f),
        Err(t) => Err(Failure::Config(unknown_format_text(t))),
    }
}

/// Do formats agree with what is wanted?
pub open spec fn formats_agree(
    r: Result<Vec<OutputFormat>, Error>,
    want: Result<Seq<OutputFormat>, Failure>,
) -> bool {
    match (r, want) {
        (Ok(a), Ok(b)) => a@ == b,
        (Err(e), Err(f)) => e@ == f,
        _ => false,
    }
}

/// The formats that a comma list names, in its order.
pub fn parse_output_formats(s: &str) -> (r: Result<Vec<OutputFormat>, Error>)
    ensures
        formats_agree(r, formats_in(s@)),
{
    let t = comma_list(s);
    match pick_all(Column::Any, &t) {
        Ok(f) => Ok(f),
        Err(k) => Err(Error::Config(unknown_format_message(&t[k]))),
    }
}

/// What an item of a comma list says: nothing where it is blank.
pub open spec fn item_said(t: Seq<char>) -> Seq<Seq<char>> {
    if trimmed(t).len() > 0 {
        seq![trimmed(t)]
    } else {
        Seq::empty()
    }
}

/// What the first `n` items say.
pub open spec fn items_said(items: Seq<Seq<char>>, n: int) -> Seq<Seq<char>>
    decreases n,
{
    if n <= 0 {
        Seq::empty()
    } else {
        items_said(items, n - 1) + item_said(items[n - 1])
    }
}

proof fn lemma_comma(s: Seq<char>, i: int, e: int)
    requires
        0 <= i <= e <= s.len(),
        forall|k: int| i <= k < e ==> #[trigger] s[k] != ',',
        e < s.len() ==> s[e] == ',',
    ensures
        comma(s, i) == e,
{
    let p = |k: int| s[k] == ',';
    lemma_first(s.len() as int, i, p);
    let c = comma(s, i);
    if c < e {
        assert(p(c));
    } else if e < c {
        assert(!p(e));
    }
}

/// One more item stands behind the others.
proof fn lemma_item_behind(s: Seq<char>, t: Seq<char>, i: int)
    requires
        0 <= i <= s.len(),
        !t.contains(','),
    ensures
        entries(s + ","@ + t, i) == entries(s, i) + item_said(t),
    decreases s.len() - i,
{
    reveal_strlit(",");
    let w = s + ","@ + t;
    let n = s.len() as int;
    let p = |k: int| s[k] == ',';
    lemma_first(n, i, p);
    let e = comma(s, i);
    assert forall|k: int| i <= k < e implies #[trigger] w[k] != ',' by {
        assert(!p(k));
    }
    if e < n {
        assert(p(e));
    }
    lemma_comma(w, i, e);
    assert(w.subrange(i, e) =~= s.subrange(i, e));
    if e < n {
        lemma_item_behind(s, t, e + 1);
        assert(entries(w, i) =~= entries(s, i) + item_said(t));
    } else {
        assert forall|k: int| n + 1 <= k < w.len() implies #[trigger] w[k] != ',' by {
            assert(t.contains(t[k - n - 1]));
        }
        lemma_comma(w, n + 1, w.len() as int);
        assert(w.subrange(n + 1, w.len() as int) =~= t);
        assert(entries(w, w.len() as int + 1) =~= Seq::empty());
        assert(entries(w, n + 1) =~= item_said(t));
        assert(entries(s, n + 1) =~= Seq::empty());
        assert(entries(w, i) =~= entries(s, i) + item_said(t));
    }
}

/// A comma list says what its items say, in their order, without the blanks around
/// them; an item with nothing in it says nothing.
pub proof fn comma_lists_say_their_items(items: Seq<Seq<char>>)
    requires
        forall|i: int| 0 <= i < items.len() ==> !(#[trigger] items[i]).contains(','),
    ensures
        entries(join(items, ","@), 0) == items_said(items, items.len() as int),
    decreases items.len(),
{
    let n = items.len() as int;
    let none = Seq::<char>::empty();
    if n == 0 {
        lemma_comma(none, 0, 0);
        assert(none.subrange(0, 0) =~= none);
        assert(entries(none, 1) =~= Seq::empty());
        assert(entries(none, 0) =~= Seq::empty());
    } else if n == 1 {
        let t = items[0];
        assert forall|k: int| 0 <= k < t.len() implies #[trigger] t[k] != ',' by {
            assert(t.contains(t[k]));
        }
        lemma_comma(t, 0, t.len() as int);
        assert(t.subrange(0, t.len() as int) =~= t);
        assert(entries(t, t.len() as int + 1) =~= Seq::empty());
        assert(items_said(items, 0) =~= Seq::empty());
        assert(entries(t, 0) =~= items_said(items, 1));
    } else {
        let h = items.drop_last();
        comma_lists_say_their_items(h);
        lemma_item_behind(join(h, ","@), items.last(), 0);
        lemma_items_said(items, h, n - 1);
    }
}

proof fn lemma_items_said(a: Seq<Seq<char>>, b: Seq<Seq<char>>, n: int)
    requires
        n <= a.len(),
        n <= b.len(),
        forall|i: int| 0 <= i < n ==> a[i] == b[i],
    ensures
        items_said(a, n) == items_said(b, n),
    decreases n,
{
    if n > 0 {
        lemma_items_said(a, b, n - 1);
    }
}

proof fn lemma_spelling(x: OutputFormat)
    ensures
        Column::Any.accepts(x.spelling()) == Some(x),
        trimmed(x.spelling()) == x.spelling(),
        x.spelling().len() > 0,
        !x.spelling().contains(','),
{
    reveal_strlit("foam");
    reveal_strlit("vtu");
    reveal_strlit("nvdb");
    reveal_strlit("vdb");
    reveal_strlit("usda");
    let t = x.spelling();
    assert("foam"@[0] == 'f' && "vtu"@[0] == 'v' && "nvdb"@[0] == 'n' && "vdb"@[1] == 'd');
    assert("vtu"@[1] == 't' && "usda"@[0] == 'u' && "vdb"@.len() == 3 && "nvdb"@.len() == 4);
    assert(t.subrange(0, t.len() as int) =~= t);
}

/// Items that name formats are read as those formats, whatever blanks are around them
/// and whatever items between them are blank.
pub proof fn named_formats_are_read(items: Seq<Seq<char>>, f: Seq<OutputFormat>)
    requires
        forall|i: int| 0 <= i < items.len() ==> !(#[trigger] items[i]).contains(','),
        items_said(items, items.len() as int) == spellings(f),
    ensures
        formats_in(join(items, ","@)) == Ok::<Seq<OutputFormat>, Failure>(f),
{
    comma_lists_say_their_items(items);
    let t = spellings(f);
    let p = |i: int| Column::Any.accepts(t[i]) is None;
    lemma_first(t.len() as int, 0, p);
    let k = first(t.len() as int, 0, p);
    if k < t.len() {
        lemma_spelling(f[k]);
    }
    assert forall|i: int| 0 <= i < f.len() implies Column::Any.accepts(t[i])->Some_0
        == #[trigger] f[i] by {
        lemma_spelling(f[i]);
    }
    assert(Seq::new(t.len(), |i: int| Column::Any.accepts(t[i])->Some_0) =~= f);
}

/// The names of some formats, with commas between them, are read as those formats.
pub proof fn format_names_read_back(f: Seq<OutputFormat>)
    ensures
        formats_in(join(spellings(f), ","@)) == Ok::<Seq<OutputFormat>, Failure>(f),
{
    let t = spellings(f);
    assert forall|i: int| 0 <= i < t.len() implies !(#[trigger] t[i]).contains(',') by {
        lemma_spelling(f[i]);
    }
    lemma_names_are_said(f, f.len() as int);
    assert(t.take(t.len() as int) =~= t);
    named_formats_are_read(t, f);
}

proof fn lemma_names_are_said(f: Seq<OutputFormat>, n: int)
    requires
        0 <= n <= f.len(),
    ensures
        items_said(spellings(f), n) == spellings(f).take(n),
    decreases n,
{
    if n > 0 {
        lemma_names_are_said(f, n - 1);
        lemma_spelling(f[n - 1]);
    }
    assert(items_said(spellings(f), n) =~= spellings(f).take(n));
}

/// An item that names no format is refused, and the refusal names it and every format
/// there is.
pub proof fn unknown_formats_are_refused(items: Seq<Seq<char>>, k: int)
    requires
        forall|i: int| 0 <= i < items.len() ==> !(#[trigger] items[i]).contains(','),
        ({
            let t = items_said(items, items.len() as int);
            &&& 0 <= k < t.len()
            &&& Column::Any.accepts(t[k]) is None
            &&& forall|i: int| 0 <= i < k ==> Column::Any.accepts(#[trigger] t[i]) is Some
        }),
    ensures
        formats_in(join(items, ","@)) == Err::<Seq<OutputFormat>, Failure>(
            Failure::Config(unknown_format_text(items_said(items, items.len() as int)[k])),
        ),
{
    comma_lists_say_their_items(items);
    let t = items_said(items, items.len() as int);
    let p = |i: int| Column::Any.accepts(t[i]) is None;
    lemma_first(t.len() as int, 0, p);
    let c = first(t.len() as int, 0, p);
    if c < k {
        assert(p(c));
        assert(Column::Any.accepts(t[c]) is Some);
    } else if k < c {
        assert(!p(k));
    }
}

// --------------------------------------------------------------------------
//  Writers
// --------------------------------------------------------------------------
/// The volume files that a scene points at: `.vdb` where the run writes them, else
/// `.nvdb` where it writes those.
pub open spec fn scene_ext(f: Seq<OutputFormat>) -> Seq<char> {
    if !f.contains(OutputFormat::Vdb) && f.contains(OutputFormat::Nvdb) {
        "nvdb"@
    } else {
        "vdb"@
    }
}

fn has_format(f: &Vec<OutputFormat>, x: OutputFormat) -> (r: bool)
    ensures
        r == f@.contains(x),
{
    let mut i: usize = 0;
    while i < f.len()
        invariant
            i <= f.len(),
            forall|k: int| 0 <= k < i ==> f@[k] != x,
        decreases f.len() - i,
    {
        if f[i] == x {
            assert(f@[i as int] == x);
            return true;
        }
        i = i + 1;
    }
    false
}

/// The ending of the volume files that a scene points at.
pub fn usda_ext(f: &Vec<OutputFormat>) -> (r: &'static str)
    ensures
        r@ == scene_ext(f@),
{
    if has_format(f, OutputFormat::Vdb) {
        "vdb"
    } else if has_format(f, OutputFormat::Nvdb) {
        "nvdb"
    } else {
        "vdb"
    }
}

/// The writer of one format.
#[derive(Debug)]
pub enum Writer {
    Foam(FoamWriter),
    Vtu(VtuWriter),
    Nvdb(NvdbWriter),
    Vdb(VdbWriter),
    Usda(UsdaWriter),
}

/// Is this a fresh writer of a format? Time directories stand in the root itself; the
/// other formats have directories of their own, so that nothing mixes.
pub open spec fn is_writer(
    w: Writer,
    f: OutputFormat,
    root: Seq<char>,
    stem: Seq<char>,
    ext: Seq<char>,
    precision: Precision,
) -> bool {
    match (f, w) {
        (OutputFormat::Foam, Writer::Foam(x)) => x.case_dir@ == root,
        (OutputFormat::Vtu, Writer::Vtu(x)) => {
            &&& x.dir@ == under(root, "VTK"@)
            &&& x.stem@ == stem
            &&& x.series.len() == 0
        },
        (OutputFormat::Nvdb, Writer::Nvdb(x)) => {
            &&& x.dir@ == under(root, "VDB"@)
            &&& x.stem@ == stem
            &&& x.precision == precision
        },
        (OutputFormat::Vdb, Writer::Vdb(x)) => x.dir@ == under(root, "VDB"@) && x.stem@ == stem,
        (OutputFormat::Usda, Writer::Usda(x)) => {
            &&& x.wf()
            &&& x.path@ == under(root, stem + ".usda"@)
            &&& x.vdb_dir@ == "VDB"@
            &&& x.vdb_stem@ == stem
            &&& x.vdb_ext@ == ext
            &&& x.series.len() == 0
        },
        _ => false,
    }
}

/// Is this one fresh writer per format?
pub open spec fn are_writers(
    w: Seq<Writer>,
    f: Seq<OutputFormat>,
    root: Seq<char>,
    stem: Seq<char>,
    precision: Precision,
) -> bool {
    &&& w.len() == f.len()
    &&& forall|k: int|
        0 <= k < w.len() ==> is_writer(
            #[trigger] w[k],
            f[k],
            root,
            stem,
            scene_ext(f),
            precision,
        )
}

/// One writer per format, in the order of the formats. The precision reaches the
/// `.nvdb` files alone.
pub fn build_writers(
    root: &str,
    stem: &str,
    formats: &Vec<OutputFormat>,
    precision: Precision,
) -> (r: Vec<Writer>)
    ensures
        are_writers(r@, formats@, root@, stem@, precision),
{
    let ext = usda_ext(formats);
    let mut out: Vec<Writer> = Vec::new();
    let mut i: usize = 0;
    while i < formats.len()
        invariant
            i <= formats.len(),
            ext@ == scene_ext(formats@),
            out.len() == i,
            forall|k: int|
                0 <= k < i ==> is_writer(
                    #[trigger] out@[k],
                    formats@[k],
                    root@,
                    stem@,
                    scene_ext(formats@),
                    precision,
                ),
        decreases formats.len() - i,
    {
        let w = match formats[i] {
            OutputFormat::Foam => Writer::Foam(FoamWriter::new(root)),
            OutputFormat::Vtu => Writer::Vtu(VtuWriter::new(&path_under(root, "VTK"), stem)),
            OutputFormat::Nvdb => Writer::Nvdb(
                NvdbWriter::new(&path_under(root, "VDB"), stem, precision),
            ),
            OutputFormat::Vdb => Writer::Vdb(VdbWriter::new(&path_under(root, "VDB"), stem)),
            OutputFormat::Usda => {
                let mut file = copy(stem);
                push_text(&mut file, ".usda");
                Writer::Usda(UsdaWriter::new(&path_under(root, &file), "VDB", stem, ext))
            },
        };
        out.push(w);
        i = i + 1;
    }
    out
}

// --------------------------------------------------------------------------
//  Which fields
// --------------------------------------------------------------------------
/// Which fields a visualisation carries, and in what order.
#[derive(Debug, Clone)]
pub enum FieldSelection {
    All,
    /// Exactly these, in this order.
    Named(Vec<String>),
}

/// The contents of a [`FieldSelection`].
pub enum Selection {
    All,
    Named(Seq<Seq<char>>),
}

impl View for FieldSelection {
    type V = Selection;

    open spec fn view(&self) -> Selection {
        match *self {
            FieldSelection::All => Selection::All,
            FieldSelection::Named(v) => Selection::Named(texts(v@)),
        }
    }
}

impl Default for FieldSelection {
    fn default() -> (r: FieldSelection)
        ensures
            r@ == Selection::All,
    {
        FieldSelection::All
    }
}

/// Is the `i`-th name one of those before it?
pub open spec fn is_repeat(names: Seq<Seq<char>>, i: int) -> bool {
    exists|k: int| 0 <= k < i && #[trigger] names[k] == names[i]
}

/// The selection that a case names: a list of no names selects nothing that could be
/// meant, and a name that comes twice cannot be written twice.
pub open spec fn selected(p: Policy, names: Option<Seq<Seq<char>>>) -> Result<Selection, Failure> {
    match names {
        None => Ok(Selection::All),
        Some(n) => if n.len() == 0 {
            decided(
                p,
                refusal(
                    "output.visualisation.fields"@,
                    "[]"@,
                    Seq::empty(),
                    Seq::empty(),
                    "every field this run has"@,
                ),
                Selection::All,
            )
        } else {
            let k = first(n.len() as int, 0, |i: int| is_repeat(n, i));
            if k < n.len() {
                decided(
                    p,
                    refusal(
                        "output.visualisation.fields"@,
                        n[k],
                        Seq::empty(),
                        "the same field is named twice, and a volume file cannot carry two grids of one name"@,
                        "every field this run has"@,
                    ),
                    Selection::All,
                )
            } else {
                Ok(Selection::Named(n))
            }
        },
    }
}

/// The refusal of a field that the run does not have.
pub open spec fn absent(name: Seq<char>, available: Seq<Seq<char>>) -> Seq<char> {
    refusal(
        "output.visualisation.fields"@,
        name,
        join(available, ", "@),
        Seq::empty(),
        "every field this run has"@,
    )
}

/// The first of the named fields that is not to be had, or their number.
pub open spec fn first_absent(names: Seq<Seq<char>>, available: Seq<Seq<char>>) -> int {
    first(names.len() as int, 0, |i: int| !available.contains(names[i]))
}

/// What the policy makes of a selection that names a field which is not to be had.
pub open spec fn checked(p: Policy, s: Selection, available: Seq<Seq<char>>) -> Result<(), Failure> {
    match s {
        Selection::All => Ok(()),
        Selection::Named(n) => {
            let k = first_absent(n, available);
            if k < n.len() {
                decided(p, absent(n[k], available), ())
            } else {
                Ok(())
            }
        },
    }
}

/// The refusals of those of the first `n` named fields that are not to be had.
pub open spec fn absences(names: Seq<Seq<char>>, available: Seq<Seq<char>>, n: int) -> Seq<Seq<char>>
    decreases n,
{
    if n <= 0 {
        Seq::empty()
    } else if available.contains(names[n - 1]) {
        absences(names, available, n - 1)
    } else {
        absences(names, available, n - 1).push(absent(names[n - 1], available))
    }
}

/// What a check says: where the policy lets the run go on, the refusal of every field
/// that is not to be had.
pub open spec fn check_notices(p: Policy, s: Selection, available: Seq<Seq<char>>) -> Seq<
    Seq<char>,
> {
    match s {
        Selection::Named(n) if p.permissive => absences(n, available, n.len() as int),
        _ => Seq::empty(),
    }
}

/// The names of some fields.
pub open spec fn field_names(all: Seq<OutputField>) -> Seq<Seq<char>> {
    all.map_values(|f: OutputField| f.name@)
}

/// The first field of a name.
pub open spec fn field_at(all: Seq<OutputField>, name: Seq<char>) -> int {
    first(all.len() as int, 0, |i: int| all[i].name@ == name)
}

/// The fields that a selection picks.
pub open spec fn picked<'a>(p: Policy, s: Selection, all: Seq<OutputField<'a>>) -> Result<
    Seq<OutputField<'a>>,
    Failure,
> {
    match s {
        Selection::All => Ok(all),
        Selection::Named(n) => {
            let k = first_absent(n, field_names(all));
            if k < n.len() {
                decided(p, absent(n[k], field_names(all)), all)
            } else {
                Ok(Seq::new(n.len(), |i: int| all[field_at(all, n[i])]))
            }
        },
    }
}

/// The text of a selection.
pub open spec fn described(s: Selection) -> Seq<char> {
    match s {
        Selection::All => "every field"@,
        Selection::Named(n) => join(n, ", "@),
    }
}

fn find_text(v: &Vec<String>, n: usize, t: &str) -> (r: Option<usize>)
    requires
        n <= v.len(),
    ensures
        match r {
            Some(k) => k < n && v@[k as int]@ == t@,
            None => forall|k: int| 0 <= k < n ==> (#[trigger] v@[k])@ != t@,
        },
{
    let mut i: usize = 0;
    while i < n
        invariant
            i <= n <= v.len(),
            forall|k: int| 0 <= k < i ==> (#[trigger] v@[k])@ != t@,
        decreases n - i,
    {
        if same(&v[i], t) {
            return Some(i);
        }
        i = i + 1;
    }
    None
}

fn copy_texts(v: &Vec<String>) -> (r: Vec<String>)
    ensures
        texts(r@) == texts(v@),
{
    let mut out: Vec<String> = Vec::new();
    let mut i: usize = 0;
    assert(texts(out@) =~= texts(v@).take(0));
    while i < v.len()
        invariant
            i <= v.len(),
            texts(out@) == texts(v@).take(i as int),
        decreases v.len() - i,
    {
        let t = copy(&v[i]);
        proof {
            lemma_texts_push(out@, t);
        }
        out.push(t);
        i = i + 1;
        assert(texts(out@) =~= texts(v@).take(i as int));
    }
    assert(texts(out@) =~= texts(v@));
    out
}

fn copy_fields<'a>(v: &Vec<OutputField<'a>>) -> (r: Vec<OutputField<'a>>)
    ensures
        r@ == v@,
{
    let mut out: Vec<OutputField<'a>> = Vec::new();
    let mut i: usize = 0;
    while i < v.len()
        invariant
            i <= v.len(),
            out@ == v@.take(i as int),
        decreases v.len() - i,
    {
        out.push(v[i]);
        i = i + 1;
        assert(out@ =~= v@.take(i as int));
    }
    assert(out@ =~= v@);
    out
}

fn find_field(all: &Vec<OutputField>, t: &str) -> (r: usize)
    ensures
        r == field_at(all@, t@),
        r <= all.len(),
        r < all.len() <==> field_names(all@).contains(t@),
{
    let ghost p = |i: int| all@[i].name@ == t@;
    let ghost names = field_names(all@);
    let mut i: usize = 0;
    while i < all.len()
        invariant
            i <= all.len(),
            names == field_names(all@),
            p == (|i: int| all@[i].name@ == t@),
            first(all.len() as int, 0, p) == first(all.len() as int, i as int, p),
            forall|k: int| 0 <= k < i ==> #[trigger] names[k] != t@,
        decreases all.len() - i,
    {
        if same(all[i].name, t) {
            assert(names[i as int] == t@);
            return i;
        }
        assert(names[i as int] == all@[i as int].name@);
        i = i + 1;
    }
    i
}

fn refuse_absent<T>(
    p: Policy,
    name: &str,
    available: &Vec<String>,
    fallback: T,
    notes: &mut Vec<String>,
) -> (r: Result<T, Error>)
    ensures
        texts(final(notes)@) == texts(old(notes)@) + passed_over(
            decided(strict(), absent(name@, texts(available@)), fallback),
            decided(p, absent(name@, texts(available@)), fallback),
        ),
        agrees(r, decided(p, absent(name@, texts(available@)), fallback)),
{
    let menu = join_from(available, 0, ", ");
    assert(texts(available@).skip(0) =~= texts(available@));
    unsupported(
        p,
        "output.visualisation.fields",
        name,
        &menu,
        "every field this run has",
        fallback,
        notes,
    )
}

/// Does a selection agree with what is wanted?
pub open spec fn selection_agrees(
    r: Result<FieldSelection, Error>,
    want: Result<Selection, Failure>,
) -> bool {
    match (r, want) {
        (Ok(a), Ok(b)) => a@ == b,
        (Err(e), Err(f)) => e@ == f,
        _ => false,
    }
}

/// The names of a case's list, where it has one.
pub open spec fn names_in(v: Option<&Vec<String>>) -> Option<Seq<Seq<char>>> {
    match v {
        Some(n) => Some(texts(n@)),
        None => None,
    }
}

impl FieldSelection {
    /// The selection that a case names.
    pub fn from_case(
        p: Policy,
        fields: Option<&Vec<String>>,
        notes: &mut Vec<String>,
    ) -> (r: Result<FieldSelection, Error>)
        ensures
            texts(final(notes)@) == texts(old(notes)@) + passed_over(
                selected(strict(), names_in(fields)),
                selected(p, names_in(fields)),
            ),
            selection_agrees(r, selected(p, names_in(fields))),
    {
        let names = match fields {
            Some(n) => n,
            None => {
                return Ok(FieldSelection::All);
            },
        };
        let ghost w = texts(names@);
        proof {
            reveal_strlit("");
            assert(""@ =~= Seq::<char>::empty());
        }
        if names.len() == 0 {
            return unsupported(
                p,
                "output.visualisation.fields",
                "[]",
                "",
                "every field this run has",
                FieldSelection::All,
                notes,
            );
        }
        let ghost q = |i: int| is_repeat(w, i);
        let mut i: usize = 0;
        while i < names.len()
            invariant
                i <= names.len(),
                0 < names.len(),
                names_in(fields) == Some(w),
                texts(notes@) == texts(old(notes)@),
                w == texts(names@),
                q == (|i: int| is_repeat(w, i)),
                first(w.len() as int, 0, q) == first(w.len() as int, i as int, q),
            decreases names.len() - i,
        {
            match find_text(names, i, &names[i]) {
                Some(k) => {
                    assert(w[k as int] == w[i as int]);
                    assert(q(i as int));
                    proof {
                        reveal_strlit("");
                        assert(""@ =~= Seq::<char>::empty());
                    }
                    return unsupported_note(
                        p,
                        "output.visualisation.fields",
                        &names[i],
                        "",
                        "the same field is named twice, and a volume file cannot carry two grids of one name",
                        "every field this run has",
                        FieldSelection::All,
                        notes,
                    );
                },
                None => {
                    assert forall|k: int| 0 <= k < i implies #[trigger] w[k] != w[i as int] by {
                        assert(w[k] == names@[k]@);
                    }
                },
            }
            i = i + 1;
        }
        Ok(FieldSelection::Named(copy_texts(names)))
    }

    /// Are all the named fields to be had? Asked once, before the run starts. Where the
    /// policy lets the run go on, every one that is not is noted.
    pub fn check(
        &self,
        p: Policy,
        available: &Vec<String>,
        notes: &mut Vec<String>,
    ) -> (r: Result<(), Error>)
        ensures
            texts(final(notes)@) == texts(old(notes)@) + check_notices(
                p,
                self@,
                texts(available@),
            ),
            agrees(r, checked(p, self@, texts(available@))),
    {
        let names = match self {
            FieldSelection::All => {
                return Ok(());
            },
            FieldSelection::Named(n) => n,
        };
        let ghost w = texts(names@);
        let ghost a = texts(available@);
        let ghost q = |i: int| !a.contains(w[i]);
        let mut i: usize = 0;
        assert(texts(notes@) + absences(w, a, 0) =~= texts(notes@));
        while i < names.len()
            invariant
                i <= names.len(),
                self@ == Selection::Named(w),
                texts(notes@) == texts(old(notes)@) + absences(w, a, i as int),
                !p.permissive ==> absences(w, a, i as int) == Seq::<Seq<char>>::empty(),
                w == texts(names@),
                a == texts(available@),
                q == (|i: int| !a.contains(w[i])),
                !p.permissive ==> first(w.len() as int, 0, q) == first(w.len() as int, i as int, q),
            decreases names.len() - i,
        {
            match find_text(available, available.len(), &names[i]) {
                Some(k) => {
                    assert(a[k as int] == w[i as int]);
                },
                None => {
                    assert(!a.contains(w[i as int])) by {
                        assert forall|k: int| 0 <= k < a.len() implies a[k] != w[i as int] by {
                            assert(a[k] == available@[k]@);
                        }
                    }
                    assert(q(i as int));
                    match refuse_absent(p, &names[i], available, (), notes) {
                        Ok(_) => {},
                        Err(e) => {
                            return Err(e);
                        },
                    }
                    assert(texts(notes@) =~= texts(old(notes)@) + absences(w, a, i + 1));
                },
            }
            i = i + 1;
        }
        Ok(())
    }

    /// The selected fields, in the order of the selection.
    pub fn apply<'a>(
        &self,
        p: Policy,
        all: &Vec<OutputField<'a>>,
        notes: &mut Vec<String>,
    ) -> (r: Result<Vec<OutputField<'a>>, Error>)
        ensures
            texts(final(notes)@) == texts(old(notes)@) + passed_over(
                picked(strict(), self@, all@),
                picked(p, self@, all@),
            ),
            match (r, picked(p, self@, all@)) {
                (Ok(a), Ok(b)) => a@ == b,
                (Err(e), Err(f)) => e@ == f,
                _ => false,
            },
    {
        let names = match self {
            FieldSelection::All => {
                return Ok(copy_fields(all));
            },
            FieldSelection::Named(n) => n,
        };
        let ghost w = texts(names@);
        let ghost a = field_names(all@);
        let ghost q = |i: int| !a.contains(w[i]);
        let mut out: Vec<OutputField<'a>> = Vec::new();
        let mut i: usize = 0;
        while i < names.len()
            invariant
                i <= names.len(),
                self@ == Selection::Named(w),
                texts(notes@) == texts(old(notes)@),
                w == texts(names@),
                a == field_names(all@),
                q == (|i: int| !a.contains(w[i])),
                first(w.len() as int, 0, q) == first(w.len() as int, i as int, q),
                out.len() == i,
                forall|k: int| 0 <= k < i ==> #[trigger] out@[k] == all@[field_at(all@, w[k])],
            decreases names.len() - i,
        {
            let k: usize = find_field(all, &names[i]);
            assert(w[i as int] == names@[i as int]@);
            if k >= all.len() {
                assert(q(i as int));
                let mut available: Vec<String> = Vec::new();
                let mut j: usize = 0;
                assert(texts(available@) =~= a.take(0));
                while j < all.len()
                    invariant
                        j <= all.len(),
                        a == field_names(all@),
                        texts(available@) == a.take(j as int),
                    decreases all.len() - j,
                {
                    let t = copy(all[j].name);
                    proof {
                        lemma_texts_push(available@, t);
                    }
                    available.push(t);
                    j = j + 1;
                    assert(texts(available@) =~= a.take(j as int));
                }
                assert(texts(available@) =~= a);
                return refuse_absent(p, &names[i], &available, copy_fields(all), notes);
            }
            out.push(all[k]);
            i = i + 1;
        }
        assert(out@ =~= Seq::new(w.len(), |i: int| all@[field_at(all@, w[i])]));
        Ok(out)
    }

    /// The selection in words.
    pub fn describe(&self) -> (r: String)
        ensures
            r@ == described(self@),
    {
        match self {
            FieldSelection::All => copy("every field"),
            FieldSelection::Named(n) => {
                assert(texts(n@).skip(0) =~= texts(n@));
                join_from(n, 0, ", ")
            },
        }
    }

    fn copied(&self) -> (r: FieldSelection)
        ensures
            r@ == self@,
    {
        match self {
            FieldSelection::All => FieldSelection::All,
            FieldSelection::Named(n) => FieldSelection::Named(copy_texts(n)),
        }
    }
}

/// A selection that has been checked against the names of the fields in hand picks
/// exactly the named fields, in the order of the names.
pub proof fn checked_selections_pick<'a>(p: Policy, n: Seq<Seq<char>>, all: Seq<OutputField<'a>>)
    requires
        checked(Policy { permissive: false }, Selection::Named(n), field_names(all)) is Ok,
    ensures
        picked(p, Selection::Named(n), all) matches Ok(r) && field_names(r) == n,
{
    let a = field_names(all);
    let q = |i: int| !a.contains(n[i]);
    lemma_first(n.len() as int, 0, q);
    let r = Seq::new(n.len(), |i: int| all[field_at(all, n[i])]);
    assert forall|i: int| 0 <= i < n.len() implies field_names(r)[i] == n[i] by {
        assert(!q(i));
        let k = choose|k: int| 0 <= k < a.len() && a[k] == n[i];
        let h = |j: int| all[j].name@ == n[i];
        lemma_first(all.len() as int, 0, h);
        assert(a[k] == all[k].name@);
        assert(h(k));
    }
    assert(field_names(r) =~= n);
}

// --------------------------------------------------------------------------
//  A case's `output` block
// --------------------------------------------------------------------------
/// The `visualisation` block of a case.
#[derive(Debug, Clone)]
pub struct JsonVisualisation {
    pub format: String,
    pub interval: Option<Scalar>,
    pub fields: Option<Vec<String>>,
    pub precision: Option<String>,
    pub usd_scene: bool,
}

/// The `exact` block of a case.
#[derive(Debug, Clone)]
pub struct JsonExact {
    pub format: String,
    pub interval: Option<Scalar>,
    /// There to be refused.
    pub precision: Option<String>,
}

/// The `restart` block of a case.
#[derive(Debug, Clone)]
pub struct JsonRestart {
    pub interval: Option<Scalar>,
    pub keep: usize,
    /// There to be refused.
    pub precision: Option<String>,
}

/// The `output` block of a case.
#[derive(Debug, Clone)]
pub struct JsonOutput {
    pub visualisation: Option<JsonVisualisation>,
    pub exact: Option<JsonExact>,
    pub restart: Option<JsonRestart>,
}

/// What is written for looking at.
#[derive(Debug, Clone)]
pub struct VisSpec {
    pub formats: Vec<OutputFormat>,
    pub interval: Scalar,
    pub fields: FieldSelection,
    pub precision: Precision,
}

/// What is written cell by cell.
#[derive(Debug, Clone)]
pub struct ExactSpec {
    pub formats: Vec<OutputFormat>,
    pub interval: Scalar,
}

/// The checkpoints of a run. None is dropped where `keep` is zero.
#[derive(Debug, Clone, Copy, PartialEq, Eq, Structural)]
pub struct RestartSpec {
    pub interval: Scalar,
    pub keep: usize,
}

/// An `output` block that has been read. An interval of zero writes the final state,
/// once.
#[derive(Debug, Clone)]
pub struct OutputPlan {
    pub vis: Option<VisSpec>,
    pub exact: Option<ExactSpec>,
    pub restart: Option<RestartSpec>,
}

/// The contents of a [`VisSpec`].
pub struct VisPlan {
    pub formats: Seq<OutputFormat>,
    pub interval: Scalar,
    pub fields: Selection,
    pub precision: Precision,
}

/// The contents of an [`ExactSpec`].
pub struct ExactPlan {
    pub formats: Seq<OutputFormat>,
    pub interval: Scalar,
}

/// The contents of an [`OutputPlan`].
pub struct Plan {
    pub vis: Option<VisPlan>,
    pub exact: Option<ExactPlan>,
    pub restart: Option<RestartSpec>,
}

impl View for VisSpec {
    type V = VisPlan;

    open spec fn view(&self) -> VisPlan {
        VisPlan {
            formats: self.formats@,
            interval: self.interval,
            fields: self.fields@,
            precision: self.precision,
        }
    }
}

impl View for ExactSpec {
    type V = ExactPlan;

    open spec fn view(&self) -> ExactPlan {
        ExactPlan { formats: self.formats@, interval: self.interval }
    }
}

impl View for OutputPlan {
    type V = Plan;

    open spec fn view(&self) -> Plan {
        Plan {
            vis: match self.vis {
                Some(v) => Some(v@),
                None => None,
            },
            exact: match self.exact {
                Some(e) => Some(e@),
                None => None,
            },
            restart: self.restart,
        }
    }
}

impl Default for OutputPlan {
    /// A plan to write nothing.
    fn default() -> (r: OutputPlan)
        ensures
            r@.is_empty(),
    {
        OutputPlan { vis: None, exact: None, restart: None }
    }
}

/// The text of an option that is set.
pub open spec fn given(t: Option<String>) -> Option<Seq<char>> {
    match t {
        Some(s) => Some(s@),
        None => None,
    }
}

/// The text of a value that is there.
pub open spec fn text_of(t: Option<&String>) -> Option<Seq<char>> {
    match t {
        Some(s) => Some(s@),
        None => None,
    }
}

/// Zero.
pub open spec fn zero() -> Scalar {
    Scalar { bits: 0 }
}

/// The precision that a case names.
pub open spec fn precision_of(p: Policy, setting: Seq<char>, t: Option<Seq<char>>) -> Result<
    Precision,
    Failure,
> {
    match t {
        None => Ok(Precision::F32),
        Some(v) => if v == "fp32"@ {
            Ok(Precision::F32)
        } else if v == "fp16"@ {
            Ok(Precision::F16)
        } else {
            decided(
                p,
                refusal(setting, v, "fp32, fp16"@, Seq::empty(), "fp32 - full binary32 voxels"@),
                Precision::F32,
            )
        },
    }
}

fn parse_precision(
    p: Policy,
    setting: &str,
    value: Option<&String>,
    notes: &mut Vec<String>,
) -> (r: Result<Precision, Error>)
    ensures
        texts(final(notes)@) == texts(old(notes)@) + passed_over(
            precision_of(strict(), setting@, text_of(value)),
            precision_of(p, setting@, text_of(value)),
        ),
        agrees(
            r,
            precision_of(
                p,
                setting@,
                text_of(value),
            ),
        ),
{
    match value {
        None => Ok(Precision::F32),
        Some(v) => if same(v, "fp32") {
            Ok(Precision::F32)
        } else if same(v, "fp16") {
            Ok(Precision::F16)
        } else {
            unsupported(
                p,
                setting,
                v,
                "fp32, fp16",
                "fp32 - full binary32 voxels",
                Precision::F32,
                notes,
            )
        },
    }
}

/// The interval that a case names: a number of seconds, and zero where it names none.
pub open spec fn interval_of(p: Policy, setting: Seq<char>, v: Option<Scalar>) -> Result<
    Scalar,
    Failure,
> {
    match v {
        None => Ok(zero()),
        Some(w) => if w.is_finite() && !w.less(zero()) {
            Ok(w)
        } else {
            decided(
                p,
                refusal(
                    setting,
                    shown(w),
                    Seq::empty(),
                    "an output interval is a number of seconds of physical time; 0 or absent means \"the final state, once\""@,
                    "the final state only"@,
                ),
                zero(),
            )
        },
    }
}

fn check_interval(
    p: Policy,
    setting: &str,
    v: Option<Scalar>,
    notes: &mut Vec<String>,
) -> (r: Result<Scalar, Error>)
    ensures
        texts(final(notes)@) == texts(old(notes)@) + passed_over(
            interval_of(strict(), setting@, v),
            interval_of(p, setting@, v),
        ),
        agrees(r, interval_of(p, setting@, v)),
{
    let none = Scalar { bits: 0 };
    match v {
        None => Ok(none),
        Some(w) => if w.finite() && !w.below(none) {
            Ok(w)
        } else {
            proof {
                reveal_strlit("");
                assert(""@ =~= Seq::<char>::empty());
            }
            unsupported_note(
                p,
                setting,
                &show(w),
                "",
                "an output interval is a number of seconds of physical time; 0 or absent means \"the final state, once\"",
                "the final state only",
                none,
                notes,
            )
        },
    }
}

/// The formats that a list of a block names: what belongs elsewhere is refused with
/// the place where it belongs, and so is a list that names none.
pub open spec fn column_formats(
    p: Policy,
    c: Column,
    setting: Seq<char>,
    menu: Seq<char>,
    fallback: Seq<char>,
    list: Seq<char>,
) -> Result<Seq<OutputFormat>, Failure> {
    match listed(c, entries(list, 0)) {
        Err(t) => decided(p, refusal(setting, t, menu, c.note(t), fallback), Seq::empty()),
        Ok(f) => if f.len() == 0 {
            decided(p, refusal(setting, list, menu, Seq::empty(), fallback), Seq::empty())
        } else {
            Ok(f)
        },
    }
}

/// The formats of a `visualisation` block. A scene is written behind them where the
/// case asks for one.
pub open spec fn vis_formats_of(p: Policy, list: Seq<char>, usd_scene: bool) -> Result<
    Seq<OutputFormat>,
    Failure,
> {
    match column_formats(
        p,
        Column::Visual,
        "output.visualisation.format"@,
        "vdb, nvdb"@,
        "no visualisation output"@,
        list,
    ) {
        Err(e) => Err(e),
        Ok(f) => Ok(
            if usd_scene && f.len() > 0 {
                f.push(OutputFormat::Usda)
            } else {
                f
            },
        ),
    }
}

/// The formats of an `exact` block.
pub open spec fn exact_formats_of(p: Policy, list: Seq<char>) -> Result<Seq<OutputFormat>, Failure> {
    column_formats(
        p,
        Column::Exact,
        "output.exact.format"@,
        "vtu, openfoam, foam"@,
        "no exact output"@,
        list,
    )
}

fn formats_under(
    p: Policy,
    c: Column,
    setting: &str,
    menu: &str,
    fallback: &str,
    list: &str,
    notes: &mut Vec<String>,
) -> (r: Result<Vec<OutputFormat>, Error>)
    ensures
        texts(final(notes)@) == texts(old(notes)@) + passed_over(
            column_formats(strict(), c, setting@, menu@, fallback@, list@),
            column_formats(p, c, setting@, menu@, fallback@, list@),
        ),
        formats_agree(r, column_formats(p, c, setting@, menu@, fallback@, list@)),
{
    let t = comma_list(list);
    let none: Vec<OutputFormat> = Vec::new();
    assert(none@ =~= Seq::empty());
    match pick_all(c, &t) {
        Err(k) => unsupported_note(p, setting, &t[k], menu, c.note_on(&t[k]), fallback, none, notes),
        Ok(f) => if f.len() == 0 {
            unsupported(p, setting, list, menu, fallback, none, notes)
        } else {
            Ok(f)
        },
    }
}

fn vis_formats(
    p: Policy,
    list: &str,
    usd_scene: bool,
    notes: &mut Vec<String>,
) -> (r: Result<Vec<OutputFormat>, Error>)
    ensures
        texts(final(notes)@) == texts(old(notes)@) + passed_over(
            vis_formats_of(strict(), list@, usd_scene),
            vis_formats_of(p, list@, usd_scene),
        ),
        formats_agree(r, vis_formats_of(p, list@, usd_scene)),
{
    match formats_under(
        p,
        Column::Visual,
        "output.visualisation.format",
        "vdb, nvdb",
        "no visualisation output",
        list,
        notes,
    ) {
        Err(e) => Err(e),
        Ok(mut f) => {
            if usd_scene && f.len() > 0 {
                f.push(OutputFormat::Usda);
            }
            Ok(f)
        },
    }
}

fn exact_formats(
    p: Policy,
    list: &str,
    notes: &mut Vec<String>,
) -> (r: Result<Vec<OutputFormat>, Error>)
    ensures
        texts(final(notes)@) == texts(old(notes)@) + passed_over(
            exact_formats_of(strict(), list@),
            exact_formats_of(p, list@),
        ),
        formats_agree(r, exact_formats_of(p, list@)),
{
    formats_under(
        p,
        Column::Exact,
        "output.exact.format",
        "vtu, openfoam, foam",
        "no exact output",
        list,
        notes,
    )
}

/// A precision where none may be named.
pub open spec fn precision_refused(
    p: Policy,
    setting: Seq<char>,
    t: Option<Seq<char>>,
    why: Seq<char>,
) -> Result<(), Failure> {
    match t {
        None => Ok(()),
        Some(v) => decided(
            p,
            refusal(
                setting,
                v,
                Seq::empty(),
                why,
                "full precision - the solver's own Scalar"@,
            ),
            (),
        ),
    }
}

fn refuse_precision_outside_visualisation(
    p: Policy,
    setting: &str,
    value: Option<&String>,
    why: &str,
    notes: &mut Vec<String>,
) -> (r: Result<(), Error>)
    ensures
        texts(final(notes)@) == texts(old(notes)@) + passed_over(
            precision_refused(strict(), setting@, text_of(value), why@),
            precision_refused(p, setting@, text_of(value), why@),
        ),
        agrees(
            r,
            precision_refused(
                p,
                setting@,
                text_of(value),
                why@,
            ),
        ),
{
    match value {
        None => Ok(()),
        Some(v) => {
            proof {
                reveal_strlit("");
                assert(""@ =~= Seq::<char>::empty());
            }
            unsupported_note(
                p,
                setting,
                v,
                "",
                why,
                "full precision - the solver's own Scalar",
                (),
                notes,
            )
        },
    }
}

/// Why the exact path has no precision of its own.
pub open spec fn exact_precision_reason() -> Seq<char> {
    "the exact path is exact: vtu and the OpenFOAM writer carry the solver's own Scalar, and a lossy \"exact\" format is a contradiction in the name. Reduced precision is legitimate for a visualisation artefact and is spelled output.visualisation.precision"@
}

/// Why a checkpoint has no precision of its own.
pub open spec fn restart_precision_reason() -> Seq<char> {
    "a checkpoint is state, not a picture. The argument for carrying phi across a restart is that a RE-DERIVED flux is not the conservative one the pressure equation produced - and a ROUNDED one is not either. Reduced precision is spelled output.visualisation.precision"@
}

/// What a `visualisation` block asks for.
pub open spec fn vis_of(p: Policy, v: JsonVisualisation) -> Result<Option<VisPlan>, Failure> {
    match vis_formats_of(p, v.format@, v.usd_scene) {
        Err(e) => Err(e),
        Ok(formats) => match interval_of(p, "output.visualisation.interval"@, v.interval) {
            Err(e) => Err(e),
            Ok(interval) => match selected(
                p,
                match v.fields {
                    Some(n) => Some(texts(n@)),
                    None => None,
                },
            ) {
                Err(e) => Err(e),
                Ok(fields) => match precision_of(
                    p,
                    "output.visualisation.precision"@,
                    given(v.precision),
                ) {
                    Err(e) => Err(e),
                    Ok(precision) => Ok(
                        if formats.len() == 0 {
                            None
                        } else {
                            Some(VisPlan { formats, interval, fields, precision })
                        },
                    ),
                },
            },
        },
    }
}

/// What an `exact` block asks for.
pub open spec fn exact_of(p: Policy, e: JsonExact) -> Result<Option<ExactPlan>, Failure> {
    match precision_refused(
        p,
        "output.exact.precision"@,
        given(e.precision),
        exact_precision_reason(),
    ) {
        Err(f) => Err(f),
        Ok(_) => match exact_formats_of(p, e.format@) {
            Err(f) => Err(f),
            Ok(formats) => match interval_of(p, "output.exact.interval"@, e.interval) {
                Err(f) => Err(f),
                Ok(interval) => Ok(
                    if formats.len() == 0 {
                        None
                    } else {
                        Some(ExactPlan { formats, interval })
                    },
                ),
            },
        },
    }
}

/// What a `restart` block asks for.
pub open spec fn restart_of(p: Policy, r: JsonRestart) -> Result<RestartSpec, Failure> {
    match precision_refused(
        p,
        "output.restart.precision"@,
        given(r.precision),
        restart_precision_reason(),
    ) {
        Err(f) => Err(f),
        Ok(_) => match interval_of(p, "output.restart.interval"@, r.interval) {
            Err(f) => Err(f),
            Ok(interval) => Ok(RestartSpec { interval, keep: r.keep }),
        },
    }
}

/// What an `output` block asks for.
pub open spec fn plan_of(p: Policy, o: JsonOutput) -> Result<Plan, Failure> {
    let vis = match o.visualisation {
        Some(v) => vis_of(p, v),
        None => Ok(None),
    };
    let exact = match o.exact {
        Some(e) => exact_of(p, e),
        None => Ok(None),
    };
    let restart = match o.restart {
        Some(r) => match restart_of(p, r) {
            Ok(s) => Ok(Some(s)),
            Err(f) => Err(f),
        },
        None => Ok(None),
    };
    match (vis, exact, restart) {
        (Err(f), _, _) => Err(f),
        (Ok(_), Err(f), _) => Err(f),
        (Ok(_), Ok(_), Err(f)) => Err(f),
        (Ok(vis), Ok(exact), Ok(restart)) => Ok(Plan { vis, exact, restart }),
    }
}

/// What is said of a `visualisation` block: a refusal for everything that is
/// substituted.
pub open spec fn vis_notices(p: Policy, v: JsonVisualisation) -> Seq<Seq<char>> {
    passed_over(
        vis_formats_of(strict(), v.format@, v.usd_scene),
        vis_formats_of(p, v.format@, v.usd_scene),
    ) + passed_over(
        interval_of(strict(), "output.visualisation.interval"@, v.interval),
        interval_of(p, "output.visualisation.interval"@, v.interval),
    ) + passed_over(
        selected(strict(), fields_named(v)),
        selected(p, fields_named(v)),
    ) + passed_over(
        precision_of(strict(), "output.visualisation.precision"@, given(v.precision)),
        precision_of(p, "output.visualisation.precision"@, given(v.precision)),
    )
}

/// The names of a block's fields, where it has them.
pub open spec fn fields_named(v: JsonVisualisation) -> Option<Seq<Seq<char>>> {
    match v.fields {
        Some(n) => Some(texts(n@)),
        None => None,
    }
}

/// What is said of an `exact` block.
pub open spec fn exact_notices(p: Policy, e: JsonExact) -> Seq<Seq<char>> {
    passed_over(
        precision_refused(
            strict(),
            "output.exact.precision"@,
            given(e.precision),
            exact_precision_reason(),
        ),
        precision_refused(
            p,
            "output.exact.precision"@,
            given(e.precision),
            exact_precision_reason(),
        ),
    ) + passed_over(exact_formats_of(strict(), e.format@), exact_formats_of(p, e.format@))
        + passed_over(
        interval_of(strict(), "output.exact.interval"@, e.interval),
        interval_of(p, "output.exact.interval"@, e.interval),
    )
}

/// What is said of a `restart` block.
pub open spec fn restart_notices(p: Policy, r: JsonRestart) -> Seq<Seq<char>> {
    passed_over(
        precision_refused(
            strict(),
            "output.restart.precision"@,
            given(r.precision),
            restart_precision_reason(),
        ),
        precision_refused(
            p,
            "output.restart.precision"@,
            given(r.precision),
            restart_precision_reason(),
        ),
    ) + passed_over(
        interval_of(strict(), "output.restart.interval"@, r.interval),
        interval_of(p, "output.restart.interval"@, r.interval),
    )
}

/// What is said of an `output` block, in the order of its blocks.
pub open spec fn plan_notices(p: Policy, o: JsonOutput) -> Seq<Seq<char>> {
    (match o.visualisation {
        Some(v) => vis_notices(p, v),
        None => Seq::empty(),
    }) + (match o.exact {
        Some(e) => exact_notices(p, e),
        None => Seq::empty(),
    }) + (match o.restart {
        Some(r) => restart_notices(p, r),
        None => Seq::empty(),
    })
}

/// What is said of the formats, the interval, the fields and the precision of a block.
spec fn vis_said(p: Policy, v: JsonVisualisation, k: int) -> Seq<Seq<char>> {
    if k == 0 {
        passed_over(
            vis_formats_of(strict(), v.format@, v.usd_scene),
            vis_formats_of(p, v.format@, v.usd_scene),
        )
    } else if k == 1 {
        passed_over(
            interval_of(strict(), "output.visualisation.interval"@, v.interval),
            interval_of(p, "output.visualisation.interval"@, v.interval),
        )
    } else if k == 2 {
        passed_over(selected(strict(), fields_named(v)), selected(p, fields_named(v)))
    } else {
        passed_over(
            precision_of(strict(), "output.visualisation.precision"@, given(v.precision)),
            precision_of(p, "output.visualisation.precision"@, given(v.precision)),
        )
    }
}

proof fn lemma_vis_notices(p: Policy, v: JsonVisualisation)
    ensures
        vis_notices(p, v) == vis_said(p, v, 0) + vis_said(p, v, 1) + vis_said(p, v, 2) + vis_said(
            p,
            v,
            3,
        ),
        !p.permissive ==> forall|k: int| 0 <= k < 4 ==> #[trigger] vis_said(p, v, k) == Seq::<
            Seq<char>,
        >::empty(),
        p.permissive ==> vis_formats_of(p, v.format@, v.usd_scene) is Ok,
        p.permissive ==> interval_of(p, "output.visualisation.interval"@, v.interval) is Ok,
        p.permissive ==> selected(p, fields_named(v)) is Ok,
        p.permissive ==> precision_of(p, "output.visualisation.precision"@, given(v.precision)) is Ok,
{
    if !p.permissive {
        assert(p == strict());
    }
}

#[verifier::rlimit(40)]
#[verifier::spinoff_prover]
fn read_vis(
    p: Policy,
    v: &JsonVisualisation,
    notes: &mut Vec<String>,
) -> (r: Result<Option<VisSpec>, Error>)
    ensures
        texts(final(notes)@) == texts(old(notes)@) + vis_notices(p, *v),
        match (r, vis_of(p, *v)) {
            (Ok(Some(a)), Ok(Some(b))) => a@ == b,
            (Ok(None), Ok(None)) => true,
            (Err(e), Err(f)) => e@ == f,
            _ => false,
        },
{
    let ghost start = texts(notes@);
    let ghost (a, b, c, d) = (
        vis_said(p, *v, 0),
        vis_said(p, *v, 1),
        vis_said(p, *v, 2),
        vis_said(p, *v, 3),
    );
    let ghost said = vis_notices(p, *v);
    proof {
        lemma_vis_notices(p, *v);
        assert(said == a + b + c + d);
        if !p.permissive {
            assert(said =~= Seq::<Seq<char>>::empty());
            assert(start + said =~= start);
        }
    }
    let formats = match vis_formats(p, &v.format, v.usd_scene, notes) {
        Ok(f) => f,
        Err(e) => {
            return Err(e);
        },
    };
    assert(texts(notes@) =~= start + a);
    let interval = match check_interval(p, "output.visualisation.interval", v.interval, notes) {
        Ok(w) => w,
        Err(e) => {
            return Err(e);
        },
    };
    assert(texts(notes@) =~= start + a + b);
    let fields = match FieldSelection::from_case(
        p,
        match &v.fields {
            Some(n) => Some(n),
            None => None,
        },
        notes,
    ) {
        Ok(s) => s,
        Err(e) => {
            return Err(e);
        },
    };
    assert(texts(notes@) =~= start + a + b + c);
    let precision = match parse_precision(
        p,
        "output.visualisation.precision",
        match &v.precision {
            Some(t) => Some(t),
            None => None,
        },
        notes,
    ) {
        Ok(x) => x,
        Err(e) => {
            return Err(e);
        },
    };
    assert(texts(notes@) =~= start + a + b + c + d);
    assert(texts(notes@) =~= start + said);
    if formats.len() == 0 {
        Ok(None)
    } else {
        Ok(Some(VisSpec { formats, interval, fields, precision }))
    }
}

fn read_exact(
    p: Policy,
    e: &JsonExact,
    notes: &mut Vec<String>,
) -> (r: Result<Option<ExactSpec>, Error>)
    ensures
        texts(final(notes)@) == texts(old(notes)@) + exact_notices(p, *e),
        match (r, exact_of(p, *e)) {
            (Ok(Some(a)), Ok(Some(b))) => a@ == b,
            (Ok(None), Ok(None)) => true,
            (Err(e), Err(f)) => e@ == f,
            _ => false,
        },
{
    match refuse_precision_outside_visualisation(
        p,
        "output.exact.precision",
        match &e.precision {
            Some(t) => Some(t),
            None => None,
        },
        "the exact path is exact: vtu and the OpenFOAM writer carry the solver's own Scalar, and a lossy \"exact\" format is a contradiction in the name. Reduced precision is legitimate for a visualisation artefact and is spelled output.visualisation.precision",
        notes,
    ) {
        Ok(_) => {},
        Err(x) => {
            return Err(x);
        },
    }
    let formats = match exact_formats(p, &e.format, notes) {
        Ok(f) => f,
        Err(x) => {
            return Err(x);
        },
    };
    let interval = match check_interval(p, "output.exact.interval", e.interval, notes) {
        Ok(w) => w,
        Err(x) => {
            return Err(x);
        },
    };
    if formats.len() == 0 {
        Ok(None)
    } else {
        Ok(Some(ExactSpec { formats, interval }))
    }
}

fn read_restart(
    p: Policy,
    r: &JsonRestart,
    notes: &mut Vec<String>,
) -> (s: Result<RestartSpec, Error>)
    ensures
        texts(final(notes)@) == texts(old(notes)@) + restart_notices(p, *r),
        agrees(s, restart_of(p, *r)),
{
    match refuse_precision_outside_visualisation(
        p,
        "output.restart.precision",
        match &r.precision {
            Some(t) => Some(t),
            None => None,
        },
        "a checkpoint is state, not a picture. The argument for carrying phi across a restart is that a RE-DERIVED flux is not the conservative one the pressure equation produced - and a ROUNDED one is not either. Reduced precision is spelled output.visualisation.precision",
        notes,
    ) {
        Ok(_) => {},
        Err(x) => {
            return Err(x);
        },
    }
    match check_interval(p, "output.restart.interval", r.interval, notes) {
        Ok(interval) => Ok(RestartSpec { interval, keep: r.keep }),
        Err(x) => Err(x),
    }
}

/// An interval that names a schedule.
pub open spec fn scheduled(w: Scalar) -> bool {
    zero().less(w)
}

/// Why a steady run has no interval.
pub open spec fn steady_text(driver: Seq<char>, how: Seq<char>) -> Seq<char> {
    "an output interval is seconds of PHYSICAL time, and this "@
        + driver
        + " run is steady - it advances an iteration counter, not a clock, and writes its final state once. "@
        + how
}

fn steady_message(driver: &str, how: &str) -> (r: String)
    ensures
        r@ == steady_text(driver@, how@),
{
    let mut s = copy("an output interval is seconds of PHYSICAL time, and this ");
    push_text(&mut s, driver);
    push_text(&mut s, " run is steady - it advances an iteration counter, not a clock, and writes its final state once. ");
    push_text(&mut s, how);
    s
}

/// The refusal of an interval where the run has no clock.
pub open spec fn unclocked(w: (Seq<char>, Scalar), driver: Seq<char>, how: Seq<char>) -> Seq<char> {
    refusal(w.0, shown(w.1), Seq::empty(), steady_text(driver, how), "the final state only"@)
}

/// The refusals of the scheduled ones among the first `n` intervals.
pub open spec fn unclocked_among(
    w: Seq<(Seq<char>, Scalar)>,
    driver: Seq<char>,
    how: Seq<char>,
    n: int,
) -> Seq<Seq<char>>
    decreases n,
{
    if n <= 0 {
        Seq::empty()
    } else if scheduled(w[n - 1].1) {
        unclocked_among(w, driver, how, n - 1).push(unclocked(w[n - 1], driver, how))
    } else {
        unclocked_among(w, driver, how, n - 1)
    }
}

/// Refuse one interval, where it is scheduled.
fn refuse_interval(
    p: Policy,
    setting: &str,
    w: Scalar,
    driver: &str,
    how: &str,
    notes: &mut Vec<String>,
) -> (r: Result<(), Error>)
    ensures
        texts(final(notes)@) == texts(old(notes)@) + (if p.permissive && scheduled(w) {
            seq![unclocked((setting@, w), driver@, how@)]
        } else {
            Seq::empty()
        }),
        agrees(
            r,
            if scheduled(w) {
                decided(p, unclocked((setting@, w), driver@, how@), ())
            } else {
                Ok(())
            },
        ),
{
    let none = Scalar { bits: 0 };
    if !none.below(w) {
        assert(texts(notes@) + Seq::<Seq<char>>::empty() =~= texts(notes@));
        return Ok(());
    }
    proof {
        reveal_strlit("");
        assert(""@ =~= Seq::<char>::empty());
    }
    unsupported_note(
        p,
        setting,
        &show(w),
        "",
        &steady_message(driver, how),
        "the final state only",
        (),
        notes,
    )
}

/// Why a driver has no checkpoints.
pub open spec fn no_checkpoint_text(driver: Seq<char>, alternatives: Seq<char>) -> Seq<char> {
    driver
        + " writes no .mcr checkpoint of any kind - it has no -restartWrite either. "@
        + alternatives
}

fn no_checkpoint_message(driver: &str, alternatives: &str) -> (r: String)
    ensures
        r@ == no_checkpoint_text(driver@, alternatives@),
{
    let mut s = copy(driver);
    push_text(&mut s, " writes no .mcr checkpoint of any kind - it has no -restartWrite either. ");
    push_text(&mut s, alternatives);
    s
}

/// The settings of a `restart` block.
pub open spec fn checkpoints_named_text(interval: Seq<char>, keep: nat) -> Seq<char> {
    "interval "@
        + interval
        + ", keep "@
        + decimal(keep)
}

fn checkpoints_named_message(interval: &str, keep: usize) -> (r: String)
    ensures
        r@ == checkpoints_named_text(interval@, keep as nat),
{
    let mut s = copy("interval ");
    push_text(&mut s, interval);
    push_text(&mut s, ", keep ");
    push_decimal(&mut s, keep as u64);
    s
}

/// Why a case and a command line may not both say what to write.
pub open spec fn named_twice_text(flags: Seq<char>) -> Seq<char> {
    "this run names what to write twice: the case file's output block, and "@
        + flags
        + " on the command line. They are two ways to say the same thing and there is no defensible winner - drop one"@
}

fn named_twice_message(flags: &str) -> (r: String)
    ensures
        r@ == named_twice_text(flags@),
{
    let mut s = copy("this run names what to write twice: the case file's output block, and ");
    push_text(&mut s, flags);
    push_text(&mut s, " on the command line. They are two ways to say the same thing and there is no defensible winner - drop one");
    s
}

impl Plan {
    pub open spec fn is_empty(self) -> bool {
        self.vis is None && self.exact is None && self.restart is None
    }

    /// The intervals of the plan under their settings, in order.
    pub open spec fn intervals(self) -> Seq<(Seq<char>, Scalar)> {
        seq![
            (
                "output.visualisation.interval"@,
                match self.vis {
                    Some(v) => v.interval,
                    None => zero(),
                },
            ),
            (
                "output.exact.interval"@,
                match self.exact {
                    Some(e) => e.interval,
                    None => zero(),
                },
            ),
            (
                "output.restart.interval"@,
                match self.restart {
                    Some(r) => r.interval,
                    None => zero(),
                },
            ),
        ]
    }

    /// The plan with no interval left: the final state only.
    pub open spec fn unscheduled(self) -> Plan {
        Plan {
            vis: match self.vis {
                Some(v) => Some(
                    VisPlan {
                        formats: v.formats,
                        interval: zero(),
                        fields: v.fields,
                        precision: v.precision,
                    },
                ),
                None => None,
            },
            exact: match self.exact {
                Some(e) => Some(ExactPlan { formats: e.formats, interval: zero() }),
                None => None,
            },
            restart: match self.restart {
                Some(r) => Some(RestartSpec { interval: zero(), keep: r.keep }),
                None => None,
            },
        }
    }

    /// The plan for a steady run, which has no clock for an interval.
    pub open spec fn steady(self, p: Policy, driver: Seq<char>, how: Seq<char>) -> Result<
        Plan,
        Failure,
    > {
        let w = self.intervals();
        let k = first(3, 0, |i: int| scheduled(w[i].1));
        if k < 3 {
            decided(p, unclocked(w[k], driver, how), self.unscheduled())
        } else {
            Ok(self.unscheduled())
        }
    }

    /// What is said of the plan for a steady run: where the policy lets the run go on,
    /// the refusal of every interval that is scheduled.
    pub open spec fn steady_notices(self, p: Policy, driver: Seq<char>, how: Seq<char>) -> Seq<
        Seq<char>,
    > {
        if p.permissive {
            unclocked_among(self.intervals(), driver, how, 3)
        } else {
            Seq::empty()
        }
    }

    /// The names of the volume formats of the plan.
    pub open spec fn volume_formats(self) -> Seq<Seq<char>> {
        match self.vis {
            Some(v) => spellings(volumes_among(v.formats, v.formats.len() as int)),
            None => Seq::empty(),
        }
    }

    /// The plan for a mesh that may not be a uniform box, which alone has voxels.
    pub open spec fn on_mesh(self, p: Policy, cartesian: bool) -> Result<Plan, Failure> {
        if cartesian || self.volume_formats().len() == 0 {
            Ok(self)
        } else {
            decided(
                p,
                refusal(
                    "output.visualisation.format"@,
                    join(self.volume_formats(), ", "@),
                    "vtu, openfoam, foam"@,
                    "a .vdb/.nvdb file is a dense voxel grid, and this case's mesh is not a recognised uniform Cartesian box, so there is no lattice to sample onto. output.exact (vtu, openfoam) preserves the polyhedra"@,
                    "no visualisation output"@,
                ),
                Plan { vis: None, exact: self.exact, restart: self.restart },
            )
        }
    }

    /// The plan for a driver that writes no checkpoints.
    pub open spec fn without_restart(
        self,
        p: Policy,
        driver: Seq<char>,
        alternatives: Seq<char>,
    ) -> Result<Plan, Failure> {
        match self.restart {
            None => Ok(self),
            Some(r) => decided(
                p,
                refusal(
                    "output.restart"@,
                    checkpoints_named_text(shown(r.interval), r.keep as nat),
                    Seq::empty(),
                    no_checkpoint_text(driver, alternatives),
                    "no checkpoint"@,
                ),
                Plan { vis: self.vis, exact: self.exact, restart: None },
            ),
        }
    }

    /// What the policy makes of the plan's fields, where these are to be had.
    pub open spec fn checked(self, p: Policy, available: Seq<Seq<char>>) -> Result<(), Failure> {
        match self.vis {
            Some(v) => checked(p, v.fields, available),
            None => Ok(()),
        }
    }

    /// What is said of the plan's fields.
    pub open spec fn check_notices(self, p: Policy, available: Seq<Seq<char>>) -> Seq<Seq<char>> {
        match self.vis {
            Some(v) => check_notices(p, v.fields, available),
            None => Seq::empty(),
        }
    }

    /// The blocks that the plan has.
    pub open spec fn blocks(self) -> Seq<Seq<char>> {
        (if self.vis is Some {
            seq!["visualisation"@]
        } else {
            Seq::empty()
        }) + (if self.exact is Some {
            seq!["exact"@]
        } else {
            Seq::empty()
        }) + (if self.restart is Some {
            seq!["restart"@]
        } else {
            Seq::empty()
        })
    }
}

/// The dense grids among the first `n` formats.
pub open spec fn volumes_among(f: Seq<OutputFormat>, n: int) -> Seq<OutputFormat>
    decreases n,
{
    if n <= 0 {
        Seq::empty()
    } else if f[n - 1] == OutputFormat::Vdb || f[n - 1] == OutputFormat::Nvdb {
        volumes_among(f, n - 1).push(f[n - 1])
    } else {
        volumes_among(f, n - 1)
    }
}

/// Does a refusal leave what it should? A plan that is refused stays as it was.
pub open spec fn settled(
    r: Result<(), Error>,
    before: Plan,
    after: Plan,
    want: Result<Plan, Failure>,
) -> bool {
    match (r, want) {
        (Ok(_), Ok(w)) => after == w,
        (Err(e), Err(f)) => e@ == f && after == before,
        _ => false,
    }
}

impl OutputPlan {
    /// Read the `output` block of a case. Every refusal that needs nothing but the
    /// block is raised here.
    pub fn from_json(
        p: Policy,
        o: &JsonOutput,
        notes: &mut Vec<String>,
    ) -> (r: Result<OutputPlan, Error>)
        ensures
            texts(final(notes)@) == texts(old(notes)@) + plan_notices(p, *o),
            match (r, plan_of(p, *o)) {
                (Ok(a), Ok(b)) => a@ == b,
                (Err(e), Err(f)) => e@ == f,
                _ => false,
            },
    {
        let vis = match &o.visualisation {
            Some(v) => match read_vis(p, v, notes) {
                Ok(s) => s,
                Err(e) => {
                    return Err(e);
                },
            },
            None => None,
        };
        let exact = match &o.exact {
            Some(v) => match read_exact(p, v, notes) {
                Ok(s) => s,
                Err(e) => {
                    return Err(e);
                },
            },
            None => None,
        };
        let restart = match &o.restart {
            Some(v) => match read_restart(p, v, notes) {
                Ok(s) => Some(s),
                Err(e) => {
                    return Err(e);
                },
            },
            None => None,
        };
        Ok(OutputPlan { vis, exact, restart })
    }

    pub fn is_empty(&self) -> (r: bool)
        ensures
            r == self@.is_empty(),
    {
        self.vis.is_none() && self.exact.is_none() && self.restart.is_none()
    }

    /// Are the named fields among those that the driver is about to build?
    pub fn check_fields(
        &self,
        p: Policy,
        available: &Vec<String>,
        notes: &mut Vec<String>,
    ) -> (r: Result<(), Error>)
        ensures
            texts(final(notes)@) == texts(old(notes)@) + self@.check_notices(p, texts(available@)),
            agrees(r, self@.checked(p, texts(available@))),
    {
        match &self.vis {
            Some(v) => v.fields.check(p, available, notes),
            None => Ok(()),
        }
    }

    /// Refuse an interval where the run has no clock. Where the policy lets the run
    /// go on, the intervals are gone, and each of them is noted.
    pub fn refuse_interval_when_steady(
        &mut self,
        p: Policy,
        driver: &str,
        how: &str,
        notes: &mut Vec<String>,
    ) -> (r: Result<(), Error>)
        ensures
            texts(final(notes)@) == texts(old(notes)@) + old(self)@.steady_notices(
                p,
                driver@,
                how@,
            ),
            settled(r, old(self)@, final(self)@, old(self)@.steady(p, driver@, how@)),
    {
        let none = Scalar { bits: 0 };
        let a = match &self.vis {
            Some(v) => v.interval,
            None => none,
        };
        let b = match &self.exact {
            Some(e) => e.interval,
            None => none,
        };
        let c = match &self.restart {
            Some(r) => r.interval,
            None => none,
        };
        proof {
            let w = self@.intervals();
            assert(w[0].1 == a && w[1].1 == b && w[2].1 == c);
            reveal_with_fuel(first, 4);
            reveal_with_fuel(unclocked_among, 4);
        }
        match refuse_interval(p, "output.visualisation.interval", a, driver, how, notes) {
            Ok(_) => {},
            Err(e) => {
                return Err(e);
            },
        }
        match refuse_interval(p, "output.exact.interval", b, driver, how, notes) {
            Ok(_) => {},
            Err(e) => {
                return Err(e);
            },
        }
        match refuse_interval(p, "output.restart.interval", c, driver, how, notes) {
            Ok(_) => {},
            Err(e) => {
                return Err(e);
            },
        }
        assert(texts(notes@) =~= texts(old(notes)@) + self@.steady_notices(p, driver@, how@));
        if let Some(v) = &mut self.vis {
            v.interval = none;
        }
        if let Some(e) = &mut self.exact {
            e.interval = none;
        }
        if let Some(r) = &mut self.restart {
            r.interval = none;
        }
        Ok(())
    }

    /// Refuse a dense grid on a mesh that is no uniform box, before anything runs.
    /// Where the policy lets the run go on, nothing is visualised.
    pub fn refuse_visualisation_on_a_non_cartesian_mesh(
        &mut self,
        p: Policy,
        cartesian: bool,
        notes: &mut Vec<String>,
    ) -> (r: Result<(), Error>)
        ensures
            texts(final(notes)@) == texts(old(notes)@) + passed_over(
                old(self)@.on_mesh(strict(), cartesian),
                old(self)@.on_mesh(p, cartesian),
            ),
            settled(r, old(self)@, final(self)@, old(self)@.on_mesh(p, cartesian)),
    {
        if cartesian {
            return Ok(());
        }
        let volumes = match &self.vis {
            Some(v) => find_volumes(&v.formats),
            None => {
                return Ok(());
            },
        };
        if volumes.len() == 0 {
            return Ok(());
        }
        let names = names_of(&volumes);
        assert(texts(names@).skip(0) =~= texts(names@));
        match unsupported_note(
            p,
            "output.visualisation.format",
            &join_from(&names, 0, ", "),
            "vtu, openfoam, foam",
            "a .vdb/.nvdb file is a dense voxel grid, and this case's mesh is not a recognised uniform Cartesian box, so there is no lattice to sample onto. output.exact (vtu, openfoam) preserves the polyhedra",
            "no visualisation output",
            (),
            notes,
        ) {
            Ok(_) => {},
            Err(e) => {
                return Err(e);
            },
        }
        self.vis = None;
        Ok(())
    }

    /// Refuse checkpoints where the driver writes none. Where the policy lets the run
    /// go on, there are none.
    pub fn refuse_restart(
        &mut self,
        p: Policy,
        driver: &str,
        alternatives: &str,
        notes: &mut Vec<String>,
    ) -> (r: Result<(), Error>)
        ensures
            texts(final(notes)@) == texts(old(notes)@) + passed_over(
                old(self)@.without_restart(strict(), driver@, alternatives@),
                old(self)@.without_restart(p, driver@, alternatives@),
            ),
            settled(
                r,
                old(self)@,
                final(self)@,
                old(self)@.without_restart(p, driver@, alternatives@),
            ),
    {
        let s = match &self.restart {
            Some(s) => *s,
            None => {
                return Ok(());
            },
        };
        proof {
            reveal_strlit("");
            assert(""@ =~= Seq::<char>::empty());
        }
        match unsupported_note(
            p,
            "output.restart",
            &checkpoints_named_message(&show(s.interval), s.keep),
            "",
            &no_checkpoint_message(driver, alternatives),
            "no checkpoint",
            (),
            notes,
        ) {
            Ok(_) => {},
            Err(e) => {
                return Err(e);
            },
        }
        self.restart = None;
        Ok(())
    }
}

fn find_volumes(f: &Vec<OutputFormat>) -> (r: Vec<OutputFormat>)
    ensures
        r@ == volumes_among(f@, f.len() as int),
{
    let mut out: Vec<OutputFormat> = Vec::new();
    let mut i: usize = 0;
    while i < f.len()
        invariant
            i <= f.len(),
            out@ == volumes_among(f@, i as int),
        decreases f.len() - i,
    {
        if f[i] == OutputFormat::Vdb || f[i] == OutputFormat::Nvdb {
            out.push(f[i]);
        }
        i = i + 1;
    }
    out
}

/// Whether the case's block is in force, beside what the command line says.
pub open spec fn in_force(p: Policy, plan: Plan, flags: Seq<Seq<char>>) -> Result<bool, Failure> {
    if plan.is_empty() || flags.len() == 0 {
        Ok(true)
    } else {
        decided(
            p,
            refusal(
                "output (case file)"@,
                join(plan.blocks(), ", "@),
                Seq::empty(),
                named_twice_text(join(flags, " / "@)),
                "the command line"@,
            ),
            false,
        )
    }
}

/// Refuse a run that says twice what to write: `flags` are those that the command
/// line really has. The answer is whether the case's block is in force.
pub fn refuse_output_named_twice(
    p: Policy,
    plan: &OutputPlan,
    flags: &Vec<String>,
    notes: &mut Vec<String>,
) -> (r: Result<bool, Error>)
    ensures
        texts(final(notes)@) == texts(old(notes)@) + passed_over(
            in_force(strict(), plan@, texts(flags@)),
            in_force(p, plan@, texts(flags@)),
        ),
        agrees(r, in_force(p, plan@, texts(flags@))),
{
    if plan.is_empty() || flags.len() == 0 {
        return Ok(true);
    }
    let mut named: Vec<String> = Vec::new();
    if plan.vis.is_some() {
        named.push(copy("visualisation"));
    }
    if plan.exact.is_some() {
        named.push(copy("exact"));
    }
    if plan.restart.is_some() {
        named.push(copy("restart"));
    }
    proof {
        reveal_strlit("");
        assert(""@ =~= Seq::<char>::empty());
        assert(texts(named@) =~= plan@.blocks());
        assert(texts(named@).skip(0) =~= texts(named@));
        assert(texts(flags@).skip(0) =~= texts(flags@));
    }
    unsupported_note(
        p,
        "output (case file)",
        &join_from(&named, 0, ", "),
        "",
        &named_twice_message(&join_from(flags, 0, " / ")),
        "the command line",
        false,
        notes,
    )
}

/// A permissive run never fails on a refusal: it gets the plan without what was
/// refused, and with all the rest.
pub proof fn permissive_plans_stand(
    plan: Plan,
    p: Policy,
    driver: Seq<char>,
    how: Seq<char>,
    cartesian: bool,
)
    requires
        p.permissive,
    ensures
        plan.steady(p, driver, how) == Ok::<Plan, Failure>(plan.unscheduled()),
        plan.on_mesh(p, cartesian) is Ok,
        plan.without_restart(p, driver, how) matches Ok(q) && q.restart is None && q.vis == plan.vis
            && q.exact == plan.exact,
{
}

/// Of the fields that are not to be had a permissive run tells each one, in the order of
/// the selection, and the first is what the strict run refuses.
pub proof fn absent_fields_are_told(p: Policy, n: Seq<Seq<char>>, available: Seq<Seq<char>>)
    requires
        p.permissive,
    ensures
        check_notices(strict(), Selection::Named(n), available) == Seq::<Seq<char>>::empty(),
        check_notices(p, Selection::Named(n), available) == n.filter(
            |t: Seq<char>| !available.contains(t),
        ).map_values(|t: Seq<char>| absent(t, available)),
        match checked(strict(), Selection::Named(n), available) {
            Ok(_) => check_notices(p, Selection::Named(n), available).len() == 0,
            Err(f) => check_notices(p, Selection::Named(n), available).len() > 0 && f
                == Failure::Config(check_notices(p, Selection::Named(n), available)[0]),
        },
{
    lemma_absences(n, available, n.len() as int);
    assert(n.take(n.len() as int) =~= n);
    let q = |i: int| !available.contains(n[i]);
    let k = first_absent(n, available);
    lemma_first(n.len() as int, 0, q);
    assert forall|i: int| 0 <= i < k implies available.contains(#[trigger] n[i]) by {
        assert(!q(i));
    }
    lemma_first_absence(n, available, k, n.len() as int);
}

proof fn lemma_absences(n: Seq<Seq<char>>, available: Seq<Seq<char>>, k: int)
    requires
        0 <= k <= n.len(),
    ensures
        absences(n, available, k) == n.take(k).filter(
            |t: Seq<char>| !available.contains(t),
        ).map_values(|t: Seq<char>| absent(t, available)),
    decreases k,
{
    reveal(Seq::filter);
    let keep = |t: Seq<char>| !available.contains(t);
    let f = |t: Seq<char>| absent(t, available);
    if k > 0 {
        lemma_absences(n, available, k - 1);
        let s = n.take(k);
        assert(s.drop_last() =~= n.take(k - 1));
        assert(s.last() == n[k - 1]);
        assert(s.filter(keep).map_values(f) =~= absences(n, available, k));
    } else {
        assert(n.take(0).filter(keep).map_values(f) =~= absences(n, available, 0));
    }
}

proof fn lemma_first_absence(n: Seq<Seq<char>>, available: Seq<Seq<char>>, k: int, m: int)
    requires
        0 <= k <= n.len(),
        0 <= m <= n.len(),
        forall|i: int| 0 <= i < k ==> available.contains(#[trigger] n[i]),
        k < n.len() ==> !available.contains(n[k]),
    ensures
        m <= k ==> absences(n, available, m).len() == 0,
        m > k ==> absences(n, available, m).len() > 0 && absences(n, available, m)[0] == absent(
            n[k],
            available,
        ),
    decreases m,
{
    if m > 0 {
        lemma_first_absence(n, available, k, m - 1);
    }
}

/// Of the intervals that a steady run has no clock for a permissive run tells each one,
/// and the first is what the strict run refuses.
pub proof fn scheduled_intervals_are_told(
    plan: Plan,
    p: Policy,
    driver: Seq<char>,
    how: Seq<char>,
)
    requires
        p.permissive,
    ensures
        plan.steady_notices(strict(), driver, how) == Seq::<Seq<char>>::empty(),
        forall|i: int|
            0 <= i < 3 && scheduled((#[trigger] plan.intervals()[i]).1)
                ==> plan.steady_notices(p, driver, how).contains(
                unclocked(plan.intervals()[i], driver, how),
            ),
        match plan.steady(strict(), driver, how) {
            Ok(_) => plan.steady_notices(p, driver, how).len() == 0,
            Err(f) => plan.steady_notices(p, driver, how).len() > 0 && f == Failure::Config(
                plan.steady_notices(p, driver, how)[0],
            ),
        },
{
    reveal_with_fuel(first, 4);
    reveal_with_fuel(unclocked_among, 4);
    let w = plan.intervals();
    let t = plan.steady_notices(p, driver, how);
    let (a, b) = (if scheduled(w[0].1) { 1int } else { 0 }, if scheduled(w[1].1) { 1int } else { 0 });
    assert(scheduled(w[0].1) ==> t[0] == unclocked(w[0], driver, how));
    assert(scheduled(w[1].1) ==> t[a] == unclocked(w[1], driver, how));
    assert(scheduled(w[2].1) ==> t[a + b] == unclocked(w[2], driver, how));
}

/// A strict run says nothing of what it reads, and a permissive run says first what the
/// strict one refuses.
pub proof fn substitutions_are_told(p: Policy, o: JsonOutput)
    requires
        p.permissive,
    ensures
        plan_notices(strict(), o) == Seq::<Seq<char>>::empty(),
        plan_of(strict(), o) is Ok ==> plan_notices(p, o) == Seq::<Seq<char>>::empty() && plan_of(
            p,
            o,
        ) == plan_of(strict(), o),
        plan_of(strict(), o) matches Err(f) ==> plan_notices(p, o).len() > 0 && f
            == Failure::Config(plan_notices(p, o)[0]),
{
    match o.visualisation {
        Some(v) => {
            lemma_vis_told(p, v);
        },
        None => {},
    }
    match o.exact {
        Some(e) => {
            lemma_exact_told(p, e);
        },
        None => {},
    }
    match o.restart {
        Some(r) => {
            lemma_restart_told(p, r);
        },
        None => {},
    }
}

proof fn lemma_vis_told(p: Policy, v: JsonVisualisation)
    requires
        p.permissive,
    ensures
        vis_notices(strict(), v) == Seq::<Seq<char>>::empty(),
        vis_of(p, v) is Ok,
        vis_of(strict(), v) is Ok ==> vis_notices(p, v) == Seq::<Seq<char>>::empty() && vis_of(p, v)
            == vis_of(strict(), v),
        vis_of(strict(), v) matches Err(f) ==> vis_notices(p, v).len() > 0 && f == Failure::Config(
            vis_notices(p, v)[0],
        ),
{
}

proof fn lemma_exact_told(p: Policy, e: JsonExact)
    requires
        p.permissive,
    ensures
        exact_notices(strict(), e) == Seq::<Seq<char>>::empty(),
        exact_of(p, e) is Ok,
        exact_of(strict(), e) is Ok ==> exact_notices(p, e) == Seq::<Seq<char>>::empty() && exact_of(
            p,
            e,
        ) == exact_of(strict(), e),
        exact_of(strict(), e) matches Err(f) ==> exact_notices(p, e).len() > 0 && f
            == Failure::Config(exact_notices(p, e)[0]),
{
}

proof fn lemma_restart_told(p: Policy, r: JsonRestart)
    requires
        p.permissive,
    ensures
        restart_notices(strict(), r) == Seq::<Seq<char>>::empty(),
        restart_of(p, r) is Ok,
        restart_of(strict(), r) is Ok ==> restart_notices(p, r) == Seq::<Seq<char>>::empty()
            && restart_of(p, r) == restart_of(strict(), r),
        restart_of(strict(), r) matches Err(f) ==> restart_notices(p, r).len() > 0 && f
            == Failure::Config(restart_notices(p, r)[0]),
{
}

/// No plan that is read has an interval which is no number of seconds.
pub proof fn intervals_are_times(p: Policy, o: JsonOutput, i: int)
    requires
        plan_of(p, o) is Ok,
        0 <= i < 3,
    ensures
        ({
            let w = plan_of(p, o)->Ok_0.intervals()[i].1;
            w.is_finite() && !w.less(zero())
        }),
{
    assert(zero().is_finite());
    assert(!zero().less(zero()));
}

/// A plan that is read names at least one format for whatever it writes, and the
/// formats are those of their column.
pub proof fn columns_are_kept(p: Policy, o: JsonOutput)
    requires
        plan_of(p, o) is Ok,
    ensures
        plan_of(p, o)->Ok_0.vis matches Some(v) ==> v.formats.len() > 0 && (forall|i: int|
            0 <= i < v.formats.len() ==> (#[trigger] v.formats[i]) != OutputFormat::Vtu && v.formats[i]
                != OutputFormat::Foam),
        plan_of(p, o)->Ok_0.exact matches Some(e) ==> e.formats.len() > 0 && (forall|i: int|
            0 <= i < e.formats.len() ==> (#[trigger] e.formats[i]) == OutputFormat::Vtu || e.formats[i]
                == OutputFormat::Foam),
{
    match o.visualisation {
        Some(v) => {
            lemma_listed(Column::Visual, entries(v.format@, 0));
        },
        None => {},
    }
    match o.exact {
        Some(e) => {
            lemma_listed(Column::Exact, entries(e.format@, 0));
        },
        None => {},
    }
}

proof fn lemma_listed(c: Column, t: Seq<Seq<char>>)
    ensures
        listed(c, t) matches Ok(f) ==> forall|i: int|
            0 <= i < f.len() ==> c.accepts(t[i]) == Some(#[trigger] f[i]),
{
    let p = |i: int| c.accepts(t[i]) is None;
    lemma_first(t.len() as int, 0, p);
    if listed(c, t) is Ok {
        assert forall|i: int| 0 <= i < t.len() implies c.accepts(t[i]) is Some by {
            assert(!p(i));
        }
    }
}

// --------------------------------------------------------------------------
//  The schedule
// --------------------------------------------------------------------------
/// Writers with a schedule and a selection of their own.
#[derive(Debug)]
pub struct Stage {
    pub label: String,
    pub writers: Vec<Writer>,
    pub formats: Vec<OutputFormat>,
    pub interval: Scalar,
    /// When the stage next writes.
    pub next: Scalar,
    pub fields: FieldSelection,
    pub precision: Precision,
    /// How often the stage has written: the number in its files' names. It is the
    /// stage's own, so that no step is written over another.
    pub count: usize,
}

/// What a [`Stage`] is about, without its writers.
pub struct StageView {
    pub label: Seq<char>,
    pub formats: Seq<OutputFormat>,
    pub interval: Scalar,
    pub next: Scalar,
    pub fields: Selection,
    pub precision: Precision,
    pub count: nat,
}

impl View for Stage {
    type V = StageView;

    open spec fn view(&self) -> StageView {
        StageView {
            label: self.label@,
            formats: self.formats@,
            interval: self.interval,
            next: self.next,
            fields: self.fields@,
            precision: self.precision,
            count: self.count as nat,
        }
    }
}

impl StageView {
    /// Is the stage due? `t` is the time and a slack, so that a sum of steps which
    /// falls short by rounding is in time.
    pub open spec fn due(self, t: Scalar) -> bool {
        scheduled(self.interval) && !t.is_nan() && !self.next.is_nan() && !t.less(self.next)
    }

    /// The stage with another time to write next.
    pub open spec fn until(self, next: Scalar) -> StageView {
        StageView { next, ..self }
    }

    /// The stage after it has written once more.
    pub open spec fn written(self) -> StageView {
        StageView { count: self.count + 1, ..self }
    }

    /// A stage that has not written.
    pub open spec fn fresh(
        label: Seq<char>,
        formats: Seq<OutputFormat>,
        interval: Scalar,
        fields: Selection,
        precision: Precision,
    ) -> StageView {
        StageView { label, formats, interval, next: interval, fields, precision, count: 0 }
    }
}

impl Stage {
    /// Is the stage due? This changes nothing.
    pub fn peek(&self, t: Scalar) -> (r: bool)
        ensures
            r == self@.due(t),
    {
        (Scalar { bits: 0 }).below(self.interval) && !t.nan() && !self.next.nan() && !t.below(
            self.next,
        )
    }

    /// Is the stage due? Where it is, it next writes at `after`, which is one interval
    /// later.
    pub fn take(&mut self, t: Scalar, after: Scalar) -> (r: bool)
        ensures
            r == old(self)@.due(t),
            final(self)@ == (if r {
                old(self)@.until(after)
            } else {
                old(self)@
            }),
            final(self).writers == old(self).writers,
    {
        if self.peek(t) {
            self.next = after;
            true
        } else {
            false
        }
    }

    /// Count a write.
    pub fn wrote(&mut self)
        requires
            old(self).count < usize::MAX,
        ensures
            final(self)@ == old(self)@.written(),
            final(self).writers == old(self).writers,
    {
        self.count = self.count + 1;
    }
}

/// The stages of some [`Stage`]s.
pub open spec fn stages_of(v: Seq<Stage>) -> Seq<StageView> {
    v.map_values(|s: Stage| s@)
}

/// The stages of a run and its checkpoints.
#[derive(Debug)]
pub struct OutputPipeline {
    pub stages: Vec<Stage>,
    pub restart_spec: Option<RestartSpec>,
    /// Did the case say what to write?
    pub from_case: bool,
}

/// An interval that is not below zero.
pub open spec fn not_negative(w: Scalar) -> Scalar {
    if zero().less(w) {
        w
    } else {
        zero()
    }
}

/// The stages of a plan.
pub open spec fn planned(plan: Plan) -> Seq<StageView> {
    (match plan.vis {
        Some(v) => seq![
            StageView::fresh("visualisation"@, v.formats, v.interval, v.fields, v.precision),
        ],
        None => Seq::empty(),
    }) + (match plan.exact {
        Some(e) => seq![
            StageView::fresh("exact"@, e.formats, e.interval, Selection::All, Precision::F32),
        ],
        None => Seq::empty(),
    })
}

/// How often something is written.
pub open spec fn rhythm(w: Scalar) -> Seq<char> {
    if scheduled(w) {
        "every "@ + shown(w) + " s"@
    } else {
        "final state only"@
    }
}

fn tell_rhythm(w: Scalar) -> (r: String)
    ensures
        r@ == rhythm(w),
{
    if (Scalar { bits: 0 }).below(w) {
        let mut s = copy("every ");
        push_text(&mut s, &show(w));
        push_text(&mut s, " s");
        s
    } else {
        copy("final state only")
    }
}

/// The line of a stage.
pub open spec fn stage_line_text(label: Seq<char>, source: Seq<char>, formats: Seq<char>, rhythm: Seq<char>, fields: Seq<char>, precision: Seq<char>) -> Seq<char> {
    "output "@
        + label
        + " ("@
        + source
        + "): "@
        + formats
        + " | "@
        + rhythm
        + " | fields: "@
        + fields
        + " | precision "@
        + precision
}

fn stage_line_message(label: &str, source: &str, formats: &str, rhythm: &str, fields: &str, precision: &str) -> (r: String)
    ensures
        r@ == stage_line_text(label@, source@, formats@, rhythm@, fields@, precision@),
{
    let mut s = copy("output ");
    push_text(&mut s, label);
    push_text(&mut s, " (");
    push_text(&mut s, source);
    push_text(&mut s, "): ");
    push_text(&mut s, formats);
    push_text(&mut s, " | ");
    push_text(&mut s, rhythm);
    push_text(&mut s, " | fields: ");
    push_text(&mut s, fields);
    push_text(&mut s, " | precision ");
    push_text(&mut s, precision);
    s
}

/// The line of the checkpoints.
pub open spec fn restart_line_text(source: Seq<char>, rhythm: Seq<char>, keep: Seq<char>) -> Seq<char> {
    "output restart ("@
        + source
        + "): .mcr checkpoints | "@
        + rhythm
        + " | keep "@
        + keep
}

fn restart_line_message(source: &str, rhythm: &str, keep: &str) -> (r: String)
    ensures
        r@ == restart_line_text(source@, rhythm@, keep@),
{
    let mut s = copy("output restart (");
    push_text(&mut s, source);
    push_text(&mut s, "): .mcr checkpoints | ");
    push_text(&mut s, rhythm);
    push_text(&mut s, " | keep ");
    push_text(&mut s, keep);
    s
}

/// Who said what to write.
pub open spec fn source_of(from_case: bool) -> Seq<char> {
    if from_case {
        "case output block"@
    } else {
        "command line"@
    }
}

/// The line of a stage.
pub open spec fn stage_line(s: StageView, from_case: bool) -> Seq<char> {
    stage_line_text(
        s.label,
        source_of(from_case),
        join(spellings(s.formats), ", "@),
        rhythm(s.interval),
        described(s.fields),
        match s.precision {
            Precision::F32 => "fp32"@,
            Precision::F16 => "fp16"@,
        },
    )
}

/// The line of the checkpoints.
pub open spec fn restart_line(r: RestartSpec, from_case: bool) -> Seq<char> {
    restart_line_text(
        source_of(from_case),
        rhythm(r.interval),
        if r.keep == 0 {
            "all of them"@
        } else {
            decimal(r.keep as nat)
        },
    )
}

/// What will be written, how often, of what and how precisely.
pub open spec fn disclosed(
    stages: Seq<StageView>,
    restart: Option<RestartSpec>,
    from_case: bool,
) -> Seq<char> {
    if stages.len() == 0 && restart is None {
        "output: nothing"@
    } else {
        join(
            stages.map_values(|s: StageView| stage_line(s, from_case)) + (match restart {
                Some(r) => seq![restart_line(r, from_case)],
                None => Seq::empty(),
            }),
            "\n"@,
        )
    }
}

fn tell_stage(s: &Stage, source: &str, from_case: bool) -> (r: String)
    requires
        source@ == source_of(from_case),
    ensures
        r@ == stage_line(s@, from_case),
{
    let names = names_of(&s.formats);
    assert(texts(names@).skip(0) =~= texts(names@));
    stage_line_message(
        &s.label,
        source,
        &join_from(&names, 0, ", "),
        &tell_rhythm(s.interval),
        &s.fields.describe(),
        match s.precision {
            Precision::F32 => "fp32",
            Precision::F16 => "fp16",
        },
    )
}

impl OutputPipeline {
    /// Is any stage due?
    pub open spec fn is_due(self, t: Scalar) -> bool {
        exists|i: int| 0 <= i < self.stages.len() && (#[trigger] self.stages@[i])@.due(t)
    }

    /// Does every stage have the writers of its formats, none of which has written?
    pub open spec fn fresh_under(self, root: Seq<char>, stem: Seq<char>) -> bool {
        forall|i: int|
            0 <= i < self.stages.len() ==> are_writers(
                (#[trigger] self.stages@[i]).writers@,
                self.stages@[i].formats@,
                root,
                stem,
                self.stages@[i].precision,
            )
    }

    /// The stage that the command line asks for: every field, at single precision.
    pub fn from_command_line(
        root: &str,
        stem: &str,
        formats: &Vec<OutputFormat>,
        write_interval: Scalar,
    ) -> (r: OutputPipeline)
        ensures
            stages_of(r.stages@) == seq![
                StageView::fresh(
                    "output"@,
                    formats@,
                    not_negative(write_interval),
                    Selection::All,
                    Precision::F32,
                ),
            ],
            r.fresh_under(root@, stem@),
            r.restart_spec is None,
            !r.from_case,
    {
        let none = Scalar { bits: 0 };
        let w = if none.below(write_interval) {
            write_interval
        } else {
            none
        };
        let mut stages: Vec<Stage> = Vec::new();
        stages.push(
            Stage {
                label: copy("output"),
                writers: build_writers(root, stem, formats, Precision::F32),
                formats: copy_formats(formats),
                interval: w,
                next: w,
                fields: FieldSelection::All,
                precision: Precision::F32,
                count: 0,
            },
        );
        assert(stages_of(stages@) =~= seq![stages@[0]@]);
        OutputPipeline { stages, restart_spec: None, from_case: false }
    }

    /// The stages that a plan asks for.
    pub fn from_plan(plan: &OutputPlan, root: &str, stem: &str) -> (r: OutputPipeline)
        ensures
            stages_of(r.stages@) == planned(plan@),
            r.fresh_under(root@, stem@),
            r.restart_spec == plan.restart,
            r.from_case,
    {
        let mut stages: Vec<Stage> = Vec::new();
        match &plan.vis {
            Some(v) => {
                stages.push(
                    Stage {
                        label: copy("visualisation"),
                        writers: build_writers(root, stem, &v.formats, v.precision),
                        formats: copy_formats(&v.formats),
                        interval: v.interval,
                        next: v.interval,
                        fields: v.fields.copied(),
                        precision: v.precision,
                        count: 0,
                    },
                );
            },
            None => {},
        }
        match &plan.exact {
            Some(e) => {
                stages.push(
                    Stage {
                        label: copy("exact"),
                        writers: build_writers(root, stem, &e.formats, Precision::F32),
                        formats: copy_formats(&e.formats),
                        interval: e.interval,
                        next: e.interval,
                        fields: FieldSelection::All,
                        precision: Precision::F32,
                        count: 0,
                    },
                );
            },
            None => {},
        }
        assert(stages_of(stages@) =~= planned(plan@));
        OutputPipeline { stages, restart_spec: plan.restart, from_case: true }
    }

    /// Start every schedule: stage `i` first writes at `next[i]`, one interval after
    /// the run starts.
    pub fn start(&mut self, next: &Vec<Scalar>)
        requires
            next.len() == old(self).stages.len(),
        ensures
            final(self).stages.len() == old(self).stages.len(),
            forall|i: int|
                0 <= i < next.len() ==> (#[trigger] final(self).stages@[i])@
                    == old(self).stages@[i]@.until(next@[i]) && final(self).stages@[i].writers
                    == old(self).stages@[i].writers,
            final(self).restart_spec == old(self).restart_spec,
            final(self).from_case == old(self).from_case,
    {
        let mut i: usize = 0;
        while i < self.stages.len()
            invariant
                i <= self.stages.len(),
                next.len() == self.stages.len(),
                self.stages.len() == old(self).stages.len(),
                forall|k: int|
                    0 <= k < i ==> (#[trigger] self.stages@[k])@ == old(self).stages@[k]@.until(
                        next@[k],
                    ) && self.stages@[k].writers == old(self).stages@[k].writers,
                forall|k: int|
                    i <= k < next.len() ==> #[trigger] self.stages@[k] == old(self).stages@[k],
                self.restart_spec == old(self).restart_spec,
                self.from_case == old(self).from_case,
            decreases self.stages.len() - i,
        {
            let s = &mut self.stages[i];
            s.next = next[i];
            i = i + 1;
        }
    }

    /// Is any stage due? This changes nothing, so that a driver can ask before it
    /// gathers the fields.
    pub fn any_due(&self, t: Scalar) -> (r: bool)
        ensures
            r == self.is_due(t),
    {
        let mut i: usize = 0;
        while i < self.stages.len()
            invariant
                i <= self.stages.len(),
                forall|k: int| 0 <= k < i ==> !(#[trigger] self.stages@[k])@.due(t),
            decreases self.stages.len() - i,
        {
            if self.stages[i].peek(t) {
                return true;
            }
            i = i + 1;
        }
        false
    }

    /// Begin the turn of stage `i`: where it is due at `at` it next writes at `after`,
    /// one interval later. The result is the number of the step to write, where the
    /// stage is due or is made to write all the same.
    ///
    /// The turn goes on with [`OutputPipeline::stage_fields`] and
    /// [`OutputPipeline::stage_ctx`], which say what the writers of the stage are
    /// handed, and ends with [`OutputPipeline::finish`] once they have written.
    pub fn begin(&mut self, i: usize, at: Scalar, after: Scalar, force: bool) -> (r: Option<usize>)
        requires
            i < old(self).stages.len(),
        ensures
            final(self).stages.len() == old(self).stages.len(),
            forall|k: int|
                0 <= k < final(self).stages.len() && k != i ==> #[trigger] final(self).stages@[k]
                    == old(self).stages@[k],
            final(self).stages@[i as int]@ == (if old(self).stages@[i as int]@.due(at) {
                old(self).stages@[i as int]@.until(after)
            } else {
                old(self).stages@[i as int]@
            }),
            final(self).stages@[i as int].writers == old(self).stages@[i as int].writers,
            final(self).restart_spec == old(self).restart_spec,
            final(self).from_case == old(self).from_case,
            r == (if force || old(self).stages@[i as int]@.due(at) {
                Some(old(self).stages@[i as int].count)
            } else {
                None
            }),
    {
        let s = &mut self.stages[i];
        let step: usize = s.count;
        let due: bool = s.take(at, after);
        if force || due {
            Some(step)
        } else {
            None
        }
    }

    /// The fields that stage `i` writes, of those at hand: a name that is not among
    /// them is refused here too.
    pub fn stage_fields<'a>(
        &self,
        i: usize,
        p: Policy,
        ctx: &WriteCtx<'a>,
        notes: &mut Vec<String>,
    ) -> (r: Result<Vec<OutputField<'a>>, Error>)
        requires
            i < self.stages.len(),
        ensures
            texts(final(notes)@) == texts(old(notes)@) + passed_over(
                picked(strict(), self.stages@[i as int].fields@, ctx.fields@),
                picked(p, self.stages@[i as int].fields@, ctx.fields@),
            ),
            match (r, picked(p, self.stages@[i as int].fields@, ctx.fields@)) {
                (Ok(a), Ok(b)) => a@ == b,
                (Err(e), Err(f)) => e@ == f,
                _ => false,
            },
    {
        self.stages[i].fields.apply(p, ctx.fields, notes)
    }

    /// What the writers of stage `i` are handed: the fields of the stage, and for a
    /// step the stage's own count, whatever the step of `ctx` is.
    pub fn stage_ctx<'a>(
        &self,
        i: usize,
        ctx: &WriteCtx<'a>,
        selected: &'a Vec<OutputField<'a>>,
    ) -> (r: WriteCtx<'a>)
        requires
            i < self.stages.len(),
        ensures
            r == (WriteCtx { step: self.stages@[i as int].count, fields: selected, ..*ctx }),
    {
        WriteCtx {
            time: ctx.time,
            step: self.stages[i].count,
            name: ctx.name,
            mesh: ctx.mesh,
            cart: ctx.cart,
            fields: selected,
            foam: ctx.foam,
        }
    }

    /// End the turn of stage `i`, whose writers have written: the stage counts it.
    /// The result is that something was written.
    pub fn finish(&mut self, i: usize) -> (r: bool)
        requires
            i < old(self).stages.len(),
            old(self).stages@[i as int].count < usize::MAX,
        ensures
            r,
            final(self).stages.len() == old(self).stages.len(),
            forall|k: int|
                0 <= k < final(self).stages.len() && k != i ==> #[trigger] final(self).stages@[k]
                    == old(self).stages@[k],
            final(self).stages@[i as int]@ == old(self).stages@[i as int]@.written(),
            final(self).stages@[i as int].writers == old(self).stages@[i as int].writers,
            final(self).restart_spec == old(self).restart_spec,
            final(self).from_case == old(self).from_case,
    {
        let s = &mut self.stages[i];
        s.wrote();
        true
    }

    /// Are there checkpoints?
    pub fn has_restart(&self) -> (r: bool)
        ensures
            r == (self.restart_spec is Some),
    {
        self.restart_spec.is_some()
    }

    /// What will be written, how often, of what and how precisely: a line for every
    /// stage, and one for the checkpoints.
    pub fn describe(&self) -> (r: String)
        ensures
            r@ == disclosed(stages_of(self.stages@), self.restart_spec, self.from_case),
    {
        if self.stages.len() == 0 && self.restart_spec.is_none() {
            return copy("output: nothing");
        }
        let source = if self.from_case {
            "case output block"
        } else {
            "command line"
        };
        let ghost want = stages_of(self.stages@).map_values(
            |s: StageView| stage_line(s, self.from_case),
        );
        let mut lines: Vec<String> = Vec::new();
        let mut i: usize = 0;
        assert(texts(lines@) =~= want.take(0));
        while i < self.stages.len()
            invariant
                i <= self.stages.len(),
                source@ == source_of(self.from_case),
                want == stages_of(self.stages@).map_values(
                    |s: StageView| stage_line(s, self.from_case),
                ),
                texts(lines@) == want.take(i as int),
            decreases self.stages.len() - i,
        {
            let l = tell_stage(&self.stages[i], source, self.from_case);
            proof {
                lemma_texts_push(lines@, l);
            }
            lines.push(l);
            i = i + 1;
            assert(texts(lines@) =~= want.take(i as int));
        }
        assert(texts(lines@) =~= want);
        assert(want + Seq::<Seq<char>>::empty() =~= want);
        match &self.restart_spec {
            Some(r) => {
                let mut keep = copy("all of them");
                if r.keep != 0 {
                    keep = String::new();
                    assert(keep@ =~= Seq::empty());
                    push_decimal(&mut keep, r.keep as u64);
                    assert(keep@ =~= decimal(r.keep as nat));
                }
                let l = restart_line_message(source, &tell_rhythm(r.interval), &keep);
                proof {
                    lemma_texts_push(lines@, l);
                    assert(want.push(l@) =~= want + seq![l@]);
                }
                lines.push(l);
            },
            None => {},
        }
        assert(texts(lines@).skip(0) =~= texts(lines@));
        join_from(&lines, 0, "\n")
    }
}

} // verus!
