//! What a plan says is what the case says: every interval, every format and every field
//! goes where it was asked for, and nothing is written that was not.

use vstd::prelude::*;

use crate::contract::{strict, Policy};
use crate::list::lemma_first;
use crate::nvdb::Precision;
use crate::output_plan::{
    entries, exact_formats_of, exact_of, given, in_force, listed, plan_of, planned, restart_of,
    scene_ext, vis_formats_of, vis_of, volumes_among, Column, JsonExact, JsonOutput, JsonRestart, JsonVisualisation, OutputFormat,
    Plan, Selection,
};
use crate::scalar::Scalar;
use crate::text::texts;

verus! {

/// A time is what was asked for: the seconds that were given, where they are a number of
/// seconds, and zero where none were.
pub open spec fn is_asked(w: Scalar, asked: Option<Scalar>) -> bool {
    match asked {
        None => w.bits == 0,
        Some(v) => v.is_finite() && !v.less(Scalar { bits: 0 }) ==> w == v,
    }
}

proof fn lemma_spellings()
    ensures
        "fp32"@ != "fp16"@,
{
    reveal_strlit("fp32");
    reveal_strlit("fp16");
    assert("fp32"@[2] == '3' && "fp16"@[2] == '1');
}

/// A `visualisation` block is written as often, of the fields and as precisely as it says.
pub proof fn visualisations_are_as_asked(p: Policy, v: JsonVisualisation)
    requires
        vis_of(p, v) is Ok,
        vis_of(p, v)->Ok_0 is Some,
    ensures
        ({
            let w = vis_of(p, v)->Ok_0->Some_0;
            &&& is_asked(w.interval, v.interval)
            &&& v.fields is None ==> w.fields == Selection::All
            &&& given(v.precision) == Some("fp16"@) ==> w.precision == Precision::F16
            &&& given(v.precision) != Some("fp16"@) ==> w.precision == Precision::F32
            &&& !p.permissive && v.fields is Some ==> w.fields == Selection::Named(
                texts(v.fields->Some_0@),
            )
        }),
{
    lemma_spellings();
}

/// An `exact` block is written as often as it says, a `restart` block too, and as many
/// checkpoints are kept.
pub proof fn other_blocks_are_as_asked(p: Policy, e: JsonExact, r: JsonRestart)
    ensures
        exact_of(p, e) matches Ok(Some(w)) ==> is_asked(w.interval, e.interval),
        restart_of(p, r) matches Ok(w) ==> is_asked(w.interval, r.interval) && w.keep == r.keep,
{
}

/// Every block of a case makes its own part of the plan, and no other part.
pub proof fn blocks_make_their_own_part(p: Policy, o: JsonOutput)
    requires
        plan_of(p, o) is Ok,
    ensures
        ({
            let q = plan_of(p, o)->Ok_0;
            &&& o.visualisation is None ==> q.vis is None
            &&& o.exact is None ==> q.exact is None
            &&& (o.restart is None) == (q.restart is None)
            &&& o.visualisation matches Some(v) ==> vis_of(p, v) is Ok && q.vis == vis_of(
                p,
                v,
            )->Ok_0
            &&& o.exact matches Some(e) ==> exact_of(p, e) is Ok && q.exact == exact_of(p, e)->Ok_0
            &&& o.restart matches Some(r) ==> restart_of(p, r) is Ok && q.restart == Some(
                restart_of(p, r)->Ok_0,
            )
        }),
{
}

/// A strict run takes every entry of a list of formats for what it is called: `vdb` and
/// `nvdb` under `visualisation`, and a scene behind them where one is asked for.
pub proof fn visual_formats_are_what_they_are_called(list: Seq<char>, usd_scene: bool, i: int)
    requires
        vis_formats_of(strict(), list, usd_scene) is Ok,
        0 <= i < entries(list, 0).len(),
    ensures
        ({
            let f = vis_formats_of(strict(), list, usd_scene)->Ok_0;
            let e = entries(list, 0);
            &&& f.len() == e.len() + (if usd_scene { 1int } else { 0 })
            &&& (e[i] == "vdb"@ && f[i] == OutputFormat::Vdb) || (e[i] == "nvdb"@ && f[i]
                == OutputFormat::Nvdb)
            &&& usd_scene ==> f.last() == OutputFormat::Usda
        }),
{
    lemma_columns(Column::Visual, entries(list, 0), i);
}

/// Under `exact` they are `vtu`, and `openfoam` or `foam`.
pub proof fn exact_formats_are_what_they_are_called(list: Seq<char>, i: int)
    requires
        exact_formats_of(strict(), list) is Ok,
        0 <= i < entries(list, 0).len(),
    ensures
        ({
            let f = exact_formats_of(strict(), list)->Ok_0;
            let e = entries(list, 0);
            &&& f.len() == e.len()
            &&& (e[i] == "vtu"@ && f[i] == OutputFormat::Vtu) || ((e[i] == "openfoam"@ || e[i]
                == "foam"@) && f[i] == OutputFormat::Foam)
        }),
{
    lemma_columns(Column::Exact, entries(list, 0), i);
}

proof fn lemma_columns(c: Column, t: Seq<Seq<char>>, i: int)
    requires
        0 <= i < t.len(),
    ensures
        listed(c, t) matches Ok(f) ==> f.len() == t.len() && c.accepts(t[i]) == Some(f[i]),
{
    let p = |i: int| c.accepts(t[i]) is None;
    lemma_first(t.len() as int, 0, p);
    if listed(c, t) is Ok {
        assert(!p(i));
    }
}

/// Without a schedule only the intervals go: what is written, of which fields, how precisely
/// and how many checkpoints are kept stays.
pub proof fn only_intervals_are_dropped(plan: Plan)
    ensures
        ({
            let q = plan.unscheduled();
            &&& (q.vis is Some) == (plan.vis is Some)
            &&& (q.exact is Some) == (plan.exact is Some)
            &&& (q.restart is Some) == (plan.restart is Some)
            &&& plan.vis matches Some(v) ==> q.vis->Some_0.formats == v.formats
                && q.vis->Some_0.fields == v.fields && q.vis->Some_0.precision == v.precision
                && q.vis->Some_0.interval.bits == 0
            &&& plan.exact matches Some(e) ==> q.exact->Some_0.formats == e.formats
                && q.exact->Some_0.interval.bits == 0
            &&& plan.restart matches Some(r) ==> q.restart->Some_0.keep == r.keep
                && q.restart->Some_0.interval.bits == 0
        }),
{
}

proof fn lemma_volumes(f: Seq<OutputFormat>, n: int)
    requires
        0 <= n <= f.len(),
    ensures
        (volumes_among(f, n).len() == 0) == (forall|i: int|
            0 <= i < n ==> (#[trigger] f[i]) != OutputFormat::Vdb && f[i] != OutputFormat::Nvdb),
    decreases n,
{
    if n > 0 {
        lemma_volumes(f, n - 1);
    }
}

/// On a mesh that is no box a strict run refuses a plan with a dense grid in it, and a
/// permissive one leaves the visualisation out and nothing else. Any other plan stays.
pub proof fn dense_grids_need_a_box(plan: Plan, p: Policy, cartesian: bool)
    ensures
        ({
            let dense = plan.vis matches Some(v) && exists|i: int|
                0 <= i < v.formats.len() && ((#[trigger] v.formats[i]) == OutputFormat::Vdb
                    || v.formats[i] == OutputFormat::Nvdb);
            let r = plan.on_mesh(p, cartesian);
            &&& cartesian || !dense ==> r == Ok::<Plan, crate::error::Failure>(plan)
            &&& !cartesian && dense && !p.permissive ==> r is Err
            &&& !cartesian && dense && p.permissive ==> r is Ok && r->Ok_0.vis is None
                && r->Ok_0.exact == plan.exact && r->Ok_0.restart == plan.restart
        }),
{
    match plan.vis {
        Some(v) => {
            lemma_volumes(v.formats, v.formats.len() as int);
        },
        None => {},
    }
}

/// A plan has a stage for the pictures and a stage for the exact fields, in this order. Both
/// first write after one interval; the exact one writes every field.
pub proof fn stages_are_as_planned(plan: Plan)
    ensures
        ({
            let s = planned(plan);
            let k = if plan.vis is Some { 1int } else { 0 };
            &&& s.len() == k + (if plan.exact is Some { 1int } else { 0 })
            &&& plan.vis matches Some(v) ==> {
                &&& s[0].label == "visualisation"@
                &&& s[0].formats == v.formats
                &&& s[0].interval == v.interval && s[0].next == v.interval
                &&& s[0].fields == v.fields
                &&& s[0].precision == v.precision
                &&& s[0].count == 0
            }
            &&& plan.exact matches Some(e) ==> {
                &&& s[k].label == "exact"@
                &&& s[k].formats == e.formats
                &&& s[k].interval == e.interval && s[k].next == e.interval
                &&& s[k].fields == Selection::All
                &&& s[k].count == 0
            }
        }),
{
}

/// Where the command line says what to write too, a strict run refuses, and a permissive one
/// follows the command line. Otherwise the case's block is in force.
pub proof fn the_command_line_goes_first(p: Policy, plan: Plan, flags: Seq<Seq<char>>)
    ensures
        ({
            let both = !plan.is_empty() && flags.len() > 0;
            &&& !both ==> in_force(p, plan, flags) == Ok::<bool, crate::error::Failure>(true)
            &&& both && p.permissive ==> in_force(p, plan, flags) == Ok::<
                bool,
                crate::error::Failure,
            >(false)
            &&& both && !p.permissive ==> in_force(p, plan, flags) is Err
        }),
{
}

/// A scene points at files that are written: at `.vdb` files, unless only `.nvdb` ones are.
pub proof fn scenes_point_at_written_files(f: Seq<OutputFormat>)
    ensures
        f.contains(OutputFormat::Vdb) ==> scene_ext(f) == "vdb"@,
        f.contains(OutputFormat::Nvdb) && !f.contains(OutputFormat::Vdb) ==> scene_ext(f)
            == "nvdb"@,
{
}

} // verus!
