//! What the steps of an analysis and its notices promise.

use crate::activity::{Activity, ToggleSource};
use crate::double::{Double, ZERO_BITS};
use crate::engine::{
    activity_notice, analysis_steps, collision_notice_of, counts_with, coverage_notices, design_set, grouping_notice,
    liberty_notice, netlist_notice, source_mode_text, spef_notice, sweep_notice_of, sweep_steps, window_notice_of,
    ActivityCounts, InputCounts, LibertyCounts, NetlistCounts, SpefCounts, StepView, SweepNoticeFigures,
};
use crate::job::JobView;
use crate::power::Netlist;
use crate::text::decimal_text;
use vstd::prelude::*;

verus! {

// ---- steps ---------------------------------------------------------------------

/// Which step loads the activity of a job: a SAIF file before a VCD before an FST.
pub open spec fn source_step(j: JobView) -> Option<StepView> {
    if j.saif is Some {
        Some(StepView::LoadSaif(j.saif.unwrap()))
    } else if j.vcd is Some {
        Some(StepView::LoadVcd(j.vcd.unwrap()))
    } else if j.fst is Some {
        Some(StepView::LoadFst(j.fst.unwrap()))
    } else {
        None
    }
}

/// An analysis loads the netlist, then each library in order, then the activity if
/// there is one, then the parasitics if there are any, and then analyzes; each of these
/// once, and nothing else.
pub proof fn an_analysis_loads_what_the_job_names(j: JobView)
    requires
        j.libs.len() > 0,
    ensures
        ({
            let steps = analysis_steps(j);
            let n = j.libs.len() as int;
            let source = if source_step(j) is Some { 1int } else { 0 };
            let spef = if j.spef is Some { 1int } else { 0 };
            &&& steps.len() == 2 + n + source + spef
            &&& steps[0] == StepView::LoadNetlist(j.netlist)
            &&& forall|k: int| 0 <= k < n ==> steps[k + 1] == StepView::LoadLib(#[trigger] j.libs[k])
            &&& source_step(j) matches Some(s) ==> steps[n + 1] == s
            &&& j.spef matches Some(p) ==> steps[n + 1 + source] == StepView::LoadSpef(p)
            &&& steps.last() == StepView::Analyze
        }),
{
}

/// A job without a library loads its netlist and fails.
pub proof fn without_a_library_nothing_is_analyzed(j: JobView)
    requires
        j.libs.len() == 0,
    ensures
        analysis_steps(j) == seq![
            StepView::LoadNetlist(j.netlist),
            StepView::Fail("no libraries loaded"@),
        ],
{
    assert(analysis_steps(j) =~= seq![
        StepView::LoadNetlist(j.netlist),
        StepView::Fail("no libraries loaded"@),
    ]);
}

/// A sweep loads the netlist, the libraries, the parasitics and then the VCD, and
/// analyzes.
pub proof fn a_sweep_loads_what_the_job_names(j: JobView)
    requires
        j.libs.len() > 0,
        j.activity_sweep is Some,
        j.vcd is Some,
    ensures
        ({
            let steps = sweep_steps(j);
            let n = j.libs.len() as int;
            let spef = if j.spef is Some { 1int } else { 0 };
            &&& steps.len() == 3 + n + spef
            &&& steps[0] == StepView::LoadNetlist(j.netlist)
            &&& forall|k: int| 0 <= k < n ==> steps[k + 1] == StepView::LoadLib(#[trigger] j.libs[k])
            &&& j.spef matches Some(p) ==> steps[n + 1] == StepView::LoadSpef(p)
            &&& steps[n + 1 + spef] == StepView::LoadSweep(j.vcd.unwrap())
            &&& steps.last() == StepView::Analyze
        }),
{
}

/// A job without a sweep, or without a VCD to sweep, fails before anything is loaded.
pub proof fn without_a_sweep_nothing_is_swept(j: JobView)
    ensures
        j.activity_sweep is None ==> sweep_steps(j) == seq![
            StepView::Fail("job has no activity_sweep:"@),
        ],
        j.activity_sweep is Some && j.vcd is None ==> sweep_steps(j) == seq![
            StepView::Fail("activity_sweep requires a 'vcd:' source"@),
        ],
{
}

/// The name of the source in reports is that of the file which the steps load.
pub proof fn the_mode_names_the_loaded_source(j: JobView)
    ensures
        source_step(j) matches Some(StepView::LoadSaif(_)) ==> source_mode_text(j)
            == "vectored (SAIF)"@,
        source_step(j) matches Some(StepView::LoadVcd(_)) ==> source_mode_text(j)
            == "vectored (VCD)"@,
        source_step(j) matches Some(StepView::LoadFst(_)) ==> source_mode_text(j)
            == "vectored (FST)"@,
        source_step(j) is None ==> source_mode_text(j) == "vectorless"@,
{
}

// ---- notices -------------------------------------------------------------------

/// Leaves in several scopes are told of, each by its name, just when there are some and
/// no scope tells them apart.
pub proof fn ambiguous_leaves_are_told_of(leaves: Seq<Seq<char>>, scope: Option<Seq<char>>, i: int)
    ensures
        collision_notice_of(leaves, scope) is Some <==> leaves.len() > 0 && scope is None,
        collision_notice_of(leaves, scope) matches Some(n) ==> {
            &&& n.attention
            &&& n.code == "POWER-SCOPE-COLLISION"@
            &&& n.objects.len() == leaves.len()
            &&& 0 <= i < leaves.len() ==> n.objects[i] == seq!['n', 'e', 't', ':'] + leaves[i]
            &&& n.message == decimal_text(leaves.len())
                + " net name(s) appear in multiple scopes; set 'scope:' to disambiguate (ambiguous nets fall back to the vectorless factor)"@
        },
{
    reveal_strlit("net:");
    assert("net:"@ =~= seq!['n', 'e', 't', ':']);
}

/// A window that measures nothing is told of: where a job has a window, and what it
/// measures is no longer than zero.
pub proof fn an_empty_window_is_told_of(window: Option<(Double, Option<Double>)>, sim_time_s: Double)
    ensures
        window_notice_of(window, sim_time_s) is Some <==> window is Some && sim_time_s.at_most(
            Double { bits: ZERO_BITS },
        ),
        window_notice_of(window, sim_time_s) matches Some(n) ==> n.attention && n.code
            == "POWER-ACTIVITY-WINDOW-EMPTY"@ && n.objects.len() == 0,
{
}

/// The notices about the inputs come in order: the netlist, the library where it does
/// not tell registers from gates, the library, the activity, and the parasitics where
/// there are any.
pub proof fn the_inputs_are_told_of_in_order(declares_seq: bool, mode: Seq<char>, c: InputCounts)
    ensures
        ({
            let notices = coverage_notices(declares_seq, mode, c);
            let d = if declares_seq { 0int } else { 1 };
            &&& notices.len() == 3 + d + if c.spef is Some { 1int } else { 0 }
            &&& notices[0] == netlist_notice(c.netlist)
            &&& !declares_seq ==> notices[1] == grouping_notice()
            &&& notices[1 + d] == liberty_notice(c.liberty)
            &&& notices[2 + d] == activity_notice(mode, c.activity)
            &&& c.spef matches Some(s) ==> notices[3 + d] == spef_notice(s)
        }),
{
}

/// What of the inputs asks for attention: signal cells that the library lacks, or no
/// instance; a library that does not tell registers from gates; one that the design
/// does not use; a measurement that names less than half of the nets; and parasitics
/// that match nothing or are empty.
pub proof fn what_asks_for_attention(
    n: NetlistCounts,
    l: LibertyCounts,
    mode: Seq<char>,
    a: ActivityCounts,
    s: SpefCounts,
)
    ensures
        netlist_notice(n).attention <==> n.unresolved_signal > 0 || n.instances == 0,
        grouping_notice().attention,
        liberty_notice(l).attention <==> l.resolved_masters == 0,
        activity_notice(mode, a).attention <==> mode != "vectorless"@ && (a.total == 0 || a.hit + a.hit
            < a.total),
        spef_notice(s).attention <==> s.read_but_unmatched || s.empty,
        netlist_notice(n).code == "POWER-NETLIST"@,
        grouping_notice().code == "POWER-CLOCK-GROUPING"@,
        liberty_notice(l).code == "POWER-LIBERTY"@,
        activity_notice(mode, a).code == "POWER-ACTIVITY"@,
        spef_notice(s).code == "POWER-SPEF"@,
{
}

/// What the notices about the inputs say.
pub proof fn what_the_notices_say(
    n: NetlistCounts,
    l: LibertyCounts,
    mode: Seq<char>,
    a: ActivityCounts,
    s: SpefCounts,
)
    requires
        a.hit <= a.total,
    ensures
        netlist_notice(n).message == "netlist: "@ + decimal_text(n.instances as nat)
            + " instance(s) of "@ + decimal_text(n.masters as nat) + " master(s); "@ + decimal_text(
            n.analysable as nat,
        ) + " with a library cell, "@ + decimal_text(n.physical_only as nat) + " physical-only, "@
            + decimal_text(n.unresolved_signal as nat)
            + " with signal pins have NO library cell (they contribute no power)"@,
        liberty_notice(l).message == "liberty: "@ + decimal_text(l.cells_in_lib as nat)
            + " cell(s) loaded, "@ + decimal_text(l.resolved_masters as nat) + " used by the design"@,
        mode == "vectorless"@ ==> activity_notice(mode, a).message
            == "activity: vectorless — a uniform estimate over all "@ + decimal_text(a.total as nat)
            + " net(s)"@,
        mode != "vectorless"@ ==> activity_notice(mode, a).message == "activity: "@ + mode + " names "@
            + decimal_text(a.hit as nat) + " of "@ + decimal_text(a.total as nat) + " net(s) ("@
            + a.percent_text@ + "%); the remaining "@ + decimal_text((a.total - a.hit) as nat)
            + " take the vectorless fallback"@,
        spef_notice(s).message == "SPEF covers "@ + decimal_text(s.matched as nat) + " of "@
            + decimal_text(s.design_nets as nat) + " design net(s) ("@ + s.percent_text@ + "%); "@
            + decimal_text(s.file_nets as nat) + " net(s) in the file"@,
{
}

/// A sweep tells how many windows it measured, and which of them is the peak.
pub proof fn a_sweep_tells_of_its_peak(windows: nat, peak: nat, fig: SweepNoticeFigures)
    ensures
        sweep_notice_of(windows, peak, fig).code == "POWER-SWEEP"@,
        !sweep_notice_of(windows, peak, fig).attention,
        sweep_notice_of(windows, peak, fig).message == "swept "@ + decimal_text(windows)
            + " window(s) of "@ + fig.window_ns@ + " ns over one parse; peak window #"@
            + decimal_text(peak) + " ["@ + fig.peak_from_ns@ + " ns, "@ + fig.peak_to_ns@ + " ns) at "@
            + fig.peak_mw@ + " mW ("@ + fig.peak_to_mean@ + "x the mean)"@,
{
}

// ---- nets ----------------------------------------------------------------------

/// The nets of a design are those that its instances are connected to, and, where they
/// are asked for, its ports.
pub proof fn the_nets_of_a_design(nl: Netlist, ports: bool, net: Seq<char>)
    ensures
        design_set(nl, ports).contains(net) <==> (exists|i: int, c: int|
            0 <= i < nl.insts@.len() && 0 <= c < nl.insts@[i].conns@.len() && (
            #[trigger] nl.insts@[i].conns@[c]).net@ == net) || (ports && ((exists|k: int|
            0 <= k < nl.inputs@.len() && (#[trigger] nl.inputs@[k])@ == net) || (exists|k: int|
            0 <= k < nl.outputs@.len() && (#[trigger] nl.outputs@[k])@ == net))),
{
    let (a, b) = (nl.inputs.deep_view(), nl.outputs.deep_view());
    if a.contains(net) {
        let k = a.index_of(net);
        assert(nl.inputs@[k]@ == net);
    }
    if b.contains(net) {
        let k = b.index_of(net);
        assert(nl.outputs@[k]@ == net);
    }
    if exists|k: int| 0 <= k < nl.inputs@.len() && (#[trigger] nl.inputs@[k])@ == net {
        let k = choose|k: int| 0 <= k < nl.inputs@.len() && (#[trigger] nl.inputs@[k])@ == net;
        assert(a[k] == net);
    }
    if exists|k: int| 0 <= k < nl.outputs@.len() && (#[trigger] nl.outputs@[k])@ == net {
        let k = choose|k: int| 0 <= k < nl.outputs@.len() && (#[trigger] nl.outputs@[k])@ == net;
        assert(b[k] == net);
    }
}

/// What is told of the activity counts the nets of the design and, of these, the ones
/// that the source covers; what is told of the other inputs is what was counted.
pub proof fn the_nets_of_the_design_are_counted<S: ToggleSource>(
    nl: Netlist,
    act: Activity<S>,
    netlist: NetlistCounts,
    liberty: LibertyCounts,
    percent_text: String,
    spef: Option<SpefCounts>,
)
    requires
        design_set(nl, true).len() <= usize::MAX,
        design_set(nl, true).filter(|net: Seq<char>| act.covers(net)).len() <= usize::MAX,
    ensures
        ({
            let c = counts_with(nl, act, netlist, liberty, percent_text, spef);
            &&& c.netlist == netlist
            &&& c.liberty == liberty
            &&& c.spef == spef
            &&& c.activity.percent_text == percent_text
            &&& c.activity.total == design_set(nl, true).len()
            &&& c.activity.hit == design_set(nl, true).filter(|net: Seq<char>| act.covers(net)).len()
        }),
{
}

} // verus!
