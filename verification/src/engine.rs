//! The engine, as far as it decides: what to load for a job and in which order,
//! what of the inputs to report, and when to refuse.

use crate::activity::{named, Activity, ToggleSource};
use crate::double::{Double, ZERO_BITS};
use crate::job::{parsed, JobView, PwrJob};
use crate::names::opt_text;
use crate::power::{declares_sequential, library_declares_sequential, Lib, Netlist};
use crate::render::count_text;
use crate::text::{decimal_text, str_eq};
use crate::units::Numerals;
use vstd::hash_set::StringHashSet;
use vstd::prelude::*;
use vstd::string::*;

verus! {

// ---- what to do for a job ------------------------------------------------------

/// A step of the work on a job. Paths are relative to the job.
#[verifier::ext_equal]
pub enum StepView {
    LoadNetlist(Seq<char>),
    LoadLib(Seq<char>),
    LoadSaif(Seq<char>),
    LoadVcd(Seq<char>),
    LoadFst(Seq<char>),
    LoadSweep(Seq<char>),
    LoadSpef(Seq<char>),
    /// All is loaded.
    Analyze,
    /// The job cannot be analyzed.
    Fail(Seq<char>),
}

/// A `StepView`, in executable form.
#[derive(Debug)]
pub enum Step {
    LoadNetlist(String),
    LoadLib(String),
    LoadSaif(String),
    LoadVcd(String),
    LoadFst(String),
    LoadSweep(String),
    LoadSpef(String),
    Analyze,
    Fail(String),
}

impl View for Step {
    type V = StepView;

    open spec fn view(&self) -> StepView {
        match self {
            Step::LoadNetlist(p) => StepView::LoadNetlist(p@),
            Step::LoadLib(p) => StepView::LoadLib(p@),
            Step::LoadSaif(p) => StepView::LoadSaif(p@),
            Step::LoadVcd(p) => StepView::LoadVcd(p@),
            Step::LoadFst(p) => StepView::LoadFst(p@),
            Step::LoadSweep(p) => StepView::LoadSweep(p@),
            Step::LoadSpef(p) => StepView::LoadSpef(p@),
            Step::Analyze => StepView::Analyze,
            Step::Fail(m) => StepView::Fail(m@),
        }
    }
}

/// The views of the steps, in order.
pub open spec fn step_views(steps: Seq<Step>) -> Seq<StepView> {
    steps.map_values(|s: Step| s@)
}

/// The steps that load the netlist and the libraries.
pub open spec fn load_design(j: JobView) -> Seq<StepView> {
    seq![StepView::LoadNetlist(j.netlist)] + j.libs.map_values(
        |l: Seq<char>| StepView::LoadLib(l),
    )
}

/// The step that loads the activity source: a SAIF file before a dump.
pub open spec fn load_source(j: JobView) -> Seq<StepView> {
    match j.saif {
        Some(p) => seq![StepView::LoadSaif(p)],
        None => match j.vcd {
            Some(p) => seq![StepView::LoadVcd(p)],
            None => match j.fst {
                Some(p) => seq![StepView::LoadFst(p)],
                None => Seq::empty(),
            },
        },
    }
}

/// The step that loads the parasitics.
pub open spec fn load_spef(j: JobView) -> Seq<StepView> {
    match j.spef {
        Some(p) => seq![StepView::LoadSpef(p)],
        None => Seq::empty(),
    }
}

/// The steps that analyze a job, each to be done when those before it succeeded.
pub open spec fn analysis_steps(j: JobView) -> Seq<StepView> {
    if j.libs.len() == 0 {
        load_design(j).push(StepView::Fail("no libraries loaded"@))
    } else {
        (load_design(j) + load_source(j) + load_spef(j)).push(StepView::Analyze)
    }
}

/// The steps that analyze the sweep of a job.
pub open spec fn sweep_steps(j: JobView) -> Seq<StepView> {
    if j.activity_sweep is None {
        seq![StepView::Fail("job has no activity_sweep:"@)]
    } else if j.vcd is None {
        seq![StepView::Fail("activity_sweep requires a 'vcd:' source"@)]
    } else if j.libs.len() == 0 {
        load_design(j).push(StepView::Fail("no libraries loaded"@))
    } else {
        (load_design(j) + load_spef(j)).push(StepView::LoadSweep(j.vcd.unwrap())).push(
            StepView::Analyze,
        )
    }
}

fn add_step(steps: &mut Vec<Step>, s: Step)
    ensures
        step_views(final(steps)@) == step_views(old(steps)@).push(s@),
{
    let ghost before = step_views(steps@);
    let ghost v = s@;
    steps.push(s);
    assert(step_views(steps@) =~= before.push(v));
}

fn design_steps(job: &PwrJob) -> (r: Vec<Step>)
    ensures
        step_views(r@) == load_design(job@),
{
    let mut steps: Vec<Step> = Vec::new();
    assert(step_views(steps@) =~= Seq::<StepView>::empty());
    add_step(&mut steps, Step::LoadNetlist(job.netlist.clone()));
    let ghost libs = job@.libs;
    let n: usize = job.libs.len();
    let mut i: usize = 0;
    assert(libs.len() == n);
    assert(step_views(steps@) =~= seq![StepView::LoadNetlist(job@.netlist)] + libs.take(
        0,
    ).map_values(|l: Seq<char>| StepView::LoadLib(l)));
    while i < n
        invariant
            n == job.libs@.len(),
            libs == job@.libs,
            i <= n,
            step_views(steps@) == seq![StepView::LoadNetlist(job@.netlist)] + libs.take(
                i as int,
            ).map_values(|l: Seq<char>| StepView::LoadLib(l)),
        decreases n - i,
    {
        let ghost before = step_views(steps@);
        assert(libs[i as int] == job.libs@[i as int]@);
        add_step(&mut steps, Step::LoadLib(job.libs[i].clone()));
        assert(step_views(steps@) =~= seq![StepView::LoadNetlist(job@.netlist)] + libs.take(
            i + 1,
        ).map_values(|l: Seq<char>| StepView::LoadLib(l)));
        i += 1;
    }
    assert(libs.take(n as int) =~= libs);
    steps
}

fn add_spef(steps: &mut Vec<Step>, job: &PwrJob)
    ensures
        step_views(final(steps)@) == step_views(old(steps)@) + load_spef(job@),
{
    let ghost before = step_views(steps@);
    if let Some(p) = &job.spef {
        add_step(steps, Step::LoadSpef(p.clone()));
    }
    assert(step_views(steps@) =~= before + load_spef(job@));
}

/// Lists the steps that analyze a job.
pub fn analysis_plan(job: &PwrJob) -> (r: Vec<Step>)
    ensures
        step_views(r@) == analysis_steps(job@),
{
    let mut steps = design_steps(job);
    assert(job@.libs.len() == job.libs@.len());
    if job.libs.len() == 0 {
        add_step(&mut steps, Step::Fail("no libraries loaded".to_owned()));
        return steps;
    }
    let ghost before = step_views(steps@);
    if let Some(p) = &job.saif {
        add_step(&mut steps, Step::LoadSaif(p.clone()));
    } else if let Some(p) = &job.vcd {
        add_step(&mut steps, Step::LoadVcd(p.clone()));
    } else if let Some(p) = &job.fst {
        add_step(&mut steps, Step::LoadFst(p.clone()));
    }
    assert(step_views(steps@) =~= before + load_source(job@));
    add_spef(&mut steps, job);
    add_step(&mut steps, Step::Analyze);
    steps
}

/// Lists the steps that analyze the sweep of a job.
pub fn sweep_plan(job: &PwrJob) -> (r: Vec<Step>)
    ensures
        step_views(r@) == sweep_steps(job@),
{
    let mut none: Vec<Step> = Vec::new();
    assert(step_views(none@) =~= Seq::<StepView>::empty());
    if job.activity_sweep.is_none() {
        add_step(&mut none, Step::Fail("job has no activity_sweep:".to_owned()));
        assert(step_views(none@) =~= sweep_steps(job@));
        return none;
    }
    let vcd = match &job.vcd {
        Some(p) => p,
        None => {
            add_step(&mut none, Step::Fail("activity_sweep requires a 'vcd:' source".to_owned()));
            assert(step_views(none@) =~= sweep_steps(job@));
            return none;
        },
    };
    let mut steps = design_steps(job);
    assert(job@.libs.len() == job.libs@.len());
    if job.libs.len() == 0 {
        add_step(&mut steps, Step::Fail("no libraries loaded".to_owned()));
        return steps;
    }
    add_spef(&mut steps, job);
    add_step(&mut steps, Step::LoadSweep(vcd.clone()));
    add_step(&mut steps, Step::Analyze);
    steps
}

/// The supply of an analysis: what the job says, or the nominal one of the library.
pub fn supply(job: &PwrJob, nominal: Double) -> (r: Double)
    ensures
        r == match job@.vdd {
            Some(v) => v,
            None => nominal,
        },
{
    match job.vdd {
        Some(v) => v,
        None => nominal,
    }
}

/// The name of the activity source of a job in reports.
pub open spec fn source_mode_text(j: JobView) -> Seq<char> {
    if j.saif is Some {
        "vectored (SAIF)"@
    } else if j.vcd is Some {
        "vectored (VCD)"@
    } else if j.fst is Some {
        "vectored (FST)"@
    } else {
        "vectorless"@
    }
}

/// Names the activity source of a job: that of the dump which its steps load.
pub fn source_mode(job: &PwrJob) -> (r: &'static str)
    ensures
        r@ == source_mode_text(job@),
{
    if job.saif.is_some() {
        "vectored (SAIF)"
    } else if job.vcd.is_some() {
        "vectored (VCD)"
    } else if job.fst.is_some() {
        "vectored (FST)"
    } else {
        "vectorless"
    }
}

/// A sweep that measured no window is refused.
pub fn check_windows(n: usize) -> (r: Result<(), String>)
    ensures
        r is Ok <==> n > 0,
        r matches Err(m) ==> m@
            == "activity_sweep measured no windows — check its range against the dump"@,
{
    if n == 0 {
        Err("activity_sweep measured no windows — check its range against the dump".to_owned())
    } else {
        Ok(())
    }
}

/// An accepted job can be analyzed: none of its steps is to fail for what the job
/// says, and where it has a sweep, neither is one of the sweep's.
pub proof fn an_accepted_job_can_be_analyzed(text: Seq<char>, base_dir: Seq<char>, nums: Numerals)
    requires
        parsed(text, base_dir, nums) is Ok,
    ensures
        forall|i: int|
            0 <= i < analysis_steps(parsed(text, base_dir, nums)->Ok_0).len() ==> !(
            #[trigger] analysis_steps(parsed(text, base_dir, nums)->Ok_0)[i] is Fail),
        parsed(text, base_dir, nums)->Ok_0.activity_sweep is Some ==> forall|i: int|
            0 <= i < sweep_steps(parsed(text, base_dir, nums)->Ok_0).len() ==> !(
            #[trigger] sweep_steps(parsed(text, base_dir, nums)->Ok_0)[i] is Fail),
{
    crate::job::an_accepted_job_is_consistent(text, base_dir, nums);
}

// ---- notices -------------------------------------------------------------------

/// A notice about the inputs.
#[verifier::ext_equal]
pub struct NoticeView {
    /// The notice asks for attention.
    pub attention: bool,
    pub code: Seq<char>,
    pub message: Seq<char>,
    /// What of the design it is about.
    pub objects: Seq<Seq<char>>,
}

/// A `NoticeView`, in executable form.
#[derive(Debug)]
pub struct Notice {
    pub attention: bool,
    pub code: String,
    pub message: String,
    pub objects: Vec<String>,
}

impl View for Notice {
    type V = NoticeView;

    open spec fn view(&self) -> NoticeView {
        NoticeView {
            attention: self.attention,
            code: self.code@,
            message: self.message@,
            objects: self.objects.deep_view(),
        }
    }
}

/// The views of the notices, in order.
pub open spec fn notice_views(notices: Seq<Notice>) -> Seq<NoticeView> {
    notices.map_values(|n: Notice| n@)
}

/// An optional notice by its view.
pub open spec fn opt_notice(n: Option<Notice>) -> Option<NoticeView> {
    match n {
        Some(x) => Some(x@),
        None => None,
    }
}

/// A notice about no object in particular.
pub open spec fn plain_notice(attention: bool, code: Seq<char>, message: Seq<char>) -> NoticeView {
    NoticeView { attention, code, message, objects: Seq::empty() }
}

fn notice(attention: bool, code: &str, message: String) -> (r: Notice)
    ensures
        r@ == plain_notice(attention, code@, message@),
{
    let r = Notice { attention, code: code.to_owned(), message, objects: Vec::new() };
    assert(r@.objects =~= Seq::<Seq<char>>::empty());
    r
}

/// The nets that the leaves name, as objects of a notice.
pub open spec fn net_objects(leaves: Seq<Seq<char>>) -> Seq<Seq<char>> {
    leaves.map_values(|l: Seq<char>| "net:"@ + l)
}

/// The notice about leaf names in several scopes: none where there are no such
/// names, or a scope tells them apart.
pub open spec fn collision_notice_of(
    leaves: Seq<Seq<char>>,
    scope: Option<Seq<char>>,
) -> Option<NoticeView> {
    if leaves.len() > 0 && scope is None {
        Some(
            NoticeView {
                attention: true,
                code: "POWER-SCOPE-COLLISION"@,
                message: decimal_text(leaves.len())
                    + " net name(s) appear in multiple scopes; set 'scope:' to disambiguate (ambiguous nets fall back to the vectorless factor)"@,
                objects: net_objects(leaves),
            },
        )
    } else {
        None
    }
}

/// Warns of leaf names in several scopes.
pub fn collision_notice(leaves: &Vec<String>, scope: &Option<String>) -> (r: Option<Notice>)
    ensures
        opt_notice(r) == collision_notice_of(leaves.deep_view(), opt_text(*scope)),
{
    let ghost all = leaves.deep_view();
    let n: usize = leaves.len();
    assert(all.len() == n);
    if n == 0 || scope.is_some() {
        return None;
    }
    let mut objects: Vec<String> = Vec::new();
    let mut i: usize = 0;
    while i < n
        invariant
            n == leaves@.len(),
            all == leaves.deep_view(),
            i <= n,
            objects.deep_view() == net_objects(all.take(i as int)),
        decreases n - i,
    {
        let ghost before = objects.deep_view();
        let mut o = "net:".to_owned();
        o.append(leaves[i].as_str());
        let ghost v = o@;
        objects.push(o);
        proof {
            assert(objects.deep_view() =~= before.push(v));
            assert(net_objects(all.take(i + 1)) =~= before.push("net:"@ + all[i as int]));
        }
        i += 1;
    }
    assert(all.take(n as int) =~= all);
    let mut message = count_text(n);
    message.append(
        " net name(s) appear in multiple scopes; set 'scope:' to disambiguate (ambiguous nets fall back to the vectorless factor)",
    );
    Some(
        Notice { attention: true, code: "POWER-SCOPE-COLLISION".to_owned(), message, objects },
    )
}

/// The notice about a window that measures nothing: the job has one, and what it
/// measures has no length.
pub open spec fn window_notice_of(
    window: Option<(Double, Option<Double>)>,
    sim_time_s: Double,
) -> Option<NoticeView> {
    if window is Some && sim_time_s.at_most(Double { bits: ZERO_BITS }) {
        Some(
            plain_notice(
                true,
                "POWER-ACTIVITY-WINDOW-EMPTY"@,
                "activity_window is empty or outside the dump; nets fall back to the vectorless factor"@,
            ),
        )
    } else {
        None
    }
}

/// Warns of a window that measures nothing.
pub fn window_notice(window: Option<(Double, Option<Double>)>, sim_time_s: Double) -> (r: Option<
    Notice,
>)
    ensures
        opt_notice(r) == window_notice_of(window, sim_time_s),
{
    if window.is_some() && sim_time_s.le(&Double { bits: ZERO_BITS }) {
        Some(
            notice(
                true,
                "POWER-ACTIVITY-WINDOW-EMPTY",
                "activity_window is empty or outside the dump; nets fall back to the vectorless factor".to_owned(),
            ),
        )
    } else {
        None
    }
}

/// The numbers of a sweep notice, as they are shown: times in nanoseconds and the
/// peak in milliwatts with three decimals, and the ratio with two.
#[derive(Debug)]
pub struct SweepNoticeFigures {
    pub window_ns: String,
    pub peak_from_ns: String,
    pub peak_to_ns: String,
    pub peak_mw: String,
    pub peak_to_mean: String,
}

/// The notice about a sweep that is done.
pub open spec fn sweep_notice_of(windows: nat, peak: nat, fig: SweepNoticeFigures) -> NoticeView {
    plain_notice(
        false,
        "POWER-SWEEP"@,
        "swept "@ + decimal_text(windows) + " window(s) of "@ + fig.window_ns@
            + " ns over one parse; peak window #"@ + decimal_text(peak) + " ["@ + fig.peak_from_ns@
            + " ns, "@ + fig.peak_to_ns@ + " ns) at "@ + fig.peak_mw@ + " mW ("@
            + fig.peak_to_mean@ + "x the mean)"@,
    )
}

/// Tells of a sweep that is done.
pub fn sweep_notice(windows: usize, peak: usize, fig: &SweepNoticeFigures) -> (r: Notice)
    ensures
        r@ == sweep_notice_of(windows as nat, peak as nat, *fig),
{
    let mut s = "swept ".to_owned();
    s.append(count_text(windows).as_str());
    s.append(" window(s) of ");
    s.append(fig.window_ns.as_str());
    s.append(" ns over one parse; peak window #");
    s.append(count_text(peak).as_str());
    s.append(" [");
    s.append(fig.peak_from_ns.as_str());
    s.append(" ns, ");
    s.append(fig.peak_to_ns.as_str());
    s.append(" ns) at ");
    s.append(fig.peak_mw.as_str());
    s.append(" mW (");
    s.append(fig.peak_to_mean.as_str());
    s.append("x the mean)");
    notice(false, "POWER-SWEEP", s)
}

// ---- how much of the design the inputs cover -----------------------------------

/// How the instances of the netlist find their cells.
#[derive(Clone, Copy, Debug)]
pub struct NetlistCounts {
    pub instances: usize,
    pub masters: usize,
    pub analysable: usize,
    pub physical_only: usize,
    pub unresolved_signal: usize,
}

/// How much of the library the design uses.
#[derive(Clone, Copy, Debug)]
pub struct LibertyCounts {
    pub cells_in_lib: usize,
    pub resolved_masters: usize,
}

/// How many nets the activity source names, with their share in percent to one
/// decimal.
#[derive(Debug)]
pub struct ActivityCounts {
    pub hit: usize,
    pub total: usize,
    pub percent_text: String,
}

/// How many nets the parasitics cover, with their share in percent to one decimal.
#[derive(Debug)]
pub struct SpefCounts {
    pub matched: usize,
    pub design_nets: usize,
    pub file_nets: usize,
    pub percent_text: String,
    /// The file was read and matches nothing of the design.
    pub read_but_unmatched: bool,
    /// The file has no nets.
    pub empty: bool,
}

/// What each input covers.
#[derive(Debug)]
pub struct InputCounts {
    pub netlist: NetlistCounts,
    pub liberty: LibertyCounts,
    pub activity: ActivityCounts,
    pub spef: Option<SpefCounts>,
}

/// The notice about the netlist. A cell that the library lacks is no error here:
/// it contributes nothing, so it is missing power.
pub open spec fn netlist_notice(c: NetlistCounts) -> NoticeView {
    plain_notice(
        c.unresolved_signal > 0 || c.instances == 0,
        "POWER-NETLIST"@,
        "netlist: "@ + decimal_text(c.instances as nat) + " instance(s) of "@ + decimal_text(
            c.masters as nat,
        ) + " master(s); "@ + decimal_text(c.analysable as nat) + " with a library cell, "@
            + decimal_text(c.physical_only as nat) + " physical-only, "@ + decimal_text(
            c.unresolved_signal as nat,
        ) + " with signal pins have NO library cell (they contribute no power)"@,
    )
}

/// The notice about a library that does not tell registers from gates.
pub open spec fn grouping_notice() -> NoticeView {
    plain_notice(
        true,
        "POWER-CLOCK-GROUPING"@,
        "liberty: no cell declares an ff/latch group or a `clock : true` pin — the sequential/clock split falls back to cell shape (single-input repeaters only)"@,
    )
}

/// The notice about the library.
pub open spec fn liberty_notice(c: LibertyCounts) -> NoticeView {
    plain_notice(
        c.resolved_masters == 0,
        "POWER-LIBERTY"@,
        "liberty: "@ + decimal_text(c.cells_in_lib as nat) + " cell(s) loaded, "@ + decimal_text(
            c.resolved_masters as nat,
        ) + " used by the design"@,
    )
}

/// The source names less than half of the nets, or there are none to name.
pub open spec fn names_too_few(c: ActivityCounts) -> bool {
    c.total == 0 || 2 * c.hit < c.total
}

/// The notice about the activity. A source that names less than half of the nets
/// asks for attention: the numbers are then mostly the uniform estimate.
pub open spec fn activity_notice(mode: Seq<char>, c: ActivityCounts) -> NoticeView {
    if mode == "vectorless"@ {
        plain_notice(
            false,
            "POWER-ACTIVITY"@,
            "activity: vectorless — a uniform estimate over all "@ + decimal_text(c.total as nat)
                + " net(s)"@,
        )
    } else {
        plain_notice(
            names_too_few(c),
            "POWER-ACTIVITY"@,
            "activity: "@ + mode + " names "@ + decimal_text(c.hit as nat) + " of "@ + decimal_text(
                c.total as nat,
            ) + " net(s) ("@ + c.percent_text@ + "%); the remaining "@ + decimal_text(
                (c.total - c.hit) as nat,
            ) + " take the vectorless fallback"@,
        )
    }
}

/// The notice about the parasitics.
pub open spec fn spef_notice(c: SpefCounts) -> NoticeView {
    plain_notice(
        c.read_but_unmatched || c.empty,
        "POWER-SPEF"@,
        "SPEF covers "@ + decimal_text(c.matched as nat) + " of "@ + decimal_text(
            c.design_nets as nat,
        ) + " design net(s) ("@ + c.percent_text@ + "%); "@ + decimal_text(c.file_nets as nat)
            + " net(s) in the file"@,
    )
}

/// The notices about the inputs, in order.
pub open spec fn coverage_notices(
    declares_seq: bool,
    mode: Seq<char>,
    counts: InputCounts,
) -> Seq<NoticeView> {
    seq![netlist_notice(counts.netlist)] + (if declares_seq {
        Seq::empty()
    } else {
        seq![grouping_notice()]
    }) + seq![liberty_notice(counts.liberty), activity_notice(mode, counts.activity)] + (
    match counts.spef {
        Some(c) => seq![spef_notice(c)],
        None => Seq::empty(),
    })
}

fn netlist_note(c: &NetlistCounts) -> (r: Notice)
    ensures
        r@ == netlist_notice(*c),
{
    let mut s = "netlist: ".to_owned();
    s.append(count_text(c.instances).as_str());
    s.append(" instance(s) of ");
    s.append(count_text(c.masters).as_str());
    s.append(" master(s); ");
    s.append(count_text(c.analysable).as_str());
    s.append(" with a library cell, ");
    s.append(count_text(c.physical_only).as_str());
    s.append(" physical-only, ");
    s.append(count_text(c.unresolved_signal).as_str());
    s.append(" with signal pins have NO library cell (they contribute no power)");
    notice(c.unresolved_signal > 0 || c.instances == 0, "POWER-NETLIST", s)
}

fn liberty_note(c: &LibertyCounts) -> (r: Notice)
    ensures
        r@ == liberty_notice(*c),
{
    let mut s = "liberty: ".to_owned();
    s.append(count_text(c.cells_in_lib).as_str());
    s.append(" cell(s) loaded, ");
    s.append(count_text(c.resolved_masters).as_str());
    s.append(" used by the design");
    notice(c.resolved_masters == 0, "POWER-LIBERTY", s)
}

fn activity_note(mode: &str, c: &ActivityCounts) -> (r: Notice)
    requires
        c.hit <= c.total,
    ensures
        r@ == activity_notice(mode@, *c),
{
    if str_eq(mode, "vectorless") {
        let mut s = "activity: vectorless — a uniform estimate over all ".to_owned();
        s.append(count_text(c.total).as_str());
        s.append(" net(s)");
        notice(false, "POWER-ACTIVITY", s)
    } else {
        let mut s = "activity: ".to_owned();
        s.append(mode);
        s.append(" names ");
        s.append(count_text(c.hit).as_str());
        s.append(" of ");
        s.append(count_text(c.total).as_str());
        s.append(" net(s) (");
        s.append(c.percent_text.as_str());
        s.append("%); the remaining ");
        s.append(count_text(c.total - c.hit).as_str());
        s.append(" take the vectorless fallback");
        notice(c.total == 0 || c.hit < c.total - c.hit, "POWER-ACTIVITY", s)
    }
}

fn spef_note(c: &SpefCounts) -> (r: Notice)
    ensures
        r@ == spef_notice(*c),
{
    let mut s = "SPEF covers ".to_owned();
    s.append(count_text(c.matched).as_str());
    s.append(" of ");
    s.append(count_text(c.design_nets).as_str());
    s.append(" design net(s) (");
    s.append(c.percent_text.as_str());
    s.append("%); ");
    s.append(count_text(c.file_nets).as_str());
    s.append(" net(s) in the file");
    notice(c.read_but_unmatched || c.empty, "POWER-SPEF", s)
}

fn add_notice(notices: &mut Vec<Notice>, n: Notice)
    ensures
        notice_views(final(notices)@) == notice_views(old(notices)@).push(n@),
{
    let ghost before = notice_views(notices@);
    let ghost v = n@;
    notices.push(n);
    assert(notice_views(notices@) =~= before.push(v));
}

/// Tells how much of the design each input covers.
pub fn input_coverage(nl: &Netlist, lib: &Lib, mode: &str, counts: &InputCounts) -> (r: Vec<Notice>)
    requires
        counts.activity.hit <= counts.activity.total,
    ensures
        notice_views(r@) == coverage_notices(declares_sequential(*nl, *lib), mode@, *counts),
{
    let declares_seq = library_declares_sequential(nl, lib);
    let mut notices: Vec<Notice> = Vec::new();
    assert(notice_views(notices@) =~= Seq::<NoticeView>::empty());
    add_notice(&mut notices, netlist_note(&counts.netlist));
    if !declares_seq {
        add_notice(
            &mut notices,
            notice(
                true,
                "POWER-CLOCK-GROUPING",
                "liberty: no cell declares an ff/latch group or a `clock : true` pin — the sequential/clock split falls back to cell shape (single-input repeaters only)".to_owned(),
            ),
        );
    }
    add_notice(&mut notices, liberty_note(&counts.liberty));
    add_notice(&mut notices, activity_note(mode, &counts.activity));
    if let Some(c) = &counts.spef {
        add_notice(&mut notices, spef_note(c));
    }
    assert(notice_views(notices@) =~= coverage_notices(
        declares_sequential(*nl, *lib),
        mode@,
        *counts,
    ));
    notices
}

// ---- the nets of the design ----------------------------------------------------

/// A net of one of the first `n` instances.
pub open spec fn is_conn_net(nl: Netlist, n: int, net: Seq<char>) -> bool {
    exists|i: int, c: int|
        0 <= i < n && 0 <= c < nl.insts@[i].conns@.len() && (#[trigger] nl.insts@[i].conns@[c]).net@
            == net
}

/// A net of the design: of an instance, or a port where `ports` asks for those.
pub open spec fn is_design_net(nl: Netlist, ports: bool, net: Seq<char>) -> bool {
    is_conn_net(nl, nl.insts@.len() as int, net) || (ports && (nl.inputs.deep_view().contains(net)
        || nl.outputs.deep_view().contains(net)))
}

/// Distinct names, and the set of them.
struct Names {
    list: Vec<String>,
    seen: StringHashSet,
}

impl Names {
    spec fn sound(self) -> bool {
        &&& self.list.deep_view().no_duplicates()
        &&& forall|x: Seq<char>| #[trigger]
            self.seen@.contains(x) <==> self.list.deep_view().contains(x)
    }

    fn add(&mut self, name: &str)
        requires
            old(self).sound(),
        ensures
            final(self).sound(),
            forall|x: Seq<char>| #[trigger]
                final(self).seen@.contains(x) <==> old(self).seen@.contains(x) || x == name@,
    {
        if self.seen.contains(name) {
            return;
        }
        let ghost before = self.list.deep_view();
        self.list.push(name.to_owned());
        self.seen.insert(name.to_owned());
        proof {
            let now = self.list.deep_view();
            assert(now =~= before.push(name@));
            assert(!before.contains(name@));
            assert forall|x: Seq<char>| #[trigger]
                self.seen@.contains(x) <==> now.contains(x) by {
                if before.contains(x) {
                    assert(now[before.index_of(x)] == x);
                }
                if x == name@ {
                    assert(now[before.len() as int] == x);
                }
                if now.contains(x) && x != name@ {
                    assert(before[now.index_of(x)] == x);
                }
            }
            assert forall|i: int, j: int|
                0 <= i < now.len() && 0 <= j < now.len() && i != j implies now[i] != now[j] by {
                if i < before.len() {
                    assert(before.contains(before[i]));
                }
                if j < before.len() {
                    assert(before.contains(before[j]));
                }
            }
        }
    }

    fn add_all(&mut self, names: &Vec<String>)
        requires
            old(self).sound(),
        ensures
            final(self).sound(),
            forall|x: Seq<char>| #[trigger]
                final(self).seen@.contains(x) <==> old(self).seen@.contains(x)
                    || names.deep_view().contains(x),
    {
        let ghost before = self.seen@;
        let ghost all = names.deep_view();
        let n: usize = names.len();
        let mut i: usize = 0;
        while i < n
            invariant
                n == names@.len(),
                all == names.deep_view(),
                i <= n,
                self.sound(),
                forall|x: Seq<char>| #[trigger]
                    self.seen@.contains(x) <==> before.contains(x) || all.take(i as int).contains(x),
            decreases n - i,
        {
            let ghost now = self.seen@;
            self.add(names[i].as_str());
            proof {
                let a = all.take(i as int);
                let b = all.take(i + 1);
                assert(b =~= a.push(all[i as int]));
                assert(all[i as int] == names@[i as int]@);
                assert forall|x: Seq<char>| #[trigger]
                    self.seen@.contains(x) <==> before.contains(x) || b.contains(x) by {
                    assert(now.contains(x) <==> before.contains(x) || a.contains(x));
                    if a.contains(x) {
                        assert(b[a.index_of(x)] == x);
                    }
                    if b.contains(x) && x != all[i as int] {
                        assert(a[b.index_of(x)] == x);
                    }
                    assert(b[i as int] == all[i as int]);
                }
            }
            i += 1;
        }
        assert(all.take(n as int) =~= all);
    }
}

/// Lists the nets of the design, each once: those of the instances, and the ports
/// where `ports` asks for them.
pub fn design_nets(nl: &Netlist, ports: bool) -> (r: Vec<String>)
    ensures
        r.deep_view().no_duplicates(),
        forall|net: Seq<char>|
            r.deep_view().contains(net) <==> is_design_net(*nl, ports, net),
{
    let mut names = Names { list: Vec::new(), seen: StringHashSet::new() };
    let n: usize = nl.insts.len();
    let mut i: usize = 0;
    while i < n
        invariant
            n == nl.insts@.len(),
            i <= n,
            names.sound(),
            forall|x: Seq<char>| #[trigger]
                names.seen@.contains(x) <==> is_conn_net(*nl, i as int, x),
        decreases n - i,
    {
        let inst = &nl.insts[i];
        let ghost before = names.seen@;
        let m: usize = inst.conns.len();
        let mut c: usize = 0;
        while c < m
            invariant
                m == inst.conns@.len(),
                c <= m,
                names.sound(),
                forall|x: Seq<char>| #[trigger]
                    names.seen@.contains(x) <==> before.contains(x) || exists|k: int|
                        0 <= k < c && (#[trigger] inst.conns@[k]).net@ == x,
            decreases m - c,
        {
            let ghost now = names.seen@;
            names.add(inst.conns[c].net.as_str());
            proof {
                assert forall|x: Seq<char>| #[trigger]
                    names.seen@.contains(x) <==> before.contains(x) || exists|k: int|
                        0 <= k < c + 1 && (#[trigger] inst.conns@[k]).net@ == x by {
                    assert(now.contains(x) <==> before.contains(x) || exists|k: int|
                        0 <= k < c && (#[trigger] inst.conns@[k]).net@ == x);
                    if x == inst.conns@[c as int].net@ {
                        assert(inst.conns@[c as int].net@ == x);
                    }
                }
            }
            c += 1;
        }
        proof {
            assert forall|x: Seq<char>| #[trigger]
                names.seen@.contains(x) <==> is_conn_net(*nl, i + 1, x) by {
                assert(before.contains(x) <==> is_conn_net(*nl, i as int, x));
                if before.contains(x) {
                    let (a, b) = choose|a: int, b: int|
                        0 <= a < i && 0 <= b < nl.insts@[a].conns@.len()
                            && (#[trigger] nl.insts@[a].conns@[b]).net@ == x;
                    assert(nl.insts@[a].conns@[b].net@ == x);
                }
                if exists|k: int| 0 <= k < m && (#[trigger] inst.conns@[k]).net@ == x {
                    let k = choose|k: int| 0 <= k < m && (#[trigger] inst.conns@[k]).net@ == x;
                    assert(nl.insts@[i as int].conns@[k].net@ == x);
                }
                if is_conn_net(*nl, i + 1, x) {
                    let (a, b) = choose|a: int, b: int|
                        0 <= a < i + 1 && 0 <= b < nl.insts@[a].conns@.len()
                            && (#[trigger] nl.insts@[a].conns@[b]).net@ == x;
                    if a < i {
                        assert(nl.insts@[a].conns@[b].net@ == x);
                        assert(is_conn_net(*nl, i as int, x));
                    } else {
                        assert(inst.conns@[b].net@ == x);
                    }
                }
            }
        }
        i += 1;
    }
    if ports {
        names.add_all(&nl.inputs);
        names.add_all(&nl.outputs);
    }
    proof {
        assert forall|net: Seq<char>|
            names.list.deep_view().contains(net) <==> is_design_net(*nl, ports, net) by {
            assert(names.seen@.contains(net) <==> names.list.deep_view().contains(net));
        }
    }
    names.list
}

/// The nets of the design.
pub open spec fn design_set(nl: Netlist, ports: bool) -> Set<Seq<char>> {
    Set::new(|net: Seq<char>| is_design_net(nl, ports, net))
}

proof fn lemma_named_as_set<S: ToggleSource>(src: S, nets: Seq<Seq<char>>, n: int)
    requires
        nets.no_duplicates(),
        0 <= n <= nets.len(),
    ensures
        nets.take(n).to_set().filter(|net: Seq<char>| src.rate_of(net).positive()).finite(),
        named(src, nets, n) == nets.take(n).to_set().filter(
            |net: Seq<char>| src.rate_of(net).positive(),
        ).len(),
    decreases n,
{
    let p = |net: Seq<char>| src.rate_of(net).positive();
    if n == 0 {
        assert(nets.take(0).to_set().filter(p) =~= Set::empty());
    } else {
        lemma_named_as_set(src, nets, n - 1);
        let before = nets.take(n - 1);
        let x = nets[n - 1];
        assert(nets.take(n) =~= before.push(x));
        assert(!before.contains(x)) by {
            if before.contains(x) {
                let k = before.index_of(x);
                assert(nets[k] == x);
            }
        }
        assert forall|y: Seq<char>| nets.take(n).contains(y) <==> before.contains(y) || y == x by {
            if before.contains(y) {
                assert(nets.take(n)[before.index_of(y)] == y);
            }
            assert(nets.take(n)[n - 1] == x);
        }
        if p(x) {
            assert(nets.take(n).to_set().filter(p) =~= before.to_set().filter(p).insert(x));
        } else {
            assert(nets.take(n).to_set().filter(p) =~= before.to_set().filter(p));
        }
    }
}

/// How many nets of the design the activity source names, and how many there are.
pub fn net_coverage<S: ToggleSource>(nl: &Netlist, ports: bool, act: &Activity<S>) -> (r: (
    usize,
    usize,
))
    ensures
        r.0 == design_set(*nl, ports).filter(|net: Seq<char>| act.covers(net)).len(),
        r.1 == design_set(*nl, ports).len(),
        r.0 <= r.1,
{
    let nets = design_nets(nl, ports);
    let ghost v = nets.deep_view();
    let r = act.coverage(&nets);
    proof {
        v.unique_seq_to_set();
        assert(v.to_set() =~= design_set(*nl, ports));
        assert(v.take(v.len() as int) =~= v);
        match act {
            Activity::Vectored { src, .. } => {
                lemma_named_as_set(*src, v, v.len() as int);
                assert(design_set(*nl, ports).filter(|net: Seq<char>| act.covers(net))
                    =~= v.to_set().filter(|net: Seq<char>| src.rate_of(net).positive()));
            },
            Activity::Vectorless { .. } => {
                assert(design_set(*nl, ports).filter(|net: Seq<char>| act.covers(net))
                    =~= Set::empty());
            },
        }
    }
    r
}

/// The counts of an analysis, with those of the nets of the design that the activity
/// covers.
pub open spec fn counts_with<S: ToggleSource>(
    nl: Netlist,
    act: Activity<S>,
    netlist: NetlistCounts,
    liberty: LibertyCounts,
    percent_text: String,
    spef: Option<SpefCounts>,
) -> InputCounts {
    InputCounts {
        netlist,
        liberty,
        activity: ActivityCounts {
            hit: design_set(nl, true).filter(|net: Seq<char>| act.covers(net)).len() as usize,
            total: design_set(nl, true).len() as usize,
            percent_text,
        },
        spef,
    }
}

/// Tells how much of the design each input of an analysis covers. The nets that the
/// activity covers are counted here, over the design with its ports;
/// `percent_text` is their share in percent to one decimal.
pub fn analysis_notices<S: ToggleSource>(
    nl: &Netlist,
    lib: &Lib,
    act: &Activity<S>,
    netlist: NetlistCounts,
    liberty: LibertyCounts,
    percent_text: String,
    spef: Option<SpefCounts>,
) -> (r: Vec<Notice>)
    ensures
        design_set(*nl, true).len() <= usize::MAX,
        design_set(*nl, true).filter(|net: Seq<char>| act.covers(net)).len() <= design_set(
            *nl,
            true,
        ).len(),
        notice_views(r@) == coverage_notices(
            declares_sequential(*nl, *lib),
            act.mode_text(),
            counts_with(*nl, *act, netlist, liberty, percent_text, spef),
        ),
{
    let (hit, total) = net_coverage(nl, true, act);
    let activity = ActivityCounts { hit, total, percent_text };
    let counts = InputCounts { netlist, liberty, activity, spef };
    input_coverage(nl, lib, act.mode(), &counts)
}

} // verus!
