//! What the models of the types show: every field, as it is.

use crate::cli::{Action, ActionView, Cli, Flag};
use crate::engine::{notice_views, opt_notice, step_views, Notice, Step, StepView};
use crate::job::{is_below, is_driveless, is_relative, is_rooted, PwrJob};
use crate::names::{opt_text, NetIndex};
use crate::power::{terms_views, InstTerms};
use crate::render::{row_totals, RowFigures};
use crate::saif::{
    file_in, file_of, net_views, opt_texts, readable, reading, tok_views, walkable, Net, Node, SaifFile, Tok, TokView, Tree,
};
use crate::text::words;
use crate::units::Timescale;
use crate::vcd::{dump_events, event_views, events, mark_views, Event, EventView, Mark};
use vstd::prelude::*;

verus! {

/// An optional text is shown where there is one.
pub proof fn an_optional_text_is_shown(s: Option<String>, v: Option<Vec<String>>, n: Option<Notice>)
    ensures
        s is None <==> opt_text(s) is None,
        s matches Some(t) ==> opt_text(s) == Some(t@),
        v is None <==> opt_texts(v) is None,
        v matches Some(t) ==> opt_texts(v) == Some(t.deep_view()),
        n is None <==> opt_notice(n) is None,
        n matches Some(t) ==> opt_notice(n) == Some(t@),
{
}

/// A command line shows its words, its file and its flags.
pub proof fn a_command_line_is_shown(c: Cli)
    ensures
        c@.positionals == c.positionals.deep_view(),
        c.out is None <==> c@.out is None,
        c.out matches Some(f) ==> c@.out == Some(f@),
        c@.flags.contains(Flag::Json) <==> c.json,
        c@.flags.contains(Flag::Quiet) <==> c.quiet,
        c@.flags.contains(Flag::Verbose) <==> c.verbose,
        c@.flags.contains(Flag::FailOnBudget) <==> c.fail_on_budget,
        c@.flags.contains(Flag::Help) <==> c.help,
        c@.flags.contains(Flag::Version) <==> c.version,
        c@.flags.contains(Flag::BugReport) <==> c.bug_report,
        c@.flags.contains(Flag::FeatureRequest) <==> c.feature_request,
        c@.flags.contains(Flag::Sponsor) <==> c.sponsor,
        c@.flags.contains(Flag::Star) <==> c.star,
{
}

/// An action shows what is to be done, and with what.
pub proof fn an_action_is_shown(a: Action)
    ensures
        a matches Action::Open(p) ==> a@ == ActionView::Open(p),
        a is ShowVersion ==> a@ == ActionView::ShowVersion,
        a matches Action::ShowUsage(code) ==> a@ == ActionView::ShowUsage(code as int),
        a is Demo ==> a@ == ActionView::Demo,
        a is CheckUsage ==> a@ == ActionView::CheckUsage,
        a matches Action::Check(p) ==> a@ == ActionView::Check(p@),
        a is RunUsage ==> a@ == ActionView::RunUsage,
        a matches Action::Run(p) ==> a@ == ActionView::Run(p@),
        a matches Action::Unknown(c) ==> a@ == ActionView::Unknown(c@),
{
}

/// A step shows what is to be done, and with what.
pub proof fn a_step_is_shown(s: Step)
    ensures
        s matches Step::LoadNetlist(p) ==> s@ == StepView::LoadNetlist(p@),
        s matches Step::LoadLib(p) ==> s@ == StepView::LoadLib(p@),
        s matches Step::LoadSaif(p) ==> s@ == StepView::LoadSaif(p@),
        s matches Step::LoadVcd(p) ==> s@ == StepView::LoadVcd(p@),
        s matches Step::LoadFst(p) ==> s@ == StepView::LoadFst(p@),
        s matches Step::LoadSweep(p) ==> s@ == StepView::LoadSweep(p@),
        s matches Step::LoadSpef(p) ==> s@ == StepView::LoadSpef(p@),
        s is Analyze ==> s@ == StepView::Analyze,
        s matches Step::Fail(m) ==> s@ == StepView::Fail(m@),
{
}

/// A notice shows its fields.
pub proof fn a_notice_is_shown(n: Notice)
    ensures
        n@.attention == n.attention,
        n@.code == n.code@,
        n@.message == n.message@,
        n@.objects == n.objects.deep_view(),
{
}

/// A job shows its fields.
pub proof fn a_job_is_shown(j: PwrJob)
    ensures
        j@.design == j.design@,
        j@.netlist == j.netlist@,
        j@.libs == j.libs.deep_view(),
        j@.clock_port == j.clock_port@,
        j@.period_ns == j.period_ns,
        j@.vdd == j.vdd,
        j@.activity_window == j.activity_window,
        j@.activity_sweep == j.activity_sweep,
        j@.activity_factor == j.activity_factor,
        j@.default_wire_cap_pf == j.default_wire_cap_pf,
        j@.power_budget_mw == j.power_budget_mw,
        j@.base_dir == j.base_dir@,
        j.vcd is None <==> j@.vcd is None,
        j.vcd matches Some(t) ==> j@.vcd == Some(t@),
        j.saif is None <==> j@.saif is None,
        j.saif matches Some(t) ==> j@.saif == Some(t@),
        j.fst is None <==> j@.fst is None,
        j.fst matches Some(t) ==> j@.fst == Some(t@),
        j.scope is None <==> j@.scope is None,
        j.scope matches Some(t) ==> j@.scope == Some(t@),
        j.spef is None <==> j@.spef is None,
        j.spef matches Some(t) ==> j@.spef == Some(t@),
        j.emit_activity is None <==> j@.emit_activity is None,
        j.emit_activity matches Some(t) ==> j@.emit_activity == Some(t@),
        j.emit_power_vcd is None <==> j@.emit_power_vcd is None,
        j.emit_power_vcd matches Some(t) ==> j@.emit_power_vcd == Some(t@),
{
}

/// An index of nets shows its counts, its leaves and its scope.
pub proof fn an_index_is_shown(x: NetIndex, leaf: Seq<char>)
    ensures
        x@.toggles == x.toggles@,
        x@.by_leaf.contains_key(leaf) <==> x.by_leaf@.contains_key(leaf),
        x.by_leaf@.contains_key(leaf) ==> x@.by_leaf[leaf] == x.by_leaf@[leaf].deep_view(),
        x.scope is None <==> x@.scope is None,
        x.scope matches Some(t) ==> x@.scope == Some(t@),
{
}

/// The terms of an instance show their fields.
pub proof fn terms_are_shown(t: InstTerms)
    ensures
        t@.inst == t.inst@,
        t@.cell == t.cell@,
        t@.out_net == t.out_net@,
        t@.toggle_rate == t.toggle_rate,
        t@.group == t.group,
        t@.leakage_w == t.leakage_w,
        t@.int_energy_j == t.int_energy_j,
        t@.sink_caps_f == t.sink_caps_f@,
        t@.wire == t.wire,
{
}

/// What a SAIF file says shows its fields, and so does a net of it.
pub proof fn a_net_is_shown(n: Net, f: SaifFile)
    ensures
        n@.path == n.path@,
        n.tc is None <==> n@.tc is None,
        n.tc matches Some(t) ==> n@.tc == Some(t@),
        n.t0 is None <==> n@.t0 is None,
        n.t0 matches Some(t) ==> n@.t0 == Some(t@),
        n.t1 is None <==> n@.t1 is None,
        n.t1 matches Some(t) ==> n@.t1 == Some(t@),
        n.tx is None <==> n@.tx is None,
        n.tx matches Some(t) ==> n@.tx == Some(t@),
        f@.timescale == f.timescale@,
        f.duration is None <==> f@.duration is None,
        f.duration matches Some(t) ==> f@.duration == Some(t@),
        f@.nets == f.nets@.map_values(|x: Net| x@),
{
}

/// A token shows its kind and its text.
pub proof fn a_token_is_shown(t: Tok)
    ensures
        t is Open ==> t@ == TokView::Open,
        t is Close ==> t@ == TokView::Close,
        t matches Tok::Atom(a) ==> t@ == TokView::Atom(a@),
{
}

/// A node stands for the tree of its text or its parts.
pub proof fn a_node_is_shown(n: Node, i: int)
    ensures
        n matches Node::Atom(a) ==> n.tree() == Tree::Atom(a@),
        n matches Node::List(items) ==> n.tree() is List && n.tree()->List_0.len() == items@.len(),
        n matches Node::List(items) ==> (0 <= i < items@.len() ==> n.tree()->List_0[i]
            == items@[i].tree()),
{
}

/// A time scale shows its number and its unit, and a mark its ticks and its scale.
pub proof fn a_mark_is_shown(s: Timescale, m: Mark)
    ensures
        s@.mantissa == s.mantissa@,
        s@.unit == s.unit,
        m@.ticks == m.ticks,
        m@.scale == m.scale@,
{
}

/// An event shows its kind and what it tells.
pub proof fn an_event_is_shown(e: Event)
    ensures
        e matches Event::Scale(s) ==> e@ == EventView::Scale(s@),
        e matches Event::Declare(sym, name) ==> e@ == EventView::Declare(sym@, name@),
        e matches Event::Time(t) ==> e@ == EventView::Time(t),
        e matches Event::Scalar(sym, v) ==> e@ == EventView::Scalar(sym@, v),
        e matches Event::Vector(sym) ==> e@ == EventView::Vector(sym@),
{
}

/// A list of values shows each of them, in order.
pub proof fn lists_are_shown(
    steps: Seq<Step>,
    notices: Seq<Notice>,
    terms: Seq<InstTerms>,
    nets: Seq<Net>,
    toks: Seq<Tok>,
    evs: Seq<Event>,
    marks: Seq<Mark>,
    rows: Seq<RowFigures>,
    i: int,
)
    ensures
        step_views(steps).len() == steps.len(),
        0 <= i < steps.len() ==> step_views(steps)[i] == steps[i]@,
        notice_views(notices).len() == notices.len(),
        0 <= i < notices.len() ==> notice_views(notices)[i] == notices[i]@,
        terms_views(terms).len() == terms.len(),
        0 <= i < terms.len() ==> terms_views(terms)[i] == terms[i]@,
        net_views(nets).len() == nets.len(),
        0 <= i < nets.len() ==> net_views(nets)[i] == nets[i]@,
        tok_views(toks).len() == toks.len(),
        0 <= i < toks.len() ==> tok_views(toks)[i] == toks[i]@,
        event_views(evs).len() == evs.len(),
        0 <= i < evs.len() ==> event_views(evs)[i] == evs[i]@,
        mark_views(marks).len() == marks.len(),
        0 <= i < marks.len() ==> mark_views(marks)[i] == marks[i]@,
        row_totals(rows).len() == rows.len(),
        0 <= i < rows.len() ==> row_totals(rows)[i] == rows[i].total.value,
{
}

/// A dump is read by its words, and a SAIF text by its trees.
pub proof fn whole_texts_are_read(text: Seq<char>, root: Tree)
    ensures
        dump_events(text) == events(words(text)),
        reading(text) == Ok::<Tree, Seq<char>>(root) ==> file_in(text) == file_of(root),
        reading(text) == Ok::<Tree, Seq<char>>(root) ==> (readable(text) <==> walkable(root)),
        reading(text) is Err ==> readable(text),
{
}

/// Which paths are relative, and which start at the root; and where a relative one is
/// found below a directory.
pub proof fn paths_go_below_directories(path: Seq<char>, dir: Seq<char>, r: Seq<char>)
    ensures
        is_relative(path) <==> (forall|i: int|
            0 <= i < path.len() ==> #[trigger] path[i] != '\\' && path[i] != ':' && (i == 0 ==> path[i]
                != '/')),
        is_rooted(path) <==> path.len() > 0 && path[0] == '/',
        dir.len() > 0 && dir.last() == '/' ==> (is_below(dir, path, r) <==> r == dir + path),
        dir.len() > 0 && dir.last() != '/' && dir.last() != ':' ==> (is_below(dir, path, r) <==> r == dir
            + seq!['/'] + path || r == dir + seq!['\\'] + path),
        is_driveless(dir) && dir.len() > 1 && dir[0] == '/' ==> dir[1] != '/',
{
    assert(dir + seq!['/'] =~= dir.push('/'));
    assert(dir + seq!['\\'] =~= dir.push('\\'));
    if is_relative(path) {
        assert forall|i: int| 0 <= i < path.len() implies #[trigger] path[i] != '\\' && path[i] != ':'
            && (i == 0 ==> path[i] != '/') by {
            assert(path.contains(path[i]));
        }
    }
}

} // verus!
