//! What the command line promises.

use crate::cli::{
    action_of, check_text, flag_of, loaded_text, no_args, verdict_of, with_arg, with_args, ActionView, CliView,
    Flag, Page, Verdict,
};
use crate::double::Double;
use crate::job::{source_text, JobView};
use crate::text::decimal_text;
use vstd::prelude::*;

verus! {

// ---- arguments -----------------------------------------------------------------

/// The texts that stand for flags.
pub proof fn the_flags_have_these_names()
    ensures
        flag_of("--json"@) == Some(Flag::Json),
        flag_of("--fail-on-budget"@) == Some(Flag::FailOnBudget),
        flag_of("-q"@) == Some(Flag::Quiet) && flag_of("--quiet"@) == Some(Flag::Quiet),
        flag_of("-v"@) == Some(Flag::Verbose) && flag_of("--verbose"@) == Some(Flag::Verbose),
        flag_of("-h"@) == Some(Flag::Help) && flag_of("--help"@) == Some(Flag::Help),
        flag_of("-V"@) == Some(Flag::Version) && flag_of("--version"@) == Some(Flag::Version),
        flag_of("--bug-report"@) == Some(Flag::BugReport),
        flag_of("--feature-request"@) == Some(Flag::FeatureRequest),
        flag_of("--sponsor"@) == Some(Flag::Sponsor),
        flag_of("--star"@) == Some(Flag::Star),
{
    reveal_strlit("--json");
    reveal_strlit("--fail-on-budget");
    reveal_strlit("-q");
    reveal_strlit("--quiet");
    reveal_strlit("-v");
    reveal_strlit("--verbose");
    reveal_strlit("-h");
    reveal_strlit("--help");
    reveal_strlit("-V");
    reveal_strlit("--version");
    reveal_strlit("--bug-report");
    reveal_strlit("--feature-request");
    reveal_strlit("--sponsor");
    reveal_strlit("--star");
    assert("--json"@.len() == 6);
    assert("--fail-on-budget"@.len() == 16);
    assert("-q"@.len() == 2);
    assert("--quiet"@.len() == 7);
    assert("-v"@.len() == 2);
    assert("--verbose"@.len() == 9);
    assert("-h"@.len() == 2);
    assert("--help"@.len() == 6);
    assert("-V"@.len() == 2);
    assert("--version"@.len() == 9);
    assert("--bug-report"@.len() == 12);
    assert("--feature-request"@.len() == 17);
    assert("--sponsor"@.len() == 9);
    assert("--star"@.len() == 6);
    assert("-q"@[1] == 'q' && "-v"@[1] == 'v' && "-h"@[1] == 'h' && "-V"@[1] == 'V');
    assert("--json"@[2] == 'j' && "--help"@[2] == 'h' && "--star"@[2] == 's');
    assert("--verbose"@[5] == 'b' && "--version"@[5] == 's' && "--sponsor"@[5] == 'n');
}

/// Nothing else is a flag, and no positional starts otherwise than it was given.
pub proof fn nothing_else_is_a_flag(c: CliView, a: Seq<char>)
    requires
        a != "--json"@ && a != "--fail-on-budget"@ && a != "-q"@ && a != "--quiet"@ && a != "-v"@ && a
            != "--verbose"@ && a != "-h"@ && a != "--help"@ && a != "-V"@ && a != "--version"@ && a
            != "--bug-report"@ && a != "--feature-request"@ && a != "--sponsor"@ && a != "--star"@,
    ensures
        flag_of(a) is None,
        with_arg(c, a).positionals == c.positionals.push(a),
        with_arg(c, a).flags == c.flags,
        with_arg(c, a).out == c.out,
{
}

/// A flag is set by its argument, and changes nothing else.
pub proof fn a_flag_is_set_by_its_argument(c: CliView, a: Seq<char>, f: Flag, g: Flag)
    requires
        flag_of(a) == Some(f),
    ensures
        with_arg(c, a).flags.contains(g) <==> c.flags.contains(g) || g == f,
        with_arg(c, a).positionals == c.positionals,
        with_arg(c, a).out == c.out,
{
}

proof fn lemma_args_behind(a: Seq<Seq<char>>, b: Seq<Seq<char>>, i: nat, k: nat, c: CliView)
    requires
        a.len() == b.len() + k,
        forall|j: int| 0 <= j < b.len() ==> a[j + k] == #[trigger] b[j],
        i <= b.len(),
    ensures
        with_args(a, i + k, c) == with_args(b, i, c),
    decreases b.len() - i,
{
    if i < b.len() {
        assert(a[i as int + k as int] == b[i as int]);
        if b[i as int] == "-o"@ {
            if i + 1 < b.len() {
                assert(a[i as int + 1 + k as int] == b[i as int + 1]);
                lemma_args_behind(a, b, i + 2, k, CliView { out: Some(b[i as int + 1]), ..c });
            }
        } else {
            lemma_args_behind(a, b, i + 1, k, with_arg(c, b[i as int]));
        }
    }
}

/// Arguments are read one after the other. `-o` takes the one behind it, whatever it
/// is, for the output file; at the end it takes the file back.
pub proof fn arguments_are_read_in_order(
    c: CliView,
    a: Seq<char>,
    file: Seq<char>,
    rest: Seq<Seq<char>>,
)
    ensures
        with_args(Seq::empty(), 0, c) == c,
        a != "-o"@ ==> with_args(seq![a] + rest, 0, c) == with_args(rest, 0, with_arg(c, a)),
        with_args(seq!["-o"@, file] + rest, 0, c) == with_args(
            rest,
            0,
            (CliView { out: Some(file), positionals: c.positionals, flags: c.flags }),
        ),
        with_args(seq!["-o"@], 0, c) == (CliView {
            out: None,
            positionals: c.positionals,
            flags: c.flags,
        }),
{
    let one = seq![a] + rest;
    let two = seq!["-o"@, file] + rest;
    assert(one[0] == a);
    assert(two[0] == "-o"@);
    assert(two[1] == file);
    assert forall|j: int| 0 <= j < rest.len() implies one[j + 1] == #[trigger] rest[j] by {}
    assert forall|j: int| 0 <= j < rest.len() implies two[j + 2] == #[trigger] rest[j] by {}
    if a != "-o"@ {
        lemma_args_behind(one, rest, 0, 1, with_arg(c, a));
    }
    lemma_args_behind(two, rest, 0, 2, CliView { out: Some(file), ..c });
}

/// Without arguments nothing is said.
pub proof fn no_arguments_say_nothing(f: Flag)
    ensures
        no_args().positionals.len() == 0,
        no_args().out is None,
        !no_args().flags.contains(f),
{
}

// ---- what to do ----------------------------------------------------------------

/// The command line asks for none of the pages, nor for the version or the help.
pub open spec fn asks_for_a_command(c: CliView) -> bool {
    forall|f: Flag| #[trigger]
        c.flags.contains(f) ==> f == Flag::Json || f == Flag::FailOnBudget || f == Flag::Quiet || f
            == Flag::Verbose
}

/// The pages come before the version, the version before the help, and the help before
/// any command.
pub proof fn pages_come_first(c: CliView)
    ensures
        c.flags.contains(Flag::BugReport) ==> action_of(c) == ActionView::Open(Page::BugReport),
        c.flags.contains(Flag::FeatureRequest) && !c.flags.contains(Flag::BugReport) ==> action_of(c)
            == ActionView::Open(Page::FeatureRequest),
        c.flags.contains(Flag::Sponsor) && !c.flags.contains(Flag::BugReport) && !c.flags.contains(
            Flag::FeatureRequest,
        ) ==> action_of(c) == ActionView::Open(Page::Sponsor),
        c.flags.contains(Flag::Star) && !c.flags.contains(Flag::BugReport) && !c.flags.contains(
            Flag::FeatureRequest,
        ) && !c.flags.contains(Flag::Sponsor) ==> action_of(c) == ActionView::Open(Page::Star),
        !(action_of(c) is Open) && c.flags.contains(Flag::Version) ==> action_of(c)
            == ActionView::ShowVersion,
        !(action_of(c) is Open) && !c.flags.contains(Flag::Version) && c.flags.contains(Flag::Help)
            ==> action_of(c) == ActionView::ShowUsage(0),
{
}

/// A command is done: a demo, or a check or a run of the job behind it. Without a job
/// these show how they are used, without a command the usage is shown, and another one
/// is named.
pub proof fn a_command_is_done(c: CliView)
    requires
        asks_for_a_command(c),
    ensures
        c.positionals.len() == 0 || c.positionals[0].len() == 0 ==> action_of(c)
            == ActionView::ShowUsage(2),
        c.positionals.len() > 0 ==> {
            let command = c.positionals[0];
            &&& command == "demo"@ ==> action_of(c) == ActionView::Demo
            &&& command == "check"@ && c.positionals.len() > 1 ==> action_of(c) == ActionView::Check(
                c.positionals[1],
            )
            &&& command == "check"@ && c.positionals.len() == 1 ==> action_of(c)
                == ActionView::CheckUsage
            &&& command == "run"@ && c.positionals.len() > 1 ==> action_of(c) == ActionView::Run(
                c.positionals[1],
            )
            &&& command == "run"@ && c.positionals.len() == 1 ==> action_of(c) == ActionView::RunUsage
            &&& command.len() > 0 && command != "demo"@ && command != "check"@ && command != "run"@
                ==> action_of(c) == ActionView::Unknown(command)
        },
{
    reveal_strlit("demo");
    reveal_strlit("check");
    reveal_strlit("run");
    assert("demo"@.len() == 4 && "check"@.len() == 5 && "run"@.len() == 3);
}

// ---- the budget ----------------------------------------------------------------

/// A run is over its budget just when it was asked to fail for that, the job has a
/// budget, and the power is more.
pub proof fn a_run_is_over_its_budget(asked: bool, budget_mw: Option<Double>, total_mw: Double)
    ensures
        verdict_of(asked, budget_mw, total_mw) == Verdict::Over <==> asked && budget_mw is Some
            && budget_mw.unwrap().below(total_mw),
        verdict_of(asked, budget_mw, total_mw) == Verdict::NoBudget <==> asked && budget_mw is None,
{
}

// ---- status lines --------------------------------------------------------------

/// What the status lines say of a job.
pub proof fn status_lines_say_what_a_job_is(j: JobView, period: Seq<char>)
    ensures
        check_text(j, period) == "OK  design="@ + j.design + " netlist="@ + j.netlist + " libs="@
            + decimal_text(j.libs.len()) + " clock="@ + j.clock_port + "@"@ + period
            + "ns activity="@ + source_text(j),
        loaded_text(j) == "loaded "@ + j.netlist + " ("@ + decimal_text(j.libs.len())
            + " lib(s)); activity = "@ + source_text(j),
{
}

} // verus!
