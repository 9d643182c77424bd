//! The command line: what the arguments ask for, and with which exit code the
//! program ends.
//!
//! Exit codes: 0 ok, 1 analysis error, 2 usage or validation, 3 power over budget
//! (only with `--fail-on-budget`).

use crate::double::Double;
use crate::job::{source_text, JobView, PwrJob};
use crate::names::opt_text;
use crate::render::count_text;
use crate::text::{decimal_text, str_eq};
use vstd::prelude::*;
use vstd::string::*;

verus! {

/// A flag.
#[derive(Clone, Copy, Debug, PartialEq, Eq, Structural)]
pub enum Flag {
    Json,
    FailOnBudget,
    Quiet,
    Verbose,
    Help,
    Version,
    BugReport,
    FeatureRequest,
    Sponsor,
    Star,
}

/// What the arguments say.
#[verifier::ext_equal]
pub struct CliView {
    pub positionals: Seq<Seq<char>>,
    pub out: Option<Seq<char>>,
    pub flags: Set<Flag>,
}

/// A `CliView`, in executable form.
#[derive(Debug)]
pub struct Cli {
    pub positionals: Vec<String>,
    pub out: Option<String>,
    pub json: bool,
    pub quiet: bool,
    pub verbose: bool,
    pub fail_on_budget: bool,
    pub help: bool,
    pub version: bool,
    pub bug_report: bool,
    pub feature_request: bool,
    pub sponsor: bool,
    pub star: bool,
}

impl Cli {
    /// The flag is given.
    pub open spec fn has(self, f: Flag) -> bool {
        match f {
            Flag::Json => self.json,
            Flag::FailOnBudget => self.fail_on_budget,
            Flag::Quiet => self.quiet,
            Flag::Verbose => self.verbose,
            Flag::Help => self.help,
            Flag::Version => self.version,
            Flag::BugReport => self.bug_report,
            Flag::FeatureRequest => self.feature_request,
            Flag::Sponsor => self.sponsor,
            Flag::Star => self.star,
        }
    }
}

impl View for Cli {
    type V = CliView;

    open spec fn view(&self) -> CliView {
        CliView {
            positionals: self.positionals.deep_view(),
            out: opt_text(self.out),
            flags: Set::new(|f: Flag| self.has(f)),
        }
    }
}

/// No arguments.
pub open spec fn no_args() -> CliView {
    CliView { positionals: Seq::empty(), out: None, flags: Set::empty() }
}

/// The flag that an argument is, if it is one.
pub open spec fn flag_of(a: Seq<char>) -> Option<Flag> {
    if a == "--json"@ {
        Some(Flag::Json)
    } else if a == "--fail-on-budget"@ {
        Some(Flag::FailOnBudget)
    } else if a == "-q"@ || a == "--quiet"@ {
        Some(Flag::Quiet)
    } else if a == "-v"@ || a == "--verbose"@ {
        Some(Flag::Verbose)
    } else if a == "-h"@ || a == "--help"@ {
        Some(Flag::Help)
    } else if a == "-V"@ || a == "--version"@ {
        Some(Flag::Version)
    } else if a == "--bug-report"@ {
        Some(Flag::BugReport)
    } else if a == "--feature-request"@ {
        Some(Flag::FeatureRequest)
    } else if a == "--sponsor"@ {
        Some(Flag::Sponsor)
    } else if a == "--star"@ {
        Some(Flag::Star)
    } else {
        None
    }
}

/// What is said once an argument other than `-o` is read: a flag, or a positional.
pub open spec fn with_arg(c: CliView, a: Seq<char>) -> CliView {
    match flag_of(a) {
        Some(f) => CliView { flags: c.flags.insert(f), ..c },
        None => CliView { positionals: c.positionals.push(a), ..c },
    }
}

fn find_flag(a: &str) -> (r: Option<Flag>)
    ensures
        r == flag_of(a@),
{
    if str_eq(a, "--json") {
        Some(Flag::Json)
    } else if str_eq(a, "--fail-on-budget") {
        Some(Flag::FailOnBudget)
    } else if str_eq(a, "-q") || str_eq(a, "--quiet") {
        Some(Flag::Quiet)
    } else if str_eq(a, "-v") || str_eq(a, "--verbose") {
        Some(Flag::Verbose)
    } else if str_eq(a, "-h") || str_eq(a, "--help") {
        Some(Flag::Help)
    } else if str_eq(a, "-V") || str_eq(a, "--version") {
        Some(Flag::Version)
    } else if str_eq(a, "--bug-report") {
        Some(Flag::BugReport)
    } else if str_eq(a, "--feature-request") {
        Some(Flag::FeatureRequest)
    } else if str_eq(a, "--sponsor") {
        Some(Flag::Sponsor)
    } else if str_eq(a, "--star") {
        Some(Flag::Star)
    } else {
        None
    }
}

/// What is said once the arguments from place `i` on are read. `-o` takes the next
/// argument as the output file; at the end it takes the file back.
pub open spec fn with_args(args: Seq<Seq<char>>, i: nat, c: CliView) -> CliView
    decreases args.len() - i,
{
    if i >= args.len() {
        c
    } else if args[i as int] == "-o"@ {
        if i + 1 < args.len() {
            with_args(args, i + 2, CliView { out: Some(args[i as int + 1]), ..c })
        } else {
            CliView { out: None, ..c }
        }
    } else {
        with_args(args, i + 1, with_arg(c, args[i as int]))
    }
}

impl Cli {
    fn new() -> (r: Cli)
        ensures
            r@ == no_args(),
    {
        let r = Cli {
            positionals: Vec::new(),
            out: None,
            json: false,
            quiet: false,
            verbose: false,
            fail_on_budget: false,
            help: false,
            version: false,
            bug_report: false,
            feature_request: false,
            sponsor: false,
            star: false,
        };
        assert(r@.flags =~= Set::empty());
        assert(r@ =~= no_args());
        r
    }

    fn give(&mut self, f: Flag)
        ensures
            final(self).positionals == old(self).positionals,
            final(self).out == old(self).out,
            forall|g: Flag| #[trigger] final(self).has(g) <==> old(self).has(g) || g == f,
    {
        match f {
            Flag::Json => {
                self.json = true;
            },
            Flag::FailOnBudget => {
                self.fail_on_budget = true;
            },
            Flag::Quiet => {
                self.quiet = true;
            },
            Flag::Verbose => {
                self.verbose = true;
            },
            Flag::Help => {
                self.help = true;
            },
            Flag::Version => {
                self.version = true;
            },
            Flag::BugReport => {
                self.bug_report = true;
            },
            Flag::FeatureRequest => {
                self.feature_request = true;
            },
            Flag::Sponsor => {
                self.sponsor = true;
            },
            Flag::Star => {
                self.star = true;
            },
        }
    }

    fn read(&mut self, a: &str)
        ensures
            final(self)@ == with_arg(old(self)@, a@),
    {
        let ghost was = self@;
        match find_flag(a) {
            Some(f) => {
                self.give(f);
                assert(self@ =~= with_arg(was, a@));
            },
            None => {
                self.positionals.push(a.to_owned());
                assert(self@.positionals =~= was.positionals.push(a@));
                assert(self@ =~= with_arg(was, a@));
            },
        }
    }
}

/// Reads the arguments.
pub fn parse_cli(args: &Vec<String>) -> (r: Cli)
    ensures
        r@ == with_args(args.deep_view(), 0, no_args()),
{
    let ghost all = args.deep_view();
    let n: usize = args.len();
    let mut c = Cli::new();
    let mut i: usize = 0;
    while i < n
        invariant
            n == args@.len(),
            all == args.deep_view(),
            with_args(all, i as nat, c@) == with_args(all, 0, no_args()),
        decreases n - i,
    {
        assert(all[i as int] == args@[i as int]@);
        if str_eq(args[i].as_str(), "-o") {
            let ghost was = c@;
            if n - i < 2 {
                c.out = None;
                assert(c@ =~= CliView { out: None, ..was });
                i = n;
            } else {
                assert(all[i + 1] == args@[i + 1]@);
                c.out = Some(args[i + 1].clone());
                assert(c@ =~= CliView { out: Some(all[i + 1]), ..was });
                i += 2;
            }
        } else {
            c.read(args[i].as_str());
            i += 1;
        }
    }
    c
}

/// Flags stand in any order.
pub proof fn flags_stand_in_any_order(c: CliView, a: Seq<char>, b: Seq<char>)
    requires
        flag_of(a) is Some,
        flag_of(b) is Some,
    ensures
        with_arg(with_arg(c, a), b) == with_arg(with_arg(c, b), a),
{
    let (f, g) = (flag_of(a).unwrap(), flag_of(b).unwrap());
    assert(c.flags.insert(f).insert(g) =~= c.flags.insert(g).insert(f));
}

/// A flag given twice is a flag given once.
pub proof fn a_flag_twice_is_a_flag_once(c: CliView, a: Seq<char>)
    requires
        flag_of(a) is Some,
    ensures
        with_arg(with_arg(c, a), a) == with_arg(c, a),
{
    let f = flag_of(a).unwrap();
    assert(c.flags.insert(f).insert(f) =~= c.flags.insert(f));
}

// ---- what to do ----------------------------------------------------------------

/// A page to point to.
#[derive(Clone, Copy, Debug, PartialEq, Eq, Structural)]
pub enum Page {
    BugReport,
    FeatureRequest,
    Sponsor,
    Star,
}

/// What the program is to do.
#[verifier::ext_equal]
pub enum ActionView {
    Open(Page),
    ShowVersion,
    /// Show the usage and end with this code.
    ShowUsage(int),
    Demo,
    /// Say how `check` is used, and end with 2.
    CheckUsage,
    Check(Seq<char>),
    /// Say how `run` is used, and end with 2.
    RunUsage,
    Run(Seq<char>),
    /// Name the command that is not known, show the usage, and end with 2.
    Unknown(Seq<char>),
}

/// An `ActionView`, in executable form.
#[derive(Debug)]
pub enum Action {
    Open(Page),
    ShowVersion,
    ShowUsage(i32),
    Demo,
    CheckUsage,
    Check(String),
    RunUsage,
    Run(String),
    Unknown(String),
}

impl View for Action {
    type V = ActionView;

    open spec fn view(&self) -> ActionView {
        match self {
            Action::Open(p) => ActionView::Open(*p),
            Action::ShowVersion => ActionView::ShowVersion,
            Action::ShowUsage(code) => ActionView::ShowUsage(*code as int),
            Action::Demo => ActionView::Demo,
            Action::CheckUsage => ActionView::CheckUsage,
            Action::Check(p) => ActionView::Check(p@),
            Action::RunUsage => ActionView::RunUsage,
            Action::Run(p) => ActionView::Run(p@),
            Action::Unknown(c) => ActionView::Unknown(c@),
        }
    }
}

/// The command: the first positional.
pub open spec fn command(c: CliView) -> Seq<char> {
    if c.positionals.len() > 0 {
        c.positionals[0]
    } else {
        Seq::empty()
    }
}

/// What the arguments ask for. The pages come first, then the version, then the
/// usage, and then the commands.
pub open spec fn action_of(c: CliView) -> ActionView {
    if c.flags.contains(Flag::BugReport) {
        ActionView::Open(Page::BugReport)
    } else if c.flags.contains(Flag::FeatureRequest) {
        ActionView::Open(Page::FeatureRequest)
    } else if c.flags.contains(Flag::Sponsor) {
        ActionView::Open(Page::Sponsor)
    } else if c.flags.contains(Flag::Star) {
        ActionView::Open(Page::Star)
    } else if c.flags.contains(Flag::Version) {
        ActionView::ShowVersion
    } else if c.flags.contains(Flag::Help) {
        ActionView::ShowUsage(0)
    } else if command(c).len() == 0 {
        ActionView::ShowUsage(2)
    } else if command(c) == "demo"@ {
        ActionView::Demo
    } else if command(c) == "check"@ {
        if c.positionals.len() > 1 {
            ActionView::Check(c.positionals[1])
        } else {
            ActionView::CheckUsage
        }
    } else if command(c) == "run"@ {
        if c.positionals.len() > 1 {
            ActionView::Run(c.positionals[1])
        } else {
            ActionView::RunUsage
        }
    } else {
        ActionView::Unknown(command(c))
    }
}

/// Decides what to do.
pub fn decide(cli: &Cli) -> (r: Action)
    ensures
        r@ == action_of(cli@),
{
    let ghost all = cli@.positionals;
    let n: usize = cli.positionals.len();
    assert(all.len() == n);
    if cli.bug_report {
        return Action::Open(Page::BugReport);
    }
    if cli.feature_request {
        return Action::Open(Page::FeatureRequest);
    }
    if cli.sponsor {
        return Action::Open(Page::Sponsor);
    }
    if cli.star {
        return Action::Open(Page::Star);
    }
    if cli.version {
        return Action::ShowVersion;
    }
    if cli.help {
        return Action::ShowUsage(0);
    }
    if n == 0 {
        return Action::ShowUsage(2);
    }
    let cmd = cli.positionals[0].as_str();
    assert(all[0] == cmd@);
    if cmd.is_empty() {
        return Action::ShowUsage(2);
    }
    if str_eq(cmd, "demo") {
        return Action::Demo;
    }
    if str_eq(cmd, "check") {
        if n > 1 {
            assert(all[1] == cli.positionals@[1]@);
            return Action::Check(cli.positionals[1].clone());
        }
        return Action::CheckUsage;
    }
    if str_eq(cmd, "run") {
        if n > 1 {
            assert(all[1] == cli.positionals@[1]@);
            return Action::Run(cli.positionals[1].clone());
        }
        return Action::RunUsage;
    }
    Action::Unknown(cmd.to_owned())
}

// ---- the budget ----------------------------------------------------------------

/// How a total power stands to the budget.
#[derive(Clone, Copy, Debug, PartialEq, Eq, Structural)]
pub enum Verdict {
    /// Nothing against the run.
    Pass,
    /// The power is over the budget: the program ends with 3.
    Over,
    /// The run is to fail over its budget, and the job has none.
    NoBudget,
}

/// How a total power stands to the budget: over where it is more, and only where
/// the run is to fail for that.
pub open spec fn verdict_of(asked: bool, budget_mw: Option<Double>, total_mw: Double) -> Verdict {
    if !asked {
        Verdict::Pass
    } else {
        match budget_mw {
            Some(b) => if b.below(total_mw) {
                Verdict::Over
            } else {
                Verdict::Pass
            },
            None => Verdict::NoBudget,
        }
    }
}

/// Holds a total power against the budget.
pub fn judge(asked: bool, budget_mw: Option<Double>, total_mw: Double) -> (r: Verdict)
    ensures
        r == verdict_of(asked, budget_mw, total_mw),
{
    if !asked {
        return Verdict::Pass;
    }
    match budget_mw {
        Some(b) => if b.lt(&total_mw) {
            Verdict::Over
        } else {
            Verdict::Pass
        },
        None => Verdict::NoBudget,
    }
}

/// The exit code of a verdict.
pub fn exit_code(v: Verdict) -> (r: i32)
    ensures
        r == (if v == Verdict::Over {
            3int
        } else {
            0
        }),
{
    match v {
        Verdict::Over => 3,
        _ => 0,
    }
}

/// A run fails on its budget only where that was asked for.
pub proof fn an_unasked_budget_fails_nothing(budget_mw: Option<Double>, total_mw: Double)
    ensures
        verdict_of(false, budget_mw, total_mw) == Verdict::Pass,
{
}

/// A lower power never fails a budget that a higher one meets.
pub proof fn less_power_keeps_the_budget(asked: bool, budget_mw: Option<Double>, a: Double, b: Double)
    requires
        a.at_most(b),
        verdict_of(asked, budget_mw, b) != Verdict::Over,
    ensures
        verdict_of(asked, budget_mw, a) != Verdict::Over,
{
}

// ---- status lines --------------------------------------------------------------

/// What `check` says of a job that is accepted; `period` is its period in
/// nanoseconds.
pub open spec fn check_text(j: JobView, period: Seq<char>) -> Seq<char> {
    "OK  design="@ + j.design + " netlist="@ + j.netlist + " libs="@ + decimal_text(j.libs.len())
        + " clock="@ + j.clock_port + "@"@ + period + "ns activity="@ + source_text(j)
}

/// What a verbose run says once its job is loaded.
pub open spec fn loaded_text(j: JobView) -> Seq<char> {
    "loaded "@ + j.netlist + " ("@ + decimal_text(j.libs.len()) + " lib(s)); activity = "@
        + source_text(j)
}

/// Writes what `check` says of a job.
pub fn check_line(job: &PwrJob, period: &str) -> (r: String)
    ensures
        r@ == check_text(job@, period@),
{
    assert(job@.libs.len() == job.libs@.len());
    let mut s = "OK  design=".to_owned();
    s.append(job.design.as_str());
    s.append(" netlist=");
    s.append(job.netlist.as_str());
    s.append(" libs=");
    s.append(count_text(job.libs.len()).as_str());
    s.append(" clock=");
    s.append(job.clock_port.as_str());
    s.append("@");
    s.append(period);
    s.append("ns activity=");
    s.append(job.source_name().as_str());
    s
}

/// Writes what a verbose run says of its job.
pub fn loaded_line(job: &PwrJob) -> (r: String)
    ensures
        r@ == loaded_text(job@),
{
    assert(job@.libs.len() == job.libs@.len());
    let mut s = "loaded ".to_owned();
    s.append(job.netlist.as_str());
    s.append(" (");
    s.append(count_text(job.libs.len()).as_str());
    s.append(" lib(s)); activity = ");
    s.append(job.source_name().as_str());
    s
}

} // verus!
