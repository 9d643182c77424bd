use vyges_power::cli::{
    check_line, decide, exit_code, judge, loaded_line, parse_cli, Action, Cli, Page, Verdict,
};
use vyges_power::double::Double;
use vyges_power::job::PwrJob;
use vyges_power::units::Numerals;

fn double(x: f64) -> Double {
    Double { bits: x.to_bits() }
}

fn cli(args: &[&str]) -> Cli {
    parse_cli(&args.iter().map(|s| s.to_string()).collect())
}

fn action(args: &[&str]) -> String {
    format!("{:?}", decide(&cli(args)))
}

#[test]
fn arguments_are_flags_and_positionals() {
    let c = cli(&["run", "--json", "a.pwr", "-o", "out.txt", "-q", "--fail-on-budget", "-v"]);
    assert_eq!(c.positionals, vec!["run", "a.pwr"]);
    assert_eq!(c.out.as_deref(), Some("out.txt"));
    assert!(c.json && c.quiet && c.verbose && c.fail_on_budget);
    assert!(!c.help && !c.version && !c.bug_report && !c.feature_request && !c.sponsor && !c.star);
    let c = cli(&["--quiet", "--verbose", "--help", "--version", "--bug-report", "--feature-request", "--sponsor", "--star"]);
    assert!(c.quiet && c.verbose && c.help && c.version);
    assert!(c.bug_report && c.feature_request && c.sponsor && c.star);
    assert!(c.positionals.is_empty());
    let c = cli(&["-h", "-V", "-x"]);
    assert!(c.help && c.version);
    assert_eq!(c.positionals, vec!["-x"]);
}

#[test]
fn the_output_takes_the_next_argument() {
    assert_eq!(cli(&["-o", "--json"]).out.as_deref(), Some("--json"));
    assert!(!cli(&["-o", "--json"]).json);
    assert_eq!(cli(&["-o", "a", "-o"]).out, None);
    assert_eq!(cli(&["-o", "a", "-o", "b"]).out.as_deref(), Some("b"));
}

#[test]
fn flags_in_any_order_say_the_same() {
    let a = cli(&["--json", "-q", "run", "x"]);
    let b = cli(&["run", "-q", "x", "--json", "-q"]);
    assert_eq!(format!("{a:?}"), format!("{b:?}"));
}

#[test]
fn each_command_has_its_action() {
    assert_eq!(action(&[]), "ShowUsage(2)");
    assert_eq!(action(&[""]), "ShowUsage(2)");
    assert_eq!(action(&["-h"]), "ShowUsage(0)");
    assert_eq!(action(&["run", "-h"]), "ShowUsage(0)");
    assert_eq!(action(&["demo"]), "Demo");
    assert_eq!(action(&["check"]), "CheckUsage");
    assert_eq!(action(&["check", "j"]), "Check(\"j\")");
    assert_eq!(action(&["run"]), "RunUsage");
    assert_eq!(action(&["run", "j", "k"]), "Run(\"j\")");
    assert_eq!(action(&["fly"]), "Unknown(\"fly\")");
    assert_eq!(action(&["-V", "-h", "run"]), "ShowVersion");
    assert_eq!(action(&["--star", "-V"]), "Open(Star)");
    assert_eq!(action(&["--sponsor", "--star"]), "Open(Sponsor)");
    assert_eq!(action(&["--feature-request", "--sponsor"]), "Open(FeatureRequest)");
    assert!(matches!(decide(&cli(&["--bug-report"])), Action::Open(Page::BugReport)));
}

#[test]
fn the_budget_counts_where_it_is_asked_for() {
    assert_eq!(judge(true, Some(double(5.0)), double(5.1)), Verdict::Over);
    assert_eq!(judge(true, Some(double(5.0)), double(5.0)), Verdict::Pass);
    assert_eq!(judge(false, Some(double(5.0)), double(5.1)), Verdict::Pass);
    assert_eq!(judge(true, None, double(5.1)), Verdict::NoBudget);
    assert_eq!(judge(true, Some(double(5.0)), double(f64::NAN)), Verdict::Pass);
    assert_eq!(exit_code(Verdict::Over), 3);
    assert_eq!(exit_code(Verdict::Pass), 0);
    assert_eq!(exit_code(Verdict::NoBudget), 0);
}

#[test]
fn status_lines_are_exact() {
    let mut nums = Numerals::new();
    nums.set("10".to_string(), None, Some(double(10.0)));
    let mut j =
        PwrJob::parse("design: b\nnetlist: b.v\nlib: a, c\nclock: clk 10\n", "", &nums).unwrap();
    assert_eq!(
        check_line(&j, "10"),
        "OK  design=b netlist=b.v libs=2 clock=clk@10ns activity=vectorless"
    );
    assert_eq!(loaded_line(&j), "loaded b.v (2 lib(s)); activity = vectorless");
    j.vcd = Some("b.vcd".to_string());
    assert_eq!(loaded_line(&j), "loaded b.v (2 lib(s)); activity = b.vcd");
    j.vcd = None;
    j.fst = Some("b.fst".to_string());
    assert_eq!(loaded_line(&j), "loaded b.v (2 lib(s)); activity = fst:b.fst");
    j.fst = None;
    j.saif = Some("b.saif".to_string());
    assert_eq!(
        check_line(&j, "10"),
        "OK  design=b netlist=b.v libs=2 clock=clk@10ns activity=saif:b.saif"
    );
}
