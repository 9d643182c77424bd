use vyges_power::activity::{Activity, Rates};
use vyges_power::double::Double;
use vyges_power::engine::{
    analysis_notices, analysis_plan, check_windows, collision_notice, design_nets, input_coverage, net_coverage,
    source_mode, supply, sweep_notice, sweep_plan, window_notice, ActivityCounts, InputCounts, LibertyCounts, NetlistCounts, Notice,
    SpefCounts, Step, SweepNoticeFigures,
};
use vyges_power::job::{ActivitySweep, PwrJob};
use vyges_power::name_map::NameMap;
use vyges_power::power::{Cell, Conn, Inst, Lib, Netlist};
use vyges_power::units::Numerals;

fn double(x: f64) -> Double {
    Double { bits: x.to_bits() }
}

fn float(d: Double) -> f64 {
    f64::from_bits(d.bits)
}

fn names(v: &[&str]) -> Vec<String> {
    v.iter().map(|s| s.to_string()).collect()
}

fn job() -> PwrJob {
    let mut nums = Numerals::new();
    nums.set("10".to_string(), None, Some(double(10.0)));
    PwrJob::parse("design: b\nnetlist: b.v\nlib: a, c\nclock: clk 10\n", "", &nums).unwrap()
}

fn plan(j: &PwrJob) -> String {
    let parts: Vec<String> = analysis_plan(j).iter().map(|s| format!("{s:?}")).collect();
    parts.join(" ")
}

fn plan_sweep(j: &PwrJob) -> String {
    let parts: Vec<String> = sweep_plan(j).iter().map(|s| format!("{s:?}")).collect();
    parts.join(" ")
}

#[test]
fn a_job_is_analyzed_in_steps() {
    let mut j = job();
    let design = "LoadNetlist(\"b.v\") LoadLib(\"a\") LoadLib(\"c\")";
    assert_eq!(plan(&j), format!("{design} Analyze"));
    j.spef = Some("b.spef".to_string());
    assert_eq!(plan(&j), format!("{design} LoadSpef(\"b.spef\") Analyze"));
    j.fst = Some("b.fst".to_string());
    assert_eq!(plan(&j), format!("{design} LoadFst(\"b.fst\") LoadSpef(\"b.spef\") Analyze"));
    j.vcd = Some("b.vcd".to_string());
    assert_eq!(plan(&j), format!("{design} LoadVcd(\"b.vcd\") LoadSpef(\"b.spef\") Analyze"));
    j.saif = Some("b.saif".to_string());
    assert_eq!(plan(&j), format!("{design} LoadSaif(\"b.saif\") LoadSpef(\"b.spef\") Analyze"));
    j.libs = vec![];
    assert_eq!(plan(&j), "LoadNetlist(\"b.v\") Fail(\"no libraries loaded\")");
}

#[test]
fn a_sweep_is_analyzed_in_steps() {
    let mut j = job();
    assert_eq!(plan_sweep(&j), "Fail(\"job has no activity_sweep:\")");
    j.activity_sweep = Some(ActivitySweep {
        from_s: double(0.0),
        to_s: None,
        window_s: double(1e-9),
        step_s: double(1e-9),
    });
    assert_eq!(plan_sweep(&j), "Fail(\"activity_sweep requires a 'vcd:' source\")");
    j.vcd = Some("b.vcd".to_string());
    assert_eq!(
        plan_sweep(&j),
        "LoadNetlist(\"b.v\") LoadLib(\"a\") LoadLib(\"c\") LoadSweep(\"b.vcd\") Analyze"
    );
    j.spef = Some("b.spef".to_string());
    assert_eq!(
        plan_sweep(&j),
        "LoadNetlist(\"b.v\") LoadLib(\"a\") LoadLib(\"c\") LoadSpef(\"b.spef\") LoadSweep(\"b.vcd\") Analyze"
    );
    j.libs = vec![];
    assert_eq!(plan_sweep(&j), "LoadNetlist(\"b.v\") Fail(\"no libraries loaded\")");
}

#[test]
fn accepted_jobs_have_no_step_that_fails() {
    let j = job();
    assert!(!analysis_plan(&j).iter().any(|s| matches!(s, Step::Fail(_))));
}

#[test]
fn the_supply_is_the_jobs_or_the_librarys() {
    let mut j = job();
    assert_eq!(float(supply(&j, double(1.8))), 1.8);
    j.vdd = Some(double(0.9));
    assert_eq!(float(supply(&j, double(1.8))), 0.9);
}

#[test]
fn a_sweep_without_windows_is_refused() {
    assert!(check_windows(1).is_ok());
    assert_eq!(
        check_windows(0).unwrap_err(),
        "activity_sweep measured no windows — check its range against the dump"
    );
}

fn shown(n: &Notice) -> String {
    format!("{} {}: {}", if n.attention { "warn" } else { "info" }, n.code, n.message)
}

#[test]
fn colliding_names_are_warned_of() {
    let n = collision_notice(&names(&["clk", "rst"]), &None).unwrap();
    assert_eq!(
        shown(&n),
        "warn POWER-SCOPE-COLLISION: 2 net name(s) appear in multiple scopes; set 'scope:' to disambiguate (ambiguous nets fall back to the vectorless factor)"
    );
    assert_eq!(n.objects, vec!["net:clk", "net:rst"]);
    assert!(collision_notice(&names(&["clk"]), &Some("dut".to_string())).is_none());
    assert!(collision_notice(&names(&[]), &None).is_none());
}

#[test]
fn empty_windows_are_warned_of() {
    let w = Some((double(0.0), None));
    let n = window_notice(w, double(0.0)).unwrap();
    assert_eq!(
        shown(&n),
        "warn POWER-ACTIVITY-WINDOW-EMPTY: activity_window is empty or outside the dump; nets fall back to the vectorless factor"
    );
    assert!(window_notice(w, double(1e-9)).is_none());
    assert!(window_notice(w, double(f64::NAN)).is_none());
    assert!(window_notice(None, double(0.0)).is_none());
}

#[test]
fn a_sweep_is_told_of() {
    let fig = SweepNoticeFigures {
        window_ns: "50.000".to_string(),
        peak_from_ns: "100.000".to_string(),
        peak_to_ns: "150.000".to_string(),
        peak_mw: "1.250".to_string(),
        peak_to_mean: "2.10".to_string(),
    };
    assert_eq!(
        shown(&sweep_notice(20, 2, &fig)),
        "info POWER-SWEEP: swept 20 window(s) of 50.000 ns over one parse; peak window #2 [100.000 ns, 150.000 ns) at 1.250 mW (2.10x the mean)"
    );
}

fn netlist() -> Netlist {
    let conn = |p: &str, n: &str| Conn { pin: p.to_string(), net: n.to_string() };
    Netlist {
        module: "m".to_string(),
        insts: vec![
            Inst { name: "a".to_string(), cell: "INV".to_string(), conns: vec![conn("A", "x"), conn("Y", "y")] },
            Inst { name: "b".to_string(), cell: "INV".to_string(), conns: vec![conn("A", "y"), conn("Y", "x")] },
        ],
        inputs: names(&["x", "in"]),
        outputs: names(&["out", "in"]),
    }
}

fn lib(is_seq: bool) -> Lib {
    let mut cells = NameMap::new();
    cells.insert(
        "INV".to_string(),
        Cell {
            pins: vec![],
            is_seq,
            clock_pin: None,
            leakage_w: double(0.0),
            int_energy_j: double(0.0),
        },
    );
    Lib { cells }
}

fn counts(hit: usize, total: usize, spef: Option<SpefCounts>) -> InputCounts {
    let percent = if total == 0 { 0.0 } else { 100.0 * hit as f64 / total as f64 };
    InputCounts {
        netlist: NetlistCounts {
            instances: 5,
            masters: 3,
            analysable: 4,
            physical_only: 1,
            unresolved_signal: 0,
        },
        liberty: LibertyCounts { cells_in_lib: 9, resolved_masters: 3 },
        activity: ActivityCounts {
            hit,
            total,
            percent_text: format!("{percent:.1}"),
        },
        spef,
    }
}

fn notices(is_seq: bool, mode: &str, c: &InputCounts) -> Vec<String> {
    input_coverage(&netlist(), &lib(is_seq), mode, c).iter().map(shown).collect()
}

#[test]
fn the_inputs_are_told_of_in_order() {
    assert_eq!(
        notices(true, "vectored (VCD)", &counts(3, 7, None)),
        vec![
            "info POWER-NETLIST: netlist: 5 instance(s) of 3 master(s); 4 with a library cell, 1 physical-only, 0 with signal pins have NO library cell (they contribute no power)",
            "info POWER-LIBERTY: liberty: 9 cell(s) loaded, 3 used by the design",
            "warn POWER-ACTIVITY: activity: vectored (VCD) names 3 of 7 net(s) (42.9%); the remaining 4 take the vectorless fallback",
        ]
    );
    let spef = SpefCounts {
        matched: 2,
        design_nets: 7,
        file_nets: 2,
        percent_text: "28.6".to_string(),
        read_but_unmatched: false,
        empty: false,
    };
    assert_eq!(
        notices(false, "vectorless", &counts(0, 7, Some(spef))),
        vec![
            "info POWER-NETLIST: netlist: 5 instance(s) of 3 master(s); 4 with a library cell, 1 physical-only, 0 with signal pins have NO library cell (they contribute no power)",
            "warn POWER-CLOCK-GROUPING: liberty: no cell declares an ff/latch group or a `clock : true` pin — the sequential/clock split falls back to cell shape (single-input repeaters only)",
            "info POWER-LIBERTY: liberty: 9 cell(s) loaded, 3 used by the design",
            "info POWER-ACTIVITY: activity: vectorless — a uniform estimate over all 7 net(s)",
            "info POWER-SPEF: SPEF covers 2 of 7 design net(s) (28.6%); 2 net(s) in the file",
        ]
    );
}

#[test]
fn thin_inputs_ask_for_attention() {
    let spef = SpefCounts {
        matched: 0,
        design_nets: 7,
        file_nets: 2,
        percent_text: "0.0".to_string(),
        read_but_unmatched: true,
        empty: false,
    };
    let mut c = counts(4, 7, Some(spef));
    c.netlist.unresolved_signal = 1;
    c.liberty.resolved_masters = 0;
    let warned: Vec<bool> =
        input_coverage(&netlist(), &lib(true), "vectored (SAIF)", &c).iter().map(|n| n.attention).collect();
    assert_eq!(warned, vec![true, true, false, true]);
    c.netlist.unresolved_signal = 0;
    c.netlist.instances = 0;
    assert!(input_coverage(&netlist(), &lib(true), "x", &c)[0].attention);
    if let Some(s) = &mut c.spef {
        s.read_but_unmatched = false;
        s.empty = true;
    }
    assert!(input_coverage(&netlist(), &lib(true), "x", &c)[3].attention);
}

#[test]
fn the_nets_of_the_design_are_listed_once() {
    let mut inner = design_nets(&netlist(), false);
    inner.sort();
    assert_eq!(inner, vec!["x", "y"]);
    let mut all = design_nets(&netlist(), true);
    all.sort();
    assert_eq!(all, vec!["in", "out", "x", "y"]);
}

#[test]
fn coverage_counts_distinct_nets() {
    let mut by_net = NameMap::new();
    by_net.insert("y".to_string(), double(1.0));
    by_net.insert("in".to_string(), double(2.0));
    by_net.insert("elsewhere".to_string(), double(2.0));
    let act = Activity::vectored(Rates { by_net }, "t", double(1.0));
    assert_eq!(net_coverage(&netlist(), false, &act), (1, 2));
    assert_eq!(net_coverage(&netlist(), true, &act), (2, 4));
    let act: Activity<Rates> = Activity::vectorless(double(1.0));
    assert_eq!(net_coverage(&netlist(), true, &act), (0, 4));
}

#[test]
fn less_than_half_asks_for_attention() {
    let warned = |hit: usize, total: usize| {
        let c = counts(hit, total, None);
        input_coverage(&netlist(), &lib(true), "vectored (VCD)", &c)[2].attention
    };
    assert!(warned(0, 0));
    assert!(warned(0, 1));
    assert!(!warned(1, 1));
    assert!(warned(2, 6));
    assert!(!warned(3, 6));
    assert!(warned(3, 7));
    assert!(!warned(4, 7));
    assert!(!warned(usize::MAX, usize::MAX));
}

#[test]
fn the_mode_names_the_source() {
    let mut j = job();
    assert_eq!(source_mode(&j), "vectorless");
    j.fst = Some("b.fst".to_string());
    assert_eq!(source_mode(&j), "vectored (FST)");
    j.vcd = Some("b.vcd".to_string());
    assert_eq!(source_mode(&j), "vectored (VCD)");
    j.saif = Some("b.saif".to_string());
    assert_eq!(source_mode(&j), "vectored (SAIF)");
}

#[test]
fn the_covered_nets_are_counted() {
    let mut by_net = NameMap::new();
    by_net.insert("y".to_string(), double(1.0));
    by_net.insert("elsewhere".to_string(), double(2.0));
    let act = Activity::vectored(Rates { by_net }, "vectored (VCD)", double(1.0));
    let c = counts(1, 4, None);
    let got = analysis_notices(&netlist(), &lib(true), &act, c.netlist, c.liberty, "25.0".to_string(), None);
    assert_eq!(
        shown(&got[2]),
        "warn POWER-ACTIVITY: activity: vectored (VCD) names 1 of 4 net(s) (25.0%); the remaining 3 take the vectorless fallback"
    );
    let act: Activity<Rates> = Activity::vectorless(double(1.0));
    let got = analysis_notices(&netlist(), &lib(true), &act, c.netlist, c.liberty, "0.0".to_string(), None);
    assert_eq!(shown(&got[2]), "info POWER-ACTIVITY: activity: vectorless — a uniform estimate over all 4 net(s)");
}
