use vyges_power::activity::{Activity, Rates};
use vyges_power::double::Double;
use vyges_power::format::{fitting_prefix, Prefix, Quantity};
use vyges_power::name_map::NameMap;
use vyges_power::power::{
    analyze, clock_network, library_declares_sequential, AnalyzeOpts, Cell, Conn, Dir, Group, Inst, Lib,
    MapFigures, MapRow, Netlist, Pin, PowerReport, PowerTerms, Spef, Totals, Watts, Wire,
};
use vyges_power::render::{
    render_report, report_json, GroupFigures, JsonFigures, JsonGroup, JsonRow, ReportFigures, RowFigures,
};

fn double(x: f64) -> Double {
    Double { bits: x.to_bits() }
}

fn float(d: Double) -> f64 {
    f64::from_bits(d.bits)
}

fn pin(name: &str, direction: Dir, cap_f: f64) -> Pin {
    Pin { name: name.to_string(), direction, cap_f: double(cap_f) }
}

fn cell(pins: Vec<Pin>, clock_pin: Option<&str>, is_seq: bool, leakage_w: f64, energy: f64) -> Cell {
    Cell {
        pins,
        is_seq,
        clock_pin: clock_pin.map(|s| s.to_string()),
        leakage_w: double(leakage_w),
        int_energy_j: double(energy),
    }
}

fn lib(cells: Vec<(&str, Cell)>) -> Lib {
    let mut map = NameMap::new();
    for (name, c) in cells {
        map.insert(name.to_string(), c);
    }
    Lib { cells: map }
}

fn inst(name: &str, cell: &str, conns: &[(&str, &str)]) -> Inst {
    Inst {
        name: name.to_string(),
        cell: cell.to_string(),
        conns: conns.iter().map(|(p, n)| Conn { pin: p.to_string(), net: n.to_string() }).collect(),
    }
}

fn names(v: &[&str]) -> Vec<String> {
    v.iter().map(|s| s.to_string()).collect()
}

/// A library that declares no register and no clock pin.
fn demo_lib() -> Lib {
    lib(vec![
        (
            "INV",
            cell(vec![pin("A", Dir::In, 0.004e-12), pin("Y", Dir::Out, 0.0)], None, false, 2e-9, 0.010e-12),
        ),
        (
            "DFF",
            cell(
                vec![pin("CK", Dir::In, 0.006e-12), pin("D", Dir::In, 0.004e-12), pin("Q", Dir::Out, 0.0)],
                None,
                false,
                5e-9,
                0.030e-12,
            ),
        ),
    ])
}

/// A library that declares its register and the clock pin of it.
fn declared_lib() -> Lib {
    lib(vec![
        (
            "INV",
            cell(vec![pin("A", Dir::In, 0.004e-12), pin("Y", Dir::Out, 0.0)], None, false, 2e-9, 0.010e-12),
        ),
        (
            "CLKBUF",
            cell(vec![pin("A", Dir::In, 0.005e-12), pin("X", Dir::Out, 0.0)], None, false, 4e-9, 0.020e-12),
        ),
        (
            "DFF",
            cell(
                vec![pin("CK", Dir::In, 0.006e-12), pin("D", Dir::In, 0.004e-12), pin("Q", Dir::Out, 0.0)],
                Some("CK"),
                true,
                5e-9,
                0.030e-12,
            ),
        ),
    ])
}

fn grouped_netlist() -> Netlist {
    Netlist {
        module: "grouped".to_string(),
        insts: vec![
            inst("u_clkbuf", "CLKBUF", &[("A", "clk_in"), ("X", "clk")]),
            inst("u_ff0", "DFF", &[("CK", "clk"), ("D", "d"), ("Q", "q0")]),
            inst("u_ff1", "DFF", &[("CK", "clk"), ("D", "n1"), ("Q", "q1")]),
            inst("u_inv", "INV", &[("A", "q0"), ("Y", "n1")]),
            inst("u_out", "INV", &[("A", "n1"), ("Y", "y")]),
        ],
        inputs: names(&["clk_in", "d"]),
        outputs: names(&["q0", "q1", "y"]),
    }
}

fn demo_netlist() -> Netlist {
    Netlist {
        module: "demo".to_string(),
        insts: vec![
            inst("u_inv", "INV", &[("A", "d"), ("Y", "n1")]),
            inst("u_ff", "DFF", &[("CK", "clk"), ("D", "n1"), ("Q", "q")]),
        ],
        inputs: names(&["clk", "d"]),
        outputs: names(&["q"]),
    }
}

fn report(terms: PowerTerms) -> PowerReport {
    let vdd = float(terms.vdd);
    let watts: Vec<Watts> = terms
        .insts
        .iter()
        .map(|t| {
            let tr = float(t.toggle_rate);
            let internal = float(t.int_energy_j) * tr;
            let pins = t.sink_caps_f.iter().fold(0.0, |a, c| a + float(*c));
            let wire = match t.wire {
                Wire::Extracted(ff) => float(ff) * 1.0e-15,
                Wire::Flat(f) => float(f),
            };
            let switching = 0.5 * (pins + wire) * vdd * vdd * tr;
            let total = float(t.leakage_w) + internal + switching;
            Watts {
                internal_w: double(internal),
                switch_w: double(switching),
                avg_current_a: double(if vdd > 0.0 { total / vdd } else { 0.0 }),
            }
        })
        .collect();
    let totals = Totals {
        leakage_w: double(terms.insts.iter().map(|t| float(t.leakage_w)).sum()),
        internal_w: double(watts.iter().map(|w| float(w.internal_w)).sum()),
        switch_w: double(watts.iter().map(|w| float(w.switch_w)).sum()),
    };
    PowerReport::assemble(terms, &watts, totals)
}

fn sum(v: &[Double]) -> f64 {
    v.iter().fold(0.0, |a, d| a + float(*d))
}

fn group_w(rep: &PowerReport, g: Group) -> (f64, f64) {
    let p = rep.group(g);
    (sum(&p.leakage_w), sum(&p.internal_w) + sum(&p.switch_w))
}

fn total_w(rep: &PowerReport) -> f64 {
    float(rep.leakage_w) + (float(rep.internal_w) + float(rep.switch_w))
}

fn clock_share_pct(rep: &PowerReport) -> f64 {
    let (l, d) = group_w(rep, Group::Clock);
    if total_w(rep) > 0.0 {
        100.0 * (l + d) / total_w(rep)
    } else {
        0.0
    }
}

fn quantity(x: f64) -> Quantity {
    let value = double(x);
    let scaled = match fitting_prefix(value) {
        Prefix::Milli => x * 1e3,
        Prefix::Micro => x * 1e6,
        Prefix::Nano => x * 1e9,
        Prefix::Pico | Prefix::Zero => x * 1e12,
    };
    Quantity { value, digits: format!("{scaled:.3}") }
}

fn render(rep: &PowerReport) -> String {
    let rows: Vec<RowFigures> = rep
        .insts
        .iter()
        .map(|i| {
            let dynamic = float(i.internal_w) + float(i.switch_w);
            RowFigures {
                total: quantity(float(i.leakage_w) + dynamic),
                leakage: quantity(float(i.leakage_w)),
                dynamic: quantity(dynamic),
                current: quantity(float(i.avg_current_a)),
            }
        })
        .collect();
    let groups = Group::ALL
        .iter()
        .map(|g| {
            let (l, d) = group_w(rep, *g);
            GroupFigures { total: quantity(l + d), leakage: quantity(l), dynamic: quantity(d) }
        })
        .collect();
    render_report(
        rep,
        &ReportFigures {
            vdd: format!("{:.3}", float(rep.vdd)),
            total: quantity(total_w(rep)),
            leakage: quantity(float(rep.leakage_w)),
            internal: quantity(float(rep.internal_w)),
            switching: quantity(float(rep.switch_w)),
            current: quantity(rep.insts.iter().map(|i| float(i.avg_current_a)).sum()),
            groups,
            clock_share: format!("{:.1}", clock_share_pct(rep)),
            rows,
        },
    )
}

fn json(rep: &PowerReport) -> String {
    let sci = |x: f64| format!("{x:.6e}");
    let groups = Group::ALL
        .iter()
        .map(|g| {
            let p = rep.group(*g);
            let (l, d) = group_w(rep, *g);
            JsonGroup {
                leakage_w: sci(l),
                internal_w: sci(sum(&p.internal_w)),
                switch_w: sci(sum(&p.switch_w)),
                total_w: sci(l + d),
            }
        })
        .collect();
    let rows = rep
        .insts
        .iter()
        .map(|i| JsonRow {
            total_w: sci(float(i.leakage_w) + (float(i.internal_w) + float(i.switch_w))),
            avg_current_a: sci(float(i.avg_current_a)),
            toggle_rate_hz: sci(float(i.toggle_rate)),
        })
        .collect();
    report_json(
        rep,
        &JsonFigures {
            vdd: format!("{:.6}", float(rep.vdd)),
            leakage_w: sci(float(rep.leakage_w)),
            internal_w: sci(float(rep.internal_w)),
            switch_w: sci(float(rep.switch_w)),
            dynamic_w: sci(float(rep.internal_w) + float(rep.switch_w)),
            total_w: sci(total_w(rep)),
            total_current_a: sci(rep.insts.iter().map(|i| float(i.avg_current_a)).sum()),
            clock_share_pct: format!("{:.3}", clock_share_pct(rep)),
            groups,
            rows,
        },
    )
}

fn map_figures(rep: &PowerReport) -> MapFigures {
    MapFigures {
        vdd: format!("{:.4}", float(rep.vdd)),
        rows: rep
            .insts
            .iter()
            .map(|i| MapRow {
                avg_current_a: format!("{:.6e}", float(i.avg_current_a)),
                toggle_rate: format!("{:.6e}", float(i.toggle_rate)),
            })
            .collect(),
    }
}

fn opts<'a>(clock_port: Option<&'a str>) -> AnalyzeOpts<'a> {
    AnalyzeOpts { vdd: double(1.8), wire_cap_f: double(0.0), spef: None, clock_port }
}

fn vectorless() -> Activity<Rates> {
    Activity::vectorless(double(0.2 * 1.0e8))
}

fn grouped(lib: &Lib) -> PowerReport {
    report(analyze(&grouped_netlist(), lib, &vectorless(), &opts(Some("clk"))))
}

fn demo() -> PowerReport {
    report(analyze(&demo_netlist(), &demo_lib(), &vectorless(), &opts(Some("clk"))))
}

#[test]
fn a_declaring_library_splits_clock_sequential_and_combinational() {
    let rep = grouped(&declared_lib());
    assert!(!rep.clock_grouping_approximate);
    let by = |g| rep.group(g).instances;
    assert_eq!(by(Group::Clock), 1, "the clock buffer, and only it");
    assert_eq!(by(Group::Sequential), 2, "both flops");
    assert_eq!(by(Group::Combinational), 2, "both inverters");
    let sum: f64 = Group::ALL
        .iter()
        .map(|g| {
            let (l, d) = group_w(&rep, *g);
            l + d
        })
        .sum();
    assert!((sum - total_w(&rep)).abs() < 1e-18);
    assert!(clock_share_pct(&rep) > 0.0 && clock_share_pct(&rep) < 100.0);
}

#[test]
fn clock_ness_stops_at_a_flops_clock_pin() {
    let rep = grouped(&declared_lib());
    let group_of =
        |inst: &str| rep.insts.iter().find(|i| i.inst == inst).map(|i| i.group).expect("instance");
    assert_eq!(group_of("u_clkbuf"), Group::Clock);
    assert_eq!(group_of("u_ff0"), Group::Sequential);
    assert_eq!(group_of("u_inv"), Group::Combinational);
    assert_eq!(group_of("u_out"), Group::Combinational);
}

#[test]
fn an_under_specified_library_says_so_instead_of_guessing_wide() {
    let rep = grouped(&demo_lib());
    assert!(rep.clock_grouping_approximate);
    assert_eq!(rep.group(Group::Sequential).instances, 0);
    assert!(
        render(&rep).contains("[warn] the library declares no sequential cell"),
        "the caveat has to reach the person reading the report"
    );
    assert!(rep.group(Group::Clock).instances <= 1);
}

#[test]
fn demo_has_power_and_current() {
    let rep = demo();
    assert_eq!(rep.insts.len(), 2);
    assert!(float(rep.leakage_w) > 0.0);
    assert!(total_w(&rep) > float(rep.leakage_w));
    let i: f64 = rep.insts.iter().map(|x| float(x.avg_current_a)).sum();
    assert!(i > 0.0);
    let txt = render(&rep);
    assert!(txt.contains("total power"));
    assert!(json(&rep).contains("\"total_w\""));
    assert!(rep.activity_map(&map_figures(&rep)).contains("u_inv"));
}

fn clock_nets(nl: &Netlist, lib: &Lib, root: &str, trust: bool, of: &[&str]) -> Vec<String> {
    let nets = clock_network(nl, lib, root, trust);
    of.iter().filter(|n| nets.contains(n)).map(|n| n.to_string()).collect()
}

#[test]
fn the_clock_network_follows_repeaters() {
    let nl = grouped_netlist();
    let all = ["clk_in", "clk", "d", "q0", "q1", "n1", "y"];
    assert_eq!(clock_nets(&nl, &declared_lib(), "clk_in", true, &all), vec!["clk_in", "clk"]);
    assert_eq!(clock_nets(&nl, &declared_lib(), "clk", true, &all), vec!["clk"]);
    // A clock on the data path passes inverters, in whatever order they stand.
    assert_eq!(clock_nets(&nl, &declared_lib(), "q0", true, &all), vec!["q0", "n1", "y"]);
    // Without declarations only single-input cells repeat a clock.
    assert_eq!(clock_nets(&nl, &demo_lib(), "clk", false, &all), vec!["clk"]);
    // Trusting a library that declares nothing, a clock runs through the flops.
    assert_eq!(clock_nets(&nl, &demo_lib(), "clk", true, &all), vec!["clk", "q0", "q1", "n1", "y"]);
    // The root is in the network even where the design does not have it.
    assert_eq!(clock_nets(&nl, &declared_lib(), "ghost", true, &["ghost"]), vec!["ghost"]);
}

#[test]
fn a_clock_is_consumed_at_a_declared_clock_pin() {
    let gate = cell(
        vec![pin("CK", Dir::In, 0.0), pin("E", Dir::In, 0.0), pin("GCK", Dir::Out, 0.0)],
        Some("CK"),
        false,
        0.0,
        0.0,
    );
    let lib = lib(vec![("ICG", gate)]);
    let nl = Netlist {
        module: "m".to_string(),
        insts: vec![inst("g", "ICG", &[("CK", "clk"), ("E", "en"), ("GCK", "out")])],
        inputs: vec![],
        outputs: vec![],
    };
    assert!(library_declares_sequential(&nl, &lib));
    assert_eq!(clock_nets(&nl, &lib, "clk", true, &["clk", "out"]), vec!["clk"]);
    assert_eq!(clock_nets(&nl, &lib, "en", true, &["en", "out"]), vec!["en", "out"]);
}

#[test]
fn loops_in_the_clock_network_end() {
    let lib = lib(vec![(
        "INV",
        cell(vec![pin("A", Dir::In, 0.0), pin("Y", Dir::Out, 0.0)], None, false, 0.0, 0.0),
    )]);
    let nl = Netlist {
        module: "ring".to_string(),
        insts: vec![
            inst("a", "INV", &[("A", "z"), ("Y", "x")]),
            inst("b", "INV", &[("A", "y"), ("Y", "z")]),
            inst("c", "INV", &[("A", "x"), ("Y", "y")]),
        ],
        inputs: vec![],
        outputs: vec![],
    };
    assert_eq!(clock_nets(&nl, &lib, "x", true, &["x", "y", "z"]), vec!["x", "y", "z"]);
}

#[test]
fn only_cells_of_the_design_tell_registers_apart() {
    let nl = demo_netlist();
    assert!(!library_declares_sequential(&nl, &demo_lib()));
    assert!(library_declares_sequential(&nl, &declared_lib()));
    let inv_only = Netlist {
        module: "m".to_string(),
        insts: vec![inst("u", "INV", &[])],
        inputs: vec![],
        outputs: vec![],
    };
    assert!(!library_declares_sequential(&inv_only, &declared_lib()));
}

#[test]
fn terms_are_those_of_the_design() {
    let mut nets = NameMap::new();
    nets.insert("n1".to_string(), double(12.0));
    let spef = Spef { nets };
    let mut by_net = NameMap::new();
    by_net.insert("n1".to_string(), double(8.0e7));
    let act = Activity::vectored(Rates { by_net }, "vectored (VCD)", double(3.0));
    let o = AnalyzeOpts {
        vdd: double(1.8),
        wire_cap_f: double(1e-15),
        spef: Some(&spef),
        clock_port: Some("clk"),
    };
    let t = analyze(&grouped_netlist(), &declared_lib(), &act, &o);
    assert_eq!(t.design, "grouped");
    assert_eq!(t.mode, "vectored (VCD)");
    assert!(t.spef);
    assert_eq!(t.spef_nets, 1);
    assert!(t.unmatched.is_empty());
    let inv = &t.insts[3];
    assert_eq!((inv.inst.as_str(), inv.cell.as_str(), inv.out_net.as_str()), ("u_inv", "INV", "n1"));
    assert_eq!(float(inv.toggle_rate), 8.0e7);
    assert_eq!(inv.wire, Wire::Extracted(double(12.0)));
    // n1 feeds the D of u_ff1 and the A of u_out.
    assert_eq!(inv.sink_caps_f, vec![double(0.004e-12), double(0.004e-12)]);
    assert_eq!(float(inv.leakage_w), 2e-9);
    assert_eq!(float(inv.int_energy_j), 0.010e-12);
    let buf = &t.insts[0];
    assert_eq!(float(buf.toggle_rate), 3.0);
    assert_eq!(buf.wire, Wire::Flat(double(1e-15)));
    assert_eq!(buf.sink_caps_f, vec![double(0.006e-12), double(0.006e-12)]);
    assert!(t.insts[4].sink_caps_f.is_empty());
}

#[test]
fn cells_without_a_library_are_listed_once_in_order() {
    let nl = Netlist {
        module: "m".to_string(),
        insts: vec![
            inst("a", "ZEBRA", &[]),
            inst("b", "INV", &[("A", "x"), ("Y", "y")]),
            inst("c", "ANT", &[]),
            inst("d", "ZEBRA", &[]),
        ],
        inputs: vec![],
        outputs: vec![],
    };
    let rep = report(analyze(&nl, &demo_lib(), &vectorless(), &opts(None)));
    assert_eq!(rep.unmatched, vec!["ANT", "ZEBRA"]);
    assert_eq!(rep.insts.len(), 1);
    assert!(!rep.clock_grouping_approximate);
    assert!(render(&rep)
        .ends_with("\n  [warn] 2 cell(s) not in any lib — no power counted: ANT, ZEBRA\n"));
    assert!(json(&rep).contains("  \"unmatched_cells\": [\"ANT\", \"ZEBRA\"],\n"));
}

#[test]
fn without_a_clock_port_nothing_is_clock() {
    let rep = report(analyze(&grouped_netlist(), &declared_lib(), &vectorless(), &opts(None)));
    assert_eq!(rep.group(Group::Clock).instances, 0);
    assert_eq!(rep.group(Group::Sequential).instances, 2);
}

#[test]
fn a_cell_without_an_output_has_no_rate() {
    let lib = lib(vec![("CAP", cell(vec![pin("A", Dir::In, 1e-15)], None, false, 1e-9, 1e-12))]);
    let nl = Netlist {
        module: "m".to_string(),
        insts: vec![inst("u", "CAP", &[("A", "n")])],
        inputs: vec![],
        outputs: vec![],
    };
    let t = analyze(&nl, &lib, &vectorless(), &opts(Some("clk")));
    assert_eq!(t.insts[0].out_net, "");
    assert_eq!(float(t.insts[0].toggle_rate), 0.0);
    assert_eq!(t.insts[0].group, Group::Combinational);
    assert!(t.insts[0].sink_caps_f.is_empty());
}

#[test]
fn group_names() {
    let labels: Vec<&str> = Group::ALL.iter().map(|g| g.label()).collect();
    assert_eq!(labels, vec!["sequential", "combinational", "clock"]);
}

#[test]
fn the_activity_map_is_exact() {
    let rep = demo();
    let fig = map_figures(&rep);
    let rate = format!("{:.6e}", 0.2 * 1.0e8);
    let want = |over: &str| {
        format!(
            "# vyges-power activity map for vyges-em-ir\n# design demo  vdd 1.8000 V  mode vectorless\n# measured over {over}\n# columns: instance  avg_current_a  toggle_rate_hz\nu_inv  {:.6e}  {rate}\nu_ff  {:.6e}  {rate}\n",
            float(rep.insts[0].avg_current_a),
            float(rep.insts[1].avg_current_a),
        )
    };
    assert_eq!(rep.activity_map(&fig), want("the whole activity source"));
    assert_eq!(rep.activity_map_labelled(Some("window #3"), &fig), want("window #3"));
}

#[test]
fn the_text_report_is_exact() {
    let rep = demo();
    // Per instance: leakage 2 / 5 nW, energy 10 / 30 fJ at 2e7 transitions per second,
    // and 4 fF at 1.8 V on n1.
    let want = "vyges-power — demo\n  supply (Vdd)     1.800 V\n  activity         vectorless\n  wire caps        flat stand-in\n  instances        2 (0 unmatched)\n\n  total power      936.600 nW\n    leakage        7.000 nW\n    internal       800.000 nW\n    net switching  129.600 nW\n  avg current      520.333 nA\n\n  by group:        instances     total      leak       dyn\n    sequential             0         0         0         0\n    combinational          2 936.600 nW  7.000 nW 929.600 nW\n    clock                  0         0         0         0\n  clock network is 0.0% of total power\n  [warn] the library declares no sequential cell and no clock pin — the group\n         split is inferred from cell shape, and only repeater-shaped cells are\n         counted as clock network\n\n  top instances by power:\n    instance              cell             total      leak      dyn       I_avg\n    u_ff                 DFF             605.000 nW  5.000 nW 600.000 nW 336.111 nA\n    u_inv                INV             331.600 nW  2.000 nW 329.600 nW 184.222 nA\n";
    assert_eq!(render(&rep), want);
}

#[test]
fn the_json_report_is_exact() {
    let rep = demo();
    let g = |l: f64, i: f64, s: f64| {
        format!(
            "\"leakage_w\": {l:.6e}, \"internal_w\": {i:.6e}, \"switch_w\": {s:.6e}, \"total_w\": {:.6e}",
            l + (i + s)
        )
    };
    let row = |k: usize| {
        let i = &rep.insts[k];
        format!(
            "\"total_w\": {:.6e}, \"avg_current_a\": {:.6e}, \"toggle_rate_hz\": {:.6e}",
            float(i.leakage_w) + (float(i.internal_w) + float(i.switch_w)),
            float(i.avg_current_a),
            float(i.toggle_rate),
        )
    };
    let (l, i, s) = (float(rep.leakage_w), float(rep.internal_w), float(rep.switch_w));
    let current: f64 = rep.insts.iter().map(|i| float(i.avg_current_a)).sum();
    let want = format!(
        "{{\n  \"design\": \"demo\",\n  \"vdd\": 1.800000,\n  \"activity_mode\": \"vectorless\",\n  \"spef\": false,\n  \"spef_nets\": 0,\n  \"instances\": 2,\n  \"leakage_w\": {l:.6e},\n  \"internal_w\": {i:.6e},\n  \"switch_w\": {s:.6e},\n  \"dynamic_w\": {:.6e},\n  \"total_w\": {:.6e},\n  \"total_current_a\": {current:.6e},\n  \"unmatched_cells\": [],\n  \"clock_share_pct\": 0.000,\n  \"by_group\": {{\n    \"sequential\": {{\"instances\": 0, {}}},\n    \"combinational\": {{\"instances\": 2, {}}},\n    \"clock\": {{\"instances\": 0, {}}}\n  }},\n  \"by_instance\": [\n    {{\"instance\": \"u_inv\", \"cell\": \"INV\", \"group\": \"combinational\", {}}},\n    {{\"instance\": \"u_ff\", \"cell\": \"DFF\", \"group\": \"combinational\", {}}}\n  ]\n}}\n",
        i + s,
        l + (i + s),
        g(0.0, 0.0, 0.0),
        g(l, i, s),
        g(0.0, 0.0, 0.0),
        row(0),
        row(1),
    );
    assert_eq!(json(&rep), want);
}

#[test]
fn an_empty_design_reports() {
    let nl = Netlist { module: "e".to_string(), insts: vec![], inputs: vec![], outputs: vec![] };
    let rep = report(analyze(&nl, &demo_lib(), &vectorless(), &opts(None)));
    assert!(render(&rep).contains("  total power      0\n"));
    assert!(json(&rep).ends_with("  \"by_instance\": [\n  ]\n}\n"));
}

#[test]
fn the_default_options_are_empty() {
    let o = AnalyzeOpts::default();
    assert_eq!(float(o.vdd), 0.0);
    assert_eq!(float(o.wire_cap_f), 0.0);
    assert!(o.spef.is_none());
    assert!(o.clock_port.is_none());
}
