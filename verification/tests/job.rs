use vyges_power::double::Double;
use vyges_power::job::{strip_comment, ActivityFigures, ActivitySweep, JobError, PwrJob};
use vyges_power::units::{Numerals, TimeUnit};

fn double(x: f64) -> Double {
    Double { bits: x.to_bits() }
}

fn float(d: Double) -> f64 {
    f64::from_bits(d.bits)
}

fn scale(u: TimeUnit) -> f64 {
    match u {
        TimeUnit::Fs => 1e-15,
        TimeUnit::Ps => 1e-12,
        TimeUnit::Ns => 1e-9,
        TimeUnit::Us => 1e-6,
        TimeUnit::Ms => 1e-3,
        TimeUnit::S => 1.0,
    }
}

fn numerals(text: &str) -> Numerals {
    let mut table = Numerals::new();
    for n in PwrJob::numerals(text) {
        let value = n.text.parse::<f64>().ok().map(|x| match n.unit {
            Some(u) => double(x * scale(u)),
            None => double(x),
        });
        table.set(n.text, n.unit, value);
    }
    table
}

fn parse(text: &str, base_dir: &str) -> Result<PwrJob, JobError> {
    PwrJob::parse(text, base_dir, &numerals(text))
}

fn freq_hz(j: &PwrJob) -> f64 {
    let period = float(j.period_ns);
    if period > 0.0 {
        1.0e9 / period
    } else {
        0.0
    }
}

fn window_count(s: &ActivitySweep, dump_end_s: f64) -> f64 {
    let to = s.to_s.map(float).unwrap_or(dump_end_s);
    ((to - float(s.from_s)) / float(s.step_s)).ceil().max(0.0)
}

fn ns(x: f64) -> String {
    format!("{:.3}", x * 1e9)
}

fn desc(j: &PwrJob) -> String {
    let fig = match (&j.activity_sweep, &j.activity_window) {
        (Some(s), _) => ActivityFigures {
            from_ns: ns(float(s.from_s)),
            to_ns: s.to_s.map(|t| ns(float(t))).unwrap_or_default(),
            window_ns: ns(float(s.window_s)),
            step_ns: ns(float(s.step_s)),
            step_less_window_s: double(float(s.step_s) - float(s.window_s)),
        },
        (None, Some((f, t))) => ActivityFigures {
            from_ns: ns(float(*f)),
            to_ns: t.map(|t| ns(float(t))).unwrap_or_default(),
            window_ns: String::new(),
            step_ns: String::new(),
            step_less_window_s: double(0.0),
        },
        (None, None) => ActivityFigures {
            from_ns: String::new(),
            to_ns: String::new(),
            window_ns: String::new(),
            step_ns: String::new(),
            step_less_window_s: double(0.0),
        },
    };
    j.activity_desc(&fig)
}

const WIN_BASE: &str = "design: b\nnetlist: b.v\nlib: a.lib\nclock: clk 10\n";

#[test]
fn parses_minimal_job() {
    let j = parse(
        "design: b\nnetlist: b.v\nlib: a.lib, c.lib\nclock: clk 10.0\nactivity: 0.15\n",
        "/tmp",
    )
    .unwrap();
    assert_eq!(j.design, "b");
    assert_eq!(j.libs.len(), 2);
    assert_eq!(j.clock_port, "clk");
    assert!((freq_hz(&j) - 1.0e8).abs() < 1.0);
    assert!((float(j.activity_factor) - 0.15).abs() < 1e-9);
    assert_eq!(j.resolve("b.v"), "/tmp/b.v");
}

#[test]
fn missing_clock_errors() {
    let r = parse("design: b\nnetlist: b.v\nlib: a.lib\n", "");
    assert!(r.is_err());
}

#[test]
fn parses_activity_window() {
    let j = parse(&format!("{WIN_BASE}vcd: b.vcd\nactivity_window: 200ns 1200ns\n"), "").unwrap();
    let (f, t) = j.activity_window.unwrap();
    assert!((float(f) - 200e-9).abs() < 1e-18);
    assert!((float(t.unwrap()) - 1200e-9).abs() < 1e-18);
    assert!(desc(&j).contains("200.000ns"));
}

#[test]
fn open_ended_window() {
    let j = parse(&format!("{WIN_BASE}vcd: b.vcd\nactivity_window: 1us\n"), "").unwrap();
    let (f, t) = j.activity_window.unwrap();
    assert!((float(f) - 1e-6).abs() < 1e-18);
    assert!(t.is_none());
}

#[test]
fn parses_fst_and_exclusivity() {
    let j = parse(&format!("{WIN_BASE}fst: b.fst\n"), "").unwrap();
    assert_eq!(j.fst.as_deref(), Some("b.fst"));
    assert!(desc(&j).starts_with("fst:"));
    assert!(parse(&format!("{WIN_BASE}vcd: b.vcd\nfst: b.fst\n"), "").is_err());
    assert!(parse(&format!("{WIN_BASE}fst: b.fst\nactivity_window: 200ns\n"), "").is_ok());
}

#[test]
fn window_requires_vcd() {
    assert!(parse(&format!("{WIN_BASE}activity_window: 200ns\n"), "").is_err());
    assert!(parse(&format!("{WIN_BASE}saif: b.saif\nactivity_window: 200ns\n"), "").is_err());
}

#[test]
fn parses_activity_sweep() {
    let j = parse(&format!("{WIN_BASE}vcd: b.vcd\nactivity_sweep: 0ns 1us 50ns\n"), "").unwrap();
    let s = j.activity_sweep.unwrap();
    assert!(float(s.from_s).abs() < 1e-18);
    assert!((float(s.to_s.unwrap()) - 1e-6).abs() < 1e-18);
    assert!((float(s.window_s) - 50e-9).abs() < 1e-18);
    assert!((float(s.step_s) - float(s.window_s)).abs() < 1e-18, "step defaults to window");
    assert_eq!(window_count(&s, 1e-6), 20.0);
    assert!(desc(&j).contains("sweep"));
}

#[test]
fn sweep_to_end_and_explicit_step() {
    let j =
        parse(&format!("{WIN_BASE}vcd: b.vcd\nactivity_sweep: 100ns end 50ns 25ns\n"), "").unwrap();
    let s = j.activity_sweep.unwrap();
    assert!(s.to_s.is_none(), "`end` sweeps to the end of the dump");
    assert!((float(s.step_s) - 25e-9).abs() < 1e-18, "overlapping windows");
    assert!(desc(&j).contains("step"));
}

#[test]
fn sweep_rejects_what_it_cannot_measure() {
    let bad = |line: &str| parse(&format!("{WIN_BASE}vcd: b.vcd\n{line}\n"), "").is_err();
    assert!(bad("activity_sweep: 0ns 1us"), "needs from/to/window");
    assert!(bad("activity_sweep: 0 1us 50ns"), "units are mandatory");
    assert!(bad("activity_sweep: 0ns 1us 0ns"), "a zero window is not a measurement");
    assert!(bad("activity_sweep: 1us 100ns 50ns"), "'to' must follow 'from'");
    assert!(bad("activity_sweep: 0ns 1us 50ns\nactivity_window: 0ns 1us"));
    assert!(parse(&format!("{WIN_BASE}saif: b.saif\nactivity_sweep: 0ns 1us 50ns\n"), "").is_err());
    assert!(parse(&format!("{WIN_BASE}fst: b.fst\nactivity_sweep: 0ns 1us 50ns\n"), "").is_err());
}

#[test]
fn window_needs_unit_and_ordering() {
    assert!(parse(&format!("{WIN_BASE}vcd: b.vcd\nactivity_window: 200\n"), "").is_err());
    assert!(parse(&format!("{WIN_BASE}vcd: b.vcd\nactivity_window: 200ns 100ns\n"), "").is_err());
}

#[test]
fn vcd_and_saif_are_mutually_exclusive() {
    let text =
        "design: b\nnetlist: b.v\nlib: a.lib\nclock: clk 10.0\nvcd: b.vcd\nsaif: b.saif\n";
    assert!(parse(text, "").is_err());
}

fn refusal(text: &str) -> String {
    match parse(text, "") {
        Ok(_) => panic!("accepted: {text}"),
        Err(e) => e.0,
    }
}

#[test]
fn each_refusal_says_why() {
    let base = "design: b\nnetlist: b.v\nlib: a.lib\nclock: clk 10\n";
    assert_eq!(refusal("design b\n"), "expected 'key: value', got \"design b\"");
    assert_eq!(refusal("clock: clk\n"), "clock needs 'port period_ns'");
    assert_eq!(refusal("clock: clk 10 ns\n"), "clock needs 'port period_ns'");
    assert_eq!(refusal("clock: clk ten\n"), "bad clock period: \"ten\"");
    assert_eq!(refusal("design: b\n"), "missing key: lib");
    assert_eq!(refusal("lib: ,, ,\n"), "at least one lib is required");
    assert_eq!(refusal("lib: a\n"), "missing key: clock");
    assert_eq!(refusal("lib: a\nclock: c 1\n"), "missing key: design");
    assert_eq!(refusal("lib: a\nclock: c 1\ndesign: d\n"), "missing key: netlist");
    let with = |line: &str| refusal(&format!("{base}{line}\n"));
    assert_eq!(
        with("vcd: a\nsaif: b\nfst: c"),
        "specify only one vectored source: 'vcd', 'saif', or 'fst'"
    );
    assert_eq!(
        with("vcd: a\nactivity_window: 1ns 2ns 3ns"),
        "activity_window needs 'from [to]' with units, e.g. '200ns 1200ns'"
    );
    assert_eq!(
        with("vcd: a\nactivity_window: 2ns 2ns"),
        "activity_window 'to' must be greater than 'from'"
    );
    assert_eq!(
        with("saif: a\nactivity_window: 2ns"),
        "activity_window requires a 'vcd:' or 'fst:' source (SAIF is cumulative — re-dump a windowed sim instead)"
    );
    assert_eq!(
        with("vcd: a\nactivity_window: x2ns"),
        "bad time value: \"x2ns\""
    );
    assert_eq!(
        with("vcd: a\nactivity_window: 2"),
        "time needs a unit (fs/ps/ns/us/ms/s): \"2\""
    );
    assert_eq!(
        with("vcd: a\nactivity_sweep: 1ns 2ns"),
        "activity_sweep needs 'from to window [step]' with units, e.g. '0ns end 50ns'"
    );
    assert_eq!(
        with("vcd: a\nactivity_sweep: 0ns 2ns 1ns 0ns"),
        "activity_sweep window and step must be positive durations"
    );
    assert_eq!(
        with("vcd: a\nactivity_sweep: 2ns 2ns 1ns"),
        "activity_sweep 'to' must be greater than 'from'"
    );
    assert_eq!(
        with("vcd: a\nactivity_sweep: 0ns 2ns 1ns\nactivity_window: 0ns"),
        "give either activity_window (one measurement) or activity_sweep (many), not both"
    );
    assert_eq!(
        with("fst: a\nactivity_sweep: 0ns 2ns 1ns"),
        "activity_sweep requires a 'vcd:' source (FST sweep is not implemented yet; SAIF is cumulative)"
    );
    assert_eq!(
        with("vcd: a\nemit_power_vcd: p.vcd"),
        "emit_power_vcd requires an 'activity_sweep:' — a single measurement is one number, not a curve"
    );
    assert_eq!(with("activity: much"), "bad number for activity: \"much\"");
    assert_eq!(with("default_wire_cap:"), "bad number for default_wire_cap: \"\"");
    assert_eq!(JobError("x".to_string()).message(), "job error: x");
}

#[test]
fn quoted_details_are_escaped() {
    assert_eq!(refusal("say \"hi\"\tto\\all\n"), "expected 'key: value', got \"say \\\"hi\\\"\\tto\\\\all\"");
    assert_eq!(refusal("clock: clk \u{7}é\n"), "bad clock period: \"\\u{7}é\"");
}

#[test]
fn keys_stand_in_any_case_and_order() {
    let j = parse("CLOCK: clk 2.5\nLib: a\nNetList : n\nÄ: x\nDESIGN: d\nSPEF: d.spef\n", "").unwrap();
    assert_eq!(j.design, "d");
    assert_eq!(j.netlist, "n");
    assert_eq!(j.spef.as_deref(), Some("d.spef"));
    assert_eq!(float(j.period_ns), 2.5);
}

#[test]
fn defaults_and_optional_numbers() {
    let j = parse(WIN_BASE, "").unwrap();
    assert_eq!(float(j.activity_factor), 0.2);
    assert_eq!(float(j.default_wire_cap_pf), 0.0);
    assert!(j.vdd.is_none());
    assert!(j.power_budget_mw.is_none());
    assert!(j.vcd.is_none() && j.saif.is_none() && j.fst.is_none());
    let j = parse(&format!("{WIN_BASE}vdd: 1.8\npower_budget_mw: 5e0\ndefault_wire_cap: 0.001\n"), "")
        .unwrap();
    assert_eq!(float(j.vdd.unwrap()), 1.8);
    assert_eq!(float(j.power_budget_mw.unwrap()), 5.0);
    assert_eq!(float(j.default_wire_cap_pf), 0.001);
    let j = parse(&format!("{WIN_BASE}vdd: high\npower_budget_mw:\n"), "").unwrap();
    assert!(j.vdd.is_none());
    assert!(j.power_budget_mw.is_none());
}

#[test]
fn the_last_value_of_a_key_holds() {
    let j = parse(&format!("{WIN_BASE}design: other\nclock: ck 4\n"), "").unwrap();
    assert_eq!(j.design, "other");
    assert_eq!(j.clock_port, "ck");
    assert_eq!(float(j.period_ns), 4.0);
}

#[test]
fn comments_and_blank_lines_change_nothing() {
    assert_eq!(strip_comment("a # b # c"), "a ");
    assert_eq!(strip_comment("plain"), "plain");
    assert_eq!(strip_comment("#"), "");
    let plain = parse(WIN_BASE, "").unwrap();
    let noisy = parse(
        "# head\r\n\r\ndesign: b # x: y\r\n   \nnetlist: b.v\nlib: a.lib\n\nclock: clk 10 # ten\n#\n",
        "",
    )
    .unwrap();
    assert_eq!(plain.design, noisy.design);
    assert_eq!(plain.netlist, noisy.netlist);
    assert_eq!(plain.libs, noisy.libs);
    assert_eq!(plain.period_ns, noisy.period_ns);
}

#[test]
fn values_keep_their_colons() {
    let j = parse(&format!("{WIN_BASE}netlist: c:/x/y.v\nscope: tb.dut\n"), "").unwrap();
    assert_eq!(j.netlist, "c:/x/y.v");
    assert_eq!(j.scope.as_deref(), Some("tb.dut"));
}

#[test]
fn times_take_every_unit() {
    for (tok, want) in [
        ("5fs", 5.0 * 1e-15),
        ("5ps", 5.0 * 1e-12),
        ("5ns", 5.0 * 1e-9),
        ("5us", 5.0 * 1e-6),
        ("5ms", 5.0 * 1e-3),
        ("5s", 5.0),
        ("2.5NS", 2.5 * 1e-9),
    ] {
        let j = parse(&format!("{WIN_BASE}vcd: b.vcd\nactivity_window: {tok}\n"), "").unwrap();
        assert_eq!(float(j.activity_window.unwrap().0), want, "{tok}");
    }
}

#[test]
fn descriptions_are_exact() {
    let d = |lines: &str| desc(&parse(&format!("{WIN_BASE}{lines}\n"), "").unwrap());
    assert_eq!(d(""), "vectorless");
    assert_eq!(d("saif: x.saif"), "saif:x.saif");
    assert_eq!(d("fst: x.fst"), "fst:x.fst");
    assert_eq!(d("vcd: x.vcd"), "x.vcd");
    assert_eq!(d("vcd: x.vcd\nactivity_window: 200ns 1200ns"), "x.vcd [200.000ns,1200.000ns)");
    assert_eq!(d("vcd: x.vcd\nactivity_window: 200ns"), "x.vcd [200.000ns,end)");
    assert_eq!(
        d("vcd: x.vcd\nactivity_sweep: 0ns END 50ns"),
        "x.vcd sweep [0.000ns,end) window 50.000ns"
    );
    assert_eq!(
        d("vcd: x.vcd\nactivity_sweep: 0ns 1us 50ns 25ns"),
        "x.vcd sweep [0.000ns,1000.000ns) window 50.000ns step 25.000ns"
    );
}

#[test]
fn paths_resolve_against_the_directory() {
    let mut j = parse(WIN_BASE, "").unwrap();
    assert_eq!(j.resolve("b.v"), "b.v");
    assert_eq!(j.resolve("/x/b.v"), "/x/b.v");
    j.base_dir = "jobs".to_string();
    assert_eq!(j.resolve("b.v"), "jobs/b.v");
    assert_eq!(j.resolve("/x/b.v"), "/x/b.v");
    assert_eq!(j.resolve("lib/b.v"), "jobs/lib/b.v");
    assert_eq!(j.resolve(""), "jobs/");
    j.base_dir = "jobs/".to_string();
    assert_eq!(j.resolve("b.v"), "jobs/b.v");
    j.base_dir = "/".to_string();
    assert_eq!(j.resolve("b.v"), "/b.v");
    j.base_dir = "c:".to_string();
    assert_eq!(j.resolve("b.v"), "c:/b.v");
    assert_eq!(j.resolve_as("b.v", false, "jobs/b.v"), "jobs/b.v");
    assert_eq!(j.resolve_as("b.v", true, "jobs/b.v"), "b.v");
}

#[test]
fn only_the_listed_numerals_matter() {
    let text = format!("{WIN_BASE}vcd: b.vcd\nactivity_window: 200ns 1200ns\nactivity: 0.5\n");
    let mut table = numerals(&text);
    let a = PwrJob::parse(&text, "", &table).unwrap();
    table.set("77".to_string(), None, Some(double(1.0)));
    table.set("200".to_string(), Some(TimeUnit::Us), Some(double(1.0)));
    let b = PwrJob::parse(&text, "", &table).unwrap();
    assert_eq!(a.activity_window, b.activity_window);
    assert_eq!(a.activity_factor, b.activity_factor);
    assert_eq!(a.period_ns, b.period_ns);
    assert!(PwrJob::numerals(&text)
        .iter()
        .any(|n| n.text == "1200" && n.unit == Some(TimeUnit::Ns)));
    // What is listed matters: without the period there is no job.
    table.set("10".to_string(), None, None);
    assert_eq!(PwrJob::parse(&text, "", &table).unwrap_err().0, "bad clock period: \"10\"");
}

#[test]
fn an_accepted_job_keeps_its_sources_apart() {
    for sources in ["", "vcd: a", "saif: a", "fst: a"] {
        for extra in ["", "activity_window: 1ns", "activity_sweep: 0ns end 1ns", "emit_power_vcd: p"] {
            if let Ok(j) = parse(&format!("{WIN_BASE}{sources}\n{extra}\n"), "") {
                let n = [&j.vcd, &j.saif, &j.fst].iter().filter(|s| s.is_some()).count();
                assert!(n <= 1);
                assert!(j.activity_window.is_none() || j.vcd.is_some() || j.fst.is_some());
                assert!(j.activity_sweep.is_none() || j.vcd.is_some());
                assert!(j.emit_power_vcd.is_none() || j.activity_sweep.is_some());
            }
        }
    }
}

#[test]
fn a_refusal_ends_in_its_subject() {
    assert_eq!(JobError::about("bad clock period: ", "\"ten\"").message(), "job error: bad clock period: \"ten\"");
}

#[test]
fn a_job_is_what_its_lines_say() {
    let base = "design: b\nnetlist: b.v\nlib: a.lib, c.lib\nclock: clk 10\nscope: tb.dut\n";
    let plain = parse(base, "jobs").unwrap();
    for text in [
        "# first\ndesign: b\nnetlist: b.v\n\nlib: a.lib, c.lib\nclock: clk 10\nscope: tb.dut\n",
        "design: b # the design\nnetlist: b.v#\nlib: a.lib, c.lib\nclock: clk 10 # ns\nscope: tb.dut",
        "DESIGN: b\nNetlist: b.v\nlIb: a.lib, c.lib\ncLOCK: clk 10\nScope: tb.dut\n",
        "  design :b  \nnetlist\t:  b.v\nlib:   a.lib, c.lib\nclock:clk 10\n\tscope:tb.dut\t\n",
        "scope: elsewhere\nnetlist: c.v\ndesign: b\nnetlist: b.v\nLIB:\nlib: a.lib, c.lib\nclock: clk 10\nscope: tb.dut\n",
    ] {
        let j = parse(text, "jobs").unwrap();
        assert_eq!(format!("{j:?}"), format!("{plain:?}"), "{text}");
    }
    let refused = "design: b\nlib: a.lib\nclock: clk 10\n";
    assert_eq!(refusal(refused), "missing key: netlist");
    assert_eq!(refusal("\n# x\nDesign: c\ndesign : b # y\nLib:z\nlib: a.lib\nclock: clk 10\n"), "missing key: netlist");
    // Each line of the clock is read.
    assert_eq!(refusal(&format!("clock: clk\n{base}")), "clock needs 'port period_ns'");
}
