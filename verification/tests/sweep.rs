use vyges_power::double::Double;
use vyges_power::format::{fitting_prefix, Prefix, Quantity};
use vyges_power::power::PowerReport;
use vyges_power::sweep::{
    render_sweep, sweep_json, SweepFigures, SweepJson, SweepReport, Sweeping, WindowFigures,
    WindowJson, WindowPower,
};

fn double(x: f64) -> Double {
    Double { bits: x.to_bits() }
}

fn float(d: Double) -> f64 {
    f64::from_bits(d.bits)
}

fn quantity(x: f64) -> Quantity {
    let value = double(x);
    let scaled = match fitting_prefix(value) {
        Prefix::Milli => x * 1e3,
        Prefix::Micro => x * 1e6,
        Prefix::Nano => x * 1e9,
        Prefix::Pico | Prefix::Zero => x * 1e12,
    };
    Quantity { value, digits: format!("{scaled:.3}") }
}

fn peak(totals: &[f64]) -> usize {
    let mut s = Sweeping::new();
    for (k, w) in totals.iter().enumerate() {
        s.add(window(k, 0.0, 0.0, 0, *w), double(*w), named_report(&format!("w{k}")));
    }
    let rep = s.finish("d".to_string(), double(1.0), double(0.0));
    assert_eq!(rep.peak_report.design, format!("w{}", rep.peak));
    rep.peak
}

#[test]
fn the_peak_is_the_first_of_the_busiest() {
    assert_eq!(peak(&[1.0]), 0);
    assert_eq!(peak(&[1.0, 3.0, 2.0, 3.0]), 1);
    assert_eq!(peak(&[2.0, 2.0, 2.0]), 0);
    assert_eq!(peak(&[-3.0, -1.0, -2.0]), 1);
    // A window is the peak when it costs more, and nothing costs more than what is
    // not a number.
    assert_eq!(peak(&[f64::NAN, 5.0]), 0);
    assert_eq!(peak(&[5.0, f64::NAN, 6.0]), 2);
}

fn window(index: usize, from_s: f64, to_s: f64, events: u64, w: f64) -> WindowPower {
    WindowPower {
        index,
        from_s: double(from_s),
        to_s: double(to_s),
        events,
        leakage_w: double(0.0),
        internal_w: double(w),
        switch_w: double(0.0),
        sequential_w: double(0.0),
        combinational_w: double(w),
        clock_w: double(0.0),
        covered_nets: 4,
    }
}

fn report() -> SweepReport {
    SweepReport {
        design: "d".to_string(),
        vdd: double(1.8),
        mode: "vectored (VCD sweep)".to_string(),
        dump_end_s: double(100e-9),
        windows: vec![window(0, 0.0, 50e-9, 3, 1e-6), window(1, 50e-9, 100e-9, 12, 3e-6)],
        peak: 1,
        peak_report: PowerReport {
            design: "d".to_string(),
            vdd: double(1.8),
            mode: "vectored (VCD sweep)".to_string(),
            insts: vec![],
            unmatched: vec![],
            leakage_w: double(0.0),
            internal_w: double(0.0),
            switch_w: double(0.0),
            spef: false,
            spef_nets: 0,
            clock_grouping_approximate: false,
        },
    }
}

#[test]
fn the_sweep_text_is_exact() {
    let rep = report();
    assert_eq!(rep.peak_window().events, 12);
    let ns = |d: Double| format!("{:.3}", float(d) * 1e9);
    let fig = SweepFigures {
        vdd: "1.800".to_string(),
        dump_end_ns: ns(rep.dump_end_s),
        peak_leakage: quantity(0.0),
        peak_dynamic: quantity(3e-6),
        mean: quantity(2e-6),
        peak_to_mean: "1.50".to_string(),
        rows: rep
            .windows
            .iter()
            .map(|w| WindowFigures {
                from_ns: ns(w.from_s),
                to_ns: ns(w.to_s),
                total: quantity(float(w.internal_w)),
                sequential: quantity(float(w.sequential_w)),
                combinational: quantity(float(w.combinational_w)),
                clock: quantity(float(w.clock_w)),
            })
            .collect(),
    };
    let want = "vyges-power — d (sweep)\n  supply (Vdd)     1.800 V\n  activity         vectored (VCD sweep)\n  windows          2 over a 100.000 ns dump\n\n  PEAK window #1 [50.000 ns, 100.000 ns)\n    total power    3.000 uW\n    leakage        0\n    dynamic        3.000 uW\n    seq/comb/clk   0 / 3.000 uW / 0\n  mean power       2.000 uW  (peak is 1.50x the mean)\n\n  window   start(ns)     end(ns)   events      total       seq      comb       clk\n       0       0.000      50.000        3   1.000 uW         0  1.000 uW         0\n       1      50.000     100.000       12   3.000 uW         0  3.000 uW         0  <- peak\n";
    assert_eq!(render_sweep(&rep, &fig), want);
}

#[test]
fn the_sweep_json_is_exact() {
    let rep = report();
    let sci = |d: Double| format!("{:.6e}", float(d));
    let fig = SweepJson {
        vdd: "1.800000".to_string(),
        dump_end_s: "1.000000e-7".to_string(),
        mean_total_w: "2.000000e-6".to_string(),
        peak_to_mean: "1.500000".to_string(),
        rows: rep
            .windows
            .iter()
            .map(|w| WindowJson {
                from_s: sci(w.from_s),
                to_s: sci(w.to_s),
                internal_w: sci(w.internal_w),
                switch_w: sci(w.switch_w),
                leakage_w: sci(w.leakage_w),
                total_w: sci(w.internal_w),
                sequential_w: sci(w.sequential_w),
                combinational_w: sci(w.combinational_w),
                clock_w: sci(w.clock_w),
            })
            .collect(),
    };
    let want = "{\n  \"design\": \"d\",\n  \"vdd\": 1.800000,\n  \"activity_mode\": \"vectored (VCD sweep)\",\n  \"dump_end_s\": 1.000000e-7,\n  \"windows\": 2,\n  \"peak_index\": 1,\n  \"peak_total_w\": 3.000000e-6,\n  \"mean_total_w\": 2.000000e-6,\n  \"peak_to_mean\": 1.500000,\n  \"series\": [\n    {\"index\": 0, \"from_s\": 0.000000e0, \"to_s\": 5.000000e-8, \"events\": 3, \"internal_w\": 1.000000e-6, \"switch_w\": 0.000000e0, \"leakage_w\": 0.000000e0, \"total_w\": 1.000000e-6, \"sequential_w\": 0.000000e0, \"combinational_w\": 1.000000e-6, \"clock_w\": 0.000000e0, \"covered_nets\": 4},\n    {\"index\": 1, \"from_s\": 5.000000e-8, \"to_s\": 1.000000e-7, \"events\": 12, \"internal_w\": 3.000000e-6, \"switch_w\": 0.000000e0, \"leakage_w\": 0.000000e0, \"total_w\": 3.000000e-6, \"sequential_w\": 0.000000e0, \"combinational_w\": 3.000000e-6, \"clock_w\": 0.000000e0, \"covered_nets\": 4}\n  ]\n}\n";
    assert_eq!(sweep_json(&rep, &fig), want);
}

fn named_report(design: &str) -> PowerReport {
    let mut rep = report().peak_report;
    rep.design = design.to_string();
    rep
}

#[test]
fn a_sweep_keeps_the_report_of_its_peak() {
    let mut s = Sweeping::new();
    for (k, w) in [1e-6, 3e-6, 3e-6, 2e-6].into_iter().enumerate() {
        s.add(window(k, 0.0, 0.0, k as u64, w), double(w), named_report(&format!("w{k}")));
    }
    let rep = s.finish("d".to_string(), double(1.8), double(100e-9));
    assert_eq!(rep.windows.len(), 4);
    assert_eq!(rep.peak, 1);
    assert_eq!(rep.peak_report.design, "w1");
    assert_eq!(rep.peak_window().events, 1);
    assert_eq!(rep.mode, "vectored (VCD sweep)");
    assert_eq!(rep.design, "d");
    assert_eq!(float(rep.vdd), 1.8);
    assert_eq!(float(rep.dump_end_s), 100e-9);
}

#[test]
fn nothing_costs_more_than_what_is_not_a_number() {
    let mut s = Sweeping::new();
    s.add(window(0, 0.0, 0.0, 0, f64::NAN), double(f64::NAN), named_report("first"));
    s.add(window(1, 0.0, 0.0, 0, 5.0), double(5.0), named_report("second"));
    let rep = s.finish("d".to_string(), double(1.0), double(0.0));
    assert_eq!(rep.peak, 0);
    assert_eq!(rep.peak_report.design, "first");
}
