use vyges_power::double::Double;
use vyges_power::format::{fitting_prefix, Prefix, Quantity};
use vyges_power::power::{Group, InstPower, PowerReport};
use vyges_power::render::{columns_fit, render_report, top_instances, GroupFigures, ReportFigures, RowFigures};

fn double(x: f64) -> Double {
    Double { bits: x.to_bits() }
}

fn quantity(x: f64) -> Quantity {
    let value = double(x);
    let scaled = match fitting_prefix(value) {
        Prefix::Milli => x * 1e3,
        Prefix::Micro => x * 1e6,
        Prefix::Nano => x * 1e9,
        Prefix::Pico | Prefix::Zero => x * 1e12,
    };
    Quantity { value, digits: format!("{scaled:.3}") }
}

fn top(totals: &[f64]) -> Vec<usize> {
    top_instances(&totals.iter().map(|x| double(*x)).collect())
}

#[test]
fn the_busiest_come_first() {
    assert_eq!(top(&[]), Vec::<usize>::new());
    assert_eq!(top(&[1.0, 3.0, 2.0]), vec![1, 2, 0]);
    // Equals keep their order, and the two zeros are equal.
    assert_eq!(top(&[1.0, 2.0, 2.0, 1.0]), vec![1, 2, 0, 3]);
    assert_eq!(top(&[-0.0, 0.0, -1.0]), vec![0, 1, 2]);
}

#[test]
fn the_order_agrees_with_a_stable_sort() {
    let mut x: u64 = 12345;
    for n in [5, 10, 11, 40] {
        let totals: Vec<f64> = (0..n)
            .map(|_| {
                x = x.wrapping_mul(6364136223846793005).wrapping_add(1442695040888963407);
                ((x >> 60) as f64) - 4.0
            })
            .collect();
        let mut want: Vec<usize> = (0..n).collect();
        want.sort_by(|a, b| totals[*b].partial_cmp(&totals[*a]).unwrap());
        want.truncate(10);
        assert_eq!(top(&totals), want);
    }
}

#[test]
fn what_is_not_a_number_leaves_a_choice() {
    let t = top(&[f64::NAN, 1.0, f64::NAN]);
    let mut seen = t.clone();
    seen.sort();
    assert_eq!(seen, vec![0, 1, 2]);
}

fn row(name: &str, cell: &str) -> InstPower {
    InstPower {
        inst: name.to_string(),
        cell: cell.to_string(),
        out_net: String::new(),
        toggle_rate: double(0.0),
        group: Group::Clock,
        leakage_w: double(0.0),
        internal_w: double(0.0),
        switch_w: double(0.0),
        avg_current_a: double(0.0),
    }
}

fn report(insts: Vec<InstPower>) -> PowerReport {
    PowerReport {
        design: "d".to_string(),
        vdd: double(1.0),
        mode: "vectored (VCD)".to_string(),
        insts,
        unmatched: vec![],
        leakage_w: double(0.0),
        internal_w: double(0.0),
        switch_w: double(0.0),
        spef: true,
        spef_nets: 7,
        clock_grouping_approximate: false,
    }
}

fn figures(totals: &[f64]) -> ReportFigures {
    ReportFigures {
        vdd: "1.000".to_string(),
        total: quantity(0.0),
        leakage: quantity(0.0),
        internal: quantity(0.0),
        switching: quantity(0.0),
        current: quantity(0.0),
        groups: (0..3)
            .map(|_| GroupFigures { total: quantity(0.0), leakage: quantity(0.0), dynamic: quantity(0.0) })
            .collect(),
        clock_share: "12.5".to_string(),
        rows: totals
            .iter()
            .map(|x| RowFigures {
                total: quantity(*x),
                leakage: quantity(0.0),
                dynamic: quantity(*x),
                current: quantity(0.0),
            })
            .collect(),
    }
}

#[test]
fn a_report_names_ten_instances() {
    let insts: Vec<InstPower> = (0..12).map(|k| row(&format!("inst{k}"), "CELL")).collect();
    let totals: Vec<f64> = (0..12).map(|k| k as f64 * 1e-6).collect();
    let text = render_report(&report(insts), &figures(&totals));
    assert!(text.contains("  wire caps        SPEF (7 net(s) extracted)\n"));
    assert!(text.contains("  clock network is 12.5% of total power\n\n"));
    assert!(text.contains("    clock                 12         0         0         0\n"));
    assert!(!text.contains("[warn]"));
    let named: Vec<&str> = text.lines().filter(|l| l.starts_with("    inst") && !l.contains("cell")).collect();
    assert_eq!(named.len(), 10);
    assert!(named[0].starts_with("    inst11 "));
    assert!(named[9].starts_with("    inst2 "));
}

#[test]
fn long_names_are_cut_in_their_columns() {
    let insts = vec![row("a_rather_long_instance_name", "SKY130_FD_SC_HD__INV")];
    let text = render_report(&report(insts), &figures(&[0.0]));
    assert!(text.ends_with(
        "    a_rather_long_insta… SKY130_FD_SC_H…         0         0         0         0\n"
    ));
}

#[test]
fn columns_fit_what_can_be_cut() {
    // The nineteenth byte of this name stands inside a letter.
    let uncut = "abcdefghijklmnopqréabc";
    let rows = figures(&[2.0, 1.0]).rows;
    assert!(columns_fit(&report(vec![row("a_rather_long_instance_name", "C"), row("b", "C")]), &rows));
    assert!(!columns_fit(&report(vec![row("a", "C"), row(uncut, "C")]), &rows));
    assert!(!columns_fit(&report(vec![row("a", "C"), row("b", "ABCDEFGHIJKLMÉABC")]), &rows));
    assert!(columns_fit(&report(vec![]), &figures(&[]).rows));

    // An instance that is not named may have any name.
    let rep = |first: &str| {
        let mut insts: Vec<InstPower> = (0..11).map(|k| row(&format!("inst{k}"), "CELL")).collect();
        insts[0].inst = first.to_string();
        report(insts)
    };
    let mut totals: Vec<f64> = (0..11).map(|k| k as f64).collect();
    assert!(columns_fit(&rep(uncut), &figures(&totals).rows));

    // Where a power is not a number, each may be named.
    totals[5] = f64::NAN;
    assert!(columns_fit(&rep("inst0"), &figures(&totals).rows));
    assert!(!columns_fit(&rep(uncut), &figures(&totals).rows));
}
