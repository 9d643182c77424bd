use vyges_power::double::Double;
use vyges_power::units::{TimeUnit, Timescale};
use vyges_power::vcd::{Mark, Times, Vcd, VcdError};

fn double(x: f64) -> Double {
    Double { bits: x.to_bits() }
}

fn float(d: Double) -> f64 {
    f64::from_bits(d.bits)
}

fn tick_s(s: &Timescale) -> f64 {
    let scale = match s.unit {
        None => return 1.0e-9,
        Some(TimeUnit::Fs) => 1e-15,
        Some(TimeUnit::Ps) => 1e-12,
        Some(TimeUnit::Ns) => 1e-9,
        Some(TimeUnit::Us) => 1e-6,
        Some(TimeUnit::Ms) => 1e-3,
        Some(TimeUnit::S) => 1.0,
    };
    s.mantissa.parse::<f64>().unwrap_or(1.0) * scale
}

fn seconds(m: &Mark) -> f64 {
    m.ticks as f64 * tick_s(&m.scale)
}

fn times(text: &str) -> Times {
    let marks = Vcd::marks(text);
    Times { at: marks.at.iter().map(|m| double(seconds(m))).collect(), end: double(seconds(&marks.end)) }
}

fn parse(text: &str) -> Result<Vcd, VcdError> {
    Vcd::parse(text, &times(text))
}

fn parse_windowed(text: &str, window: Option<(f64, Option<f64>)>) -> Result<Vcd, VcdError> {
    Vcd::parse_windowed(text, &times(text), window.map(|(f, t)| (double(f), t.map(double))))
}

fn sim_time_s(v: &Vcd) -> f64 {
    float(v.to_s) - float(v.from_s)
}

fn toggle_rate(v: &Vcd, name: &str) -> f64 {
    match v.countable(name, double(sim_time_s(v))) {
        Some(n) => n as f64 / sim_time_s(v),
        None => 0.0,
    }
}

const VCD: &str = r#"
$timescale 1ns $end
$scope module top $end
$var wire 1 ! clk $end
$var wire 1 " a $end
$upscope $end
$enddefinitions $end
#0
0!
0"
#5
1!
1"
#10
0!
#15
1!
#20
0!
"#;

#[test]
fn counts_transitions_and_time() {
    let v = parse(VCD).unwrap();
    assert!((sim_time_s(&v) - 20.0e-9).abs() < 1e-18);
    assert_eq!(*v.toggles.get("clk").unwrap(), 4);
    assert!((toggle_rate(&v, "clk") - 2.0e8).abs() < 1.0);
    assert_eq!(*v.toggles.get("a").unwrap(), 1);
}

#[test]
fn window_restricts_and_rescales() {
    let v = parse_windowed(VCD, Some((5.0e-9, Some(15.0e-9)))).unwrap();
    assert_eq!(*v.toggles.get("clk").unwrap(), 2);
    assert!((sim_time_s(&v) - 10.0e-9).abs() < 1e-18);
    assert!((toggle_rate(&v, "clk") - 2.0e8).abs() < 1.0);
    assert_eq!(*v.toggles.get("a").unwrap(), 1);
}

#[test]
fn window_open_ended_runs_to_end() {
    let v = parse_windowed(VCD, Some((10.0e-9, None))).unwrap();
    assert_eq!(*v.toggles.get("clk").unwrap(), 3);
    assert!((sim_time_s(&v) - 10.0e-9).abs() < 1e-18);
}

#[test]
fn window_outside_dump_is_zero_duration() {
    let v = parse_windowed(VCD, Some((100.0e-9, Some(200.0e-9)))).unwrap();
    assert!(sim_time_s(&v).abs() < 1e-18);
    assert_eq!(toggle_rate(&v, "clk"), 0.0);
    assert_eq!(v.toggles.get("clk").copied().unwrap_or(0), 0);
}

#[test]
fn no_window_matches_full_dump() {
    let full = parse(VCD).unwrap();
    let none = parse_windowed(VCD, None).unwrap();
    assert_eq!(full.toggles.get("clk"), none.toggles.get("clk"));
    assert!((sim_time_s(&full) - sim_time_s(&none)).abs() < 1e-18);
}

#[test]
fn consecutive_windows_split_the_dump() {
    let whole = parse(VCD).unwrap();
    for name in ["clk", "a"] {
        let mut sum = 0;
        for k in 0..3 {
            let to = if k < 2 { Some((k + 1) as f64 * 7.0e-9) } else { None };
            let v = parse_windowed(VCD, Some((k as f64 * 7.0e-9, to))).unwrap();
            sum += v.toggles.get(name).copied().unwrap_or(0);
        }
        assert_eq!(sum, *whole.toggles.get(name).unwrap());
    }
}

#[test]
fn changes_before_the_window_set_the_value() {
    // a goes 0 -> 1 before the window and is written 1 again in it: no transition.
    let text = "$var wire 1 a a $end #0 0a #5 1a #10 1a #15 0a";
    let v = parse_windowed(text, Some((8.0e-9, None))).unwrap();
    assert_eq!(v.toggles.get("a").copied(), Some(1));
}

#[test]
fn scalar_values_compare_without_case() {
    let text = "$var wire 1 a a $end 0a Xa xa Za zA za 1a";
    // 0 -> x, x -> z, z -> 1; the zA is another symbol.
    let v = parse(text).unwrap();
    assert_eq!(v.toggles.get("a").copied(), Some(3));
    assert!(v.toggles.get("A").is_none());
}

#[test]
fn vector_and_real_changes_count_each_time() {
    let text = "$var wire 8 v bus [7:0] $end $var real 64 r temp $end b0101 v b0101 v B1 v r1.5 r R2 r bx";
    let v = parse(text).unwrap();
    assert_eq!(v.toggles.get("bus").copied(), Some(3));
    assert_eq!(v.toggles.get("temp").copied(), Some(2));
}

#[test]
fn a_symbol_stands_for_its_latest_name() {
    let text = "$var wire 1 ! a $end 0! 1! $var wire 1 ! b $end 0! 1! 0!";
    let v = parse(text).unwrap();
    assert_eq!(v.toggles.get("a").copied(), Some(1));
    assert_eq!(v.toggles.get("b").copied(), Some(2));
}

#[test]
fn two_symbols_may_share_a_name() {
    let text = "$var wire 1 ! n $end $var wire 1 ? n $end 0! 1? 1! 0?";
    assert_eq!(parse(text).unwrap().toggles.get("n").copied(), Some(2));
}

#[test]
fn short_declarations_are_passed_over() {
    assert!(parse("$var wire 1").unwrap().toggles.get("wire").is_none());
    assert!(parse("$var wire 1 ! $end 0! 1!").unwrap().toggles.get("!").is_none());
    // The fourth word is the name, whatever it is.
    let v = parse("$var wire 1 ! $end $end 0! 1!").unwrap();
    assert_eq!(v.toggles.get("$end").copied(), Some(1));
}

#[test]
fn times_follow_the_scale_in_force() {
    let text = "#1 $timescale 10 us $end #2 $timescale furlong $end #3 $timescale 1MS $end";
    let marks = Vcd::marks(text);
    let got: Vec<f64> = marks.at.iter().map(seconds).collect();
    assert_eq!(got, vec![1.0 * 1e-9, 2.0 * (10.0 * 1e-6), 3.0 * 1e-9]);
    assert_eq!(marks.end.ticks, 3);
    assert_eq!(seconds(&marks.end), 3.0 * 1e-3);
}

#[test]
fn bad_time_marks_are_passed_over() {
    let marks = Vcd::marks("#5 #x # #-1 #18446744073709551616 #+7");
    let got: Vec<u64> = marks.at.iter().map(|m| m.ticks).collect();
    assert_eq!(got, vec![5, 7]);
}

#[test]
fn an_empty_dump_measures_nothing() {
    let v = parse("").unwrap();
    assert_eq!(sim_time_s(&v), 0.0);
    assert_eq!(toggle_rate(&v, "clk"), 0.0);
    assert_eq!(Vcd::marks("").end.ticks, 0);
}

#[test]
fn the_measured_span_is_cut_to_the_dump() {
    let span = |f: f64, t: Option<f64>| {
        let v = parse_windowed(VCD, Some((f, t))).unwrap();
        (float(v.from_s), float(v.to_s))
    };
    let end = 20.0 * 1e-9;
    assert_eq!(span(-1.0, Some(1.0)), (0.0, end));
    assert_eq!(span(5e-9, Some(1.0)), (5e-9, end));
    assert_eq!(span(5e-9, Some(1e-9)), (5e-9, 5e-9));
    assert_eq!(span(1.0, None), (end, end));
}

#[test]
fn the_error_is_a_sentence() {
    assert_eq!(VcdError("x: no such file".to_string()).message(), "vcd error: x: no such file");
}

#[test]
fn a_copy_measures_the_same() {
    let v = parse(VCD).unwrap();
    let c = v.clone();
    assert_eq!(c.toggles.get("clk"), v.toggles.get("clk"));
    assert_eq!(c.toggles.get("a").copied(), Some(1));
    assert!(c.toggles.get("b").is_none());
    assert_eq!(sim_time_s(&c), sim_time_s(&v));
    let none = Vcd::default();
    assert!(none.toggles.get("clk").is_none());
    assert_eq!(sim_time_s(&none), 0.0);
}
