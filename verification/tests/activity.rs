use vyges_power::activity::{Activity, NetName, Rates, ToggleSource};
use vyges_power::double::Double;
use vyges_power::name_map::NameMap;

fn double(x: f64) -> Double {
    Double { bits: x.to_bits() }
}

fn float(d: Double) -> f64 {
    f64::from_bits(d.bits)
}

struct Sparse;

impl ToggleSource for Sparse {
    fn rate_of(&self, _net: NetName) -> Double {
        unreachable!("only contracts speak of it")
    }

    fn toggle_rate(&self, net: &str) -> Double {
        if net == "seen" {
            double(1.0e6)
        } else {
            double(0.0)
        }
    }
}

fn names(v: &[&str]) -> Vec<String> {
    v.iter().map(|s| s.to_string()).collect()
}

#[test]
fn vectored_coverage_counts_only_the_nets_the_dump_names() {
    let a = Activity::vectored(Sparse, "vectored (test)", double(0.2 * 1.0e9));
    let (hit, total) = a.coverage(&names(&["seen", "unseen", "also_unseen"]));
    assert_eq!((hit, total), (1, 3));
}

#[test]
fn vectorless_reports_no_net_as_covered() {
    let a: Activity<Sparse> = Activity::vectorless(double(0.2 * 1.0e9));
    let (hit, total) = a.coverage(&names(&["a", "b"]));
    assert_eq!((hit, total), (0, 2));
}

#[test]
fn a_net_the_dump_does_not_name_still_gets_the_fallback_rate() {
    let a = Activity::vectored(Sparse, "vectored (test)", double(0.2 * 1.0e9));
    assert!(float(a.rate("unseen")) > 0.0, "an unnamed net falls back rather than reading zero");
    assert_eq!(float(a.rate("seen")), 1.0e6);
}

#[test]
fn modes_name_the_source() {
    let a: Activity<Sparse> = Activity::vectorless(double(1.0));
    assert_eq!(a.mode(), "vectorless");
    assert_eq!(float(a.rate("anything")), 1.0);
    let a = Activity::vectored(Sparse, "vectored (test)", double(1.0));
    assert_eq!(a.mode(), "vectored (test)");
}

#[test]
fn a_table_of_rates_is_a_source() {
    let mut by_net = NameMap::new();
    by_net.insert("a".to_string(), double(5.0));
    by_net.insert("b".to_string(), double(-5.0));
    by_net.insert("c".to_string(), double(f64::NAN));
    let rates = Rates { by_net };
    assert_eq!(float(rates.toggle_rate("a")), 5.0);
    assert_eq!(float(rates.toggle_rate("absent")), 0.0);
    let act = Activity::vectored(rates, "table", double(2.0));
    assert_eq!(float(act.rate("a")), 5.0);
    assert_eq!(float(act.rate("b")), 2.0);
    assert_eq!(float(act.rate("c")), 2.0);
    assert_eq!(float(act.rate("d")), 2.0);
    assert_eq!(act.coverage(&names(&["a", "b", "c", "d", "a"])), (2, 5));
}
