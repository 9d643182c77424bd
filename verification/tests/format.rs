use vyges_power::double::Double;
use vyges_power::format::{column_fits, fitting_prefix, fmt_a, fmt_w, jlist, jstr, trunc, Prefix, Quantity};

fn quantity(x: f64) -> Quantity {
    let value = Double { bits: x.to_bits() };
    let scaled = match fitting_prefix(value) {
        Prefix::Milli => x * 1e3,
        Prefix::Micro => x * 1e6,
        Prefix::Nano => x * 1e9,
        Prefix::Pico | Prefix::Zero => x * 1e12,
    };
    Quantity { value, digits: format!("{scaled:.3}") }
}

#[test]
fn powers_take_the_prefix_that_fits() {
    for (x, want) in [
        (1.5, "1500.000 mW"),
        (1e-3, "1.000 mW"),
        (0.99e-3, "990.000 uW"),
        (1e-6, "1.000 uW"),
        (-2.5e-7, "-250.000 nW"),
        (1e-9, "1.000 nW"),
        (7e-10, "700.000 pW"),
        (0.0, "0"),
        (-0.0, "0"),
        (f64::NAN, "NaN pW"),
        (f64::INFINITY, "inf mW"),
    ] {
        assert_eq!(fmt_w(&quantity(x)), want);
    }
}

#[test]
fn currents_take_the_prefix_that_fits() {
    for (x, want) in [
        (0.25, "250.000 mA"),
        (3e-6, "3.000 uA"),
        (4e-9, "4.000 nA"),
        (5e-12, "5.000 pA"),
        (0.0, "0"),
    ] {
        assert_eq!(fmt_a(&quantity(x)), want);
    }
}

#[test]
fn long_names_are_cut() {
    assert_eq!(trunc("short", 20), "short");
    assert_eq!(trunc("exactly_ten", 11), "exactly_ten");
    assert_eq!(trunc("a_rather_long_instance_name", 20), "a_rather_long_insta…");
    assert_eq!(trunc("éé", 4), "éé");
    assert_eq!(trunc("éééé", 5), "éé…");
    assert_eq!(trunc("ab", 1), "…");
    assert_eq!(trunc("ab", 0), "…");
    assert_eq!(trunc("", 0), "");
}

#[test]
fn json_strings_escape_what_they_must() {
    assert_eq!(jstr("plain"), "\"plain\"");
    assert_eq!(jstr("a\"b\\c\nd\te"), "\"a\\\"b\\\\c\\nd\te\"");
    assert_eq!(jstr(""), "\"\"");
    assert_eq!(jlist(&vec![]), "");
    assert_eq!(jlist(&vec!["a".to_string(), "b\"".to_string()]), "\"a\", \"b\\\"\"");
}

#[test]
fn a_text_fits_that_is_short_or_can_be_cut() {
    assert!(column_fits("short", 20));
    assert!(column_fits("", 0));
    assert!(column_fits("ab", 0));
    assert!(column_fits("ééé", 6));
    assert!(column_fits("ééé", 5));
    assert!(!column_fits("ééé", 4));
    assert!(column_fits("aéé", 4));
    assert!(!column_fits("aéé", 3));
}
