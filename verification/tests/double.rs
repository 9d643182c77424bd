use vyges_power::double::Double;

fn double(x: f64) -> Double {
    Double { bits: x.to_bits() }
}

fn samples() -> Vec<f64> {
    vec![
        0.0,
        -0.0,
        1.0,
        -1.0,
        f64::MIN_POSITIVE,
        -f64::MIN_POSITIVE,
        f64::from_bits(1),
        -f64::from_bits(1),
        f64::MAX,
        f64::MIN,
        f64::INFINITY,
        f64::NEG_INFINITY,
        f64::NAN,
        -f64::NAN,
        0.2,
        1e-9,
        200e-9,
    ]
}

#[test]
fn comparisons_agree_with_floats() {
    for a in samples() {
        for b in samples() {
            assert_eq!(double(a).lt(&double(b)), a < b, "{a} < {b}");
            assert_eq!(double(a).le(&double(b)), a <= b, "{a} <= {b}");
        }
        assert_eq!(double(a).is_nan(), a.is_nan());
        assert_eq!(double(a).is_positive(), a > 0.0);
        assert_eq!(f64::from_bits(double(a).abs().bits).to_bits(), a.abs().to_bits());
    }
}

#[test]
fn truncation_agrees_with_floats() {
    let mut all = samples();
    for e in -5..70 {
        let p = (e as f64).exp2();
        all.extend([p, p * 1.5, p - 0.25, p * 1.9999999, -p]);
    }
    all.extend([0.999999, 4503599627370496.5, 9007199254740993.0, 1.8446744073709552e19, 1.8446744073709550e19]);
    for a in all {
        assert_eq!(double(a).to_u64(), a as u64, "{a}");
    }
}
