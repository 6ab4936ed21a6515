use rotastellar_agent::double::Double;

fn d(x: f64) -> Double {
    Double::from_bits(x.to_bits())
}

fn f(x: Double) -> f64 {
    f64::from_bits(x.to_bits())
}

/// A fixed spread of bit patterns: zeros, subnormals, ordinary numbers, the
/// largest ones, infinities, and a stream of scrambled patterns.
fn samples() -> Vec<f64> {
    let mut all: Vec<f64> = vec![
        0.0,
        -0.0,
        1.0,
        -1.0,
        0.5,
        1.5,
        2.5,
        -2.5,
        0.1,
        0.3,
        100.0,
        1e-308,
        5e-324,
        -5e-324,
        2.2250738585072014e-308,
        2.225073858507201e-308,
        1.7976931348623157e308,
        -1.7976931348623157e308,
        9007199254740992.0,
        9007199254740993.0,
        4503599627370495.5,
        9.223372036854776e18,
        1.8446744073709552e19,
        f64::INFINITY,
        f64::NEG_INFINITY,
        f64::NAN,
    ];
    let mut x: u64 = 0x9e37_79b9_7f4a_7c15;
    for i in 0..160u64 {
        x ^= x << 13;
        x ^= x >> 7;
        x ^= x << 17;
        all.push(f64::from_bits(x));
        // Numbers near one, where additions cancel.
        all.push(f64::from_bits((x >> 12) | ((1015 + i % 16) << 52)));
    }
    all
}

fn same(x: Double, y: f64) -> bool {
    if y.is_nan() {
        x.is_nan()
    } else {
        x.to_bits() == y.to_bits()
    }
}

#[test]
fn arithmetic_matches_the_machine() {
    let all = samples();
    for &a in &all {
        for &b in &all {
            assert!(same(d(a).plus(d(b)), a + b), "{:e} + {:e}", a, b);
            assert!(same(d(a).minus(d(b)), a - b), "{:e} - {:e}", a, b);
            assert!(same(d(a).times(d(b)), a * b), "{:e} * {:e}", a, b);
            assert!(same(d(a).over(d(b)), a / b), "{:e} / {:e}", a, b);
            assert_eq!(d(a).is_less(d(b)), a < b);
            assert_eq!(d(a).is_at_most(d(b)), a <= b);
            assert_eq!(d(a).equals(d(b)), a == b);
        }
    }
}

#[test]
fn single_operations_match_the_machine() {
    for &a in &samples() {
        assert!(same(d(a).sqrt(), a.sqrt()), "sqrt {:e}", a);
        assert!(same(d(a).round(), a.round()), "round {:e}", a);
        assert!(same(d(a).floor(), a.floor()), "floor {:e}", a);
        assert!(same(d(a).negate(), -a));
        assert!(same(d(a).abs(), a.abs()));
        assert_eq!(d(a).to_i64(), a as i64);
        assert_eq!(d(a).to_u64(), a as u64);
        assert_eq!(d(a).is_finite(), a.is_finite());
    }
}

#[test]
fn ties_go_to_even() {
    assert_eq!(f(Double::from_u64(9007199254740993)), 9007199254740992.0);
    assert_eq!(f(Double::from_u64(9007199254740995)), 9007199254740996.0);
    assert_eq!(f(Double::from_i64(i64::MIN)), i64::MIN as f64);
    assert_eq!(f(Double::from_u64(u64::MAX)), u64::MAX as f64);
}

#[test]
fn decimals_are_the_literals() {
    assert_eq!(f(Double::decimal(299792458, 1000)), 299792.458);
    assert_eq!(f(Double::decimal(108263, 100000000)), 1.08263e-3);
    assert_eq!(f(Double::decimal(36098564736629, 100000000000)), 360.98564736629);
    assert_eq!(f(Double::decimal(1495978707, 10)), 149597870.7);
    assert_eq!(f(Double::decimal(-15, 1)), -15.0);
}

#[test]
fn choices_between_numbers() {
    assert_eq!(f(d(1.0).max(d(2.0))), 2.0);
    assert_eq!(f(d(f64::NAN).max(d(2.0))), 2.0);
    assert_eq!(f(d(1.0).max(d(f64::NAN))), 1.0);
    assert_eq!(f(d(1.0).min(d(2.0))), 1.0);
    assert_eq!(f(d(f64::NAN).min(d(2.0))), 2.0);
    assert_eq!(f(d(-5.0).clamp(d(0.0), d(100.0))), 0.0);
    assert_eq!(f(d(250.0).clamp(d(0.0), d(100.0))), 100.0);
    assert_eq!(f(d(42.0).clamp(d(0.0), d(100.0))), 42.0);
}

#[test]
fn remainders_match_the_machine() {
    for a in samples() {
        for b in samples() {
            assert!(same(d(a).rem(d(b)), a % b), "{} % {}", a, b);
            assert!(same(d(a).rem_euclid(d(b)), a.rem_euclid(b)), "{} rem_euclid {}", a, b);
        }
    }
}

#[test]
fn tenths_are_written_as_the_machine_does() {
    let mut all = samples();
    for x in [0.05, 0.15, 0.25, 0.35, 0.75, 1.25, 9.95, 9.96, 10.0, 80.04999, 1e21, 123456789.05, -0.04, -3.25] {
        all.push(x);
    }
    for x in all {
        assert_eq!(d(x).to_tenths(), format!("{:.1}", x));
    }
}

#[test]
fn small_integers_are_exact() {
    let small: [i64; 7] = [0, 1, -1, 750, -200, 4_503_599_627_370_496, -4_503_599_627_370_496];
    for a in small {
        assert_eq!(f(Double::from_i64(a)) as i64, a);
        for b in small {
            assert_eq!(Double::from_i64(a).plus(Double::from_i64(b)), Double::from_i64(a + b));
        }
    }
}
