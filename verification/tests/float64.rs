use sqm_autorate::arithmetic::seconds_as_double;
use sqm_autorate::float64::Float64;
use sqm_autorate::sorting::sort;
use std::time::Duration;

fn double(x: f64) -> Float64 {
    Float64 { bits: x.to_bits() }
}

fn native(x: Float64) -> f64 {
    f64::from_bits(x.bits)
}

/// Doubles of all sorts: special ones, whole ones, and patterns all over the range.
fn samples() -> Vec<f64> {
    let mut all: Vec<f64> = vec![
        0.0,
        -0.0,
        1.0,
        -1.0,
        0.5,
        -0.5,
        0.1,
        0.2,
        0.3,
        1.5,
        2.5,
        -2.5,
        0.95,
        1000.0,
        9_007_199_254_740_992.0,
        9_007_199_254_740_993.0,
        18_446_744_073_709_551_615.0,
        18_446_744_073_709_549_568.0,
        4_503_599_627_370_495.5,
        4_503_599_627_370_496.5,
        0.49999999999999994,
        f64::MIN_POSITIVE,
        -f64::MIN_POSITIVE,
        5e-324,
        -5e-324,
        f64::MAX,
        f64::MIN,
        f64::INFINITY,
        f64::NEG_INFINITY,
        f64::NAN,
        f64::EPSILON,
    ];
    let mut seed: u64 = 0x9E37_79B9_7F4A_7C15;
    for i in 0..60 {
        seed = seed.wrapping_mul(6_364_136_223_846_793_005).wrapping_add(1_442_695_040_888_963_407);
        all.push(f64::from_bits(seed));
        // Numbers of everyday size, and subnormal ones.
        all.push(f64::from_bits((seed >> 12) | ((1000 + (i % 50)) << 52)));
        all.push(f64::from_bits(seed >> 12));
        all.push((seed >> 40) as f64);
    }
    all
}

fn assert_same(what: &str, a: f64, b: f64, ours: Float64, theirs: f64) {
    if theirs.is_nan() {
        assert!(native(ours).is_nan(), "{what} of {a:e} and {b:e}");
    } else {
        assert_eq!(ours.bits, theirs.to_bits(), "{what} of {a:e} and {b:e}");
    }
}

#[test]
fn sums_are_those_of_the_processor() {
    for a in samples() {
        for b in samples() {
            assert_same("sum", a, b, double(a).add_number(double(b)), a + b);
            assert_same("difference", a, b, double(a).subtract(double(b)), a - b);
        }
    }
}

#[test]
fn products_are_those_of_the_processor() {
    for a in samples() {
        for b in samples() {
            assert_same("product", a, b, double(a).multiply(double(b)), a * b);
        }
    }
}

#[test]
fn quotients_are_those_of_the_processor() {
    for a in samples() {
        for b in samples() {
            assert_same("quotient", a, b, double(a).divide(double(b)), a / b);
        }
    }
}

#[test]
fn small_sums_are_exact_or_rounded_to_even() {
    assert_eq!(native(double(0.1).add_number(double(0.2))), 0.30000000000000004);
    assert_eq!(native(double(1.0).add_number(double(f64::EPSILON / 2.0))), 1.0);
    assert_eq!(native(double(1.0).subtract(double(1.0))), 0.0);
    assert_eq!(double(-0.0).add_number(double(-0.0)).bits, (-0.0f64).to_bits());
    assert!(native(double(f64::INFINITY).subtract(double(f64::INFINITY))).is_nan());
    assert!(native(double(0.0).divide(double(0.0))).is_nan());
    assert_eq!(native(double(1.0).divide(double(-0.0))), f64::NEG_INFINITY);
}

#[test]
fn order_is_that_of_the_processor() {
    for a in samples() {
        for b in samples() {
            assert_eq!(double(a).less_than(double(b)), a < b, "{a:e} < {b:e}");
            assert_eq!(double(a).equals(double(b)), a == b, "{a:e} == {b:e}");
            assert_eq!(double(a).ranks_at_most(double(b)), a.total_cmp(&b).is_le());
            let larger = native(double(a).max(double(b)));
            let smaller = native(double(a).min(double(b)));
            assert!(larger == a.max(b) || (larger.is_nan() && a.max(b).is_nan()));
            assert!(smaller == a.min(b) || (smaller.is_nan() && a.min(b).is_nan()));
        }
        assert_eq!(double(a).is_nan(), a.is_nan());
        assert_eq!(double(a).is_negative(), a.is_sign_negative());
        assert_eq!(double(a).negate().bits, (-a).to_bits());
        assert_eq!(double(a).pattern_bits(), a.abs().to_bits());
    }
}

#[test]
fn rounding_is_that_of_the_standard_library() {
    for a in samples() {
        assert_same("floor", a, a, double(a).floor(), a.floor());
        assert_eq!(double(a).to_u64(), a as u64, "{a:e}");
        assert_eq!(double(a).round_to_u64(), a.round() as u64, "{a:e}");
    }
    assert_eq!(native(double(-0.5).floor()), -1.0);
    assert_eq!(double(949.5).round_to_u64(), 950);
    assert_eq!(double(949.5).to_u64(), 949);
}

#[test]
fn integers_become_the_nearest_double() {
    let mut n: i128 = 1;
    for i in 0..126 {
        for d in [-3, -1, 0, 1, 2, 3] {
            let x: i128 = n + d * (n >> 53).max(1);
            assert_eq!(Float64::from_integer(x).bits, (x as f64).to_bits(), "{x}");
            assert_eq!(Float64::from_integer(-x).bits, (-x as f64).to_bits(), "-{x}");
        }
        n = n * 2 + (i % 2);
    }
    assert_eq!(Float64::from_integer(0).bits, 0.0f64.to_bits());
    assert_eq!(Float64::from_integer(i128::MIN).bits, (i128::MIN as f64).to_bits());
    assert_eq!(Float64::from_integer(i128::MAX).bits, (i128::MAX as f64).to_bits());
}

#[test]
fn seconds_become_durations() {
    for a in samples() {
        let ours = double(a).to_nanos();
        match Duration::try_from_secs_f64(a) {
            Ok(theirs) => assert_eq!(ours, Some(theirs.as_nanos()), "{a:e}"),
            Err(_) => assert_eq!(ours, None, "{a:e}"),
        }
    }
    assert_eq!(double(0.5).to_nanos(), Some(500_000_000));
    assert_eq!(double(10.0).to_nanos(), Some(10_000_000_000));
    assert_eq!(double(-1.0).to_nanos(), None);
}

#[test]
fn durations_become_seconds() {
    let mut seed: u64 = 7;
    for i in 0..2000 {
        seed = seed.wrapping_mul(6_364_136_223_846_793_005).wrapping_add(1_442_695_040_888_963_407);
        let d = Duration::new(seed >> (i % 60), (seed % 1_000_000_000) as u32);
        assert_eq!(native(seconds_as_double(d.as_nanos())), d.as_secs_f64());
    }
    assert_eq!(native(seconds_as_double(1_500_000_000)), 1.5);
}

#[test]
fn halves_of_an_integer_add_up() {
    for n in [0i64, 1, -1, 7, -13, 86_399_999, i64::MAX, i64::MIN] {
        let half = Float64::from_integer(n as i128).divide(Float64::from_integer(2));
        assert_eq!(half.add_number(half).bits, (n as f64).to_bits());
    }
}

#[test]
fn sorting_follows_the_total_order() {
    let mut theirs = samples();
    let ours: Vec<Float64> = theirs.iter().map(|x| double(*x)).collect();
    theirs.sort_by(|a, b| a.total_cmp(b));
    let sorted = sort(&ours);
    assert_eq!(sorted.len(), theirs.len());
    for (a, b) in sorted.iter().zip(theirs.iter()) {
        assert_eq!(a.bits, b.to_bits());
    }
}
