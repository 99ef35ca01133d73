use drivel::double::Double;

fn d(x: f64) -> Double {
    Double::from_bits(x.to_bits())
}

#[test]
fn from_i64_matches_hardware_conversion() {
    let mut values: Vec<i64> = vec![
        0, 1, -1, 2, 3, 10, 42, -42, 100, 1 << 52, (1 << 53) - 1, 1 << 53, (1 << 53) + 1,
        (1 << 53) + 2, (1 << 53) + 3, (1 << 54) + 1, (1 << 54) + 2, (1 << 54) + 3, (1 << 54) + 5,
        (1 << 54) + 6, (1 << 54) + 7, i64::MAX, i64::MAX - 1, i64::MIN, i64::MIN + 1,
        i64::MAX - 511, i64::MAX - 512, i64::MAX - 513, 0x7fff_ffff_ffff_fbff,
        0x7fff_ffff_ffff_fc00, 0x7fff_ffff_ffff_fdff, 0x7fff_ffff_ffff_fe00,
    ];
    let mut x: i64 = 1;
    for i in 0..2000 {
        x = x.wrapping_mul(6364136223846793005).wrapping_add(1442695040888963407);
        values.push(x >> (i % 64));
    }
    for v in values {
        assert_eq!(Double::from_i64(v).to_bits(), (v as f64).to_bits(), "value {}", v);
    }
}

#[test]
fn from_u64_matches_hardware_conversion() {
    let mut values: Vec<u64> = vec![
        0, 1, u64::MAX, u64::MAX - 1, u64::MAX - 1023, u64::MAX - 1024, u64::MAX - 1025,
        u64::MAX - 2047, u64::MAX - 2048, 1 << 63, (1 << 63) + 1024, (1 << 63) + 1025,
        (1 << 63) + 3072,
    ];
    let mut x: u64 = 7;
    for i in 0..2000 {
        x = x.wrapping_mul(6364136223846793005).wrapping_add(1442695040888963407);
        values.push(x >> (i % 64));
    }
    for v in values {
        assert_eq!(Double::from_u64(v).to_bits(), (v as f64).to_bits(), "value {}", v);
    }
}

#[test]
fn min_and_max_follow_the_numeric_order() {
    let samples = [
        -f64::INFINITY, -1.0e300, -104.5, -1.0, -1.0e-300, -0.0, 0.0, 5.0e-324, 1.0e-300, 0.5,
        1.0, 10.0, 10.5, 104.5, 1.0e300, f64::MAX, f64::INFINITY,
    ];
    for (i, a) in samples.iter().enumerate() {
        for (j, b) in samples.iter().enumerate() {
            let lo = d(*a).min(d(*b));
            let hi = d(*a).max(d(*b));
            let (want_lo, want_hi) = if i <= j { (*a, *b) } else { (*b, *a) };
            assert_eq!(lo.to_bits(), want_lo.to_bits());
            assert_eq!(hi.to_bits(), want_hi.to_bits());
            assert_eq!(d(*a).below(d(*b)), a < b);
            assert_eq!(d(*a).above(d(*b)), a > b);
            assert_eq!(d(*a).same(d(*b)), a == b);
        }
    }
}

#[test]
fn nan_gives_way_in_min_and_max() {
    let nan = d(f64::NAN);
    assert!(nan.nan());
    assert_eq!(nan.min(d(3.0)).to_bits(), 3.0f64.to_bits());
    assert_eq!(d(3.0).min(nan).to_bits(), 3.0f64.to_bits());
    assert_eq!(nan.max(d(3.0)).to_bits(), 3.0f64.to_bits());
    assert_eq!(d(3.0).max(nan).to_bits(), 3.0f64.to_bits());
    assert!(!nan.below(d(3.0)));
    assert!(!d(3.0).below(nan));
    assert!(!nan.same(nan));
    assert!(!nan.finite());
    assert!(!d(f64::INFINITY).finite());
    assert!(d(1.0).finite());
}

#[test]
fn ratio_comparison_matches_hardware_division() {
    let limits = [
        0.0, -0.0, -1.0, 1.0e-320, 1.0e-30, 0.1, 0.2, 0.25, 0.3, 0.3333333333333333,
        0.33333333333333337, 0.3333333333333333 - 5.551115123125783e-17, 0.4, 0.5,
        0.49999999999999994, 0.5000000000000001, 0.6, 0.6666666666666666, 0.6666666666666667,
        0.75, 0.9, 0.9999999999999999, 1.0, 1.0000000000000002, 2.0, 1.0e300, f64::MAX,
        f64::INFINITY, -f64::INFINITY, f64::NAN, 1.0 / 7.0, 3.0 / 7.0, 1.0 / 1000.0,
        999.0 / 1000.0,
    ];
    for whole in 1usize..60 {
        for part in 1..=whole {
            let ratio = part as f64 / whole as f64;
            for limit in limits {
                assert_eq!(
                    d(limit).at_least_ratio(part, whole),
                    ratio <= limit,
                    "{} / {} against {}",
                    part,
                    whole,
                    limit
                );
            }
            let near = ratio;
            let below = f64::from_bits(near.to_bits() - 1);
            let above = f64::from_bits(near.to_bits() + 1);
            assert!(d(near).at_least_ratio(part, whole));
            assert!(!d(below).at_least_ratio(part, whole));
            assert!(d(above).at_least_ratio(part, whole));
        }
    }
    let wholes = [1000usize, 12345, 1 << 20, (1 << 31) - 1, 1 << 40, (1usize << 53) - 1];
    for whole in wholes {
        for part in [1usize, 2, 3, whole / 3, whole / 2, whole - 1, whole] {
            if part == 0 || part > whole {
                continue;
            }
            let ratio = part as f64 / whole as f64;
            let below = f64::from_bits(ratio.to_bits() - 1);
            assert!(d(ratio).at_least_ratio(part, whole));
            assert!(!d(below).at_least_ratio(part, whole));
            for limit in limits {
                assert_eq!(d(limit).at_least_ratio(part, whole), ratio <= limit);
            }
        }
    }
}

fn sample_doubles() -> Vec<f64> {
    let mut values = vec![
        0.0, -0.0, 0.5, -0.5, 0.99, -0.99, 1.0, -1.0, 1.5, -1.5, 2.5, 1.0e10, -1.0e10, 5.0e-324,
        2.2250738585072014e-308, 2.225073858507201e-308, 4503599627370496.0, 4503599627370497.0,
        9007199254740992.0, 9007199254740993.0, 9223372036854775807.0, 9223372036854774784.0,
        -9223372036854775808.0, -9223372036854777856.0, 1.8446744073709552e19, 1.0e300, -1.0e300,
        f64::MAX, f64::MIN, f64::MAX / 2.0, f64::MIN / 2.0, 8.98846567431158e307,
        -8.98846567431158e307, 8.988465674311579e307, 8.988465674311582e307, 1.9958403095347198e292,
        -1.9958403095347198e292, 9.979201547673599e291, -9.9792015476736e291, 1.99584030953472e292,
        3.0e292, -3.0e292, 1.0e291, 1.7976931348623155e308, -1.7976931348623155e308,
    ];
    let mut x: u64 = 99;
    for _ in 0..3000 {
        x = x.wrapping_mul(6364136223846793005).wrapping_add(1442695040888963407);
        let candidate = f64::from_bits(x);
        if candidate.is_finite() {
            values.push(candidate);
        }
    }
    values
}

#[test]
fn to_i64_matches_hardware_cast() {
    let mut values = sample_doubles();
    values.push(f64::INFINITY);
    values.push(-f64::INFINITY);
    values.push(f64::NAN);
    let mut x: u64 = 5;
    for i in 0..3000 {
        x = x.wrapping_mul(6364136223846793005).wrapping_add(1442695040888963407);
        let v = ((x >> (i % 64)) as i64) as f64;
        values.push(v);
        values.push(-v);
        values.push(v + 0.5);
        values.push(v / 3.0);
    }
    for v in values {
        assert_eq!(d(v).to_i64(), v as i64, "value {}", v);
    }
}

#[test]
fn finite_span_matches_hardware_subtraction() {
    let values = sample_doubles();
    let extremes: Vec<f64> = values.iter().copied().take(45).collect();
    for (i, a) in values.iter().enumerate() {
        let others: Vec<f64> = if i < 45 { values.clone() } else { extremes.clone() };
        for b in others {
            let range = b - *a;
            let expected = range.is_finite() && range > 0.0;
            assert_eq!(d(*a).has_finite_span(d(b)), expected, "{} .. {}", a, b);
            let back = *a - b;
            assert_eq!(d(b).has_finite_span(d(*a)), back.is_finite() && back > 0.0);
        }
    }
}

#[test]
fn operators_follow_the_numeric_order() {
    let samples = [
        -f64::INFINITY, -2.5, -0.0, 0.0, 5.0e-324, 1.0, 2.5, f64::MAX, f64::INFINITY, f64::NAN,
    ];
    for a in samples {
        for b in samples {
            assert_eq!(d(a) == d(b), a == b, "{} == {}", a, b);
            assert_eq!(d(a) != d(b), a != b, "{} != {}", a, b);
            assert_eq!(d(a) < d(b), a < b, "{} < {}", a, b);
            assert_eq!(d(a) <= d(b), a <= b, "{} <= {}", a, b);
            assert_eq!(d(a) > d(b), a > b, "{} > {}", a, b);
            assert_eq!(d(a) >= d(b), a >= b, "{} >= {}", a, b);
            assert_eq!(d(a).partial_cmp(&d(b)), a.partial_cmp(&b));
        }
    }
}
