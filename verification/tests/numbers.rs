use mlat_server::scalar::Scalar;

fn sc(x: f64) -> Scalar {
    Scalar::new(x.to_bits())
}

fn samples() -> Vec<f64> {
    let mut v = vec![
        0.0,
        -0.0,
        1.0,
        -1.0,
        0.5,
        -0.5,
        1.5,
        2.5,
        -2.5,
        63.0,
        64.0,
        96.0,
        -96.0,
        4.5,
        4.6,
        3.8,
        450_000.0,
        450_000.00000000006,
        1e-4,
        1e300,
        -1e300,
        5e-324,
        -5e-324,
        f64::MIN_POSITIVE,
        f64::MAX,
        f64::MIN,
        f64::INFINITY,
        f64::NEG_INFINITY,
        f64::NAN,
        2147483647.0,
        2147483648.0,
        -2147483648.0,
        -2147483649.0,
    ];
    let mut s: u64 = 0x9e37_79b9_7f4a_7c15;
    for i in 0..2000 {
        s = s.wrapping_mul(6364136223846793005).wrapping_add(1442695040888963407);
        if i % 2 == 0 {
            v.push(f64::from_bits(s));
        } else {
            let m = (s >> 11) as f64 / 9007199254740992.0;
            v.push((m - 0.5) * 20000.0);
        }
    }
    v
}

#[test]
fn comparisons_agree_with_the_machine() {
    let v = samples();
    for i in 0..v.len() {
        let a = v[i];
        let b = v[(i * 7 + 3) % v.len()];
        assert_eq!(sc(a).lt(sc(b)), a < b, "{} < {}", a, b);
        assert_eq!(sc(a).le(sc(b)), a <= b, "{} <= {}", a, b);
        assert_eq!(sc(a).lt(sc(a)), false);
        assert_eq!(sc(a).nan(), a.is_nan());
        assert_eq!(sc(a).negated(), sc(-a));
    }
}

#[test]
fn thresholds_agree_with_the_machine() {
    for a in samples() {
        for k in [0u64, 1, 5, 85, 100, 500, 5000, 450_000, 600_000] {
            assert_eq!(sc(a).exceeds(k, 1), a > k as f64, "{} > {}", a, k);
            assert_eq!(sc(a).falls_below(k, 1), a < k as f64, "{} < {}", a, k);
        }
        assert_eq!(sc(a).exceeds(9, 2), a > 4.5);
        assert_eq!(sc(a).falls_below(1, 2), a < 0.5);
    }
    assert!(!sc(4.6).exceeds(46, 10));
    assert!(sc(4.6000000001).exceeds(46, 10));
    assert!(!sc(4.5999999999).exceeds(46, 10));
}

#[test]
fn rounding_agrees_with_the_machine() {
    for a in samples() {
        assert_eq!(sc(a).round(0), a.round() as i32, "{}", a);
        assert_eq!(sc(a).round(6), (a / 64.0).round() as i32, "{}", a);
    }
    assert_eq!(sc(2.5).round(0), 3);
    assert_eq!(sc(-2.5).round(0), -3);
    assert_eq!(sc(f64::NAN).round(0), 0);
    assert_eq!(sc(1e300).round(0), i32::MAX);
}

#[test]
fn scaled_comparison_is_exact() {
    assert!(sc(6.4).scaled_lt(20, sc(10.0), 13));
    assert!(!sc(6.5).scaled_lt(20, sc(10.0), 13));
    assert!(!sc(6.6).scaled_lt(20, sc(10.0), 13));
    assert!(!sc(f64::NAN).scaled_lt(20, sc(10.0), 13));
    assert!(!sc(1.0).scaled_lt(20, sc(f64::NAN), 13));
    assert!(sc(1.0).scaled_lt(20, sc(f64::INFINITY), 13));
    assert!(sc(0.0).scaled_lt(20, sc(1e-300), 13));
}

#[test]
fn zero_is_zero() {
    assert_eq!(Scalar::zero().bits, 0f64.to_bits());
}
