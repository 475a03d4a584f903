use wayhand_mcp::double::Double;

fn double(value: f64) -> Double {
    Double::from_bits(value.to_bits()).unwrap()
}

/// Doubles of all sizes and signs.
fn samples() -> Vec<f64> {
    let mut values = vec![
        0.0,
        1.0,
        -1.0,
        0.5,
        3.0,
        0.1,
        -0.2,
        65_535.0,
        1.0 / 3.0,
        1e-300,
        -1e-308,
        5e-324,
        f64::MIN_POSITIVE,
        9_007_199_254_740_991.0,
        -9_007_199_254_740_992.0,
        1e100,
        1.7e154,
        f64::EPSILON,
        1.0 + f64::EPSILON,
    ];
    let mut state: u64 = 0x9e37_79b9_7f4a_7c15;
    for _ in 0..60 {
        state = state.wrapping_mul(6_364_136_223_846_793_005).wrapping_add(1_442_695_040_888_963_407);
        let exponent = 1023 - 80 + (state >> 33) % 160;
        let sign = state & (1 << 63);
        values.push(f64::from_bits(sign | (exponent << 52) | (state & ((1 << 52) - 1))));
    }
    values
}

/// The bits of a double, without the sign of zero.
fn bits(value: f64) -> u64 {
    if value == 0.0 {
        0
    } else {
        value.to_bits()
    }
}

#[test]
fn bits_are_kept() {
    for value in samples() {
        assert_eq!(double(value).to_bits(), bits(value));
    }
    assert!(Double::from_bits(f64::NAN.to_bits()).is_none());
    assert!(Double::from_bits(f64::INFINITY.to_bits()).is_none());
    assert!(Double::from_bits(f64::NEG_INFINITY.to_bits()).is_none());
    assert_eq!(double(f64::MAX).to_bits(), f64::MAX.to_bits());
    assert_eq!(double(-0.0).to_bits(), 0);
}

#[test]
fn arithmetic_is_that_of_the_machine() {
    for a in samples() {
        for b in samples() {
            let (x, y) = (double(a), double(b));
            assert_eq!(x.plus(&y).to_bits(), bits(a + b), "{} + {}", a, b);
            assert_eq!(x.minus(&y).to_bits(), bits(a - b), "{} - {}", a, b);
            assert_eq!(x.is_below(&y), a < b, "{} < {}", a, b);
            let product = x.times(&y);
            assert_eq!(product.fits(), (a * b).is_finite());
            assert_eq!(product.to_bits(), bits(a * b), "{} * {}", a, b);
            if b > 0.0 {
                let quotient = x.over(&y);
                assert_eq!(quotient.fits(), (a / b).is_finite());
                assert_eq!(quotient.to_bits(), bits(a / b), "{} / {}", a, b);
            }
        }
        if a >= 0.0 {
            assert_eq!(double(a).square_root().to_bits(), bits(a.sqrt()), "root of {}", a);
        }
    }
}

#[test]
fn integers_become_doubles_and_back() {
    for n in [0i64, 1, -1, 99, (1 << 53) + 1, -(1 << 54) - 3, i64::MAX, i64::MIN] {
        assert_eq!(Double::from_int(i128::from(n)).to_bits(), bits(n as f64), "{}", n);
    }
    for value in samples() {
        assert_eq!(double(value).round(), value.round() as i64, "round {}", value);
        if value >= 0.0 {
            assert_eq!(double(value).ceil(), value.ceil() as u32, "ceil {}", value);
        }
    }
    for (value, away, even) in [(0.5, 1, 0), (1.5, 2, 2), (2.5, 3, 2), (2.4, 2, 2), (2.6, 3, 3)] {
        assert_eq!(double(value).round(), away);
        assert_eq!(double(-value).round(), -away);
        assert_eq!(double(value).round_to_even(), even);
        assert_eq!(format!("{:.0}", value), format!("{}", even));
    }
    assert_eq!(Double::ratio(65_535, 98).to_bits(), (65_535.0f64 / 98.0).to_bits());
    assert_eq!(double(0.1).times_int(3).to_bits(), (0.1f64 * 3.0).to_bits());
    assert_eq!(double(0.3).over_int(3).to_bits(), (0.3f64 / 3.0).to_bits());
    assert_eq!(Double::zero().to_bits(), 0);
    assert_eq!(double(2.0).negated().to_bits(), (-2.0f64).to_bits());
    let length = Double::length(&double(3.0), &double(-4.0));
    assert_eq!(length.to_bits(), 5.0f64.to_bits());
}
