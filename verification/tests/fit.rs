use wayhand_mcp::calibrate::fit::{fit_transform, leaves_little, observations, Observation};
use wayhand_mcp::calibrate::measure::{measure, Sighting};
use wayhand_mcp::calibrate::Rect;
use wayhand_mcp::number::Number;

fn number(value: f64) -> Number {
    Number::from_bits(value.to_bits())
}

fn value(number: &Number) -> f64 {
    f64::from_bits(number.to_bits())
}

fn observation(pixel: (f64, f64), device: (f64, f64)) -> Observation {
    ((number(pixel.0), number(pixel.1)), (number(device.0), number(device.1)))
}

#[test]
fn fits_a_known_affine_transform() {
    let truth = |px: f64, py: f64| (px * 22.75 + 100.0, py * 36.4 - 50.0);
    let pairs: Vec<_> = [(10.0, 10.0), (500.0, 20.0), (300.0, 400.0), (900.0, 700.0)]
        .into_iter()
        .map(|(px, py)| observation((px, py), truth(px, py)))
        .collect();
    let (transform, residual) = fit_transform(&pairs).unwrap();
    assert!((f64::from_bits(transform.m11) - 22.75).abs() < 1e-6);
    assert!((f64::from_bits(transform.m22) - 36.4).abs() < 1e-6);
    assert!((f64::from_bits(transform.m13) - 100.0).abs() < 1e-3);
    assert!((f64::from_bits(transform.m23) + 50.0).abs() < 1e-3);
    assert!(value(&residual) < 1e-6);
}

#[test]
fn rejects_collinear_observations() {
    let pairs = vec![
        observation((0.0, 0.0), (0.0, 0.0)),
        observation((10.0, 10.0), (100.0, 100.0)),
        observation((20.0, 20.0), (200.0, 200.0)),
    ];
    assert!(fit_transform(&pairs).is_err());
    assert_eq!(fit_transform(&pairs).unwrap_err(), "cursor observations are collinear");
}

#[test]
fn a_fit_needs_three_observations_and_two_dimensions() {
    let pairs = vec![observation((0.0, 0.0), (0.0, 0.0)), observation((1.0, 2.0), (3.0, 4.0))];
    assert_eq!(
        fit_transform(&pairs).unwrap_err(),
        "need at least 3 cursor observations, found 2"
    );
    let flat = vec![
        observation((0.0, 0.0), (5.0, 5.0)),
        observation((10.0, 0.0), (5.0, 5.0)),
        observation((0.0, 10.0), (5.0, 5.0)),
    ];
    assert_eq!(fit_transform(&flat).unwrap_err(), "fitted transform is degenerate");
}

fn solved(mut m: [[f64; 4]; 3]) -> Option<[f64; 3]> {
    for col in 0..3 {
        let mut pivot = col;
        for row in col..3 {
            if !(m[pivot][col].abs() > m[row][col].abs()) {
                pivot = row;
            }
        }
        if m[pivot][col].abs() < 1e-9 {
            return None;
        }
        m.swap(col, pivot);
        for row in 0..3 {
            if row != col {
                let factor = m[row][col] / m[col][col];
                for k in col..4 {
                    m[row][k] -= factor * m[col][k];
                }
            }
        }
    }
    Some([m[0][3] / m[0][0], m[1][3] / m[1][1], m[2][3] / m[2][2]])
}

/// The coefficients of a fit and its worst residual, with the machine's
/// doubles.
fn fitted(pairs: &[((f64, f64), (f64, f64))]) -> Option<([f64; 6], f64)> {
    let mut m = [[[0.0f64; 4]; 3]; 2];
    for &((px, py), (ax, ay)) in pairs {
        let row = [px, py, 1.0];
        for i in 0..3 {
            for j in 0..3 {
                m[0][i][j] += row[i] * row[j];
                m[1][i][j] += row[i] * row[j];
            }
            m[0][i][3] += row[i] * ax;
            m[1][i][3] += row[i] * ay;
        }
    }
    let (x, y) = (solved(m[0])?, solved(m[1])?);
    let det = x[0] * y[1] - x[1] * y[0];
    if det.abs() < 1e-9 {
        return None;
    }
    let mut worst = 0.0f64;
    for &((px, py), (ax, ay)) in pairs {
        let (ux, uy) = (ax - x[2], ay - y[2]);
        let ix = (y[1] * ux - x[1] * uy) / det;
        let iy = (-y[0] * ux + x[0] * uy) / det;
        worst = worst.max(((ix - px).powi(2) + (iy - py).powi(2)).sqrt());
    }
    Some(([x[0], x[1], x[2], y[0], y[1], y[2]], worst))
}

#[test]
fn a_fit_is_that_of_the_machine() {
    let mut state: u64 = 7;
    let mut next = |range: f64| {
        state = state.wrapping_mul(6_364_136_223_846_793_005).wrapping_add(1_442_695_040_888_963_407);
        (state >> 11) as f64 / (1u64 << 53) as f64 * range
    };
    let mut fits = 0;
    for round in 0..60 {
        let range = if round % 7 == 0 { 1e-5 } else { 3000.0 };
        let pairs: Vec<_> = (0..3 + round % 3)
            .map(|_| ((next(range), next(range)), (next(65_535.0), next(65_535.0))))
            .collect();
        let list: Vec<_> = pairs.iter().map(|pair| observation(pair.0, pair.1)).collect();
        match (fit_transform(&list), fitted(&pairs)) {
            (Ok((transform, residual)), Some((expected, worst))) => {
                let bits = [
                    transform.m11,
                    transform.m12,
                    transform.m13,
                    transform.m21,
                    transform.m22,
                    transform.m23,
                ];
                for (found, expected) in bits.into_iter().zip(expected) {
                    assert_eq!(f64::from_bits(found), expected);
                }
                assert_eq!(value(&residual), worst);
                assert_eq!(leaves_little(&residual), !(worst >= 3.0));
                fits += 1;
            }
            (Err(_), None) => {}
            (found, expected) => panic!("{:?} {:?}", found.is_ok(), expected),
        }
    }
    assert!(fits > 40);
}

#[test]
fn residuals_below_the_limit_are_little() {
    assert!(leaves_little(&number(0.0)));
    assert!(leaves_little(&number(2.999)));
    assert!(!leaves_little(&number(3.0)));
    assert!(!leaves_little(&number(f64::INFINITY)));
    assert!(leaves_little(&number(f64::NAN)));
}

#[test]
fn observations_leave_out_what_all_have_in_common() {
    let rect = Rect { x: 100, y: 50, width: 400, height: 300 };
    let sightings: Vec<Sighting> = [(20u8, 20u8), (80, 25), (50, 80), (75, 70)]
        .into_iter()
        .map(|percent| Sighting {
            percent,
            hotspot: (u32::from(percent.0) * 4 + 9, u32::from(percent.1) * 3 + 20),
        })
        .collect();
    let measured = measure(rect, (400, 300), &sightings);
    assert_eq!(f64::from_bits(measured.mean.0.to_bits()), 9.0);
    assert_eq!(f64::from_bits(measured.mean.1.to_bits()), 20.0);
    let sent = [(1, 2), (3, 4), (5, 6), (7, 8)];
    let pairs = observations(&measured, &sent);
    assert_eq!(pairs.len(), 4);
    assert_eq!((value(&pairs[0].0 .0), value(&pairs[0].0 .1)), (180.0, 110.0));
    assert_eq!((value(&pairs[3].1 .0), value(&pairs[3].1 .1)), (7.0, 8.0));
}

#[test]
fn numbers_run_into_what_doubles_run_into() {
    let values = [
        0.0,
        1.0,
        -2.5,
        1e300,
        -1e300,
        f64::MAX,
        5e-324,
        f64::INFINITY,
        f64::NEG_INFINITY,
        f64::NAN,
    ];
    let same = |found: Number, expected: f64| {
        let found = value(&found);
        assert!(found == expected || found.is_nan() && expected.is_nan(), "{} {}", found, expected);
    };
    for a in values {
        same(number(a).negated(), -a);
        same(number(a).size(), a.abs());
        if !(a < 0.0) {
            same(number(a).root(), a.sqrt());
        }
        for b in values {
            same(number(a).plus(&number(b)), a + b);
            same(number(a).minus(&number(b)), a - b);
            same(number(a).times(&number(b)), a * b);
            assert_eq!(number(a).is_below(&number(b)), a < b);
            if b != 0.0 {
                same(number(a).over(&number(b)), a / b);
            }
        }
    }
    same(Number::zero(), 0.0);
}
