use wayhand_mcp::coords::{AbsolutePoint, CoordError, Transform, ABSOLUTE_MAX};

#[test]
fn linear_mapping_hits_all_corners() {
    let transform = Transform::linear(1920, 1080).unwrap();

    assert_eq!(
        transform.map_pixel(0, 0, 1920, 1080),
        Ok(AbsolutePoint { x: 0, y: 0 })
    );
    assert_eq!(
        transform.map_pixel(1919, 0, 1920, 1080),
        Ok(AbsolutePoint { x: 65535, y: 0 })
    );
    assert_eq!(
        transform.map_pixel(0, 1079, 1920, 1080),
        Ok(AbsolutePoint { x: 0, y: 65535 })
    );
    assert_eq!(
        transform.map_pixel(1919, 1079, 1920, 1080),
        Ok(AbsolutePoint { x: 65535, y: 65535 })
    );
}

#[test]
fn mapping_rejects_negative_and_past_last_pixel() {
    let transform = Transform::linear(100, 80).unwrap();

    assert_eq!(
        transform.map_pixel(-1, 0, 100, 80),
        Err(CoordError::XOutOfRange { x: -1, width: 100 })
    );
    assert_eq!(
        transform.map_pixel(0, -1, 100, 80),
        Err(CoordError::YOutOfRange { y: -1, height: 80 })
    );
    assert_eq!(
        transform.map_pixel(100, 0, 100, 80),
        Err(CoordError::XOutOfRange { x: 100, width: 100 })
    );
    assert_eq!(
        transform.map_pixel(0, 80, 100, 80),
        Err(CoordError::YOutOfRange { y: 80, height: 80 })
    );
}

#[test]
fn mapping_rounds_to_nearest_absolute_unit() {
    let transform = Transform::linear(10, 10).unwrap();

    assert_eq!(
        transform.map_pixel(1, 1, 10, 10),
        Ok(AbsolutePoint { x: 7282, y: 7282 })
    );
    assert_eq!(
        transform.map_pixel(2, 2, 10, 10),
        Ok(AbsolutePoint { x: 14563, y: 14563 })
    );
}

#[test]
fn one_pixel_screen_maps_to_zero() {
    let transform = Transform::linear(1, 1).unwrap();

    assert_eq!(
        transform.map_pixel(0, 0, 1, 1),
        Ok(AbsolutePoint { x: 0, y: 0 })
    );
}

#[test]
fn zero_sized_screen_is_rejected() {
    assert_eq!(
        Transform::linear(0, 100),
        Err(CoordError::InvalidScreenSize)
    );
    assert_eq!(
        Transform::linear(100, 0),
        Err(CoordError::InvalidScreenSize)
    );
    let transform = Transform::linear(1, 1).unwrap();
    assert_eq!(
        transform.map_pixel(0, 0, 0, 5),
        Err(CoordError::InvalidScreenSize)
    );
}

#[test]
fn coordinate_errors_name_the_range() {
    assert_eq!(
        CoordError::InvalidScreenSize.message(),
        "screen width and height must be positive"
    );
    assert_eq!(
        CoordError::XOutOfRange { x: -7, width: 1920 }.message(),
        "x=-7 is outside screenshot width 0..1919"
    );
    assert_eq!(
        CoordError::YOutOfRange { y: 1080, height: 1080 }.message(),
        "y=1080 is outside screenshot height 0..1079"
    );
    assert_eq!(
        CoordError::TransformOutOfRange.message(),
        "coordinate transform produced an invalid ABS value"
    );
}

#[test]
fn linear_mapping_keeps_the_order_of_pixels() {
    let transform = Transform::linear(1366, 768).unwrap();
    let mut last = 0;
    for x in 0..1366 {
        let point = transform.map_pixel(x, 0, 1366, 768).unwrap();
        assert!(point.x >= last);
        last = point.x;
    }
    assert_eq!(last, ABSOLUTE_MAX);
}

fn scaled(m11: f64, m13: f64) -> Transform {
    let nothing = 0.0f64.to_bits();
    Transform {
        m11: m11.to_bits(),
        m12: nothing,
        m13: m13.to_bits(),
        m21: nothing,
        m22: nothing,
        m23: nothing,
    }
}

#[test]
fn measured_transform_is_rounded_away_from_zero_at_a_tie() {
    assert_eq!(scaled(2.5, 0.0).map_pixel(1, 0, 10, 10).unwrap().x, 3);
    assert_eq!(scaled(2.5, -0.5).map_pixel(1, 0, 10, 10).unwrap().x, 2);
    let (x, y) = scaled(7.0 / 3.0, 0.0).apply(4, 0);
    assert_eq!(x.unwrap().to_bits(), (7.0f64 / 3.0 * 4.0).to_bits());
    assert_eq!(y.unwrap().to_bits(), 0);
}

#[test]
fn transform_that_leaves_the_axes_is_rejected() {
    let out = Err(CoordError::TransformOutOfRange);
    assert_eq!(scaled(0.0, -1.0).map_pixel(0, 0, 10, 10), out);
    assert_eq!(scaled(0.0, 65_536.0).map_pixel(0, 0, 10, 10), out);
    assert_eq!(scaled(0.0, -0.5).map_pixel(0, 0, 10, 10), out);
    assert_eq!(scaled(0.0, -0.4).map_pixel(0, 0, 10, 10).unwrap().x, 0);
    assert_eq!(scaled(0.0, 65_535.0).map_pixel(0, 0, 10, 10).unwrap().x, ABSOLUTE_MAX);
}

#[test]
fn transform_that_is_no_number_is_rejected() {
    let out = Err(CoordError::TransformOutOfRange);
    assert_eq!(scaled(f64::NAN, 0.0).map_pixel(0, 0, 10, 10), out);
    assert_eq!(scaled(f64::INFINITY, 0.0).map_pixel(0, 0, 10, 10), out);
    assert_eq!(scaled(f64::MAX, f64::NEG_INFINITY).map_pixel(9, 0, 10, 10), out);
    assert_eq!(scaled(f64::MAX, -f64::MAX).map_pixel(9, 0, 10, 10), out);
    assert_eq!(scaled(f64::MAX, -f64::MAX).map_pixel(1, 0, 10, 10).unwrap().x, 0);
    assert_eq!(scaled(f64::MIN_POSITIVE, 0.0).map_pixel(9, 0, 10, 10).unwrap().x, 0);
}

/// Where doubles put a pixel along one axis.
fn computed(pixel: u32, side: u32) -> u16 {
    (65_535.0 / f64::from(side - 1) * f64::from(pixel) + 0.0 * 0.0 + 0.0).round() as u16
}

#[test]
fn linear_mapping_rounds_as_doubles_do() {
    // Halfway between two units, the coefficient decides.
    let transform = Transform::linear(99, 99).unwrap();
    assert_eq!(transform.map_pixel(49, 49, 99, 99).unwrap().x, 32_767);
    for side in [2, 3, 7, 99, 131, 1080, 1366, 1920, 4096, 65_536, 65_537] {
        let transform = Transform::linear(side, side).unwrap();
        for pixel in (0..side).step_by(1 + side as usize / 500) {
            let point = transform.map_pixel(i64::from(pixel), 0, side, side).unwrap();
            assert_eq!(point.x, computed(pixel, side), "{} of {}", pixel, side);
        }
    }
}

#[test]
fn linear_mapping_keeps_pixels_apart() {
    for side in [1920u32, 65_536] {
        let transform = Transform::linear(side, 1).unwrap();
        let mut last = 0;
        for x in (side - 1000)..side {
            let point = transform.map_pixel(i64::from(x), 0, side, 1).unwrap();
            assert!(point.x > last);
            last = point.x;
        }
    }
}
