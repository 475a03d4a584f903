use wayhand_mcp::calibrate::measure::{measure, Sighting};
use wayhand_mcp::calibrate::probe::{
    cursor_missing, judge, probe_percents, probe_point, Verdict,
};
use wayhand_mcp::calibrate::Rect;
use wayhand_mcp::coords::{CoordError, Transform};
use wayhand_mcp::sandbox::wl::{encode_png, PixelFormat};
use wayhand_mcp::server::calibration::{
    locate_ruler, report, Calibrating, CalibrationStep,
};
use wayhand_mcp::server::steps::Step;
use wayhand_mcp::server::ScreenSize;
use wayhand_mcp::time::Duration;

const RECT: Rect = Rect { x: 100, y: 50, width: 400, height: 300 };

/// A PNG of one colour with a rectangle of another.
fn picture(size: (u32, u32), ground: [u8; 4], rect: Rect, color: [u8; 4]) -> Vec<u8> {
    let mut data = Vec::new();
    for y in 0..size.1 {
        for x in 0..size.0 {
            let inside = x >= rect.x
                && x < rect.x + rect.width
                && y >= rect.y
                && y < rect.y + rect.height;
            data.extend_from_slice(if inside { &color } else { &ground });
        }
    }
    encode_png(&data, &PixelFormat::Xbgr8888, size.0, size.1, size.0 * 4, false).unwrap()
}

const MAGENTA: [u8; 4] = [255, 0, 255, 0];
const BLACK: [u8; 4] = [0, 0, 0, 0];

fn cursor_at(x: u32, y: u32) -> Vec<u8> {
    picture((400, 300), MAGENTA, Rect { x, y, width: 10, height: 12 }, BLACK)
}

#[test]
fn ruler_is_found_in_a_desktop_png() {
    let desktop = picture((800, 600), BLACK, RECT, MAGENTA);
    assert_eq!(locate_ruler(&desktop).unwrap(), RECT);
    let empty = picture((800, 600), BLACK, RECT, BLACK);
    assert_eq!(
        locate_ruler(&empty).unwrap_err(),
        "sandbox window not found in the desktop screenshot. The ruler window must be visible and not covered on the real desktop while calibrate runs."
    );
    let error = locate_ruler(b"no png").unwrap_err();
    assert!(error.starts_with("decode desktop screenshot: decode PNG: "), "{error}");
}

#[test]
fn calibration_moves_looks_and_judges() {
    let screen = ScreenSize { width: 800, height: 600 };
    let mut calibrating = Calibrating::new(RECT, (400, 300), screen).unwrap();
    for (px, py) in probe_percents() {
        let (x, y) = probe_point(RECT, (px, py), 800, 600).unwrap();
        match calibrating.next().unwrap() {
            CalibrationStep::Move(steps) => assert_eq!(
                steps,
                vec![Step::Move(x, y), Step::Sleep(Duration::from_millis(250))]
            ),
            other => panic!("{other:?}"),
        }
        calibrating.moved();
        assert!(matches!(calibrating.next().unwrap(), CalibrationStep::Look));
        // The hotspot is a constant distance away from where the probe went.
        let seen = cursor_at(px as u32 * 4 + 2, py as u32 * 3 + 1);
        calibrating.looked(&seen).unwrap();
    }
    assert!(matches!(
        calibrating.next().unwrap(),
        CalibrationStep::Judge(measured) if measured.is_steady
    ));
}

#[test]
fn calibration_tells_a_drifting_cursor() {
    let screen = ScreenSize { width: 800, height: 600 };
    let mut calibrating = Calibrating::new(RECT, (400, 300), screen).unwrap();
    for (i, (px, py)) in probe_percents().into_iter().enumerate() {
        calibrating.moved();
        let off = if i == 2 { 6 } else { 0 };
        calibrating.looked(&cursor_at(px as u32 * 4 + off, py as u32 * 3)).unwrap();
    }
    assert!(matches!(
        calibrating.next().unwrap(),
        CalibrationStep::Judge(measured) if !measured.is_steady
    ));
}

#[test]
fn calibration_reports_a_missing_cursor() {
    let screen = ScreenSize { width: 800, height: 600 };
    let mut calibrating = Calibrating::new(RECT, (400, 300), screen).unwrap();
    calibrating.moved();
    let bare = picture((400, 300), MAGENTA, RECT, MAGENTA);
    assert_eq!(
        calibrating.looked(&bare).unwrap_err(),
        "calibration failed: no cursor visible in the sandbox after moving the real pointer to desktop pixel (180, 110). Either uinput moves do not reach the compositor or the sandbox window is covered."
    );
    assert!(calibrating.sightings.is_empty() && calibrating.sent);
    let error = calibrating.looked(b"no png").unwrap_err();
    assert!(error.starts_with("decode ruler screenshot: decode PNG: "), "{error}");
}

#[test]
fn calibration_needs_a_screen_and_a_ruler_on_it() {
    let none = ScreenSize { width: 0, height: 600 };
    assert_eq!(
        Calibrating::new(RECT, (400, 300), none).err(),
        Some(CoordError::InvalidScreenSize)
    );
    let small = ScreenSize { width: 150, height: 600 };
    let calibrating = Calibrating::new(RECT, (400, 300), small).unwrap();
    assert_eq!(
        calibrating.next().unwrap_err(),
        "x=180 is outside screenshot width 0..149"
    );
}

#[test]
fn probes_go_to_the_closest_pixel() {
    let rect = Rect { x: 0, y: 0, width: 101, height: 101 };
    // 20.2 and 20.2 are rounded to pixel 20 of 201.
    assert_eq!(probe_point(rect, (20, 20), 201, 201), Ok((6554, 6554)));
    assert_eq!(
        probe_point(rect, (20, 20), 0, 201),
        Err(CoordError::InvalidScreenSize)
    );
    // The text rounds halves to even numbers: 12.5 and 13.5.
    let text = cursor_missing(Rect { x: 0, y: 1, width: 25, height: 25 }, (50, 50));
    assert!(text.contains("desktop pixel (12, 14)"), "{text}");
}

#[test]
fn mapping_within_the_limit_is_kept() {
    assert_eq!(judge(true, true), Verdict::Linear);
    assert_eq!(judge(true, false), Verdict::Linear);
    assert_eq!(judge(false, true), Verdict::Fitted);
    assert_eq!(judge(false, false), Verdict::Rejected);
}

fn steady_in(rect: Rect, picture: (u32, u32), sightings: &[Sighting]) -> bool {
    measure(rect, picture, sightings).is_steady
}

fn sightings(offsets: [(u32, u32); 4]) -> Vec<Sighting> {
    probe_percents()
        .into_iter()
        .zip(offsets)
        .map(|(percent, off)| Sighting {
            percent,
            hotspot: (percent.0 as u32 * 4 + off.0, percent.1 as u32 * 3 + off.1),
        })
        .collect()
}

#[test]
fn constant_offset_of_the_hotspot_is_no_error() {
    assert!(steady_in(RECT, (400, 300), &sightings([(9, 20); 4])));
    assert!(steady_in(RECT, (400, 300), &[]));
}

#[test]
fn deviation_limit_is_exclusive() {
    // One of four is 4 pixels off: 3 pixels from the mean.
    assert!(!steady_in(RECT, (400, 300), &sightings([(4, 0), (0, 0), (0, 0), (0, 0)])));
    assert!(steady_in(RECT, (400, 300), &sightings([(3, 0), (0, 0), (0, 0), (0, 0)])));
    // A picture at half the scale counts for twice as much.
    let half: Vec<Sighting> = sightings([(0, 0); 4])
        .into_iter()
        .enumerate()
        .map(|(i, seen)| Sighting {
            hotspot: (seen.hotspot.0 / 2 + if i == 0 { 2 } else { 0 }, seen.hotspot.1 / 2),
            ..seen
        })
        .collect();
    assert!(!steady_in(RECT, (200, 150), &half));
}

#[test]
fn probes_are_placed_as_doubles_are() {
    // 0.70 of 325 is a little less than 227.5.
    let rect = Rect { x: 0, y: 0, width: 325, height: 325 };
    let linear = Transform::linear(1001, 1001).unwrap();
    let pixel = linear.map_pixel(227, 227, 1001, 1001).unwrap();
    assert_eq!(
        probe_point(rect, (70, 70), 1001, 1001),
        Ok((u32::from(pixel.x), u32::from(pixel.y)))
    );
    for side in 200..400 {
        for percent in [20u8, 25, 50, 70, 75, 80] {
            let rect = Rect { x: 17, y: 17, width: side, height: side };
            let pixel = (17.0 + f64::from(percent) / 100.0 * f64::from(side)).round() as i64;
            let point = linear.map_pixel(pixel, pixel, 1001, 1001).unwrap();
            assert_eq!(
                probe_point(rect, (percent, percent), 1001, 1001),
                Ok((u32::from(point.x), u32::from(point.y)))
            );
        }
    }
}

/// The worst deviation, with doubles.
fn worst(rect: Rect, picture: (u32, u32), sightings: &[Sighting]) -> f64 {
    let scale = (
        f64::from(rect.width) / f64::from(picture.0),
        f64::from(rect.height) / f64::from(picture.1),
    );
    let misses: Vec<(f64, f64)> = sightings
        .iter()
        .map(|seen| {
            let part = |percent: u8| f64::from(percent) / 100.0;
            (
                (f64::from(rect.x) + f64::from(seen.hotspot.0) * scale.0)
                    - (f64::from(rect.x) + part(seen.percent.0) * f64::from(rect.width)),
                (f64::from(rect.y) + f64::from(seen.hotspot.1) * scale.1)
                    - (f64::from(rect.y) + part(seen.percent.1) * f64::from(rect.height)),
            )
        })
        .collect();
    let n = misses.len() as f64;
    let mean = misses.iter().fold((0.0, 0.0), |acc, m| (acc.0 + m.0 / n, acc.1 + m.1 / n));
    misses
        .iter()
        .map(|m| ((m.0 - mean.0).powi(2) + (m.1 - mean.1).powi(2)).sqrt())
        .fold(0.0f64, f64::max)
}

#[test]
fn deviation_is_judged_as_doubles_are() {
    for off in 0..40u32 {
        for picture in [(400, 300), (399, 301), (123, 457)] {
            let seen = sightings([(off / 7, off % 7), (off % 5, 0), (0, off % 3), (off % 4, 2)]);
            let deviation = worst(RECT, picture, &seen);
            let measured = measure(RECT, picture, &seen);
            assert_eq!(measured.deviation.to_bits(), deviation.to_bits(), "{} {:?}", off, picture);
            assert_eq!(measured.is_steady, deviation < 3.0);
            assert_eq!(measured.scale.to_bits(), (400.0 / f64::from(picture.0)).to_bits());
            let x = 100.0 + f64::from(seen[0].hotspot.0) * (400.0 / f64::from(picture.0));
            assert_eq!(measured.observed[0].0.to_bits(), x.to_bits());
        }
    }
}

#[test]
fn calibration_reports_what_it_kept() {
    assert_eq!(
        report(Verdict::Linear, "all well", "0.00", "/c.json").unwrap(),
        "linear desktop mapping verified within the 3 px limit: all well; saved to /c.json"
    );
    assert_eq!(
        report(Verdict::Fitted, "off", "1.25", "/c.json").unwrap(),
        "linear mapping was off (off); fitted affine transform with residual 1.25 px saved to /c.json"
    );
    assert_eq!(
        report(Verdict::Rejected, "off", "7.50", "").unwrap_err(),
        "calibration rejected: off; an affine fit still leaves 7.50 px. Keeping the linear mapping; nothing saved."
    );
}
