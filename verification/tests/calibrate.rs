use wayhand_mcp::calibrate::blobs::{blobs_from_mask, Blob};
use wayhand_mcp::calibrate::{
    find_cursor_on_bg, find_sandbox_rect, is_bg, Image, Rect, SANDBOX_BG,
};
use wayhand_mcp::codec::PngFrame;

fn filled(width: u32, height: u32, color: (u8, u8, u8)) -> Image {
    let mut rgb = Vec::with_capacity((width * height * 3) as usize);
    for _ in 0..width * height {
        rgb.extend_from_slice(&[color.0, color.1, color.2]);
    }
    Image { width, height, rgb }
}

fn paint(image: &mut Image, x0: u32, y0: u32, w: u32, h: u32, color: (u8, u8, u8)) {
    for y in y0..y0 + h {
        for x in x0..x0 + w {
            let i = ((y * image.width + x) * 3) as usize;
            image.rgb[i] = color.0;
            image.rgb[i + 1] = color.1;
            image.rgb[i + 2] = color.2;
        }
    }
}

#[test]
fn finds_sandbox_rectangle_in_desktop_screenshot() {
    let mut desktop = filled(1000, 700, (30, 30, 30));
    paint(&mut desktop, 120, 80, 640, 360, SANDBOX_BG);
    // a stray magenta pixel elsewhere must not stretch the rectangle
    paint(&mut desktop, 900, 650, 1, 1, SANDBOX_BG);
    let rect = find_sandbox_rect(&desktop).unwrap();
    assert_eq!(
        (rect.x, rect.y, rect.width, rect.height),
        (120, 80, 640, 360)
    );
}

#[test]
fn rejects_when_no_sandbox_window() {
    let desktop = filled(1000, 700, (30, 30, 30));
    assert!(find_sandbox_rect(&desktop).is_err());
    assert_eq!(
        find_sandbox_rect(&desktop).unwrap_err(),
        "sandbox window not found in the desktop screenshot"
    );
}

#[test]
fn small_window_is_named_in_the_error() {
    let mut desktop = filled(1000, 700, (30, 30, 30));
    paint(&mut desktop, 10, 20, 300, 250, SANDBOX_BG);
    assert_eq!(
        find_sandbox_rect(&desktop).unwrap_err(),
        format!(
            "sandbox window candidate {:?} is too small; is the sandbox window visible and unobstructed?",
            Rect { x: 10, y: 20, width: 300, height: 250 }
        )
    );
}

#[test]
fn finds_cursor_hotspot_on_background() {
    let mut sandbox = filled(640, 360, SANDBOX_BG);
    paint(&mut sandbox, 200, 100, 12, 18, (0, 0, 0));
    let cursor = find_cursor_on_bg(&sandbox).unwrap();
    let (x, y) = cursor.hotspot();
    assert_eq!((f64::from(x), f64::from(y)), (200.0, 100.0));
    assert!(find_cursor_on_bg(&filled(64, 64, SANDBOX_BG)).is_none());
}

#[test]
fn largest_area_wins_and_the_last_of_equals() {
    let mut sandbox = filled(200, 100, SANDBOX_BG);
    paint(&mut sandbox, 5, 5, 4, 4, (0, 0, 0));
    paint(&mut sandbox, 50, 5, 4, 4, (0, 0, 0));
    assert_eq!(find_cursor_on_bg(&sandbox).unwrap().hotspot(), (50, 5));
    paint(&mut sandbox, 100, 50, 5, 4, (0, 0, 0));
    assert_eq!(find_cursor_on_bg(&sandbox).unwrap().hotspot(), (100, 50));
}

#[test]
fn areas_too_small_or_too_wide_are_no_cursor() {
    let mut sandbox = filled(300, 100, SANDBOX_BG);
    paint(&mut sandbox, 5, 5, 11, 1, (0, 0, 0));
    paint(&mut sandbox, 5, 50, 97, 2, (0, 0, 0));
    assert!(find_cursor_on_bg(&sandbox).is_none());
    paint(&mut sandbox, 150, 5, 12, 1, (0, 0, 0));
    assert_eq!(find_cursor_on_bg(&sandbox).unwrap().hotspot(), (150, 5));
}

#[test]
fn pixels_two_apart_belong_together_and_three_apart_do_not() {
    // A comb of single pixels: two columns apart in the first row, three in
    // the last, too far from each other to join.
    let (width, height) = (60u32, 8u32);
    let mut mask = vec![false; (width * height) as usize];
    for k in 0..13 {
        mask[(2 * k) as usize] = true;
        mask[(7 * width + 3 * k) as usize] = true;
    }
    let blobs = blobs_from_mask(&mask, width, height);
    assert_eq!(
        blobs,
        vec![Blob { min_x: 0, min_y: 0, max_x: 24, max_y: 0, pixels: 13 }]
    );
    assert_eq!((blobs[0].width(), blobs[0].height()), (25, 1));
}

#[test]
fn areas_come_in_the_order_in_which_they_start() {
    let (width, height) = (40u32, 40u32);
    let mut mask = vec![false; (width * height) as usize];
    for y in 0..4 {
        for x in 0..4 {
            mask[((y + 20) * width + x) as usize] = true;
            mask[((y + 2) * width + x + 30) as usize] = true;
        }
    }
    let starts: Vec<(u32, u32)> =
        blobs_from_mask(&mask, width, height).iter().map(|b| b.hotspot()).collect();
    assert_eq!(starts, vec![(30, 2), (0, 20)]);
}

#[test]
fn background_tolerance_is_exclusive() {
    assert!(is_bg((232, 23, 255)));
    assert!(!is_bg((231, 0, 255)));
    assert!(!is_bg((255, 24, 255)));
    assert!(!is_bg((255, 0, 231)));
}

fn frame(samples: u8, bit_depth: u8, data: Vec<u8>) -> PngFrame {
    PngFrame { width: 2, height: 1, samples, bit_depth, data }
}

#[test]
fn image_takes_three_bytes_of_each_pixel() {
    let rgba = Image::from_frame(frame(4, 8, vec![1, 2, 3, 4, 5, 6, 7, 8])).unwrap();
    assert_eq!((rgba.width, rgba.height), (2, 1));
    assert_eq!(rgba.rgb, vec![1, 2, 3, 5, 6, 7]);
    let rgb = Image::from_frame(frame(3, 8, vec![1, 2, 3, 4, 5, 6])).unwrap();
    assert_eq!(rgb.rgb, vec![1, 2, 3, 4, 5, 6]);
    assert_eq!(rgb.pixel(1, 0), (4, 5, 6));
}

#[test]
fn image_needs_three_bytes_for_each_pixel() {
    for (samples, bit_depth) in [(1, 8), (2, 8), (1, 16), (1, 4)] {
        assert_eq!(
            Image::from_frame(frame(samples, bit_depth, vec![0; 4])).err().unwrap(),
            "PNG is not an RGB image"
        );
    }
}

#[test]
fn image_reports_what_is_not_a_png() {
    let error = Image::from_png(b"no image").err().unwrap();
    assert!(error.starts_with("decode PNG: "), "{error}");
    let error = Image::from_png(&[]).err().unwrap();
    assert!(error.starts_with("decode PNG: "), "{error}");
}
