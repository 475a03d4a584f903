use wayhand_mcp::screenshot::CapturedScreenshot;
use wayhand_mcp::server::args::ObservationArgs;
use wayhand_mcp::server::observe::{
    capture_failed, image_data, metadata, observation, parse_scale_factor, query_failed,
    screen_info, AUTOMATIC_SCALE_FACTOR_NOTE, COORDINATE_SYSTEM,
};
use wayhand_mcp::server::Target;
use wayhand_mcp::time::Duration;

#[test]
fn parses_gsettings_scale_factor() {
    assert_eq!(parse_scale_factor(b"uint32 2\n").unwrap(), 2);
    assert_eq!(parse_scale_factor(b"uint32 0\n").unwrap(), 0);
}

#[test]
fn scale_factor_is_the_last_word() {
    assert_eq!(parse_scale_factor(b"7").unwrap(), 7);
    assert_eq!(parse_scale_factor(b" a 1 +4294967295\t\n ").unwrap(), u32::MAX);
    assert_eq!(parse_scale_factor("uint32\u{3000}007".as_bytes()).unwrap(), 7);
}

#[test]
fn unreadable_scale_factors_say_why() {
    let error = |text: &[u8]| parse_scale_factor(text).unwrap_err();
    assert_eq!(error(b" \n"), "gsettings returned an empty scale factor");
    assert_eq!(
        error(b"uint32 two\""),
        format!("parse GNOME scale factor \"two\\\"\": {}", "two\"".parse::<u32>().unwrap_err())
    );
    assert_eq!(
        error(b"4294967296"),
        format!("parse GNOME scale factor \"4294967296\": {}", "4294967296".parse::<u32>().unwrap_err())
    );
    assert_eq!(
        error(b"+"),
        format!("parse GNOME scale factor \"+\": {}", "+".parse::<u32>().unwrap_err())
    );
    assert_eq!(
        error(b"-1"),
        format!("parse GNOME scale factor \"-1\": {}", "-1".parse::<u32>().unwrap_err())
    );
    assert_eq!(
        error(b"uint32 \xff"),
        format!(
            "gsettings returned non-UTF-8 scale factor: {}",
            String::from_utf8(b"uint32 \xff".to_vec()).unwrap_err()
        )
    );
}

#[test]
fn failed_query_passes_on_what_was_printed() {
    assert_eq!(
        query_failed("\n no schema \n"),
        "gsettings could not read the desktop scale factor: no schema"
    );
    assert_eq!(query_failed(" \t"), "gsettings could not read the desktop scale factor");
}

#[test]
fn scale_factor_belongs_to_the_desktop() {
    let args = ObservationArgs { target: None, settle_ms: Some(3) };
    let plan = observation(&args, true).unwrap();
    assert_eq!(plan.target, Target::Sandbox);
    assert_eq!(plan.settle, Duration::from_millis(3));
    assert!(!plan.reads_scale_factor);
    let desktop = ObservationArgs { target: Some(Target::Desktop), settle_ms: None };
    assert!(observation(&desktop, true).unwrap().reads_scale_factor);
    assert!(!observation(&desktop, false).unwrap().reads_scale_factor);
    let bad = ObservationArgs { target: None, settle_ms: Some(-1) };
    assert_eq!(
        observation(&bad, true).unwrap_err(),
        "settle_ms must be between 0 and 10000 milliseconds"
    );
}

#[test]
fn automatic_scale_factor_is_a_note() {
    let info = screen_info(Target::Desktop, 1920, 1080, Some(0));
    assert_eq!(info.scale_factor, None);
    assert_eq!(info.scale_factor_note, Some(AUTOMATIC_SCALE_FACTOR_NOTE));
    let info = screen_info(Target::Desktop, 1920, 1080, Some(2));
    assert_eq!((info.scale_factor, info.scale_factor_note), (Some(2), None));
    let info = screen_info(Target::Sandbox, 640, 480, None);
    assert_eq!((info.target, info.width, info.height), ("sandbox", 640, 480));
    assert_eq!((info.scale_factor, info.scale_factor_note), (None, None));
    assert_eq!(info.coordinate_system, COORDINATE_SYSTEM);
}

fn shot(bytes: &[u8]) -> CapturedScreenshot {
    CapturedScreenshot {
        bytes: bytes.to_vec(),
        width: 3,
        height: 2,
        captured_at: "2026-01-02T03:04:05Z".to_owned(),
    }
}

#[test]
fn screenshot_is_sent_with_its_size_and_time() {
    assert_eq!(
        metadata(Target::Desktop, &shot(&[])),
        "target=desktop timestamp=2026-01-02T03:04:05Z width=3 height=2 (screenshot pixels)"
    );
}

#[test]
fn image_data_is_padded_base64() {
    for (bytes, text) in [
        (&b""[..], ""),
        (b"f", "Zg=="),
        (b"fo", "Zm8="),
        (b"foo", "Zm9v"),
        (b"foobar", "Zm9vYmFy"),
        (&[0xfb, 0xff, 0xbf, 0x00], "+/+/AA=="),
    ] {
        assert_eq!(image_data(&shot(bytes)), text);
    }
}

#[test]
fn failed_captures_name_the_target() {
    assert_eq!(capture_failed(Target::Desktop, "no portal"), "screenshot failed: no portal");
    assert_eq!(
        capture_failed(Target::Sandbox, "no frame"),
        "sandbox screenshot failed: no frame"
    );
}
