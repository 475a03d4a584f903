use wayhand_mcp::sandbox::wl::{encode_png, PixelFormat};
use wayhand_mcp::screenshot::{
    captured, check_file, check_location, check_read, file_uri_to_path, hex_value, percent_decode,
    png_dimensions, FileFacts, MAX_SCREENSHOT_BYTES,
};

#[test]
fn decodes_local_file_uri() {
    assert_eq!(
        file_uri_to_path("file:///tmp/shot%20one.png").unwrap(),
        "/tmp/shot one.png"
    );
}

#[test]
fn rejects_non_local_or_non_file_uri() {
    assert!(file_uri_to_path("https://example.test/shot.png").is_err());
    assert!(file_uri_to_path("file://other-host/tmp/shot.png").is_err());
}

#[test]
fn refused_uris_say_why() {
    let error = |uri: &str| file_uri_to_path(uri).unwrap_err();
    assert_eq!(
        error("https://example.test/shot.png"),
        "screenshot portal returned a non-file URI: https://example.test/shot.png"
    );
    assert_eq!(
        error("file://nowhere"),
        "screenshot portal returned an invalid file URI: file://nowhere"
    );
    assert_eq!(
        error("file://other\"host/tmp"),
        "refusing screenshot URI for unexpected host \"other\\\"host\""
    );
    assert_eq!(error("file:///tmp/%2"), "invalid percent escape in screenshot URI");
    assert_eq!(error("file:///tmp/%g0"), "invalid percent escape in screenshot URI");
    let not_utf8 = error("file:///tmp/%ff");
    assert!(not_utf8.starts_with("screenshot URI path is not valid UTF-8: "), "{not_utf8}");
    assert!(not_utf8.len() > "screenshot URI path is not valid UTF-8: ".len());
}

#[test]
fn localhost_is_this_machine() {
    assert_eq!(file_uri_to_path("file://localhost/a%2fb").unwrap(), "/a/b");
    assert!(file_uri_to_path("file://LOCALHOST/a").is_err());
}

#[test]
fn escapes_are_read_back_and_plain_text_is_kept() {
    assert_eq!(percent_decode("%e4%B8%ad.png").unwrap(), "中.png");
    assert_eq!(percent_decode("中 plain+text").unwrap(), "中 plain+text");
    assert_eq!(percent_decode("").unwrap(), "");
    assert_eq!(percent_decode("%25%41").unwrap(), "%A");
    assert_eq!(percent_decode("%c3%B6l%2f%2F%7e").unwrap(), "öl//~");
    assert_eq!(hex_value(b'f'), Some(15));
    assert_eq!(hex_value(b'G'), None);
}

fn facts() -> FileFacts {
    FileFacts { is_regular: true, owner: 1000, user: 1000, size: MAX_SCREENSHOT_BYTES }
}

#[test]
fn path_validation_rejects_directory() {
    let error = check_file("/home/me/nested", FileFacts { is_regular: false, ..facts() }).unwrap_err();
    assert!(error.contains("not a regular file"));
    assert_eq!(
        error,
        "refusing screenshot path /home/me/nested because it is not a regular file"
    );
}

#[test]
fn path_validation_rejects_oversize_file() {
    let size = MAX_SCREENSHOT_BYTES + 1;
    let error = check_file("/home/me/large.png", FileFacts { size, ..facts() }).unwrap_err();
    assert!(error.contains("64 MiB"));
    assert!(check_file("/home/me/large.png", facts()).is_ok());
}

#[test]
fn path_validation_rejects_foreign_file() {
    assert_eq!(
        check_file("/home/me/a.png", FileFacts { owner: 0, ..facts() }).unwrap_err(),
        "refusing screenshot file /home/me/a.png because its owner uid 0 does not match effective uid 1000"
    );
}

#[test]
fn path_validation_rejects_file_outside_home() {
    assert!(check_location("/home/me/Pictures/a.png", "/home/me").is_ok());
    assert_eq!(
        check_location("/home/meow/a.png", "/home/me").unwrap_err(),
        "refusing screenshot file /home/meow/a.png because its canonical path is outside HOME /home/me"
    );
}

#[test]
fn file_that_grew_while_it_was_read_is_rejected() {
    let limit = MAX_SCREENSHOT_BYTES as usize;
    assert!(check_read("/a.png", &vec![0; limit]).is_ok());
    assert_eq!(
        check_read("/a.png", &vec![0; limit + 1]).unwrap_err(),
        "refusing screenshot file /a.png because it exceeds the 64 MiB limit"
    );
}

#[test]
fn screenshot_has_the_size_of_its_png() {
    let png = encode_png(&[0; 24], &PixelFormat::Xrgb8888, 3, 2, 12, false).unwrap();
    assert_eq!(png_dimensions(&png).unwrap(), (3, 2));
    let shot = captured(png.clone(), "2026-01-02T03:04:05Z".to_owned()).unwrap();
    assert_eq!((shot.width, shot.height), (3, 2));
    assert_eq!(shot.bytes, png);
    assert_eq!(shot.captured_at, "2026-01-02T03:04:05Z");
}

#[test]
fn screenshot_that_is_no_png_is_rejected() {
    let error = captured(b"GIF89a".to_vec(), String::new()).unwrap_err();
    assert!(error.starts_with("decode screenshot PNG header: "), "{error}");
}
