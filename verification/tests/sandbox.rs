use wayhand_mcp::calibrate::Image;
use wayhand_mcp::sandbox::wl::{
    buffer_plan, capture_step, encode_png, output_size, scroll_steps, Axis, AxisStep, BufferInfo,
    CaptureStep, FrameEvent, PendingFrame, PixelFormat, Session,
};
use wayhand_mcp::sandbox::{
    launch_failed, launch_plan, start_plan, start_step, SandboxOptions, StartStep,
};
use wayhand_mcp::time::Duration;

#[test]
fn encodes_xrgb_buffer_to_png_with_correct_size() {
    // 2x2 XRGB8888, stride 8: pixels (B,G,R,X)
    let data = [
        0, 0, 255, 0, 0, 255, 0, 0, // row 0: red, green
        255, 0, 0, 0, 255, 255, 255, 0, // row 1: blue, white
    ];
    let png_bytes = encode_png(&data, &PixelFormat::Xrgb8888, 2, 2, 8, false).unwrap();
    let decoder = png::Decoder::new(std::io::Cursor::new(&png_bytes));
    let mut reader = decoder.read_info().unwrap();
    let mut buf = vec![0; reader.output_buffer_size().unwrap()];
    let info = reader.next_frame(&mut buf).unwrap();
    assert_eq!((info.width, info.height), (2, 2));
    assert_eq!(&buf[..3], &[255, 0, 0]);
    assert_eq!(&buf[9..12], &[255, 255, 255]);
}

#[test]
fn honors_y_invert() {
    let data = [
        0, 0, 255, 0, 0, 0, 255, 0, // row 0: red red
        255, 0, 0, 0, 255, 0, 0, 0, // row 1: blue blue
    ];
    let png_bytes = encode_png(&data, &PixelFormat::Xrgb8888, 2, 2, 8, true).unwrap();
    let decoder = png::Decoder::new(std::io::Cursor::new(&png_bytes));
    let mut reader = decoder.read_info().unwrap();
    let mut buf = vec![0; reader.output_buffer_size().unwrap()];
    reader.next_frame(&mut buf).unwrap();
    assert_eq!(&buf[..3], &[0, 0, 255]);
}

#[test]
fn captured_frame_is_read_back() {
    let data = [
        1, 2, 3, 0, 4, 5, 6, 0, 99, 99, // row 0 and two bytes of padding
        7, 8, 9, 0, 10, 11, 12, 0, 99, 99, // row 1
    ];
    let png = encode_png(&data, &PixelFormat::Abgr8888, 2, 2, 10, false).unwrap();
    let image = Image::from_png(&png).unwrap();
    assert_eq!((image.width, image.height), (2, 2));
    assert_eq!(image.rgb, vec![1, 2, 3, 4, 5, 6, 7, 8, 9, 10, 11, 12]);
    let png = encode_png(&data, &PixelFormat::Argb8888, 2, 2, 10, true).unwrap();
    let image = Image::from_png(&png).unwrap();
    assert_eq!(image.rgb, vec![9, 8, 7, 12, 11, 10, 3, 2, 1, 6, 5, 4]);
}

#[test]
fn unusable_buffers_are_refused() {
    let data = [0u8; 16];
    assert_eq!(
        encode_png(&data, &PixelFormat::Other("Rgb565".to_owned()), 2, 2, 8, false).unwrap_err(),
        "unsupported screencopy pixel format Rgb565"
    );
    assert_eq!(
        encode_png(&data, &PixelFormat::Xbgr8888, 2, 2, 9, false).unwrap_err(),
        "screencopy buffer is shorter than its stride implies"
    );
    assert_eq!(
        encode_png(&data, &PixelFormat::Xrgb8888, 0, 2, 8, false).unwrap_err(),
        "write PNG header: Zero width not allowed"
    );
    assert_eq!(
        encode_png(&data, &PixelFormat::Xrgb8888, 2, 0, 8, false).unwrap_err(),
        "write PNG header: Zero height not allowed"
    );
}

#[test]
fn headless_sandbox_has_the_size_asked_for() {
    let options = SandboxOptions::from_asked(None, Some(800), None);
    assert_eq!(options, SandboxOptions { visible: false, width: 800, height: 1080 });
    let config = options.config();
    assert!(config.contains("output HEADLESS-1 mode 800x1080\n"), "{config}");
    assert!(config.contains("output * bg #ff00ff solid_color\n"), "{config}");
    let visible = SandboxOptions::from_asked(Some(true), None, None).config();
    assert!(!visible.contains("HEADLESS"), "{visible}");
    assert!(visible.contains("/display"), "{visible}");
}

#[test]
fn sandbox_needs_a_session_around_it() {
    let plan = start_plan(Some("/run/user/7"), Some("wayland-0"), "desktop").unwrap();
    assert_eq!(plan.dir, "/run/user/7/wayhand-mcp/desktop");
    assert_eq!(plan.display_file, "/run/user/7/wayhand-mcp/desktop/display");
    assert_eq!(plan.config_path, "/run/user/7/wayhand-mcp/desktop/sway.conf");
    let no_dir = "XDG_RUNTIME_DIR is not set; cannot start the sandbox";
    assert_eq!(start_plan(None, Some("wayland-0"), "a").unwrap_err(), no_dir);
    assert_eq!(start_plan(Some(""), None, "a").unwrap_err(), no_dir);
    let no_display = "WAYLAND_DISPLAY is not set; the sandbox needs a parent Wayland session";
    assert_eq!(start_plan(Some("/run"), None, "a").unwrap_err(), no_display);
    assert_eq!(start_plan(Some("/run"), Some(""), "a").unwrap_err(), no_display);
}

#[test]
fn starting_waits_for_the_display_name() {
    assert!(matches!(
        start_step(Some("exit status: 1"), Some("wayland-1"), true),
        StartStep::Fail(error) if error == "sway exited immediately with exit status: 1"
    ));
    assert!(matches!(
        start_step(None, Some(" wayland-1\n"), true),
        StartStep::Connect(display) if display == "wayland-1"
    ));
    assert!(matches!(
        start_step(None, Some(" \n"), true),
        StartStep::GiveUp(error)
            if error == "sway did not publish its display name within 10 seconds"
    ));
    assert!(matches!(
        start_step(None, None, false),
        StartStep::Retry(pause) if pause == Duration::from_millis(100)
    ));
}

#[test]
fn programs_run_without_a_shell_on_the_nested_display() {
    let argv = vec!["gedit".to_owned(), "a b.txt".to_owned()];
    let plan = launch_plan("wayland-1", &argv).unwrap();
    assert_eq!(plan.program, "gedit");
    assert_eq!(plan.args, vec!["a b.txt"]);
    assert_eq!(plan.env[0], ("WAYLAND_DISPLAY", "wayland-1".to_owned()));
    assert_eq!(plan.env.len(), 4);
    assert_eq!(plan.removed, vec!["DISPLAY"]);
    assert_eq!(
        launch_plan("wayland-1", &[]).unwrap_err(),
        "argv must contain at least the program"
    );
    assert_eq!(
        launch_failed("no\tsuch", "not found"),
        "launch \"no\\tsuch\" inside the sandbox: not found"
    );
}

fn buffer(width: u32, height: u32, stride: u32) -> FrameEvent {
    FrameEvent::Buffer(BufferInfo { format: PixelFormat::Xrgb8888, width, height, stride })
}

#[test]
fn capture_follows_the_compositor() {
    let left = Duration::from_millis(20);
    let mut pending = PendingFrame::new();
    assert_eq!(
        buffer_plan(&pending).unwrap_err(),
        "screencopy did not announce a buffer"
    );
    pending.apply(buffer(3, 2, 12));
    let plan = buffer_plan(&pending).unwrap();
    assert_eq!((plan.size, plan.width, plan.height, plan.stride), (24, 3, 2, 12));
    let mut pending = Some(pending);
    assert!(matches!(capture_step(&pending, left), CaptureStep::Poll(20)));
    assert!(matches!(
        capture_step(&pending, Duration::from_millis(0)),
        CaptureStep::Fail(error) if error.starts_with("screencopy timed out after 5 seconds")
    ));
    if let Some(pending) = &mut pending {
        pending.apply(FrameEvent::Flags { y_invert: true });
        pending.apply(FrameEvent::Ready);
    }
    assert!(matches!(
        capture_step(&pending, Duration::from_millis(0)),
        CaptureStep::Done { y_invert: true }
    ));
    if let Some(pending) = &mut pending {
        pending.apply(FrameEvent::Failed);
    }
    assert!(matches!(
        capture_step(&pending, left),
        CaptureStep::Fail(error) if error == "compositor reported screencopy failure"
    ));
    assert!(matches!(
        capture_step(&None, left),
        CaptureStep::Fail(error) if error == "screencopy state lost"
    ));
}

#[test]
fn buffer_beyond_the_protocol_is_refused() {
    let mut pending = PendingFrame::new();
    pending.apply(buffer(1, 1 << 16, 1 << 15));
    assert_eq!(
        buffer_plan(&pending).unwrap_err(),
        "out of range integral type conversion attempted"
    );
}

#[test]
fn pointer_stays_on_the_captured_output() {
    let mut session = Session::new(None);
    assert!(session.motion(0, 0).is_ok());
    session.captured(640, 480);
    assert!(session.motion(639, 479).is_ok());
    assert_eq!(
        session.motion(640, 3).unwrap_err(),
        "sandbox pointer target (640, 3) is outside the sandbox output 640x480"
    );
    assert_eq!(Session::new(output_size(800, 600)).extent, (800, 600));
    assert_eq!(output_size(0, 600), None);
}

#[test]
fn modifiers_are_announced_when_they_change() {
    let mut session = Session::new(None);
    assert_eq!(session.key(0), None);
    assert_eq!(session.key(5), Some(5));
    assert_eq!(session.key(5), None);
    assert_eq!(session.key(0), Some(0));
}

#[test]
fn wheel_events_count_pixels_and_notches() {
    assert_eq!(
        scroll_steps(-1, 2),
        vec![
            AxisStep { axis: Axis::Vertical, pixels: 30, notches: 2 },
            AxisStep { axis: Axis::Horizontal, pixels: -15, notches: -1 },
        ]
    );
    assert!(scroll_steps(0, 0).is_empty());
}
