use wayhand_mcp::calibrate::probe::Verdict;
use wayhand_mcp::coords::Transform;
use wayhand_mcp::inject::Button;
use wayhand_mcp::keys::{CharSym, KeyMap, KnownNames, Layout, NameSyms, PerModifier, XKB_OFFSET};
use wayhand_mcp::safety::Budget;
use wayhand_mcp::server::actions::{
    drag_action, key_action, move_action, pointer_action, scroll_action, type_action,
};
use wayhand_mcp::server::args::{
    DragArgs, KeyArgs, Point, PointArgs, SandboxStartArgs, ScrollArgs, TypeArgs,
};
use wayhand_mcp::server::sandbox_tools::{
    launch_display, launched_reply, start_request, started_reply, stop_request, StartRequest,
};
use wayhand_mcp::sandbox::SandboxOptions;
use wayhand_mcp::server::state::{OperationState, RunningSandbox};
use wayhand_mcp::server::steps::Step;
use wayhand_mcp::server::{target_or_default, ScreenSize, Target};
use wayhand_mcp::time::Duration;

fn both(sym: u32) -> NameSyms {
    NameSyms { exact: sym, lower: sym }
}

/// A layout of a few keys.
fn keymap() -> KeyMap {
    let mut plain: Vec<Vec<u32>> = vec![Vec::new(); 256];
    let mut shifted: Vec<Vec<u32>> = vec![Vec::new(); 256];
    for (code, low, high) in [(20, 't', 'T'), (47, 'v', 'V')] {
        plain[code].push(low as u32);
        shifted[code].push(high as u32);
    }
    for (code, sym) in [(28, 0xff0d), (29, 0xffe3), (42, 0xffe1)] {
        plain[code].push(sym);
    }
    KeyMap::from_layout(Layout {
        text: String::new(),
        min_keycode: XKB_OFFSET,
        plain,
        shifted,
        modifier_indices: PerModifier { shift: 0, ctrl: 2, alt: 3, logo: 6 },
        names: KnownNames {
            enter: 0xff0d,
            tab: 0xff09,
            paste: both('v' as u32),
            control_l: both(0xffe3),
            shift_l: both(0xffe1),
            alt_l: both(0),
            super_l: both(0),
        },
    })
}

fn state() -> OperationState {
    let mut state = OperationState::new(Budget::new(), keymap(), None);
    state.captured(Target::Sandbox, ScreenSize { width: 200, height: 100 });
    state
}

fn at(x: i64, y: i64) -> PointArgs {
    PointArgs { x, y, target: None, settle_ms: None }
}

fn ms(millis: u64) -> Duration {
    Duration::from_millis(millis)
}

#[test]
fn sandbox_is_the_default_target() {
    assert_eq!(target_or_default(None), Target::Sandbox);
    assert_eq!(target_or_default(Some(Target::Desktop)), Target::Desktop);
    assert_eq!(Target::default(), Target::Sandbox);
}

#[test]
fn click_goes_to_the_pixel_and_settles() {
    let action = pointer_action(&state(), &at(7, 8), Button::Right, 1, "right-clicked").unwrap();
    assert_eq!(action.target, Target::Sandbox);
    assert_eq!(
        action.steps,
        vec![
            Step::Move(7, 8),
            Step::Button(Button::Right, true),
            Step::Button(Button::Right, false)
        ]
    );
    assert_eq!(action.settle, ms(150));
    assert_eq!(action.reply, "right-clicked at sandbox pixel (7, 8)");
}

#[test]
fn settle_time_is_asked_about_before_the_pixel() {
    let args = PointArgs { settle_ms: Some(10_001), ..at(-1, -1) };
    let settle = "settle_ms must be between 0 and 10000 milliseconds";
    assert_eq!(move_action(&state(), &args).unwrap_err(), settle);
    assert_eq!(
        move_action(&state(), &PointArgs { settle_ms: Some(0), ..args }).unwrap_err(),
        "(-1, -1) is outside the sandbox screenshot 200x100"
    );
}

#[test]
fn pixels_need_a_screenshot_of_the_same_target() {
    let args = PointArgs { target: Some(Target::Desktop), ..at(1, 1) };
    assert_eq!(
        move_action(&state(), &args).unwrap_err(),
        "no screenshot is available for target desktop; call screenshot first"
    );
    let mut state = state();
    state.captured(Target::Desktop, ScreenSize { width: 3, height: 0 });
    assert_eq!(
        move_action(&state, &args).unwrap_err(),
        "invalid screenshot dimensions: screen width and height must be positive"
    );
    state.captured(Target::Desktop, ScreenSize { width: 3, height: 3 });
    let action = move_action(&state, &args).unwrap();
    assert_eq!(action.steps, vec![Step::Move(32768, 32768)]);
    assert_eq!(action.reply, "moved pointer to desktop pixel (1, 1)");
}

#[test]
fn scroll_is_bounded_and_must_go_somewhere() {
    let args = ScrollArgs { x: 1, y: 2, dx: None, dy: Some(99), target: None, settle_ms: None };
    let action = scroll_action(&state(), &args).unwrap();
    assert_eq!(
        action.steps,
        vec![Step::Move(1, 2), Step::Sleep(ms(20)), Step::Scroll(0, 50)]
    );
    assert_eq!(action.reply, "scrolled dx=0 dy=50 notches at sandbox pixel (1, 2)");
    let up = ScrollArgs { dx: Some(-51), dy: Some(-3), ..args };
    assert_eq!(scroll_action(&state(), &up).unwrap().steps[2], Step::Scroll(-50, -3));
    let still = ScrollArgs { dx: Some(0), dy: None, ..up };
    assert_eq!(
        scroll_action(&state(), &still).unwrap_err(),
        "dx and dy are both 0; nothing to scroll"
    );
}

fn drag() -> DragArgs {
    DragArgs {
        from: Point { x: 0, y: 0 },
        to: Point { x: 20, y: 30 },
        waypoints: vec![Point { x: 20, y: 0 }],
        step_px: Some(10),
        hold_ms: Some(9_999),
        target: None,
        settle_ms: Some(0),
    }
}

#[test]
fn drag_passes_its_waypoints() {
    let action = drag_action(&state(), &drag()).unwrap();
    let moves: Vec<(u32, u32)> = action
        .steps
        .iter()
        .filter_map(|step| match step {
            Step::Move(x, y) => Some((*x, *y)),
            _ => None,
        })
        .collect();
    assert_eq!(moves, vec![(0, 0), (10, 0), (20, 0), (20, 10), (20, 20), (20, 30)]);
    assert_eq!(action.steps[1], Step::Sleep(ms(2_000)));
    assert_eq!(action.settle, ms(0));
    assert_eq!(
        action.reply,
        "dragged on sandbox from (0, 0) to (20, 30) through 1 waypoint(s)"
    );
}

#[test]
fn drag_that_leaves_the_screenshot_is_refused() {
    let args = DragArgs { to: Point { x: 20, y: 100 }, ..drag() };
    assert_eq!(
        drag_action(&state(), &args).unwrap_err(),
        "(20, 100) is outside the sandbox screenshot 200x100"
    );
}

#[test]
fn drag_steps_are_bounded() {
    let count = |step_px: Option<u32>| {
        let args = DragArgs { step_px, waypoints: Vec::new(), to: Point { x: 40, y: 0 }, ..drag() };
        let action = drag_action(&state(), &args).unwrap();
        action.steps.iter().filter(|step| matches!(step, Step::Move(_, _))).count()
    };
    assert_eq!(count(Some(0)), 41);
    assert_eq!(count(None), 3);
    assert_eq!(count(Some(1_000)), 2);
}

#[test]
fn key_is_pressed_with_its_modifiers() {
    let args = KeyArgs { combo: "ctrl+t".to_owned(), target: None, settle_ms: None };
    let action = key_action(&state(), &args, both('t' as u32)).unwrap();
    assert_eq!(
        action.steps,
        vec![
            Step::Modifiers(4),
            Step::Key(29, true),
            Step::Key(20, true),
            Step::Key(20, false),
            Step::Key(29, false),
            Step::Modifiers(0),
        ]
    );
    assert_eq!(action.reply, "pressed ctrl+t on sandbox");
    let bad = KeyArgs { combo: "hyper".to_owned(), ..args };
    assert_eq!(
        key_action(&state(), &bad, both(0)).unwrap_err(),
        "unknown key name \"hyper\" in \"hyper\""
    );
}

fn text_syms(text: &str) -> Vec<CharSym> {
    text.chars().map(|c| CharSym { c, sym: c as u32 }).collect()
}

#[test]
fn typing_tells_what_was_pasted() {
    let args = TypeArgs {
        text: "tT中".to_owned(),
        delay_ms: Some(5_000),
        target: None,
        settle_ms: None,
    };
    let action = type_action(&state(), &args, &text_syms("tT中")).unwrap();
    assert_eq!(
        action.reply,
        "typed 2 character(s) on sandbox; 1 character(s) not on the US layout were pasted through the clipboard with ctrl+v"
    );
    assert!(action.steps.contains(&Step::Sleep(ms(1_000))));
    let plain = TypeArgs { text: "t".to_owned(), ..args };
    assert_eq!(
        type_action(&state(), &plain, &text_syms("t")).unwrap().reply,
        "typed 1 character(s) on sandbox"
    );
    let empty = TypeArgs { text: String::new(), ..plain };
    assert_eq!(type_action(&state(), &empty, &[]).unwrap_err(), "text is empty");
}

#[test]
fn keysyms_of_another_text_are_refused() {
    let args = TypeArgs {
        text: "tv".to_owned(),
        delay_ms: None,
        target: None,
        settle_ms: None,
    };
    assert!(type_action(&state(), &args, &text_syms("tv")).is_ok());
    for other in ["", "t", "tvt", "vt", "tV"] {
        assert_eq!(
            type_action(&state(), &args, &text_syms(other)).unwrap_err(),
            "the keysyms are not those of the text"
        );
    }
    let empty = TypeArgs { text: String::new(), ..args };
    assert_eq!(type_action(&state(), &empty, &text_syms("t")).unwrap_err(), "text is empty");
}

#[test]
fn drag_along_the_edge_of_the_screenshot_is_accepted() {
    let mut state = state();
    state.captured(Target::Sandbox, ScreenSize { width: 31, height: 17 });
    let args = DragArgs {
        from: Point { x: 0, y: 16 },
        to: Point { x: 30, y: 0 },
        waypoints: vec![Point { x: 0, y: 0 }, Point { x: 30, y: 16 }],
        step_px: Some(1),
        hold_ms: None,
        target: None,
        settle_ms: None,
    };
    let steps = drag_action(&state, &args).unwrap().steps;
    let moves: Vec<(u32, u32)> = steps
        .iter()
        .filter_map(|step| match step {
            Step::Move(x, y) => Some((*x, *y)),
            _ => None,
        })
        .collect();
    assert_eq!(moves.first(), Some(&(0, 16)));
    assert_eq!(moves.last(), Some(&(30, 0)));
    for pair in moves.windows(2) {
        assert!(pair[0].0.abs_diff(pair[1].0) + pair[0].1.abs_diff(pair[1].1) <= 1);
    }
}

#[test]
fn calibration_counts_for_its_own_screen_only() {
    let mut state = state();
    let size = ScreenSize { width: 10, height: 10 };
    let linear = Transform::linear(10, 10).unwrap();
    let fitted = Transform {
        m11: 1.0f64.to_bits(),
        m12: 0,
        m13: 5.0f64.to_bits(),
        m21: 0,
        m22: 1.0f64.to_bits(),
        m23: 6.0f64.to_bits(),
    };
    state.captured(Target::Desktop, size);
    let plain = state.map_point(Target::Desktop, 1, 1);
    state.calibrated(Verdict::Linear, size, linear, fitted);
    assert_eq!(state.map_point(Target::Desktop, 1, 1), plain);
    state.calibrated(Verdict::Fitted, size, linear, fitted);
    assert_eq!(state.map_point(Target::Desktop, 1, 1), Ok((6, 7)));
    state.captured(Target::Desktop, ScreenSize { width: 11, height: 10 });
    assert_eq!(state.map_point(Target::Desktop, 10, 9), Ok((65535, 65535)));
    state.captured(Target::Desktop, size);
    state.calibrated(Verdict::Rejected, size, linear, fitted);
    assert_eq!(state.map_point(Target::Desktop, 1, 1), plain);
}

#[test]
fn sandbox_runs_until_it_is_stopped() {
    let mut state = state();
    let args = SandboxStartArgs { visible: None, width: Some(100), height: Some(9_999) };
    match start_request(&state, &args) {
        StartRequest::Start(options) => {
            assert_eq!(options, SandboxOptions { visible: false, width: 640, height: 2160 })
        }
        other => panic!("{other:?}"),
    }
    let missing = "sandbox is not running; call sandbox_start first";
    assert_eq!(launch_display(&state).unwrap_err(), missing);
    state.sandbox_started(RunningSandbox { display: "wayland-2".to_owned(), visible: true });
    assert!(state.map_point(Target::Sandbox, 1, 1).is_err());
    match start_request(&state, &args) {
        StartRequest::Running(reply) => assert_eq!(
            reply,
            "sandbox already running (visible window) on WAYLAND_DISPLAY=wayland-2"
        ),
        other => panic!("{other:?}"),
    }
    assert_eq!(launch_display(&state).unwrap(), "wayland-2");
    assert!(stop_request(&state));
    state.sandbox_stopped();
    assert!(!stop_request(&state));
}

#[test]
fn sandbox_replies_name_the_display_and_the_program() {
    let options = SandboxOptions::default();
    assert_eq!(
        started_reply(options, "wayland-2"),
        "sandbox started headless (nothing is displayed; use screenshot to see it) on WAYLAND_DISPLAY=wayland-2; launch apps with sandbox_launch, then screenshot with target=sandbox"
    );
    assert_eq!(
        started_reply(SandboxOptions { visible: true, ..options }, "wayland-2"),
        "sandbox started as a window on the real desktop (keep it visible and uncovered while taking screenshots) on WAYLAND_DISPLAY=wayland-2; launch apps with sandbox_launch, then screenshot with target=sandbox"
    );
    let argv = vec!["sh".to_owned(), "-c".to_owned(), "echo \"hi\"\n".to_owned()];
    assert_eq!(
        launched_reply(&argv, 42),
        format!("launched {argv:?} inside the sandbox with pid 42")
    );
    assert_eq!(launched_reply(&[], 1), "launched [] inside the sandbox with pid 1");
}
