use wayhand_mcp::inject::fake::{FakeEvent, FakeInjector};
use wayhand_mcp::inject::{Button, Injector};
use wayhand_mcp::keys::{KeyMap, KnownNames, Layout, NameSyms, PerModifier, XKB_OFFSET};
use wayhand_mcp::safety::Budget;
use wayhand_mcp::server::run::{Command, Outcome, Run};
use wayhand_mcp::server::state::{OperationState, RunningSandbox};
use wayhand_mcp::server::steps::Step;
use wayhand_mcp::server::{ScreenSize, Target};
use wayhand_mcp::time::Duration;

fn both(sym: u32) -> NameSyms {
    NameSyms { exact: sym, lower: sym }
}

/// A layout of a few keys.
fn keymap() -> KeyMap {
    let mut plain: Vec<Vec<u32>> = vec![Vec::new(); 256];
    let mut shifted: Vec<Vec<u32>> = vec![Vec::new(); 256];
    for (code, low, high) in [(20, 't', 'T'), (47, 'v', 'V')] {
        plain[code].push(low as u32);
        shifted[code].push(high as u32);
    }
    for (code, sym) in [(28, 0xff0d), (29, 0xffe3), (42, 0xffe1)] {
        plain[code].push(sym);
    }
    KeyMap::from_layout(Layout {
        text: String::new(),
        min_keycode: XKB_OFFSET,
        plain,
        shifted,
        modifier_indices: PerModifier { shift: 0, ctrl: 2, alt: 3, logo: 6 },
        names: KnownNames {
            enter: 0xff0d,
            tab: 0xff09,
            paste: both('v' as u32),
            control_l: both(0xffe3),
            shift_l: both(0xffe1),
            alt_l: both(0),
            super_l: both(0),
        },
    })
}

fn state() -> OperationState {
    let budget = Budget::with_config(100, Duration::from_millis(0));
    OperationState::new(budget, keymap(), None)
}

fn running() -> RunningSandbox {
    RunningSandbox { display: "wayland-7".to_owned(), visible: false }
}

/// What a driver of the machine saw beside the events of the device.
#[derive(Default)]
struct Trace {
    waits: Vec<Duration>,
    copies: Vec<(String, Option<String>)>,
    masks: Vec<u32>,
    skipped: usize,
}

/// Performs the commands of an action on one device.
fn drive(
    state: &mut OperationState,
    device: &mut FakeInjector,
    target: Target,
    steps: Vec<Step>,
    cancelled: bool,
    trace: &mut Trace,
) -> Result<(), String> {
    let mut run = Run::new(target, steps);
    let mut outcome = Outcome::Done;
    let mut now = Duration::from_millis(0);
    loop {
        let result = match run.advance(state, now, cancelled, outcome) {
            Command::Wait(span) => {
                now.nanos += span.nanos;
                trace.waits.push(span);
                Ok(())
            }
            Command::Skip => {
                trace.skipped += 1;
                Ok(())
            }
            Command::Move(x, y) => device.move_abs(x, y),
            Command::Button(button, pressed) => device.button(button, pressed),
            Command::Key(code, pressed) => device.key(code, pressed),
            Command::Scroll(horizontal, vertical) => device.scroll(horizontal, vertical),
            Command::SetModifiers(mask) => {
                trace.masks.push(mask);
                Ok(())
            }
            Command::Copy { text, display } => {
                trace.copies.push((text, display));
                Ok(())
            }
            Command::ReleaseTarget => device.release_all(),
            Command::ReleaseEverything => {
                let desktop = device.release_all().map_err(|error| error.message);
                outcome = Outcome::Released { desktop, sandbox: Ok(()) };
                continue;
            }
            Command::Finished(result) => return result,
        };
        outcome = match result {
            Ok(()) => Outcome::Done,
            Err(error) => Outcome::Failed(error.message),
        };
    }
}

fn run_steps(
    state: &mut OperationState,
    device: &mut FakeInjector,
    target: Target,
    steps: Vec<Step>,
    cancelled: bool,
) -> Result<(), String> {
    drive(state, device, target, steps, cancelled, &mut Trace::default())
}

#[test]
fn cancelled_request_stops_and_releases() {
    let mut state = state();
    let mut device = FakeInjector::new();
    state.captured(Target::Desktop, ScreenSize { width: 100, height: 100 });
    let error = run_steps(
        &mut state,
        &mut device,
        Target::Desktop,
        vec![Step::Button(Button::Left, true), Step::Move(1, 1)],
        true,
    )
    .unwrap_err();
    assert!(error.contains("cancelled"), "{error}");
    assert_eq!(state.budget.consecutive_injections(), 0);
    assert!(device.events.is_empty());
}

#[test]
fn desktop_steps_reach_fake_injector_and_scroll_sign_is_flipped() {
    let mut state = state();
    let mut device = FakeInjector::new();
    state.captured(Target::Desktop, ScreenSize { width: 100, height: 100 });
    let (x, y) = state.map_point(Target::Desktop, 99, 0).unwrap();
    assert_eq!((x, y), (65535, 0));
    run_steps(
        &mut state,
        &mut device,
        Target::Desktop,
        vec![Step::Move(x, y), Step::Scroll(0, 3)],
        false,
    )
    .unwrap();
    assert_eq!(
        device.events,
        vec![
            FakeEvent::MoveAbs { x: 65535, y: 0 },
            FakeEvent::Syn,
            FakeEvent::Scroll { horizontal: 0, vertical: -3 },
            FakeEvent::Syn,
        ]
    );
    assert_eq!(state.budget.consecutive_injections(), 1);
    assert!(state.map_point(Target::Desktop, 100, 0).is_err());
    assert!(
        state.map_point(Target::Sandbox, 1, 1).is_err(),
        "no sandbox screenshot yet"
    );
}

#[test]
fn failing_injection_releases_pressed_inputs() {
    let mut device = FakeInjector::new();
    device.fail_after(1);
    let mut state = state();
    let error = run_steps(
        &mut state,
        &mut device,
        Target::Desktop,
        vec![Step::Button(Button::Left, true), Step::Move(1, 1)],
        false,
    )
    .unwrap_err();
    assert!(error.contains("move failed"), "{error}");
    assert_eq!(state.budget.consecutive_injections(), 0);
    assert!(device.pressed_buttons.is_empty());
    assert_eq!(
        device.events[4],
        FakeEvent::Button { button: Button::Left, pressed: false }
    );
}

#[test]
fn every_kind_of_failed_input_is_named() {
    for (step, name) in [
        (Step::Move(1, 1), "move failed: oops"),
        (Step::Button(Button::Right, false), "button failed: oops"),
        (Step::Key(30, false), "key failed: oops"),
        (Step::Scroll(1, 0), "scroll failed: oops"),
    ] {
        let mut device = FakeInjector::new();
        device.fail_next("oops");
        let error =
            run_steps(&mut state(), &mut device, Target::Desktop, vec![step], false).unwrap_err();
        assert_eq!(error, name);
    }
}

#[test]
fn failed_release_is_told_beside_the_failure() {
    let mut state = state();
    let mut run = Run::new(Target::Desktop, vec![Step::Key(30, true)]);
    let now = Duration::from_millis(0);
    assert!(matches!(
        run.advance(&mut state, now, false, Outcome::Done),
        Command::Key(30, true)
    ));
    assert!(matches!(
        run.advance(&mut state, now, false, Outcome::Failed("gone".to_owned())),
        Command::ReleaseTarget
    ));
    match run.advance(&mut state, now, false, Outcome::Failed("still gone".to_owned())) {
        Command::Finished(Err(error)) => assert_eq!(
            error,
            "key failed: gone; releasing pressed inputs also failed: still gone"
        ),
        other => panic!("{other:?}"),
    }
}

#[test]
fn cancelling_between_steps_releases_what_is_held() {
    let mut state = state();
    let mut device = FakeInjector::new();
    let steps = vec![Step::Button(Button::Left, true), Step::Move(1, 1)];
    let mut run = Run::new(Target::Desktop, steps);
    let now = Duration::from_millis(0);
    match run.advance(&mut state, now, false, Outcome::Done) {
        Command::Button(button, pressed) => device.button(button, pressed).unwrap(),
        other => panic!("{other:?}"),
    }
    assert!(matches!(
        run.advance(&mut state, now, true, Outcome::Done),
        Command::ReleaseTarget
    ));
    device.release_all().unwrap();
    match run.advance(&mut state, now, true, Outcome::Done) {
        Command::Finished(Err(error)) => {
            assert_eq!(error, "cancelled by the client; pressed inputs released")
        }
        other => panic!("{other:?}"),
    }
    assert!(device.pressed_buttons.is_empty());
    assert!(matches!(
        run.advance(&mut state, now, true, Outcome::Done),
        Command::Skip
    ));
}

#[test]
fn stop_releases_everything_once_and_refuses_from_then_on() {
    let mut state = state();
    let mut device = FakeInjector::new();
    device.key(30, true).unwrap();
    state.budget.stop();
    let steps = || vec![Step::Move(1, 1)];
    let first =
        run_steps(&mut state, &mut device, Target::Desktop, steps(), false).unwrap_err();
    assert_eq!(first, "input injection stopped after SIGINT");
    assert!(device.pressed_keys.is_empty());
    let events = device.events.len();
    let second =
        run_steps(&mut state, &mut device, Target::Desktop, steps(), false).unwrap_err();
    assert_eq!(second, "input injection stopped after SIGINT");
    assert_eq!(device.events.len(), events);
}

#[test]
fn release_that_fails_after_a_stop_names_the_device() {
    let mut state = state();
    let now = Duration::from_millis(0);
    assert!(state.stop());
    assert!(!state.stop());
    state.stop_release_done = false;
    let mut run = Run::new(Target::Desktop, Vec::new());
    assert!(matches!(
        run.advance(&mut state, now, false, Outcome::Done),
        Command::ReleaseEverything
    ));
    let outcome = Outcome::Released { desktop: Ok(()), sandbox: Err("broken pipe".to_owned()) };
    match run.advance(&mut state, now, false, outcome) {
        Command::Finished(Err(error)) => assert_eq!(
            error,
            "input injection stopped after SIGINT; release pressed inputs after stop failed: sandbox: broken pipe"
        ),
        other => panic!("{other:?}"),
    }
}

#[test]
fn breaker_ends_an_action_before_its_first_step() {
    let mut state = OperationState::new(
        Budget::with_config(1, Duration::from_millis(0)),
        keymap(),
        None,
    );
    let mut device = FakeInjector::new();
    let steps = || vec![Step::Move(1, 1)];
    run_steps(&mut state, &mut device, Target::Desktop, steps(), false).unwrap();
    let error =
        run_steps(&mut state, &mut device, Target::Desktop, steps(), false).unwrap_err();
    assert!(error.starts_with("input injection circuit breaker tripped after 1 "), "{error}");
    assert_eq!(device.events.len(), 2);
}

#[test]
fn action_waits_for_the_injection_before_it() {
    let mut state = OperationState::new(Budget::new(), keymap(), None);
    state.budget.injection_succeeded(Duration::from_millis(0));
    let mut trace = Trace::default();
    let mut device = FakeInjector::new();
    drive(
        &mut state,
        &mut device,
        Target::Desktop,
        vec![Step::Sleep(Duration::from_millis(7))],
        false,
        &mut trace,
    )
    .unwrap();
    assert_eq!(trace.waits, vec![Duration::from_millis(20), Duration::from_millis(7)]);
    assert_eq!(state.budget.last_injection, Some(Duration::from_millis(27)));
}

#[test]
fn sandbox_steps_need_a_running_sandbox() {
    let mut state = state();
    let mut device = FakeInjector::new();
    let missing = "sandbox is not running; call sandbox_start first";
    let steps = || vec![Step::Move(1, 1)];
    assert_eq!(
        run_steps(&mut state, &mut device, Target::Sandbox, steps(), false).unwrap_err(),
        missing
    );
    assert_eq!(
        run_steps(&mut state, &mut device, Target::Sandbox, steps(), true).unwrap_err(),
        format!("cancelled by the client; releasing pressed inputs failed: {missing}")
    );
    assert_eq!(state.budget.consecutive_injections(), 0);
}

#[test]
fn sandbox_steps_keep_the_scroll_sign_and_its_own_clipboard() {
    let mut state = state();
    state.sandbox_started(running());
    let mut device = FakeInjector::new();
    let mut trace = Trace::default();
    let steps = || {
        vec![
            Step::Modifiers(4),
            Step::Scroll(1, 3),
            Step::Clipboard("文".to_owned()),
            Step::Modifiers(0),
        ]
    };
    drive(&mut state, &mut device, Target::Sandbox, steps(), false, &mut trace).unwrap();
    assert_eq!(device.events[0], FakeEvent::Scroll { horizontal: 1, vertical: 3 });
    assert_eq!(trace.masks, vec![4, 0]);
    assert_eq!(trace.copies, vec![("文".to_owned(), Some("wayland-7".to_owned()))]);
    let mut trace = Trace::default();
    drive(&mut state, &mut device, Target::Desktop, steps(), false, &mut trace).unwrap();
    assert_eq!(trace.skipped, 2);
    assert_eq!(trace.copies, vec![("文".to_owned(), None)]);
}
