use wayhand_mcp::inject::fake::{FakeEvent, FakeInjector};
use wayhand_mcp::inject::{Button, Injector};

#[test]
fn records_move_event_and_sync() {
    let mut fake = FakeInjector::new();

    fake.move_abs(123, 456).unwrap();

    assert_eq!(
        fake.events,
        vec![FakeEvent::MoveAbs { x: 123, y: 456 }, FakeEvent::Syn]
    );
}

#[test]
fn records_click_press_release_with_sync_between_each_event() {
    let mut fake = FakeInjector::new();

    fake.button(Button::Left, true).unwrap();
    fake.button(Button::Left, false).unwrap();

    assert_eq!(
        fake.events,
        vec![
            FakeEvent::Button {
                button: Button::Left,
                pressed: true,
            },
            FakeEvent::Syn,
            FakeEvent::Button {
                button: Button::Left,
                pressed: false,
            },
            FakeEvent::Syn,
        ]
    );
    assert!(fake.pressed_buttons.is_empty());
}

#[test]
fn failed_release_is_recorded_and_can_be_retried_by_release_all() {
    let mut fake = FakeInjector::new();

    fake.button(Button::Left, true).unwrap();
    fake.fail_next("release failed");
    assert!(fake.button(Button::Left, false).is_err());
    assert_eq!(
        &fake.events[2..],
        &[
            FakeEvent::Button {
                button: Button::Left,
                pressed: false,
            },
            FakeEvent::Syn,
        ]
    );

    fake.release_all().unwrap();

    assert!(fake.pressed_buttons.is_empty());
}

#[test]
fn release_all_releases_every_pressed_button_and_key() {
    let mut fake = FakeInjector::new();

    fake.button(Button::Right, true).unwrap();
    fake.key(42, true).unwrap();
    fake.release_all().unwrap();

    assert!(fake.pressed_buttons.is_empty());
    assert!(fake.pressed_keys.is_empty());
    assert_eq!(
        &fake.events[4..],
        &[
            FakeEvent::Button {
                button: Button::Right,
                pressed: false,
            },
            FakeEvent::Syn,
            FakeEvent::Key {
                code: 42,
                pressed: false,
            },
            FakeEvent::Syn,
        ]
    );
}

#[test]
fn release_all_keeps_what_failed_to_be_released() {
    let mut fake = FakeInjector::new();
    fake.button(Button::Left, true).unwrap();
    fake.button(Button::Middle, true).unwrap();
    fake.key(30, true).unwrap();
    fake.key(42, true).unwrap();
    fake.fail_after(1);
    assert_eq!(fake.release_all().unwrap_err().message, "fake injector failure");
    assert!(!fake.pressed_buttons.contains(Button::Left));
    assert!(fake.pressed_buttons.contains(Button::Middle));
    assert!(fake.pressed_keys.is_empty());
    fake.release_all().unwrap();
    assert!(fake.pressed_buttons.is_empty());
}
