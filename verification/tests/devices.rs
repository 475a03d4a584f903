use wayhand_mcp::inject::held::{Held, Release};
use wayhand_mcp::inject::pressed::{PressedButtons, PressedKeys};
use wayhand_mcp::inject::uinput::{
    keyboard_codes, move_events, scroll_events, unavailable, PointerEvent,
};
use wayhand_mcp::inject::Button;
use wayhand_mcp::sandbox::button_code;

#[test]
fn pointer_moves_within_its_axes() {
    assert_eq!(
        move_events(5, 65_535).unwrap(),
        vec![PointerEvent::AbsoluteX(5), PointerEvent::AbsoluteY(65_535)]
    );
    let range = "coordinate exceeds uinput range 0..=65535";
    assert_eq!(move_events(65_536, 0).unwrap_err(), range);
    assert_eq!(move_events(0, 65_536).unwrap_err(), range);
    assert_eq!(move_events(1 << 31, 0).unwrap_err(), "x coordinate exceeds uinput range");
    assert_eq!(move_events(0, 1 << 31).unwrap_err(), "y coordinate exceeds uinput range");
}

#[test]
fn wheels_turn_together() {
    assert_eq!(
        scroll_events(-2, 3),
        vec![PointerEvent::HorizontalWheel(-2), PointerEvent::Wheel(3)]
    );
}

#[test]
fn keyboard_advertises_keys_and_no_buttons() {
    let codes = keyboard_codes();
    assert_eq!(codes.len(), 255);
    assert_eq!((codes[0], codes[254]), (1, 255));
}

#[test]
fn missing_device_names_the_remedy() {
    assert_eq!(
        unavailable("permission denied"),
        "uinput backend unavailable: permission denied (run scripts/setup.sh)"
    );
}

#[test]
fn failed_releases_stay_held() {
    let mut held = Held::new();
    held.button_sent(Button::Middle, true, false);
    held.button_sent(Button::Left, true, true);
    held.key_sent(50, true, true);
    held.key_sent(30, true, true);
    assert_eq!(
        held.releases(),
        vec![
            Release::Button(Button::Left),
            Release::Button(Button::Middle),
            Release::Key(30),
            Release::Key(50),
        ]
    );
    held.button_sent(Button::Left, false, false);
    held.button_sent(Button::Middle, false, true);
    held.key_sent(30, false, true);
    held.key_sent(50, false, false);
    assert_eq!(held.releases(), vec![Release::Button(Button::Left), Release::Key(50)]);
}

#[test]
fn pressed_inputs_are_kept_once() {
    let mut buttons = PressedButtons::new();
    buttons.insert(Button::Right);
    buttons.insert(Button::Right);
    assert!(buttons.contains(Button::Right) && !buttons.contains(Button::Left));
    buttons.remove(Button::Right);
    assert!(buttons.is_empty());
    let mut keys = PressedKeys::new();
    for code in [7, 3, 7, 5] {
        keys.insert(code);
    }
    assert_eq!(keys.codes(), vec![3, 5, 7]);
    keys.remove(5);
    keys.remove(6);
    assert!(keys.contains(7) && !keys.contains(5) && !keys.is_empty());
}

#[test]
fn buttons_have_evdev_codes() {
    assert_eq!(
        [Button::Left, Button::Right, Button::Middle].map(button_code),
        [0x110, 0x111, 0x112]
    );
}
