//! The virtual pointer and keyboard of the real desktop: which events they
//! take.

use vstd::prelude::*;
use vstd::string::*;

use crate::coords::ABSOLUTE_MAX;
use crate::text::{decimal, push_decimal};

verus! {

/// Highest key code advertised on the keyboard device. Button codes are left
/// out: with them beside absolute axes the device would be taken for a tablet.
pub const KEYBOARD_KEY_MAX: u16 = 0xff;

/// An event of the pointer device.
#[derive(Debug, Clone, Copy, PartialEq, Eq, Structural)]
pub enum PointerEvent {
    AbsoluteX(i32),
    AbsoluteY(i32),
    HorizontalWheel(i32),
    Wheel(i32),
}

/// Why the pointer cannot go to a position: an axis cannot count so far, or it
/// ends before.
pub open spec fn out_of_range(x: u32, y: u32) -> Option<Seq<char>> {
    if x > i32::MAX {
        Some("x coordinate exceeds uinput range"@)
    } else if y > i32::MAX {
        Some("y coordinate exceeds uinput range"@)
    } else if x > ABSOLUTE_MAX || y > ABSOLUTE_MAX {
        Some("coordinate exceeds uinput range 0..="@ + decimal(ABSOLUTE_MAX as int))
    } else {
        None
    }
}

/// The events of a movement.
pub fn move_events(x: u32, y: u32) -> (events: Result<Vec<PointerEvent>, String>)
    ensures
        match events {
            Ok(events) => out_of_range(x, y) is None && events@ == seq![
                PointerEvent::AbsoluteX(x as i32),
                PointerEvent::AbsoluteY(y as i32),
            ],
            Err(error) => out_of_range(x, y) == Some(error@),
        },
{
    if x > i32::MAX as u32 {
        return Err("x coordinate exceeds uinput range".to_owned());
    }
    if y > i32::MAX as u32 {
        return Err("y coordinate exceeds uinput range".to_owned());
    }
    if x > ABSOLUTE_MAX as u32 || y > ABSOLUTE_MAX as u32 {
        let mut error = "coordinate exceeds uinput range 0..=".to_owned();
        push_decimal(&mut error, ABSOLUTE_MAX as i64);
        return Err(error);
    }
    let events: Vec<PointerEvent> = vec![
        PointerEvent::AbsoluteX(x as i32),
        PointerEvent::AbsoluteY(y as i32),
    ];
    assert(events@ =~= seq![PointerEvent::AbsoluteX(x as i32), PointerEvent::AbsoluteY(y as i32)]);
    Ok(events)
}

/// The events of a scroll: both wheels, the horizontal one first.
pub fn scroll_events(horizontal: i32, vertical: i32) -> (events: Vec<PointerEvent>)
    ensures
        events@ == seq![PointerEvent::HorizontalWheel(horizontal), PointerEvent::Wheel(vertical)],
{
    let events: Vec<PointerEvent> = vec![
        PointerEvent::HorizontalWheel(horizontal),
        PointerEvent::Wheel(vertical),
    ];
    assert(events@ =~= seq![
        PointerEvent::HorizontalWheel(horizontal),
        PointerEvent::Wheel(vertical),
    ]);
    events
}

/// The key codes that the keyboard device advertises.
pub fn keyboard_codes() -> (codes: Vec<u16>)
    ensures
        codes@ == Seq::new(KEYBOARD_KEY_MAX as nat, |i: int| (i + 1) as u16),
        codes@.len() == 255,
{
    let mut codes: Vec<u16> = Vec::new();
    let mut code: u16 = 1;
    while code <= KEYBOARD_KEY_MAX
        invariant
            1 <= code <= KEYBOARD_KEY_MAX + 1,
            codes@ == Seq::new((code - 1) as nat, |i: int| (i + 1) as u16),
        decreases KEYBOARD_KEY_MAX + 1 - code,
    {
        codes.push(code);
        code = code + 1;
        assert(codes@ =~= Seq::new((code - 1) as nat, |i: int| (i + 1) as u16));
    }
    codes
}

pub open spec fn unavailable_text(reason: Seq<char>) -> Seq<char> {
    "uinput backend unavailable: "@ + reason + " (run scripts/setup.sh)"@
}

/// What a call is told while the devices cannot be made.
pub fn unavailable(reason: &str) -> (text: String)
    ensures
        text@ == unavailable_text(reason@),
{
    let mut text = "uinput backend unavailable: ".to_owned();
    text.append(reason);
    text.append(" (run scripts/setup.sh)");
    text
}

/// The pointer goes to a position exactly where both axes reach it.
pub proof fn lemma_which_positions_are_in_range(x: u32, y: u32)
    ensures
        out_of_range(x, y) is None <==> x <= 65_535 && y <= 65_535,
{
}

} // verus!
