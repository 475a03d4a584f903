//! What is held down while steps are performed, and that nothing is left of
//! it in the end.

use vstd::prelude::*;

use crate::inject::Button;
use crate::keys::{CharSym, ComboModel, KeyMapModel, KeyStroke, Modifier, RunModel};
use crate::time::Duration;

use super::steps::{
    announcement, chord, clicks, combo_sequence, drag, has_pasted, key_steps, modifier_keys, moves,
    presses, typing, StepModel, TypingKit, DOUBLE_CLICK_GAP_MS, DRAG_STEP_PAUSE_MS,
    PASTE_SETTLE_MS,
};

verus! {

/// What is down while steps are performed: keys, buttons and the announced
/// modifier mask.
#[verifier::ext_equal]
pub struct Down {
    pub keys: Set<u16>,
    pub buttons: Set<Button>,
    pub mask: u32,
}

pub open spec fn nothing_down() -> Down {
    Down { keys: Set::empty(), buttons: Set::empty(), mask: 0 }
}

impl Down {
    pub open spec fn then_step(self, step: StepModel) -> Down {
        match step {
            StepModel::Key(code, true) => Down { keys: self.keys.insert(code), ..self },
            StepModel::Key(code, false) => Down { keys: self.keys.remove(code), ..self },
            StepModel::Button(button, true) => Down { buttons: self.buttons.insert(button), ..self },
            StepModel::Button(button, false) => Down { buttons: self.buttons.remove(button), ..self },
            StepModel::Modifiers(mask) => Down { mask, ..self },
            _ => self,
        }
    }

    pub open spec fn after(self, steps: Seq<StepModel>) -> Down
        decreases steps.len(),
    {
        if steps.len() == 0 {
            self
        } else {
            self.after(steps.drop_last()).then_step(steps.last())
        }
    }

    /// Two sequences one after the other do what they do together.
    pub proof fn lemma_after_both(self, first: Seq<StepModel>, second: Seq<StepModel>)
        ensures
            self.after(first + second) == self.after(first).after(second),
        decreases second.len(),
    {
        let both = first + second;
        if second.len() == 0 {
            assert(both =~= first);
        } else {
            assert(both.drop_last() =~= first + second.drop_last());
            self.lemma_after_both(first, second.drop_last());
        }
    }

    /// A sequence of one step does what the step does.
    pub proof fn lemma_after_one(self, step: StepModel)
        ensures
            self.after(seq![step]) == self.then_step(step),
    {
        assert(seq![step].drop_last() =~= Seq::<StepModel>::empty());
        assert(self.after(seq![step]) == self.after(seq![step].drop_last()).then_step(step));
    }

    /// A sequence of two steps does what one does and then the other.
    pub proof fn lemma_after_two(self, first: StepModel, second: StepModel)
        ensures
            self.after(seq![first, second]) == self.then_step(first).then_step(second),
    {
        assert(seq![first, second] =~= seq![first] + seq![second]);
        self.lemma_after_both(seq![first], seq![second]);
        self.lemma_after_one(first);
        self.then_step(first).lemma_after_one(second);
    }
}

/// A click leaves nothing down.
pub proof fn lemma_click_leaves_nothing_down(x: u32, y: u32, button: Button, count: nat)
    ensures
        nothing_down().after(clicks(x, y, button, count)) == nothing_down(),
{
    let start = nothing_down();
    start.lemma_after_both(seq![StepModel::Move(x, y)], presses(button, count));
    start.lemma_after_one(StepModel::Move(x, y));
    lemma_presses_leave_nothing_down(button, count);
}

proof fn lemma_presses_leave_nothing_down(button: Button, count: nat)
    ensures
        nothing_down().after(presses(button, count)) == nothing_down(),
    decreases count,
{
    let start = nothing_down();
    if count > 0 {
        let before = presses(button, (count - 1) as nat);
        let pause = StepModel::Sleep(Duration::of_millis(DOUBLE_CLICK_GAP_MS));
        let tap = seq![StepModel::Button(button, true), StepModel::Button(button, false)];
        lemma_presses_leave_nothing_down(button, (count - 1) as nat);
        start.lemma_after_two(tap[0], tap[1]);
        start.lemma_after_one(pause);
        start.lemma_after_both(before, tap);
        start.lemma_after_both(before, seq![pause]);
        start.lemma_after_both(before + seq![pause], tap);
        if count > 1 {
            assert(presses(button, count) =~= (before + seq![pause]) + tap);
        } else {
            assert(presses(button, count) =~= before + tap);
        }
        assert(start.buttons.insert(button).remove(button) =~= start.buttons);
    }
}

proof fn lemma_moves_keep_what_is_down(down: Down, path: Seq<(u32, u32)>)
    ensures
        down.after(moves(path)) == down,
    decreases path.len(),
{
    if path.len() > 0 {
        let rest = moves(path.drop_last());
        let step = StepModel::Move(path.last().0, path.last().1);
        let pause = StepModel::Sleep(Duration::of_millis(DRAG_STEP_PAUSE_MS));
        lemma_moves_keep_what_is_down(down, path.drop_last());
        assert(moves(path) =~= rest + seq![step, pause]);
        down.lemma_after_both(rest, seq![step, pause]);
        down.lemma_after_two(step, pause);
    }
}

/// A drag holds the left button from the first point to the last, and leaves
/// nothing down.
pub proof fn lemma_drag_leaves_nothing_down(path: Seq<(u32, u32)>, hold: Duration)
    ensures
        nothing_down().after(drag(path, hold)) == nothing_down(),
        path.len() > 0 ==> {
            let opening = seq![
                StepModel::Move(path[0].0, path[0].1),
                StepModel::Sleep(hold),
                StepModel::Button(Button::Left, true),
                StepModel::Sleep(hold),
            ] + moves(path.drop_first());
            opening.is_prefix_of(drag(path, hold)) && nothing_down().after(opening).buttons
                == set![Button::Left]
        },
{
    if path.len() > 0 {
        let start = nothing_down();
        let a = seq![StepModel::Move(path[0].0, path[0].1), StepModel::Sleep(hold)];
        let b = seq![StepModel::Button(Button::Left, true), StepModel::Sleep(hold)];
        let middle = moves(path.drop_first());
        let end = seq![StepModel::Sleep(hold), StepModel::Button(Button::Left, false)];
        let held = start.then_step(StepModel::Button(Button::Left, true));
        start.lemma_after_two(a[0], a[1]);
        start.lemma_after_two(b[0], b[1]);
        start.lemma_after_both(a, b);
        start.lemma_after_both(a + b, middle);
        start.lemma_after_both(a + b + middle, end);
        held.lemma_after_two(end[0], end[1]);
        lemma_moves_keep_what_is_down(held, path.drop_first());
        let opening = seq![
            StepModel::Move(path[0].0, path[0].1),
            StepModel::Sleep(hold),
            StepModel::Button(Button::Left, true),
            StepModel::Sleep(hold),
        ] + middle;
        assert(opening =~= a + b + middle);
        assert(drag(path, hold) =~= a + b + middle + end);
        assert(held.buttons =~= set![Button::Left]);
        assert(held.buttons.remove(Button::Left) =~= start.buttons);
    }
}

proof fn lemma_key_steps(down: Down, keys: Seq<u16>, pressed: bool)
    ensures
        ({
            let after = down.after(key_steps(keys, pressed));
            &&& after.buttons == down.buttons
            &&& after.mask == down.mask
            &&& forall|key: u16| #[trigger]
                after.keys.contains(key) <==> if keys.contains(key) {
                    pressed
                } else {
                    down.keys.contains(key)
                }
        }),
    decreases keys.len(),
{
    let steps = key_steps(keys, pressed);
    if keys.len() > 0 {
        let rest = keys.drop_last();
        lemma_key_steps(down, rest, pressed);
        assert(steps.drop_last() =~= key_steps(rest, pressed));
        assert(steps.last() == StepModel::Key(keys.last(), pressed));
        assert forall|key: u16| keys.contains(key) <==> rest.contains(key) || key
            == keys.last() by {
            if rest.contains(key) {
                let k = choose|k: int| 0 <= k < rest.len() && rest[k] == key;
                assert(keys[k] == key);
            }
            if keys.contains(key) && key != keys.last() {
                let k = choose|k: int| 0 <= k < keys.len() && keys[k] == key;
                assert(rest[k] == key);
            }
            assert(keys[keys.len() - 1] == keys.last());
        }
    }
}

proof fn lemma_chord_leaves_nothing_down(keys: Seq<u16>, key: u16, mask: u32)
    ensures
        nothing_down().after(chord(keys, key, mask)) == nothing_down(),
{
    let start = nothing_down();
    let opening = announcement(mask, mask);
    let presses = key_steps(keys, true);
    let tap = seq![StepModel::Key(key, true), StepModel::Key(key, false)];
    let releases = key_steps(keys.reverse(), false);
    let closing = announcement(mask, 0);
    start.lemma_after_both(opening, presses);
    start.lemma_after_both(opening + presses, tap);
    start.lemma_after_both(opening + presses + tap, releases);
    start.lemma_after_both(opening + presses + tap + releases, closing);
    start.lemma_after_one(StepModel::Modifiers(mask));
    let announced = start.after(opening);
    lemma_key_steps(announced, keys, true);
    let held = announced.after(presses);
    held.lemma_after_two(tap[0], tap[1]);
    let tapped = held.after(tap);
    lemma_key_steps(tapped, keys.reverse(), false);
    let released = tapped.after(releases);
    released.lemma_after_one(StepModel::Modifiers(0));
    assert forall|k: u16| !released.keys.contains(k) by {
        if keys.contains(k) {
            let i = choose|i: int| 0 <= i < keys.len() && keys[i] == k;
            assert(keys.reverse()[keys.len() - 1 - i] == k);
            assert(keys.reverse().contains(k));
        }
    }
    assert(released.keys =~= start.keys);
    assert(start.after(chord(keys, key, mask)) =~= start);
}

/// A combo leaves nothing down.
pub proof fn lemma_combo_leaves_nothing_down(map: KeyMapModel, combo: ComboModel)
    ensures
        combo_sequence(map, combo) matches Ok(steps) ==> nothing_down().after(steps)
            == nothing_down(),
{
    match modifier_keys(map, combo.modifiers) {
        Ok(keys) => lemma_chord_leaves_nothing_down(keys, combo.key, map.mask(combo.modifiers)),
        Err(_) => {},
    }
}

proof fn lemma_stroke_leaves_nothing_down(kit: TypingKit, stroke: KeyStroke)
    ensures
        nothing_down().after(kit.stroke(stroke)) == nothing_down(),
{
    let start = nothing_down();
    let tap = seq![StepModel::Key(stroke.evdev, true), StepModel::Key(stroke.evdev, false)];
    let opening = seq![StepModel::Modifiers(kit.shift_mask), StepModel::Key(kit.shift, true)];
    let closing = seq![StepModel::Key(kit.shift, false), StepModel::Modifiers(0)];
    let pause = seq![StepModel::Sleep(kit.delay)];
    start.lemma_after_two(tap[0], tap[1]);
    start.lemma_after_two(opening[0], opening[1]);
    let held = start.after(opening);
    held.lemma_after_two(tap[0], tap[1]);
    let tapped = held.after(tap);
    tapped.lemma_after_two(closing[0], closing[1]);
    start.lemma_after_both(opening, tap);
    start.lemma_after_both(opening + tap, closing);
    assert(start.after(tap) =~= start);
    assert(start.after(opening + tap + closing) =~= start);
    start.lemma_after_one(pause[0]);
    let shifted = if stroke.shift {
        opening + tap + closing
    } else {
        tap
    };
    start.lemma_after_both(shifted, pause);
    if kit.delay.nanos == 0 {
        assert(kit.stroke(stroke) =~= shifted);
    } else {
        assert(kit.stroke(stroke) =~= shifted + pause);
    }
}

proof fn lemma_strokes_leave_nothing_down(kit: TypingKit, strokes: Seq<KeyStroke>)
    ensures
        nothing_down().after(kit.strokes(strokes)) == nothing_down(),
    decreases strokes.len(),
{
    if strokes.len() > 0 {
        lemma_strokes_leave_nothing_down(kit, strokes.drop_last());
        lemma_stroke_leaves_nothing_down(kit, strokes.last());
        nothing_down().lemma_after_both(
            kit.strokes(strokes.drop_last()),
            kit.stroke(strokes.last()),
        );
    }
}

proof fn lemma_plan_leaves_nothing_down(kit: TypingKit, runs: Seq<RunModel>)
    requires
        has_pasted(runs) ==> nothing_down().after(kit.paste) == nothing_down(),
    ensures
        nothing_down().after(kit.plan(runs).steps) == nothing_down(),
    decreases runs.len(),
{
    let start = nothing_down();
    if runs.len() > 0 {
        let rest = runs.drop_last();
        assert(has_pasted(rest) ==> has_pasted(runs)) by {
            if has_pasted(rest) {
                let i = choose|i: int| 0 <= i < rest.len() && #[trigger] rest[i] is Pasted;
                assert(runs[i] is Pasted);
            }
        }
        lemma_plan_leaves_nothing_down(kit, rest);
        start.lemma_after_both(kit.plan(rest).steps, kit.run(runs.last()));
        match runs.last() {
            RunModel::Typed(strokes) => lemma_strokes_leave_nothing_down(kit, strokes),
            RunModel::Pasted(chars) => {
                assert(runs[runs.len() - 1] is Pasted);
                let copy = seq![StepModel::Clipboard(chars)];
                let pause = seq![StepModel::Sleep(Duration::of_millis(PASTE_SETTLE_MS))];
                start.lemma_after_one(copy[0]);
                start.lemma_after_one(pause[0]);
                start.lemma_after_both(copy, kit.paste);
                start.lemma_after_both(copy + kit.paste, pause);
            },
        }
    }
}

/// Typing leaves nothing down.
pub proof fn lemma_typing_leaves_nothing_down(
    map: KeyMapModel,
    text: Seq<CharSym>,
    delay: Duration,
)
    ensures
        typing(map, text, delay) matches Ok(plan) ==> nothing_down().after(plan.steps)
            == nothing_down(),
{
    match (map.modifier_key(Modifier::Shift), map.combo("ctrl+v"@, map.names.paste)) {
        (Ok(shift), Ok(combo)) => {
            let paste = combo_sequence(map, combo);
            let kit = TypingKit {
                shift,
                shift_mask: map.mask(seq![Modifier::Shift]),
                paste: paste->Ok_0,
                delay,
            };
            lemma_combo_leaves_nothing_down(map, combo);
            if !has_pasted(map.runs(text)) || paste is Ok {
                lemma_plan_leaves_nothing_down(kit, map.runs(text));
            }
        },
        _ => {},
    }
}

} // verus!
