//! What steps come to: the keys a window receives, the way the pointer goes
//! and the buttons that are pressed on it, told without regard to how the
//! steps were put together.

use vstd::prelude::*;

use crate::inject::Button;
use crate::keys::{
    lemma_mask_of_one, lemma_paste_is_ctrl_and_v, lemma_runs_alternate, lemma_runs_keep_the_text,
    run_units, CharSym, ComboModel, KeyMapModel, KeyStroke, Modifier, RunModel, TextUnit,
};
use crate::time::Duration;

use super::down::{nothing_down, Down};
use super::steps::{
    announcement, chord, clicks, combo_sequence, drag, has_pasted, key_steps,
    lemma_typing_counts_every_character, modifier_keys, moves, typing, untypeable, StepModel,
    TypingKit, DOUBLE_CLICK_GAP_MS, DRAG_STEP_PAUSE_MS, PASTE_SETTLE_MS,
};

verus! {

/// A key that is struck: the keys that are down at that moment and the mask
/// that is announced.
#[verifier::ext_equal]
pub struct Struck {
    pub code: u16,
    pub held: Set<u16>,
    pub mask: u32,
}

/// What a window gets: a key, or a character of what was pasted, by its code
/// point.
pub enum Received {
    Key(Struck),
    Pasted(int),
}

/// What is down, and a text that was put on the clipboard and not pasted yet.
pub struct Window {
    pub down: Down,
    pub clipboard: Option<Seq<char>>,
}

pub open spec fn idle() -> Window {
    Window { down: nothing_down(), clipboard: None }
}

/// The key goes down and comes up again at once: it is struck.
pub open spec fn begins_with_a_strike(steps: Seq<StepModel>) -> bool {
    steps.len() >= 2 && (steps[0] matches StepModel::Key(code, pressed) && pressed && steps[1]
        == StepModel::Key(code, false))
}

impl Window {
    pub open spec fn then_step(self, step: StepModel) -> Window {
        Window {
            down: self.down.then_step(step),
            clipboard: match step {
                StepModel::Clipboard(text) => Some(text),
                _ => self.clipboard,
            },
        }
    }

    /// The keys and texts that reach the window with these steps, where
    /// striking `paste` inserts what is on the clipboard.
    pub open spec fn received(self, steps: Seq<StepModel>, paste: Struck) -> Seq<Received>
        decreases steps.len(),
    {
        if steps.len() == 0 {
            Seq::empty()
        } else if begins_with_a_strike(steps) {
            let struck = Struck {
                code: steps[0]->Key_0,
                held: self.down.keys,
                mask: self.down.mask,
            };
            let after = self.then_step(steps[0]).then_step(steps[1]);
            match self.clipboard {
                Some(text) if struck == paste => text.map_values(
                    |c: char| Received::Pasted(c as int),
                ) + (Window { clipboard: None, ..after }).received(steps.skip(2), paste),
                _ => seq![Received::Key(struck)] + after.received(steps.skip(2), paste),
            }
        } else {
            self.then_step(steps[0]).received(steps.skip(1), paste)
        }
    }

    /// What is left after these steps.
    pub open spec fn after(self, steps: Seq<StepModel>, paste: Struck) -> Window
        decreases steps.len(),
    {
        if steps.len() == 0 {
            self
        } else if begins_with_a_strike(steps) {
            let struck = Struck {
                code: steps[0]->Key_0,
                held: self.down.keys,
                mask: self.down.mask,
            };
            let after = self.then_step(steps[0]).then_step(steps[1]);
            match self.clipboard {
                Some(text) if struck == paste => (Window { clipboard: None, ..after }).after(
                    steps.skip(2),
                    paste,
                ),
                _ => after.after(steps.skip(2), paste),
            }
        } else {
            self.then_step(steps[0]).after(steps.skip(1), paste)
        }
    }

    proof fn lemma_in_turn(self, first: Seq<StepModel>, second: Seq<StepModel>, paste: Struck)
        requires
            first.len() > 0 ==> !(first.last() matches StepModel::Key(_, pressed) && pressed),
        ensures
            self.received(first + second, paste) == self.received(first, paste) + self.after(
                first,
                paste,
            ).received(second, paste),
            self.after(first + second, paste) == self.after(first, paste).after(second, paste),
        decreases first.len(),
    {
        let both = first + second;
        if first.len() == 0 {
            assert(both =~= second);
            assert(self.received(both, paste) =~= self.received(first, paste) + self.received(
                second,
                paste,
            ));
        } else {
            assert(both[0] == first[0]);
            if first.len() >= 2 {
                assert(both[1] == first[1]);
            } else {
                assert(first.last() == first[0]);
            }
            assert(begins_with_a_strike(both) <==> begins_with_a_strike(first));
            if begins_with_a_strike(first) {
                let rest = first.skip(2);
                assert(both.skip(2) =~= rest + second);
                if rest.len() > 0 {
                    assert(rest.last() == first.last());
                }
                let struck = Struck {
                    code: first[0]->Key_0,
                    held: self.down.keys,
                    mask: self.down.mask,
                };
                let after = self.then_step(first[0]).then_step(first[1]);
                let pasted = Window { clipboard: None, ..after };
                after.lemma_in_turn(rest, second, paste);
                pasted.lemma_in_turn(rest, second, paste);
                assert(self.received(both, paste) =~= self.received(first, paste) + self.after(
                    first,
                    paste,
                ).received(second, paste));
            } else {
                let rest = first.skip(1);
                assert(both.skip(1) =~= rest + second);
                if rest.len() > 0 {
                    assert(rest.last() == first.last());
                }
                self.then_step(first[0]).lemma_in_turn(rest, second, paste);
            }
        }
    }

    /// A step that strikes nothing.
    proof fn lemma_step(self, step: StepModel, rest: Seq<StepModel>, paste: Struck)
        requires
            !begins_with_a_strike(seq![step] + rest),
        ensures
            self.received(seq![step] + rest, paste) == self.then_step(step).received(rest, paste),
            self.after(seq![step] + rest, paste) == self.then_step(step).after(rest, paste),
    {
        assert((seq![step] + rest).skip(1) =~= rest);
    }

    /// A key that is struck, where it does not paste.
    proof fn lemma_strike(self, code: u16, rest: Seq<StepModel>, paste: Struck)
        requires
            self.clipboard is None,
        ensures
            ({
                let steps = seq![StepModel::Key(code, true), StepModel::Key(code, false)] + rest;
                let struck = Struck { code, held: self.down.keys, mask: self.down.mask };
                let after = Window {
                    down: Down { keys: self.down.keys.remove(code), ..self.down },
                    ..self
                };
                &&& self.received(steps, paste) == seq![Received::Key(struck)] + after.received(
                    rest,
                    paste,
                )
                &&& self.after(steps, paste) == after.after(rest, paste)
            }),
    {
        let steps = seq![StepModel::Key(code, true), StepModel::Key(code, false)] + rest;
        assert(steps.skip(2) =~= rest);
        assert(begins_with_a_strike(steps));
        assert(self.down.keys.insert(code).remove(code) =~= self.down.keys.remove(code));
    }
}

/// Every key that is not struck but goes down and stays down is one of these.
pub open spec fn holds_only(steps: Seq<StepModel>, allowed: Set<u16>) -> bool {
    forall|i: int|
        0 <= i < steps.len() && (#[trigger] steps[i] matches StepModel::Key(code, pressed)
            && pressed) && !begins_with_a_strike(steps.skip(i)) ==> allowed.contains(
            steps[i]->Key_0,
        )
}

proof fn lemma_hold(window: Window, keys: Seq<u16>, rest: Seq<StepModel>, paste: Struck)
    requires
        rest.len() > 0 && (rest[0] matches StepModel::Key(_, pressed) && pressed),
    ensures
        ({
            let held = Window {
                down: Down { keys: window.down.keys + keys.to_set(), ..window.down },
                ..window
            };
            &&& window.received(key_steps(keys, true) + rest, paste) == held.received(rest, paste)
            &&& window.after(key_steps(keys, true) + rest, paste) == held.after(rest, paste)
        }),
    decreases keys.len(),
{
    let steps = key_steps(keys, true);
    if keys.len() == 0 {
        assert(steps + rest =~= rest);
        assert(window.down.keys + keys.to_set() =~= window.down.keys);
    } else {
        let others = keys.skip(1);
        let tail = key_steps(others, true) + rest;
        assert(steps + rest =~= seq![StepModel::Key(keys[0], true)] + tail);
        assert(tail[0] matches StepModel::Key(_, pressed) && pressed) by {
            if others.len() > 0 {
                assert(tail[0] == StepModel::Key(others[0], true));
            } else {
                assert(tail[0] == rest[0]);
            }
        }
        window.lemma_step(StepModel::Key(keys[0], true), tail, paste);
        let next = window.then_step(StepModel::Key(keys[0], true));
        lemma_hold(next, others, rest, paste);
        assert(next.down.keys + others.to_set() =~= window.down.keys + keys.to_set()) by {
            assert forall|code: u16| keys.contains(code) <==> code == keys[0] || others.contains(
                code,
            ) by {
                if keys.contains(code) {
                    let k = choose|k: int| 0 <= k < keys.len() && keys[k] == code;
                    if k > 0 {
                        assert(others[k - 1] == code);
                    }
                }
                if others.contains(code) {
                    let k = choose|k: int| 0 <= k < others.len() && others[k] == code;
                    assert(keys[k + 1] == code);
                }
                assert(keys.contains(keys[0]));
            }
        }
    }
}

proof fn lemma_let_go(window: Window, keys: Seq<u16>, rest: Seq<StepModel>, paste: Struck)
    ensures
        ({
            let left = Window {
                down: Down { keys: window.down.keys.difference(keys.to_set()), ..window.down },
                ..window
            };
            &&& window.received(key_steps(keys, false) + rest, paste) == left.received(rest, paste)
            &&& window.after(key_steps(keys, false) + rest, paste) == left.after(rest, paste)
        }),
    decreases keys.len(),
{
    let steps = key_steps(keys, false);
    if keys.len() == 0 {
        assert(steps + rest =~= rest);
        assert(window.down.keys.difference(keys.to_set()) =~= window.down.keys);
    } else {
        let others = keys.skip(1);
        let tail = key_steps(others, false) + rest;
        assert(steps + rest =~= seq![StepModel::Key(keys[0], false)] + tail);
        window.lemma_step(StepModel::Key(keys[0], false), tail, paste);
        let next = window.then_step(StepModel::Key(keys[0], false));
        lemma_let_go(next, others, rest, paste);
        assert(next.down.keys.difference(others.to_set()) =~= window.down.keys.difference(
            keys.to_set(),
        )) by {
            assert forall|code: u16| keys.contains(code) <==> code == keys[0] || others.contains(
                code,
            ) by {
                if keys.contains(code) {
                    let k = choose|k: int| 0 <= k < keys.len() && keys[k] == code;
                    if k > 0 {
                        assert(others[k - 1] == code);
                    }
                }
                if others.contains(code) {
                    let k = choose|k: int| 0 <= k < others.len() && others[k] == code;
                    assert(keys[k + 1] == code);
                }
                assert(keys.contains(keys[0]));
            }
        }
    }
}

/// What a chord comes to where nothing is down: its key is struck once, with
/// its modifiers down and announced, and nothing is down afterwards.
proof fn lemma_chord(
    clipboard: Option<Seq<char>>,
    keys: Seq<u16>,
    key: u16,
    mask: u32,
    paste: Struck,
)
    ensures
        ({
            let window = Window { clipboard, ..idle() };
            let struck = Struck { code: key, held: keys.to_set(), mask };
            let steps = chord(keys, key, mask);
            match clipboard {
                Some(text) if struck == paste => window.received(steps, paste) == text.map_values(
                    |c: char| Received::Pasted(c as int),
                ) && window.after(steps, paste) == idle(),
                _ => window.received(steps, paste) == seq![Received::Key(struck)] && window.after(
                    steps,
                    paste,
                ) == window,
            }
        }),
{
    let window = Window { clipboard, ..idle() };
    let closing = announcement(mask, 0);
    let releases = key_steps(keys.reverse(), false) + closing;
    let tap = seq![StepModel::Key(key, true), StepModel::Key(key, false)];
    let strike = tap + releases;
    let presses = key_steps(keys, true) + strike;
    let steps = chord(keys, key, mask);
    let announced = Window { down: Down { mask, ..window.down }, ..window };
    if mask == 0 {
        assert(steps =~= presses);
    } else {
        assert(steps =~= seq![StepModel::Modifiers(mask)] + presses);
        window.lemma_step(StepModel::Modifiers(mask), presses, paste);
    }
    lemma_hold(announced, keys, strike, paste);
    let held = Window {
        down: Down { keys: announced.down.keys + keys.to_set(), ..announced.down },
        ..announced
    };
    assert(held.down.keys =~= keys.to_set());
    assert(begins_with_a_strike(strike));
    assert(strike.skip(2) =~= releases);
    let struck = Struck { code: key, held: keys.to_set(), mask };
    let up = held.then_step(tap[0]).then_step(tap[1]);
    let after = match clipboard {
        Some(text) if struck == paste => Window { clipboard: None, ..up },
        _ => up,
    };
    lemma_let_go(after, keys.reverse(), closing, paste);
    let left = Window {
        down: Down {
            keys: after.down.keys.difference(keys.reverse().to_set()),
            ..after.down
        },
        ..after
    };
    assert(left.down.keys =~= Set::<u16>::empty()) by {
        assert forall|code: u16| keys.contains(code) implies keys.reverse().contains(code) by {
            let i = choose|i: int| 0 <= i < keys.len() && keys[i] == code;
            assert(keys.reverse()[keys.len() - 1 - i] == code);
        }
    }
    let empty = Seq::<StepModel>::empty();
    if mask != 0 {
        assert(closing =~= seq![StepModel::Modifiers(0)] + empty);
        left.lemma_step(StepModel::Modifiers(0), empty, paste);
    }
    let end = if mask == 0 {
        left
    } else {
        left.then_step(StepModel::Modifiers(0))
    };
    assert(end.down == nothing_down());
    assert(left.received(closing, paste) =~= Seq::<Received>::empty());
    assert(left.after(closing, paste) == end);
    match clipboard {
        Some(text) if struck == paste => {
            assert(window.received(steps, paste) =~= text.map_values(
                |c: char| Received::Pasted(c as int),
            ));
        },
        _ => {
            assert(window.received(steps, paste) =~= seq![Received::Key(struck)]);
        },
    }
}

/// The keys of several modifiers.
pub open spec fn keys_of(map: KeyMapModel, modifiers: Seq<Modifier>) -> Set<u16> {
    Set::new(
        |code: u16|
            exists|i: int|
                0 <= i < modifiers.len() && map.modifier_key(#[trigger] modifiers[i]) == Ok::<
                    u16,
                    Seq<char>,
                >(code),
    )
}

proof fn lemma_keys_of(map: KeyMapModel, modifiers: Seq<Modifier>)
    ensures
        modifier_keys(map, modifiers) matches Ok(keys) ==> keys.to_set() == keys_of(map, modifiers)
            && keys.len() == modifiers.len(),
    decreases modifiers.len(),
{
    if let Ok(keys) = modifier_keys(map, modifiers) {
        if modifiers.len() > 0 {
            let rest = modifiers.drop_last();
            lemma_keys_of(map, rest);
            let before = keys.drop_last();
            assert(modifier_keys(map, rest)->Ok_0 =~= before);
            assert forall|code: u16| keys.to_set().contains(code) <==> keys_of(
                map,
                modifiers,
            ).contains(code) by {
                if keys.contains(code) {
                    let k = choose|k: int| 0 <= k < keys.len() && keys[k] == code;
                    if k < before.len() {
                        assert(before[k] == code);
                        assert(before.to_set().contains(code));
                        assert(keys_of(map, rest).contains(code));
                        let i = choose|i: int|
                            0 <= i < rest.len() && map.modifier_key(#[trigger] rest[i]) == Ok::<
                                u16,
                                Seq<char>,
                            >(code);
                        assert(modifiers[i] == rest[i]);
                    } else {
                        assert(modifiers[modifiers.len() - 1] == modifiers.last());
                    }
                }
                if keys_of(map, modifiers).contains(code) {
                    let i = choose|i: int|
                        0 <= i < modifiers.len() && map.modifier_key(#[trigger] modifiers[i])
                            == Ok::<u16, Seq<char>>(code);
                    if i < rest.len() {
                        assert(rest[i] == modifiers[i]);
                        assert(keys_of(map, rest).contains(code));
                        assert(before.to_set().contains(code));
                        let k = choose|k: int| 0 <= k < before.len() && before[k] == code;
                        assert(keys[k] == code);
                    } else {
                        assert(keys[keys.len() - 1] == code);
                    }
                }
            }
            assert(keys.to_set() =~= keys_of(map, modifiers));
        } else {
            assert(keys.to_set() =~= keys_of(map, modifiers));
        }
    }
}

/// A combo strikes its key exactly once. At that moment the keys of its
/// modifiers are down and no others, and the mask of its modifiers is
/// announced. No other key goes down.
pub proof fn lemma_combo_strikes_its_key(map: KeyMapModel, combo: ComboModel, paste: Struck)
    ensures
        combo_sequence(map, combo) matches Ok(steps) ==> {
            &&& idle().received(steps, paste) == seq![
                Received::Key(
                    Struck {
                        code: combo.key,
                        held: keys_of(map, combo.modifiers),
                        mask: map.mask(combo.modifiers),
                    },
                ),
            ]
            &&& idle().after(steps, paste) == idle()
            &&& holds_only(steps, keys_of(map, combo.modifiers))
        },
{
    if let Ok(keys) = modifier_keys(map, combo.modifiers) {
        lemma_keys_of(map, combo.modifiers);
        lemma_chord(None, keys, combo.key, map.mask(combo.modifiers), paste);
        lemma_chord_holds(keys, combo.key, map.mask(combo.modifiers));
    }
}

proof fn lemma_chord_holds(keys: Seq<u16>, key: u16, mask: u32)
    ensures
        holds_only(chord(keys, key, mask), keys.to_set()),
        chord(keys, key, mask).len() > 0,
        !(chord(keys, key, mask).last() matches StepModel::Key(_, pressed) && pressed),
{
    let steps = chord(keys, key, mask);
    let a = announcement(mask, mask);
    let b = key_steps(keys, true);
    let c = seq![StepModel::Key(key, true), StepModel::Key(key, false)];
    let d = key_steps(keys.reverse(), false);
    assert forall|i: int|
        0 <= i < steps.len() && (#[trigger] steps[i] matches StepModel::Key(code, pressed)
            && pressed) && !begins_with_a_strike(steps.skip(i)) implies keys.to_set().contains(
        steps[i]->Key_0,
    ) by {
        if i >= a.len() && i < a.len() + b.len() {
            assert(steps[i] == StepModel::Key(keys[i - a.len()], true));
            assert(keys.contains(keys[i - a.len()]));
        } else if i == a.len() + b.len() {
            assert(steps[i] == c[0]);
            assert(steps[i + 1] == c[1]);
            assert(steps.skip(i)[0] == c[0]);
            assert(steps.skip(i)[1] == c[1]);
        } else if i == a.len() + b.len() + 1 {
            assert(steps[i] == c[1]);
        } else if i > a.len() + b.len() + 1 && i < a.len() + b.len() + 2 + d.len() {
            assert(steps[i] == d[i - a.len() - b.len() - 2]);
        }
    }
}

/// How a character reaches the window, given the Shift key and its mask: its
/// key struck with Shift down and announced where the layout has it there,
/// with nothing down and nothing announced where the layout has it without,
/// and pasted where the layout does not have it.
spec fn arrival(shift: u16, shift_mask: u32, unit: TextUnit) -> Received {
    match unit {
        TextUnit::Stroke(stroke) => if stroke.shift {
            Received::Key(Struck { code: stroke.evdev, held: set![shift], mask: shift_mask })
        } else {
            Received::Key(Struck { code: stroke.evdev, held: Set::empty(), mask: 0 })
        },
        TextUnit::Char(c) => Received::Pasted(c),
    }
}

spec fn arrivals(shift: u16, shift_mask: u32, units: Seq<TextUnit>) -> Seq<Received> {
    units.map_values(|unit: TextUnit| arrival(shift, shift_mask, unit))
}

proof fn lemma_stroke_arrives(kit: TypingKit, stroke: KeyStroke, paste: Struck)
    ensures
        idle().received(kit.stroke(stroke), paste) == seq![
            arrival(kit.shift, kit.shift_mask, TextUnit::Stroke(stroke)),
        ],
        idle().after(kit.stroke(stroke), paste) == idle(),
        kit.stroke(stroke).len() > 0,
        !(kit.stroke(stroke).last() matches StepModel::Key(_, pressed) && pressed),
        holds_only(kit.stroke(stroke), set![kit.shift]),
{
    let start = idle();
    let steps = kit.stroke(stroke);
    let none = Seq::<StepModel>::empty();
    let pause = if kit.delay.nanos == 0 {
        none
    } else {
        seq![StepModel::Sleep(kit.delay)]
    };
    if pause.len() > 0 {
        assert(pause =~= seq![StepModel::Sleep(kit.delay)] + none);
        start.lemma_step(StepModel::Sleep(kit.delay), none, paste);
    }
    assert(start.received(pause, paste) =~= Seq::<Received>::empty());
    assert(start.after(pause, paste) == start);
    let tap = seq![StepModel::Key(stroke.evdev, true), StepModel::Key(stroke.evdev, false)];
    if stroke.shift {
        let up = seq![StepModel::Modifiers(0)] + pause;
        let letting_go = seq![StepModel::Key(kit.shift, false)] + up;
        let strike = tap + letting_go;
        let holding = seq![StepModel::Key(kit.shift, true)] + strike;
        assert(steps =~= seq![StepModel::Modifiers(kit.shift_mask)] + holding);
        start.lemma_step(StepModel::Modifiers(kit.shift_mask), holding, paste);
        let announced = start.then_step(StepModel::Modifiers(kit.shift_mask));
        assert(strike[0] == tap[0]);
        announced.lemma_step(StepModel::Key(kit.shift, true), strike, paste);
        let held = announced.then_step(StepModel::Key(kit.shift, true));
        held.lemma_strike(stroke.evdev, letting_go, paste);
        let struck = Window {
            down: Down { keys: held.down.keys.remove(stroke.evdev), ..held.down },
            ..held
        };
        struck.lemma_step(StepModel::Key(kit.shift, false), up, paste);
        let released = struck.then_step(StepModel::Key(kit.shift, false));
        released.lemma_step(StepModel::Modifiers(0), pause, paste);
        assert(released.then_step(StepModel::Modifiers(0)).down =~= nothing_down());
        assert(held.down.keys =~= set![kit.shift]);
        assert forall|i: int|
            0 <= i < steps.len() && (#[trigger] steps[i] matches StepModel::Key(code, pressed)
                && pressed) && !begins_with_a_strike(steps.skip(i)) implies set![
            kit.shift,
        ].contains(steps[i]->Key_0) by {
            assert(steps[1] == StepModel::Key(kit.shift, true));
            assert(steps[2] == tap[0]);
            assert(steps[3] == tap[1]);
            assert(steps.skip(2)[0] == steps[2]);
            assert(steps.skip(2)[1] == steps[3]);
            assert(i == 1 || i == 2);
        }
    } else {
        assert(steps =~= tap + pause);
        start.lemma_strike(stroke.evdev, pause, paste);
        let struck = Window {
            down: Down { keys: start.down.keys.remove(stroke.evdev), ..start.down },
            ..start
        };
        assert(struck.down =~= nothing_down());
        assert forall|i: int|
            0 <= i < steps.len() && (#[trigger] steps[i] matches StepModel::Key(code, pressed)
                && pressed) && !begins_with_a_strike(steps.skip(i)) implies set![
            kit.shift,
        ].contains(steps[i]->Key_0) by {
            assert(steps[0] == tap[0]);
            assert(steps[1] == tap[1]);
            assert(steps.skip(0)[0] == steps[0]);
            assert(steps.skip(0)[1] == steps[1]);
            assert(i == 0);
        }
    }
}

proof fn lemma_holds_join(first: Seq<StepModel>, second: Seq<StepModel>, allowed: Set<u16>)
    requires
        holds_only(first, allowed),
        holds_only(second, allowed),
    ensures
        holds_only(first + second, allowed),
{
    let both = first + second;
    assert forall|i: int|
        0 <= i < both.len() && (#[trigger] both[i] matches StepModel::Key(code, pressed)
            && pressed) && !begins_with_a_strike(both.skip(i)) implies allowed.contains(
        both[i]->Key_0,
    ) by {
        if i < first.len() {
            assert(both[i] == first[i]);
            if begins_with_a_strike(first.skip(i)) {
                assert(both.skip(i)[0] == first.skip(i)[0]);
                assert(both.skip(i)[1] == first.skip(i)[1]);
            }
        } else {
            let k = i - first.len();
            assert(both[i] == second[k]);
            assert(both.skip(i) =~= second.skip(k));
        }
    }
}

proof fn lemma_holds_more(steps: Seq<StepModel>, allowed: Set<u16>, more: Set<u16>)
    requires
        holds_only(steps, allowed),
        allowed.subset_of(more),
    ensures
        holds_only(steps, more),
{
    assert forall|i: int|
        0 <= i < steps.len() && (#[trigger] steps[i] matches StepModel::Key(code, pressed)
            && pressed) && !begins_with_a_strike(steps.skip(i)) implies more.contains(
        steps[i]->Key_0,
    ) by {
        assert(allowed.contains(steps[i]->Key_0));
    }
}

proof fn lemma_strokes_arrive(kit: TypingKit, strokes: Seq<KeyStroke>, paste: Struck)
    ensures
        idle().received(kit.strokes(strokes), paste) == arrivals(
            kit.shift,
            kit.shift_mask,
            RunModel::Typed(strokes).units(),
        ),
        idle().after(kit.strokes(strokes), paste) == idle(),
        kit.strokes(strokes).len() > 0 ==> !(kit.strokes(strokes).last() matches StepModel::Key(
            _,
            pressed,
        ) && pressed),
        holds_only(kit.strokes(strokes), set![kit.shift]),
    decreases strokes.len(),
{
    let units = RunModel::Typed(strokes).units();
    if strokes.len() == 0 {
        assert(arrivals(kit.shift, kit.shift_mask, units) =~= Seq::<Received>::empty());
    } else {
        let rest = strokes.drop_last();
        let before = kit.strokes(rest);
        let last = kit.stroke(strokes.last());
        lemma_strokes_arrive(kit, rest, paste);
        lemma_stroke_arrives(kit, strokes.last(), paste);
        idle().lemma_in_turn(before, last, paste);
        lemma_holds_join(before, last, set![kit.shift]);
        assert(kit.strokes(strokes).last() == last.last());
        assert(arrivals(kit.shift, kit.shift_mask, units) =~= arrivals(
            kit.shift,
            kit.shift_mask,
            RunModel::Typed(rest).units(),
        ) + seq![arrival(kit.shift, kit.shift_mask, TextUnit::Stroke(strokes.last()))]);
    }
}

/// A text that is pasted arrives as it is.
proof fn lemma_paste_arrives(kit: TypingKit, chars: Seq<char>, keys: Seq<u16>, key: u16, mask: u32)
    requires
        kit.paste == chord(keys, key, mask),
    ensures
        ({
            let steps = kit.run(RunModel::Pasted(chars));
            let paste = Struck { code: key, held: keys.to_set(), mask };
            &&& idle().received(steps, paste) == arrivals(
                kit.shift,
                kit.shift_mask,
                RunModel::Pasted(chars).units(),
            )
            &&& idle().after(steps, paste) == idle()
            &&& steps.len() > 0
            &&& !(steps.last() matches StepModel::Key(_, pressed) && pressed)
            &&& holds_only(steps, keys.to_set())
        }),
{
    let none = Seq::<StepModel>::empty();
    let steps = kit.run(RunModel::Pasted(chars));
    let paste = Struck { code: key, held: keys.to_set(), mask };
    let pause = StepModel::Sleep(Duration::of_millis(PASTE_SETTLE_MS));
    let copy = StepModel::Clipboard(chars);
    let copied = idle().then_step(copy);
    assert(steps =~= seq![copy] + (kit.paste + seq![pause]));
    assert(!begins_with_a_strike(steps)) by {
        assert(steps[0] == copy);
    }
    idle().lemma_step(copy, kit.paste + seq![pause], paste);
    lemma_chord(Some(chars), keys, key, mask, paste);
    lemma_chord_holds(keys, key, mask);
    copied.lemma_in_turn(kit.paste, seq![pause], paste);
    assert(seq![pause] =~= seq![pause] + none);
    idle().lemma_step(pause, none, paste);
    assert(idle().received(seq![pause], paste) =~= Seq::<Received>::empty());
    let pasted = chars.map_values(|c: char| Received::Pasted(c as int));
    let expected = arrivals(kit.shift, kit.shift_mask, RunModel::Pasted(chars).units());
    assert(pasted + Seq::<Received>::empty() =~= expected) by {
        assert forall|i: int| 0 <= i < chars.len() implies pasted[i] == expected[i] by {
            assert(RunModel::Pasted(chars).units()[i] == TextUnit::Char(chars[i] as int));
        }
    }
    assert(holds_only(seq![copy], keys.to_set()));
    assert(holds_only(seq![pause], keys.to_set()));
    lemma_holds_join(kit.paste, seq![pause], keys.to_set());
    lemma_holds_join(seq![copy], kit.paste + seq![pause], keys.to_set());
}

proof fn lemma_plan_arrives(
    kit: TypingKit,
    runs: Seq<RunModel>,
    keys: Seq<u16>,
    key: u16,
    mask: u32,
)
    requires
        has_pasted(runs) ==> kit.paste == chord(keys, key, mask),
    ensures
        ({
            let steps = kit.plan(runs).steps;
            let paste = Struck { code: key, held: keys.to_set(), mask };
            &&& idle().received(steps, paste) == arrivals(
                kit.shift,
                kit.shift_mask,
                run_units(runs),
            )
            &&& idle().after(steps, paste) == idle()
            &&& steps.len() > 0 ==> !(steps.last() matches StepModel::Key(_, pressed) && pressed)
            &&& holds_only(steps, keys.to_set().insert(kit.shift))
        }),
    decreases runs.len(),
{
    let paste = Struck { code: key, held: keys.to_set(), mask };
    let steps = kit.plan(runs).steps;
    let allowed = keys.to_set().insert(kit.shift);
    if runs.len() == 0 {
        assert(arrivals(kit.shift, kit.shift_mask, run_units(runs)) =~= Seq::<Received>::empty());
    } else {
        let rest = runs.drop_last();
        assert(has_pasted(rest) ==> has_pasted(runs)) by {
            if has_pasted(rest) {
                let i = choose|i: int| 0 <= i < rest.len() && #[trigger] rest[i] is Pasted;
                assert(runs[i] is Pasted);
            }
        }
        lemma_plan_arrives(kit, rest, keys, key, mask);
        let before = kit.plan(rest).steps;
        let last = kit.run(runs.last());
        assert(steps == before + last);
        match runs.last() {
            RunModel::Typed(strokes) => {
                lemma_strokes_arrive(kit, strokes, paste);
                lemma_holds_more(last, set![kit.shift], allowed);
            },
            RunModel::Pasted(chars) => {
                assert(runs[runs.len() - 1] is Pasted);
                lemma_paste_arrives(kit, chars, keys, key, mask);
                lemma_holds_more(last, keys.to_set(), allowed);
            },
        }
        idle().lemma_in_turn(before, last, paste);
        lemma_holds_join(before, last, allowed);
        if last.len() > 0 {
            assert(steps.last() == last.last());
        } else {
            assert(steps =~= before);
        }
        assert(arrivals(kit.shift, kit.shift_mask, run_units(runs)) =~= arrivals(
            kit.shift,
            kit.shift_mask,
            run_units(rest),
        ) + arrivals(kit.shift, kit.shift_mask, runs.last().units()));
    }
}

/// The keys and texts that typing a text is to bring to the window, one for
/// each character and in order. A character that the layout has without Shift
/// is its key with nothing down and nothing announced; one that it has with
/// Shift is its key with the Shift key alone down and Shift announced; any
/// other is pasted.
pub open spec fn text_arrives(map: KeyMapModel, text: Seq<CharSym>, got: Seq<Received>) -> bool {
    got.len() == text.len() && forall|i: int|
        0 <= i < text.len() ==> (#[trigger] got[i] == match map.stroke_of(text[i]) {
            Some(stroke) => if stroke.shift {
                Received::Key(
                    Struck {
                        code: stroke.evdev,
                        held: keys_of(map, seq![Modifier::Shift]),
                        mask: map.masks.of(Modifier::Shift),
                    },
                )
            } else {
                Received::Key(Struck { code: stroke.evdev, held: Set::empty(), mask: 0 })
            },
            None => Received::Pasted(text[i].c as int),
        })
}

/// Typing a text brings its characters to the window, each once and in order,
/// where Ctrl and the key of "v" paste what is on the clipboard. No keys are
/// held meanwhile but those of Shift and Ctrl.
pub proof fn lemma_text_arrives(map: KeyMapModel, text: Seq<CharSym>, delay: Duration)
    ensures
        typing(map, text, delay) matches Ok(plan) ==> {
            let paste = Struck {
                code: map.key_of(map.names.paste)->0,
                held: keys_of(map, seq![Modifier::Ctrl]),
                mask: map.masks.of(Modifier::Ctrl),
            };
            &&& text_arrives(map, text, idle().received(plan.steps, paste))
            &&& idle().after(plan.steps, paste) == idle()
            &&& holds_only(
                plan.steps,
                keys_of(map, seq![Modifier::Shift, Modifier::Ctrl]),
            )
        },
{
    if let Ok(plan) = typing(map, text, delay) {
        let shift = map.modifier_key(Modifier::Shift)->Ok_0;
        let combo = map.combo("ctrl+v"@, map.names.paste)->Ok_0;
        let keys = if modifier_keys(map, combo.modifiers) is Ok {
            modifier_keys(map, combo.modifiers)->Ok_0
        } else {
            seq![]
        };
        let mask = map.mask(combo.modifiers);
        let kit = TypingKit {
            shift,
            shift_mask: map.mask(seq![Modifier::Shift]),
            paste: combo_sequence(map, combo)->Ok_0,
            delay,
        };
        lemma_paste_is_ctrl_and_v(map, map.names.paste);
        lemma_mask_of_one(map, Modifier::Ctrl);
        lemma_mask_of_one(map, Modifier::Shift);
        lemma_keys_of(map, combo.modifiers);
        let one = seq![Modifier::Shift];
        let ctrl = seq![Modifier::Ctrl];
        let both = seq![Modifier::Shift, Modifier::Ctrl];
        assert(keys_of(map, one) =~= set![shift]) by {
            assert forall|code: u16| keys_of(map, one).contains(code) <==> code == shift by {
                assert(one[0] == Modifier::Shift);
            }
        }
        if modifier_keys(map, combo.modifiers) is Err {
            assert(ctrl.drop_last() =~= seq![]);
            assert(map.modifier_key(Modifier::Ctrl) is Err) by {
                assert(modifier_keys(map, ctrl.drop_last()) == Ok::<Seq<u16>, Seq<char>>(seq![]));
            }
            assert(keys_of(map, ctrl) =~= keys.to_set()) by {
                assert forall|code: u16| !keys_of(map, ctrl).contains(code) by {}
            }
        }
        assert(keys_of(map, ctrl) == keys.to_set());
        lemma_plan_arrives(kit, map.runs(text), keys, combo.key, mask);
        lemma_runs_keep_the_text(map, text);
        let allowed = keys.to_set().insert(shift);
        assert(allowed.subset_of(keys_of(map, both))) by {
            assert forall|code: u16| allowed.contains(code) implies keys_of(map, both).contains(
                code,
            ) by {
                if code == shift {
                    assert(both[0] == Modifier::Shift);
                } else {
                    assert(keys_of(map, ctrl).contains(code));
                    let i = choose|i: int|
                        0 <= i < ctrl.len() && map.modifier_key(#[trigger] ctrl[i]) == Ok::<
                            u16,
                            Seq<char>,
                        >(code);
                    assert(both[1] == ctrl[i]);
                }
            }
        }
        lemma_holds_more(plan.steps, allowed, keys_of(map, both));
        let got = idle().received(
            plan.steps,
            Struck { code: combo.key, held: keys.to_set(), mask },
        );
        let units = run_units(map.runs(text));
        assert forall|i: int| 0 <= i < text.len() implies (#[trigger] got[i]
            == match map.stroke_of(text[i]) {
            Some(stroke) => if stroke.shift {
                Received::Key(
                    Struck {
                        code: stroke.evdev,
                        held: keys_of(map, seq![Modifier::Shift]),
                        mask: map.masks.of(Modifier::Shift),
                    },
                )
            } else {
                Received::Key(Struck { code: stroke.evdev, held: Set::empty(), mask: 0 })
            },
            None => Received::Pasted(text[i].c as int),
        }) by {
            assert(units[i] == map.unit(text[i]));
            assert(got[i] == arrival(shift, kit.shift_mask, units[i]));
        }
    }
}

/// A movement of the pointer: where it goes, when, and what is down
/// meanwhile.
#[verifier::ext_equal]
pub struct Passed {
    pub at: (u32, u32),
    pub time: nat,
    pub down: Down,
}

/// A button that goes down or comes up, and when.
pub struct Clicked {
    pub button: Button,
    pub pressed: bool,
    pub time: nat,
}

/// The nanoseconds that steps let pass.
pub open spec fn elapsed(steps: Seq<StepModel>) -> nat
    decreases steps.len(),
{
    if steps.len() == 0 {
        0
    } else {
        elapsed(steps.drop_last()) + match steps.last() {
            StepModel::Sleep(span) => span.nanos as nat,
            _ => 0,
        }
    }
}

/// The movements of the pointer, in order.
pub open spec fn trail(steps: Seq<StepModel>) -> Seq<Passed>
    decreases steps.len(),
{
    if steps.len() == 0 {
        Seq::empty()
    } else {
        let before = trail(steps.drop_last());
        match steps.last() {
            StepModel::Move(x, y) => before.push(
                Passed {
                    at: (x, y),
                    time: elapsed(steps.drop_last()),
                    down: nothing_down().after(steps.drop_last()),
                },
            ),
            _ => before,
        }
    }
}

/// What is done with the buttons, in order.
pub open spec fn clicked(steps: Seq<StepModel>) -> Seq<Clicked>
    decreases steps.len(),
{
    if steps.len() == 0 {
        Seq::empty()
    } else {
        let before = clicked(steps.drop_last());
        match steps.last() {
            StepModel::Button(button, pressed) => before.push(
                Clicked { button, pressed, time: elapsed(steps.drop_last()) },
            ),
            _ => before,
        }
    }
}

/// Nothing but the pointer is used.
pub open spec fn only_pointer(steps: Seq<StepModel>) -> bool {
    forall|i: int|
        0 <= i < steps.len() ==> (#[trigger] steps[i] is Move || steps[i] is Button
            || steps[i] is Sleep)
}

/// One step more.
proof fn lemma_one_more(steps: Seq<StepModel>, step: StepModel)
    ensures
        elapsed(steps.push(step)) == elapsed(steps) + match step {
            StepModel::Sleep(span) => span.nanos as nat,
            _ => 0,
        },
        trail(steps.push(step)) == match step {
            StepModel::Move(x, y) => trail(steps).push(
                Passed {
                    at: (x, y),
                    time: elapsed(steps),
                    down: nothing_down().after(steps),
                },
            ),
            _ => trail(steps),
        },
        clicked(steps.push(step)) == match step {
            StepModel::Button(button, pressed) => clicked(steps).push(
                Clicked { button, pressed, time: elapsed(steps) },
            ),
            _ => clicked(steps),
        },
        nothing_down().after(steps.push(step)) == nothing_down().after(steps).then_step(step),
{
    assert(steps.push(step).drop_last() =~= steps);
}

/// A click moves the pointer once, with nothing down, and then presses and
/// releases the button as often as it is told, one after another.
pub proof fn lemma_clicks_come_to(x: u32, y: u32, button: Button, count: nat)
    ensures
        ({
            let steps = clicks(x, y, button, count);
            let done = clicked(steps);
            &&& trail(steps) == seq![Passed { at: (x, y), time: 0, down: nothing_down() }]
            &&& done.len() == 2 * count
            &&& forall|i: int|
                0 <= i < done.len() ==> (#[trigger] done[i]).button == button && (done[i].pressed
                    <==> i % 2 == 0) && done[i].time == (i / 2) * 60_000_000
            &&& count > 0 ==> elapsed(steps) == (count - 1) * 60_000_000
            &&& only_pointer(steps)
        }),
    decreases count,
{
    let steps = clicks(x, y, button, count);
    let start = Seq::<StepModel>::empty();
    let moved = StepModel::Move(x, y);
    let pause = StepModel::Sleep(Duration::of_millis(DOUBLE_CLICK_GAP_MS));
    let press = StepModel::Button(button, true);
    let release = StepModel::Button(button, false);
    assert(Duration::of_millis(DOUBLE_CLICK_GAP_MS).nanos == 60_000_000);
    if count == 0 {
        assert(steps =~= start.push(moved));
        lemma_one_more(start, moved);
        assert(trail(steps) =~= seq![Passed { at: (x, y), time: 0, down: nothing_down() }]);
    } else {
        let before = clicks(x, y, button, (count - 1) as nat);
        lemma_clicks_come_to(x, y, button, (count - 1) as nat);
        let spaced = if count > 1 {
            before.push(pause)
        } else {
            before
        };
        assert(steps =~= spaced.push(press).push(release));
        lemma_one_more(before, pause);
        lemma_one_more(spaced, press);
        lemma_one_more(spaced.push(press), release);
        if count == 1 {
            assert(before =~= start.push(moved));
            lemma_one_more(start, moved);
        }
        let earlier = clicked(before);
        let done = clicked(steps);
        assert(done.len() == earlier.len() + 2);
        assert forall|i: int| 0 <= i < done.len() implies (#[trigger] done[i]).button == button && (
        done[i].pressed <==> i % 2 == 0) && done[i].time == (i / 2) * 60_000_000 by {
            if i < earlier.len() {
                assert(done[i] == earlier[i]);
            } else {
                assert(i / 2 == count - 1);
            }
        }
        assert forall|i: int| 0 <= i < steps.len() implies (#[trigger] steps[i] is Move
            || steps[i] is Button || steps[i] is Sleep) by {
            if i < before.len() {
                assert(steps[i] == before[i]);
            }
        }
    }
}

proof fn lemma_moves_come_to(start: Seq<StepModel>, path: Seq<(u32, u32)>)
    ensures
        ({
            let steps = start + moves(path);
            &&& trail(steps) == trail(start) + Seq::new(
                path.len(),
                |i: int|
                    Passed {
                        at: path[i],
                        time: (elapsed(start) + i * 10_000_000) as nat,
                        down: nothing_down().after(start),
                    },
            )
            &&& clicked(steps) == clicked(start)
            &&& elapsed(steps) == elapsed(start) + path.len() * 10_000_000
            &&& nothing_down().after(steps) == nothing_down().after(start)
        }),
    decreases path.len(),
{
    let steps = start + moves(path);
    let ways = Seq::new(
        path.len(),
        |i: int|
            Passed {
                at: path[i],
                time: (elapsed(start) + i * 10_000_000) as nat,
                down: nothing_down().after(start),
            },
    );
    let pause = StepModel::Sleep(Duration::of_millis(DRAG_STEP_PAUSE_MS));
    assert(Duration::of_millis(DRAG_STEP_PAUSE_MS).nanos == 10_000_000);
    if path.len() == 0 {
        assert(steps =~= start);
        assert(trail(steps) =~= trail(start) + ways);
    } else {
        let rest = path.drop_last();
        let moved = StepModel::Move(path.last().0, path.last().1);
        let before = start + moves(rest);
        lemma_moves_come_to(start, rest);
        assert(steps =~= before.push(moved).push(pause));
        lemma_one_more(before, moved);
        lemma_one_more(before.push(moved), pause);
        assert(trail(steps) =~= trail(start) + ways);
    }
}

proof fn lemma_moves_are_movements(path: Seq<(u32, u32)>)
    ensures
        only_pointer(moves(path)),
    decreases path.len(),
{
    if path.len() > 0 {
        let steps = moves(path);
        let rest = moves(path.drop_last());
        lemma_moves_are_movements(path.drop_last());
        assert forall|i: int| 0 <= i < steps.len() implies (#[trigger] steps[i] is Move
            || steps[i] is Button || steps[i] is Sleep) by {
            if i < rest.len() {
                assert(steps[i] == rest[i]);
            }
        }
    }
}

/// A drag goes along its path from the first point to the last, stopping for
/// 10 ms at each but the first. The left button, and nothing else, goes down
/// at the first point and comes up at the last, and is down at all between.
/// The pointer rests at the first point for the holding time before and after
/// the button goes down, and at the last before it comes up.
pub proof fn lemma_drag_comes_to(path: Seq<(u32, u32)>, hold: Duration)
    requires
        path.len() > 0,
    ensures
        ({
            let steps = drag(path, hold);
            let way = trail(steps);
            let last = (3 * hold.nanos + (path.len() - 1) * 10_000_000) as nat;
            &&& way.len() == path.len()
            &&& forall|i: int| 0 <= i < path.len() ==> (#[trigger] way[i]).at == path[i]
            &&& way[0].time == 0 && way[0].down == nothing_down()
            &&& forall|i: int|
                0 < i < path.len() ==> (#[trigger] way[i]).time == 2 * hold.nanos + (i - 1)
                    * 10_000_000 && way[i].down == (Down {
                    buttons: set![Button::Left],
                    ..nothing_down()
                })
            &&& clicked(steps) == seq![
                Clicked { button: Button::Left, pressed: true, time: hold.nanos as nat },
                Clicked { button: Button::Left, pressed: false, time: last },
            ]
            &&& elapsed(steps) == last
            &&& only_pointer(steps)
        }),
{
    let steps = drag(path, hold);
    let none = Seq::<StepModel>::empty();
    let s1 = none.push(StepModel::Move(path[0].0, path[0].1));
    let s2 = s1.push(StepModel::Sleep(hold));
    let s3 = s2.push(StepModel::Button(Button::Left, true));
    let s4 = s3.push(StepModel::Sleep(hold));
    let rest = path.drop_first();
    let s5 = s4 + moves(rest);
    let s6 = s5.push(StepModel::Sleep(hold));
    lemma_one_more(none, StepModel::Move(path[0].0, path[0].1));
    lemma_one_more(s1, StepModel::Sleep(hold));
    lemma_one_more(s2, StepModel::Button(Button::Left, true));
    lemma_one_more(s3, StepModel::Sleep(hold));
    lemma_moves_come_to(s4, rest);
    lemma_one_more(s5, StepModel::Sleep(hold));
    lemma_one_more(s6, StepModel::Button(Button::Left, false));
    assert(steps =~= s6.push(StepModel::Button(Button::Left, false)));
    let way = trail(steps);
    assert(nothing_down().after(s4) =~= (Down {
        buttons: set![Button::Left],
        ..nothing_down()
    }));
    assert forall|i: int| 0 <= i < path.len() implies (#[trigger] way[i]).at == path[i] by {
        if i > 0 {
            assert(rest[i - 1] == path[i]);
        }
    }
    lemma_moves_are_movements(rest);
    assert forall|i: int| 0 <= i < steps.len() implies (#[trigger] steps[i] is Move
        || steps[i] is Button || steps[i] is Sleep) by {
        if 4 <= i < s5.len() {
            assert(steps[i] == moves(rest)[i - 4]);
        }
    }
    let last = (3 * hold.nanos + (path.len() - 1) * 10_000_000) as nat;
    assert(clicked(steps) =~= seq![
        Clicked { button: Button::Left, pressed: true, time: hold.nanos as nat },
        Clicked { button: Button::Left, pressed: false, time: last },
    ]);
}

/// Nothing but the keyboard and the clipboard is used.
pub open spec fn only_keyboard(steps: Seq<StepModel>) -> bool {
    forall|i: int|
        0 <= i < steps.len() ==> (#[trigger] steps[i] is Key || steps[i] is Modifiers
            || steps[i] is Clipboard || steps[i] is Sleep)
}

/// How often something is put on the clipboard.
pub open spec fn copies(steps: Seq<StepModel>) -> nat
    decreases steps.len(),
{
    if steps.len() == 0 {
        0
    } else {
        copies(steps.drop_last()) + if steps.last() is Clipboard {
            1nat
        } else {
            0
        }
    }
}

/// The stretches of a text that the layout cannot type.
pub open spec fn stretches(map: KeyMapModel, text: Seq<CharSym>) -> nat
    decreases text.len(),
{
    if text.len() == 0 {
        0
    } else {
        let before = stretches(map, text.drop_last());
        if map.stroke_of(text.last()) is None && (text.len() == 1 || map.stroke_of(
            text[text.len() - 2],
        ) is Some) {
            before + 1
        } else {
            before
        }
    }
}

proof fn lemma_sums(first: Seq<StepModel>, second: Seq<StepModel>)
    ensures
        elapsed(first + second) == elapsed(first) + elapsed(second),
        copies(first + second) == copies(first) + copies(second),
        only_keyboard(first) && only_keyboard(second) ==> only_keyboard(first + second),
    decreases second.len(),
{
    let both = first + second;
    if second.len() == 0 {
        assert(both =~= first);
    } else {
        assert(both.drop_last() =~= first + second.drop_last());
        lemma_sums(first, second.drop_last());
    }
    if only_keyboard(first) && only_keyboard(second) {
        assert forall|i: int| 0 <= i < both.len() implies (#[trigger] both[i] is Key
            || both[i] is Modifiers || both[i] is Clipboard || both[i] is Sleep) by {
            if i < first.len() {
                assert(both[i] == first[i]);
            } else {
                assert(both[i] == second[i - first.len()]);
            }
        }
    }
}

/// Steps of keys and modifiers take no time and copy nothing.
proof fn lemma_keys_take_no_time(steps: Seq<StepModel>)
    requires
        forall|i: int|
            0 <= i < steps.len() ==> (#[trigger] steps[i] is Key || steps[i] is Modifiers),
    ensures
        elapsed(steps) == 0,
        copies(steps) == 0,
        only_keyboard(steps),
    decreases steps.len(),
{
    if steps.len() > 0 {
        let rest = steps.drop_last();
        assert forall|i: int| 0 <= i < rest.len() implies (#[trigger] rest[i] is Key
            || rest[i] is Modifiers) by {
            assert(rest[i] == steps[i]);
        }
        lemma_keys_take_no_time(rest);
        assert(steps.last() == steps[steps.len() - 1]);
    }
}

proof fn lemma_chord_takes_no_time(keys: Seq<u16>, key: u16, mask: u32)
    ensures
        elapsed(chord(keys, key, mask)) == 0,
        copies(chord(keys, key, mask)) == 0,
        only_keyboard(chord(keys, key, mask)),
{
    let steps = chord(keys, key, mask);
    let opening = announcement(mask, mask) + key_steps(keys, true);
    let closing = key_steps(keys.reverse(), false) + announcement(mask, 0);
    assert(steps =~= opening + seq![StepModel::Key(key, true), StepModel::Key(key, false)]
        + closing);
    assert forall|i: int| 0 <= i < steps.len() implies (#[trigger] steps[i] is Key
        || steps[i] is Modifiers) by {
        if i < opening.len() {
            assert(steps[i] == opening[i]);
        } else if i >= opening.len() + 2 {
            assert(steps[i] == closing[i - opening.len() - 2]);
        }
    }
    lemma_keys_take_no_time(steps);
}

/// A combo takes no time and uses the keyboard alone.
pub proof fn lemma_combo_takes_no_time(map: KeyMapModel, combo: ComboModel)
    ensures
        combo_sequence(map, combo) matches Ok(steps) ==> elapsed(steps) == 0 && copies(steps) == 0
            && only_keyboard(steps),
{
    if let Ok(keys) = modifier_keys(map, combo.modifiers) {
        lemma_chord_takes_no_time(keys, combo.key, map.mask(combo.modifiers));
    }
}

proof fn lemma_stroke_takes(kit: TypingKit, stroke: KeyStroke)
    ensures
        elapsed(kit.stroke(stroke)) == kit.delay.nanos,
        copies(kit.stroke(stroke)) == 0,
        only_keyboard(kit.stroke(stroke)),
{
    let steps = kit.stroke(stroke);
    if kit.delay.nanos == 0 {
        lemma_keys_take_no_time(steps);
    } else {
        lemma_keys_take_no_time(steps.drop_last());
        assert(steps.last() == StepModel::Sleep(kit.delay));
        assert forall|i: int| 0 <= i < steps.len() implies (#[trigger] steps[i] is Key
            || steps[i] is Modifiers || steps[i] is Clipboard || steps[i] is Sleep) by {
            if i < steps.len() - 1 {
                assert(steps[i] == steps.drop_last()[i]);
            }
        }
    }
}

proof fn lemma_strokes_take(kit: TypingKit, strokes: Seq<KeyStroke>)
    ensures
        elapsed(kit.strokes(strokes)) == strokes.len() * kit.delay.nanos,
        copies(kit.strokes(strokes)) == 0,
        only_keyboard(kit.strokes(strokes)),
    decreases strokes.len(),
{
    let n = strokes.len();
    let delay = kit.delay.nanos as int;
    if n > 0 {
        lemma_strokes_take(kit, strokes.drop_last());
        lemma_stroke_takes(kit, strokes.last());
        lemma_sums(kit.strokes(strokes.drop_last()), kit.stroke(strokes.last()));
        assert(n * delay == (n - 1) * delay + delay) by (nonlinear_arith);
    } else {
        assert(n * delay == 0) by (nonlinear_arith)
            requires
                n == 0,
        ;
    }
}

spec fn pasted_runs(runs: Seq<RunModel>) -> nat
    decreases runs.len(),
{
    if runs.len() == 0 {
        0
    } else {
        pasted_runs(runs.drop_last()) + if runs.last() is Pasted {
            1nat
        } else {
            0
        }
    }
}

proof fn lemma_stretches_are_runs(map: KeyMapModel, text: Seq<CharSym>)
    ensures
        pasted_runs(map.runs(text)) == stretches(map, text),
        map.runs(text).len() > 0 <==> text.len() > 0,
        text.len() > 0 ==> (map.runs(text).last() is Pasted <==> map.stroke_of(
            text.last(),
        ) is None),
    decreases text.len(),
{
    if text.len() > 0 {
        let rest = text.drop_last();
        lemma_stretches_are_runs(map, rest);
        let before = map.runs(rest);
        let after = map.runs(text);
        if rest.len() > 0 {
            assert(rest.last() == text[text.len() - 2]);
        }
        match map.stroke_of(text.last()) {
            Some(stroke) => {
                if before.len() > 0 && before.last() is Typed {
                    assert(after.drop_last() =~= before.drop_last());
                    assert(after.last() == RunModel::Typed(before.last()->Typed_0.push(stroke)));
                } else {
                    assert(after.drop_last() =~= before);
                    assert(after.last() == RunModel::Typed(seq![stroke]));
                }
            },
            None => {
                let c = text.last().c;
                if before.len() > 0 && before.last() is Pasted {
                    assert(after.drop_last() =~= before.drop_last());
                    assert(after.last() == RunModel::Pasted(before.last()->Pasted_0.push(c)));
                } else {
                    assert(after.drop_last() =~= before);
                    assert(after.last() == RunModel::Pasted(seq![c]));
                }
            },
        }
    }
}

proof fn lemma_plan_takes(kit: TypingKit, runs: Seq<RunModel>)
    requires
        has_pasted(runs) ==> elapsed(kit.paste) == 0 && copies(kit.paste) == 0 && only_keyboard(
            kit.paste,
        ),
    ensures
        elapsed(kit.plan(runs).steps) == kit.plan(runs).typed * kit.delay.nanos + pasted_runs(runs)
            * 100_000_000,
        copies(kit.plan(runs).steps) == pasted_runs(runs),
        only_keyboard(kit.plan(runs).steps),
    decreases runs.len(),
{
    let delay = kit.delay.nanos as int;
    if runs.len() == 0 {
        assert(0 * delay == 0);
    } else {
        let rest = runs.drop_last();
        assert(has_pasted(rest) ==> has_pasted(runs)) by {
            if has_pasted(rest) {
                let i = choose|i: int| 0 <= i < rest.len() && #[trigger] rest[i] is Pasted;
                assert(runs[i] is Pasted);
            }
        }
        lemma_plan_takes(kit, rest);
        let before = kit.plan(rest);
        let last = kit.run(runs.last());
        lemma_sums(before.steps, last);
        match runs.last() {
            RunModel::Typed(strokes) => {
                lemma_strokes_take(kit, strokes);
                let (a, b) = (before.typed as int, strokes.len() as int);
                assert((a + b) * delay == a * delay + b * delay) by (nonlinear_arith);
            },
            RunModel::Pasted(chars) => {
                assert(runs[runs.len() - 1] is Pasted);
                let copy = StepModel::Clipboard(chars);
                let pause = StepModel::Sleep(Duration::of_millis(PASTE_SETTLE_MS));
                assert(Duration::of_millis(PASTE_SETTLE_MS).nanos == 100_000_000);
                assert(seq![copy].drop_last() =~= Seq::<StepModel>::empty());
                assert(seq![pause].drop_last() =~= Seq::<StepModel>::empty());
                reveal_with_fuel(elapsed, 2);
                reveal_with_fuel(copies, 2);
                lemma_sums(seq![copy], kit.paste);
                lemma_sums(seq![copy] + kit.paste, seq![pause]);
            },
        }
    }
}

/// Typing takes the delay for each character that the layout has, and 100 ms
/// for each stretch of others, which is put on the clipboard as a whole. It
/// uses the keyboard and the clipboard alone.
pub proof fn lemma_typing_takes(map: KeyMapModel, text: Seq<CharSym>, delay: Duration)
    ensures
        typing(map, text, delay) matches Ok(plan) ==> {
            &&& elapsed(plan.steps) == (text.len() - untypeable(map, text)) * delay.nanos
                + stretches(map, text) * 100_000_000
            &&& copies(plan.steps) == stretches(map, text)
            &&& only_keyboard(plan.steps)
        },
{
    if let Ok(plan) = typing(map, text, delay) {
        let combo = map.combo("ctrl+v"@, map.names.paste)->Ok_0;
        let kit = TypingKit {
            shift: map.modifier_key(Modifier::Shift)->Ok_0,
            shift_mask: map.mask(seq![Modifier::Shift]),
            paste: combo_sequence(map, combo)->Ok_0,
            delay,
        };
        lemma_combo_takes_no_time(map, combo);
        lemma_plan_takes(kit, map.runs(text));
        lemma_stretches_are_runs(map, text);
        lemma_typing_counts_every_character(map, text, delay);
        assert(plan.typed == text.len() - untypeable(map, text));
    }
}

/// A combo can be pressed exactly where every one of its modifiers has a key.
pub proof fn lemma_which_combos_can_be_pressed(map: KeyMapModel, combo: ComboModel)
    ensures
        combo_sequence(map, combo) is Ok <==> forall|i: int|
            0 <= i < combo.modifiers.len() ==> map.modifier_key(#[trigger] combo.modifiers[i])
                is Ok,
{
    lemma_which_modifiers_have_keys(map, combo.modifiers);
}

proof fn lemma_which_modifiers_have_keys(map: KeyMapModel, modifiers: Seq<Modifier>)
    ensures
        modifier_keys(map, modifiers) is Ok <==> forall|i: int|
            0 <= i < modifiers.len() ==> map.modifier_key(#[trigger] modifiers[i]) is Ok,
    decreases modifiers.len(),
{
    if modifiers.len() > 0 {
        let rest = modifiers.drop_last();
        lemma_which_modifiers_have_keys(map, rest);
        assert forall|i: int| 0 <= i < rest.len() implies #[trigger] rest[i] == modifiers[i] by {}
        assert(modifiers[modifiers.len() - 1] == modifiers.last());
        if modifier_keys(map, modifiers) is Ok {
            assert forall|i: int| 0 <= i < modifiers.len() implies map.modifier_key(
                #[trigger] modifiers[i],
            ) is Ok by {
                if i < rest.len() {
                    assert(map.modifier_key(rest[i]) is Ok);
                }
            }
        }
        if forall|i: int|
            0 <= i < modifiers.len() ==> map.modifier_key(#[trigger] modifiers[i]) is Ok {
            assert forall|i: int| 0 <= i < rest.len() implies map.modifier_key(
                #[trigger] rest[i],
            ) is Ok by {
                assert(map.modifier_key(modifiers[i]) is Ok);
            }
        }
    }
}

/// A text can be typed exactly where the layout has a key for Shift and one
/// for "v" and, where some of its characters have to be pasted, one for Ctrl.
pub proof fn lemma_which_texts_can_be_typed(map: KeyMapModel, text: Seq<CharSym>, delay: Duration)
    ensures
        typing(map, text, delay) is Ok <==> map.modifier_key(Modifier::Shift) is Ok && map.key_of(
            map.names.paste,
        ) is Some && (untypeable(map, text) > 0 ==> map.modifier_key(Modifier::Ctrl) is Ok),
{
    lemma_paste_is_ctrl_and_v(map, map.names.paste);
    lemma_pasted_runs(map, text);
    if let Ok(combo) = map.combo("ctrl+v"@, map.names.paste) {
        lemma_which_combos_can_be_pressed(map, combo);
        assert(combo.modifiers[0] == Modifier::Ctrl);
    }
}

proof fn lemma_pasted_runs(map: KeyMapModel, text: Seq<CharSym>)
    ensures
        has_pasted(map.runs(text)) <==> untypeable(map, text) > 0,
{
    lemma_runs_keep_the_text(map, text);
    let runs = map.runs(text);
    let units = run_units(runs);
    lemma_pasted_units(runs);
    lemma_untypeable_characters(map, text);
    if has_pasted(runs) {
        lemma_runs_alternate(map, text);
        let r = choose|r: int| 0 <= r < runs.len() && #[trigger] runs[r] is Pasted;
        assert(runs[r].units().len() > 0);
        let i = choose|i: int| 0 <= i < units.len() && #[trigger] units[i] is Char;
        assert(units[i] == map.unit(text[i]));
        assert(map.stroke_of(text[i]) is None);
    }
    if untypeable(map, text) > 0 {
        let i = choose|i: int| 0 <= i < text.len() && map.stroke_of(#[trigger] text[i]) is None;
        assert(units[i] == map.unit(text[i]));
        assert(units[i] is Char);
    }
}

proof fn lemma_untypeable_characters(map: KeyMapModel, text: Seq<CharSym>)
    ensures
        untypeable(map, text) > 0 <==> exists|i: int|
            0 <= i < text.len() && map.stroke_of(#[trigger] text[i]) is None,
    decreases text.len(),
{
    if text.len() > 0 {
        let rest = text.drop_last();
        lemma_untypeable_characters(map, rest);
        assert(text[text.len() - 1] == text.last());
        if untypeable(map, rest) > 0 {
            let i = choose|i: int| 0 <= i < rest.len() && map.stroke_of(#[trigger] rest[i]) is None;
            assert(map.stroke_of(text[i]) is None);
        }
        if exists|i: int| 0 <= i < text.len() && map.stroke_of(#[trigger] text[i]) is None {
            let i = choose|i: int| 0 <= i < text.len() && map.stroke_of(#[trigger] text[i]) is None;
            if i < rest.len() {
                assert(map.stroke_of(rest[i]) is None);
            }
        }
    }
}

/// A pasted run that is not empty brings a pasted character, and nothing else
/// does.
proof fn lemma_pasted_units(runs: Seq<RunModel>)
    ensures
        (exists|i: int| 0 <= i < run_units(runs).len() && #[trigger] run_units(runs)[i] is Char)
            <==> exists|r: int|
            0 <= r < runs.len() && #[trigger] runs[r] is Pasted && runs[r].units().len() > 0,
    decreases runs.len(),
{
    if runs.len() > 0 {
        let rest = runs.drop_last();
        lemma_pasted_units(rest);
        let (all, before, last) = (run_units(runs), run_units(rest), runs.last().units());
        assert(runs[runs.len() - 1] == runs.last());
        if exists|i: int| 0 <= i < all.len() && #[trigger] all[i] is Char {
            let i = choose|i: int| 0 <= i < all.len() && #[trigger] all[i] is Char;
            if i < before.len() {
                assert(before[i] is Char);
                let r = choose|r: int|
                    0 <= r < rest.len() && #[trigger] rest[r] is Pasted && rest[r].units().len()
                        > 0;
                assert(runs[r] is Pasted);
            } else {
                assert(all[i] == last[i - before.len()]);
                assert(runs[runs.len() - 1] is Pasted);
            }
        }
        if exists|r: int|
            0 <= r < runs.len() && #[trigger] runs[r] is Pasted && runs[r].units().len() > 0 {
            let r = choose|r: int|
                0 <= r < runs.len() && #[trigger] runs[r] is Pasted && runs[r].units().len() > 0;
            if r < rest.len() {
                assert(rest[r] is Pasted && rest[r].units().len() > 0);
                let i = choose|i: int| 0 <= i < before.len() && #[trigger] before[i] is Char;
                assert(all[i] == before[i]);
            } else {
                assert(last[0] is Char);
                assert(all[before.len() as int] == last[0]);
            }
        }
    }
}

/// Between any two keys that are struck there is a pause of one of these two
/// lengths.
pub open spec fn is_paced(steps: Seq<StepModel>, delay: Duration, settle: Duration) -> bool {
    forall|i: int, j: int|
        0 <= i < j < steps.len() && #[trigger] begins_with_a_strike(steps.skip(i))
            && #[trigger] begins_with_a_strike(steps.skip(j)) ==> exists|k: int|
            i < k < j && (#[trigger] steps[k] == StepModel::Sleep(delay) || steps[k]
                == StepModel::Sleep(settle))
}

spec fn ends_in_a_pause(steps: Seq<StepModel>, delay: Duration, settle: Duration) -> bool {
    steps.len() > 0 && (steps.last() == StepModel::Sleep(delay) || steps.last()
        == StepModel::Sleep(settle))
}

proof fn lemma_paces_join(
    first: Seq<StepModel>,
    second: Seq<StepModel>,
    delay: Duration,
    settle: Duration,
)
    requires
        is_paced(first, delay, settle),
        is_paced(second, delay, settle),
        first.len() == 0 || ends_in_a_pause(first, delay, settle),
    ensures
        is_paced(first + second, delay, settle),
{
    let both = first + second;
    let n = first.len() as int;
    assert forall|i: int, j: int|
        0 <= i < j < both.len() && #[trigger] begins_with_a_strike(both.skip(i))
            && #[trigger] begins_with_a_strike(both.skip(j)) implies exists|k: int|
        i < k < j && (#[trigger] both[k] == StepModel::Sleep(delay) || both[k]
            == StepModel::Sleep(settle)) by {
        assert(both.skip(i)[0] == both[i] && both.skip(i)[1] == both[i + 1]);
        assert(both.skip(j)[0] == both[j] && both.skip(j)[1] == both[j + 1]);
        if i < n {
            assert(both[n - 1] == first[n - 1]);
            assert(i + 1 < n - 1 || i + 1 == n - 1 || i == n - 1);
            assert(i + 1 < n - 1);
        }
        if j < n {
            assert(j + 1 < n);
            assert(first.skip(i)[0] == both[i] && first.skip(i)[1] == both[i + 1]);
            assert(first.skip(j)[0] == both[j] && first.skip(j)[1] == both[j + 1]);
            assert(begins_with_a_strike(first.skip(i)) && begins_with_a_strike(first.skip(j)));
            let k = choose|k: int|
                i < k < j && (#[trigger] first[k] == StepModel::Sleep(delay) || first[k]
                    == StepModel::Sleep(settle));
            assert(both[k] == first[k]);
        } else if i < n {
            assert(both[n - 1] == first.last());
        } else {
            assert(both.skip(i) =~= second.skip(i - n));
            assert(both.skip(j) =~= second.skip(j - n));
            let k = choose|k: int|
                i - n < k < j - n && (#[trigger] second[k] == StepModel::Sleep(delay) || second[k]
                    == StepModel::Sleep(settle));
            assert(both[k + n] == second[k]);
        }
    }
}

proof fn lemma_stroke_is_paced(kit: TypingKit, stroke: KeyStroke, settle: Duration)
    requires
        kit.delay.nanos > 0,
    ensures
        is_paced(kit.stroke(stroke), kit.delay, settle),
        ends_in_a_pause(kit.stroke(stroke), kit.delay, settle),
{
    let steps = kit.stroke(stroke);
    let at = if stroke.shift {
        2int
    } else {
        0
    };
    assert forall|i: int| 0 <= i < steps.len() && #[trigger] begins_with_a_strike(
        steps.skip(i),
    ) implies i == at by {
        assert(steps.skip(i)[0] == steps[i] && steps.skip(i)[1] == steps[i + 1]);
        if stroke.shift {
            assert(steps[0] is Modifiers && steps[1] == StepModel::Key(kit.shift, true));
            assert(steps[2] == StepModel::Key(stroke.evdev, true));
            assert(steps[3] == StepModel::Key(stroke.evdev, false));
            assert(steps[4] == StepModel::Key(kit.shift, false));
            assert(steps[5] is Modifiers && steps[6] is Sleep);
        } else {
            assert(steps[0] == StepModel::Key(stroke.evdev, true));
            assert(steps[1] == StepModel::Key(stroke.evdev, false));
            assert(steps[2] is Sleep);
        }
    }
}

proof fn lemma_strokes_are_paced(kit: TypingKit, strokes: Seq<KeyStroke>, settle: Duration)
    requires
        kit.delay.nanos > 0,
    ensures
        is_paced(kit.strokes(strokes), kit.delay, settle),
        kit.strokes(strokes).len() == 0 || ends_in_a_pause(
            kit.strokes(strokes),
            kit.delay,
            settle,
        ),
    decreases strokes.len(),
{
    if strokes.len() > 0 {
        let before = kit.strokes(strokes.drop_last());
        let last = kit.stroke(strokes.last());
        lemma_strokes_are_paced(kit, strokes.drop_last(), settle);
        lemma_stroke_is_paced(kit, strokes.last(), settle);
        lemma_paces_join(before, last, kit.delay, settle);
        assert((before + last).last() == last.last());
    }
}

proof fn lemma_chord_strikes_once(keys: Seq<u16>, key: u16, mask: u32, i: int)
    requires
        0 <= i < chord(keys, key, mask).len(),
        begins_with_a_strike(chord(keys, key, mask).skip(i)),
    ensures
        i == announcement(mask, mask).len() + keys.len(),
{
    let steps = chord(keys, key, mask);
    let a = announcement(mask, mask);
    let b = key_steps(keys, true);
    let d = key_steps(keys.reverse(), false);
    let n: int = (a.len() + b.len()) as int;
    assert(steps.skip(i)[0] == steps[i] && steps.skip(i)[1] == steps[i + 1]);
    assert(steps[n] == StepModel::Key(key, true));
    assert(steps[n + 1] == StepModel::Key(key, false));
    if a.len() <= i < n {
        assert(steps[i] == b[i - a.len()]);
        if i + 1 < n {
            assert(steps[i + 1] == b[i + 1 - a.len()]);
        }
    } else if i > n + 1 && i < n + 2 + d.len() {
        assert(steps[i] == d[i - n - 2]);
    }
}

proof fn lemma_paste_is_paced(
    kit: TypingKit,
    chars: Seq<char>,
    keys: Seq<u16>,
    key: u16,
    mask: u32,
)
    requires
        kit.paste == chord(keys, key, mask),
    ensures
        ({
            let settle = Duration::of_millis(PASTE_SETTLE_MS);
            &&& is_paced(kit.run(RunModel::Pasted(chars)), kit.delay, settle)
            &&& ends_in_a_pause(kit.run(RunModel::Pasted(chars)), kit.delay, settle)
        }),
{
    let settle = Duration::of_millis(PASTE_SETTLE_MS);
    let steps = kit.run(RunModel::Pasted(chars));
    let n = kit.paste.len() as int;
    assert forall|i: int| 0 <= i < steps.len() && #[trigger] begins_with_a_strike(
        steps.skip(i),
    ) implies i == announcement(mask, mask).len() + keys.len() + 1 by {
        assert(steps.skip(i)[0] == steps[i] && steps.skip(i)[1] == steps[i + 1]);
        assert(steps[0] is Clipboard && steps[n + 1] is Sleep);
        assert(1 <= i < n);
        assert(steps[i] == kit.paste[i - 1] && steps[i + 1] == kit.paste[i]);
        assert(kit.paste.skip(i - 1)[0] == kit.paste[i - 1]);
        assert(kit.paste.skip(i - 1)[1] == kit.paste[i]);
        lemma_chord_strikes_once(keys, key, mask, i - 1);
    }
}

proof fn lemma_plan_is_paced(
    kit: TypingKit,
    runs: Seq<RunModel>,
    keys: Seq<u16>,
    key: u16,
    mask: u32,
)
    requires
        kit.delay.nanos > 0,
        has_pasted(runs) ==> kit.paste == chord(keys, key, mask),
    ensures
        ({
            let settle = Duration::of_millis(PASTE_SETTLE_MS);
            let steps = kit.plan(runs).steps;
            &&& is_paced(steps, kit.delay, settle)
            &&& steps.len() == 0 || ends_in_a_pause(steps, kit.delay, settle)
        }),
    decreases runs.len(),
{
    let settle = Duration::of_millis(PASTE_SETTLE_MS);
    if runs.len() > 0 {
        let rest = runs.drop_last();
        assert(has_pasted(rest) ==> has_pasted(runs)) by {
            if has_pasted(rest) {
                let i = choose|i: int| 0 <= i < rest.len() && #[trigger] rest[i] is Pasted;
                assert(runs[i] is Pasted);
            }
        }
        lemma_plan_is_paced(kit, rest, keys, key, mask);
        let before = kit.plan(rest).steps;
        let last = kit.run(runs.last());
        match runs.last() {
            RunModel::Typed(strokes) => lemma_strokes_are_paced(kit, strokes, settle),
            RunModel::Pasted(chars) => {
                assert(runs[runs.len() - 1] is Pasted);
                lemma_paste_is_paced(kit, chars, keys, key, mask);
            },
        }
        lemma_paces_join(before, last, kit.delay, settle);
        if last.len() > 0 {
            assert((before + last).last() == last.last());
        } else {
            assert(before + last =~= before);
        }
    }
}

/// Between any two keys that typing strikes there is the delay, where there is
/// one, or the 100 ms after a paste.
pub proof fn lemma_typing_is_paced(map: KeyMapModel, text: Seq<CharSym>, delay: Duration)
    requires
        delay.nanos > 0,
    ensures
        typing(map, text, delay) matches Ok(plan) ==> is_paced(
            plan.steps,
            delay,
            Duration { nanos: 100_000_000 },
        ),
{
    if let Ok(plan) = typing(map, text, delay) {
        let combo = map.combo("ctrl+v"@, map.names.paste)->Ok_0;
        let keys = if modifier_keys(map, combo.modifiers) is Ok {
            modifier_keys(map, combo.modifiers)->Ok_0
        } else {
            seq![]
        };
        let kit = TypingKit {
            shift: map.modifier_key(Modifier::Shift)->Ok_0,
            shift_mask: map.mask(seq![Modifier::Shift]),
            paste: combo_sequence(map, combo)->Ok_0,
            delay,
        };
        assert(Duration::of_millis(PASTE_SETTLE_MS) == (Duration { nanos: 100_000_000 }));
        lemma_plan_is_paced(kit, map.runs(text), keys, combo.key, map.mask(combo.modifiers));
    }
}

} // verus!
