//! Sequences of input primitives, built as plain values.

use vstd::prelude::*;

use crate::inject::Button;
use crate::keys::{
    lemma_runs_keep_the_text, run_units, run_views, CharSym, Combo, ComboModel, KeyMap,
    KeyMapModel, KeyStroke, Modifier, RunModel, TextRun,
};
use crate::text::chars_of;
use crate::time::Duration;

verus! {

/// Milliseconds between the clicks of a double click.
pub const DOUBLE_CLICK_GAP_MS: u64 = 60;

/// Milliseconds after each movement of a drag.
pub const DRAG_STEP_PAUSE_MS: u64 = 10;

/// Milliseconds after a paste.
pub const PASTE_SETTLE_MS: u64 = 100;

/// One primitive that an input device performs.
#[derive(Debug, Clone, PartialEq)]
pub enum Step {
    Move(u32, u32),
    Button(Button, bool),
    Key(u16, bool),
    /// Scroll notches: positive dy scrolls down, positive dx scrolls right.
    Scroll(i32, i32),
    /// XKB modifier mask to advertise on the sandbox keyboard.
    Modifiers(u32),
    /// Put text on the clipboard of the target.
    Clipboard(String),
    Sleep(Duration),
}

pub enum StepModel {
    Move(u32, u32),
    Button(Button, bool),
    Key(u16, bool),
    Scroll(i32, i32),
    Modifiers(u32),
    Clipboard(Seq<char>),
    Sleep(Duration),
}

impl View for Step {
    type V = StepModel;

    open spec fn view(&self) -> StepModel {
        match *self {
            Step::Move(x, y) => StepModel::Move(x, y),
            Step::Button(button, pressed) => StepModel::Button(button, pressed),
            Step::Key(code, pressed) => StepModel::Key(code, pressed),
            Step::Scroll(dx, dy) => StepModel::Scroll(dx, dy),
            Step::Modifiers(mask) => StepModel::Modifiers(mask),
            Step::Clipboard(text) => StepModel::Clipboard(text@),
            Step::Sleep(span) => StepModel::Sleep(span),
        }
    }
}

pub open spec fn step_views(steps: Seq<Step>) -> Seq<StepModel> {
    steps.map_values(|step: Step| step@)
}

proof fn lemma_push_view(steps: Seq<Step>, step: Step)
    ensures
        step_views(steps.push(step)) == step_views(steps).push(step@),
{
    assert(step_views(steps.push(step)) =~= step_views(steps).push(step@));
}

/// Adds a step to a sequence.
fn add_step(steps: &mut Vec<Step>, step: Step)
    ensures
        step_views(final(steps)@) == step_views(old(steps)@).push(step@),
{
    proof {
        lemma_push_view(steps@, step);
    }
    steps.push(step);
}

/// Adds the steps of one sequence to another.
fn add_steps(steps: &mut Vec<Step>, more: Vec<Step>)
    ensures
        step_views(final(steps)@) == step_views(old(steps)@) + step_views(more@),
{
    let ghost before = steps@;
    let ghost added = more@;
    let mut more = more;
    steps.append(&mut more);
    assert(step_views(before + added) =~= step_views(before) + step_views(added));
}

/// Presses and releases of a button, with a pause between them.
pub open spec fn presses(button: Button, count: nat) -> Seq<StepModel>
    decreases count,
{
    if count == 0 {
        Seq::empty()
    } else {
        let before = presses(button, (count - 1) as nat);
        let spaced = if count > 1 {
            before.push(StepModel::Sleep(Duration::of_millis(DOUBLE_CLICK_GAP_MS)))
        } else {
            before
        };
        spaced.push(StepModel::Button(button, true)).push(StepModel::Button(button, false))
    }
}

pub open spec fn clicks(x: u32, y: u32, button: Button, count: nat) -> Seq<StepModel> {
    seq![StepModel::Move(x, y)] + presses(button, count)
}

/// A movement and then as many clicks as asked for.
pub fn click_steps(x: u32, y: u32, button: Button, count: u32) -> (steps: Vec<Step>)
    ensures
        step_views(steps@) == clicks(x, y, button, count as nat),
{
    let mut steps: Vec<Step> = Vec::new();
    assert(step_views(steps@) =~= Seq::<StepModel>::empty());
    add_step(&mut steps, Step::Move(x, y));
    let mut index: u32 = 0;
    assert(step_views(steps@) =~= clicks(x, y, button, 0));
    while index < count
        invariant
            index <= count,
            step_views(steps@) == clicks(x, y, button, index as nat),
        decreases count - index,
    {
        if index > 0 {
            add_step(&mut steps, Step::Sleep(Duration::from_millis(DOUBLE_CLICK_GAP_MS)));
        }
        add_step(&mut steps, Step::Button(button, true));
        add_step(&mut steps, Step::Button(button, false));
        index = index + 1;
        assert(step_views(steps@) =~= clicks(x, y, button, index as nat));
    }
    steps
}

/// Movements along a path, each followed by a pause.
pub open spec fn moves(path: Seq<(u32, u32)>) -> Seq<StepModel>
    decreases path.len(),
{
    if path.len() == 0 {
        Seq::empty()
    } else {
        moves(path.drop_last()).push(StepModel::Move(path.last().0, path.last().1)).push(
            StepModel::Sleep(Duration::of_millis(DRAG_STEP_PAUSE_MS)),
        )
    }
}

/// A drag: press at the start of the path, move along the rest, release.
pub open spec fn drag(path: Seq<(u32, u32)>, hold: Duration) -> Seq<StepModel> {
    if path.len() == 0 {
        Seq::empty()
    } else {
        seq![
            StepModel::Move(path[0].0, path[0].1),
            StepModel::Sleep(hold),
            StepModel::Button(Button::Left, true),
            StepModel::Sleep(hold),
        ] + moves(path.drop_first()) + seq![
            StepModel::Sleep(hold),
            StepModel::Button(Button::Left, false),
        ]
    }
}

/// Steps for a drag along device coordinates.
pub fn drag_steps(path: &[(u32, u32)], hold: Duration) -> (steps: Vec<Step>)
    ensures
        step_views(steps@) == drag(path@, hold),
{
    let mut steps: Vec<Step> = Vec::new();
    assert(step_views(steps@) =~= Seq::<StepModel>::empty());
    if path.len() == 0 {
        return steps;
    }
    let (start_x, start_y) = path[0];
    add_step(&mut steps, Step::Move(start_x, start_y));
    add_step(&mut steps, Step::Sleep(hold));
    add_step(&mut steps, Step::Button(Button::Left, true));
    add_step(&mut steps, Step::Sleep(hold));
    let ghost opening = step_views(steps@);
    let ghost rest = path@.drop_first();
    let mut i: usize = 1;
    assert(opening + moves(rest.take(0)) =~= opening);
    while i < path.len()
        invariant
            1 <= i <= path@.len(),
            rest == path@.drop_first(),
            step_views(steps@) == opening + moves(rest.take(i - 1)),
        decreases path@.len() - i,
    {
        assert(rest.take(i as int).drop_last() =~= rest.take(i - 1));
        assert(rest.take(i as int).last() == path@[i as int]);
        let (x, y) = path[i];
        add_step(&mut steps, Step::Move(x, y));
        add_step(&mut steps, Step::Sleep(Duration::from_millis(DRAG_STEP_PAUSE_MS)));
        assert(step_views(steps@) =~= opening + moves(rest.take(i as int)));
        i = i + 1;
    }
    assert(rest.take(i - 1) =~= rest);
    add_step(&mut steps, Step::Sleep(hold));
    add_step(&mut steps, Step::Button(Button::Left, false));
    assert(step_views(steps@) =~= drag(path@, hold));
    steps
}

/// The keys of several modifiers, or the error of the first without one.
pub open spec fn modifier_keys(map: KeyMapModel, modifiers: Seq<Modifier>) -> Result<
    Seq<u16>,
    Seq<char>,
>
    decreases modifiers.len(),
{
    if modifiers.len() == 0 {
        Ok(Seq::empty())
    } else {
        match modifier_keys(map, modifiers.drop_last()) {
            Err(error) => Err(error),
            Ok(keys) => match map.modifier_key(modifiers.last()) {
                Err(error) => Err(error),
                Ok(key) => Ok(keys.push(key)),
            },
        }
    }
}

pub open spec fn key_steps(keys: Seq<u16>, pressed: bool) -> Seq<StepModel> {
    keys.map_values(|key: u16| StepModel::Key(key, pressed))
}

/// A step that announces a modifier mask, where there is one to announce.
pub open spec fn announcement(mask: u32, shown: u32) -> Seq<StepModel> {
    if mask == 0 {
        Seq::empty()
    } else {
        seq![StepModel::Modifiers(shown)]
    }
}

/// A combo with its modifier keys known: modifiers go down first and come up
/// last, in reverse.
pub open spec fn chord(keys: Seq<u16>, key: u16, mask: u32) -> Seq<StepModel> {
    announcement(mask, mask) + key_steps(keys, true) + seq![
        StepModel::Key(key, true),
        StepModel::Key(key, false),
    ] + key_steps(keys.reverse(), false) + announcement(mask, 0)
}

pub open spec fn combo_sequence(map: KeyMapModel, combo: ComboModel) -> Result<
    Seq<StepModel>,
    Seq<char>,
> {
    match modifier_keys(map, combo.modifiers) {
        Err(error) => Err(error),
        Ok(keys) => Ok(chord(keys, combo.key, map.mask(combo.modifiers))),
    }
}

/// Steps that press a combo.
pub fn combo_steps(keymap: &KeyMap, combo: &Combo) -> (steps: Result<Vec<Step>, String>)
    ensures
        match steps {
            Ok(steps) => combo_sequence(keymap@, combo@) == Ok::<Seq<StepModel>, Seq<char>>(
                step_views(steps@),
            ),
            Err(error) => combo_sequence(keymap@, combo@) == Err::<Seq<StepModel>, Seq<char>>(
                error@,
            ),
        },
{
    let mut steps: Vec<Step> = Vec::new();
    assert(step_views(steps@) =~= Seq::<StepModel>::empty());
    let mask: u32 = keymap.modifier_mask(&combo.modifiers);
    if mask != 0 {
        add_step(&mut steps, Step::Modifiers(mask));
    }
    let ghost opening = announcement(mask, mask);
    let ghost modifiers = combo.modifiers@;
    let mut codes: Vec<u16> = Vec::new();
    let mut i: usize = 0;
    assert(modifiers.take(0) =~= Seq::<Modifier>::empty());
    assert(codes@ =~= Seq::<u16>::empty());
    assert(step_views(steps@) =~= opening + key_steps(codes@, true));
    while i < combo.modifiers.len()
        invariant
            i <= combo.modifiers@.len(),
            modifiers == combo.modifiers@,
            modifier_keys(keymap@, modifiers.take(i as int)) == Ok::<Seq<u16>, Seq<char>>(codes@),
            step_views(steps@) == opening + key_steps(codes@, true),
        decreases combo.modifiers@.len() - i,
    {
        assert(modifiers.take(i + 1).drop_last() =~= modifiers.take(i as int));
        assert(modifiers.take(i + 1).last() == modifiers[i as int]);
        match keymap.modifier_evdev(combo.modifiers[i]) {
            Ok(code) => {
                codes.push(code);
                add_step(&mut steps, Step::Key(code, true));
                assert(step_views(steps@) =~= opening + key_steps(codes@, true));
            },
            Err(error) => {
                proof {
                    lemma_missing_key_persists(keymap@, modifiers, i + 1);
                }
                return Err(error);
            },
        }
        i = i + 1;
    }
    assert(modifiers.take(i as int) =~= modifiers);
    add_step(&mut steps, Step::Key(combo.key, true));
    add_step(&mut steps, Step::Key(combo.key, false));
    let ghost pressed = step_views(steps@);
    let mut left: usize = codes.len();
    assert(pressed + key_steps(codes@.reverse().take(0), false) =~= pressed);
    while left > 0
        invariant
            left <= codes@.len(),
            step_views(steps@) == pressed + key_steps(
                codes@.reverse().take(codes@.len() - left),
                false,
            ),
        decreases left,
    {
        left = left - 1;
        add_step(&mut steps, Step::Key(codes[left], false));
        assert(step_views(steps@) =~= pressed + key_steps(
            codes@.reverse().take(codes@.len() - left),
            false,
        ));
    }
    assert(codes@.reverse().take(codes@.len() as int) =~= codes@.reverse());
    if mask != 0 {
        add_step(&mut steps, Step::Modifiers(0));
    }
    assert(step_views(steps@) =~= chord(codes@, combo.key, mask));
    Ok(steps)
}

/// A modifier without a key spoils every longer list.
proof fn lemma_missing_key_persists(map: KeyMapModel, modifiers: Seq<Modifier>, n: int)
    requires
        0 <= n <= modifiers.len(),
        modifier_keys(map, modifiers.take(n)) is Err,
    ensures
        modifier_keys(map, modifiers) == modifier_keys(map, modifiers.take(n)),
    decreases modifiers.len() - n,
{
    if n < modifiers.len() {
        assert(modifiers.take(n + 1).drop_last() =~= modifiers.take(n));
        lemma_missing_key_persists(map, modifiers, n + 1);
    } else {
        assert(modifiers.take(n) =~= modifiers);
    }
}

/// What typing a text takes: its steps, and how many characters are typed and
/// how many pasted.
#[derive(Debug)]
pub struct TypedPlan {
    pub steps: Vec<Step>,
    pub typed_chars: usize,
    pub pasted_chars: usize,
}

#[verifier::ext_equal]
pub struct PlanModel {
    pub steps: Seq<StepModel>,
    pub typed: nat,
    pub pasted: nat,
}

impl View for TypedPlan {
    type V = PlanModel;

    open spec fn view(&self) -> PlanModel {
        PlanModel {
            steps: step_views(self.steps@),
            typed: self.typed_chars as nat,
            pasted: self.pasted_chars as nat,
        }
    }
}

/// What typing needs of a keyboard: the Shift key and its mask, the steps of
/// the paste combo and the pause after each character.
pub struct TypingKit {
    pub shift: u16,
    pub shift_mask: u32,
    pub paste: Seq<StepModel>,
    pub delay: Duration,
}

pub open spec fn empty_plan() -> PlanModel {
    PlanModel { steps: Seq::empty(), typed: 0, pasted: 0 }
}

impl TypingKit {
    /// One character: its key, within Shift where it needs that.
    pub open spec fn stroke(self, stroke: KeyStroke) -> Seq<StepModel> {
        let tap = seq![StepModel::Key(stroke.evdev, true), StepModel::Key(stroke.evdev, false)];
        let shifted = if stroke.shift {
            seq![StepModel::Modifiers(self.shift_mask), StepModel::Key(self.shift, true)] + tap
                + seq![StepModel::Key(self.shift, false), StepModel::Modifiers(0)]
        } else {
            tap
        };
        if self.delay.nanos == 0 {
            shifted
        } else {
            shifted.push(StepModel::Sleep(self.delay))
        }
    }

    pub open spec fn strokes(self, strokes: Seq<KeyStroke>) -> Seq<StepModel>
        decreases strokes.len(),
    {
        if strokes.len() == 0 {
            Seq::empty()
        } else {
            self.strokes(strokes.drop_last()) + self.stroke(strokes.last())
        }
    }

    /// A run: typed key by key, or put on the clipboard and pasted.
    pub open spec fn run(self, run: RunModel) -> Seq<StepModel> {
        match run {
            RunModel::Typed(strokes) => self.strokes(strokes),
            RunModel::Pasted(chars) => seq![StepModel::Clipboard(chars)] + self.paste
                + seq![StepModel::Sleep(Duration::of_millis(PASTE_SETTLE_MS))],
        }
    }

    pub open spec fn plan(self, runs: Seq<RunModel>) -> PlanModel
        decreases runs.len(),
    {
        if runs.len() == 0 {
            empty_plan()
        } else {
            let before = self.plan(runs.drop_last());
            match runs.last() {
                RunModel::Typed(strokes) => PlanModel {
                    steps: before.steps + self.run(runs.last()),
                    typed: before.typed + strokes.len(),
                    ..before
                },
                RunModel::Pasted(chars) => PlanModel {
                    steps: before.steps + self.run(runs.last()),
                    pasted: before.pasted + chars.len(),
                    ..before
                },
            }
        }
    }
}

pub open spec fn has_pasted(runs: Seq<RunModel>) -> bool {
    exists|i: int| 0 <= i < runs.len() && #[trigger] runs[i] is Pasted
}

/// The plan for a text, or why there is none: no Shift key, no paste combo, or
/// a paste combo that cannot be pressed where something has to be pasted.
pub open spec fn typing(map: KeyMapModel, text: Seq<CharSym>, delay: Duration) -> Result<
    PlanModel,
    Seq<char>,
> {
    match (map.modifier_key(Modifier::Shift), map.combo("ctrl+v"@, map.names.paste)) {
        (Err(error), _) => Err(error),
        (_, Err(error)) => Err(error),
        (Ok(shift), Ok(combo)) => {
            let paste = combo_sequence(map, combo);
            if has_pasted(map.runs(text)) && paste is Err {
                Err(paste->Err_0)
            } else {
                Ok(
                    (TypingKit {
                        shift,
                        shift_mask: map.mask(seq![Modifier::Shift]),
                        paste: paste->Ok_0,
                        delay,
                    }).plan(map.runs(text)),
                )
            }
        },
    }
}

/// Adds the steps of one character.
fn add_stroke(
    steps: &mut Vec<Step>,
    stroke: KeyStroke,
    shift: u16,
    shift_mask: u32,
    delay: Duration,
)
    ensures
        forall|paste: Seq<StepModel>|
            step_views(final(steps)@) == step_views(old(steps)@) + #[trigger] (TypingKit {
                shift,
                shift_mask,
                paste,
                delay,
            }).stroke(stroke),
{
    let ghost before = step_views(steps@);
    if stroke.shift {
        add_step(steps, Step::Modifiers(shift_mask));
        add_step(steps, Step::Key(shift, true));
    }
    add_step(steps, Step::Key(stroke.evdev, true));
    add_step(steps, Step::Key(stroke.evdev, false));
    if stroke.shift {
        add_step(steps, Step::Key(shift, false));
        add_step(steps, Step::Modifiers(0));
    }
    if !delay.is_zero() {
        add_step(steps, Step::Sleep(delay));
    }
    assert forall|paste: Seq<StepModel>| step_views(steps@) == before + #[trigger] (TypingKit {
        shift,
        shift_mask,
        paste,
        delay,
    }).stroke(stroke) by {
        assert(step_views(steps@) =~= before + (TypingKit {
            shift,
            shift_mask,
            paste,
            delay,
        }).stroke(stroke));
    }
}

/// The plan for typing a text with the keysyms of its characters.
pub fn type_steps(keymap: &KeyMap, text: &[CharSym], delay: Duration) -> (plan: Result<
    TypedPlan,
    String,
>)
    ensures
        match plan {
            Ok(plan) => typing(keymap@, text@, delay) == Ok::<PlanModel, Seq<char>>(plan@),
            Err(error) => typing(keymap@, text@, delay) == Err::<PlanModel, Seq<char>>(error@),
        },
{
    let ghost map = keymap@;
    let shift: u16 = match keymap.modifier_evdev(Modifier::Shift) {
        Ok(shift) => shift,
        Err(error) => {
            return Err(error);
        },
    };
    let only_shift: Vec<Modifier> = vec![Modifier::Shift];
    assert(only_shift@ =~= seq![Modifier::Shift]);
    let shift_mask: u32 = keymap.modifier_mask(&only_shift);
    let combo = match keymap.paste_combo() {
        Ok(combo) => combo,
        Err(error) => {
            return Err(error);
        },
    };
    let ghost paste = combo_sequence(map, combo@);
    let ghost kit = TypingKit { shift, shift_mask, paste: paste->Ok_0, delay };
    let len: usize = text.len();
    let runs = keymap.split_text(text);
    let ghost all = run_views(runs@);
    proof {
        lemma_runs_keep_the_text(map, text@);
        assert(run_units(all).len() == len);
    }
    let mut plan = TypedPlan { steps: Vec::new(), typed_chars: 0, pasted_chars: 0 };
    let mut i: usize = 0;
    assert(all.take(0) =~= Seq::<RunModel>::empty());
    assert(step_views(plan.steps@) =~= Seq::<StepModel>::empty());
    while i < runs.len()
        invariant
            i <= runs@.len(),
            all == run_views(runs@),
            map == keymap@,
            paste == combo_sequence(map, combo@),
            kit == (TypingKit { shift, shift_mask, paste: paste->Ok_0, delay }),
            run_units(all).len() == len,
            all == map.runs(text@),
            map.modifier_key(Modifier::Shift) == Ok::<u16, Seq<char>>(shift),
            map.combo("ctrl+v"@, map.names.paste) == Ok::<ComboModel, Seq<char>>(combo@),
            plan@ == kit.plan(all.take(i as int)),
            plan.typed_chars + plan.pasted_chars == run_units(all.take(i as int)).len(),
            has_pasted(all.take(i as int)) ==> paste is Ok,
        decreases runs@.len() - i,
    {
        let ghost before = plan@;
        proof {
            assert(all.take(i + 1).drop_last() =~= all.take(i as int));
            assert(all.take(i + 1).last() == all[i as int]);
            assert(all[i as int] == runs@[i as int]@);
            lemma_units_grow(all, i + 1);
        }
        match &runs[i] {
            TextRun::Typed(strokes) => {
                let mut k: usize = 0;
                assert(strokes@.take(0) =~= Seq::<KeyStroke>::empty());
                assert(before.steps + kit.strokes(strokes@.take(0)) =~= before.steps);
                assert(all[i as int].units().len() == strokes@.len());
                while k < strokes.len()
                    invariant
                        k <= strokes@.len(),
                        kit == (TypingKit { shift, shift_mask, paste: paste->Ok_0, delay }),
                        step_views(plan.steps@) == before.steps + kit.strokes(
                            strokes@.take(k as int),
                        ),
                        plan.typed_chars == before.typed + k,
                        plan.pasted_chars == before.pasted,
                        before.typed + before.pasted + strokes@.len() <= len,
                    decreases strokes@.len() - k,
                {
                    assert(strokes@.take(k + 1).drop_last() =~= strokes@.take(k as int));
                    add_stroke(&mut plan.steps, strokes[k], shift, shift_mask, delay);
                    assert(step_views(plan.steps@) =~= before.steps + (kit.strokes(
                        strokes@.take(k as int),
                    ) + kit.stroke(strokes@[k as int])));
                    plan.typed_chars = plan.typed_chars + 1;
                    k = k + 1;
                }
                assert(strokes@.take(k as int) =~= strokes@);
            },
            TextRun::Pasted(chunk) => {
                let chars: usize = chars_of(chunk.as_str()).len();
                assert(all[i as int].units().len() == chars);
                proof {
                    assert(all[i as int] is Pasted);
                    assert(has_pasted(all));
                }
                let pressed = match combo_steps(keymap, &combo) {
                    Ok(pressed) => pressed,
                    Err(error) => {
                        return Err(error);
                    },
                };
                plan.pasted_chars = plan.pasted_chars + chars;
                add_step(&mut plan.steps, Step::Clipboard(chunk.clone()));
                add_steps(&mut plan.steps, pressed);
                add_step(
                    &mut plan.steps,
                    Step::Sleep(Duration::from_millis(PASTE_SETTLE_MS)),
                );
                assert(step_views(plan.steps@) =~= before.steps + kit.run(all[i as int]));
            },
        }
        proof {
            assert(plan@ =~= kit.plan(all.take(i + 1)));
            assert(has_pasted(all.take(i + 1)) ==> paste is Ok) by {
                if has_pasted(all.take(i + 1)) && !(all[i as int] is Pasted) {
                    let k = choose|k: int|
                        0 <= k < all.take(i + 1).len() && #[trigger] all.take(i + 1)[k] is Pasted;
                    assert(all.take(i as int)[k] is Pasted);
                }
            }
        }
        i = i + 1;
    }
    assert(all.take(i as int) =~= all);
    Ok(plan)
}

/// More runs hold more characters.
proof fn lemma_units_grow(runs: Seq<RunModel>, n: int)
    requires
        0 <= n <= runs.len(),
    ensures
        run_units(runs.take(n)).len() <= run_units(runs).len(),
    decreases runs.len() - n,
{
    if n < runs.len() {
        assert(runs.take(n + 1).drop_last() =~= runs.take(n));
        lemma_units_grow(runs, n + 1);
    } else {
        assert(runs.take(n) =~= runs);
    }
}

/// Characters of a text that the layout cannot type.
pub open spec fn untypeable(map: KeyMapModel, text: Seq<CharSym>) -> nat
    decreases text.len(),
{
    if text.len() == 0 {
        0
    } else {
        untypeable(map, text.drop_last()) + if map.stroke_of(text.last()) is None {
            1nat
        } else {
            0
        }
    }
}

/// Every character is typed or pasted, and those are pasted that the layout
/// cannot type.
pub proof fn lemma_typing_counts_every_character(
    map: KeyMapModel,
    text: Seq<CharSym>,
    delay: Duration,
)
    ensures
        typing(map, text, delay) matches Ok(plan) ==> plan.typed + plan.pasted == text.len()
            && plan.pasted == untypeable(map, text),
{
    match typing(map, text, delay) {
        Ok(plan) => {
            let shift = map.modifier_key(Modifier::Shift)->Ok_0;
            let combo = map.combo("ctrl+v"@, map.names.paste)->Ok_0;
            let kit = TypingKit {
                shift,
                shift_mask: map.mask(seq![Modifier::Shift]),
                paste: combo_sequence(map, combo)->Ok_0,
                delay,
            };
            assert(plan == kit.plan(map.runs(text)));
            lemma_plan_counts(kit, map, text);
        },
        Err(_) => {},
    }
}

proof fn lemma_plan_counts(kit: TypingKit, map: KeyMapModel, text: Seq<CharSym>)
    ensures
        kit.plan(map.runs(text)).typed + kit.plan(map.runs(text)).pasted == text.len(),
        kit.plan(map.runs(text)).pasted == untypeable(map, text),
    decreases text.len(),
{
    if text.len() > 0 {
        let rest = text.drop_last();
        lemma_plan_counts(kit, map, rest);
        let before = map.runs(rest);
        let after = map.runs(text);
        match map.stroke_of(text.last()) {
            Some(stroke) => {
                if before.len() > 0 && before.last() is Typed {
                    assert(after.drop_last() =~= before.drop_last());
                    assert(after.last() == RunModel::Typed(before.last()->Typed_0.push(stroke)));
                } else {
                    assert(after.drop_last() =~= before);
                    assert(after.last() == RunModel::Typed(seq![stroke]));
                }
            },
            None => {
                let c = text.last().c;
                if before.len() > 0 && before.last() is Pasted {
                    assert(after.drop_last() =~= before.drop_last());
                    assert(after.last() == RunModel::Pasted(before.last()->Pasted_0.push(c)));
                } else {
                    assert(after.drop_last() =~= before);
                    assert(after.last() == RunModel::Pasted(seq![c]));
                }
            },
        }
    }
}

} // verus!
