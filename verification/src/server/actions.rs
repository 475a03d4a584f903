//! The input tools: which steps they take and what they reply.

use vstd::prelude::*;
use vstd::string::*;

use crate::coords::lemma_linear_accepts_the_screen;
use crate::inject::Button;
use crate::keys::{
    are_distinct_modifiers, combo_words, lemma_accepted_combos, lemma_mask_of_one, modifier_named,
    modifiers_named, CharSym, Modifier, NameSyms,
};
use crate::safety::{lemma_settle_times, settle_duration, settled, Admission, BudgetError};
use crate::text::{chars_of, decimal, digits, push_decimal, push_digits};
use crate::time::Duration;

use super::args::{DragArgs, KeyArgs, Point, PointArgs, ScrollArgs, TypeArgs};
use super::down::{
    lemma_click_leaves_nothing_down, lemma_combo_leaves_nothing_down,
    lemma_drag_leaves_nothing_down, lemma_typing_leaves_nothing_down, nothing_down,
};
use super::effects::{
    clicked, elapsed, holds_only, idle, keys_of, lemma_clicks_come_to, lemma_combo_strikes_its_key,
    lemma_combo_takes_no_time, lemma_drag_comes_to, lemma_text_arrives, lemma_typing_takes,
    only_keyboard, only_pointer, stretches, text_arrives, trail, Passed, Received, Struck,
};
use super::path::{
    all_inside, interpolate_pixels, is_chain, is_exact, is_inside, is_near_polyline,
    lemma_path_goes_straight, lemma_path_stays_inside, lemma_path_steps_are_short,
    lemma_path_visits_all_points, lemma_path_visits_points_in_order,
    lemma_points_of_a_path_on_a_screen, passes_in_order, path_points, step_length,
};
use super::run::{
    button_commands, does_what_is_asked, lemma_commands_do_what_is_asked,
    lemma_the_pointer_does_what_is_asked, move_commands, CommandModel, PhaseModel, RunModel,
};
use super::state::{lemma_only_pixels_of_the_last_screenshot, OperationState, StateModel};
use super::steps::{
    click_steps, clicks, combo_sequence, combo_steps, drag, drag_steps,
    lemma_typing_counts_every_character, step_views, type_steps, typing, untypeable, Step,
    StepModel,
};
use super::{chosen_target, target_or_default, Target};

verus! {

pub const DEFAULT_STEP_PX: u32 = 20;

pub const MAX_STEP_PX: u32 = 500;

pub const DEFAULT_HOLD_MS: u64 = 50;

pub const MAX_HOLD_MS: u64 = 2_000;

pub const DEFAULT_DELAY_MS: u64 = 10;

pub const MAX_DELAY_MS: u64 = 1_000;

/// Most notches of one scroll, in each direction.
pub const MAX_NOTCHES: i32 = 50;

/// Milliseconds between the movement and the wheel of a scroll.
pub const SCROLL_PAUSE_MS: u64 = 20;

/// What an input tool does: perform the steps on the target, let the screen
/// settle, and reply.
#[derive(Debug)]
pub struct Action {
    pub target: Target,
    pub steps: Vec<Step>,
    pub settle: Duration,
    pub reply: String,
}

pub struct ActionModel {
    pub target: Target,
    pub steps: Seq<StepModel>,
    pub settle: Duration,
    pub reply: Seq<char>,
}

impl View for Action {
    type V = ActionModel;

    open spec fn view(&self) -> ActionModel {
        ActionModel {
            target: self.target,
            steps: step_views(self.steps@),
            settle: self.settle,
            reply: self.reply@,
        }
    }
}

/// The names of a pixel of a target, as replies give it.
pub open spec fn place(target: Target, x: i64, y: i64) -> Seq<char> {
    target.text() + " pixel ("@ + decimal(x as int) + ", "@ + decimal(y as int) + ")"@
}

fn push_place(out: &mut String, target: Target, x: i64, y: i64)
    ensures
        final(out)@ == old(out)@ + place(target, x, y),
{
    let ghost before = out@;
    out.append(target.name());
    out.append(" pixel (");
    push_decimal(out, x);
    out.append(", ");
    push_decimal(out, y);
    out.append(")");
    assert(out@ =~= before + place(target, x, y));
}

/// A click at a pixel, `count` times.
pub open spec fn pointer_plan(
    state: StateModel,
    args: PointArgs,
    button: Button,
    count: u32,
    verb: Seq<char>,
) -> Result<ActionModel, Seq<char>> {
    let target = chosen_target(args.target);
    match settled(args.settle_ms) {
        Err(error) => Err(error),
        Ok(settle) => match state.point(target, args.x, args.y) {
            Err(error) => Err(error),
            Ok((x, y)) => Ok(
                ActionModel {
                    target,
                    steps: clicks(x, y, button, count as nat),
                    settle,
                    reply: verb + " at "@ + place(target, args.x, args.y),
                },
            ),
        },
    }
}

pub fn pointer_action(
    state: &OperationState,
    args: &PointArgs,
    button: Button,
    count: u32,
    verb: &str,
) -> (action: Result<Action, String>)
    ensures
        match action {
            Ok(action) => pointer_plan(state@, *args, button, count, verb@) == Ok::<
                ActionModel,
                Seq<char>,
            >(action@),
            Err(error) => pointer_plan(state@, *args, button, count, verb@) == Err::<
                ActionModel,
                Seq<char>,
            >(error@),
        },
{
    let target = target_or_default(args.target);
    let settle = match settle_duration(args.settle_ms) {
        Ok(settle) => settle,
        Err(error) => {
            return Err(error);
        },
    };
    let (x, y) = match state.map_point(target, args.x, args.y) {
        Ok(point) => point,
        Err(error) => {
            return Err(error);
        },
    };
    let mut reply = verb.to_owned();
    reply.append(" at ");
    push_place(&mut reply, target, args.x, args.y);
    Ok(Action { target, steps: click_steps(x, y, button, count), settle, reply })
}

/// A movement to a pixel.
pub open spec fn move_plan(state: StateModel, args: PointArgs) -> Result<ActionModel, Seq<char>> {
    let target = chosen_target(args.target);
    match settled(args.settle_ms) {
        Err(error) => Err(error),
        Ok(settle) => match state.point(target, args.x, args.y) {
            Err(error) => Err(error),
            Ok((x, y)) => Ok(
                ActionModel {
                    target,
                    steps: seq![StepModel::Move(x, y)],
                    settle,
                    reply: "moved pointer to "@ + place(target, args.x, args.y),
                },
            ),
        },
    }
}

pub fn move_action(state: &OperationState, args: &PointArgs) -> (action: Result<Action, String>)
    ensures
        match action {
            Ok(action) => move_plan(state@, *args) == Ok::<ActionModel, Seq<char>>(action@),
            Err(error) => move_plan(state@, *args) == Err::<ActionModel, Seq<char>>(error@),
        },
{
    let target = target_or_default(args.target);
    let settle = match settle_duration(args.settle_ms) {
        Ok(settle) => settle,
        Err(error) => {
            return Err(error);
        },
    };
    let (x, y) = match state.map_point(target, args.x, args.y) {
        Ok(point) => point,
        Err(error) => {
            return Err(error);
        },
    };
    let mut reply = "moved pointer to ".to_owned();
    push_place(&mut reply, target, args.x, args.y);
    let steps: Vec<Step> = vec![Step::Move(x, y)];
    assert(step_views(steps@) =~= seq![StepModel::Move(x, y)]);
    Ok(Action { target, steps, settle, reply })
}

/// A number within bounds.
pub open spec fn clamped(value: int, low: int, high: int) -> int {
    if value < low {
        low
    } else if value > high {
        high
    } else {
        value
    }
}

pub open spec fn notches(asked: Option<i32>) -> i32 {
    match asked {
        Some(notches) => clamped(notches as int, -MAX_NOTCHES as int, MAX_NOTCHES as int) as i32,
        None => 0,
    }
}

fn clamp_notches(asked: Option<i32>) -> (kept: i32)
    ensures
        kept == notches(asked),
        -MAX_NOTCHES <= kept <= MAX_NOTCHES,
{
    match asked {
        Some(notches) => if notches < -MAX_NOTCHES {
            -MAX_NOTCHES
        } else if notches > MAX_NOTCHES {
            MAX_NOTCHES
        } else {
            notches
        },
        None => 0,
    }
}

/// Wheel notches at a pixel.
pub open spec fn scroll_plan(state: StateModel, args: ScrollArgs) -> Result<
    ActionModel,
    Seq<char>,
> {
    let target = chosen_target(args.target);
    let dx = notches(args.dx);
    let dy = notches(args.dy);
    match settled(args.settle_ms) {
        Err(error) => Err(error),
        Ok(settle) => if dx == 0 && dy == 0 {
            Err("dx and dy are both 0; nothing to scroll"@)
        } else {
            match state.point(target, args.x, args.y) {
                Err(error) => Err(error),
                Ok((x, y)) => Ok(
                    ActionModel {
                        target,
                        steps: seq![
                            StepModel::Move(x, y),
                            StepModel::Sleep(Duration::of_millis(SCROLL_PAUSE_MS)),
                            StepModel::Scroll(dx, dy),
                        ],
                        settle,
                        reply: "scrolled dx="@ + decimal(dx as int) + " dy="@ + decimal(dy as int)
                            + " notches at "@ + place(target, args.x, args.y),
                    },
                ),
            }
        },
    }
}

pub fn scroll_action(state: &OperationState, args: &ScrollArgs) -> (action: Result<Action, String>)
    ensures
        match action {
            Ok(action) => scroll_plan(state@, *args) == Ok::<ActionModel, Seq<char>>(action@),
            Err(error) => scroll_plan(state@, *args) == Err::<ActionModel, Seq<char>>(error@),
        },
{
    let target = target_or_default(args.target);
    let settle = match settle_duration(args.settle_ms) {
        Ok(settle) => settle,
        Err(error) => {
            return Err(error);
        },
    };
    let dx: i32 = clamp_notches(args.dx);
    let dy: i32 = clamp_notches(args.dy);
    if dx == 0 && dy == 0 {
        return Err("dx and dy are both 0; nothing to scroll".to_owned());
    }
    let (x, y) = match state.map_point(target, args.x, args.y) {
        Ok(point) => point,
        Err(error) => {
            return Err(error);
        },
    };
    let steps: Vec<Step> = vec![
        Step::Move(x, y),
        Step::Sleep(Duration::from_millis(SCROLL_PAUSE_MS)),
        Step::Scroll(dx, dy),
    ];
    assert(step_views(steps@) =~= seq![
        StepModel::Move(x, y),
        StepModel::Sleep(Duration::of_millis(SCROLL_PAUSE_MS)),
        StepModel::Scroll(dx, dy),
    ]);
    let mut reply = "scrolled dx=".to_owned();
    push_decimal(&mut reply, dx as i64);
    reply.append(" dy=");
    push_decimal(&mut reply, dy as i64);
    reply.append(" notches at ");
    push_place(&mut reply, target, args.x, args.y);
    Ok(Action { target, steps, settle, reply })
}

/// The corners of a drag: its start, the waypoints in order, its end.
pub open spec fn drag_corners(args: DragArgs) -> Seq<(i64, i64)> {
    seq![(args.from.x, args.from.y)] + args.waypoints@.map_values(
        |point: Point| (point.x, point.y),
    ) + seq![(args.to.x, args.to.y)]
}

pub open spec fn drag_step_px(args: DragArgs) -> u32 {
    match args.step_px {
        Some(step) => clamped(step as int, 1, MAX_STEP_PX as int) as u32,
        None => DEFAULT_STEP_PX,
    }
}

/// Milliseconds asked for, up to a limit.
pub open spec fn limited_millis(asked: Option<u64>, default: u64, limit: u64) -> u64 {
    match asked {
        Some(millis) => if millis > limit {
            limit
        } else {
            millis
        },
        None => default,
    }
}

fn limit_millis(asked: Option<u64>, default: u64, limit: u64) -> (millis: u64)
    ensures
        millis == limited_millis(asked, default, limit),
{
    match asked {
        Some(millis) => if millis > limit {
            limit
        } else {
            millis
        },
        None => default,
    }
}

/// Device coordinates of several pixels, or the error of the first that has
/// none.
pub open spec fn device_path(state: StateModel, target: Target, pixels: Seq<(i64, i64)>) -> Result<
    Seq<(u32, u32)>,
    Seq<char>,
>
    decreases pixels.len(),
{
    if pixels.len() == 0 {
        Ok(Seq::empty())
    } else {
        match device_path(state, target, pixels.drop_last()) {
            Err(error) => Err(error),
            Ok(path) => match state.point(target, pixels.last().0, pixels.last().1) {
                Err(error) => Err(error),
                Ok(point) => Ok(path.push(point)),
            },
        }
    }
}

proof fn lemma_bad_pixel_persists(
    state: StateModel,
    target: Target,
    pixels: Seq<(i64, i64)>,
    n: int,
)
    requires
        0 <= n <= pixels.len(),
        device_path(state, target, pixels.take(n)) is Err,
    ensures
        device_path(state, target, pixels) == device_path(state, target, pixels.take(n)),
    decreases pixels.len() - n,
{
    if n < pixels.len() {
        assert(pixels.take(n + 1).drop_last() =~= pixels.take(n));
        lemma_bad_pixel_persists(state, target, pixels, n + 1);
    } else {
        assert(pixels.take(n) =~= pixels);
    }
}

fn map_path(state: &OperationState, target: Target, pixels: &[(i64, i64)]) -> (path: Result<
    Vec<(u32, u32)>,
    String,
>)
    ensures
        match path {
            Ok(path) => device_path(state@, target, pixels@) == Ok::<Seq<(u32, u32)>, Seq<char>>(
                path@,
            ),
            Err(error) => device_path(state@, target, pixels@) == Err::<
                Seq<(u32, u32)>,
                Seq<char>,
            >(error@),
        },
{
    let mut path: Vec<(u32, u32)> = Vec::new();
    let mut i: usize = 0;
    assert(pixels@.take(0) =~= Seq::<(i64, i64)>::empty());
    assert(path@ =~= Seq::<(u32, u32)>::empty());
    while i < pixels.len()
        invariant
            i <= pixels@.len(),
            device_path(state@, target, pixels@.take(i as int)) == Ok::<
                Seq<(u32, u32)>,
                Seq<char>,
            >(path@),
        decreases pixels@.len() - i,
    {
        assert(pixels@.take(i + 1).drop_last() =~= pixels@.take(i as int));
        assert(pixels@.take(i + 1).last() == pixels@[i as int]);
        match state.map_point(target, pixels[i].0, pixels[i].1) {
            Ok(point) => {
                path.push(point);
            },
            Err(error) => {
                proof {
                    lemma_bad_pixel_persists(state@, target, pixels@, i + 1);
                }
                return Err(error);
            },
        }
        i = i + 1;
    }
    assert(pixels@.take(i as int) =~= pixels@);
    Ok(path)
}

pub open spec fn drag_reply(target: Target, args: DragArgs) -> Seq<char> {
    "dragged on "@ + target.text() + " from ("@ + decimal(args.from.x as int) + ", "@ + decimal(
        args.from.y as int,
    ) + ") to ("@ + decimal(args.to.x as int) + ", "@ + decimal(args.to.y as int) + ") through "@
        + digits(args.waypoints@.len()) + " waypoint(s)"@
}

/// A drag through screenshot pixels.
pub open spec fn drag_plan(state: StateModel, args: DragArgs) -> Result<ActionModel, Seq<char>> {
    let target = chosen_target(args.target);
    match settled(args.settle_ms) {
        Err(error) => Err(error),
        Ok(settle) => match device_path(
            state,
            target,
            path_points(drag_corners(args), drag_step_px(args)),
        ) {
            Err(error) => Err(error),
            Ok(path) => Ok(
                ActionModel {
                    target,
                    steps: drag(
                        path,
                        Duration::of_millis(
                            limited_millis(args.hold_ms, DEFAULT_HOLD_MS, MAX_HOLD_MS),
                        ),
                    ),
                    settle,
                    reply: drag_reply(target, args),
                },
            ),
        },
    }
}

pub fn drag_action(state: &OperationState, args: &DragArgs) -> (action: Result<Action, String>)
    ensures
        match action {
            Ok(action) => drag_plan(state@, *args) == Ok::<ActionModel, Seq<char>>(action@),
            Err(error) => drag_plan(state@, *args) == Err::<ActionModel, Seq<char>>(error@),
        },
{
    let target = target_or_default(args.target);
    let settle = match settle_duration(args.settle_ms) {
        Ok(settle) => settle,
        Err(error) => {
            return Err(error);
        },
    };
    let step_px: u32 = match args.step_px {
        Some(step) => if step < 1 {
            1
        } else if step > MAX_STEP_PX {
            MAX_STEP_PX
        } else {
            step
        },
        None => DEFAULT_STEP_PX,
    };
    let hold = Duration::from_millis(limit_millis(args.hold_ms, DEFAULT_HOLD_MS, MAX_HOLD_MS));
    let ghost between = args.waypoints@.map_values(|point: Point| (point.x, point.y));
    let mut corners: Vec<(i64, i64)> = Vec::new();
    corners.push((args.from.x, args.from.y));
    let ghost opening = corners@;
    let mut i: usize = 0;
    assert(corners@ =~= opening + between.take(0));
    while i < args.waypoints.len()
        invariant
            i <= args.waypoints@.len(),
            between == args.waypoints@.map_values(|point: Point| (point.x, point.y)),
            corners@ == opening + between.take(i as int),
        decreases args.waypoints@.len() - i,
    {
        corners.push((args.waypoints[i].x, args.waypoints[i].y));
        assert(corners@ =~= opening + between.take(i + 1));
        i = i + 1;
    }
    corners.push((args.to.x, args.to.y));
    assert(between.take(i as int) =~= between);
    assert(corners@ =~= drag_corners(*args));
    let pixels = interpolate_pixels(&corners, step_px);
    let path = match map_path(state, target, &pixels) {
        Ok(path) => path,
        Err(error) => {
            return Err(error);
        },
    };
    let mut reply = "dragged on ".to_owned();
    reply.append(target.name());
    reply.append(" from (");
    push_decimal(&mut reply, args.from.x);
    reply.append(", ");
    push_decimal(&mut reply, args.from.y);
    reply.append(") to (");
    push_decimal(&mut reply, args.to.x);
    reply.append(", ");
    push_decimal(&mut reply, args.to.y);
    reply.append(") through ");
    push_digits(&mut reply, args.waypoints.len() as u128);
    reply.append(" waypoint(s)");
    Ok(Action { target, steps: drag_steps(&path, hold), settle, reply })
}

/// A key combination, with the keysyms of its key name.
pub open spec fn key_plan(state: StateModel, args: KeyArgs, syms: NameSyms) -> Result<
    ActionModel,
    Seq<char>,
> {
    let target = chosen_target(args.target);
    match settled(args.settle_ms) {
        Err(error) => Err(error),
        Ok(settle) => match state.keymap.combo(args.combo@, syms) {
            Err(error) => Err(error),
            Ok(combo) => match combo_sequence(state.keymap, combo) {
                Err(error) => Err(error),
                Ok(steps) => Ok(
                    ActionModel {
                        target,
                        steps,
                        settle,
                        reply: "pressed "@ + args.combo@ + " on "@ + target.text(),
                    },
                ),
            },
        },
    }
}

pub fn key_action(state: &OperationState, args: &KeyArgs, syms: NameSyms) -> (action: Result<
    Action,
    String,
>)
    ensures
        match action {
            Ok(action) => key_plan(state@, *args, syms) == Ok::<ActionModel, Seq<char>>(action@),
            Err(error) => key_plan(state@, *args, syms) == Err::<ActionModel, Seq<char>>(error@),
        },
{
    let target = target_or_default(args.target);
    let settle = match settle_duration(args.settle_ms) {
        Ok(settle) => settle,
        Err(error) => {
            return Err(error);
        },
    };
    let combo = match state.keymap.parse_combo(args.combo.as_str(), syms) {
        Ok(combo) => combo,
        Err(error) => {
            return Err(error);
        },
    };
    let steps = match combo_steps(&state.keymap, &combo) {
        Ok(steps) => steps,
        Err(error) => {
            return Err(error);
        },
    };
    let mut reply = "pressed ".to_owned();
    reply.append(args.combo.as_str());
    reply.append(" on ");
    reply.append(target.name());
    Ok(Action { target, steps, settle, reply })
}

/// The keysyms are those of the characters of a text.
pub open spec fn spells_out(syms: Seq<CharSym>, text: Seq<char>) -> bool {
    syms.len() == text.len() && forall|i: int|
        0 <= i < text.len() ==> (#[trigger] syms[i]).c == text[i]
}

pub open spec fn typed_reply(target: Target, typed: nat, pasted: nat) -> Seq<char> {
    let start = "typed "@ + digits(typed) + " character(s) on "@ + target.text();
    if pasted > 0 {
        start + "; "@ + digits(pasted)
            + " character(s) not on the US layout were pasted through the clipboard with ctrl+v"@
    } else {
        start
    }
}

fn do_spell_out(syms: &[CharSym], text: &str) -> (answer: bool)
    ensures
        answer == spells_out(syms@, text@),
{
    let chars: Vec<char> = chars_of(text);
    if syms.len() != chars.len() {
        return false;
    }
    let mut i: usize = 0;
    while i < syms.len()
        invariant
            i <= syms@.len(),
            chars@ == text@,
            syms@.len() == text@.len(),
            forall|j: int| 0 <= j < i ==> (#[trigger] syms@[j]).c == text@[j],
        decreases syms@.len() - i,
    {
        if syms[i].c != chars[i] {
            assert(syms@[i as int].c != text@[i as int]);
            return false;
        }
        i = i + 1;
    }
    true
}

/// Typing a text, with the keysyms of its characters. A list that belongs to
/// another text is refused.
pub open spec fn type_plan(state: StateModel, args: TypeArgs, syms: Seq<CharSym>) -> Result<
    ActionModel,
    Seq<char>,
> {
    let target = chosen_target(args.target);
    let delay = Duration::of_millis(limited_millis(args.delay_ms, DEFAULT_DELAY_MS, MAX_DELAY_MS));
    match settled(args.settle_ms) {
        Err(error) => Err(error),
        Ok(settle) => if args.text@.len() == 0 {
            Err("text is empty"@)
        } else if !spells_out(syms, args.text@) {
            Err("the keysyms are not those of the text"@)
        } else {
            match typing(state.keymap, syms, delay) {
                Err(error) => Err(error),
                Ok(plan) => Ok(
                    ActionModel {
                        target,
                        steps: plan.steps,
                        settle,
                        reply: typed_reply(target, plan.typed, plan.pasted),
                    },
                ),
            }
        },
    }
}

pub fn type_action(state: &OperationState, args: &TypeArgs, syms: &[CharSym]) -> (action: Result<
    Action,
    String,
>)
    ensures
        match action {
            Ok(action) => type_plan(state@, *args, syms@) == Ok::<ActionModel, Seq<char>>(action@),
            Err(error) => type_plan(state@, *args, syms@) == Err::<ActionModel, Seq<char>>(error@),
        },
{
    let target = target_or_default(args.target);
    let settle = match settle_duration(args.settle_ms) {
        Ok(settle) => settle,
        Err(error) => {
            return Err(error);
        },
    };
    let delay = Duration::from_millis(limit_millis(args.delay_ms, DEFAULT_DELAY_MS, MAX_DELAY_MS));
    if chars_of(args.text.as_str()).len() == 0 {
        return Err("text is empty".to_owned());
    }
    if !do_spell_out(syms, args.text.as_str()) {
        return Err("the keysyms are not those of the text".to_owned());
    }
    let plan = match type_steps(&state.keymap, syms, delay) {
        Ok(plan) => plan,
        Err(error) => {
            return Err(error);
        },
    };
    let mut reply = "typed ".to_owned();
    push_digits(&mut reply, plan.typed_chars as u128);
    reply.append(" character(s) on ");
    reply.append(target.name());
    if plan.pasted_chars > 0 {
        reply.append("; ");
        push_digits(&mut reply, plan.pasted_chars as u128);
        reply.append(
            " character(s) not on the US layout were pasted through the clipboard with ctrl+v",
        );
    }
    Ok(Action { target, steps: plan.steps, settle, reply })
}

/// Every button and key that an input tool presses it releases again, and it
/// takes back the modifiers that it announces.
pub proof fn lemma_actions_leave_nothing_down(
    state: StateModel,
    point: PointArgs,
    button: Button,
    count: u32,
    verb: Seq<char>,
    drag: DragArgs,
    scroll: ScrollArgs,
    key: KeyArgs,
    name: NameSyms,
    text: TypeArgs,
    syms: Seq<CharSym>,
)
    ensures
        pointer_plan(state, point, button, count, verb) matches Ok(action)
            ==> nothing_down().after(action.steps) == nothing_down(),
        move_plan(state, point) matches Ok(action) ==> nothing_down().after(action.steps)
            == nothing_down(),
        drag_plan(state, drag) matches Ok(action) ==> nothing_down().after(action.steps)
            == nothing_down(),
        scroll_plan(state, scroll) matches Ok(action) ==> nothing_down().after(action.steps)
            == nothing_down(),
        key_plan(state, key, name) matches Ok(action) ==> nothing_down().after(action.steps)
            == nothing_down(),
        type_plan(state, text, syms) matches Ok(action) ==> nothing_down().after(action.steps)
            == nothing_down(),
{
    if let Ok((x, y)) = state.point(chosen_target(point.target), point.x, point.y) {
        lemma_click_leaves_nothing_down(x, y, button, count as nat);
        nothing_down().lemma_after_one(StepModel::Move(x, y));
    }
    if let Ok((x, y)) = state.point(chosen_target(scroll.target), scroll.x, scroll.y) {
        let moved = StepModel::Move(x, y);
        let paused = StepModel::Sleep(Duration::of_millis(SCROLL_PAUSE_MS));
        let scrolled = StepModel::Scroll(notches(scroll.dx), notches(scroll.dy));
        nothing_down().lemma_after_two(moved, paused);
        nothing_down().lemma_after_one(scrolled);
        nothing_down().lemma_after_both(seq![moved, paused], seq![scrolled]);
        assert(seq![moved, paused, scrolled] =~= seq![moved, paused] + seq![scrolled]);
    }
    if let Ok(path) = device_path(
        state,
        chosen_target(drag.target),
        path_points(drag_corners(drag), drag_step_px(drag)),
    ) {
        lemma_drag_leaves_nothing_down(
            path,
            Duration::of_millis(limited_millis(drag.hold_ms, DEFAULT_HOLD_MS, MAX_HOLD_MS)),
        );
    }
    if let Ok(combo) = state.keymap.combo(key.combo@, name) {
        lemma_combo_leaves_nothing_down(state.keymap, combo);
    }
    lemma_typing_leaves_nothing_down(
        state.keymap,
        syms,
        Duration::of_millis(limited_millis(text.delay_ms, DEFAULT_DELAY_MS, MAX_DELAY_MS)),
    );
}

proof fn lemma_device_path(state: StateModel, target: Target, pixels: Seq<(i64, i64)>)
    requires
        device_path(state, target, pixels) is Ok,
    ensures
        ({
            let path = device_path(state, target, pixels)->Ok_0;
            path.len() == pixels.len() && forall|i: int|
                0 <= i < pixels.len() ==> state.point(target, (#[trigger] pixels[i]).0, pixels[i].1)
                    == Ok::<(u32, u32), Seq<char>>(path[i])
        }),
    decreases pixels.len(),
{
    if pixels.len() > 0 {
        let rest = pixels.drop_last();
        lemma_device_path(state, target, rest);
        let path = device_path(state, target, pixels)->Ok_0;
        let before = device_path(state, target, rest)->Ok_0;
        assert forall|i: int| 0 <= i < pixels.len() implies state.point(
            target,
            (#[trigger] pixels[i]).0,
            pixels[i].1,
        ) == Ok::<(u32, u32), Seq<char>>(path[i]) by {
            if i < rest.len() {
                assert(rest[i] == pixels[i]);
                assert(path[i] == before[i]);
            }
        }
    }
}

/// A drag presses the button where it was told to start, passes through every
/// waypoint and releases the button where it was told to end.
pub proof fn lemma_drag_visits_what_it_was_told(state: StateModel, args: DragArgs)
    ensures
        drag_plan(state, args) matches Ok(action) ==> exists|path: Seq<(u32, u32)>|
            {
                &&& action.steps == #[trigger] drag(
                    path,
                    Duration::of_millis(limited_millis(args.hold_ms, DEFAULT_HOLD_MS, MAX_HOLD_MS)),
                )
                &&& path.len() >= 2
                &&& state.point(action.target, args.from.x, args.from.y) == Ok::<
                    (u32, u32),
                    Seq<char>,
                >(path.first())
                &&& state.point(action.target, args.to.x, args.to.y) == Ok::<(u32, u32), Seq<char>>(
                    path.last(),
                )
                &&& forall|i: int|
                    0 <= i < args.waypoints@.len() ==> (state.point(
                        action.target,
                        (#[trigger] args.waypoints@[i]).x,
                        args.waypoints@[i].y,
                    ) matches Ok(point) && path.contains(point))
            },
{
    let target = chosen_target(args.target);
    let corners = drag_corners(args);
    let pixels = path_points(corners, drag_step_px(args));
    if let Ok(action) = drag_plan(state, args) {
        let path = device_path(state, target, pixels)->Ok_0;
        lemma_device_path(state, target, pixels);
        assert(all_inside(pixels, (0, 0), (0xffff_ffff, 0xffff_ffff))) by {
            assert forall|i: int| 0 <= i < pixels.len() implies is_inside(
                #[trigger] pixels[i],
                (0, 0),
                (0xffff_ffff, 0xffff_ffff),
            ) by {
                lemma_only_pixels_of_the_last_screenshot(
                    state,
                    target,
                    pixels[i].0,
                    pixels[i].1,
                );
                assert(state.point(target, pixels[i].0, pixels[i].1) is Ok);
            }
        }
        lemma_points_of_a_path_on_a_screen(corners, drag_step_px(args));
        lemma_path_visits_all_points(corners, drag_step_px(args));
        assert(corners[0] == (args.from.x, args.from.y));
        assert(corners[corners.len() - 1] == (args.to.x, args.to.y));
        assert(pixels[0] == corners[0]);
        assert(pixels[pixels.len() - 1] == corners.last());
        assert forall|i: int| 0 <= i < args.waypoints@.len() implies (state.point(
            action.target,
            (#[trigger] args.waypoints@[i]).x,
            args.waypoints@[i].y,
        ) matches Ok(point) && path.contains(point)) by {
            let corner = (args.waypoints@[i].x, args.waypoints@[i].y);
            assert(corners[i + 1] == corner);
            assert(pixels.contains(corners[i + 1]));
            let k = choose|k: int| 0 <= k < pixels.len() && pixels[k] == corner;
            assert(path[k] == state.point(target, pixels[k].0, pixels[k].1)->Ok_0);
            assert(path.contains(path[k]));
        }
        assert(action.steps == drag(
            path,
            Duration::of_millis(limited_millis(args.hold_ms, DEFAULT_HOLD_MS, MAX_HOLD_MS)),
        ));
    }
}

proof fn lemma_device_path_of_good_pixels(
    state: StateModel,
    target: Target,
    pixels: Seq<(i64, i64)>,
)
    requires
        forall|i: int|
            0 <= i < pixels.len() ==> state.point(target, (#[trigger] pixels[i]).0, pixels[i].1) is Ok,
    ensures
        device_path(state, target, pixels) is Ok,
    decreases pixels.len(),
{
    if pixels.len() > 0 {
        let rest = pixels.drop_last();
        assert forall|i: int| 0 <= i < rest.len() implies state.point(
            target,
            (#[trigger] rest[i]).0,
            rest[i].1,
        ) is Ok by {
            assert(state.point(target, pixels[i].0, pixels[i].1) is Ok);
        }
        lemma_device_path_of_good_pixels(state, target, rest);
        assert(pixels.last() == pixels[pixels.len() - 1]);
    }
}

/// A drag between pixels of the last screenshot never leaves it: it is
/// accepted in the sandbox, and on a desktop that was not measured otherwise.
pub proof fn lemma_drag_stays_on_the_screenshot(state: StateModel, args: DragArgs)
    requires
        settled(args.settle_ms) is Ok,
        ({
            let target = chosen_target(args.target);
            state.screen(target) matches Ok(size) && (target == Target::Sandbox
                || !state.is_calibrated(size)) && forall|i: int|
                0 <= i < drag_corners(args).len() ==> 0 <= (#[trigger] drag_corners(args)[i]).0
                    < size.width && 0 <= drag_corners(args)[i].1 < size.height
        }),
    ensures
        drag_plan(state, args) is Ok,
{
    let target = chosen_target(args.target);
    let size = state.screen(target)->Ok_0;
    let corners = drag_corners(args);
    let pixels = path_points(corners, drag_step_px(args));
    let low = (0i64, 0i64);
    let high = ((size.width - 1) as i64, (size.height - 1) as i64);
    assert forall|i: int| 0 <= i < corners.len() implies is_exact(#[trigger] corners[i]) by {}
    lemma_path_stays_inside(corners, drag_step_px(args), low, high);
    assert forall|i: int| 0 <= i < pixels.len() implies state.point(
        target,
        (#[trigger] pixels[i]).0,
        pixels[i].1,
    ) is Ok by {
        assert(is_inside(pixels[i], low, high));
        lemma_linear_accepts_the_screen(pixels[i].0, pixels[i].1, size.width, size.height);
    }
    lemma_device_path_of_good_pixels(state, target, pixels);
}

/// The points that a drag was told, in the order in which it is to pass
/// through them: its start, the waypoints, its end.
pub open spec fn told(args: DragArgs, i: int) -> Point {
    if i == 0 {
        args.from
    } else if i <= args.waypoints@.len() {
        args.waypoints@[i - 1]
    } else {
        args.to
    }
}

/// A drag passes through the points that it was told in their order: there are
/// movements, each later than the one before, the first of them the first of
/// all and the last the last of all, that go to where the device has the start,
/// each waypoint and the end. The left button is up at the first movement, goes
/// down then, is down at every other and comes up after the last. Nothing else
/// is pressed.
pub proof fn lemma_drag_goes_in_order(state: StateModel, args: DragArgs)
    ensures
        drag_plan(state, args) matches Ok(action) ==> {
            let way = trail(action.steps);
            &&& exists|places: Seq<int>|
                {
                    &&& places.len() == args.waypoints@.len() + 2
                    &&& #[trigger] places.first() == 0
                    &&& places.last() == way.len() - 1
                    &&& forall|i: int, j: int|
                        0 <= i < j < places.len() ==> #[trigger] places[i] < #[trigger] places[j]
                    &&& forall|i: int|
                        0 <= i < places.len() ==> 0 <= #[trigger] places[i] < way.len()
                            && state.point(
                            chosen_target(args.target),
                            told(args, i).x,
                            told(args, i).y,
                        ) == Ok::<(u32, u32), Seq<char>>(way[places[i]].at)
                }
            &&& way[0].down == nothing_down()
            &&& forall|i: int|
                0 < i < way.len() ==> (#[trigger] way[i]).down.buttons == set![Button::Left]
                    && way[i].down.keys == Set::<u16>::empty()
            &&& clicked(action.steps).len() == 2
            &&& clicked(action.steps)[0].button == Button::Left && clicked(action.steps)[0].pressed
            &&& clicked(action.steps)[1].button == Button::Left && !clicked(
                action.steps,
            )[1].pressed
            &&& only_pointer(action.steps)
        },
{
    let target = chosen_target(args.target);
    let corners = drag_corners(args);
    let pixels = path_points(corners, drag_step_px(args));
    if let Ok(action) = drag_plan(state, args) {
        let path = device_path(state, target, pixels)->Ok_0;
        lemma_device_path(state, target, pixels);
        assert(all_inside(pixels, (0, 0), (0xffff_ffff, 0xffff_ffff))) by {
            assert forall|i: int| 0 <= i < pixels.len() implies is_inside(
                #[trigger] pixels[i],
                (0, 0),
                (0xffff_ffff, 0xffff_ffff),
            ) by {
                lemma_only_pixels_of_the_last_screenshot(state, target, pixels[i].0, pixels[i].1);
                assert(state.point(target, pixels[i].0, pixels[i].1) is Ok);
            }
        }
        lemma_points_of_a_path_on_a_screen(corners, drag_step_px(args));
        lemma_path_visits_points_in_order(corners, drag_step_px(args));
        let places = choose|places: Seq<int>| passes_in_order(pixels, corners, places);
        lemma_drag_comes_to(
            path,
            Duration::of_millis(limited_millis(args.hold_ms, DEFAULT_HOLD_MS, MAX_HOLD_MS)),
        );
        let way = trail(action.steps);
        assert(places.first() == 0);
        assert forall|i: int| 0 <= i < places.len() implies 0 <= #[trigger] places[i] < way.len()
            && state.point(target, told(args, i).x, told(args, i).y) == Ok::<
            (u32, u32),
            Seq<char>,
        >(way[places[i]].at) by {
            let point = told(args, i);
            assert(corners[i] == (point.x, point.y));
            assert(pixels[places[i]] == corners[i]);
            assert(way[places[i]].at == path[places[i]]);
        }
    }
}

/// A drag rests for as long as it is told to hold, which is 50 ms where it is
/// told nothing and never more than 2 s, before it presses the button, before
/// it moves on and before it releases, and for 10 ms after each movement but
/// the first.
pub proof fn lemma_drag_takes_its_time(state: StateModel, args: DragArgs)
    ensures
        drag_plan(state, args) matches Ok(action) ==> {
            let hold = 1_000_000 * match args.hold_ms {
                None => 50,
                Some(asked) => if asked < 2_000 {
                    asked as int
                } else {
                    2_000
                },
            };
            let way = trail(action.steps);
            let done = clicked(action.steps);
            &&& way[0].time == 0
            &&& done[0].time == hold
            &&& forall|i: int|
                0 < i < way.len() ==> (#[trigger] way[i]).time == 2 * hold + (i - 1) * 10_000_000
            &&& done[1].time == 3 * hold + (way.len() - 1) * 10_000_000
            &&& elapsed(action.steps) == done[1].time
        },
{
    lemma_drag_goes_in_order(state, args);
    if let Ok(action) = drag_plan(state, args) {
        let target = chosen_target(args.target);
        let pixels = path_points(drag_corners(args), drag_step_px(args));
        let path = device_path(state, target, pixels)->Ok_0;
        lemma_drag_visits_what_it_was_told(state, args);
        lemma_drag_comes_to(
            path,
            Duration::of_millis(limited_millis(args.hold_ms, DEFAULT_HOLD_MS, MAX_HOLD_MS)),
        );
    }
}

/// The run of an action that has not asked the budget yet.
pub open spec fn fresh_run(action: ActionModel) -> RunModel {
    RunModel {
        target: action.target,
        steps: action.steps,
        next: 0,
        phase: PhaseModel::Asking,
    }
}

/// Nothing comes between: the budget grants the action at the first of these
/// times, there is a time for each of its commands, and its target has an input
/// device.
pub open spec fn is_undisturbed(
    action: ActionModel,
    state: StateModel,
    times: Seq<Duration>,
) -> bool {
    &&& times.len() == action.steps.len() + 1
    &&& state.budget.answer(times.first()) == Ok::<Admission, BudgetError>(Admission::Granted)
    &&& state.has_injector(action.target)
}

/// A click that nothing disturbs sends the pointer of the target to where the
/// device has the pixel, and then presses and releases the button that was
/// asked for, as many times as was asked.
pub proof fn lemma_click_does_what_is_asked(
    state: StateModel,
    args: PointArgs,
    button: Button,
    count: u32,
    verb: Seq<char>,
    later: StateModel,
    times: Seq<Duration>,
)
    ensures
        pointer_plan(state, args, button, count, verb) matches Ok(action) ==> {
            &&& action.target == chosen_target(args.target)
            &&& only_pointer(action.steps)
            &&& is_undisturbed(action, later, times) ==> {
                let commands = fresh_run(action).undisturbed(later, times);
                let used = button_commands(commands);
                &&& used.len() == 2 * count
                &&& forall|i: int|
                    0 <= i < used.len() ==> (#[trigger] used[i]).0 == button && (used[i].1 <==> i
                        % 2 == 0)
                &&& move_commands(commands).len() == 1
                &&& state.point(chosen_target(args.target), args.x, args.y) == Ok::<
                    (u32, u32),
                    Seq<char>,
                >(move_commands(commands)[0])
                &&& commands[0] is Move
            }
        },
{
    if let Ok(action) = pointer_plan(state, args, button, count, verb) {
        let (x, y) = state.point(chosen_target(args.target), args.x, args.y)->Ok_0;
        lemma_clicks_come_to(x, y, button, count as nat);
        if is_undisturbed(action, later, times) {
            let run = fresh_run(action);
            lemma_the_pointer_does_what_is_asked(run, later, times);
            lemma_commands_do_what_is_asked(run, later, times);
            let done = clicked(run.steps);
            let used = button_commands(run.undisturbed(later, times));
            assert forall|i: int| 0 <= i < used.len() implies (#[trigger] used[i]).0 == button && (
            used[i].1 <==> i % 2 == 0) by {
                assert(done[i].button == button);
            }
            assert(trail(run.steps)[0].at == (x, y));
            assert(run.steps[0] == StepModel::Move(x, y));
            assert(run.undisturbed(later, times)[0] is Move);
        }
    }
}

/// The pauses between the clicks of a multiple click are 60 ms each, and there
/// are no others.
pub proof fn lemma_clicks_are_spaced(
    state: StateModel,
    args: PointArgs,
    button: Button,
    count: u32,
    verb: Seq<char>,
)
    ensures
        pointer_plan(state, args, button, count, verb) matches Ok(action) ==> {
            let done = clicked(action.steps);
            &&& done.len() == 2 * count
            &&& forall|i: int|
                0 <= i < count ==> #[trigger] done[2 * i].time == i * 60_000_000 && done[2 * i
                    + 1].time == i * 60_000_000
            &&& count > 0 ==> elapsed(action.steps) == (count - 1) * 60_000_000
            &&& trail(action.steps).len() == 1 && trail(action.steps)[0].time == 0
        },
{
    if let Ok(action) = pointer_plan(state, args, button, count, verb) {
        let (x, y) = state.point(chosen_target(args.target), args.x, args.y)->Ok_0;
        lemma_clicks_come_to(x, y, button, count as nat);
        let done = clicked(action.steps);
        assert forall|i: int| 0 <= i < count implies #[trigger] done[2 * i].time == i * 60_000_000
            && done[2 * i + 1].time == i * 60_000_000 by {
            assert((2 * i) / 2 == i && (2 * i + 1) / 2 == i);
        }
    }
}

/// A movement that nothing disturbs sends the pointer of the target to where
/// the device has the pixel, and does nothing else.
pub proof fn lemma_move_does_what_is_asked(
    state: StateModel,
    args: PointArgs,
    later: StateModel,
    times: Seq<Duration>,
)
    ensures
        move_plan(state, args) matches Ok(action) ==> {
            &&& action.target == chosen_target(args.target)
            &&& is_undisturbed(action, later, times) ==> {
                let commands = fresh_run(action).undisturbed(later, times);
                &&& commands.len() == 2
                &&& commands[0] matches CommandModel::Move(x, y) && state.point(
                    chosen_target(args.target),
                    args.x,
                    args.y,
                ) == Ok::<(u32, u32), Seq<char>>((x, y))
                &&& commands[1] == CommandModel::Finished(Ok(()))
            }
        },
{
    if let Ok(action) = move_plan(state, args) {
        if is_undisturbed(action, later, times) {
            lemma_commands_do_what_is_asked(fresh_run(action), later, times);
            assert(does_what_is_asked(
                later,
                action.target,
                action.steps[0],
                fresh_run(action).undisturbed(later, times)[0],
            ));
        }
    }
}

/// A scroll that nothing disturbs sends the pointer of the target to where the
/// device has the pixel, waits 20 ms and turns the wheel once. It turns by what
/// was asked, up to 50 notches either way, and not at all where nothing was
/// asked: across as asked, and down as asked, which the wheel of the desktop
/// counts the other way round.
pub proof fn lemma_scroll_does_what_is_asked(
    state: StateModel,
    args: ScrollArgs,
    later: StateModel,
    times: Seq<Duration>,
)
    ensures
        scroll_plan(state, args) matches Ok(action) ==> {
            &&& action.target == chosen_target(args.target)
            &&& is_undisturbed(action, later, times) ==> {
                let commands = fresh_run(action).undisturbed(later, times);
                &&& commands.len() == 4
                &&& commands[0] matches CommandModel::Move(x, y) && state.point(
                    chosen_target(args.target),
                    args.x,
                    args.y,
                ) == Ok::<(u32, u32), Seq<char>>((x, y))
                &&& commands[1] matches CommandModel::Wait(span) && span.nanos == 20_000_000
                &&& commands[2] matches CommandModel::Scroll(across, turned) && {
                    let down = if chosen_target(args.target) == Target::Desktop {
                        -turned
                    } else {
                        turned as int
                    };
                    &&& -50 <= across <= 50 && -50 <= down <= 50
                    &&& match args.dx {
                        None => across == 0,
                        Some(dx) => (-50 <= dx <= 50 ==> across == dx) && (dx > 50 ==> across
                            == 50) && (dx < -50 ==> across == -50),
                    }
                    &&& match args.dy {
                        None => down == 0,
                        Some(dy) => (-50 <= dy <= 50 ==> down == dy) && (dy > 50 ==> down == 50)
                            && (dy < -50 ==> down == -50),
                    }
                }
                &&& commands[3] == CommandModel::Finished(Ok(()))
            }
        },
{
    if let Ok(action) = scroll_plan(state, args) {
        if is_undisturbed(action, later, times) {
            let run = fresh_run(action);
            let commands = run.undisturbed(later, times);
            lemma_commands_do_what_is_asked(run, later, times);
            assert(Duration::of_millis(SCROLL_PAUSE_MS).nanos == 20_000_000);
            assert(does_what_is_asked(later, action.target, run.steps[0], commands[0]));
            assert(does_what_is_asked(later, action.target, run.steps[1], commands[1]));
            assert(does_what_is_asked(later, action.target, run.steps[2], commands[2]));
        }
    }
}

/// A key combination strikes one key, once: the one that the combination
/// names, with the keys of the modifiers before it down and no others, and
/// with their mask announced. A modifier on its own is struck itself, with
/// nothing down. Nothing is left down, and nothing else happens.
pub proof fn lemma_key_does_what_is_asked(
    state: StateModel,
    args: KeyArgs,
    syms: NameSyms,
    paste: Struck,
)
    ensures
        key_plan(state, args, syms) matches Ok(action) ==> {
            let map = state.keymap;
            let words = combo_words(args.combo@);
            let got = idle().received(action.steps, paste);
            &&& action.target == chosen_target(args.target)
            &&& words.len() > 0
            &&& got.len() == 1
            &&& got[0] matches Received::Key(struck) && if words.len() == 1 && modifier_named(
                words[0],
            ) is Some {
                &&& map.modifier_key(modifier_named(words[0])->0) == Ok::<u16, Seq<char>>(
                    struck.code,
                )
                &&& struck.held == Set::<u16>::empty()
                &&& struck.mask == 0
            } else {
                &&& map.key_of(syms) == Some(struck.code)
                &&& are_distinct_modifiers(words.drop_last())
                &&& struck.held == keys_of(map, modifiers_named(words.drop_last()))
                &&& struck.mask == map.mask(modifiers_named(words.drop_last()))
            }
            &&& idle().after(action.steps, paste) == idle()
            &&& only_keyboard(action.steps)
            &&& elapsed(action.steps) == 0
        },
{
    if let Ok(action) = key_plan(state, args, syms) {
        let map = state.keymap;
        let combo = map.combo(args.combo@, syms)->Ok_0;
        lemma_accepted_combos(map, args.combo@, syms);
        lemma_combo_strikes_its_key(map, combo, paste);
        lemma_combo_takes_no_time(map, combo);
        lemma_mask_of_one(map, Modifier::Ctrl);
        assert(keys_of(map, Seq::empty()) =~= Set::<u16>::empty());
    }
}

/// Typing brings the characters of the text to the window, each once and in
/// order, and uses the keyboard and the clipboard alone.
pub proof fn lemma_type_does_what_is_asked(state: StateModel, args: TypeArgs, syms: Seq<CharSym>)
    ensures
        type_plan(state, args, syms) matches Ok(action) ==> {
            let map = state.keymap;
            let paste = Struck {
                code: map.key_of(map.names.paste)->0,
                held: keys_of(map, seq![Modifier::Ctrl]),
                mask: map.masks.of(Modifier::Ctrl),
            };
            let delay = 1_000_000 * match args.delay_ms {
                None => 10,
                Some(asked) => if asked < 1_000 {
                    asked as int
                } else {
                    1_000
                },
            };
            &&& action.target == chosen_target(args.target)
            &&& syms.map_values(|typed: CharSym| typed.c) == args.text@
            &&& text_arrives(map, syms, idle().received(action.steps, paste))
            &&& idle().after(action.steps, paste) == idle()
            &&& holds_only(action.steps, keys_of(map, seq![Modifier::Shift, Modifier::Ctrl]))
            &&& only_keyboard(action.steps)
            &&& elapsed(action.steps) == (syms.len() - untypeable(map, syms)) * delay + stretches(
                map,
                syms,
            ) * 100_000_000
        },
{
    if let Ok(action) = type_plan(state, args, syms) {
        let delay = Duration::of_millis(
            limited_millis(args.delay_ms, DEFAULT_DELAY_MS, MAX_DELAY_MS),
        );
        lemma_text_arrives(state.keymap, syms, delay);
        lemma_typing_takes(state.keymap, syms, delay);
        assert(syms.map_values(|typed: CharSym| typed.c) =~= args.text@);
    }
}

/// The pixels that a drag was told, in order.
pub open spec fn told_pixels(args: DragArgs) -> Seq<(i64, i64)> {
    Seq::new(
        args.waypoints@.len() + 2,
        |i: int| (told(args, i).x, told(args, i).y),
    )
}

/// The pixels behind the movements of a drag.
pub open spec fn is_way_of(
    state: StateModel,
    target: Target,
    pixels: Seq<(i64, i64)>,
    way: Seq<Passed>,
) -> bool {
    pixels.len() == way.len() && forall|i: int|
        0 <= i < way.len() ==> state.point(target, (#[trigger] pixels[i]).0, pixels[i].1) == Ok::<
            (u32, u32),
            Seq<char>,
        >(way[i].at)
}

/// A drag goes straight from each point to the next in short steps: no two
/// movements that follow each other are for pixels further apart than the step
/// asked for, which is 20 pixels where none is asked for and between one and
/// 500 otherwise, and none is for a pixel far from the line between two points
/// that were told one after the other.
pub proof fn lemma_drag_goes_straight(state: StateModel, args: DragArgs)
    requires
        state.screen(chosen_target(args.target)) matches Ok(size) && size.width <= 0x400_0000
            && size.height <= 0x400_0000,
    ensures
        drag_plan(state, args) matches Ok(action) ==> {
            let step = match args.step_px {
                None => 20,
                Some(asked) => if asked < 1 {
                    1
                } else if asked > 500 {
                    500
                } else {
                    asked as int
                },
            };
            exists|pixels: Seq<(i64, i64)>|
                {
                    &&& #[trigger] is_way_of(
                        state,
                        chosen_target(args.target),
                        pixels,
                        trail(action.steps),
                    )
                    &&& is_chain(pixels, step)
                    &&& forall|i: int|
                        0 <= i < pixels.len() ==> is_near_polyline(
                            #[trigger] pixels[i],
                            told_pixels(args),
                            2 * step + 2,
                        )
                }
        },
{
    let target = chosen_target(args.target);
    let corners = drag_corners(args);
    let pixels = path_points(corners, drag_step_px(args));
    if let Ok(action) = drag_plan(state, args) {
        let path = device_path(state, target, pixels)->Ok_0;
        let hold = Duration::of_millis(limited_millis(args.hold_ms, DEFAULT_HOLD_MS, MAX_HOLD_MS));
        lemma_pixels_of_a_drag(state, target, corners, drag_step_px(args));
        assert(corners =~= told_pixels(args));
        lemma_movements_of_a_drag(state, target, pixels, hold);
        assert(is_way_of(state, target, pixels, trail(action.steps)));
    }
}

proof fn lemma_movements_of_a_drag(
    state: StateModel,
    target: Target,
    pixels: Seq<(i64, i64)>,
    hold: Duration,
)
    requires
        device_path(state, target, pixels) is Ok,
        pixels.len() > 0,
    ensures
        is_way_of(
            state,
            target,
            pixels,
            trail(drag(device_path(state, target, pixels)->Ok_0, hold)),
        ),
{
    lemma_device_path(state, target, pixels);
    lemma_drag_comes_to(device_path(state, target, pixels)->Ok_0, hold);
}

proof fn lemma_pixels_of_a_drag(
    state: StateModel,
    target: Target,
    corners: Seq<(i64, i64)>,
    step_px: u32,
)
    requires
        device_path(state, target, path_points(corners, step_px)) is Ok,
        corners.len() > 1,
        state.screen(target) matches Ok(size) && size.width <= 0x400_0000 && size.height
            <= 0x400_0000,
    ensures
        ({
            let pixels = path_points(corners, step_px);
            &&& pixels.len() > 0
            &&& is_chain(pixels, step_length(step_px))
            &&& forall|i: int|
                0 <= i < pixels.len() ==> is_near_polyline(
                    #[trigger] pixels[i],
                    corners,
                    2 * step_length(step_px) + 2,
                )
        }),
{
    let pixels = path_points(corners, step_px);
    lemma_device_path(state, target, pixels);
    let (low, high, top) = ((0i64, 0i64), (0x400_0000i64, 0x400_0000i64), (
        0xffff_ffffi64,
        0xffff_ffffi64,
    ));
    assert forall|i: int| 0 <= i < pixels.len() implies is_inside(#[trigger] pixels[i], low, high)
        && is_inside(pixels[i], low, top) by {
        lemma_only_pixels_of_the_last_screenshot(state, target, pixels[i].0, pixels[i].1);
        assert(state.point(target, pixels[i].0, pixels[i].1) is Ok);
    }
    assert(all_inside(pixels, low, top));
    lemma_points_of_a_path_on_a_screen(corners, step_px);
    lemma_path_visits_all_points(corners, step_px);
    lemma_path_steps_are_short(corners, step_px);
    assert forall|i: int| 0 <= i < corners.len() implies is_inside(
        #[trigger] corners[i],
        low,
        high,
    ) by {
        assert(pixels.contains(corners[i]));
        let k = choose|k: int| 0 <= k < pixels.len() && pixels[k] == corners[i];
        assert(is_inside(pixels[k], low, high));
    }
    lemma_path_goes_straight(corners, step_px);
}

/// Every tool works on the target that was asked for, the sandbox where none
/// was, and settles as long as was asked.
pub proof fn lemma_actions_are_for_what_is_asked(
    state: StateModel,
    point: PointArgs,
    button: Button,
    count: u32,
    verb: Seq<char>,
    drag: DragArgs,
    scroll: ScrollArgs,
    key: KeyArgs,
    name: NameSyms,
    text: TypeArgs,
    syms: Seq<CharSym>,
)
    ensures
        pointer_plan(state, point, button, count, verb) matches Ok(action) ==> is_for(
            action,
            point.target,
            point.settle_ms,
        ),
        move_plan(state, point) matches Ok(action) ==> is_for(
            action,
            point.target,
            point.settle_ms,
        ),
        drag_plan(state, drag) matches Ok(action) ==> is_for(action, drag.target, drag.settle_ms),
        scroll_plan(state, scroll) matches Ok(action) ==> is_for(
            action,
            scroll.target,
            scroll.settle_ms,
        ),
        key_plan(state, key, name) matches Ok(action) ==> is_for(action, key.target, key.settle_ms),
        type_plan(state, text, syms) matches Ok(action) ==> is_for(
            action,
            text.target,
            text.settle_ms,
        ),
{
    lemma_settle_times(point.settle_ms);
    lemma_settle_times(drag.settle_ms);
    lemma_settle_times(scroll.settle_ms);
    lemma_settle_times(key.settle_ms);
    lemma_settle_times(text.settle_ms);
}

pub open spec fn is_for(
    action: ActionModel,
    target: Option<Target>,
    settle_ms: Option<i64>,
) -> bool {
    &&& action.target == match target {
        Some(target) => target,
        None => Target::Sandbox,
    }
    &&& action.settle.nanos == match settle_ms {
        Some(millis) => millis * 1_000_000,
        None => 150_000_000,
    }
}

/// A click, a movement and a scroll are accepted exactly where their settle
/// time is in its range and their pixel is on the last screenshot of the
/// target; a scroll has to turn the wheel besides.
pub proof fn lemma_what_is_accepted(
    state: StateModel,
    point: PointArgs,
    button: Button,
    count: u32,
    verb: Seq<char>,
    scroll: ScrollArgs,
)
    ensures
        pointer_plan(state, point, button, count, verb) is Ok <==> settled(point.settle_ms) is Ok
            && state.point(chosen_target(point.target), point.x, point.y) is Ok,
        move_plan(state, point) is Ok <==> settled(point.settle_ms) is Ok && state.point(
            chosen_target(point.target),
            point.x,
            point.y,
        ) is Ok,
        scroll_plan(state, scroll) is Ok <==> settled(scroll.settle_ms) is Ok && state.point(
            chosen_target(scroll.target),
            scroll.x,
            scroll.y,
        ) is Ok && ((scroll.dx matches Some(dx) && dx != 0) || (scroll.dy matches Some(dy) && dy
            != 0)),
{
}

/// A drag is accepted only where its settle time is in its range and each of
/// its points is on the last screenshot of the target.
pub proof fn lemma_which_drags_are_accepted(state: StateModel, args: DragArgs)
    ensures
        drag_plan(state, args) is Ok ==> settled(args.settle_ms) is Ok && forall|i: int|
            0 <= i < told_pixels(args).len() ==> state.point(
                chosen_target(args.target),
                (#[trigger] told_pixels(args)[i]).0,
                told_pixels(args)[i].1,
            ) is Ok,
{
    lemma_drag_goes_in_order(state, args);
    if let Ok(action) = drag_plan(state, args) {
        let way = trail(action.steps);
        let places = choose|places: Seq<int>|
            {
                &&& places.len() == args.waypoints@.len() + 2
                &&& #[trigger] places.first() == 0
                &&& places.last() == way.len() - 1
                &&& forall|i: int, j: int|
                    0 <= i < j < places.len() ==> #[trigger] places[i] < #[trigger] places[j]
                &&& forall|i: int|
                    0 <= i < places.len() ==> 0 <= #[trigger] places[i] < way.len() && state.point(
                        chosen_target(args.target),
                        told(args, i).x,
                        told(args, i).y,
                    ) == Ok::<(u32, u32), Seq<char>>(way[places[i]].at)
            };
        assert forall|i: int| 0 <= i < told_pixels(args).len() implies state.point(
            chosen_target(args.target),
            (#[trigger] told_pixels(args)[i]).0,
            told_pixels(args)[i].1,
        ) is Ok by {
            assert(0 <= places[i] < way.len());
        }
    }
}

/// The reply to a text says how many of its characters were typed and, where
/// there are any, how many were pasted.
pub proof fn lemma_typing_replies_count_the_text(
    state: StateModel,
    args: TypeArgs,
    syms: Seq<CharSym>,
)
    ensures
        type_plan(state, args, syms) matches Ok(action) ==> action.reply == typed_reply(
            chosen_target(args.target),
            (args.text@.len() - untypeable(state.keymap, syms)) as nat,
            untypeable(state.keymap, syms),
        ),
        type_plan(state, args, syms) is Ok ==> args.text@.len() > 0,
{
    let delay = Duration::of_millis(limited_millis(args.delay_ms, DEFAULT_DELAY_MS, MAX_DELAY_MS));
    lemma_typing_counts_every_character(state.keymap, syms, delay);
}

} // verus!
