//! Probing the desktop mapping: where the pointer is sent, what it should
//! show, and what is kept of the result.

use vstd::arithmetic::div_mod::lemma_fundamental_div_mod;
use vstd::prelude::*;
use vstd::string::*;

use crate::coords::{CoordError, Transform, TransformModel};
use crate::double::rounding::{
    closest, half_even, lemma_closest_error, lemma_closest_is_within, lemma_integer_stays,
    lemma_one_is_large, lemma_rounding_is_closest, one, rounded,
};
use crate::double::Double;
use crate::paths::{is_within, join, joined};
use crate::text::{chars_of, decimal, push_decimal};

use super::{Rect, MIN_WINDOW_HEIGHT, MIN_WINDOW_WIDTH};

verus! {

/// Milliseconds between sending the pointer somewhere and looking for it.
pub const PROBE_PAUSE_MS: u64 = 250;

/// Pixels by which the pointer may miss.
pub const DEVIATION_LIMIT_PX: u32 = 3;

/// Positions inside the sandbox window that the real pointer is sent to, in
/// hundredths of its sides, in order.
pub fn probe_percents() -> (percents: Vec<(u8, u8)>)
    ensures
        percents@ == seq![(20u8, 20u8), (80u8, 25u8), (50u8, 80u8), (75u8, 70u8)],
{
    let percents: Vec<(u8, u8)> = vec![(20, 20), (80, 25), (50, 80), (75, 70)];
    assert(percents@ =~= seq![(20u8, 20u8), (80u8, 25u8), (50u8, 80u8), (75u8, 70u8)]);
    percents
}

/// A part of a side, as a double.
pub open spec fn fraction(percent: u8) -> int {
    closest(percent * one(), 100)
}

/// A position along one side of a window, as a double.
pub open spec fn position(start: u32, side: u32, percent: u8) -> int {
    closest(start * one() + closest(fraction(percent) * side, 1), 1)
}

/// The pixel closest to a position in a window.
pub open spec fn intended(rect: Rect, percent: (u8, u8)) -> (int, int) {
    (
        rounded(position(rect.x, rect.width, percent.0), one()),
        rounded(position(rect.y, rect.height, percent.1), one()),
    )
}

/// A position along one side of a window.
pub fn along(start: u32, side: u32, percent: u8) -> (place: Double)
    ensures
        place.is_valid(),
        place@ == position(start, side, percent),
        place.reach() <= 9600,
        0 <= place@ <= 0x8_0000_0000 * one(),
{
    let part = Double::ratio(percent as u32, 100).times_int(side);
    let first = Double::from_int(start as i128);
    proof {
        lemma_integer_stays(start as int);
        lemma_position_is_bounded(start, side, percent);
    }
    first.plus(&part)
}

pub proof fn lemma_position_is_bounded(start: u32, side: u32, percent: u8)
    ensures
        start * one() <= position(start, side, percent) <= 0x8_0000_0000 * one(),
        0 <= fraction(percent) <= 3 * one(),
        0 <= closest(fraction(percent) * side, 1) <= 0x3_0000_0000 * one(),
        0 <= fraction(percent) * side <= 0x3_0000_0000 * one(),
        start * one() >= 0,
        0 <= rounded(position(start, side, percent), one()) <= 0x8_0000_0000,
        0 <= half_even(position(start, side, percent), one()) <= 0x8_0000_0000,
{
    lemma_one_is_large();
    let w = one();
    assert(0 * w * 100 <= percent * w <= 3 * w * 100) by (nonlinear_arith)
        requires
            0 <= percent <= 255,
            w > 0,
    ;
    lemma_closest_is_within(percent * w, 100, 0, 3);
    let f = fraction(percent);
    assert(0 * w == 0);
    assert(0 <= f * side <= 0x3_0000_0000 * w) by (nonlinear_arith)
        requires
            0 <= f <= 3 * w,
            0 <= side <= 0xffff_ffff,
            w > 0,
    ;
    lemma_closest_is_within(f * side, 1, 0, 0x3_0000_0000);
    let part = closest(f * side, 1);
    assert(start * w <= 0xffff_ffff * w) by (nonlinear_arith)
        requires
            start <= 0xffff_ffff,
            w > 0,
    ;
    assert(start * w >= 0) by (nonlinear_arith)
        requires
            start >= 0,
            w > 0,
    ;
    lemma_closest_is_within(start * w + part, 1, start as int, 0x8_0000_0000);
    let value = position(start, side, percent);
    lemma_rounding_is_closest(value, w);
    let r = rounded(value, w);
    assert(0 <= r <= 0x8_0000_0000) by (nonlinear_arith)
        requires
            -w <= 2 * (r * w - value) <= w,
            0 <= value <= 0x8_0000_0000 * w,
            w > 1,
    ;
    let (q, rest) = (value / w, value % w);
    lemma_fundamental_div_mod(value, w);
    assert(0 <= q && (q < 0x8_0000_0000 || q == 0x8_0000_0000 && rest == 0)) by (nonlinear_arith)
        requires
            value == w * q + rest,
            0 <= rest < w,
            0 <= value <= 0x8_0000_0000 * w,
    ;
}

/// Where the real pointer is sent for a probe, by the linear mapping of a
/// screen of this size.
pub fn probe_point(rect: Rect, percent: (u8, u8), width: u32, height: u32) -> (point: Result<
    (u32, u32),
    CoordError,
>)
    ensures
        match TransformModel::linear(width, height).mapped(
            intended(rect, percent).0 as i64,
            intended(rect, percent).1 as i64,
            width,
            height,
        ) {
            Ok(mapped) => point == Ok::<(u32, u32), CoordError>((mapped.x as u32, mapped.y as u32)),
            Err(error) => point == Err::<(u32, u32), CoordError>(error),
        },
{
    let x: i64 = along(rect.x, rect.width, percent.0).round();
    let y: i64 = along(rect.y, rect.height, percent.1).round();
    proof {
        lemma_position_is_bounded(rect.x, rect.width, percent.0);
        lemma_position_is_bounded(rect.y, rect.height, percent.1);
    }
    match Transform::linear(width, height) {
        Ok(linear) => match linear.map_pixel(x, y, width, height) {
            Ok(mapped) => Ok((mapped.x as u32, mapped.y as u32)),
            Err(error) => Err(error),
        },
        Err(error) => Err(error),
    }
}

pub open spec fn cursor_missing_text(rect: Rect, percent: (u8, u8)) -> Seq<char> {
    "calibration failed: no cursor visible in the sandbox after moving the real pointer to desktop pixel ("@
        + decimal(half_even(position(rect.x, rect.width, percent.0), one())) + ", "@ + decimal(
        half_even(position(rect.y, rect.height, percent.1), one()),
    )
        + "). Either uinput moves do not reach the compositor or the sandbox window is covered."@
}

/// What is reported where the pointer does not show up in the window.
pub fn cursor_missing(rect: Rect, percent: (u8, u8)) -> (text: String)
    ensures
        text@ == cursor_missing_text(rect, percent),
{
    proof {
        lemma_position_is_bounded(rect.x, rect.width, percent.0);
        lemma_position_is_bounded(rect.y, rect.height, percent.1);
    }
    let mut text =
        "calibration failed: no cursor visible in the sandbox after moving the real pointer to desktop pixel (".to_owned();
    push_decimal(&mut text, along(rect.x, rect.width, percent.0).round_to_even());
    text.append(", ");
    push_decimal(&mut text, along(rect.y, rect.height, percent.1).round_to_even());
    text.append(
        "). Either uinput moves do not reach the compositor or the sandbox window is covered.",
    );
    text
}

/// What a calibration finds.
#[derive(Debug, Clone, Copy, PartialEq, Eq, Structural)]
pub enum Verdict {
    /// The linear mapping is right.
    Linear,
    /// The linear mapping is off, and the fitted one is right.
    Fitted,
    /// Neither is right.
    Rejected,
}

/// The verdict on a calibration: the linear mapping is kept where its worst
/// deviation is below the limit; else the fitted one is taken where what it
/// leaves is below the limit.
pub fn judge(deviation_is_small: bool, residual_is_small: bool) -> (verdict: Verdict)
    ensures
        verdict == if deviation_is_small {
            Verdict::Linear
        } else if residual_is_small {
            Verdict::Fitted
        } else {
            Verdict::Rejected
        },
{
    if deviation_is_small {
        Verdict::Linear
    } else if residual_is_small {
        Verdict::Fitted
    } else {
        Verdict::Rejected
    }
}

/// The file that keeps a calibration: below the configuration directory, or
/// below the home directory where none is set.
pub open spec fn calibration_file(config_home: Option<&str>, home: Option<&str>) -> Option<
    Seq<char>,
> {
    let base = match config_home {
        Some(dir) if dir@.len() > 0 => Some(dir@),
        _ => match home {
            Some(dir) => Some(joined(dir@, ".config"@)),
            None => None,
        },
    };
    match base {
        Some(base) => Some(joined(joined(base, "wayhand-mcp"@), "calibration.json"@)),
        None => None,
    }
}

pub fn calibration_path(config_home: Option<&str>, home: Option<&str>) -> (path: Result<
    String,
    String,
>)
    ensures
        match path {
            Ok(path) => calibration_file(config_home, home) == Some(path@),
            Err(error) => calibration_file(config_home, home) is None && error@
                == "neither XDG_CONFIG_HOME nor HOME is set"@,
        },
{
    let configured = match config_home {
        Some(dir) => if chars_of(dir).len() > 0 {
            Some(dir.to_owned())
        } else {
            None
        },
        None => None,
    };
    let base = match configured {
        Some(dir) => dir,
        None => match home {
            Some(dir) => join(dir, ".config"),
            None => {
                return Err("neither XDG_CONFIG_HOME nor HOME is set".to_owned());
            },
        },
    };
    let dir = join(base.as_str(), "wayhand-mcp");
    Ok(join(dir.as_str(), "calibration.json"))
}

/// Every probe lies within the window that was found.
pub proof fn lemma_probes_lie_within_the_window(rect: Rect, percent: (u8, u8))
    requires
        rect.width >= MIN_WINDOW_WIDTH,
        rect.height >= MIN_WINDOW_HEIGHT,
        percent.0 <= 80,
        percent.1 <= 80,
    ensures
        rect.x <= intended(rect, percent).0 < rect.x + rect.width,
        rect.y <= intended(rect, percent).1 < rect.y + rect.height,
{
    lemma_probe_on_one_axis(rect.x, rect.width, percent.0);
    lemma_probe_on_one_axis(rect.y, rect.height, percent.1);
}

proof fn lemma_probe_on_one_axis(start: u32, side: u32, percent: u8)
    requires
        percent <= 80,
        side >= 3,
    ensures
        start <= rounded(position(start, side, percent), one()) < start + side,
{
    lemma_one_is_large();
    lemma_position_is_bounded(start, side, percent);
    let w = one();
    let f = fraction(percent);
    assert(0 <= percent * w <= 80 * w) by (nonlinear_arith)
        requires
            0 <= percent <= 80,
            w > 0,
    ;
    lemma_closest_error(percent * w, 100, 80 * w);
    assert(100 * f <= 81 * w);
    let exact = f * side;
    let part = closest(exact, 1);
    assert(100 * exact <= 81 * (side * w)) by (nonlinear_arith)
        requires
            100 * f <= 81 * w,
            exact == f * side,
            side >= 0,
    ;
    lemma_closest_error(exact, 1, 0x3_0000_0000 * w);
    let total = start * w + part;
    assert(start * w <= 0x1_0000_0000 * w) by (nonlinear_arith)
        requires
            start <= 0x1_0000_0000,
            w > 0,
    ;
    lemma_closest_error(total, 1, 0x8_0000_0000 * w);
    let value = position(start, side, percent);
    lemma_rounding_is_closest(value, w);
    let r = rounded(value, w);
    assert(1000 * value <= 1000 * (start * w) + 810 * (side * w) + w);
    assert(start <= r) by (nonlinear_arith)
        requires
            -w <= 2 * (r * w - value),
            start * w <= value,
            w > 0,
    ;
    assert(r < start + side) by (nonlinear_arith)
        requires
            2 * (r * w - value) <= w,
            1000 * value <= 1000 * (start * w) + 810 * (side * w) + w,
            side >= 3,
            w > 0,
    ;
}

/// A probe is the pixel closest to its part of the window, along each side.
pub proof fn lemma_probes_are_parts_of_the_window(rect: Rect, percent: (u8, u8))
    requires
        percent.0 <= 100,
        percent.1 <= 100,
    ensures
        -50 <= 100 * (intended(rect, percent).0 - rect.x) - percent.0 * rect.width <= 50,
        -50 <= 100 * (intended(rect, percent).1 - rect.y) - percent.1 * rect.height <= 50,
{
    lemma_probe_is_a_part(rect.x, rect.width, percent.0);
    lemma_probe_is_a_part(rect.y, rect.height, percent.1);
}

proof fn lemma_probe_is_a_part(start: u32, side: u32, percent: u8)
    requires
        percent <= 100,
    ensures
        -50 <= 100 * (rounded(position(start, side, percent), one()) - start) - percent * side
            <= 50,
{
    lemma_one_is_large();
    lemma_position_is_bounded(start, side, percent);
    let w = one();
    let f = fraction(percent);
    assert(0 <= percent * w <= 100 * w) by (nonlinear_arith)
        requires
            0 <= percent <= 100,
            w > 0,
    ;
    lemma_closest_error(percent * w, 100, 100 * w);
    let e1 = 100 * f - percent * w;
    let exact = f * side;
    let part = closest(exact, 1);
    lemma_closest_error(exact, 1, 0x3_0000_0000 * w);
    let e2 = part - exact;
    let total = start * w + part;
    assert(0 <= start * w <= 0x1_0000_0000 * w) by (nonlinear_arith)
        requires
            0 <= start <= 0x1_0000_0000,
            w > 0,
    ;
    lemma_closest_error(total, 1, 0x8_0000_0000 * w);
    let value = position(start, side, percent);
    let e3 = value - total;
    lemma_rounding_is_closest(value, w);
    let r = rounded(value, w);
    let e4 = r * w - value;
    let off = 100 * (r - start) - percent * side;
    assert(off * w == 100 * e4 + 100 * e3 + 100 * e2 + side * e1) by (nonlinear_arith)
        requires
            off == 100 * (r - start) - percent * side,
            e4 == r * w - value,
            e3 == value - (start * w + part),
            e2 == part - f * side,
            e1 == 100 * f - percent * w,
    ;
    assert(-w <= e1 * 0x1000_0000_0000 <= w);
    assert(-w <= 8 * (side * e1) <= w) by (nonlinear_arith)
        requires
            -w <= e1 * 0x1000_0000_0000 <= w,
            0 <= side <= 0xffff_ffff,
            w > 0,
    ;
    assert(-w <= e2 * 0x1000 <= w);
    assert(-w <= e3 * 0x1000 <= w);
    assert(-(51 * w) < off * w < 51 * w);
    assert(-51 < off < 51) by (nonlinear_arith)
        requires
            -(51 * w) < off * w < 51 * w,
            w > 0,
    ;
}

/// A calibration is kept below the configuration directory where one is set,
/// below `.config` of the home directory where only that is, and nowhere
/// otherwise.
pub proof fn lemma_where_a_calibration_is_kept(config_home: Option<&str>, home: Option<&str>)
    ensures
        calibration_file(config_home, home) is None <==> (config_home matches Some(dir) ==> dir@.len()
            == 0) && home is None,
        config_home matches Some(dir) ==> dir@.len() > 0 ==> (calibration_file(
            config_home,
            home,
        ) matches Some(path) && is_within(path, dir@)),
        (config_home matches Some(dir) ==> dir@.len() == 0) && home is Some ==> (calibration_file(
            config_home,
            home,
        ) matches Some(path) && is_within(path, joined(home->0@, ".config"@))),
{
    let base = match config_home {
        Some(dir) if dir@.len() > 0 => dir@,
        _ => match home {
            Some(dir) => joined(dir@, ".config"@),
            None => Seq::empty(),
        },
    };
    lemma_joined_twice(base, "wayhand-mcp"@, "calibration.json"@);
}

proof fn lemma_joined_twice(base: Seq<char>, middle: Seq<char>, name: Seq<char>)
    ensures
        is_within(joined(joined(base, middle), name), base),
{
    let below = joined(base, Seq::empty());
    let inner = joined(base, middle);
    let path = joined(inner, name);
    assert(inner =~= below + middle);
    assert(path.len() >= inner.len());
    assert(below.is_prefix_of(path)) by {
        assert forall|i: int| 0 <= i < below.len() implies #[trigger] path[i] == below[i] by {
            assert(path[i] == inner[i]);
        }
        assert(path.subrange(0, below.len() as int) =~= below);
    }
}

} // verus!
