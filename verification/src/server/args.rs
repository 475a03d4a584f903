//! What the tools are asked for.

use vstd::prelude::*;

use super::Target;

verus! {

/// Arguments of `screenshot` and `screen_info`.
#[derive(Debug, Clone, Copy, Default)]
pub struct ObservationArgs {
    pub target: Option<Target>,
    pub settle_ms: Option<i64>,
}

/// Arguments of `move` and of the clicks: a pixel of the last screenshot.
#[derive(Debug, Clone, Copy)]
pub struct PointArgs {
    pub x: i64,
    pub y: i64,
    pub target: Option<Target>,
    pub settle_ms: Option<i64>,
}

#[derive(Debug, Clone, Copy)]
pub struct Point {
    pub x: i64,
    pub y: i64,
}

/// Arguments of `drag`.
#[derive(Debug, Clone)]
pub struct DragArgs {
    pub from: Point,
    pub to: Point,
    pub waypoints: Vec<Point>,
    /// Pixels per intermediate movement.
    pub step_px: Option<u32>,
    /// Milliseconds to hold before pressing and before releasing.
    pub hold_ms: Option<u64>,
    pub target: Option<Target>,
    pub settle_ms: Option<i64>,
}

/// Arguments of `scroll`.
#[derive(Debug, Clone, Copy)]
pub struct ScrollArgs {
    pub x: i64,
    pub y: i64,
    /// Wheel notches to the right.
    pub dx: Option<i32>,
    /// Wheel notches down.
    pub dy: Option<i32>,
    pub target: Option<Target>,
    pub settle_ms: Option<i64>,
}

/// Arguments of `key`.
#[derive(Debug, Clone)]
pub struct KeyArgs {
    pub combo: String,
    pub target: Option<Target>,
    pub settle_ms: Option<i64>,
}

/// Arguments of `type`.
#[derive(Debug, Clone)]
pub struct TypeArgs {
    pub text: String,
    /// Milliseconds between typed characters.
    pub delay_ms: Option<u64>,
    pub target: Option<Target>,
    pub settle_ms: Option<i64>,
}

/// Arguments of tools that take none.
#[derive(Debug, Clone, Copy, Default)]
pub struct NoArgs {}

/// Arguments of `sandbox_start`.
#[derive(Debug, Clone, Copy, Default)]
pub struct SandboxStartArgs {
    pub visible: Option<bool>,
    pub width: Option<u32>,
    pub height: Option<u32>,
}

/// Arguments of `sandbox_launch`.
#[derive(Debug, Clone)]
pub struct LaunchArgs {
    pub argv: Vec<String>,
    pub cwd: Option<String>,
}

} // verus!
