//! The tools of the server: what each asks for, what it does and what it
//! replies.

pub mod actions;
pub mod args;
pub mod calibration;
pub mod down;
pub mod effects;
pub mod observe;
pub mod path;
pub mod run;
pub mod sandbox_tools;
pub mod state;
pub mod steps;

use vstd::prelude::*;

verus! {

/// The screen that a tool works on.
#[derive(Debug, Clone, Copy, PartialEq, Eq, Hash, Default, Structural)]
pub enum Target {
    #[default]
    Sandbox,
    Desktop,
}

impl Target {
    pub open spec fn text(self) -> Seq<char> {
        match self {
            Target::Sandbox => "sandbox"@,
            Target::Desktop => "desktop"@,
        }
    }

    pub fn name(self) -> (name: &'static str)
        ensures
            name@ == self.text(),
    {
        match self {
            Target::Sandbox => "sandbox",
            Target::Desktop => "desktop",
        }
    }
}

/// The target asked for, or the sandbox where none is.
pub open spec fn chosen_target(target: Option<Target>) -> Target {
    match target {
        Some(target) => target,
        None => Target::Sandbox,
    }
}

pub fn target_or_default(target: Option<Target>) -> (chosen: Target)
    ensures
        chosen == chosen_target(target),
{
    match target {
        Some(target) => target,
        None => Target::Sandbox,
    }
}

/// Width and height of a screenshot.
#[derive(Debug, Clone, Copy, PartialEq, Eq, Structural)]
pub struct ScreenSize {
    pub width: u32,
    pub height: u32,
}

} // verus!
