//! The interface of an input device and the record of what it holds down.

pub mod fake;
pub mod held;
pub mod pressed;
pub mod uinput;

use vstd::prelude::*;

verus! {

#[derive(Debug, Clone, Copy, PartialEq, Eq, Hash, PartialOrd, Ord, Structural)]
pub enum Button {
    Left,
    Right,
    Middle,
}

/// Why an input device refused an event.
#[derive(Debug)]
pub struct InjectError {
    pub message: String,
}

/// A device that input events are sent through.
pub trait Injector {
    /// Move the pointer to an absolute position in device coordinates.
    fn move_abs(&mut self, x: u32, y: u32) -> Result<(), InjectError>;

    fn button(&mut self, button: Button, pressed: bool) -> Result<(), InjectError>;

    fn key(&mut self, code: u16, pressed: bool) -> Result<(), InjectError>;

    fn scroll(&mut self, horizontal: i32, vertical: i32) -> Result<(), InjectError>;

    /// Release every button and key that the device still holds down.
    fn release_all(&mut self) -> Result<(), InjectError>;
}

} // verus!
