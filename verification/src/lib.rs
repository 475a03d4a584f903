//! The decision logic of a local server that lets a client see and operate a
//! Wayland desktop: coordinate mapping, keyboard mapping, step sequences, the
//! injection budget, screenshot handling and the sandbox rules. Everything
//! here works on plain values; devices, sockets, processes and clocks belong
//! to the program around it.

pub mod calibrate;
pub mod codec;
pub mod coords;
pub mod double;
pub mod inject;
pub mod instance_lock;
pub mod keys;
pub mod keysym;
pub mod number;
pub mod paths;
pub mod safety;
pub mod sandbox;
pub mod screenshot;
pub mod server;
pub mod text;
pub mod time;
