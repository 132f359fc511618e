//! Tiling layouts for a penrose window manager: how the region of a monitor
//! is shared out among the windows shown on it.
//!
//! - [`geometry`]: regions, and how they are cut into columns, rows and fans;
//! - [`layouts`]: the strategies that place the clients of a monitor;
//! - [`registry`]: the layouts to cycle through, and their settings;
//! - [`hooks`]: what is run when the window manager starts.

pub mod geometry;
pub mod hooks;
pub mod layouts;
pub mod registry;
