//! Particle Playground: the integer and text logic of a 2D particle sandbox, verified with
//! Verus.  The floating-point physics, the rendering and the window live outside this crate.
use vstd::prelude::*;

pub mod app_state;
pub mod grid;
pub mod quadtree;
pub mod scene_type;

verus! {

/// Width of the application window in logical pixels.
pub const WINDOW_WIDTH: u32 = 800;

/// Height of the application window in logical pixels.
pub const WINDOW_HEIGHT: u32 = 600;

} // verus!
