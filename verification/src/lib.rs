use vstd::prelude::*;

pub mod chance;
mod rotation;
pub mod world;

verus! {

/// Width of the pixel frame, in pixels.
pub const WIDTH: usize = 640;

/// Height of the pixel frame, in pixels.
pub const HEIGHT: usize = 360;

} // verus!
