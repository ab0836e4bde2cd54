pub mod color;
pub mod flag_lib;
pub mod render;

use vstd::prelude::*;

verus! {

/// Width of the logical rendering canvas, in canvas units.
pub const CANVAS_WIDTH: i32 = 250;

/// Height of the logical rendering canvas, in canvas units.
pub const CANVAS_HEIGHT: u64 = 150;

} // verus!
