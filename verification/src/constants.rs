use vstd::prelude::*;

verus! {

/// The greatest `x` coordinate of the grid: a horizontal push stops there.
pub const MAP_WIDTH: u8 = 8;

/// The greatest `y` coordinate of the grid: a vertical push stops there.
pub const MAP_HEIGHT: u8 = 9;

} // verus!
