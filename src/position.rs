//! A point on the arena, in pixels or in cells depending on use.

use vstd::prelude::*;
use crate::constants::{CHARACTER_SIZE, MAX_SIDE};

verus! {

#[derive(Clone, Copy, PartialEq, Eq, Structural, Debug)]
pub struct Position {
    pub x: i32,
    pub y: i32,
}

/// The cell that a pixel coordinate lies in (the cell its centre is over).
pub open spec fn pixel_to_cell(p: int) -> int {
    (p + CHARACTER_SIZE as int / 2) / (CHARACTER_SIZE as int)
}

/// The pixel coordinate `p` lies over a cell of an axis `size` cells long.
pub open spec fn pixel_on_axis(p: int, size: int) -> bool {
    0 <= p && pixel_to_cell(p) < size
}

/// Tells whether pixel coordinate `p` lies over a cell of an axis `size`
/// cells long.
pub fn on_axis(p: i32, size: usize) -> (r: bool)
    requires
        size <= MAX_SIDE,
    ensures
        r == pixel_on_axis(p as int, size as int),
{
    p >= 0 && (p as i64 + CHARACTER_SIZE as i64 / 2) / (CHARACTER_SIZE as i64) < size as i64
}

} // verus!
