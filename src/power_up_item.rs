//! An item that adds one to the reach of the bombs of the player who picks it up.

use vstd::prelude::*;

verus! {

#[derive(Clone, Copy, PartialEq, Eq, Structural, Debug)]
pub struct PowerUpItem {
    /// Pixel position of the item's corner.
    pub x: i32,
    pub y: i32,
}

impl PowerUpItem {
    pub fn new(x: i32, y: i32) -> (r: PowerUpItem)
        ensures
            r == (PowerUpItem { x, y }),
    {
        PowerUpItem { x, y }
    }

    pub fn get_x(&self) -> (r: i32)
        ensures
            r == self.x,
    {
        self.x
    }

    pub fn get_y(&self) -> (r: i32)
        ensures
            r == self.y,
    {
        self.y
    }
}

} // verus!
