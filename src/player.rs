//! Which way a player faces.

use vstd::prelude::*;

verus! {

#[derive(Clone, Copy, PartialEq, Eq, Structural, Debug)]
pub enum Direction {
    DOWN,
    LEFT,
    RIGHT,
    UP,
}

impl Direction {
    /// Row of the facing in the character image.
    pub fn row(&self) -> (r: i32)
        ensures
            r == match *self {
                Direction::DOWN => 0int,
                Direction::LEFT => 1,
                Direction::RIGHT => 2,
                Direction::UP => 3,
            },
    {
        match self {
            Direction::DOWN => 0,
            Direction::LEFT => 1,
            Direction::RIGHT => 2,
            Direction::UP => 3,
        }
    }
}

} // verus!
