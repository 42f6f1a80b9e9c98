//! What a player does in one tick: a movement and whether to drop a bomb.

use vstd::prelude::*;

verus! {

#[derive(Clone, Copy, PartialEq, Eq, Structural, Debug)]
pub enum Movement {
    NONE,
    LEFT,
    UP,
    RIGHT,
    DOWN,
}

#[derive(Clone, Copy, PartialEq, Eq, Structural, Debug)]
pub struct PlayerInput {
    pub movement: Movement,
    pub fire: bool,
}

impl PlayerInput {
    pub fn new(movement: Movement, fire: bool) -> (r: PlayerInput)
        ensures
            r == (PlayerInput { movement, fire }),
    {
        PlayerInput { movement, fire }
    }
}

} // verus!
