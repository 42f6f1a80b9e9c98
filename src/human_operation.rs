//! A player controlled from the keyboard.

use vstd::prelude::*;
use crate::player_input::{Movement, PlayerInput};

verus! {

pub struct HumanOperation {
    pub player_number: usize,
}

impl HumanOperation {
    /// The input given by the pressed keys: left wins over up, up over
    /// right, right over down.
    pub fn input_from_keys(&self, left: bool, up: bool, right: bool, down: bool, fire: bool) -> (r: PlayerInput)
        ensures
            r.fire == fire,
            r.movement == if left {
                Movement::LEFT
            } else if up {
                Movement::UP
            } else if right {
                Movement::RIGHT
            } else if down {
                Movement::DOWN
            } else {
                Movement::NONE
            },
    {
        let movement = if left {
            Movement::LEFT
        } else if up {
            Movement::UP
        } else if right {
            Movement::RIGHT
        } else if down {
            Movement::DOWN
        } else {
            Movement::NONE
        };
        PlayerInput { movement, fire }
    }
}

} // verus!
