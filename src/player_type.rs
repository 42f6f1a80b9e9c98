//! Who controls a player.

use vstd::prelude::*;

verus! {

#[derive(Clone, Copy, PartialEq, Eq, Structural, Debug)]
pub enum PlayerType {
    HUMAN,
    AI,
}

} // verus!
