//! What a sprite asks of the game after advancing one tick.

use vstd::prelude::*;

verus! {

#[derive(Clone, Copy, PartialEq, Eq, Structural, Debug)]
pub enum LightSpriteEvent {
    /// Nothing to do.
    Nothing,
    /// Remove the sprite.
    DeleteMe,
    /// Remove the sprite and put a power-up item in its place.
    CreatePowerUpItem,
}

} // verus!
