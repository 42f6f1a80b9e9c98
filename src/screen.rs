//! What a screen asks of the main loop after a tick.

use vstd::prelude::*;
use crate::player_type::PlayerType;

verus! {

#[derive(Clone, Copy, PartialEq, Eq, Structural, Debug)]
pub enum ScreenEvent {
    /// Stay on this screen.
    Nothing,
    /// Start a game between players of these two kinds.
    GoToGameScreen(PlayerType, PlayerType),
    ReturnToTitleScreen,
}

} // verus!
