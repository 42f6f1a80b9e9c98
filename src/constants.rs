//! Tunable constants of the arena and of the decision engine.

use vstd::prelude::*;

verus! {

/// Side of one arena cell in pixels.
pub const CHARACTER_SIZE: i32 = 32;

/// Ticks from placing a bomb until it detonates.
pub const BOMB_TIME: i32 = 180;

/// Ticks a player needs to walk across one cell (two pixels per tick).
pub const TICKS_PER_CELL: i32 = 16;

/// Whole cells a player can walk before a freshly placed bomb detonates.
pub const ESCAPE_STEPS: i32 = 11;

/// The escape allowance matches the walking speed: it is the number of whole
/// cells crossed in the ticks before detonation.
pub proof fn lemma_escape_steps_match_fuse()
    ensures
        ESCAPE_STEPS as int == (BOMB_TIME as int - 1) / (TICKS_PER_CELL as int),
{
}

/// Largest risk a single bomb gives a cell (reached just before it detonates).
pub const RISK_OF_BOMB: u32 = 180;

/// Score lost per hop of distance from the player.
pub const SCORE_OF_DISTANCE: i64 = 1;

/// Score gained for standing on a power-up item.
pub const SCORE_OF_POWER_UP_ITEM: i64 = 10;

/// Score gained per breakable wall that a bomb would destroy.
pub const SCORE_OF_BREAK_WALL: i64 = 5;

/// Base weight of a gain in the opponent's stress.
pub const OPPONENT_STRESS_WEIGHT: i64 = 1;

/// Ticks during which the opponent's cell is treated as impassable after
/// the player bombed its own cell.
pub const OPPONENT_NOT_PASSABLE_TIMEOUT: u32 = 60;

/// Hop radius of the area the stress estimator looks at.
pub const STRESS_RADIUS: usize = 5;

/// Cells across the arena of a game.
pub const MAP_WIDTH: i32 = 25;

/// Cells down the arena of a game.
pub const MAP_HEIGHT: i32 = 15;

/// Largest number of cells an arena may have.
pub const MAX_CELLS: usize = 65536;

/// Largest arena side, in cells.
pub const MAX_SIDE: usize = 256;

} // verus!
