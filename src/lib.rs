//! Decision engine of a computer-controlled player in a two-player
//! bomb-placement arena, together with the small game-world types it reads.

pub mod ai_player;
pub mod bomb;
pub mod checks;
pub mod constants;
pub mod explosion;
pub mod field;
pub mod game_rules;
pub mod human_operation;
pub mod light_sprite;
pub mod menu;
pub mod movement;
pub mod player;
pub mod player_input;
pub mod player_type;
pub mod position;
pub mod power_up_item;
pub mod reach;
pub mod screen;
pub mod search;
pub mod snapshot;
pub mod wall;
