//! The title screen's menu: choosing who plays, and the jingle that runs
//! before the game starts.

use vstd::prelude::*;
use crate::player_type::PlayerType;
use crate::screen::ScreenEvent;

verus! {

/// Number of entries in the menu.
pub const MENU_ITEM_COUNT: usize = 4;

/// Ticks the start jingle runs before the game screen opens.
pub const JINGLE_TIME: i32 = 190;

/// The two kinds of player that menu entry `i` starts a game with.
pub open spec fn entry_players(i: int) -> (PlayerType, PlayerType) {
    if i == 0 {
        (PlayerType::HUMAN, PlayerType::HUMAN)
    } else if i == 1 {
        (PlayerType::HUMAN, PlayerType::AI)
    } else if i == 2 {
        (PlayerType::AI, PlayerType::HUMAN)
    } else {
        (PlayerType::AI, PlayerType::AI)
    }
}

pub fn menu_players(i: usize) -> (r: (PlayerType, PlayerType))
    ensures
        r == entry_players(i as int),
{
    if i == 0 {
        (PlayerType::HUMAN, PlayerType::HUMAN)
    } else if i == 1 {
        (PlayerType::HUMAN, PlayerType::AI)
    } else if i == 2 {
        (PlayerType::AI, PlayerType::HUMAN)
    } else {
        (PlayerType::AI, PlayerType::AI)
    }
}

#[derive(Clone, Copy, PartialEq, Eq, Structural, Debug)]
pub struct TitleMenu {
    /// The selected entry.
    pub cursor: usize,
    /// The cursor key held on the previous tick: -1 up, 1 down, 0 none.
    pub previous_move: i32,
    /// Ticks since the choice was confirmed, or -1 before that.
    pub going_to_game_screen_state: i32,
}

/// The menu after a tick with the given keys held, and what it asks for.
/// While the jingle runs keys are ignored; a held cursor key moves the cursor
/// once (wrapping round), and the confirm key counts only with neither held.
pub open spec fn menu_step(m: TitleMenu, up: bool, down: bool, confirm: bool) -> (TitleMenu, ScreenEvent) {
    if m.going_to_game_screen_state >= 0 {
        let g = if m.going_to_game_screen_state < i32::MAX { m.going_to_game_screen_state + 1 } else { m.going_to_game_screen_state as int };
        let next = TitleMenu { going_to_game_screen_state: g as i32, ..m };
        if g >= JINGLE_TIME {
            let (a, b) = entry_players(m.cursor as int);
            (next, ScreenEvent::GoToGameScreen(a, b))
        } else {
            (next, ScreenEvent::Nothing)
        }
    } else if up {
        if m.previous_move != -1 {
            let c = if m.cursor == 0 { MENU_ITEM_COUNT - 1 } else { m.cursor - 1 };
            (TitleMenu { previous_move: -1i32, cursor: c as usize, ..m }, ScreenEvent::Nothing)
        } else {
            (m, ScreenEvent::Nothing)
        }
    } else if down {
        if m.previous_move != 1 {
            let c = if m.cursor >= MENU_ITEM_COUNT - 1 { 0 } else { m.cursor + 1 };
            (TitleMenu { previous_move: 1, cursor: c as usize, ..m }, ScreenEvent::Nothing)
        } else {
            (m, ScreenEvent::Nothing)
        }
    } else if confirm {
        (TitleMenu { previous_move: 0, going_to_game_screen_state: 0, ..m }, ScreenEvent::Nothing)
    } else {
        (TitleMenu { previous_move: 0, ..m }, ScreenEvent::Nothing)
    }
}

impl TitleMenu {
    pub fn new() -> (r: TitleMenu)
        ensures
            r == (TitleMenu { cursor: 0, previous_move: 0, going_to_game_screen_state: -1i32 }),
    {
        TitleMenu { cursor: 0, previous_move: 0, going_to_game_screen_state: -1 }
    }

    pub open spec fn wf(&self) -> bool {
        self.cursor < MENU_ITEM_COUNT
    }

    /// Advances the menu one tick; the result's flag tells that the choice
    /// was confirmed on this tick (the jingle should start).
    pub fn on_next_frame(&mut self, up: bool, down: bool, confirm: bool) -> (r: (ScreenEvent, bool))
        requires
            old(self).wf(),
        ensures
            final(self).wf(),
            (*final(self), r.0) == menu_step(*old(self), up, down, confirm),
            r.1 == (old(self).going_to_game_screen_state < 0 && final(self).going_to_game_screen_state == 0),
    {
        if self.going_to_game_screen_state >= 0 {
            if self.going_to_game_screen_state < i32::MAX {
                self.going_to_game_screen_state = self.going_to_game_screen_state + 1;
            }
            if self.going_to_game_screen_state >= JINGLE_TIME {
                let (a, b) = menu_players(self.cursor);
                return (ScreenEvent::GoToGameScreen(a, b), false);
            }
            return (ScreenEvent::Nothing, false);
        }
        if up {
            if self.previous_move != -1 {
                self.previous_move = -1;
                self.cursor = if self.cursor == 0 { MENU_ITEM_COUNT - 1 } else { self.cursor - 1 };
            }
            (ScreenEvent::Nothing, false)
        } else if down {
            if self.previous_move != 1 {
                self.previous_move = 1;
                self.cursor = if self.cursor >= MENU_ITEM_COUNT - 1 { 0 } else { self.cursor + 1 };
            }
            (ScreenEvent::Nothing, false)
        } else {
            self.previous_move = 0;
            if confirm {
                self.going_to_game_screen_state = 0;
                (ScreenEvent::Nothing, true)
            } else {
                (ScreenEvent::Nothing, false)
            }
        }
    }

    /// Entry `i` is shown bright: it is selected, and not in the dark half
    /// of the blinking that follows confirmation.
    pub fn item_highlighted(&self, i: usize) -> (r: bool)
        ensures
            r == (i == self.cursor && !(self.going_to_game_screen_state >= 0
                && self.going_to_game_screen_state % 12 < 6)),
    {
        i == self.cursor && !(self.going_to_game_screen_state >= 0 && self.going_to_game_screen_state % 12 < 6)
    }

    /// Opacity of the black veil over the screen in the last quarter
    /// second of the jingle, if any.
    pub fn fade_alpha(&self) -> (r: Option<u8>)
        ensures
            r == if self.going_to_game_screen_state > JINGLE_TIME - 15 {
                Some((255 * (if self.going_to_game_screen_state < JINGLE_TIME { self.going_to_game_screen_state as int } else { JINGLE_TIME as int } - (JINGLE_TIME - 15)) / 15) as u8)
            } else {
                None
            },
    {
        if self.going_to_game_screen_state > JINGLE_TIME - 15 {
            let g = if self.going_to_game_screen_state < JINGLE_TIME { self.going_to_game_screen_state } else { JINGLE_TIME };
            Some((255 * (g - (JINGLE_TIME - 15)) / 15) as u8)
        } else {
            None
        }
    }
}

} // verus!
