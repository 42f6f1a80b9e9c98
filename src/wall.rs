//! A wall of the arena; a breakable one melts away after a blast reaches it.

use vstd::prelude::*;
use rand::Rng;
use crate::light_sprite::LightSpriteEvent;

verus! {

/// Ticks a breakable wall takes to melt away.
pub const TIME_TO_MELT: i32 = 30;

/// Chance, in percent, that a melted wall leaves a power-up item behind.
pub const POWER_UP_CHANCE: u32 = 10;

/// Relies on `rand::thread_rng` and `Rng::gen_range(0, 100)`: a value drawn
/// from `0 .. 100`.
#[verifier::external_body]
pub(crate) fn roll_percent() -> (r: u32)
    ensures
        r < 100,
{
    rand::thread_rng().gen_range(0u32, 100u32)
}

#[derive(Clone, Copy, PartialEq, Eq, Structural, Debug)]
pub struct Wall {
    /// Pixel position of the wall's corner.
    pub x: i32,
    pub y: i32,
    pub is_breakable: bool,
    /// 0 while standing; counts the ticks of melting after that.
    pub melt_state: i32,
}

/// What a melting wall asks for after a tick, given a roll from `0 .. 100`.
pub open spec fn melt_event(melt_state: int, roll: int) -> LightSpriteEvent {
    if melt_state >= TIME_TO_MELT {
        if roll < POWER_UP_CHANCE { LightSpriteEvent::CreatePowerUpItem } else { LightSpriteEvent::DeleteMe }
    } else {
        LightSpriteEvent::Nothing
    }
}

impl Wall {
    pub open spec fn new_spec(x: i32, y: i32, is_breakable: bool) -> Wall {
        Wall { x, y, is_breakable, melt_state: 0 }
    }

    pub fn new(x: i32, y: i32, is_breakable: bool) -> (r: Wall)
        ensures
            r == Wall::new_spec(x, y, is_breakable),
    {
        Wall { x, y, is_breakable, melt_state: 0 }
    }

    pub fn get_x(&self) -> (r: i32)
        ensures
            r == self.x,
    {
        self.x
    }

    pub fn get_y(&self) -> (r: i32)
        ensures
            r == self.y,
    {
        self.y
    }

    /// Starts melting the wall, unless it already is.
    pub fn start_melting(&mut self)
        requires
            old(self).melt_state >= 0,
        ensures
            *final(self) == (if old(self).melt_state == 0 { Wall { melt_state: 1, ..*old(self) } } else { *old(self) }),
    {
        if self.melt_state == 0 {
            self.melt_state = 1;
        }
    }

    pub fn is_melting(&self) -> (r: bool)
        ensures
            r == (self.melt_state > 0),
    {
        self.melt_state > 0
    }

    /// Advances melting by one tick with the chance roll `roll`; a wall that
    /// has melted asks to be removed, or replaced by a power-up item when
    /// the roll is below the chance.
    pub fn advance_melting(&mut self, roll: u32) -> (r: LightSpriteEvent)
        ensures
            final(self).x == old(self).x,
            final(self).y == old(self).y,
            final(self).is_breakable == old(self).is_breakable,
            old(self).melt_state > 0 ==> final(self).melt_state == if old(self).melt_state < i32::MAX {
                old(self).melt_state + 1
            } else {
                old(self).melt_state as int
            },
            old(self).melt_state > 0 ==> r == melt_event(final(self).melt_state as int, roll as int),
            old(self).melt_state <= 0 ==> *final(self) == *old(self) && r == LightSpriteEvent::Nothing,
    {
        if self.melt_state > 0 {
            if self.melt_state < i32::MAX {
                self.melt_state = self.melt_state + 1;
            }
            if self.melt_state >= TIME_TO_MELT {
                if roll < POWER_UP_CHANCE {
                    return LightSpriteEvent::CreatePowerUpItem;
                }
                return LightSpriteEvent::DeleteMe;
            }
        }
        LightSpriteEvent::Nothing
    }

    /// Advances melting by one tick, drawing the power-up chance at random.
    pub fn on_next_frame(&mut self) -> (r: LightSpriteEvent)
        ensures
            final(self).x == old(self).x,
            final(self).y == old(self).y,
            final(self).is_breakable == old(self).is_breakable,
            old(self).melt_state > 0 ==> final(self).melt_state == if old(self).melt_state < i32::MAX {
                old(self).melt_state + 1
            } else {
                old(self).melt_state as int
            },
            old(self).melt_state > 0 && final(self).melt_state < TIME_TO_MELT ==> r == LightSpriteEvent::Nothing,
            old(self).melt_state > 0 && final(self).melt_state >= TIME_TO_MELT ==> r != LightSpriteEvent::Nothing,
            old(self).melt_state <= 0 ==> *final(self) == *old(self) && r == LightSpriteEvent::Nothing,
    {
        let roll = if self.melt_state > 0 && self.melt_state >= TIME_TO_MELT - 1 {
            roll_percent()
        } else {
            POWER_UP_CHANCE
        };
        self.advance_melting(roll)
    }
}

} // verus!
