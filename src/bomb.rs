//! A lit bomb lying on the arena.

use vstd::prelude::*;
use crate::constants::BOMB_TIME;
use crate::light_sprite::LightSpriteEvent;

verus! {

#[derive(Clone, Copy, PartialEq, Eq, Structural, Debug)]
pub struct Bomb {
    /// Pixel position of the bomb's corner.
    pub x: i32,
    pub y: i32,
    /// Cells the blast reaches along each axis.
    pub power: u32,
    /// Ticks until it detonates.
    pub remain_time: i32,
}

impl Bomb {
    pub fn new(x: i32, y: i32, power: u32) -> (r: Bomb)
        ensures
            r == (Bomb { x, y, power, remain_time: BOMB_TIME }),
    {
        Bomb { x, y, power, remain_time: BOMB_TIME }
    }

    pub fn get_x(&self) -> (r: i32)
        ensures
            r == self.x,
    {
        self.x
    }

    pub fn get_y(&self) -> (r: i32)
        ensures
            r == self.y,
    {
        self.y
    }

    /// Burns one tick of the fuse; asks to be removed once it has burnt down.
    pub fn on_next_frame(&mut self) -> (r: LightSpriteEvent)
        ensures
            final(self).x == old(self).x,
            final(self).y == old(self).y,
            final(self).power == old(self).power,
            final(self).remain_time == if old(self).remain_time > i32::MIN { old(self).remain_time - 1 } else { i32::MIN as int },
            r == if final(self).remain_time <= 0 { LightSpriteEvent::DeleteMe } else { LightSpriteEvent::Nothing },
    {
        if self.remain_time > i32::MIN {
            self.remain_time = self.remain_time - 1;
        }
        if self.remain_time <= 0 {
            LightSpriteEvent::DeleteMe
        } else {
            LightSpriteEvent::Nothing
        }
    }
}

} // verus!
