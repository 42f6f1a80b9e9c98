//! A piece of flame left by a detonating bomb.

use vstd::prelude::*;
use crate::light_sprite::LightSpriteEvent;

verus! {

/// Ticks a flame stays on the arena.
pub const EXPLOSION_TIME: i32 = 30;

/// Which piece of the blast's cross a flame is.
#[derive(Clone, Copy, PartialEq, Eq, Structural, Debug)]
pub enum Position {
    CENTER,
    VERTICAL,
    HORIZONTAL,
    LEFT,
    TOP,
    RIGHT,
    BOTTOM,
}

impl Position {
    /// Row of the piece in the flame image.
    pub fn row(&self) -> (r: i32)
        ensures
            0 <= r <= 6,
            r == match *self {
                Position::CENTER => 0int,
                Position::VERTICAL => 1,
                Position::HORIZONTAL => 2,
                Position::LEFT => 3,
                Position::TOP => 4,
                Position::RIGHT => 5,
                Position::BOTTOM => 6,
            },
    {
        match self {
            Position::CENTER => 0,
            Position::VERTICAL => 1,
            Position::HORIZONTAL => 2,
            Position::LEFT => 3,
            Position::TOP => 4,
            Position::RIGHT => 5,
            Position::BOTTOM => 6,
        }
    }
}

/// The piece of flame `n` cells from the bomb along direction (`dx`, `dy`),
/// for a blast reaching `power` cells: an end piece at the tip, else a
/// straight one.
pub open spec fn piece_at(dx: int, dy: int, n: int, power: int) -> Position {
    if dx == 0 {
        if n == power {
            if dy > 0 { Position::BOTTOM } else { Position::TOP }
        } else {
            Position::VERTICAL
        }
    } else {
        if n == power {
            if dx > 0 { Position::RIGHT } else { Position::LEFT }
        } else {
            Position::HORIZONTAL
        }
    }
}

pub fn flame_piece(dx: i32, dy: i32, n: u32, power: u32) -> (r: Position)
    ensures
        r == piece_at(dx as int, dy as int, n as int, power as int),
{
    if dx == 0 {
        if n == power {
            if dy > 0 { Position::BOTTOM } else { Position::TOP }
        } else {
            Position::VERTICAL
        }
    } else {
        if n == power {
            if dx > 0 { Position::RIGHT } else { Position::LEFT }
        } else {
            Position::HORIZONTAL
        }
    }
}

#[derive(Clone, Copy, PartialEq, Eq, Structural, Debug)]
pub struct Explosion {
    /// Pixel position of the flame's corner.
    pub x: i32,
    pub y: i32,
    pub position: Position,
    /// Ticks the flame has left.
    pub remain_time: i32,
}

impl Explosion {
    pub fn new(x: i32, y: i32, position: Position) -> (r: Explosion)
        ensures
            r == (Explosion { x, y, position, remain_time: EXPLOSION_TIME }),
    {
        Explosion { x, y, position, remain_time: EXPLOSION_TIME }
    }

    pub fn get_x(&self) -> (r: i32)
        ensures
            r == self.x,
    {
        self.x
    }

    pub fn get_y(&self) -> (r: i32)
        ensures
            r == self.y,
    {
        self.y
    }

    /// Column of the flame image to show: the faint frame during the first
    /// and last few ticks, the bright one in between.
    pub fn frame_column(&self) -> (r: i32)
        ensures
            r == if self.remain_time < 3 || self.remain_time > 27 { 32int } else { 0 },
    {
        if self.remain_time < 3 || self.remain_time > 27 { 32 } else { 0 }
    }

    /// Burns one tick; asks to be removed once burnt out.
    pub fn on_next_frame(&mut self) -> (r: LightSpriteEvent)
        ensures
            *final(self) == (Explosion {
                remain_time: if old(self).remain_time > i32::MIN { (old(self).remain_time - 1) as i32 } else { i32::MIN },
                ..*old(self)
            }),
            r == if final(self).remain_time <= 0 { LightSpriteEvent::DeleteMe } else { LightSpriteEvent::Nothing },
    {
        if self.remain_time > i32::MIN {
            self.remain_time = self.remain_time - 1;
        }
        if self.remain_time <= 0 {
            LightSpriteEvent::DeleteMe
        } else {
            LightSpriteEvent::Nothing
        }
    }
}

} // verus!
