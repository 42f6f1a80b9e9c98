//! How a player's requested movement turns into a new pixel position: two
//! pixels per tick, stopped or slid along by walls, stopped by bombs ahead.

use vstd::prelude::*;
use crate::bomb::Bomb;
use crate::player::Direction;
use crate::player_input::Movement;
use crate::position::Position;
use crate::wall::Wall;

verus! {

/// Pixels a player walks per tick.
pub const WALK_STEP: i32 = 2;

/// Largest pixel coordinate a player may have.
pub const MAX_PIXEL: i32 = 1_000_000;

/// The position after one step in direction `m`, before any collision.
pub open spec fn stepped(x: int, y: int, m: Movement) -> (int, int) {
    match m {
        Movement::LEFT => (x - WALK_STEP, y),
        Movement::RIGHT => (x + WALK_STEP, y),
        Movement::UP => (x, y - WALK_STEP),
        Movement::DOWN => (x, y + WALK_STEP),
        Movement::NONE => (x, y),
    }
}

pub open spec fn abs(a: int) -> int {
    if a >= 0 { a } else { -a }
}

/// A player at (`x`, `y`) overlaps wall `w`.
pub open spec fn touches(w: Wall, x: int, y: int) -> bool {
    abs(w.x - x) < 32 && abs(w.y - y) < 32
}

/// Number of walls a player at (`x`, `y`) overlaps.
pub open spec fn touching_count(walls: Seq<Wall>, x: int, y: int) -> nat
    decreases walls.len(),
{
    if walls.len() == 0 {
        0
    } else {
        touching_count(walls.drop_last(), x, y) + if touches(walls.last(), x, y) { 1nat } else { 0nat }
    }
}

/// Index of the first wall a player at (`x`, `y`) overlaps, or -1.
pub open spec fn first_touching(walls: Seq<Wall>, x: int, y: int) -> int
    decreases walls.len(),
{
    if walls.len() == 0 {
        -1
    } else {
        let r = first_touching(walls.drop_last(), x, y);
        if r >= 0 {
            r
        } else if touches(walls.last(), x, y) {
            walls.len() - 1
        } else {
            -1
        }
    }
}

/// Some bomb lies exactly at pixel position (`x`, `y`).
pub open spec fn bomb_at(bombs: Seq<Bomb>, x: int, y: int) -> bool {
    exists|i: int| 0 <= i < bombs.len() && #[trigger] bombs[i].x == x && bombs[i].y == y
}

/// Sliding round the corner of the single wall `w` met while stepping in
/// direction `m` from (`x`, `y`): the player edges sideways, away from the wall.
pub open spec fn slide(x: int, y: int, m: Movement, w: Wall) -> (int, int) {
    match m {
        Movement::LEFT | Movement::RIGHT => {
            if y < w.y { (x, y - WALK_STEP) } else if y > w.y { (x, y + WALK_STEP) } else { (x, y) }
        },
        Movement::UP | Movement::DOWN => {
            if x < w.x { (x - WALK_STEP, y) } else if x > w.x { (x + WALK_STEP, y) } else { (x, y) }
        },
        Movement::NONE => (x, y),
    }
}

/// The position after walls have had their say: the step stands if it
/// overlaps no wall, becomes a slide if it overlaps exactly one, and is
/// undone if it overlaps more.
pub open spec fn after_walls(x: int, y: int, m: Movement, walls: Seq<Wall>) -> (int, int) {
    let (x1, y1) = stepped(x, y, m);
    let c = touching_count(walls, x1, y1);
    if c == 0 {
        (x1, y1)
    } else if c == 1 {
        slide(x, y, m, walls[first_touching(walls, x1, y1)])
    } else {
        (x, y)
    }
}

/// The cell edge ahead on an axis, when leaving pixel `p0` for `p`: the next
/// cell when `p0` is on a cell edge; otherwise the cell beyond the nearest
/// one, if the move heads there; -1 when no cell is ahead.
pub open spec fn edge_ahead(p0: int, p: int) -> int {
    if p0 % 32 == 0 {
        if p > p0 { p0 + 32 } else { p0 - 32 }
    } else if p0 % 32 < 16 {
        if p > p0 { (p0 / 32 + 1) * 32 } else { -1 }
    } else {
        if p < p0 { (p0 / 32) * 32 } else { -1 }
    }
}

/// The position after bombs have had their say: a horizontal move (checked
/// first when it starts on a cell edge) or else a vertical one is undone
/// when a bomb lies on the cell ahead.
pub open spec fn after_bombs(x0: int, y0: int, x: int, y: int, bombs: Seq<Bomb>) -> (int, int) {
    if x != x0 && x0 % 32 == 0 {
        if bomb_at(bombs, edge_ahead(x0, x), y) { (x0, y) } else { (x, y) }
    } else if y != y0 && y0 % 32 == 0 {
        if bomb_at(bombs, x, edge_ahead(y0, y)) { (x, y0) } else { (x, y) }
    } else if x != x0 {
        if edge_ahead(x0, x) >= 0 && bomb_at(bombs, edge_ahead(x0, x), y) { (x0, y) } else { (x, y) }
    } else if y != y0 {
        if edge_ahead(y0, y) >= 0 && bomb_at(bombs, x, edge_ahead(y0, y)) { (x, y0) } else { (x, y) }
    } else {
        (x, y)
    }
}

/// Where a player at (`x`, `y`) ends up after one tick of movement `m`.
pub open spec fn moved(x: int, y: int, m: Movement, walls: Seq<Wall>, bombs: Seq<Bomb>) -> (int, int) {
    let (x1, y1) = after_walls(x, y, m, walls);
    after_bombs(x, y, x1, y1, bombs)
}

/// The way a player faces after moving in direction `m`.
pub open spec fn facing(d: Direction, m: Movement) -> Direction {
    match m {
        Movement::LEFT => Direction::LEFT,
        Movement::RIGHT => Direction::RIGHT,
        Movement::UP => Direction::UP,
        Movement::DOWN => Direction::DOWN,
        Movement::NONE => d,
    }
}

pub fn face(d: Direction, m: Movement) -> (r: Direction)
    ensures
        r == facing(d, m),
{
    match m {
        Movement::LEFT => Direction::LEFT,
        Movement::RIGHT => Direction::RIGHT,
        Movement::UP => Direction::UP,
        Movement::DOWN => Direction::DOWN,
        Movement::NONE => d,
    }
}

fn count_touching(walls: &Vec<Wall>, x: i32, y: i32) -> (r: (usize, usize))
    requires
        -MAX_PIXEL - 2 <= x <= MAX_PIXEL + 2,
        -MAX_PIXEL - 2 <= y <= MAX_PIXEL + 2,
    ensures
        r.0 == touching_count(walls@, x as int, y as int),
        first_touching(walls@, x as int, y as int) >= 0 ==> r.1 == first_touching(walls@, x as int, y as int),
        first_touching(walls@, x as int, y as int) < walls.len(),
        touching_count(walls@, x as int, y as int) > 0 ==> first_touching(walls@, x as int, y as int) >= 0,
{
    let mut count: usize = 0;
    let mut first: usize = 0;
    let mut k: usize = 0;
    while k < walls.len()
        invariant
            k <= walls.len(),
            -MAX_PIXEL - 2 <= x <= MAX_PIXEL + 2,
            -MAX_PIXEL - 2 <= y <= MAX_PIXEL + 2,
            count == touching_count(walls@.subrange(0, k as int), x as int, y as int),
            count <= k,
            first_touching(walls@.subrange(0, k as int), x as int, y as int) >= 0 ==> first
                == first_touching(walls@.subrange(0, k as int), x as int, y as int),
            first_touching(walls@.subrange(0, k as int), x as int, y as int) < k,
            count > 0 <==> first_touching(walls@.subrange(0, k as int), x as int, y as int) >= 0,
        decreases walls.len() - k,
    {
        let w = walls[k];
        assert(walls@.subrange(0, k + 1).drop_last() =~= walls@.subrange(0, k as int));
        let dx: i64 = w.x as i64 - x as i64;
        let dy: i64 = w.y as i64 - y as i64;
        let hit = -32 < dx && dx < 32 && -32 < dy && dy < 32;
        if hit {
            if count == 0 {
                first = k;
            }
            count = count + 1;
        }
        k = k + 1;
    }
    assert(walls@.subrange(0, walls.len() as int) =~= walls@);
    (count, first)
}

fn any_bomb_at(bombs: &Vec<Bomb>, x: i32, y: i32) -> (r: bool)
    ensures
        r == bomb_at(bombs@, x as int, y as int),
{
    let mut k: usize = 0;
    while k < bombs.len()
        invariant
            k <= bombs.len(),
            forall|i: int| 0 <= i < k ==> !(#[trigger] bombs@[i].x == x && bombs@[i].y == y),
        decreases bombs.len() - k,
    {
        if bombs[k].x == x && bombs[k].y == y {
            return true;
        }
        k = k + 1;
    }
    false
}

fn edge_ahead_of(p0: i32, p: i32) -> (r: i32)
    requires
        0 <= p0 <= MAX_PIXEL,
    ensures
        r == edge_ahead(p0 as int, p as int),
{
    if p0 % 32 == 0 {
        if p > p0 { p0 + 32 } else { p0 - 32 }
    } else if p0 % 32 < 16 {
        if p > p0 { (p0 / 32 + 1) * 32 } else { -1 }
    } else {
        if p < p0 { (p0 / 32) * 32 } else { -1 }
    }
}

/// Moves a player at pixel position `from` one tick in direction `movement`,
/// resolving collisions with `walls` and `bombs`.
pub fn resolve_movement(from: Position, movement: Movement, walls: &Vec<Wall>, bombs: &Vec<Bomb>) -> (r: Position)
    requires
        0 <= from.x <= MAX_PIXEL,
        0 <= from.y <= MAX_PIXEL,
    ensures
        (r.x as int, r.y as int) == moved(from.x as int, from.y as int, movement, walls@, bombs@),
{
    let x0 = from.x;
    let y0 = from.y;
    let (x1, y1) = match movement {
        Movement::LEFT => (x0 - WALK_STEP, y0),
        Movement::RIGHT => (x0 + WALK_STEP, y0),
        Movement::UP => (x0, y0 - WALK_STEP),
        Movement::DOWN => (x0, y0 + WALK_STEP),
        Movement::NONE => (x0, y0),
    };
    let (count, first) = count_touching(walls, x1, y1);
    let (x, y) = if count == 0 {
        (x1, y1)
    } else if count == 1 {
        let w = walls[first];
        match movement {
            Movement::LEFT | Movement::RIGHT => {
                if y0 < w.y { (x0, y0 - WALK_STEP) } else if y0 > w.y { (x0, y0 + WALK_STEP) } else { (x0, y0) }
            },
            Movement::UP | Movement::DOWN => {
                if x0 < w.x { (x0 - WALK_STEP, y0) } else if x0 > w.x { (x0 + WALK_STEP, y0) } else { (x0, y0) }
            },
            Movement::NONE => (x0, y0),
        }
    } else {
        (x0, y0)
    };
    assert((x as int, y as int) == after_walls(x0 as int, y0 as int, movement, walls@));
    let (rx, ry) = if x != x0 && x0 % 32 == 0 {
        if any_bomb_at(bombs, edge_ahead_of(x0, x), y) { (x0, y) } else { (x, y) }
    } else if y != y0 && y0 % 32 == 0 {
        if any_bomb_at(bombs, x, edge_ahead_of(y0, y)) { (x, y0) } else { (x, y) }
    } else if x != x0 {
        let bx = edge_ahead_of(x0, x);
        if bx >= 0 && any_bomb_at(bombs, bx, y) { (x0, y) } else { (x, y) }
    } else if y != y0 {
        let by = edge_ahead_of(y0, y);
        if by >= 0 && any_bomb_at(bombs, x, by) { (x, y0) } else { (x, y) }
    } else {
        (x, y)
    };
    Position { x: rx, y: ry }
}

} // verus!
