//! Rules of the game world between ticks: blasts spreading from detonating
//! bombs, players bumping into each other, picking up items, dropping bombs,
//! getting caught by flames, and who has won.

use vstd::prelude::*;
use crate::bomb::Bomb;
use crate::constants::{BOMB_TIME, MAP_HEIGHT, MAP_WIDTH};
use crate::explosion::{flame_piece, piece_at, Explosion, EXPLOSION_TIME};
use crate::movement::{abs, bomb_at, MAX_PIXEL};
use crate::position::Position;
use crate::power_up_item::PowerUpItem;
use crate::wall::{roll_percent, Wall};

verus! {

/// The sprites a blast acts on.
pub struct World {
    pub walls: Seq<Wall>,
    pub bombs: Seq<Bomb>,
    pub items: Seq<PowerUpItem>,
    pub explosions: Seq<Explosion>,
}

/// Index of the first entry of `spots` equal to (`x`, `y`), or -1.
pub open spec fn first_at(spots: Seq<(int, int)>, x: int, y: int) -> int
    decreases spots.len(),
{
    if spots.len() == 0 {
        -1
    } else {
        let r = first_at(spots.drop_last(), x, y);
        if r >= 0 {
            r
        } else if spots.last() == (x, y) {
            spots.len() - 1
        } else {
            -1
        }
    }
}

pub open spec fn wall_spots(walls: Seq<Wall>) -> Seq<(int, int)> {
    walls.map_values(|w: Wall| (w.x as int, w.y as int))
}

pub open spec fn bomb_spots(bombs: Seq<Bomb>) -> Seq<(int, int)> {
    bombs.map_values(|b: Bomb| (b.x as int, b.y as int))
}

pub open spec fn item_spots(items: Seq<PowerUpItem>) -> Seq<(int, int)> {
    items.map_values(|it: PowerUpItem| (it.x as int, it.y as int))
}

pub proof fn lemma_first_at_range(spots: Seq<(int, int)>, x: int, y: int)
    ensures
        -1 <= first_at(spots, x, y) < spots.len(),
        first_at(spots, x, y) >= 0 ==> spots[first_at(spots, x, y)] == (x, y),
    decreases spots.len(),
{
    if spots.len() > 0 {
        lemma_first_at_range(spots.drop_last(), x, y);
    }
}

/// A wall hit by a blast: a breakable one starts melting.
pub open spec fn blasted_wall(w: Wall) -> Wall {
    if w.is_breakable && w.melt_state == 0 { Wall { melt_state: 1, ..w } } else { w }
}

/// The world after the blast of `bomb` has spread from its `n`-th cell on in
/// direction (`dx`, `dy`): it stops at the first wall (melting it when
/// breakable), bomb (setting it off next tick) or power-up item (destroying
/// it), and leaves a flame on each empty cell up to the bomb's reach.
pub open spec fn blast_outcome(world: World, bomb: Bomb, dx: int, dy: int, n: int) -> World
    decreases bomb.power + 1 - n,
{
    if n < 1 || n > bomb.power {
        world
    } else {
        let x = bomb.x + dx * n * 32;
        let y = bomb.y + dy * n * 32;
        let wi = first_at(wall_spots(world.walls), x, y);
        let bi = first_at(bomb_spots(world.bombs), x, y);
        let ii = first_at(item_spots(world.items), x, y);
        if wi >= 0 {
            World { walls: world.walls.update(wi, blasted_wall(world.walls[wi])), ..world }
        } else if bi >= 0 {
            World { bombs: world.bombs.update(bi, Bomb { remain_time: 1, ..world.bombs[bi] }), ..world }
        } else if ii >= 0 {
            World { items: world.items.remove(ii), ..world }
        } else {
            let flame = Explosion { x: x as i32, y: y as i32, position: piece_at(dx, dy, n, bomb.power as int), remain_time: EXPLOSION_TIME };
            blast_outcome(World { explosions: world.explosions.push(flame), ..world }, bomb, dx, dy, n + 1)
        }
    }
}

/// (`dx`, `dy`) is one of the four axis directions.
pub open spec fn unit_axis(dx: int, dy: int) -> bool {
    (dx == 0 && (dy == 1 || dy == -1)) || (dy == 0 && (dx == 1 || dx == -1))
}

/// Every cell of the bomb's reach has pixel coordinates that fit.
pub open spec fn reach_fits(bomb: Bomb) -> bool {
    &&& i32::MIN <= bomb.x - bomb.power * 32
    &&& bomb.x + bomb.power * 32 <= i32::MAX
    &&& i32::MIN <= bomb.y - bomb.power * 32
    &&& bomb.y + bomb.power * 32 <= i32::MAX
}

fn find_wall(walls: &Vec<Wall>, x: i32, y: i32) -> (r: Option<usize>)
    ensures
        match r {
            Some(i) => i as int == first_at(wall_spots(walls@), x as int, y as int) && i < walls.len(),
            None => first_at(wall_spots(walls@), x as int, y as int) == -1,
        },
{
    let mut k: usize = 0;
    while k < walls.len()
        invariant
            k <= walls.len(),
            first_at(wall_spots(walls@).subrange(0, k as int), x as int, y as int) == -1,
        decreases walls.len() - k,
    {
        assert(wall_spots(walls@).subrange(0, k + 1).drop_last() =~= wall_spots(walls@).subrange(0, k as int));
        if walls[k].x == x && walls[k].y == y {
            proof {
                lemma_first_at_prefix(wall_spots(walls@), k as int, x as int, y as int);
            }
            return Some(k);
        }
        k = k + 1;
    }
    assert(wall_spots(walls@).subrange(0, walls.len() as int) =~= wall_spots(walls@));
    None
}

fn find_bomb(bombs: &Vec<Bomb>, x: i32, y: i32) -> (r: Option<usize>)
    ensures
        match r {
            Some(i) => i as int == first_at(bomb_spots(bombs@), x as int, y as int) && i < bombs.len(),
            None => first_at(bomb_spots(bombs@), x as int, y as int) == -1,
        },
{
    let mut k: usize = 0;
    while k < bombs.len()
        invariant
            k <= bombs.len(),
            first_at(bomb_spots(bombs@).subrange(0, k as int), x as int, y as int) == -1,
        decreases bombs.len() - k,
    {
        assert(bomb_spots(bombs@).subrange(0, k + 1).drop_last() =~= bomb_spots(bombs@).subrange(0, k as int));
        if bombs[k].x == x && bombs[k].y == y {
            proof {
                lemma_first_at_prefix(bomb_spots(bombs@), k as int, x as int, y as int);
            }
            return Some(k);
        }
        k = k + 1;
    }
    assert(bomb_spots(bombs@).subrange(0, bombs.len() as int) =~= bomb_spots(bombs@));
    None
}

fn find_item(items: &Vec<PowerUpItem>, x: i32, y: i32) -> (r: Option<usize>)
    ensures
        match r {
            Some(i) => i as int == first_at(item_spots(items@), x as int, y as int) && i < items.len(),
            None => first_at(item_spots(items@), x as int, y as int) == -1,
        },
{
    let mut k: usize = 0;
    while k < items.len()
        invariant
            k <= items.len(),
            first_at(item_spots(items@).subrange(0, k as int), x as int, y as int) == -1,
        decreases items.len() - k,
    {
        assert(item_spots(items@).subrange(0, k + 1).drop_last() =~= item_spots(items@).subrange(0, k as int));
        if items[k].x == x && items[k].y == y {
            proof {
                lemma_first_at_prefix(item_spots(items@), k as int, x as int, y as int);
            }
            return Some(k);
        }
        k = k + 1;
    }
    assert(item_spots(items@).subrange(0, items.len() as int) =~= item_spots(items@));
    None
}

/// A match at `k` after none before it is the first match.
pub proof fn lemma_first_at_prefix(spots: Seq<(int, int)>, k: int, x: int, y: int)
    requires
        0 <= k < spots.len(),
        first_at(spots.subrange(0, k), x, y) == -1,
        spots[k] == (x, y),
    ensures
        first_at(spots, x, y) == k,
    decreases spots.len(),
{
    if k < spots.len() - 1 {
        assert(spots.drop_last().subrange(0, k) =~= spots.subrange(0, k));
        lemma_first_at_prefix(spots.drop_last(), k, x, y);
    } else {
        assert(spots.drop_last() =~= spots.subrange(0, k));
    }
}

/// Spreads the blast of `bomb` in direction (`xx`, `yy`).
pub fn expand_explosion(
    walls: &mut Vec<Wall>,
    bombs: &mut Vec<Bomb>,
    items: &mut Vec<PowerUpItem>,
    explosions: &mut Vec<Explosion>,
    bomb: &Bomb,
    xx: i32,
    yy: i32,
)
    requires
        unit_axis(xx as int, yy as int),
        reach_fits(*bomb),
    ensures
        (World { walls: final(walls)@, bombs: final(bombs)@, items: final(items)@, explosions: final(explosions)@ })
            == blast_outcome(
                World { walls: old(walls)@, bombs: old(bombs)@, items: old(items)@, explosions: old(explosions)@ },
                *bomb,
                xx as int,
                yy as int,
                1,
            ),
{
    let ghost target = blast_outcome(
        World { walls: walls@, bombs: bombs@, items: items@, explosions: explosions@ },
        *bomb,
        xx as int,
        yy as int,
        1,
    );
    let power = bomb.power as u64;
    let mut n: u64 = 1;
    let mut stopped = false;
    while n <= power && !stopped
        invariant
            unit_axis(xx as int, yy as int),
            reach_fits(*bomb),
            power == bomb.power,
            1 <= n <= power + 1,
            !stopped ==> blast_outcome(
                World { walls: walls@, bombs: bombs@, items: items@, explosions: explosions@ },
                *bomb,
                xx as int,
                yy as int,
                n as int,
            ) == target,
            stopped ==> (World { walls: walls@, bombs: bombs@, items: items@, explosions: explosions@ }) == target,
        decreases power + 1 - n, if stopped { 0int } else { 1int },
    {
        let ghost cur = World { walls: walls@, bombs: bombs@, items: items@, explosions: explosions@ };
        assert(n * 32 <= bomb.power * 32);
        let step: i64 = (n as i64) * 32;
        let x: i32 = (bomb.x as i64 + (xx as i64) * step) as i32;
        let y: i32 = (bomb.y as i64 + (yy as i64) * step) as i32;
        assert(x == bomb.x + xx * n * 32 && y == bomb.y + yy * n * 32) by (nonlinear_arith)
            requires
                step == n * 32,
                x == bomb.x + xx * step,
                y == bomb.y + yy * step;
        proof {
            lemma_first_at_range(wall_spots(walls@), x as int, y as int);
            lemma_first_at_range(bomb_spots(bombs@), x as int, y as int);
        }
        let ghost want = blast_outcome(cur, *bomb, xx as int, yy as int, n as int);
        if let Some(i) = find_wall(walls, x, y) {
            let mut w = walls[i];
            if w.is_breakable && w.melt_state >= 0 {
                w.start_melting();
            }
            walls.set(i, w);
            assert(walls@ =~= want.walls);
            stopped = true;
        } else if let Some(i) = find_bomb(bombs, x, y) {
            let b = bombs[i];
            bombs.set(i, Bomb { remain_time: 1, ..b });
            assert(bombs@ =~= want.bombs);
            stopped = true;
        } else if let Some(i) = find_item(items, x, y) {
            items.remove(i);
            stopped = true;
        } else {
            let piece = flame_piece(xx, yy, n as u32, bomb.power);
            explosions.push(Explosion::new(x, y, piece));
            n = n + 1;
        }
    }
}

/// Which players bump back to where they stood before the tick when the two
/// (alive) players overlap: the one whose earlier position still overlaps
/// the other stays, unless both or neither do, when both go back.
pub open spec fn collision_pops(p0: Position, pushed0: Position, p1: Position, pushed1: Position) -> (bool, bool) {
    if abs(p0.x - p1.x) < 32 && abs(p0.y - p1.y) < 32 {
        let stuck0 = abs(pushed0.x - p1.x) < 32 && abs(pushed0.y - p1.y) < 32;
        let stuck1 = abs(p0.x - pushed1.x) < 32 && abs(p0.y - pushed1.y) < 32;
        if !stuck0 && stuck1 {
            (true, false)
        } else if stuck0 && !stuck1 {
            (false, true)
        } else {
            (true, true)
        }
    } else {
        (false, false)
    }
}

fn overlaps(ax: i32, ay: i32, bx: i32, by: i32, reach: i64) -> (r: bool)
    requires
        0 < reach <= 1000,
    ensures
        r == (abs(ax - bx) < reach && abs(ay - by) < reach),
{
    let dx: i64 = ax as i64 - bx as i64;
    let dy: i64 = ay as i64 - by as i64;
    -reach < dx && dx < reach && -reach < dy && dy < reach
}

/// Decides which of the two players step back to their earlier positions
/// (`pushed0`, `pushed1`); nobody does when either player is dead.
pub fn players_collision_detect(
    p0: Position,
    pushed0: Position,
    dead0: bool,
    p1: Position,
    pushed1: Position,
    dead1: bool,
) -> (r: (bool, bool))
    ensures
        r == if dead0 || dead1 { (false, false) } else { collision_pops(p0, pushed0, p1, pushed1) },
{
    if dead0 || dead1 {
        return (false, false);
    }
    if overlaps(p0.x, p0.y, p1.x, p1.y, 32) {
        let stuck0 = overlaps(pushed0.x, pushed0.y, p1.x, p1.y, 32);
        let stuck1 = overlaps(p0.x, p0.y, pushed1.x, pushed1.y, 32);
        if !stuck0 && stuck1 {
            (true, false)
        } else if stuck0 && !stuck1 {
            (false, true)
        } else {
            (true, true)
        }
    } else {
        (false, false)
    }
}

/// The items a player at (`x`, `y`) does not touch, in order.
pub open spec fn items_left(items: Seq<PowerUpItem>, x: int, y: int) -> Seq<PowerUpItem>
    decreases items.len(),
{
    if items.len() == 0 {
        items
    } else {
        let rest = items_left(items.drop_last(), x, y);
        let it = items.last();
        if abs(it.x - x) < 32 && abs(it.y - y) < 32 { rest } else { rest.push(it) }
    }
}

/// Picks up every item a player at (`x`, `y`) touches; returns how many.
pub fn collect_items(items: &mut Vec<PowerUpItem>, x: i32, y: i32) -> (r: u32)
    requires
        old(items).len() <= u32::MAX,
    ensures
        final(items)@ == items_left(old(items)@, x as int, y as int),
        r == old(items)@.len() - final(items)@.len(),
{
    let mut kept: Vec<PowerUpItem> = Vec::new();
    let mut picked: u32 = 0;
    let mut k: usize = 0;
    while k < items.len()
        invariant
            k <= items.len(),
            items.len() <= u32::MAX,
            kept@ == items_left(items@.subrange(0, k as int), x as int, y as int),
            picked as int == k - kept.len(),
            kept.len() <= k,
        decreases items.len() - k,
    {
        assert(items@.subrange(0, k + 1).drop_last() =~= items@.subrange(0, k as int));
        let it = items[k];
        if overlaps(it.x, it.y, x, y, 32) {
            picked = picked + 1;
        } else {
            kept.push(it);
        }
        k = k + 1;
    }
    assert(items@.subrange(0, items.len() as int) =~= items@);
    *items = kept;
    picked
}

/// The corner of the cell that a player at pixel `p` stands over.
pub open spec fn cell_corner(p: int) -> int {
    (p + 16) / 32 * 32
}

/// Drops a bomb of reach `power` on the cell a player at (`x`, `y`) stands
/// over, unless one lies there already; tells whether it did.
pub fn place_bomb(bombs: &mut Vec<Bomb>, x: i32, y: i32, power: u32) -> (r: bool)
    requires
        0 <= x <= MAX_PIXEL,
        0 <= y <= MAX_PIXEL,
    ensures
        r == !bomb_at(old(bombs)@, cell_corner(x as int), cell_corner(y as int)),
        final(bombs)@ == if r {
            old(bombs)@.push(Bomb { x: cell_corner(x as int) as i32, y: cell_corner(y as int) as i32, power, remain_time: BOMB_TIME })
        } else {
            old(bombs)@
        },
{
    let bx = (x + 16) / 32 * 32;
    let by = (y + 16) / 32 * 32;
    let mut k: usize = 0;
    while k < bombs.len()
        invariant
            k <= bombs.len(),
            bx == cell_corner(x as int),
            by == cell_corner(y as int),
            forall|i: int| 0 <= i < k ==> !(#[trigger] bombs@[i].x == bx && bombs@[i].y == by),
        decreases bombs.len() - k,
    {
        if bombs[k].x == bx && bombs[k].y == by {
            assert(bombs@[k as int].x == cell_corner(x as int) && bombs@[k as int].y == cell_corner(y as int));
            return false;
        }
        k = k + 1;
    }
    bombs.push(Bomb::new(bx, by, power));
    true
}

/// Some flame overlaps a player at (`x`, `y`) by more than a few pixels.
pub open spec fn caught(explosions: Seq<Explosion>, x: int, y: int) -> bool {
    exists|i: int| 0 <= i < explosions.len() && abs(#[trigger] explosions[i].x - x) < 28 && abs(explosions[i].y - y) < 28
}

pub fn caught_by_explosion(explosions: &Vec<Explosion>, x: i32, y: i32) -> (r: bool)
    ensures
        r == caught(explosions@, x as int, y as int),
{
    let mut k: usize = 0;
    while k < explosions.len()
        invariant
            k <= explosions.len(),
            forall|i: int| 0 <= i < k ==> !(abs(#[trigger] explosions@[i].x - x) < 28 && abs(explosions@[i].y - y) < 28),
        decreases explosions.len() - k,
    {
        let e = explosions[k];
        if overlaps(e.x, e.y, x, y, 28) {
            return true;
        }
        k = k + 1;
    }
    false
}

/// Stage of a game.
#[derive(Clone, Copy, PartialEq, Eq, Structural, Debug)]
pub enum GameState {
    Playing,
    Player1Won,
    Player2Won,
    DrawGame,
}

/// The stage after a tick: a game in play ends when a player dies, drawn if
/// both do; an ended game stays ended.
pub fn next_game_state(state: GameState, dead0: bool, dead1: bool) -> (r: GameState)
    ensures
        r == match state {
            GameState::Playing => {
                if dead0 && dead1 {
                    GameState::DrawGame
                } else if dead0 {
                    GameState::Player2Won
                } else if dead1 {
                    GameState::Player1Won
                } else {
                    GameState::Playing
                }
            },
            _ => state,
        },
{
    match state {
        GameState::Playing => {
            if dead0 && dead1 {
                GameState::DrawGame
            } else if dead0 {
                GameState::Player2Won
            } else if dead1 {
                GameState::Player1Won
            } else {
                GameState::Playing
            }
        },
        _ => state,
    }
}

/// Cells that always hold a wall that cannot break: the border, and every
/// cell with both coordinates even.
pub open spec fn solid_cell(cx: int, cy: int) -> bool {
    cx == 0 || cy == 0 || cx == MAP_WIDTH - 1 || cy == MAP_HEIGHT - 1 || (cx % 2 == 0 && cy % 2 == 0)
}

/// Cells kept free round the players' starting corners.
pub open spec fn spawn_area(cx: int, cy: int) -> bool {
    (cx < 3 && cy < 3) || (cx > MAP_WIDTH - 4 && cy > MAP_HEIGHT - 4)
}

/// Number of cells of a game's arena.
pub const ARENA_CELLS: usize = 375;

/// The wall that cell (`cx`, `cy`) of a new arena gets, given the draw
/// `draw` from `0 .. 100` made for it: an unbreakable wall on the fixed
/// cells; elsewhere, outside the starting corners, a breakable one when the
/// draw is below 50; else none.
pub open spec fn cell_wall(cx: int, cy: int, draw: int) -> Option<Wall> {
    if solid_cell(cx, cy) {
        Some(Wall::new_spec((cx * 32) as i32, (cy * 32) as i32, false))
    } else if !spawn_area(cx, cy) && draw < 50 {
        Some(Wall::new_spec((cx * 32) as i32, (cy * 32) as i32, true))
    } else {
        None
    }
}

/// Row-major index of the cell a wall stands on.
pub open spec fn wall_cell(w: Wall) -> int {
    (w.y / 32) * (MAP_WIDTH as int) + w.x / 32
}

/// `walls` is the arena laid out with `draws` (one per cell, row by row):
/// each wall is the one its cell gets, each cell that gets a wall has it,
/// and no cell holds two walls.
pub open spec fn laid_out(walls: Seq<Wall>, draws: Seq<u32>) -> bool {
    &&& forall|i: int|
        0 <= i < walls.len() ==> 0 <= wall_cell(#[trigger] walls[i]) < ARENA_CELLS && cell_wall(
            wall_cell(walls[i]) % (MAP_WIDTH as int),
            wall_cell(walls[i]) / (MAP_WIDTH as int),
            draws[wall_cell(walls[i])] as int,
        ) == Some(walls[i])
    &&& forall|k: int|
        0 <= k < ARENA_CELLS && (#[trigger] cell_wall(k % (MAP_WIDTH as int), k / (MAP_WIDTH as int), draws[k] as int)) is Some ==> exists|i: int|
            0 <= i < walls.len() && Some(#[trigger] walls[i]) == cell_wall(k % (MAP_WIDTH as int), k / (MAP_WIDTH as int), draws[k] as int)
    &&& forall|i: int, j: int|
        0 <= i < j < walls.len() ==> (#[trigger] walls[i]).x != (#[trigger] walls[j]).x || walls[i].y != walls[j].y
}

proof fn lemma_cell_wall_index(k: int)
    requires
        0 <= k < ARENA_CELLS,
    ensures
        ({
            let cx = k % (MAP_WIDTH as int);
            let cy = k / (MAP_WIDTH as int);
            let w = Wall::new_spec((cx * 32) as i32, (cy * 32) as i32, false);
            &&& 0 <= cx < MAP_WIDTH
            &&& 0 <= cy < MAP_HEIGHT
            &&& wall_cell(w) == k
            &&& wall_cell(Wall { is_breakable: true, ..w }) == k
        }),
{
    let cx = k % (MAP_WIDTH as int);
    let cy = k / (MAP_WIDTH as int);
    vstd::arithmetic::div_mod::lemma_fundamental_div_mod(k, MAP_WIDTH as int);
    assert(0 <= cx < 25 && 0 <= cy < 15) by (nonlinear_arith)
        requires cx == k % 25, cy == k / 25, 0 <= k < 375;
    assert((cx * 32) / 32 == cx && (cy * 32) / 32 == cy) by (nonlinear_arith)
        requires 0 <= cx, 0 <= cy;
}

/// Lays out the walls of a new arena from one draw per cell (row by row;
/// only the draws of cells that may hold a breakable wall matter).
pub fn arena_layout(draws: &Vec<u32>) -> (r: Vec<Wall>)
    requires
        draws.len() == ARENA_CELLS,
    ensures
        laid_out(r@, draws@),
{
    let mut walls: Vec<Wall> = Vec::new();
    let mut k: usize = 0;
    while k < ARENA_CELLS
        invariant
            k <= ARENA_CELLS,
            draws.len() == ARENA_CELLS,
            forall|i: int|
                0 <= i < walls.len() ==> 0 <= wall_cell(#[trigger] walls@[i]) < k && cell_wall(
                    wall_cell(walls@[i]) % (MAP_WIDTH as int),
                    wall_cell(walls@[i]) / (MAP_WIDTH as int),
                    draws@[wall_cell(walls@[i])] as int,
                ) == Some(walls@[i]),
            forall|q: int|
                0 <= q < k && (#[trigger] cell_wall(q % (MAP_WIDTH as int), q / (MAP_WIDTH as int), draws@[q] as int)) is Some ==> exists|i: int|
                    0 <= i < walls.len() && Some(#[trigger] walls@[i]) == cell_wall(q % (MAP_WIDTH as int), q / (MAP_WIDTH as int), draws@[q] as int),
            forall|i: int, j: int| 0 <= i < j < walls.len() ==> wall_cell(#[trigger] walls@[i]) < wall_cell(#[trigger] walls@[j]),
        decreases ARENA_CELLS - k,
    {
        let ghost before = walls@;
        proof {
            lemma_cell_wall_index(k as int);
        }
        let x = (k % 25) as i32;
        let y = (k / 25) as i32;
        let solid = x == 0 || y == 0 || x == MAP_WIDTH - 1 || y == MAP_HEIGHT - 1 || (x % 2 == 0 && y % 2 == 0);
        let spawn = (x < 3 && y < 3) || (x > MAP_WIDTH - 4 && y > MAP_HEIGHT - 4);
        if solid {
            walls.push(Wall::new(x * 32, y * 32, false));
        } else if !spawn && draws[k] < 50 {
            walls.push(Wall::new(x * 32, y * 32, true));
        }
        proof {
            let cw = cell_wall(k as int % (MAP_WIDTH as int), k as int / (MAP_WIDTH as int), draws@[k as int] as int);
            if cw is Some {
                assert(walls@.len() == before.len() + 1);
                assert(walls@[before.len() as int] == cw->0);
                assert(wall_cell(walls@[before.len() as int]) == k);
            } else {
                assert(walls@ == before);
            }
            assert forall|i: int|
                0 <= i < walls.len() implies 0 <= wall_cell(#[trigger] walls@[i]) < k + 1 && cell_wall(
                    wall_cell(walls@[i]) % (MAP_WIDTH as int),
                    wall_cell(walls@[i]) / (MAP_WIDTH as int),
                    draws@[wall_cell(walls@[i])] as int,
                ) == Some(walls@[i]) by {
                if i < before.len() {
                    assert(walls@[i] == before[i]);
                }
            }
            assert forall|q: int|
                0 <= q < k + 1 && (#[trigger] cell_wall(q % (MAP_WIDTH as int), q / (MAP_WIDTH as int), draws@[q] as int)) is Some implies exists|i: int|
                    0 <= i < walls.len() && Some(#[trigger] walls@[i]) == cell_wall(q % (MAP_WIDTH as int), q / (MAP_WIDTH as int), draws@[q] as int) by {
                if q < k {
                    let i = choose|i: int| 0 <= i < before.len() && Some(#[trigger] before[i]) == cell_wall(q % (MAP_WIDTH as int), q / (MAP_WIDTH as int), draws@[q] as int);
                    assert(walls@[i] == before[i]);
                } else {
                    assert(walls@[before.len() as int] == cw->0);
                }
            }
            assert forall|i: int, j: int| 0 <= i < j < walls.len() implies wall_cell(#[trigger] walls@[i]) < wall_cell(#[trigger] walls@[j]) by {
                if j < before.len() {
                    assert(walls@[i] == before[i] && walls@[j] == before[j]);
                } else {
                    assert(walls@[i] == before[i]);
                }
            }
        }
        k = k + 1;
    }
    proof {
        assert forall|i: int, j: int| 0 <= i < j < walls.len() implies (#[trigger] walls@[i]).x != (#[trigger] walls@[j]).x
            || walls@[i].y != walls@[j].y by {
            assert(wall_cell(walls@[i]) < wall_cell(walls@[j]));
        }
    }
    walls
}

/// Lays out the walls of a new arena, drawing for each cell that may hold a
/// breakable wall a fair coin: the result is the layout of some draws.
pub fn arena_walls() -> (r: Vec<Wall>)
    ensures
        exists|draws: Seq<u32>|
            draws.len() == ARENA_CELLS && (forall|k: int| 0 <= k < ARENA_CELLS ==> #[trigger] draws[k] < 100) && #[trigger] laid_out(
                r@,
                draws,
            ),
{
    let mut draws: Vec<u32> = Vec::new();
    let mut k: usize = 0;
    while k < ARENA_CELLS
        invariant
            k <= ARENA_CELLS,
            draws.len() == k,
            forall|q: int| 0 <= q < k ==> #[trigger] draws@[q] < 100,
        decreases ARENA_CELLS - k,
    {
        let x = (k % 25) as i32;
        let y = (k / 25) as i32;
        let solid = x == 0 || y == 0 || x == MAP_WIDTH - 1 || y == MAP_HEIGHT - 1 || (x % 2 == 0 && y % 2 == 0);
        let spawn = (x < 3 && y < 3) || (x > MAP_WIDTH - 4 && y > MAP_HEIGHT - 4);
        let draw = if solid || spawn { 99 } else { roll_percent() };
        draws.push(draw);
        k = k + 1;
    }
    let walls = arena_layout(&draws);
    assert(laid_out(walls@, draws@));
    walls
}

} // verus!
