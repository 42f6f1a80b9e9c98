//! Building the arena snapshot from the sprites of the game world.

use vstd::prelude::*;
use crate::bomb::Bomb;
use crate::checks::cell_index;
use crate::constants::{CHARACTER_SIZE, MAX_SIDE};
use crate::field::{risk_of_fuse, with_blast, Field, FieldElement, FieldModel, FieldObject};
use crate::position::{pixel_on_axis, pixel_to_cell, Position};
use crate::power_up_item::PowerUpItem;
use crate::search::ints;
use crate::wall::Wall;

verus! {

/// The cell under pixel position (`x`, `y`) on a `w` by `h` board, or -1
/// when that is off the board.
pub open spec fn pixel_cell(w: int, h: int, x: int, y: int) -> int {
    if pixel_on_axis(x, w) && pixel_on_axis(y, h) {
        cell_index(w, pixel_to_cell(x), pixel_to_cell(y))
    } else {
        -1
    }
}

/// Some entry of `cells` is cell `c`.
pub open spec fn occupied(cells: Seq<int>, c: int) -> bool {
    exists|j: int| 0 <= j < cells.len() && #[trigger] cells[j] == c
}

pub open spec fn solid_wall_cells(w: int, h: int, walls: Seq<Wall>) -> Seq<int> {
    walls.map_values(|wl: Wall| if wl.is_breakable { -1 } else { pixel_cell(w, h, wl.x as int, wl.y as int) })
}

pub open spec fn wall_cells(w: int, h: int, walls: Seq<Wall>) -> Seq<int> {
    walls.map_values(|wl: Wall| pixel_cell(w, h, wl.x as int, wl.y as int))
}

pub open spec fn bomb_cells(w: int, h: int, bombs: Seq<Bomb>) -> Seq<int> {
    bombs.map_values(|b: Bomb| pixel_cell(w, h, b.x as int, b.y as int))
}

pub open spec fn item_cells(w: int, h: int, items: Seq<PowerUpItem>) -> Seq<int> {
    items.map_values(|it: PowerUpItem| pixel_cell(w, h, it.x as int, it.y as int))
}

pub open spec fn player_cells(w: int, h: int, players: Seq<Position>) -> Seq<int> {
    players.map_values(|p: Position| pixel_cell(w, h, p.x as int, p.y as int))
}

/// The occupant of cell `c`: a wall that cannot break, else a breakable
/// wall, else a bomb, else a power-up item, else a player, else nothing.
pub open spec fn snapshot_object(
    w: int,
    h: int,
    walls: Seq<Wall>,
    bombs: Seq<Bomb>,
    items: Seq<PowerUpItem>,
    players: Seq<Position>,
    c: int,
) -> FieldObject {
    if occupied(solid_wall_cells(w, h, walls), c) {
        FieldObject::Wall
    } else if occupied(wall_cells(w, h, walls), c) {
        FieldObject::BreakableWall
    } else if occupied(bomb_cells(w, h, bombs), c) {
        FieldObject::Bomb
    } else if occupied(item_cells(w, h, items), c) {
        FieldObject::PowerUpItem
    } else if occupied(player_cells(w, h, players), c) {
        FieldObject::Player
    } else {
        FieldObject::Empty
    }
}

/// `m` with the blasts of the first `k` bombs on the board added.
pub open spec fn blast_all(m: FieldModel, bombs: Seq<Bomb>, k: nat) -> FieldModel
    decreases k,
{
    if k == 0 {
        m
    } else {
        let prev = blast_all(m, bombs, (k - 1) as nat);
        let b = bombs[k - 1];
        let c = pixel_cell(m.width, m.height, b.x as int, b.y as int);
        if c >= 0 { with_blast(prev, c, b.power as int, risk_of_fuse(b.remain_time as int)) } else { prev }
    }
}

/// The snapshot of a world: occupants as above; each cell's risk the highest
/// that any bomb covering it gives (0 when none does).
pub open spec fn snapshot(
    w: int,
    h: int,
    walls: Seq<Wall>,
    bombs: Seq<Bomb>,
    items: Seq<PowerUpItem>,
    players: Seq<Position>,
) -> FieldModel {
    let occupants = FieldModel {
        width: w,
        height: h,
        cells: Seq::new(
            (w * h) as nat,
            |c: int| FieldElement { field_object: snapshot_object(w, h, walls, bombs, items, players, c), risk: 0 },
        ),
    };
    blast_all(occupants, bombs, bombs.len())
}

impl Field {
    /// The cell under pixel position (`x`, `y`), or -1 when off the board.
    pub fn cell_of_pixel(&self, x: i32, y: i32) -> (r: i64)
        requires
            self.wf(),
        ensures
            r == pixel_cell(self@.width, self@.height, x as int, y as int),
            -1 <= r < self@.len(),
    {
        if x < 0 || y < 0 {
            return -1;
        }
        let cx = (x as i64 + CHARACTER_SIZE as i64 / 2) / CHARACTER_SIZE as i64;
        let cy = (y as i64 + CHARACTER_SIZE as i64 / 2) / CHARACTER_SIZE as i64;
        if cx >= self.width as i64 || cy >= self.height as i64 {
            return -1;
        }
        self.index_of(cx as usize, cy as usize) as i64
    }

    /// Sets the occupant of each cell listed in `cells` (-1 entries are
    /// skipped) to `o`.
    fn mark_cells(&mut self, cells: &Vec<i64>, o: FieldObject)
        requires
            old(self).wf(),
            forall|j: int| 0 <= j < cells.len() ==> -1 <= #[trigger] cells@[j] < old(self)@.len(),
        ensures
            final(self).wf(),
            final(self)@.width == old(self)@.width,
            final(self)@.height == old(self)@.height,
            forall|c: int| 0 <= c < old(self)@.len() ==> #[trigger] final(self)@.cells[c] == (FieldElement {
                field_object: if occupied(ints(cells@), c) { o } else { old(self)@.cells[c].field_object },
                risk: old(self)@.cells[c].risk,
            }),
    {
        let ghost before = self@;
        let ghost s = ints(cells@);
        let mut k: usize = 0;
        while k < cells.len()
            invariant
                self.wf(),
                k <= cells.len(),
                s == ints(cells@),
                self@.width == before.width,
                self@.height == before.height,
                self@.len() == before.len(),
                forall|j: int| 0 <= j < cells.len() ==> -1 <= #[trigger] cells@[j] < before.len(),
                forall|c: int| 0 <= c < before.len() ==> #[trigger] self@.cells[c] == (FieldElement {
                    field_object: if occupied(s.subrange(0, k as int), c) { o } else { before.cells[c].field_object },
                    risk: before.cells[c].risk,
                }),
            decreases cells.len() - k,
        {
            let v = cells[k];
            let ghost prev = self@;
            if v >= 0 {
                let i = v as usize;
                let e = self.elements[i];
                self.elements.set(i, FieldElement { field_object: o, risk: e.risk });
            }
            proof {
                assert forall|c: int| 0 <= c < before.len() implies #[trigger] occupied(s.subrange(0, k + 1), c)
                    == (occupied(s.subrange(0, k as int), c) || s[k as int] == c) by {
                    if occupied(s.subrange(0, k + 1), c) {
                        let j = choose|j: int| 0 <= j < k + 1 && #[trigger] s.subrange(0, k + 1)[j] == c;
                        if j < k {
                            assert(s.subrange(0, k as int)[j] == c);
                        }
                    }
                    if occupied(s.subrange(0, k as int), c) {
                        let j = choose|j: int| 0 <= j < k && #[trigger] s.subrange(0, k as int)[j] == c;
                        assert(s.subrange(0, k + 1)[j] == c);
                    }
                    if s[k as int] == c {
                        assert(s.subrange(0, k + 1)[k as int] == c);
                    }
                }
            }
            k = k + 1;
        }
        assert(s.subrange(0, cells.len() as int) =~= s);
    }

    /// The snapshot of a world of `width` by `height` cells with the given
    /// walls, bombs, power-up items and players (pixel positions).
    pub fn from_sprites(
        width: usize,
        height: usize,
        walls: &Vec<Wall>,
        bombs: &Vec<Bomb>,
        items: &Vec<PowerUpItem>,
        players: &Vec<Position>,
    ) -> (r: Field)
        requires
            1 <= width <= MAX_SIDE,
            1 <= height <= MAX_SIDE,
        ensures
            r.wf(),
            r@ == snapshot(width as int, height as int, walls@, bombs@, items@, players@),
    {
        let mut field = Field::new(width, height);
        let ghost w = width as int;
        let ghost h = height as int;
        let ghost n = field@.len();
        let mut player_list: Vec<i64> = Vec::new();
        let mut k: usize = 0;
        while k < players.len()
            invariant
                field.wf(),
                field@.width == w,
                field@.height == h,
                k <= players.len(),
                player_list.len() == k,
                forall|j: int| 0 <= j < k ==> #[trigger] player_list@[j] == player_cells(w, h, players@)[j],
                forall|j: int| 0 <= j < k ==> -1 <= #[trigger] player_list@[j] < field@.len(),
            decreases players.len() - k,
        {
            let p = players[k];
            player_list.push(field.cell_of_pixel(p.x, p.y));
            k = k + 1;
        }
        assert(ints(player_list@) =~= player_cells(w, h, players@));
        let mut item_list: Vec<i64> = Vec::new();
        let mut k: usize = 0;
        while k < items.len()
            invariant
                field.wf(),
                field@.width == w,
                field@.height == h,
                k <= items.len(),
                item_list.len() == k,
                forall|j: int| 0 <= j < k ==> #[trigger] item_list@[j] == item_cells(w, h, items@)[j],
                forall|j: int| 0 <= j < k ==> -1 <= #[trigger] item_list@[j] < field@.len(),
            decreases items.len() - k,
        {
            let p = items[k];
            item_list.push(field.cell_of_pixel(p.x, p.y));
            k = k + 1;
        }
        assert(ints(item_list@) =~= item_cells(w, h, items@));
        let mut bomb_list: Vec<i64> = Vec::new();
        let mut k: usize = 0;
        while k < bombs.len()
            invariant
                field.wf(),
                field@.width == w,
                field@.height == h,
                k <= bombs.len(),
                bomb_list.len() == k,
                forall|j: int| 0 <= j < k ==> #[trigger] bomb_list@[j] == bomb_cells(w, h, bombs@)[j],
                forall|j: int| 0 <= j < k ==> -1 <= #[trigger] bomb_list@[j] < field@.len(),
            decreases bombs.len() - k,
        {
            let p = bombs[k];
            bomb_list.push(field.cell_of_pixel(p.x, p.y));
            k = k + 1;
        }
        assert(ints(bomb_list@) =~= bomb_cells(w, h, bombs@));
        let mut wall_list: Vec<i64> = Vec::new();
        let mut solid_list: Vec<i64> = Vec::new();
        let mut k: usize = 0;
        while k < walls.len()
            invariant
                field.wf(),
                field@.width == w,
                field@.height == h,
                k <= walls.len(),
                wall_list.len() == k,
                solid_list.len() == k,
                forall|j: int| 0 <= j < k ==> #[trigger] wall_list@[j] == wall_cells(w, h, walls@)[j],
                forall|j: int| 0 <= j < k ==> -1 <= #[trigger] wall_list@[j] < field@.len(),
                forall|j: int| 0 <= j < k ==> #[trigger] solid_list@[j] == solid_wall_cells(w, h, walls@)[j],
                forall|j: int| 0 <= j < k ==> -1 <= #[trigger] solid_list@[j] < field@.len(),
            decreases walls.len() - k,
        {
            let p = walls[k];
            let c = field.cell_of_pixel(p.x, p.y);
            wall_list.push(c);
            solid_list.push(if p.is_breakable { -1 } else { c });
            k = k + 1;
        }
        assert(ints(wall_list@) =~= wall_cells(w, h, walls@));
        assert(ints(solid_list@) =~= solid_wall_cells(w, h, walls@));
        field.mark_cells(&player_list, FieldObject::Player);
        field.mark_cells(&item_list, FieldObject::PowerUpItem);
        field.mark_cells(&bomb_list, FieldObject::Bomb);
        field.mark_cells(&wall_list, FieldObject::BreakableWall);
        field.mark_cells(&solid_list, FieldObject::Wall);
        let ghost occupants = FieldModel {
            width: w,
            height: h,
            cells: Seq::new(
                (w * h) as nat,
                |c: int| FieldElement { field_object: snapshot_object(w, h, walls@, bombs@, items@, players@, c), risk: 0 },
            ),
        };
        assert(field@.cells =~= occupants.cells);
        let mut k: usize = 0;
        while k < bombs.len()
            invariant
                field.wf(),
                k <= bombs.len(),
                bomb_list.len() == bombs.len(),
                field@.len() == n,
                forall|j: int| 0 <= j < bombs.len() ==> #[trigger] bomb_list@[j] == bomb_cells(w, h, bombs@)[j],
                forall|j: int| 0 <= j < bombs.len() ==> -1 <= #[trigger] bomb_list@[j] < n,
                occupants.width == w,
                occupants.height == h,
                field@ == blast_all(occupants, bombs@, k as nat),
            decreases bombs.len() - k,
        {
            let c = bomb_list[k];
            if c >= 0 {
                let b = bombs[k];
                let r = Field::bomb_risk(b.remain_time);
                field.apply_blast(c as usize, b.power, r);
            }
            k = k + 1;
        }
        field
    }
}

} // verus!
