//! The arena snapshot: one element per cell, each with its occupant and the
//! risk that a pending explosion reaches it.

use vstd::prelude::*;
use crate::constants::{BOMB_TIME, MAX_CELLS, MAX_SIDE, RISK_OF_BOMB};

verus! {

/// What occupies a cell.
#[derive(Clone, Copy, PartialEq, Eq, Structural, Debug)]
pub enum FieldObject {
    Empty,
    Wall,
    BreakableWall,
    Bomb,
    PowerUpItem,
    Player,
}

/// A player may walk on the cell, and a blast may pass through it: no wall
/// and no bomb stands there.
pub open spec fn passable(o: FieldObject) -> bool {
    !(o is Wall || o is BreakableWall || o is Bomb)
}

/// One cell of the snapshot.
#[derive(Clone, Copy, PartialEq, Eq, Structural, Debug)]
pub struct FieldElement {
    pub field_object: FieldObject,
    /// How close a pending explosion is to reaching the cell; 0 when none will.
    pub risk: u32,
}

impl FieldElement {
    pub fn is_passable(&self) -> (r: bool)
        ensures
            r == passable(self.field_object),
    {
        match self.field_object {
            FieldObject::Wall | FieldObject::BreakableWall | FieldObject::Bomb => false,
            _ => true,
        }
    }
}

/// Cells in row-major order: cell `i` has column `i % width` and row `i / width`.
pub struct Field {
    pub width: usize,
    pub height: usize,
    pub elements: Vec<FieldElement>,
}

/// The mathematical value of a [`Field`].
pub struct FieldModel {
    pub width: int,
    pub height: int,
    pub cells: Seq<FieldElement>,
}

impl View for Field {
    type V = FieldModel;

    open spec fn view(&self) -> FieldModel {
        FieldModel { width: self.width as int, height: self.height as int, cells: self.elements@ }
    }
}

impl FieldModel {
    pub open spec fn wf(self) -> bool {
        &&& 1 <= self.width <= MAX_SIDE
        &&& 1 <= self.height <= MAX_SIDE
        &&& self.cells.len() == self.width * self.height
        &&& self.cells.len() <= MAX_CELLS
        &&& forall|i: int| 0 <= i < self.cells.len() ==> #[trigger] self.cells[i].risk <= RISK_OF_BOMB
    }

    pub open spec fn len(self) -> int {
        self.cells.len() as int
    }

    pub open spec fn objects(self) -> Seq<FieldObject> {
        self.cells.map_values(|e: FieldElement| e.field_object)
    }
}

/// The cell next to `i` in direction `dir` (0 west, 1 east, 2 north,
/// 3 south) on a board `w` cells wide with `n` cells, or -1 at the edge.
pub open spec fn neighbor(w: int, n: int, i: int, dir: int) -> int {
    if dir == 0 {
        if i % w > 0 { i - 1 } else { -1 }
    } else if dir == 1 {
        if i % w + 1 < w && i + 1 < n { i + 1 } else { -1 }
    } else if dir == 2 {
        if i >= w { i - w } else { -1 }
    } else {
        if i + w < n { i + w } else { -1 }
    }
}

/// The cell `d` steps from `i` in direction `dir`, or -1 once the line
/// leaves the board.
pub open spec fn ray(w: int, n: int, i: int, dir: int, d: nat) -> int
    decreases d,
{
    if d == 0 {
        i
    } else {
        let p = ray(w, n, i, dir, (d - 1) as nat);
        if p >= 0 { neighbor(w, n, p, dir) } else { -1 }
    }
}

/// The first `d` cells from `i` in direction `dir` are on the board and
/// passable, so a blast from `i` reaches the `d`-th of them.
pub open spec fn clear(w: int, objs: Seq<FieldObject>, i: int, dir: int, d: nat) -> bool
    decreases d,
{
    if d == 0 {
        true
    } else {
        let c = ray(w, objs.len() as int, i, dir, d);
        &&& clear(w, objs, i, dir, (d - 1) as nat)
        &&& 0 <= c
        &&& passable(objs[c])
    }
}

/// A blast of reach `power` from `i` in direction `dir` covers cell `c`.
pub open spec fn covers_dir(w: int, objs: Seq<FieldObject>, i: int, dir: int, power: int, c: int) -> bool {
    exists|d: nat|
        1 <= d <= power && #[trigger] ray(w, objs.len() as int, i, dir, d) == c && clear(w, objs, i, dir, d)
}

/// A bomb at `i` with reach `power` covers cell `c`: its own cell, and along
/// each axis every cell up to `power` away that no wall or bomb shields.
pub open spec fn covers(w: int, objs: Seq<FieldObject>, i: int, power: int, c: int) -> bool {
    ||| c == i
    ||| covers_dir(w, objs, i, 0, power, c)
    ||| covers_dir(w, objs, i, 1, power, c)
    ||| covers_dir(w, objs, i, 2, power, c)
    ||| covers_dir(w, objs, i, 3, power, c)
}

/// The first obstacle within `power` cells of `i` in direction `dir` is a
/// breakable wall.
pub open spec fn breaks_dir(w: int, objs: Seq<FieldObject>, i: int, dir: int, power: int) -> bool {
    exists|d: nat|
        1 <= d <= power && clear(w, objs, i, dir, (d - 1) as nat) && #[trigger] ray(w, objs.len() as int, i, dir, d) >= 0
            && objs[ray(w, objs.len() as int, i, dir, d)] is BreakableWall
}

pub open spec fn one_if(b: bool) -> int {
    if b { 1 } else { 0 }
}

/// Number of breakable walls a bomb at `i` with reach `power` destroys.
pub open spec fn break_count(w: int, objs: Seq<FieldObject>, i: int, power: int) -> int {
    one_if(breaks_dir(w, objs, i, 0, power)) + one_if(breaks_dir(w, objs, i, 1, power))
        + one_if(breaks_dir(w, objs, i, 2, power)) + one_if(breaks_dir(w, objs, i, 3, power))
}

pub open spec fn max_u32(a: u32, b: u32) -> u32 {
    if a >= b { a } else { b }
}

/// Risk a bomb gives the cells it covers, given the ticks left on its fuse:
/// the fewer ticks, the higher, and never 0.
pub open spec fn risk_of_fuse(remain: int) -> u32 {
    if remain >= RISK_OF_BOMB {
        1
    } else if remain <= 0 {
        RISK_OF_BOMB
    } else {
        (RISK_OF_BOMB - remain) as u32
    }
}

/// `m` with the risks that a bomb at `i` of reach `power` and risk `r` adds.
pub open spec fn with_blast(m: FieldModel, i: int, power: int, r: u32) -> FieldModel {
    FieldModel {
        width: m.width,
        height: m.height,
        cells: Seq::new(
            m.cells.len(),
            |c: int|
                FieldElement {
                    field_object: m.cells[c].field_object,
                    risk: max_u32(m.cells[c].risk, if covers(m.width, m.objects(), i, power, c) { r } else { 0 }),
                },
        ),
    }
}

/// `m` with a bomb of reach `power` just placed at cell `i`.
pub open spec fn with_new_bomb(m: FieldModel, i: int, power: int) -> FieldModel {
    let placed = FieldModel {
        width: m.width,
        height: m.height,
        cells: m.cells.update(i, FieldElement { field_object: FieldObject::Bomb, risk: m.cells[i].risk }),
    };
    with_blast(placed, i, power, risk_of_fuse(BOMB_TIME as int))
}

pub proof fn lemma_neighbor_in_range(w: int, n: int, i: int, dir: int)
    requires
        1 <= w,
        0 <= i < n,
    ensures
        -1 <= neighbor(w, n, i, dir) < n,
{
}

pub proof fn lemma_ray_in_range(w: int, n: int, i: int, dir: int, d: nat)
    requires
        1 <= w,
        0 <= i < n,
    ensures
        -1 <= ray(w, n, i, dir, d) < n,
    decreases d,
{
    if d > 0 {
        lemma_ray_in_range(w, n, i, dir, (d - 1) as nat);
        let p = ray(w, n, i, dir, (d - 1) as nat);
        if p >= 0 {
            lemma_neighbor_in_range(w, n, p, dir);
        }
    }
}

/// Once a line has left the board it stays off it.
pub proof fn lemma_ray_off_stays_off(w: int, n: int, i: int, dir: int, d: nat, e: nat)
    requires
        d <= e,
        ray(w, n, i, dir, d) < 0,
    ensures
        ray(w, n, i, dir, e) < 0,
    decreases e - d,
{
    if d < e {
        lemma_ray_off_stays_off(w, n, i, dir, d, (e - 1) as nat);
    }
}

/// A clear line is clear over each of its prefixes.
pub proof fn lemma_clear_prefix(w: int, objs: Seq<FieldObject>, i: int, dir: int, d: nat, e: nat)
    requires
        e <= d,
        clear(w, objs, i, dir, d),
    ensures
        clear(w, objs, i, dir, e),
    decreases d - e,
{
    if e < d {
        lemma_clear_prefix(w, objs, i, dir, (d - 1) as nat, e);
    }
}

impl Field {
    pub open spec fn wf(&self) -> bool {
        self@.wf()
    }

    /// An arena of `width` by `height` empty, safe cells.
    pub fn new(width: usize, height: usize) -> (r: Field)
        requires
            1 <= width <= MAX_SIDE,
            1 <= height <= MAX_SIDE,
        ensures
            r.wf(),
            r@.width == width,
            r@.height == height,
            forall|i: int| 0 <= i < r@.len() ==> #[trigger] r@.cells[i] == (FieldElement { field_object: FieldObject::Empty, risk: 0 }),
    {
        assert(width * height <= MAX_SIDE * MAX_SIDE) by (nonlinear_arith)
            requires width <= MAX_SIDE, height <= MAX_SIDE;
        let n = width * height;
        let mut elements: Vec<FieldElement> = Vec::new();
        while elements.len() < n
            invariant
                elements.len() <= n,
                forall|i: int| 0 <= i < elements.len() ==> #[trigger] elements@[i] == (FieldElement { field_object: FieldObject::Empty, risk: 0 }),
            decreases n - elements.len(),
        {
            elements.push(FieldElement { field_object: FieldObject::Empty, risk: 0 });
        }
        Field { width, height, elements }
    }

    /// Tells whether the snapshot is well formed.
    pub fn is_well_formed(&self) -> (r: bool)
        ensures
            r == self.wf(),
    {
        if self.width < 1 || self.width > MAX_SIDE || self.height < 1 || self.height > MAX_SIDE {
            return false;
        }
        assert(self.width * self.height <= MAX_SIDE * MAX_SIDE) by (nonlinear_arith)
            requires self.width <= MAX_SIDE, self.height <= MAX_SIDE;
        if self.elements.len() != self.width * self.height {
            return false;
        }
        let mut k: usize = 0;
        while k < self.elements.len()
            invariant
                k <= self.elements.len(),
                forall|i: int| 0 <= i < k ==> #[trigger] self.elements@[i].risk <= RISK_OF_BOMB,
            decreases self.elements.len() - k,
        {
            if self.elements[k].risk > RISK_OF_BOMB {
                return false;
            }
            k = k + 1;
        }
        true
    }

    /// An independent copy of the snapshot.
    pub fn duplicate(&self) -> (r: Field)
        ensures
            r@ == self@,
    {
        let mut elements: Vec<FieldElement> = Vec::new();
        let mut k: usize = 0;
        while k < self.elements.len()
            invariant
                k <= self.elements.len(),
                elements@ == self.elements@.subrange(0, k as int),
            decreases self.elements.len() - k,
        {
            elements.push(self.elements[k]);
            k = k + 1;
            assert(elements@ =~= self.elements@.subrange(0, k as int));
        }
        assert(elements@ =~= self.elements@);
        Field { width: self.width, height: self.height, elements }
    }

    /// Risk that a bomb with `remain` ticks left on its fuse gives.
    pub fn bomb_risk(remain: i32) -> (r: u32)
        ensures
            r == risk_of_fuse(remain as int),
            1 <= r <= RISK_OF_BOMB,
    {
        if remain >= RISK_OF_BOMB as i32 {
            1
        } else if remain <= 0 {
            RISK_OF_BOMB
        } else {
            RISK_OF_BOMB - remain as u32
        }
    }

    /// Raises to `r` the risk of every cell that a bomb at `i` of reach
    /// `power` covers; returns how many breakable walls the bomb destroys.
    pub fn apply_blast(&mut self, i: usize, power: u32, r: u32) -> (breaks: u32)
        requires
            old(self).wf(),
            i < old(self)@.len(),
            r <= RISK_OF_BOMB,
        ensures
            final(self).wf(),
            final(self)@ == with_blast(old(self)@, i as int, power as int, r),
            breaks == break_count(old(self)@.width, old(self)@.objects(), i as int, power as int),
    {
        let ghost m = self@;
        let e = self.elements[i];
        let centre = if e.risk >= r { e.risk } else { r };
        self.elements.set(i, FieldElement { field_object: e.field_object, risk: centre });
        assert(self@.objects() =~= m.objects());
        let ghost s0 = self@;
        let b0 = self.blast_ray(i, 0, power, r);
        let ghost s1 = self@;
        let b1 = self.blast_ray(i, 1, power, r);
        let ghost s2 = self@;
        let b2 = self.blast_ray(i, 2, power, r);
        let ghost s3 = self@;
        let b3 = self.blast_ray(i, 3, power, r);
        let mut breaks: u32 = 0;
        if b0 { breaks = breaks + 1; }
        if b1 { breaks = breaks + 1; }
        if b2 { breaks = breaks + 1; }
        if b3 { breaks = breaks + 1; }
        proof {
            let t = with_blast(m, i as int, power as int, r);
            assert forall|c: int| 0 <= c < m.len() implies #[trigger] self@.cells[c] == t.cells[c] by {
                assert(self@.objects()[c] == m.objects()[c]);
                assert(s0.cells[c].risk == max_u32(m.cells[c].risk, if c == i { r } else { 0 }));
                assert(s1.cells[c].risk == max_u32(s0.cells[c].risk,
                    if covers_dir(m.width, m.objects(), i as int, 0, power as int, c) { r } else { 0 }));
                assert(s2.cells[c].risk == max_u32(s1.cells[c].risk,
                    if covers_dir(m.width, m.objects(), i as int, 1, power as int, c) { r } else { 0 }));
                assert(s3.cells[c].risk == max_u32(s2.cells[c].risk,
                    if covers_dir(m.width, m.objects(), i as int, 2, power as int, c) { r } else { 0 }));
                assert(self@.cells[c].risk == max_u32(s3.cells[c].risk,
                    if covers_dir(m.width, m.objects(), i as int, 3, power as int, c) { r } else { 0 }));
            }
            assert(self@.cells =~= t.cells);
        }
        breaks
    }

    /// Places a freshly lit bomb of reach `power` at cell `i` and adds its
    /// risks; returns how many breakable walls it will destroy.
    pub fn add_bomb(&mut self, i: usize, power: u32) -> (breaks: u32)
        requires
            old(self).wf(),
            i < old(self)@.len(),
        ensures
            final(self).wf(),
            final(self)@ == with_new_bomb(old(self)@, i as int, power as int),
            breaks == break_count(
                old(self)@.width,
                old(self)@.objects().update(i as int, FieldObject::Bomb),
                i as int,
                power as int,
            ),
    {
        let e = self.elements[i];
        self.elements.set(i, FieldElement { field_object: FieldObject::Bomb, risk: e.risk });
        proof {
            assert(self@.objects() =~= old(self)@.objects().update(i as int, FieldObject::Bomb));
        }
        let r = Field::bomb_risk(BOMB_TIME);
        self.apply_blast(i, power, r)
    }

    /// The cell next to `i` in direction `dir`, if it is on the board.
    pub fn neighbor_of(&self, i: usize, dir: usize) -> (r: Option<usize>)
        requires
            self.wf(),
            i < self@.len(),
        ensures
            match r {
                Some(j) => j as int == neighbor(self@.width, self@.len(), i as int, dir as int),
                None => neighbor(self@.width, self@.len(), i as int, dir as int) == -1,
            },
    {
        let w = self.width;
        let n = self.elements.len();
        if dir == 0 {
            if i > 0 && i % w > 0 { Some(i - 1) } else { None }
        } else if dir == 1 {
            if i % w + 1 < w && i + 1 < n { Some(i + 1) } else { None }
        } else if dir == 2 {
            if i >= w { Some(i - w) } else { None }
        } else {
            if i + w < n { Some(i + w) } else { None }
        }
    }

    /// Raises to `r` the risk of each cell that a blast from `i` reaches in
    /// direction `dir`; tells whether the blast stops at a breakable wall.
    fn blast_ray(&mut self, i: usize, dir: usize, power: u32, r: u32) -> (broke: bool)
        requires
            old(self).wf(),
            i < old(self)@.len(),
            r <= RISK_OF_BOMB,
        ensures
            final(self).wf(),
            final(self)@.width == old(self)@.width,
            final(self)@.height == old(self)@.height,
            final(self)@.objects() == old(self)@.objects(),
            forall|c: int| 0 <= c < old(self)@.len() ==> #[trigger] final(self)@.cells[c].risk == max_u32(
                old(self)@.cells[c].risk,
                if covers_dir(old(self)@.width, old(self)@.objects(), i as int, dir as int, power as int, c) { r } else { 0 },
            ),
            broke == breaks_dir(old(self)@.width, old(self)@.objects(), i as int, dir as int, power as int),
    {
        let ghost w = old(self)@.width;
        let ghost n = old(self)@.len();
        let ghost objs = old(self)@.objects();
        let ghost old_cells = old(self)@.cells;
        let mut d: u32 = 0;
        let mut j: usize = i;
        let mut broke = false;
        loop
            invariant_except_break
                !broke,
            invariant
                self.wf(),
                self@.width == w,
                self@.height == old(self)@.height,
                self@.len() == n,
                self@.objects() == objs,
                objs.len() == n,
                old_cells.len() == n,
                objs == old_cells.map_values(|e: FieldElement| e.field_object),
                1 <= w,
                0 <= i < n,
                r <= RISK_OF_BOMB,
                d <= power,
                j as int == ray(w, n, i as int, dir as int, d as nat),
                j < n,
                clear(w, objs, i as int, dir as int, d as nat),
                forall|c: int| 0 <= c < n ==> #[trigger] self@.cells[c].risk == max_u32(
                    old_cells[c].risk,
                    if covers_dir(w, objs, i as int, dir as int, d as int, c) { r } else { 0 },
                ),
            ensures
                self.wf(),
                self@.width == w,
                self@.height == old(self)@.height,
                self@.objects() == objs,
                forall|c: int| 0 <= c < n ==> #[trigger] self@.cells[c].risk == max_u32(
                    old_cells[c].risk,
                    if covers_dir(w, objs, i as int, dir as int, power as int, c) { r } else { 0 },
                ),
                broke == breaks_dir(w, objs, i as int, dir as int, power as int),
            decreases power - d,
        {
            if d >= power {
                assert forall|dd: nat| 1 <= dd <= power implies !(clear(w, objs, i as int, dir as int, (dd - 1) as nat)
                    && #[trigger] ray(w, n, i as int, dir as int, dd) >= 0
                    && objs[ray(w, n, i as int, dir as int, dd)] is BreakableWall) by {
                    lemma_clear_prefix(w, objs, i as int, dir as int, d as nat, dd);
                }
                break;
            }
            let next = self.neighbor_of(j, dir);
            proof {
                lemma_ray_in_range(w, n, i as int, dir as int, (d + 1) as nat);
            }
            match next {
                None => {
                    assert(ray(w, n, i as int, dir as int, (d + 1) as nat) == -1);
                    assert forall|dd: nat| d + 1 <= dd implies #[trigger] ray(w, n, i as int, dir as int, dd) < 0 by {
                        lemma_ray_off_stays_off(w, n, i as int, dir as int, (d + 1) as nat, dd);
                    }
                    assert forall|c: int| 0 <= c < n implies #[trigger] covers_dir(w, objs, i as int, dir as int, power as int, c)
                        == covers_dir(w, objs, i as int, dir as int, d as int, c) by {
                        if covers_dir(w, objs, i as int, dir as int, power as int, c) {
                            let dd = choose|dd: nat| 1 <= dd <= power && #[trigger] ray(w, n, i as int, dir as int, dd) == c
                                && clear(w, objs, i as int, dir as int, dd);
                            assert(dd <= d);
                        }
                    }
                    assert forall|dd: nat| 1 <= dd <= power implies !(clear(w, objs, i as int, dir as int, (dd - 1) as nat)
                        && #[trigger] ray(w, n, i as int, dir as int, dd) >= 0
                        && objs[ray(w, n, i as int, dir as int, dd)] is BreakableWall) by {
                        if dd <= d {
                            lemma_clear_prefix(w, objs, i as int, dir as int, d as nat, dd);
                        }
                    }
                    break;
                },
                Some(k) => {
                    assert(ray(w, n, i as int, dir as int, (d + 1) as nat) == k);
                    let e = self.elements[k];
                    if !e.is_passable() {
                        assert(objs[k as int] == e.field_object);
                        assert(!clear(w, objs, i as int, dir as int, (d + 1) as nat));
                        assert forall|dd: nat| d + 1 <= dd implies !#[trigger] clear(w, objs, i as int, dir as int, dd) by {
                            if clear(w, objs, i as int, dir as int, dd) {
                                lemma_clear_prefix(w, objs, i as int, dir as int, dd, (d + 1) as nat);
                            }
                        }
                        assert forall|c: int| 0 <= c < n implies #[trigger] covers_dir(w, objs, i as int, dir as int, power as int, c)
                            == covers_dir(w, objs, i as int, dir as int, d as int, c) by {
                            if covers_dir(w, objs, i as int, dir as int, power as int, c) {
                                let dd = choose|dd: nat| 1 <= dd <= power && #[trigger] ray(w, n, i as int, dir as int, dd) == c
                                    && clear(w, objs, i as int, dir as int, dd);
                                assert(dd <= d);
                            }
                        }
                        broke = match e.field_object {
                            FieldObject::BreakableWall => true,
                            _ => false,
                        };
                        assert forall|dd: nat| 1 <= dd <= power && dd != d + 1 implies !(clear(w, objs, i as int, dir as int, (dd - 1) as nat)
                            && #[trigger] ray(w, n, i as int, dir as int, dd) >= 0
                            && objs[ray(w, n, i as int, dir as int, dd)] is BreakableWall) by {
                            if dd <= d {
                                lemma_clear_prefix(w, objs, i as int, dir as int, d as nat, dd);
                            }
                        }
                        if broke {
                            assert(clear(w, objs, i as int, dir as int, ((d + 1) - 1) as nat));
                        }
                        break;
                    }
                    let old_risk = e.risk;
                    let new_risk = if old_risk >= r { old_risk } else { r };
                    self.elements.set(k, FieldElement { field_object: e.field_object, risk: new_risk });
                    proof {
                        assert(clear(w, objs, i as int, dir as int, (d + 1) as nat));
                        assert forall|c: int| 0 <= c < n implies #[trigger] covers_dir(w, objs, i as int, dir as int, (d + 1) as int, c)
                            == (covers_dir(w, objs, i as int, dir as int, d as int, c) || c == k) by {
                            if covers_dir(w, objs, i as int, dir as int, (d + 1) as int, c) && c != k {
                                let dd = choose|dd: nat| 1 <= dd <= d + 1 && #[trigger] ray(w, n, i as int, dir as int, dd) == c
                                    && clear(w, objs, i as int, dir as int, dd);
                                assert(dd <= d);
                            }
                            if c == k {
                                assert(ray(w, n, i as int, dir as int, (d + 1) as nat) == c);
                            }
                        }
                        assert(self@.objects() =~= objs);
                    }
                    j = k;
                    d = d + 1;
                },
            }
        }
        broke
    }
}

} // verus!
