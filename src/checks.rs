//! The two judgements the search makes about a board with a bomb added:
//! whether the bomber can still get clear, and how cornered the opponent is.

use vstd::prelude::*;
use crate::constants::{ESCAPE_STEPS, STRESS_RADIUS};
use crate::field::{passable, Field, FieldModel};
use crate::reach::{
    count_marked, count_true, lemma_count_le_len, lemma_count_positive, lemma_reach_has_start,
    lemma_reach_len, reach, reach_within,
};

verus! {

/// Cells an escaping player may enter: passable, and not the opponent's cell.
pub open spec fn escape_allowed(m: FieldModel, opp: int) -> Seq<bool> {
    Seq::new(m.cells.len(), |i: int| passable(m.cells[i].field_object) && i != opp)
}

/// From cell `start` a player reaches, within the steps it can walk before a
/// fresh bomb detonates, a cell that no bomb threatens.
pub open spec fn escapable(m: FieldModel, start: int, opp: int) -> bool {
    exists|i: int|
        0 <= i < m.len() && #[trigger] reach(m.width, escape_allowed(m, opp), start, ESCAPE_STEPS as nat)[i]
            && m.cells[i].risk == 0
}

pub open spec fn abs_diff(a: int, b: int) -> int {
    if a >= b { a - b } else { b - a }
}

/// Hops between cells `i` and `j` along the axes, ignoring obstacles.
pub open spec fn manhattan(w: int, i: int, j: int) -> int {
    abs_diff(i % w, j % w) + abs_diff(i / w, j / w)
}

/// Cells the opponent may enter while looking around: passable and within
/// the stress radius of its cell `o`.
pub open spec fn stress_allowed(m: FieldModel, o: int) -> Seq<bool> {
    Seq::new(m.cells.len(), |i: int| passable(m.cells[i].field_object) && manhattan(m.width, i, o) <= STRESS_RADIUS)
}

/// Every cell the opponent at `o` can reach without leaving the radius (no
/// path needs more steps than the board has cells).
pub open spec fn stress_area(m: FieldModel, o: int) -> Seq<bool> {
    reach(m.width, stress_allowed(m, o), o, m.cells.len())
}

/// The cells of the area that some bomb threatens.
pub open spec fn danger_marks(m: FieldModel, area: Seq<bool>) -> Seq<bool> {
    Seq::new(m.cells.len(), |i: int| area[i] && m.cells[i].risk > 0)
}

/// Percentage of the opponent's area that some bomb threatens.
pub open spec fn opponent_stress(m: FieldModel, o: int) -> int {
    (count_true(danger_marks(m, stress_area(m, o))) as int) * 100 / (count_true(stress_area(m, o)) as int)
}

/// Index of the cell in column `x`, row `y`.
pub open spec fn cell_index(w: int, x: int, y: int) -> int {
    y * w + x
}

impl Field {
    /// Index of the cell in column `x`, row `y`.
    pub fn index_of(&self, x: usize, y: usize) -> (r: usize)
        requires
            self.wf(),
            x < self@.width,
            y < self@.height,
        ensures
            r == cell_index(self@.width, x as int, y as int),
            r < self@.len(),
    {
        let w = self.width;
        let h = self.height;
        assert(y * w + x < w * h) by (nonlinear_arith)
            requires x < w, y < h;
        y * w + x
    }

    /// A player standing on cell `start` can reach a cell no bomb threatens
    /// before a fresh bomb detonates, without entering walls, bombs or the
    /// opponent's cell `opp`.
    pub fn escapable_from(&self, start: usize, opp: usize) -> (r: bool)
        requires
            self.wf(),
            start < self@.len(),
        ensures
            r == escapable(self@, start as int, opp as int),
    {
        let n = self.elements.len();
        let mut allowed: Vec<bool> = Vec::new();
        let mut i: usize = 0;
        while i < n
            invariant
                n == self@.len(),
                i <= n,
                allowed.len() == i,
                forall|k: int| 0 <= k < i ==> #[trigger] allowed@[k] == escape_allowed(self@, opp as int)[k],
            decreases n - i,
        {
            allowed.push(self.elements[i].is_passable() && i != opp);
            i = i + 1;
        }
        assert(allowed@ =~= escape_allowed(self@, opp as int));
        let area = reach_within(self, &allowed, start, ESCAPE_STEPS as usize);
        proof {
            lemma_reach_len(self@.width, allowed@, start as int, ESCAPE_STEPS as nat);
        }
        let mut k: usize = 0;
        while k < n
            invariant
                n == self@.len(),
                area.len() == n,
                area@ == reach(self@.width, escape_allowed(self@, opp as int), start as int, ESCAPE_STEPS as nat),
                k <= n,
                forall|q: int| 0 <= q < k ==> !(#[trigger] area@[q] && self@.cells[q].risk == 0),
            decreases n - k,
        {
            if area[k] && self.elements[k].risk == 0 {
                return true;
            }
            k = k + 1;
        }
        false
    }

    /// Hypothetical-bomb escape check in cell coordinates: the player at
    /// (`x`, `y`) can get clear, the opponent at (`opponent_x`, `opponent_y`)
    /// blocking its way.
    pub fn check_if_escapable(&self, x: i32, y: i32, opponent_x: i32, opponent_y: i32) -> (r: bool)
        requires
            self.wf(),
            0 <= x < self@.width,
            0 <= y < self@.height,
            0 <= opponent_x < self@.width,
            0 <= opponent_y < self@.height,
        ensures
            r == escapable(
                self@,
                cell_index(self@.width, x as int, y as int),
                cell_index(self@.width, opponent_x as int, opponent_y as int),
            ),
    {
        let start = self.index_of(x as usize, y as usize);
        let opp = self.index_of(opponent_x as usize, opponent_y as usize);
        self.escapable_from(start, opp)
    }

    /// Percentage of the cells around the opponent's cell `o` that some bomb
    /// threatens.
    pub fn stress_at(&self, o: usize) -> (r: u64)
        requires
            self.wf(),
            o < self@.len(),
        ensures
            r == opponent_stress(self@, o as int),
            r <= 100,
    {
        let n = self.elements.len();
        let w = self.width;
        let ox = o % w;
        let oy = o / w;
        let mut allowed: Vec<bool> = Vec::new();
        let mut i: usize = 0;
        while i < n
            invariant
                n == self@.len(),
                w == self@.width,
                w >= 1,
                ox == o % w,
                oy == o / w,
                i <= n,
                allowed.len() == i,
                forall|k: int| 0 <= k < i ==> #[trigger] allowed@[k] == stress_allowed(self@, o as int)[k],
            decreases n - i,
        {
            let x = i % w;
            let y = i / w;
            let dx = if x >= ox { x - ox } else { ox - x };
            let dy = if y >= oy { y - oy } else { oy - y };
            allowed.push(self.elements[i].is_passable() && dx <= STRESS_RADIUS && dy <= STRESS_RADIUS - dx);
            i = i + 1;
        }
        assert(allowed@ =~= stress_allowed(self@, o as int));
        let area = reach_within(self, &allowed, o, n);
        proof {
            lemma_reach_len(self@.width, allowed@, o as int, n as nat);
        }
        let mut danger: Vec<bool> = Vec::new();
        let mut k: usize = 0;
        while k < n
            invariant
                n == self@.len(),
                area.len() == n,
                k <= n,
                danger.len() == k,
                forall|q: int| 0 <= q < k ==> #[trigger] danger@[q] == danger_marks(self@, area@)[q],
            decreases n - k,
        {
            danger.push(area[k] && self.elements[k].risk > 0);
            k = k + 1;
        }
        assert(danger@ =~= danger_marks(self@, area@));
        let movable = count_marked(&area);
        let dangerous = count_marked(&danger);
        proof {
            lemma_reach_has_start(self@.width, allowed@, o as int, n as nat);
            lemma_count_positive(area@, o as int);
            lemma_count_le_len(area@);
            lemma_count_le_len(danger@);
            assert(count_true(danger@) <= count_true(area@)) by {
                lemma_count_marks_le(danger@, area@);
            }
        }
        let d = dangerous as u64;
        let m = movable as u64;
        assert((d as int) * 100 / (m as int) <= 100) by (nonlinear_arith)
            requires d <= m, m >= 1;
        d * 100 / m
    }
}

/// Stress is a percentage.
pub proof fn lemma_stress_range(m: FieldModel, o: int)
    requires
        m.wf(),
        0 <= o < m.len(),
    ensures
        0 <= opponent_stress(m, o) <= 100,
{
    let area = stress_area(m, o);
    let danger = danger_marks(m, area);
    lemma_reach_len(m.width, stress_allowed(m, o), o, m.cells.len());
    lemma_reach_has_start(m.width, stress_allowed(m, o), o, m.cells.len());
    lemma_count_positive(area, o);
    lemma_count_marks_le(danger, area);
    let d = count_true(danger) as int;
    let t = count_true(area) as int;
    assert(0 <= d * 100 / t <= 100) by (nonlinear_arith)
        requires 0 <= d <= t, t >= 1;
}

/// Marks that imply other marks count no more than those.
pub proof fn lemma_count_marks_le(a: Seq<bool>, b: Seq<bool>)
    requires
        a.len() == b.len(),
        forall|i: int| 0 <= i < a.len() && #[trigger] a[i] ==> b[i],
    ensures
        count_true(a) <= count_true(b),
    decreases a.len(),
{
    if a.len() > 0 {
        lemma_count_marks_le(a.drop_last(), b.drop_last());
    }
}

} // verus!
