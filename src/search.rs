//! The scoring search: a FIFO-driven cost relaxation from the player's cell
//! that scores every reached cell as a destination, simulating a bomb there.

use vstd::prelude::*;
use crate::checks::{escapable, opponent_stress};
use crate::constants::{
    OPPONENT_STRESS_WEIGHT, RISK_OF_BOMB, SCORE_OF_BREAK_WALL, SCORE_OF_DISTANCE,
    SCORE_OF_POWER_UP_ITEM,
};
use crate::field::{break_count, neighbor, passable, with_new_bomb, Field, FieldModel, FieldObject};
use crate::reach::reach;

verus! {

/// What one search reads: the board, the two players' cells and what the
/// decision state contributes.
pub struct SearchContext {
    pub field: FieldModel,
    pub origin: int,
    pub opponent: int,
    pub power: int,
    pub opponent_alive: bool,
    pub stuck_pressure: int,
    pub blockaded: bool,
}

/// The search's working state.
pub struct SearchState {
    pub cost: Seq<int>,
    pub dist: Seq<int>,
    pub pred: Seq<int>,
    pub queue: Seq<int>,
    pub best: int,
    pub best_score: int,
    pub best_fire: bool,
    pub enqueued: int,
}

/// Cost standing for "not reached yet": above the cost of any path that
/// visits each cell at most once.
pub open spec fn unreached_cost(n: int) -> int {
    n * RISK_OF_BOMB + 1
}

/// Score for moving to cell `c`, `dist` hops away, before any bomb is considered.
pub open spec fn base_score(ctx: SearchContext, c: int, dist: int) -> int {
    -(ctx.field.cells[c].risk as int) - dist * SCORE_OF_DISTANCE
}

/// Score of choosing cell `c`, reached in `dist` hops, as this tick's target,
/// and whether a bomb placed there pays off. A power-up item adds its bonus;
/// a bomb is weighed on every cell but a bomb's or the opponent's, and only
/// when the bomber could get clear of it.
pub open spec fn candidate_score(ctx: SearchContext, c: int, dist: int) -> (int, bool) {
    let m = ctx.field;
    let base = base_score(ctx, c, dist) + if m.cells[c].field_object is PowerUpItem { SCORE_OF_POWER_UP_ITEM as int } else { 0 };
    if m.cells[c].field_object is Bomb || c == ctx.opponent {
        (base, false)
    } else {
        let g = with_new_bomb(m, c, ctx.power);
        let breaks = break_count(m.width, m.objects().update(c, FieldObject::Bomb), c, ctx.power);
        if !escapable(g, c, ctx.opponent) {
            (base, false)
        } else {
            let s1 = if breaks > 0 { base + breaks * SCORE_OF_BREAK_WALL } else { base };
            let delta = opponent_stress(g, ctx.opponent) - opponent_stress(m, ctx.opponent);
            if ctx.opponent_alive && delta > 0 {
                let weight = OPPONENT_STRESS_WEIGHT + if c == ctx.origin { ctx.stuck_pressure } else { 0 };
                (s1 + delta * weight, true)
            } else {
                (s1, breaks > 0)
            }
        }
    }
}

/// The search may step from cell `from` into cell `to`.
pub open spec fn may_enter(ctx: SearchContext, from: int, to: int) -> bool {
    let m = ctx.field;
    &&& 0 <= to
    &&& passable(m.cells[to].field_object)
    &&& !(ctx.blockaded && to == ctx.opponent)
    &&& !(m.cells[to].risk > RISK_OF_BOMB * 9 / 10 && m.cells[to].risk > m.cells[from].risk)
}

/// Relaxes the neighbor of `c` in direction `dir`.
pub open spec fn relax(ctx: SearchContext, st: SearchState, c: int, dir: int) -> SearchState {
    let m = ctx.field;
    let nb = neighbor(m.width, m.len(), c, dir);
    if may_enter(ctx, c, nb) && st.cost[c] + m.cells[nb].risk < st.cost[nb] {
        SearchState {
            cost: st.cost.update(nb, st.cost[c] + m.cells[nb].risk),
            dist: st.dist.update(nb, st.dist[c] + 1),
            pred: st.pred.update(nb, c),
            queue: st.queue.push(nb),
            enqueued: st.enqueued + 1,
            ..st
        }
    } else {
        st
    }
}

/// Relaxes the neighbors of `c` in directions `0 .. k`, in that order.
pub open spec fn relax_upto(ctx: SearchContext, st: SearchState, c: int, k: nat) -> SearchState
    decreases k,
{
    if k == 0 {
        st
    } else {
        relax(ctx, relax_upto(ctx, st, c, (k - 1) as nat), c, k - 1)
    }
}

/// First half of a round: take the head of the queue and score it; it
/// becomes the best cell only if it scores strictly higher.
pub open spec fn step_scored(ctx: SearchContext, st: SearchState) -> SearchState {
    let c = st.queue[0];
    let (score, fire) = candidate_score(ctx, c, st.dist[c]);
    let taken = SearchState { queue: st.queue.drop_first(), ..st };
    if score > st.best_score {
        SearchState { best: c, best_score: score, best_fire: fire, ..taken }
    } else {
        taken
    }
}

/// One round: take the head of the queue, score it, then relax its
/// neighbors west, east, north, south.
pub open spec fn step(ctx: SearchContext, st: SearchState) -> SearchState {
    relax_upto(ctx, step_scored(ctx, st), st.queue[0], 4)
}

pub open spec fn cost_sum(s: Seq<int>) -> int
    decreases s.len(),
{
    if s.len() == 0 { 0 } else { cost_sum(s.drop_last()) + s.last() }
}

/// `b` is strictly below `a` in the order that the search descends.
pub open spec fn measure_below(b: SearchState, a: SearchState) -> bool {
    ||| 0 <= cost_sum(b.cost) < cost_sum(a.cost)
    ||| (cost_sum(b.cost) == cost_sum(a.cost) && b.queue.len() < a.queue.len())
}

/// Rounds until the queue is empty.
pub open spec fn run(ctx: SearchContext, st: SearchState) -> SearchState
    decreases cost_sum(st.cost), st.queue.len(),
{
    if st.queue.len() == 0 {
        st
    } else {
        let next = step(ctx, st);
        if measure_below(next, st) { run(ctx, next) } else { st }
    }
}

/// The state before the first round: only the origin reached, at cost 0.
pub open spec fn initial_state(ctx: SearchContext) -> SearchState {
    let n = ctx.field.len();
    SearchState {
        cost: Seq::new(n as nat, |i: int| if i == ctx.origin { 0 } else { unreached_cost(n) }),
        dist: Seq::new(n as nat, |i: int| if i == ctx.origin { 0 } else { -1 }),
        pred: Seq::new(n as nat, |i: int| -1),
        queue: seq![ctx.origin],
        best: ctx.origin,
        best_score: -(ctx.field.cells[ctx.origin].risk as int),
        best_fire: false,
        enqueued: 1,
    }
}

/// The outcome of a whole search.
pub open spec fn search_outcome(ctx: SearchContext) -> SearchState {
    run(ctx, initial_state(ctx))
}

/// What holds of every state the search passes through.
pub open spec fn search_inv(ctx: SearchContext, st: SearchState) -> bool {
    let n = ctx.field.len();
    let u = unreached_cost(n);
    &&& ctx.field.wf()
    &&& 0 <= ctx.origin < n
    &&& st.cost.len() == n
    &&& st.dist.len() == n
    &&& st.pred.len() == n
    &&& forall|i: int| 0 <= i < n ==> 0 <= #[trigger] st.cost[i] <= u
    &&& forall|i: int| 0 <= i < n ==> -1 <= #[trigger] st.dist[i] <= st.enqueued
    &&& forall|i: int| 0 <= i < n ==> -1 <= #[trigger] st.pred[i] < n
    &&& forall|k: int| 0 <= k < st.queue.len() ==> 0 <= #[trigger] st.queue[k] < n
    &&& 0 <= st.best < n
    &&& 1 <= st.enqueued
    &&& st.queue.len() <= st.enqueued
    &&& st.enqueued + cost_sum(st.cost) <= (n - 1) * u + 1
}

pub proof fn lemma_cost_sum_update(s: Seq<int>, i: int, v: int)
    requires
        0 <= i < s.len(),
    ensures
        cost_sum(s.update(i, v)) == cost_sum(s) - s[i] + v,
    decreases s.len(),
{
    let t = s.update(i, v);
    if i < s.len() - 1 {
        assert(t.drop_last() =~= s.drop_last().update(i, v));
        lemma_cost_sum_update(s.drop_last(), i, v);
    } else {
        assert(t.drop_last() =~= s.drop_last());
    }
}

pub proof fn lemma_cost_sum_bounds(s: Seq<int>, u: int)
    requires
        0 <= u,
        forall|i: int| 0 <= i < s.len() ==> 0 <= #[trigger] s[i] <= u,
    ensures
        0 <= cost_sum(s) <= s.len() * u,
    decreases s.len(),
{
    if s.len() > 0 {
        let t = s.drop_last();
        assert forall|i: int| 0 <= i < t.len() implies 0 <= #[trigger] t[i] <= u by {
            assert(t[i] == s[i]);
        }
        lemma_cost_sum_bounds(t, u);
        assert(t.len() * u + u == s.len() * u) by (nonlinear_arith)
            requires t.len() + 1 == s.len();
    }
}

/// One relaxation keeps the invariant; it either changes nothing or lowers
/// one cost and adds one cell to the queue.
pub proof fn lemma_relax(ctx: SearchContext, st: SearchState, c: int, dir: int)
    requires
        search_inv(ctx, st),
        0 <= c < ctx.field.len(),
    ensures
        search_inv(ctx, relax(ctx, st, c, dir)),
        relax(ctx, st, c, dir) == st || (cost_sum(relax(ctx, st, c, dir).cost) < cost_sum(st.cost)
            && relax(ctx, st, c, dir).queue.len() == st.queue.len() + 1),
        relax(ctx, st, c, dir).cost[c] == st.cost[c],
        relax(ctx, st, c, dir).dist[c] == st.dist[c],
        relax(ctx, st, c, dir).best == st.best,
        relax(ctx, st, c, dir).best_score == st.best_score,
        relax(ctx, st, c, dir).best_fire == st.best_fire,
{
    let m = ctx.field;
    let n = m.len();
    let nb = neighbor(m.width, n, c, dir);
    crate::field::lemma_neighbor_in_range(m.width, n, c, dir);
    let r = relax(ctx, st, c, dir);
    if r != st {
        let v = st.cost[c] + m.cells[nb].risk;
        lemma_cost_sum_update(st.cost, nb, v);
        assert(nb != c);
        assert forall|k: int| 0 <= k < r.queue.len() implies 0 <= #[trigger] r.queue[k] < n by {
            if k < st.queue.len() {
                assert(r.queue[k] == st.queue[k]);
            }
        }
        assert forall|i: int| 0 <= i < n implies -1 <= #[trigger] r.dist[i] <= r.enqueued by {
            if i != nb {
                assert(r.dist[i] == st.dist[i]);
            }
        }
        assert forall|i: int| 0 <= i < n implies 0 <= #[trigger] r.cost[i] <= unreached_cost(n) by {
            if i != nb {
                assert(r.cost[i] == st.cost[i]);
            }
        }
    }
}

pub proof fn lemma_relax_upto(ctx: SearchContext, st: SearchState, c: int, k: nat)
    requires
        search_inv(ctx, st),
        0 <= c < ctx.field.len(),
    ensures
        search_inv(ctx, relax_upto(ctx, st, c, k)),
        relax_upto(ctx, st, c, k) == st || (cost_sum(relax_upto(ctx, st, c, k).cost) < cost_sum(st.cost)),
        relax_upto(ctx, st, c, k).cost[c] == st.cost[c],
        relax_upto(ctx, st, c, k).dist[c] == st.dist[c],
        relax_upto(ctx, st, c, k).best == st.best,
        relax_upto(ctx, st, c, k).best_score == st.best_score,
        relax_upto(ctx, st, c, k).best_fire == st.best_fire,
    decreases k,
{
    if k > 0 {
        lemma_relax_upto(ctx, st, c, (k - 1) as nat);
        lemma_relax(ctx, relax_upto(ctx, st, c, (k - 1) as nat), c, k - 1);
    }
}

/// A round keeps the invariant and descends in the search's order.
pub proof fn lemma_step(ctx: SearchContext, st: SearchState)
    requires
        search_inv(ctx, st),
        st.queue.len() > 0,
    ensures
        search_inv(ctx, step(ctx, st)),
        measure_below(step(ctx, st), st),
{
    let c = st.queue[0];
    let scored = step_scored(ctx, st);
    assert forall|k: int| 0 <= k < scored.queue.len() implies 0 <= #[trigger] scored.queue[k] < ctx.field.len() by {
        assert(scored.queue[k] == st.queue[k + 1]);
    }
    assert(search_inv(ctx, scored));
    lemma_relax_upto(ctx, scored, c, 4);
    let u = unreached_cost(ctx.field.len());
    lemma_cost_sum_bounds(step(ctx, st).cost, u);
}

/// The whole search keeps the invariant and ends with an empty queue.
pub proof fn lemma_run(ctx: SearchContext, st: SearchState)
    requires
        search_inv(ctx, st),
    ensures
        search_inv(ctx, run(ctx, st)),
        run(ctx, st).queue.len() == 0,
    decreases cost_sum(st.cost), st.queue.len(),
{
    if st.queue.len() > 0 {
        lemma_step(ctx, st);
        lemma_run(ctx, step(ctx, st));
    }
}

pub proof fn lemma_initial_state(ctx: SearchContext)
    requires
        ctx.field.wf(),
        0 <= ctx.origin < ctx.field.len(),
    ensures
        search_inv(ctx, initial_state(ctx)),
{
    let st = initial_state(ctx);
    let n = ctx.field.len();
    let u = unreached_cost(n);
    assert(u >= 1) by (nonlinear_arith)
        requires n >= 1, u == n * RISK_OF_BOMB + 1;
    let full = st.cost.update(ctx.origin, u);
    lemma_cost_sum_update(full, ctx.origin, 0);
    assert(full.update(ctx.origin, 0) =~= st.cost);
    lemma_cost_sum_bounds(full, u);
    assert(n * u - u == (n - 1) * u) by (nonlinear_arith);
}

/// The search is bounded: its queue takes in no more cells than the board
/// has cells times the number of distinct cost levels a cell can pass through.
pub proof fn lemma_search_bounded(ctx: SearchContext)
    requires
        ctx.field.wf(),
        0 <= ctx.origin < ctx.field.len(),
    ensures
        search_outcome(ctx).enqueued <= ctx.field.len() * unreached_cost(ctx.field.len()),
        search_outcome(ctx).queue.len() == 0,
{
    lemma_initial_state(ctx);
    lemma_run(ctx, initial_state(ctx));
    let out = search_outcome(ctx);
    lemma_cost_sum_bounds(out.cost, unreached_cost(ctx.field.len()));
    lemma_search_bound(ctx.field.len());
}

/// The opponent's cell stays untouched by a blockaded search.
pub open spec fn blockade_inv(ctx: SearchContext, st: SearchState) -> bool {
    let o = ctx.opponent;
    &&& st.best != o
    &&& st.dist[o] == -1
    &&& forall|k: int| 0 <= k < st.queue.len() ==> #[trigger] st.queue[k] != o
    &&& forall|i: int| 0 <= i < st.pred.len() ==> #[trigger] st.pred[i] != o
}

proof fn lemma_blockade_relax_upto(ctx: SearchContext, st: SearchState, c: int, k: nat)
    requires
        ctx.blockaded,
        search_inv(ctx, st),
        blockade_inv(ctx, st),
        0 <= c < ctx.field.len(),
        c != ctx.opponent,
        0 <= ctx.opponent < ctx.field.len(),
    ensures
        search_inv(ctx, relax_upto(ctx, st, c, k)),
        blockade_inv(ctx, relax_upto(ctx, st, c, k)),
    decreases k,
{
    if k > 0 {
        let prev = relax_upto(ctx, st, c, (k - 1) as nat);
        lemma_blockade_relax_upto(ctx, st, c, (k - 1) as nat);
        lemma_relax(ctx, prev, c, k - 1);
        let r = relax(ctx, prev, c, k - 1);
        if r != prev {
            let nb = neighbor(ctx.field.width, ctx.field.len(), c, k - 1);
            assert(nb != ctx.opponent);
            assert(r.dist[ctx.opponent] == prev.dist[ctx.opponent]);
            assert forall|q: int| 0 <= q < r.queue.len() implies #[trigger] r.queue[q] != ctx.opponent by {
                if q < prev.queue.len() {
                    assert(r.queue[q] == prev.queue[q]);
                }
            }
            assert forall|i: int| 0 <= i < r.pred.len() implies #[trigger] r.pred[i] != ctx.opponent by {
                if i != nb {
                    assert(r.pred[i] == prev.pred[i]);
                }
            }
        }
    }
}

proof fn lemma_blockade_run(ctx: SearchContext, st: SearchState)
    requires
        ctx.blockaded,
        search_inv(ctx, st),
        blockade_inv(ctx, st),
        0 <= ctx.opponent < ctx.field.len(),
    ensures
        blockade_inv(ctx, run(ctx, st)),
    decreases cost_sum(st.cost), st.queue.len(),
{
    if st.queue.len() > 0 {
        lemma_step(ctx, st);
        let c = st.queue[0];
        let scored = step_scored(ctx, st);
        assert forall|k: int| 0 <= k < scored.queue.len() implies 0 <= #[trigger] scored.queue[k] < ctx.field.len()
            && scored.queue[k] != ctx.opponent by {
            assert(scored.queue[k] == st.queue[k + 1]);
        }
        lemma_blockade_relax_upto(ctx, scored, c, 4);
        lemma_blockade_run(ctx, step(ctx, st));
    }
}

/// While the blockade is on, the opponent's cell is neither chosen as the
/// target, nor reached, nor passed through on the way to any cell.
pub proof fn lemma_blockade_respected(ctx: SearchContext)
    requires
        ctx.field.wf(),
        0 <= ctx.origin < ctx.field.len(),
        0 <= ctx.opponent < ctx.field.len(),
        ctx.origin != ctx.opponent,
        ctx.blockaded,
    ensures
        search_outcome(ctx).best != ctx.opponent,
        search_outcome(ctx).dist[ctx.opponent] == -1,
        forall|i: int| 0 <= i < ctx.field.len() ==> #[trigger] search_outcome(ctx).pred[i] != ctx.opponent,
{
    lemma_initial_state(ctx);
    let st = initial_state(ctx);
    assert forall|k: int| 0 <= k < st.queue.len() implies #[trigger] st.queue[k] != ctx.opponent by {
        assert(st.queue[k] == ctx.origin);
    }
    lemma_blockade_run(ctx, st);
    lemma_run(ctx, st);
}

/// A bomb placement from which the bomber cannot get clear is never a fire
/// candidate: its score is the distance, risk and item terms alone.
pub proof fn lemma_escape_gating(ctx: SearchContext, c: int, dist: int)
    requires
        !escapable(with_new_bomb(ctx.field, c, ctx.power), c, ctx.opponent),
    ensures
        candidate_score(ctx, c, dist) == (
            base_score(ctx, c, dist) + if ctx.field.cells[c].field_object is PowerUpItem { SCORE_OF_POWER_UP_ITEM as int } else { 0 },
            false,
        ),
{
}

/// Cells the search may ever enter: passable, and not the opponent's cell
/// while the blockade is on.
pub open spec fn search_allowed(ctx: SearchContext) -> Seq<bool> {
    Seq::new(
        ctx.field.cells.len(),
        |i: int| passable(ctx.field.cells[i].field_object) && !(ctx.blockaded && i == ctx.opponent),
    )
}

/// Every recorded hop count is walkable: the cell lies within that many
/// steps of the origin.
pub open spec fn walkable_inv(ctx: SearchContext, st: SearchState) -> bool {
    let w = ctx.field.width;
    &&& forall|c: int| 0 <= c < st.dist.len() && #[trigger] st.dist[c] >= 0 ==> reach(w, search_allowed(ctx), ctx.origin, st.dist[c] as nat)[c]
    &&& forall|k: int| 0 <= k < st.queue.len() ==> st.dist[#[trigger] st.queue[k]] >= 0
}

pub open spec fn back(dir: int) -> int {
    if dir == 0 { 1 } else if dir == 1 { 0 } else if dir == 2 { 3 } else { 2 }
}

/// Stepping back from a neighbor returns to the cell.
pub proof fn lemma_neighbor_back(w: int, n: int, c: int, dir: int)
    requires
        1 <= w,
        0 <= c < n,
        0 <= dir < 4,
        neighbor(w, n, c, dir) >= 0,
    ensures
        neighbor(w, n, neighbor(w, n, c, dir), back(dir)) == c,
{
    let q = c / w;
    let r = c % w;
    vstd::arithmetic::div_mod::lemma_fundamental_div_mod(c, w);
    if dir == 0 {
        vstd::arithmetic::div_mod::lemma_fundamental_div_mod_converse(c - 1, w, q, r - 1);
    } else if dir == 1 {
        vstd::arithmetic::div_mod::lemma_fundamental_div_mod_converse(c + 1, w, q, r + 1);
    }
}

proof fn lemma_reach_step(ctx: SearchContext, k: nat, c: int, dir: int)
    requires
        ctx.field.wf(),
        0 <= c < ctx.field.len(),
        0 <= dir < 4,
        reach(ctx.field.width, search_allowed(ctx), ctx.origin, k)[c],
        neighbor(ctx.field.width, ctx.field.len(), c, dir) >= 0,
        search_allowed(ctx)[neighbor(ctx.field.width, ctx.field.len(), c, dir)],
    ensures
        reach(ctx.field.width, search_allowed(ctx), ctx.origin, k + 1)[neighbor(ctx.field.width, ctx.field.len(), c, dir)],
{
    let w = ctx.field.width;
    let n = ctx.field.len();
    let nb = neighbor(w, n, c, dir);
    crate::reach::lemma_reach_len(w, search_allowed(ctx), ctx.origin, k);
    crate::field::lemma_neighbor_in_range(w, n, c, dir);
    lemma_neighbor_back(w, n, c, dir);
    let cur = reach(w, search_allowed(ctx), ctx.origin, k);
    assert(crate::reach::entered_from(w, cur, nb, back(dir)));
}

proof fn lemma_walkable_relax_upto(ctx: SearchContext, st: SearchState, c: int, k: nat)
    requires
        search_inv(ctx, st),
        walkable_inv(ctx, st),
        0 <= c < ctx.field.len(),
        st.dist[c] >= 0,
        k <= 4,
    ensures
        search_inv(ctx, relax_upto(ctx, st, c, k)),
        walkable_inv(ctx, relax_upto(ctx, st, c, k)),
        relax_upto(ctx, st, c, k).dist[c] == st.dist[c],
    decreases k,
{
    if k > 0 {
        let prev = relax_upto(ctx, st, c, (k - 1) as nat);
        lemma_walkable_relax_upto(ctx, st, c, (k - 1) as nat);
        lemma_relax(ctx, prev, c, k - 1);
        let r = relax(ctx, prev, c, k - 1);
        if r != prev {
            let w = ctx.field.width;
            let n = ctx.field.len();
            let nb = neighbor(w, n, c, k - 1);
            crate::field::lemma_neighbor_in_range(w, n, c, k - 1);
            assert(nb != c);
            lemma_reach_step(ctx, prev.dist[c] as nat, c, k - 1);
            assert forall|i: int| 0 <= i < r.dist.len() && #[trigger] r.dist[i] >= 0 implies reach(
                w,
                search_allowed(ctx),
                ctx.origin,
                r.dist[i] as nat,
            )[i] by {
                if i != nb {
                    assert(r.dist[i] == prev.dist[i]);
                }
            }
            assert forall|q: int| 0 <= q < r.queue.len() implies r.dist[#[trigger] r.queue[q]] >= 0 by {
                if q < prev.queue.len() {
                    assert(r.queue[q] == prev.queue[q]);
                    if prev.queue[q] != nb {
                        assert(r.dist[prev.queue[q]] == prev.dist[prev.queue[q]]);
                    }
                }
            }
        }
    }
}

proof fn lemma_walkable_run(ctx: SearchContext, st: SearchState)
    requires
        search_inv(ctx, st),
        walkable_inv(ctx, st),
    ensures
        walkable_inv(ctx, run(ctx, st)),
    decreases cost_sum(st.cost), st.queue.len(),
{
    if st.queue.len() > 0 {
        lemma_step(ctx, st);
        let c = st.queue[0];
        let scored = step_scored(ctx, st);
        assert forall|q: int| 0 <= q < scored.queue.len() implies scored.dist[#[trigger] scored.queue[q]] >= 0 by {
            assert(scored.queue[q] == st.queue[q + 1]);
        }
        lemma_walkable_relax_upto(ctx, scored, c, 4);
        lemma_walkable_run(ctx, step(ctx, st));
    }
}

/// Every recorded hop count is at least the shortest walk: each cell the
/// search reaches lies within its recorded distance of the origin, moving
/// only through passable cells (and around the opponent's cell while the
/// blockade is on).
pub proof fn lemma_distances_walkable(ctx: SearchContext)
    requires
        ctx.field.wf(),
        0 <= ctx.origin < ctx.field.len(),
    ensures
        forall|c: int|
            0 <= c < ctx.field.len() && #[trigger] search_outcome(ctx).dist[c] >= 0 ==> reach(
                ctx.field.width,
                search_allowed(ctx),
                ctx.origin,
                search_outcome(ctx).dist[c] as nat,
            )[c],
{
    lemma_initial_state(ctx);
    let st = initial_state(ctx);
    crate::reach::lemma_reach_len(ctx.field.width, search_allowed(ctx), ctx.origin, 0);
    assert forall|c: int| 0 <= c < st.dist.len() && #[trigger] st.dist[c] >= 0 implies reach(
        ctx.field.width,
        search_allowed(ctx),
        ctx.origin,
        st.dist[c] as nat,
    )[c] by {
        assert(c == ctx.origin);
    }
    assert forall|q: int| 0 <= q < st.queue.len() implies st.dist[#[trigger] st.queue[q]] >= 0 by {
        assert(st.queue[q] == ctx.origin);
    }
    lemma_walkable_run(ctx, st);
    lemma_run(ctx, st);
}

/// No bomb threatens any cell of the board.
pub open spec fn risk_free(m: FieldModel) -> bool {
    forall|i: int| 0 <= i < m.len() ==> #[trigger] m.cells[i].risk == 0
}

/// Allowed neighbor `u` of cell `v` has been reached, one hop further at most.
pub open spec fn edge_closed(ctx: SearchContext, st: SearchState, v: int, dir: int) -> bool {
    let u = neighbor(ctx.field.width, ctx.field.len(), v, dir);
    u >= 0 && search_allowed(ctx)[u] ==> st.dist[u] >= 0 && st.dist[u] <= st.dist[v] + 1
}

/// Breadth-first order of a risk-free search, with `h` the hop count of the
/// cell being expanded and `skip` that cell (or -1 between rounds).
pub open spec fn bfs_inv(ctx: SearchContext, st: SearchState, h: int, skip: int) -> bool {
    let n = ctx.field.len();
    let u = unreached_cost(n);
    &&& st.dist[ctx.origin] == 0
    &&& forall|i: int| 0 <= i < n ==> (#[trigger] st.cost[i] == 0 && st.dist[i] >= 0) || (st.cost[i] == u && st.dist[i] == -1)
    &&& forall|a: int, b: int| 0 <= a <= b < st.queue.len() ==> st.dist[#[trigger] st.queue[a]] <= st.dist[#[trigger] st.queue[b]]
    &&& forall|a: int| 0 <= a < st.queue.len() ==> h <= st.dist[#[trigger] st.queue[a]] <= h + 1
    &&& forall|i: int| 0 <= i < n && #[trigger] st.dist[i] >= 0 ==> st.dist[i] <= h + 1
    &&& forall|v: int, dir: int|
        0 <= v < n && 0 <= dir < 4 && st.dist[v] >= 0 && !st.queue.contains(v) && v != skip ==> #[trigger] edge_closed(ctx, st, v, dir)
}

proof fn lemma_bfs_relax_upto(ctx: SearchContext, st: SearchState, c: int, k: nat)
    requires
        risk_free(ctx.field),
        search_inv(ctx, st),
        bfs_inv(ctx, st, st.dist[c], c),
        0 <= c < ctx.field.len(),
        st.dist[c] >= 0,
        k <= 4,
    ensures
        search_inv(ctx, relax_upto(ctx, st, c, k)),
        bfs_inv(ctx, relax_upto(ctx, st, c, k), st.dist[c], c),
        relax_upto(ctx, st, c, k).dist[c] == st.dist[c],
        forall|d: int| 0 <= d < k ==> #[trigger] edge_closed(ctx, relax_upto(ctx, st, c, k), c, d),
        forall|i: int| 0 <= i < ctx.field.len() && st.dist[i] >= 0 ==> #[trigger] relax_upto(ctx, st, c, k).dist[i] == st.dist[i],
    decreases k,
{
    if k > 0 {
        let prev = relax_upto(ctx, st, c, (k - 1) as nat);
        lemma_bfs_relax_upto(ctx, st, c, (k - 1) as nat);
        lemma_relax(ctx, prev, c, k - 1);
        let r = relax(ctx, prev, c, k - 1);
        let h = st.dist[c];
        let w = ctx.field.width;
        let n = ctx.field.len();
        let nb = neighbor(w, n, c, k - 1);
        crate::field::lemma_neighbor_in_range(w, n, c, k - 1);
        let un = unreached_cost(n);
        assert(un >= 1) by (nonlinear_arith)
            requires n >= 1, un == n * RISK_OF_BOMB + 1;
        if nb >= 0 {
            assert(ctx.field.cells[nb].risk == 0);
            assert(ctx.field.cells[c].risk == 0);
        }
        if r != prev {
            assert(nb != c);
            assert(prev.dist[nb] == -1);
            assert forall|i: int| 0 <= i < n implies (#[trigger] r.cost[i] == 0 && r.dist[i] >= 0) || (r.cost[i] == un && r.dist[i] == -1) by {
                if i != nb {
                    assert(r.cost[i] == prev.cost[i] && r.dist[i] == prev.dist[i]);
                }
            }
            assert forall|a: int, b: int| 0 <= a <= b < r.queue.len() implies r.dist[#[trigger] r.queue[a]] <= r.dist[#[trigger] r.queue[b]] by {
                if b < prev.queue.len() {
                    assert(r.queue[a] == prev.queue[a] && r.queue[b] == prev.queue[b]);
                    assert(prev.dist[prev.queue[a]] >= 0 && prev.dist[prev.queue[b]] >= 0);
                    assert(prev.queue[a] != nb && prev.queue[b] != nb);
                } else if a < prev.queue.len() {
                    assert(r.queue[a] == prev.queue[a]);
                    assert(prev.dist[prev.queue[a]] >= 0);
                    assert(prev.queue[a] != nb);
                }
            }
            assert forall|a: int| 0 <= a < r.queue.len() implies h <= r.dist[#[trigger] r.queue[a]] <= h + 1 by {
                if a < prev.queue.len() {
                    assert(r.queue[a] == prev.queue[a]);
                    assert(prev.dist[prev.queue[a]] >= 0);
                    assert(prev.queue[a] != nb);
                }
            }
            assert forall|i: int| 0 <= i < n && #[trigger] r.dist[i] >= 0 implies r.dist[i] <= h + 1 by {
                if i != nb {
                    assert(r.dist[i] == prev.dist[i]);
                }
            }
            assert forall|v: int, dir: int|
                0 <= v < n && 0 <= dir < 4 && r.dist[v] >= 0 && !r.queue.contains(v) && v != c implies #[trigger] edge_closed(ctx, r, v, dir) by {
                assert(v != nb) by {
                    if v == nb {
                        assert(r.queue[r.queue.len() - 1] == nb);
                    }
                }
                assert(r.dist[v] == prev.dist[v]);
                if prev.queue.contains(v) {
                    let a = choose|a: int| 0 <= a < prev.queue.len() && prev.queue[a] == v;
                    assert(r.queue[a] == v);
                }
                assert(edge_closed(ctx, prev, v, dir));
                let u = neighbor(w, n, v, dir);
                if u >= 0 && search_allowed(ctx)[u] {
                    assert(u != nb);
                    assert(r.dist[u] == prev.dist[u]);
                }
            }
            assert forall|d: int| 0 <= d < k implies #[trigger] edge_closed(ctx, r, c, d) by {
                let u = neighbor(w, n, c, d);
                if d < k - 1 {
                    assert(edge_closed(ctx, prev, c, d));
                    if u >= 0 && search_allowed(ctx)[u] {
                        if u != nb {
                            assert(r.dist[u] == prev.dist[u]);
                        }
                    }
                }
            }
            assert forall|i: int| 0 <= i < n && st.dist[i] >= 0 implies #[trigger] r.dist[i] == st.dist[i] by {
                assert(prev.dist[i] == st.dist[i]);
            }
        } else {
            assert forall|d: int| 0 <= d < k implies #[trigger] edge_closed(ctx, r, c, d) by {
                if d == k - 1 {
                    let u = neighbor(w, n, c, d);
                    if u >= 0 && search_allowed(ctx)[u] {
                        assert(prev.cost[c] == 0);
                        assert(prev.dist[u] >= 0);
                    }
                } else {
                    assert(edge_closed(ctx, prev, c, d));
                }
            }
        }
    }
}

proof fn lemma_bfs_run(ctx: SearchContext, st: SearchState, h0: int)
    requires
        risk_free(ctx.field),
        search_inv(ctx, st),
        walkable_inv(ctx, st),
        bfs_inv(ctx, st, h0, -1),
        st.queue.len() > 0 ==> h0 == st.dist[st.queue[0]],
    ensures
        forall|v: int, dir: int|
            0 <= v < ctx.field.len() && 0 <= dir < 4 && run(ctx, st).dist[v] >= 0 ==> #[trigger] edge_closed(ctx, run(ctx, st), v, dir),
        run(ctx, st).dist[ctx.origin] == 0,
    decreases cost_sum(st.cost), st.queue.len(),
{
    if st.queue.len() > 0 {
        lemma_step(ctx, st);
        let c = st.queue[0];
        let h = st.dist[c];
        let scored = step_scored(ctx, st);
        assert(scored.dist == st.dist && scored.cost == st.cost);
        assert forall|q: int| 0 <= q < scored.queue.len() implies scored.dist[#[trigger] scored.queue[q]] >= 0 by {
            assert(scored.queue[q] == st.queue[q + 1]);
        }
        assert forall|a: int, b: int| 0 <= a <= b < scored.queue.len() implies scored.dist[#[trigger] scored.queue[a]]
            <= scored.dist[#[trigger] scored.queue[b]] by {
            assert(scored.queue[a] == st.queue[a + 1] && scored.queue[b] == st.queue[b + 1]);
        }
        assert forall|a: int| 0 <= a < scored.queue.len() implies h <= scored.dist[#[trigger] scored.queue[a]] <= h + 1 by {
            assert(scored.queue[a] == st.queue[a + 1]);
        }
        assert forall|v: int, dir: int|
            0 <= v < ctx.field.len() && 0 <= dir < 4 && scored.dist[v] >= 0 && !scored.queue.contains(v) && v != c implies
            #[trigger] edge_closed(ctx, scored, v, dir) by {
            if st.queue.contains(v) {
                let a = choose|a: int| 0 <= a < st.queue.len() && st.queue[a] == v;
                assert(a != 0);
                assert(scored.queue[a - 1] == v);
            }
            assert(edge_closed(ctx, st, v, dir));
        }
        assert(bfs_inv(ctx, scored, h, c));
        lemma_bfs_relax_upto(ctx, scored, c, 4);
        lemma_walkable_relax_upto(ctx, scored, c, 4);
        let next = step(ctx, st);
        assert(next == relax_upto(ctx, scored, c, 4));
        assert(walkable_inv(ctx, next));
        let h2 = if next.queue.len() > 0 { next.dist[next.queue[0]] } else { h + 1 };
        if next.queue.len() > 0 {
            assert(h <= h2 <= h + 1);
            assert forall|a: int| 0 <= a < next.queue.len() implies h2 <= next.dist[#[trigger] next.queue[a]] <= h2 + 1 by {
                assert(next.dist[next.queue[0]] <= next.dist[next.queue[a]]);
            }
        }
        assert forall|i: int| 0 <= i < ctx.field.len() && #[trigger] next.dist[i] >= 0 implies next.dist[i] <= h2 + 1 by {
        }
        assert forall|v: int, dir: int|
            0 <= v < ctx.field.len() && 0 <= dir < 4 && next.dist[v] >= 0 && !next.queue.contains(v) && v != -1 implies
            #[trigger] edge_closed(ctx, next, v, dir) by {
            if v != c {
            } else {
                assert(edge_closed(ctx, next, c, dir));
            }
        }
        assert(bfs_inv(ctx, next, h2, -1));
        lemma_bfs_run(ctx, next, h2);
    } else {
        assert forall|v: int, dir: int|
            0 <= v < ctx.field.len() && 0 <= dir < 4 && run(ctx, st).dist[v] >= 0 implies #[trigger] edge_closed(ctx, run(ctx, st), v, dir) by {
            assert(!st.queue.contains(v));
        }
    }
}

proof fn lemma_reach_within_distance(ctx: SearchContext, out: SearchState, k: nat)
    requires
        ctx.field.wf(),
        0 <= ctx.origin < ctx.field.len(),
        out.dist.len() == ctx.field.len(),
        out.dist[ctx.origin] == 0,
        forall|v: int, dir: int|
            0 <= v < ctx.field.len() && 0 <= dir < 4 && out.dist[v] >= 0 ==> #[trigger] edge_closed(ctx, out, v, dir),
    ensures
        forall|u: int|
            0 <= u < ctx.field.len() && #[trigger] reach(ctx.field.width, search_allowed(ctx), ctx.origin, k)[u] ==> 0
                <= out.dist[u] <= k,
    decreases k,
{
    let w = ctx.field.width;
    let n = ctx.field.len();
    let allowed = search_allowed(ctx);
    if k > 0 {
        lemma_reach_within_distance(ctx, out, (k - 1) as nat);
        let prev = reach(w, allowed, ctx.origin, (k - 1) as nat);
        crate::reach::lemma_reach_len(w, allowed, ctx.origin, (k - 1) as nat);
        assert forall|u: int| 0 <= u < n && #[trigger] reach(w, allowed, ctx.origin, k)[u] implies 0 <= out.dist[u] <= k by {
            if !prev[u] {
                let dir = if crate::reach::entered_from(w, prev, u, 0) {
                    0
                } else if crate::reach::entered_from(w, prev, u, 1) {
                    1
                } else if crate::reach::entered_from(w, prev, u, 2) {
                    2
                } else {
                    3
                };
                assert(crate::reach::entered_from(w, prev, u, dir));
                let j = neighbor(w, n, u, dir);
                crate::field::lemma_neighbor_in_range(w, n, u, dir);
                lemma_neighbor_back(w, n, u, dir);
                assert(prev[j]);
                assert(edge_closed(ctx, out, j, back(dir)));
            }
        }
    } else {
        assert forall|u: int| 0 <= u < n && #[trigger] reach(w, allowed, ctx.origin, k)[u] implies 0 <= out.dist[u] <= k by {
            assert(u == ctx.origin);
        }
    }
}

/// On a board that no bomb threatens the recorded hop counts are exactly
/// the shortest walks from the origin: a cell reachable in `k` steps has a
/// hop count of at most `k`, and a recorded hop count is walkable, so each
/// is the least such number; cells that cannot be reached keep -1.
pub proof fn lemma_distances_are_shortest(ctx: SearchContext)
    requires
        ctx.field.wf(),
        0 <= ctx.origin < ctx.field.len(),
        risk_free(ctx.field),
    ensures
        forall|u: int, k: nat|
            0 <= u < ctx.field.len() && #[trigger] reach(ctx.field.width, search_allowed(ctx), ctx.origin, k)[u] ==> 0
                <= search_outcome(ctx).dist[u] <= k,
        forall|u: int|
            0 <= u < ctx.field.len() && #[trigger] search_outcome(ctx).dist[u] >= 0 ==> reach(
                ctx.field.width,
                search_allowed(ctx),
                ctx.origin,
                search_outcome(ctx).dist[u] as nat,
            )[u],
{
    lemma_initial_state(ctx);
    lemma_distances_walkable(ctx);
    let st = initial_state(ctx);
    let n = ctx.field.len();
    crate::reach::lemma_reach_len(ctx.field.width, search_allowed(ctx), ctx.origin, 0);
    assert forall|c: int| 0 <= c < st.dist.len() && #[trigger] st.dist[c] >= 0 implies reach(
        ctx.field.width,
        search_allowed(ctx),
        ctx.origin,
        st.dist[c] as nat,
    )[c] by {
        assert(c == ctx.origin);
    }
    assert forall|q: int| 0 <= q < st.queue.len() implies st.dist[#[trigger] st.queue[q]] >= 0 by {
        assert(st.queue[q] == ctx.origin);
    }
    assert forall|v: int, dir: int|
        0 <= v < n && 0 <= dir < 4 && st.dist[v] >= 0 && !st.queue.contains(v) && v != -1 implies #[trigger] edge_closed(ctx, st, v, dir) by {
        assert(v == ctx.origin);
        assert(st.queue[0] == v);
    }
    assert(bfs_inv(ctx, st, 0, -1));
    lemma_bfs_run(ctx, st, 0);
    lemma_run(ctx, st);
    let out = search_outcome(ctx);
    assert forall|u: int, k: nat|
        0 <= u < n && #[trigger] reach(ctx.field.width, search_allowed(ctx), ctx.origin, k)[u] implies 0 <= out.dist[u] <= k by {
        lemma_reach_within_distance(ctx, out, k);
    }
}

/// Upper bound of any hop count or queue total the search produces.
pub const SEARCH_BOUND: i64 = 1_000_000_000_000;

pub proof fn lemma_search_bound(n: int)
    requires
        1 <= n <= crate::constants::MAX_CELLS,
    ensures
        1 <= unreached_cost(n),
        (n - 1) * unreached_cost(n) + 1 <= n * unreached_cost(n),
        n * unreached_cost(n) <= SEARCH_BOUND,
{
    let u = unreached_cost(n);
    assert(1 <= u <= 65536 * 180 + 1) by (nonlinear_arith)
        requires 1 <= n <= 65536, u == n * 180 + 1;
    assert((n - 1) * u + 1 <= n * u) by (nonlinear_arith)
        requires 1 <= u;
    assert(n * u <= 65536 * (65536 * 180 + 1)) by (nonlinear_arith)
        requires 1 <= n <= 65536, 1 <= u <= 65536 * 180 + 1;
}

/// The search context for the given board, cells and decision-state inputs.
pub open spec fn context(
    field: FieldModel,
    origin: int,
    opponent: int,
    power: int,
    opponent_alive: bool,
    stuck_pressure: int,
    blockaded: bool,
) -> SearchContext {
    SearchContext { field, origin, opponent, power, opponent_alive, stuck_pressure, blockaded }
}

/// Score of taking cell `c`, reached in `dist` hops, as the target, and
/// whether bombing it pays off; `base_stress` is the opponent's current stress.
pub fn evaluate_cell(
    field: &Field,
    c: usize,
    dist: i64,
    origin: usize,
    opponent: usize,
    power: u32,
    opponent_alive: bool,
    stuck_pressure: u32,
    base_stress: u64,
) -> (r: (i64, bool))
    requires
        field.wf(),
        c < field@.len(),
        opponent < field@.len(),
        -1 <= dist <= SEARCH_BOUND,
        base_stress == opponent_stress(field@, opponent as int),
    ensures
        (r.0 as int, r.1) == candidate_score(
            context(field@, origin as int, opponent as int, power as int, opponent_alive, stuck_pressure as int, false),
            c as int,
            dist as int,
        ),
{
    let e = field.elements[c];
    let bonus: i64 = match e.field_object {
        FieldObject::PowerUpItem => SCORE_OF_POWER_UP_ITEM,
        _ => 0,
    };
    let base: i64 = -(e.risk as i64) - dist * SCORE_OF_DISTANCE + bonus;
    let is_bomb = match e.field_object {
        FieldObject::Bomb => true,
        _ => false,
    };
    if is_bomb || c == opponent {
        return (base, false);
    }
    let mut g = field.duplicate();
    let breaks = g.add_bomb(c, power);
    if !g.escapable_from(c, opponent) {
        return (base, false);
    }
    let s1 = if breaks > 0 { base + (breaks as i64) * SCORE_OF_BREAK_WALL } else { base };
    let after = g.stress_at(opponent);
    proof {
        crate::checks::lemma_stress_range(field@, opponent as int);
    }
    let delta: i64 = after as i64 - base_stress as i64;
    if opponent_alive && delta > 0 {
        let weight: i64 = OPPONENT_STRESS_WEIGHT + if c == origin { stuck_pressure as i64 } else { 0 };
        assert(delta * weight <= 100 * (1 + 0xffff_ffff)) by (nonlinear_arith)
            requires 0 < delta <= 100, 1 <= weight <= 1 + 0xffff_ffff;
        (s1 + delta * weight, true)
    } else {
        (s1, breaks > 0)
    }
}

/// What a search hands back: the chosen cell, its score, whether bombing it
/// pays off, and per cell the hop count (-1 when never reached), the
/// accumulated cost and the cell it was reached from (-1 for none).
pub struct SearchResult {
    pub best: usize,
    pub best_score: i64,
    pub fire: bool,
    pub distance: Vec<i64>,
    pub cost: Vec<i64>,
    pub previous: Vec<i64>,
    pub enqueued: u64,
}

pub open spec fn ints(s: Seq<i64>) -> Seq<int> {
    s.map_values(|v: i64| v as int)
}

pub open spec fn indices(s: Seq<usize>) -> Seq<int> {
    s.map_values(|v: usize| v as int)
}

impl SearchResult {
    /// The result is the final state `st`.
    pub open spec fn matches(&self, st: SearchState) -> bool {
        &&& self.best == st.best
        &&& self.best_score == st.best_score
        &&& self.fire == st.best_fire
        &&& ints(self.distance@) == st.dist
        &&& ints(self.cost@) == st.cost
        &&& ints(self.previous@) == st.pred
        &&& self.enqueued == st.enqueued
    }
}

pub open spec fn working_state(
    costs: Seq<i64>,
    dists: Seq<i64>,
    preds: Seq<i64>,
    queue: Seq<usize>,
    head: int,
    best: usize,
    best_score: i64,
    best_fire: bool,
    enqueued: u64,
) -> SearchState {
    SearchState {
        cost: ints(costs),
        dist: ints(dists),
        pred: ints(preds),
        queue: indices(queue.subrange(head, queue.len() as int)),
        best: best as int,
        best_score: best_score as int,
        best_fire,
        enqueued: enqueued as int,
    }
}

/// Runs the scoring search from cell `origin` with the opponent on cell
/// `opponent`.
pub fn search(
    field: &Field,
    origin: usize,
    opponent: usize,
    power: u32,
    opponent_alive: bool,
    stuck_pressure: u32,
    blockaded: bool,
) -> (r: SearchResult)
    requires
        field.wf(),
        origin < field@.len(),
        opponent < field@.len(),
    ensures
        r.matches(
            search_outcome(
                context(field@, origin as int, opponent as int, power as int, opponent_alive, stuck_pressure as int, blockaded),
            ),
        ),
        r.enqueued <= field@.len() * unreached_cost(field@.len()),
        search_inv(
            context(field@, origin as int, opponent as int, power as int, opponent_alive, stuck_pressure as int, blockaded),
            search_outcome(
                context(field@, origin as int, opponent as int, power as int, opponent_alive, stuck_pressure as int, blockaded),
            ),
        ),
{
    let ghost ctx = context(field@, origin as int, opponent as int, power as int, opponent_alive, stuck_pressure as int, blockaded);
    let n = field.elements.len();
    proof {
        lemma_search_bound(n as int);
        lemma_initial_state(ctx);
    }
    let unreached: i64 = (n as i64) * (RISK_OF_BOMB as i64) + 1;
    let mut costs: Vec<i64> = Vec::new();
    let mut dists: Vec<i64> = Vec::new();
    let mut preds: Vec<i64> = Vec::new();
    let mut i: usize = 0;
    while i < n
        invariant
            i <= n,
            n == field@.len(),
            unreached == unreached_cost(n as int),
            ctx.field == field@,
            ctx.origin == origin,
            costs.len() == i,
            dists.len() == i,
            preds.len() == i,
            forall|k: int| 0 <= k < i ==> #[trigger] costs@[k] == initial_state(ctx).cost[k],
            forall|k: int| 0 <= k < i ==> #[trigger] dists@[k] == initial_state(ctx).dist[k],
            forall|k: int| 0 <= k < i ==> #[trigger] preds@[k] == -1,
        decreases n - i,
    {
        if i == origin {
            costs.push(0);
            dists.push(0);
        } else {
            costs.push(unreached);
            dists.push(-1);
        }
        preds.push(-1);
        i = i + 1;
    }
    let base_stress = field.stress_at(opponent);
    let mut queue: Vec<usize> = Vec::new();
    queue.push(origin);
    let mut head: usize = 0;
    let mut best: usize = origin;
    let mut best_score: i64 = -(field.elements[origin].risk as i64);
    let mut best_fire = false;
    let mut enqueued: u64 = 1;
    proof {
        let v = working_state(costs@, dists@, preds@, queue@, head as int, best, best_score, best_fire, enqueued);
        assert(v.cost =~= initial_state(ctx).cost);
        assert(v.dist =~= initial_state(ctx).dist);
        assert(v.pred =~= initial_state(ctx).pred);
        assert(v.queue =~= initial_state(ctx).queue);
    }
    while head < queue.len()
        invariant
            field.wf(),
            n == field@.len(),
            origin < n,
            opponent < n,
            ctx == context(field@, origin as int, opponent as int, power as int, opponent_alive, stuck_pressure as int, blockaded),
            base_stress == opponent_stress(field@, opponent as int),
            head <= queue.len(),
            search_inv(ctx, working_state(costs@, dists@, preds@, queue@, head as int, best, best_score, best_fire, enqueued)),
            run(ctx, working_state(costs@, dists@, preds@, queue@, head as int, best, best_score, best_fire, enqueued))
                == search_outcome(ctx),
        decreases
            cost_sum(working_state(costs@, dists@, preds@, queue@, head as int, best, best_score, best_fire, enqueued).cost),
            queue.len() - head,
    {
        let ghost before = working_state(costs@, dists@, preds@, queue@, head as int, best, best_score, best_fire, enqueued);
        proof {
            lemma_search_bound(n as int);
            lemma_step(ctx, before);
            lemma_cost_sum_bounds(before.cost, unreached_cost(n as int));
            assert(before.queue[0] == queue@[head as int]);
        }
        let c = queue[head];
        head = head + 1;
        let cost_c = costs[c];
        let dist_c = dists[c];
        let risk_c = field.elements[c].risk;
        let (score, fire) = evaluate_cell(field, c, dist_c, origin, opponent, power, opponent_alive, stuck_pressure, base_stress);
        if score > best_score {
            best = c;
            best_score = score;
            best_fire = fire;
        }
        let ghost scored = working_state(costs@, dists@, preds@, queue@, head as int, best, best_score, best_fire, enqueued);
        proof {
            assert(scored.queue =~= before.queue.drop_first());
            assert(scored == step_scored(ctx, before));
            assert(search_inv(ctx, scored));
        }
        let mut dir: usize = 0;
        while dir < 4
            invariant
                field.wf(),
                n == field@.len(),
                c < n,
                origin < n,
                dir <= 4,
                head <= queue.len(),
                ctx == context(field@, origin as int, opponent as int, power as int, opponent_alive, stuck_pressure as int, blockaded),
                search_inv(ctx, scored),
                working_state(costs@, dists@, preds@, queue@, head as int, best, best_score, best_fire, enqueued)
                    == relax_upto(ctx, scored, c as int, dir as nat),
                cost_c == scored.cost[c as int],
                dist_c == scored.dist[c as int],
                risk_c == field@.cells[c as int].risk,
            decreases 4 - dir,
        {
            let ghost cur = working_state(costs@, dists@, preds@, queue@, head as int, best, best_score, best_fire, enqueued);
            proof {
                lemma_relax_upto(ctx, scored, c as int, dir as nat);
                lemma_relax(ctx, cur, c as int, dir as int);
                crate::field::lemma_neighbor_in_range(field@.width, n as int, c as int, dir as int);
                lemma_search_bound(n as int);
                lemma_cost_sum_bounds(cur.cost, unreached_cost(n as int));
            }
            match field.neighbor_of(c, dir) {
                Some(nb) => {
                    let e = field.elements[nb];
                    if e.is_passable() && !(blockaded && nb == opponent) && !(e.risk > RISK_OF_BOMB * 9 / 10 && e.risk > risk_c) {
                        let next_cost = cost_c + e.risk as i64;
                        if next_cost < costs[nb] {
                            costs.set(nb, next_cost);
                            dists.set(nb, dist_c + 1);
                            preds.set(nb, c as i64);
                            queue.push(nb);
                            enqueued = enqueued + 1;
                            proof {
                                let after = working_state(costs@, dists@, preds@, queue@, head as int, best, best_score, best_fire, enqueued);
                                let want = relax(ctx, cur, c as int, dir as int);
                                assert(after.cost =~= want.cost);
                                assert(after.dist =~= want.dist);
                                assert(after.pred =~= want.pred);
                                assert(after.queue =~= want.queue);
                            }
                        }
                    }
                },
                None => {},
            }
            dir = dir + 1;
        }
        proof {
            lemma_relax_upto(ctx, scored, c as int, 4);
        }
    }
    proof {
        let v = working_state(costs@, dists@, preds@, queue@, head as int, best, best_score, best_fire, enqueued);
        lemma_cost_sum_bounds(v.cost, unreached_cost(n as int));
        lemma_search_bound(n as int);
    }
    SearchResult { best, best_score, fire: best_fire, distance: dists, cost: costs, previous: preds, enqueued }
}

} // verus!
