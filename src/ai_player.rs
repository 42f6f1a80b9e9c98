//! The computer-controlled player: per-tick decision and the small memory
//! it keeps between ticks.

use vstd::prelude::*;
use crate::checks::{cell_index, opponent_stress};
use crate::bomb::Bomb;
use crate::constants::{CHARACTER_SIZE, MAP_HEIGHT, MAP_WIDTH, OPPONENT_NOT_PASSABLE_TIMEOUT, OPPONENT_STRESS_WEIGHT};
use crate::player_type::PlayerType;
use crate::power_up_item::PowerUpItem;
use crate::snapshot::snapshot;
use crate::wall::Wall;
use crate::field::Field;
use crate::player_input::{Movement, PlayerInput};
use crate::position::{on_axis, pixel_on_axis, pixel_to_cell, Position};
use crate::search::{candidate_score, context, search, search_inv, search_outcome, ints, SearchContext};

verus! {

/// What the player sees at the start of a tick.
pub struct AIPlayerAdditionalInfo {
    pub field: Field,
    /// Pixel position of the deciding player.
    pub player_position: Position,
    /// Pixel position of its opponent.
    pub opponent_position: Position,
    pub player_power: u32,
    pub opponent_is_dead: bool,
}

impl AIPlayerAdditionalInfo {
    pub fn new(
        field: Field,
        player_position: Position,
        opponent_position: Position,
        player_power: u32,
        opponent_is_dead: bool,
    ) -> (r: AIPlayerAdditionalInfo)
        ensures
            r == (AIPlayerAdditionalInfo { field, player_position, opponent_position, player_power, opponent_is_dead }),
    {
        AIPlayerAdditionalInfo { field, player_position, opponent_position, player_power, opponent_is_dead }
    }

    /// Tells whether the board is well formed and both players stand over it.
    pub fn is_valid(&self) -> (r: bool)
        ensures
            r == self.wf(),
    {
        if !self.field.is_well_formed() {
            return false;
        }
        on_axis(self.player_position.x, self.field.width) && on_axis(self.player_position.y, self.field.height)
            && on_axis(self.opponent_position.x, self.field.width) && on_axis(self.opponent_position.y, self.field.height)
    }

    /// The board is well formed and both players stand over it.
    pub open spec fn wf(&self) -> bool {
        let m = self.field@;
        &&& self.field.wf()
        &&& pixel_on_axis(self.player_position.x as int, m.width)
        &&& pixel_on_axis(self.player_position.y as int, m.height)
        &&& pixel_on_axis(self.opponent_position.x as int, m.width)
        &&& pixel_on_axis(self.opponent_position.y as int, m.height)
    }

    pub open spec fn player_cell(&self) -> int {
        cell_index(
            self.field@.width,
            pixel_to_cell(self.player_position.x as int),
            pixel_to_cell(self.player_position.y as int),
        )
    }

    pub open spec fn opponent_cell(&self) -> int {
        cell_index(
            self.field@.width,
            pixel_to_cell(self.opponent_position.x as int),
            pixel_to_cell(self.opponent_position.y as int),
        )
    }
}

impl PlayerType {
    /// What a player of this kind gets to see of the world: nothing for a
    /// human, the snapshot of the game's arena and both players for the
    /// computer.
    pub fn get_ai_additional_info(
        &self,
        walls: &Vec<Wall>,
        bombs: &Vec<Bomb>,
        items: &Vec<PowerUpItem>,
        player_position: Position,
        opponent_position: Position,
        player_power: u32,
        opponent_is_dead: bool,
    ) -> (r: Option<AIPlayerAdditionalInfo>)
        ensures
            *self == PlayerType::HUMAN ==> r is None,
            *self == PlayerType::AI ==> r is Some && r->0.field.wf() && r->0.field@ == snapshot(
                MAP_WIDTH as int,
                MAP_HEIGHT as int,
                walls@,
                bombs@,
                items@,
                seq![player_position, opponent_position],
            ) && r->0.player_position == player_position && r->0.opponent_position == opponent_position
                && r->0.player_power == player_power && r->0.opponent_is_dead == opponent_is_dead,
    {
        match self {
            PlayerType::HUMAN => None,
            PlayerType::AI => {
                let players = vec![player_position, opponent_position];
                assert(players@ =~= seq![player_position, opponent_position]);
                let field = Field::from_sprites(MAP_WIDTH as usize, MAP_HEIGHT as usize, walls, bombs, items, &players);
                Some(AIPlayerAdditionalInfo::new(field, player_position, opponent_position, player_power, opponent_is_dead))
            },
        }
    }
}

/// The decision state of one computer-controlled player.
#[derive(Clone, Copy, PartialEq, Eq, Structural, Debug)]
pub struct AIPlayer {
    /// Pixel position seen on the previous tick.
    pub previous_my_position: Position,
    /// The previous tick's decision was to move.
    pub previous_want_to_move: bool,
    /// Stuck pressure: grows while the player fails to move, and adds to the
    /// weight of stress gained by bombing its own cell.
    pub opponent_stress_weight_plus: u32,
    /// While positive, the opponent's cell counts as impassable.
    pub opponent_position_is_not_passable_timer: u32,
}

/// Stuck pressure after a tick on which the player stands at `pos`: one more
/// when it wanted to move and did not (held at `u32::MAX`), else one less
/// down to 0.
pub open spec fn next_pressure(s: AIPlayer, pos: Position) -> u32 {
    if s.previous_want_to_move && s.previous_my_position == pos {
        if s.opponent_stress_weight_plus < u32::MAX { (s.opponent_stress_weight_plus + 1) as u32 } else { u32::MAX }
    } else if s.opponent_stress_weight_plus > 0 {
        (s.opponent_stress_weight_plus - 1) as u32
    } else {
        0
    }
}

/// Blockade timer after a tick: reset when the player bombs its own cell,
/// else one less down to 0.
pub open spec fn next_timer(s: AIPlayer, fire: bool) -> u32 {
    if fire {
        OPPONENT_NOT_PASSABLE_TIMEOUT
    } else if s.opponent_position_is_not_passable_timer > 0 {
        (s.opponent_position_is_not_passable_timer - 1) as u32
    } else {
        0
    }
}

/// From cell `f`, follows the links `pred` back towards `origin` and stops at
/// the cell whose link is `origin` or that has none, after at most `fuel` links.
pub open spec fn first_step(pred: Seq<int>, f: int, origin: int, fuel: nat) -> int
    decreases fuel,
{
    if fuel == 0 || pred[f] == origin || pred[f] < 0 {
        f
    } else {
        first_step(pred, pred[f], origin, (fuel - 1) as nat)
    }
}

/// Movement towards the cell with pixel corner (`fx`, `fy`) from pixel
/// position `p`: horizontal first, then vertical.
pub open spec fn movement_towards(fx: int, fy: int, p: Position) -> Movement {
    if fx > p.x {
        Movement::RIGHT
    } else if fx < p.x {
        Movement::LEFT
    } else if fy < p.y {
        Movement::UP
    } else if fy > p.y {
        Movement::DOWN
    } else {
        Movement::NONE
    }
}

/// The search context of a tick, with the stuck pressure already updated.
pub open spec fn tick_context(s: AIPlayer, info: AIPlayerAdditionalInfo) -> SearchContext {
    context(
        info.field@,
        info.player_cell(),
        info.opponent_cell(),
        info.player_power as int,
        !info.opponent_is_dead,
        next_pressure(s, info.player_position) as int,
        s.opponent_position_is_not_passable_timer > 0,
    )
}

/// One tick of the player: the new decision state and the input it gives.
pub open spec fn decide(s: AIPlayer, info: AIPlayerAdditionalInfo) -> (AIPlayer, PlayerInput) {
    let ctx = tick_context(s, info);
    let out = search_outcome(ctx);
    let me = info.player_cell();
    let fire = out.best == me && out.best_fire;
    let f = first_step(out.pred, out.best, me, info.field@.len() as nat);
    let w = info.field@.width;
    let fx = (f % w) * (CHARACTER_SIZE as int);
    let fy = (f / w) * (CHARACTER_SIZE as int);
    let p = info.player_position;
    let next = AIPlayer {
        previous_my_position: p,
        previous_want_to_move: fx != p.x || fy != p.y,
        opponent_stress_weight_plus: next_pressure(s, p),
        opponent_position_is_not_passable_timer: next_timer(s, fire),
    };
    (next, PlayerInput { movement: movement_towards(fx, fy, p), fire })
}

/// The decision state after the ticks `infos`, in order, starting from `s`.
pub open spec fn after_ticks(s: AIPlayer, infos: Seq<AIPlayerAdditionalInfo>) -> AIPlayer
    decreases infos.len(),
{
    if infos.len() == 0 {
        s
    } else {
        decide(after_ticks(s, infos.drop_last()), infos.last()).0
    }
}

/// Determinism: the decision depends on the snapshot's value, the players'
/// positions, power and liveness, and the decision state alone, so equal
/// inputs give equal outputs.
pub proof fn lemma_decision_deterministic(
    s1: AIPlayer,
    s2: AIPlayer,
    i1: AIPlayerAdditionalInfo,
    i2: AIPlayerAdditionalInfo,
)
    requires
        s1 == s2,
        i1.field@ == i2.field@,
        i1.player_position == i2.player_position,
        i1.opponent_position == i2.opponent_position,
        i1.player_power == i2.player_power,
        i1.opponent_is_dead == i2.opponent_is_dead,
    ensures
        decide(s1, i1) == decide(s2, i2),
{
    assert(tick_context(s1, i1) == tick_context(s2, i2));
}

/// Stuck pressure grows by exactly one on each tick on which the player had
/// decided to move and still stands where it stood, as long as that goes on.
pub proof fn lemma_stuck_pressure_grows(s: AIPlayer, infos: Seq<AIPlayerAdditionalInfo>)
    requires
        s.previous_want_to_move,
        forall|k: int| 0 <= k < infos.len() ==> #[trigger] infos[k].player_position == s.previous_my_position,
        forall|k: int| 1 <= k < infos.len() ==> #[trigger] after_ticks(s, infos.subrange(0, k)).previous_want_to_move,
        s.opponent_stress_weight_plus + infos.len() <= u32::MAX,
    ensures
        after_ticks(s, infos).opponent_stress_weight_plus == s.opponent_stress_weight_plus + infos.len(),
        infos.len() > 0 ==> after_ticks(s, infos).previous_my_position == s.previous_my_position,
    decreases infos.len(),
{
    if infos.len() > 0 {
        let prefix = infos.drop_last();
        assert forall|k: int| 1 <= k < prefix.len() implies #[trigger] after_ticks(s, prefix.subrange(0, k)).previous_want_to_move by {
            assert(prefix.subrange(0, k) =~= infos.subrange(0, k));
            assert(after_ticks(s, infos.subrange(0, k)).previous_want_to_move);
        }
        assert forall|k: int| 0 <= k < prefix.len() implies #[trigger] prefix[k].player_position == s.previous_my_position by {
            assert(prefix[k] == infos[k]);
        }
        lemma_stuck_pressure_grows(s, prefix);
        if prefix.len() > 0 {
            assert(infos.subrange(0, prefix.len() as int) =~= prefix);
            assert(after_ticks(s, infos.subrange(0, prefix.len() as int)).previous_want_to_move);
        }
        assert(infos.last() == infos[infos.len() - 1]);
    }
}

/// One stuck tick: when the player had decided to move and still stands
/// where it stood, its stuck pressure grows by one (below `u32::MAX`, where
/// it stays), it remembers its position, and it remembers wanting to move
/// exactly when this tick's movement is not "none".
pub proof fn lemma_stuck_tick(s: AIPlayer, info: AIPlayerAdditionalInfo)
    requires
        s.previous_want_to_move,
        s.previous_my_position == info.player_position,
    ensures
        decide(s, info).0.opponent_stress_weight_plus == if s.opponent_stress_weight_plus < u32::MAX {
            s.opponent_stress_weight_plus + 1
        } else {
            u32::MAX as int
        },
        decide(s, info).0.previous_my_position == info.player_position,
        decide(s, info).0.previous_want_to_move == (decide(s, info).1.movement != Movement::NONE),
{
}

/// The stress gain that bombing cell `c` brings, 0 when no such bonus applies.
pub open spec fn stress_gain(ctx: SearchContext, c: int) -> int {
    let m = ctx.field;
    let g = crate::field::with_new_bomb(m, c, ctx.power);
    let delta = opponent_stress(g, ctx.opponent) - opponent_stress(m, ctx.opponent);
    if !(m.cells[c].field_object is Bomb) && c != ctx.opponent
        && crate::checks::escapable(g, c, ctx.opponent) && ctx.opponent_alive && delta > 0 {
        delta
    } else {
        0
    }
}

/// Bombing its own cell scores higher under stuck pressure `p` than under
/// none by exactly `p` times the stress gain.
pub proof fn lemma_stuck_pressure_bonus(ctx: SearchContext, dist: int, p: int)
    ensures
        candidate_score(SearchContext { stuck_pressure: p, ..ctx }, ctx.origin, dist).0
            - candidate_score(SearchContext { stuck_pressure: 0, ..ctx }, ctx.origin, dist).0
            == p * stress_gain(ctx, ctx.origin),
{
    let g = stress_gain(ctx, ctx.origin);
    assert(g * (OPPONENT_STRESS_WEIGHT + p) - g * OPPONENT_STRESS_WEIGHT == p * g) by (nonlinear_arith);
}

impl AIPlayer {
    pub fn new() -> (r: AIPlayer)
        ensures
            r == (AIPlayer {
                previous_my_position: Position { x: 0, y: 0 },
                previous_want_to_move: false,
                opponent_stress_weight_plus: 0,
                opponent_position_is_not_passable_timer: 0,
            }),
    {
        AIPlayer {
            previous_my_position: Position { x: 0, y: 0 },
            previous_want_to_move: false,
            opponent_stress_weight_plus: 0,
            opponent_position_is_not_passable_timer: 0,
        }
    }

    /// Percentage of the cells around the opponent at cell (`opponent_x`,
    /// `opponent_y`) that some bomb threatens.
    pub fn calc_opponent_stress(field: &Field, opponent_x: i32, opponent_y: i32) -> (r: i32)
        requires
            field.wf(),
            0 <= opponent_x < field@.width,
            0 <= opponent_y < field@.height,
        ensures
            r == opponent_stress(field@, cell_index(field@.width, opponent_x as int, opponent_y as int)),
            0 <= r <= 100,
    {
        let o = field.index_of(opponent_x as usize, opponent_y as usize);
        field.stress_at(o) as i32
    }

    /// Decides this tick's movement and bomb, and updates the decision state.
    /// The observation is read only; it is left as it was.
    pub fn get_player_input(&mut self, additional_info: &mut AIPlayerAdditionalInfo) -> (r: PlayerInput)
        requires
            old(additional_info).wf(),
        ensures
            (*final(self), r) == decide(*old(self), *old(additional_info)),
            *final(additional_info) == *old(additional_info),
    {
        let info: &AIPlayerAdditionalInfo = additional_info;
        let ghost s0 = *self;
        let pos = info.player_position;
        let pressure = if self.previous_want_to_move && self.previous_my_position == pos {
            if self.opponent_stress_weight_plus < u32::MAX { self.opponent_stress_weight_plus + 1 } else { u32::MAX }
        } else if self.opponent_stress_weight_plus > 0 {
            self.opponent_stress_weight_plus - 1
        } else {
            0
        };
        let field = &info.field;
        let w = field.width;
        let my_x = ((pos.x + CHARACTER_SIZE / 2) / CHARACTER_SIZE) as usize;
        let my_y = ((pos.y + CHARACTER_SIZE / 2) / CHARACTER_SIZE) as usize;
        let opp = info.opponent_position;
        let opponent_x = ((opp.x + CHARACTER_SIZE / 2) / CHARACTER_SIZE) as usize;
        let opponent_y = ((opp.y + CHARACTER_SIZE / 2) / CHARACTER_SIZE) as usize;
        let me = field.index_of(my_x, my_y);
        let them = field.index_of(opponent_x, opponent_y);
        let blockaded = self.opponent_position_is_not_passable_timer > 0;
        let result = search(field, me, them, info.player_power, !info.opponent_is_dead, pressure, blockaded);
        let ghost ctx = tick_context(s0, *info);
        let ghost out = search_outcome(ctx);
        let fire = result.best == me && result.fire;
        let timer = if fire {
            OPPONENT_NOT_PASSABLE_TIMEOUT
        } else if self.opponent_position_is_not_passable_timer > 0 {
            self.opponent_position_is_not_passable_timer - 1
        } else {
            0
        };
        let n = field.elements.len();
        let mut f = result.best;
        let mut fuel = n;
        while fuel > 0
            invariant
                result.previous.len() == n,
                ints(result.previous@) == out.pred,
                search_inv(ctx, out),
                ctx.field.len() == n,
                f < n,
                me < n,
                n <= crate::constants::MAX_CELLS,
                first_step(out.pred, f as int, me as int, fuel as nat)
                    == first_step(out.pred, out.best, me as int, n as nat),
            ensures
                f < n,
                f as int == first_step(out.pred, out.best, me as int, n as nat),
            decreases fuel,
        {
            let p = result.previous[f];
            assert(out.pred[f as int] == p);
            if p == me as i64 || p < 0 {
                break;
            }
            f = p as usize;
            fuel = fuel - 1;
        }
        let fx: i64 = ((f % w) as i64) * (CHARACTER_SIZE as i64);
        let fy: i64 = ((f / w) as i64) * (CHARACTER_SIZE as i64);
        let px = pos.x as i64;
        let py = pos.y as i64;
        let movement = if fx > px {
            Movement::RIGHT
        } else if fx < px {
            Movement::LEFT
        } else if fy < py {
            Movement::UP
        } else if fy > py {
            Movement::DOWN
        } else {
            Movement::NONE
        };
        self.previous_my_position = pos;
        self.previous_want_to_move = fx != px || fy != py;
        self.opponent_stress_weight_plus = pressure;
        self.opponent_position_is_not_passable_timer = timer;
        PlayerInput::new(movement, fire)
    }
}

} // verus!
