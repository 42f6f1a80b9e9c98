use bomber_mates::ai_player::{AIPlayer, AIPlayerAdditionalInfo};
use bomber_mates::constants::OPPONENT_NOT_PASSABLE_TIMEOUT;
use bomber_mates::field::Field;
use bomber_mates::player_input::{Movement, PlayerInput};
use bomber_mates::player_type::PlayerType;
use bomber_mates::position::Position;
use bomber_mates::power_up_item::PowerUpItem;
use bomber_mates::wall::Wall;

fn px(cell: i32) -> i32 {
    cell * 32
}

fn at(x: i32, y: i32) -> Position {
    Position { x: px(x), y: px(y) }
}

/// 5 x 5, no bombs, player at (1, 4), a breakable wall two cells east of it
/// and a power-up item three cells north; the opponent is dead in a corner.
fn power_up_fixture() -> AIPlayerAdditionalInfo {
    let me = at(1, 4);
    let them = at(4, 0);
    let field = Field::from_sprites(5, 5, &vec![Wall::new(px(3), px(4), true)], &vec![], &vec![PowerUpItem::new(px(1), px(1))], &vec![me, them]);
    AIPlayerAdditionalInfo::new(field, me, them, 1, true)
}

#[test]
fn prefers_the_power_up_and_heads_north() {
    let mut ai = AIPlayer::new();
    let mut info = power_up_fixture();
    let input = ai.get_player_input(&mut info);
    assert_eq!(input, PlayerInput::new(Movement::UP, false));
    assert!(ai.previous_want_to_move);
    assert_eq!(ai.previous_my_position, at(1, 4));
}

#[test]
fn observation_is_left_unchanged() {
    let mut ai = AIPlayer::new();
    let mut info = power_up_fixture();
    let before = info.field.elements.clone();
    ai.get_player_input(&mut info);
    assert_eq!(info.field.elements, before);
}

#[test]
fn same_inputs_give_the_same_decision() {
    let start = AIPlayer::new();
    let mut a = start;
    let mut b = start;
    let mut info_a = power_up_fixture();
    let mut info_b = power_up_fixture();
    let ra = a.get_player_input(&mut info_a);
    let rb = b.get_player_input(&mut info_b);
    assert_eq!(ra, rb);
    assert_eq!(a, b);
}

#[test]
fn stuck_pressure_grows_while_the_player_cannot_move() {
    let mut ai = AIPlayer::new();
    let mut info = power_up_fixture();
    ai.get_player_input(&mut info);
    assert_eq!(ai.opponent_stress_weight_plus, 0);
    for k in 1..=5u32 {
        let input = ai.get_player_input(&mut info);
        assert_ne!(input.movement, Movement::NONE);
        assert_eq!(ai.opponent_stress_weight_plus, k);
    }
    // Once the player moves, the pressure eases off one step per tick.
    let mut moved = AIPlayerAdditionalInfo::new(info.field.duplicate(), Position { x: px(1), y: px(4) - 2 }, info.opponent_position, 1, true);
    ai.get_player_input(&mut moved);
    assert_eq!(ai.opponent_stress_weight_plus, 4);
}

#[test]
fn no_fire_when_the_bomber_could_not_escape() {
    // Player at (0, 0), opponent next to it at (1, 0), walls all around.
    let me = at(0, 0);
    let them = at(1, 0);
    let walls = vec![Wall::new(px(2), 0, false), Wall::new(0, px(1), false), Wall::new(px(1), px(1), false), Wall::new(px(2), px(1), false)];
    let field = Field::from_sprites(3, 2, &walls, &vec![], &vec![], &vec![me, them]);
    // A bomb here would raise the opponent's stress...
    let before = field.stress_at(1);
    let mut g = field.duplicate();
    g.add_bomb(0, 1);
    assert!(g.stress_at(1) > before);
    let mut info = AIPlayerAdditionalInfo::new(field, me, them, 1, false);
    let mut ai = AIPlayer::new();
    let input = ai.get_player_input(&mut info);
    // ...but the player would be trapped, so it does not fire.
    assert!(!input.fire);
    assert_eq!(ai.opponent_position_is_not_passable_timer, 0);
}

#[test]
fn bombs_in_place_next_to_the_opponent_and_sets_the_blockade() {
    // Open 7 x 7 arena, opponent one cell east of the player.
    let me = at(3, 3);
    let them = at(4, 3);
    let field = Field::from_sprites(7, 7, &vec![], &vec![], &vec![], &vec![me, them]);
    let mut info = AIPlayerAdditionalInfo::new(field, me, them, 1, false);
    let mut ai = AIPlayer::new();
    let input = ai.get_player_input(&mut info);
    assert_eq!(input, PlayerInput::new(Movement::NONE, true));
    assert_eq!(ai.opponent_position_is_not_passable_timer, OPPONENT_NOT_PASSABLE_TIMEOUT);
    assert!(!ai.previous_want_to_move);
}

#[test]
fn blockade_timer_counts_down() {
    let mut ai = AIPlayer::new();
    ai.opponent_position_is_not_passable_timer = 3;
    let mut info = power_up_fixture();
    ai.get_player_input(&mut info);
    assert_eq!(ai.opponent_position_is_not_passable_timer, 2);
}

#[test]
fn moves_sideways_towards_alignment_first() {
    // Off-grid by 10 pixels to the right of cell (1, 1): the target is the
    // cell itself, so the player moves left.
    let me = Position { x: px(1) + 10, y: px(1) };
    let them = at(4, 4);
    let field = Field::from_sprites(5, 5, &vec![], &vec![], &vec![], &vec![me, them]);
    let mut info = AIPlayerAdditionalInfo::new(field, me, them, 1, true);
    let mut ai = AIPlayer::new();
    let input = ai.get_player_input(&mut info);
    assert_eq!(input.movement, Movement::LEFT);
}

#[test]
fn validity_of_observations() {
    let info = power_up_fixture();
    assert!(info.is_valid());
    assert!(info.field.is_well_formed());
    let off_board = AIPlayerAdditionalInfo::new(Field::new(5, 5), at(5, 0), at(0, 0), 1, false);
    assert!(!off_board.is_valid());
    let negative = AIPlayerAdditionalInfo::new(Field::new(5, 5), Position { x: -1, y: 0 }, at(0, 0), 1, false);
    assert!(!negative.is_valid());
    let mut risky = Field::new(2, 2);
    risky.elements[0].risk = 181;
    assert!(!risky.is_well_formed());
    let mut short = Field::new(2, 2);
    short.elements.pop();
    assert!(!short.is_well_formed());
}

#[test]
fn observation_only_for_the_computer() {
    let walls = vec![Wall::new(64, 0, false)];
    let items = vec![PowerUpItem::new(32, 64)];
    let human = PlayerType::HUMAN.get_ai_additional_info(&walls, &vec![], &items, at(1, 1), at(3, 3), 2, false);
    assert!(human.is_none());
    let ai = PlayerType::AI.get_ai_additional_info(&walls, &vec![], &items, at(1, 1), at(3, 3), 2, true).unwrap();
    assert_eq!((ai.field.width, ai.field.height), (25, 15));
    assert_eq!(ai.field.elements[2].field_object, bomber_mates::field::FieldObject::Wall);
    assert_eq!(ai.field.elements[25 + 1].field_object, bomber_mates::field::FieldObject::Player);
    assert_eq!(ai.field.elements[50 + 1].field_object, bomber_mates::field::FieldObject::PowerUpItem);
    assert_eq!(ai.player_position, at(1, 1));
    assert_eq!(ai.opponent_position, at(3, 3));
    assert_eq!(ai.player_power, 2);
    assert!(ai.opponent_is_dead);
    assert!(ai.is_valid());
}
