use bomber_mates::bomb::Bomb;
use bomber_mates::constants::BOMB_TIME;
use bomber_mates::explosion::{flame_piece, Explosion, Position as Piece};
use bomber_mates::human_operation::HumanOperation;
use bomber_mates::light_sprite::LightSpriteEvent;
use bomber_mates::player::Direction;
use bomber_mates::player_input::{Movement, PlayerInput};
use bomber_mates::power_up_item::PowerUpItem;
use bomber_mates::wall::Wall;

#[test]
fn wall_melts_only_after_a_blast() {
    let mut w = Wall::new(64, 32, true);
    assert_eq!((w.get_x(), w.get_y()), (64, 32));
    assert!(!w.is_melting());
    assert_eq!(w.on_next_frame(), LightSpriteEvent::Nothing);
    assert_eq!(w.melt_state, 0);
    w.start_melting();
    assert!(w.is_melting());
    w.start_melting();
    assert_eq!(w.melt_state, 1);
    for _ in 0..28 {
        assert_eq!(w.on_next_frame(), LightSpriteEvent::Nothing);
    }
    assert_eq!(w.melt_state, 29);
    let last = w.on_next_frame();
    assert!(last == LightSpriteEvent::DeleteMe || last == LightSpriteEvent::CreatePowerUpItem);
    assert_eq!(w.melt_state, 30);
    // A melted wall left in place keeps counting.
    let again = w.on_next_frame();
    assert!(again == LightSpriteEvent::DeleteMe || again == LightSpriteEvent::CreatePowerUpItem);
    assert_eq!(w.melt_state, 31);
}

#[test]
fn melted_wall_leaves_an_item_on_a_low_roll() {
    let mut w = Wall::new(0, 0, true);
    w.melt_state = 29;
    let mut v = w;
    assert_eq!(w.advance_melting(9), LightSpriteEvent::CreatePowerUpItem);
    assert_eq!(v.advance_melting(10), LightSpriteEvent::DeleteMe);
    let mut late = Wall::new(0, 0, true);
    late.melt_state = 40;
    assert_eq!(late.advance_melting(50), LightSpriteEvent::DeleteMe);
    assert_eq!(late.melt_state, 41);
    let mut worn = Wall::new(0, 0, true);
    worn.melt_state = i32::MAX;
    assert_eq!(worn.advance_melting(0), LightSpriteEvent::CreatePowerUpItem);
    assert_eq!(worn.melt_state, i32::MAX);
    let mut early = Wall::new(0, 0, true);
    early.melt_state = 5;
    assert_eq!(early.advance_melting(0), LightSpriteEvent::Nothing);
    assert_eq!(early.melt_state, 6);
}

#[test]
fn bomb_fuse_burns_down() {
    let mut b = Bomb::new(32, 64, 2);
    assert_eq!(b.remain_time, BOMB_TIME);
    assert_eq!((b.get_x(), b.get_y(), b.power), (32, 64, 2));
    b.remain_time = 2;
    assert_eq!(b.on_next_frame(), LightSpriteEvent::Nothing);
    assert_eq!(b.on_next_frame(), LightSpriteEvent::DeleteMe);
    assert_eq!(b.remain_time, 0);
}

#[test]
fn explosion_lasts_thirty_ticks() {
    let mut e = Explosion::new(32, 32, Piece::CENTER);
    assert_eq!((e.get_x(), e.get_y()), (32, 32));
    assert_eq!(e.frame_column(), 32);
    for _ in 0..29 {
        assert_eq!(e.on_next_frame(), LightSpriteEvent::Nothing);
    }
    assert_eq!(e.remain_time, 1);
    assert_eq!(e.frame_column(), 32);
    assert_eq!(e.on_next_frame(), LightSpriteEvent::DeleteMe);
    let mut mid = Explosion::new(0, 0, Piece::LEFT);
    mid.remain_time = 15;
    assert_eq!(mid.frame_column(), 0);
}

#[test]
fn flame_pieces() {
    assert_eq!(flame_piece(0, 1, 2, 2), Piece::BOTTOM);
    assert_eq!(flame_piece(0, -1, 2, 2), Piece::TOP);
    assert_eq!(flame_piece(0, 1, 1, 2), Piece::VERTICAL);
    assert_eq!(flame_piece(1, 0, 3, 3), Piece::RIGHT);
    assert_eq!(flame_piece(-1, 0, 1, 1), Piece::LEFT);
    assert_eq!(flame_piece(-1, 0, 1, 2), Piece::HORIZONTAL);
    assert_eq!(Piece::CENTER.row(), 0);
    assert_eq!(Piece::BOTTOM.row(), 6);
    assert_eq!(Piece::TOP.row(), 4);
}

#[test]
fn keys_map_to_inputs() {
    let h = HumanOperation { player_number: 0 };
    assert_eq!(h.input_from_keys(true, true, false, false, true), PlayerInput::new(Movement::LEFT, true));
    assert_eq!(h.input_from_keys(false, true, true, false, false), PlayerInput::new(Movement::UP, false));
    assert_eq!(h.input_from_keys(false, false, true, true, false), PlayerInput::new(Movement::RIGHT, false));
    assert_eq!(h.input_from_keys(false, false, false, true, false), PlayerInput::new(Movement::DOWN, false));
    assert_eq!(h.input_from_keys(false, false, false, false, true), PlayerInput::new(Movement::NONE, true));
}

#[test]
fn facing_rows() {
    assert_eq!(Direction::DOWN.row(), 0);
    assert_eq!(Direction::LEFT.row(), 1);
    assert_eq!(Direction::RIGHT.row(), 2);
    assert_eq!(Direction::UP.row(), 3);
}

#[test]
fn power_up_item_position() {
    let p = PowerUpItem::new(96, 128);
    assert_eq!((p.get_x(), p.get_y()), (96, 128));
}
