use bomber_mates::bomb::Bomb;
use bomber_mates::constants::BOMB_TIME;
use bomber_mates::explosion::{Explosion, Position as Piece};
use bomber_mates::game_rules::{
    arena_layout, arena_walls, caught_by_explosion, collect_items, expand_explosion, next_game_state, place_bomb,
    players_collision_detect, GameState,
};
use bomber_mates::menu::{menu_players, TitleMenu, JINGLE_TIME};
use bomber_mates::movement::{face, resolve_movement};
use bomber_mates::player::Direction;
use bomber_mates::player_input::Movement;
use bomber_mates::player_type::PlayerType;
use bomber_mates::position::Position;
use bomber_mates::power_up_item::PowerUpItem;
use bomber_mates::screen::ScreenEvent;
use bomber_mates::wall::Wall;

fn pos(x: i32, y: i32) -> Position {
    Position { x, y }
}

#[test]
fn free_step_moves_two_pixels() {
    assert_eq!(resolve_movement(pos(64, 64), Movement::RIGHT, &vec![], &vec![]), pos(66, 64));
    assert_eq!(resolve_movement(pos(64, 64), Movement::UP, &vec![], &vec![]), pos(64, 62));
    assert_eq!(resolve_movement(pos(64, 64), Movement::NONE, &vec![], &vec![]), pos(64, 64));
}

#[test]
fn walls_stop_or_slide() {
    let two = vec![Wall::new(96, 32, false), Wall::new(96, 64, false)];
    assert_eq!(resolve_movement(pos(64, 48), Movement::RIGHT, &two, &vec![]), pos(64, 48));
    let one = vec![Wall::new(96, 64, false)];
    assert_eq!(resolve_movement(pos(64, 60), Movement::RIGHT, &one, &vec![]), pos(64, 58));
    assert_eq!(resolve_movement(pos(64, 68), Movement::RIGHT, &one, &vec![]), pos(64, 70));
    assert_eq!(resolve_movement(pos(66, 64), Movement::RIGHT, &one, &vec![]), pos(66, 64));
}

#[test]
fn bombs_ahead_block_the_way() {
    let bombs = vec![Bomb::new(96, 64, 1), Bomb::new(64, 96, 1)];
    assert_eq!(resolve_movement(pos(64, 64), Movement::RIGHT, &vec![], &bombs), pos(64, 64));
    assert_eq!(resolve_movement(pos(64, 64), Movement::DOWN, &vec![], &bombs), pos(64, 64));
    assert_eq!(resolve_movement(pos(64, 64), Movement::LEFT, &vec![], &bombs), pos(62, 64));
    assert_eq!(resolve_movement(pos(70, 64), Movement::RIGHT, &vec![], &bombs), pos(70, 64));
    assert_eq!(resolve_movement(pos(70, 64), Movement::LEFT, &vec![], &bombs), pos(68, 64));
    // Past the middle of a cell the bomb one cell ahead no longer blocks.
    assert_eq!(resolve_movement(pos(82, 64), Movement::RIGHT, &vec![], &bombs), pos(84, 64));
}

#[test]
fn facing_follows_movement() {
    assert_eq!(face(Direction::DOWN, Movement::LEFT), Direction::LEFT);
    assert_eq!(face(Direction::UP, Movement::NONE), Direction::UP);
    assert_eq!(face(Direction::UP, Movement::DOWN), Direction::DOWN);
}

#[test]
fn blast_leaves_flames_and_melts_the_wall() {
    let mut walls = vec![Wall::new(160, 64, true), Wall::new(64, 0, false)];
    let mut bombs = vec![];
    let mut items = vec![];
    let mut flames = vec![];
    let bomb = Bomb::new(64, 64, 3);
    expand_explosion(&mut walls, &mut bombs, &mut items, &mut flames, &bomb, 1, 0);
    assert_eq!(flames, vec![Explosion::new(96, 64, Piece::HORIZONTAL), Explosion::new(128, 64, Piece::HORIZONTAL)]);
    assert!(walls[0].is_melting());
    expand_explosion(&mut walls, &mut bombs, &mut items, &mut flames, &bomb, 0, -1);
    assert_eq!(flames.len(), 3);
    assert_eq!(flames[2], Explosion::new(64, 32, Piece::VERTICAL));
    assert!(!walls[1].is_melting());
    expand_explosion(&mut walls, &mut bombs, &mut items, &mut flames, &Bomb::new(64, 64, 2), 0, 1);
    assert_eq!(flames[3], Explosion::new(64, 96, Piece::VERTICAL));
    assert_eq!(flames[4], Explosion::new(64, 128, Piece::BOTTOM));
}

#[test]
fn blast_sets_off_bombs_and_destroys_items() {
    let mut walls = vec![];
    let mut bombs = vec![Bomb::new(128, 64, 1)];
    let mut items = vec![PowerUpItem::new(32, 64)];
    let mut flames = vec![];
    let bomb = Bomb::new(64, 64, 5);
    expand_explosion(&mut walls, &mut bombs, &mut items, &mut flames, &bomb, 1, 0);
    assert_eq!(bombs[0].remain_time, 1);
    assert_eq!(flames, vec![Explosion::new(96, 64, Piece::HORIZONTAL)]);
    expand_explosion(&mut walls, &mut bombs, &mut items, &mut flames, &bomb, -1, 0);
    assert!(items.is_empty());
    assert_eq!(flames.len(), 1);
}

#[test]
fn overlapping_players_step_back() {
    // Player 1 walked into player 0, who stood still: only player 1 goes back.
    let r = players_collision_detect(pos(64, 64), pos(64, 64), false, pos(90, 64), pos(98, 64), false);
    assert_eq!(r, (false, true));
    // Both walked into each other from clear positions: both go back.
    let r = players_collision_detect(pos(64, 64), pos(30, 64), false, pos(90, 64), pos(100, 64), false);
    assert_eq!(r, (true, true));
    // Apart, or one of them dead: nobody moves.
    assert_eq!(players_collision_detect(pos(0, 0), pos(0, 0), false, pos(64, 0), pos(64, 0), false), (false, false));
    assert_eq!(players_collision_detect(pos(64, 64), pos(64, 64), true, pos(70, 64), pos(70, 64), false), (false, false));
}

#[test]
fn items_touching_the_player_are_picked_up() {
    let mut items = vec![PowerUpItem::new(64, 64), PowerUpItem::new(200, 64), PowerUpItem::new(90, 80)];
    let picked = collect_items(&mut items, 70, 64);
    assert_eq!(picked, 2);
    assert_eq!(items, vec![PowerUpItem::new(200, 64)]);
}

#[test]
fn bomb_goes_on_the_nearest_cell_once() {
    let mut bombs = vec![];
    assert!(place_bomb(&mut bombs, 70, 50, 2));
    assert_eq!(bombs, vec![Bomb { x: 64, y: 64, power: 2, remain_time: BOMB_TIME }]);
    assert!(!place_bomb(&mut bombs, 60, 66, 3));
    assert_eq!(bombs.len(), 1);
}

#[test]
fn flames_catch_players_close_by() {
    let flames = vec![Explosion::new(96, 64, Piece::CENTER)];
    assert!(caught_by_explosion(&flames, 70, 64));
    assert!(!caught_by_explosion(&flames, 68, 64));
    assert!(!caught_by_explosion(&vec![], 96, 64));
}

#[test]
fn game_ends_when_a_player_dies() {
    assert_eq!(next_game_state(GameState::Playing, false, false), GameState::Playing);
    assert_eq!(next_game_state(GameState::Playing, true, false), GameState::Player2Won);
    assert_eq!(next_game_state(GameState::Playing, false, true), GameState::Player1Won);
    assert_eq!(next_game_state(GameState::Playing, true, true), GameState::DrawGame);
    assert_eq!(next_game_state(GameState::Player1Won, true, true), GameState::Player1Won);
}

#[test]
fn arena_walls_layout() {
    let walls = arena_walls();
    let solid: Vec<&Wall> = walls.iter().filter(|w| !w.is_breakable).collect();
    assert_eq!(solid.len(), 2 * 25 + 2 * 13 + 11 * 6);
    for w in &walls {
        assert_eq!(w.x % 32, 0);
        assert_eq!(w.y % 32, 0);
        let (cx, cy) = (w.x / 32, w.y / 32);
        assert!((0..25).contains(&cx) && (0..15).contains(&cy));
        if w.is_breakable {
            assert!(!(cx < 3 && cy < 3) && !(cx > 21 && cy > 11));
            assert!(!(cx % 2 == 0 && cy % 2 == 0));
        }
    }
    assert!(walls.iter().any(|w| w.x == 0 && w.y == 0 && !w.is_breakable));
    assert!(walls.iter().any(|w| w.x == 64 && w.y == 64 && !w.is_breakable));
}

#[test]
fn menu_moves_wraps_and_starts() {
    let mut m = TitleMenu::new();
    assert_eq!(m.on_next_frame(true, false, false), (ScreenEvent::Nothing, false));
    assert_eq!(m.cursor, 3);
    // Holding the key does not move the cursor again.
    m.on_next_frame(true, false, false);
    assert_eq!(m.cursor, 3);
    m.on_next_frame(false, false, false);
    m.on_next_frame(false, true, false);
    assert_eq!(m.cursor, 0);
    m.on_next_frame(false, false, false);
    m.on_next_frame(false, true, false);
    assert_eq!(m.cursor, 1);
    assert!(m.item_highlighted(1));
    assert_eq!(m.on_next_frame(false, false, true), (ScreenEvent::Nothing, true));
    assert_eq!(m.going_to_game_screen_state, 0);
    assert!(!m.item_highlighted(1));
    for _ in 1..JINGLE_TIME {
        assert_eq!(m.on_next_frame(true, false, true).0, ScreenEvent::Nothing);
    }
    assert_eq!(m.fade_alpha(), Some(238));
    assert_eq!(m.on_next_frame(false, false, false).0, ScreenEvent::GoToGameScreen(PlayerType::HUMAN, PlayerType::AI));
    assert_eq!(m.fade_alpha(), Some(255));
    assert_eq!(m.going_to_game_screen_state, JINGLE_TIME);
    // The counter keeps running; the veil stays fully dark.
    assert_eq!(m.on_next_frame(false, false, false).0, ScreenEvent::GoToGameScreen(PlayerType::HUMAN, PlayerType::AI));
    assert_eq!(m.going_to_game_screen_state, JINGLE_TIME + 1);
    assert_eq!(m.fade_alpha(), Some(255));
    assert_eq!(menu_players(3), (PlayerType::AI, PlayerType::AI));
}

fn wall_count_at(walls: &[Wall], cx: i32, cy: i32) -> usize {
    walls.iter().filter(|w| w.x == cx * 32 && w.y == cy * 32).count()
}

#[test]
fn arena_layout_follows_the_draws() {
    let low = arena_layout(&vec![0u32; 375]);
    let high = arena_layout(&vec![99u32; 375]);
    assert_eq!(high.len(), 142);
    assert!(high.iter().all(|w| !w.is_breakable));
    assert_eq!(low.len(), 142 + 227);
    for cy in 0..15 {
        for cx in 0..25 {
            assert!(wall_count_at(&low, cx, cy) <= 1);
        }
    }
    assert_eq!(wall_count_at(&low, 1, 1), 0);
    assert_eq!(wall_count_at(&low, 23, 13), 0);
    assert_eq!(wall_count_at(&low, 3, 1), 1);
    // One draw decides one cell: cell (3, 1) is row 1, column 3.
    let mut draws = vec![99u32; 375];
    draws[25 + 3] = 49;
    let one = arena_layout(&draws);
    assert_eq!(one.len(), 143);
    assert!(one.contains(&Wall::new(96, 32, true)));
    draws[25 + 3] = 50;
    assert_eq!(arena_layout(&draws).len(), 142);
}
