use bomber_mates::ai_player::AIPlayer;
use bomber_mates::bomb::Bomb;
use bomber_mates::field::Field;
use bomber_mates::wall::Wall;

fn px(cell: i32) -> i32 {
    cell * 32
}

#[test]
fn stress_counts_threatened_share_of_reachable_cells() {
    // 3 x 3, opponent in the centre, bomb in the corner (0, 0) of reach 1.
    let f = Field::from_sprites(3, 3, &vec![], &vec![Bomb::new(0, 0, 1)], &vec![], &vec![]);
    // Reachable: 8 cells (the bomb cell is not), threatened: (1, 0) and (0, 1).
    assert_eq!(f.stress_at(4), 25);
    assert_eq!(AIPlayer::calc_opponent_stress(&f, 1, 1), 25);
}

#[test]
fn stress_is_zero_without_bombs_and_counts_only_the_radius() {
    let f = Field::new(13, 1);
    assert_eq!(f.stress_at(0), 0);
    // A bomb 7 cells away threatens cells beyond the radius only.
    let g = Field::from_sprites(13, 1, &vec![], &vec![Bomb::new(px(8), 0, 1)], &vec![], &vec![]);
    assert_eq!(g.stress_at(0), 0);
    // One 6 cells away threatens cell 5, the edge of the radius: 1 of 6.
    let h = Field::from_sprites(13, 1, &vec![], &vec![Bomb::new(px(6), 0, 1)], &vec![], &vec![]);
    assert_eq!(h.stress_at(0), 16);
}

#[test]
fn stress_counts_the_start_even_on_a_bomb() {
    let f = Field::from_sprites(1, 1, &vec![], &vec![Bomb::new(0, 0, 1)], &vec![], &vec![]);
    assert_eq!(f.stress_at(0), 100);
}

#[test]
fn escape_possible_in_open_arena() {
    let mut f = Field::new(5, 5);
    f.add_bomb(12, 1);
    assert!(f.escapable_from(12, 0));
    assert!(f.check_if_escapable(2, 2, 0, 0));
}

#[test]
fn escape_blocked_by_opponent_in_a_dead_end() {
    // Row: player cell 0, opponent cell 1, the rest walls.
    let walls = vec![Wall::new(px(2), 0, false), Wall::new(px(0), px(1), false), Wall::new(px(1), px(1), false), Wall::new(px(2), px(1), false)];
    let mut f = Field::from_sprites(3, 2, &walls, &vec![], &vec![], &vec![]);
    f.add_bomb(0, 1);
    assert!(!f.escapable_from(0, 1));
    // Without the opponent in the way the safe cell beyond is still walled off.
    assert!(!f.escapable_from(0, 5));
}

#[test]
fn escape_needs_a_safe_cell_within_reach() {
    // A 1 x 14 corridor, bomb of reach 12 at cell 0: the first safe cell is
    // 13 steps away, beyond the 11 a player can walk in time.
    let mut f = Field::new(14, 1);
    f.add_bomb(0, 12);
    assert!(!f.escapable_from(0, 13));
    let mut g = Field::new(14, 1);
    g.add_bomb(0, 10);
    assert!(g.escapable_from(0, 13));
}
