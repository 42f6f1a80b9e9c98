use std::collections::VecDeque;

use bomber_mates::bomb::Bomb;
use bomber_mates::field::Field;
use bomber_mates::position::Position;
use bomber_mates::power_up_item::PowerUpItem;
use bomber_mates::search::{evaluate_cell, search};
use bomber_mates::wall::Wall;

fn px(cell: i32) -> i32 {
    cell * 32
}

/// Plain breadth-first hop counts over passable cells.
fn bfs(f: &Field, origin: usize) -> Vec<i64> {
    let n = f.elements.len();
    let w = f.width;
    let mut d = vec![-1i64; n];
    d[origin] = 0;
    let mut q = VecDeque::new();
    q.push_back(origin);
    while let Some(c) = q.pop_front() {
        let mut next = vec![];
        if c % w > 0 {
            next.push(c - 1);
        }
        if c % w + 1 < w {
            next.push(c + 1);
        }
        if c >= w {
            next.push(c - w);
        }
        if c + w < n {
            next.push(c + w);
        }
        for j in next {
            if d[j] < 0 && f.elements[j].is_passable() {
                d[j] = d[c] + 1;
                q.push_back(j);
            }
        }
    }
    d
}

fn maze() -> Field {
    let mut walls = vec![];
    for (x, y) in [(1, 0), (1, 1), (1, 2), (3, 1), (3, 2), (3, 3), (3, 4), (5, 0), (5, 1), (5, 3), (2, 4)] {
        walls.push(Wall::new(px(x), px(y), (x + y) % 2 == 0));
    }
    Field::from_sprites(7, 5, &walls, &vec![], &vec![], &vec![])
}

#[test]
fn distances_match_breadth_first_search_without_risk() {
    let f = maze();
    for origin in [0usize, 6, 14, 34] {
        if !f.elements[origin].is_passable() {
            continue;
        }
        let r = search(&f, origin, 0, 1, false, 0, false);
        assert_eq!(r.distance, bfs(&f, origin), "origin {}", origin);
    }
}

#[test]
fn search_is_bounded() {
    let mut bomb = Bomb::new(px(4), px(2), 2);
    bomb.remain_time = 40;
    let f = Field::from_sprites(7, 5, &vec![Wall::new(px(1), px(1), false)], &vec![bomb, Bomb::new(px(0), px(4), 3)], &vec![], &vec![]);
    let n = f.elements.len() as u64;
    let r = search(&f, 0, 34, 2, true, 0, false);
    assert!(r.enqueued <= n * (n * 180 + 1));
    assert!(r.enqueued >= 1);
}

#[test]
fn blockade_keeps_the_opponent_cell_out() {
    let f = Field::new(5, 5);
    let origin = 12usize;
    let opponent = 13usize;
    let r = search(&f, origin, opponent, 1, true, 0, true);
    assert_ne!(r.best, opponent);
    assert_eq!(r.distance[opponent], -1);
    assert!(r.previous.iter().all(|&p| p != opponent as i64));
    // Without the blockade the cell is reached in one hop.
    let open = search(&f, origin, opponent, 1, true, 0, false);
    assert_eq!(open.distance[opponent], 1);
}

#[test]
fn origin_is_its_own_start() {
    let f = Field::new(3, 3);
    let r = search(&f, 4, 0, 1, false, 0, false);
    assert_eq!(r.distance[4], 0);
    assert_eq!(r.cost[4], 0);
    assert_eq!(r.previous[4], -1);
    assert_eq!(r.previous[3], 4);
}

#[test]
fn risky_cells_are_avoided_unless_already_in_danger() {
    // A bomb about to go off at (2, 0); from a safe cell the search does not
    // step into the cells it threatens.
    let mut bomb = Bomb::new(px(2), px(0), 1);
    bomb.remain_time = 5;
    let f = Field::from_sprites(5, 3, &vec![], &vec![bomb], &vec![], &vec![]);
    assert_eq!(f.elements[1].risk, 175);
    let r = search(&f, 0, 14, 1, false, 0, false);
    assert_eq!(r.distance[1], -1);
    assert_eq!(r.distance[7], -1);
    assert_eq!(r.distance[5], 1);
    assert_eq!(r.distance[12], 4);
    // Standing in the danger already, the search may cross it.
    let s = search(&f, 1, 14, 1, false, 0, false);
    assert_eq!(s.distance[0], 1);
}

#[test]
fn power_up_adds_its_bonus() {
    let f = Field::from_sprites(3, 1, &vec![], &vec![], &vec![PowerUpItem::new(px(2), 0)], &vec![]);
    let (score, fire) = evaluate_cell(&f, 2, 2, 0, 2, 1, false, 0, 0);
    assert_eq!(score, -2 + 10);
    assert!(!fire);
}

#[test]
fn wall_break_bonus_needs_an_escape() {
    // Corridor: cell 0, cell 1, breakable wall at 2, cell 3. Bombing cell 1
    // breaks the wall but leaves no safe cell to run to.
    let f = Field::from_sprites(4, 1, &vec![Wall::new(px(2), 0, true)], &vec![], &vec![], &vec![Position { x: px(3), y: 0 }]);
    let (score, fire) = evaluate_cell(&f, 1, 1, 0, 3, 1, false, 0, 0);
    assert_eq!(score, -1);
    assert!(!fire);
    // With room to run, the same bomb pays off.
    let g = Field::from_sprites(4, 3, &vec![Wall::new(px(2), 0, true)], &vec![], &vec![], &vec![]);
    let (score, fire) = evaluate_cell(&g, 1, 1, 0, 11, 1, false, 0, 0);
    assert_eq!(score, -1 + 5);
    assert!(fire);
}

#[test]
fn no_bomb_evaluation_on_bombs_or_the_opponent() {
    let f = Field::from_sprites(3, 3, &vec![], &vec![Bomb::new(px(1), px(1), 1)], &vec![], &vec![]);
    let (score, fire) = evaluate_cell(&f, 4, 0, 4, 0, 1, true, 0, f.stress_at(0));
    assert_eq!(score, -1);
    assert!(!fire);
    let (score, fire) = evaluate_cell(&f, 0, 2, 4, 0, 1, true, 0, f.stress_at(0));
    assert_eq!(score, -2);
    assert!(!fire);
}

#[test]
fn stuck_pressure_adds_exactly_its_share_of_the_stress_gain() {
    // Open 7 x 7 arena, player at the centre, opponent one cell east.
    let f = Field::new(7, 7);
    let me = 24usize;
    let them = 25usize;
    let base = f.stress_at(them);
    let mut g = f.duplicate();
    g.add_bomb(me, 1);
    let delta = g.stress_at(them) as i64 - base as i64;
    assert!(delta > 0);
    let (stuck, fire_stuck) = evaluate_cell(&f, me, 0, me, them, 1, true, 5, base);
    let (free, fire_free) = evaluate_cell(&f, me, 0, me, them, 1, true, 0, base);
    assert!(fire_stuck && fire_free);
    assert_eq!(stuck - free, 5 * delta);
    assert_eq!(free, delta);
    // Away from its own cell, pressure adds nothing.
    let (other_stuck, _) = evaluate_cell(&f, 17, 1, me, them, 1, true, 5, base);
    let (other_free, _) = evaluate_cell(&f, 17, 1, me, them, 1, true, 0, base);
    assert_eq!(other_stuck, other_free);
}

#[test]
fn bombing_a_power_up_cell_is_weighed_too() {
    // Item at (0, 1) under a breakable wall at (0, 0).
    let f = Field::from_sprites(4, 3, &vec![Wall::new(0, 0, true)], &vec![], &vec![PowerUpItem::new(0, px(1))], &vec![]);
    let (score, fire) = evaluate_cell(&f, 4, 1, 6, 11, 1, false, 0, 0);
    assert_eq!(score, -1 + 10 + 5);
    assert!(fire);
}
