use bomber_mates::bomb::Bomb;
use bomber_mates::field::{Field, FieldElement, FieldObject};
use bomber_mates::position::Position;
use bomber_mates::power_up_item::PowerUpItem;
use bomber_mates::wall::Wall;

fn px(cell: i32) -> i32 {
    cell * 32
}

#[test]
fn new_field_is_empty_and_safe() {
    let f = Field::new(4, 3);
    assert_eq!(f.width, 4);
    assert_eq!(f.height, 3);
    assert_eq!(f.elements.len(), 12);
    for e in &f.elements {
        assert_eq!(*e, FieldElement { field_object: FieldObject::Empty, risk: 0 });
    }
}

#[test]
fn occupants_follow_precedence() {
    let walls = vec![Wall::new(px(2), px(0), true), Wall::new(px(2), px(0), false), Wall::new(px(3), px(0), true)];
    let bombs = vec![Bomb::new(px(0), px(1), 1)];
    let items = vec![PowerUpItem::new(px(1), px(2)), PowerUpItem::new(px(3), px(0))];
    let players = vec![Position { x: px(1), y: px(2) }, Position { x: px(3), y: px(2) }];
    let f = Field::from_sprites(4, 3, &walls, &bombs, &items, &players);
    assert_eq!(f.elements[2].field_object, FieldObject::Wall);
    assert_eq!(f.elements[3].field_object, FieldObject::BreakableWall);
    assert_eq!(f.elements[4].field_object, FieldObject::Bomb);
    assert_eq!(f.elements[9].field_object, FieldObject::PowerUpItem);
    assert_eq!(f.elements[11].field_object, FieldObject::Player);
    assert_eq!(f.elements[0].field_object, FieldObject::Empty);
}

#[test]
fn player_pixel_position_rounds_to_nearest_cell() {
    let players = vec![Position { x: 47, y: 15 }, Position { x: 48, y: 16 }];
    let f = Field::from_sprites(4, 3, &vec![], &vec![], &vec![], &players);
    assert_eq!(f.elements[1].field_object, FieldObject::Player);
    assert_eq!(f.elements[4 + 2].field_object, FieldObject::Player);
    assert_eq!(f.cell_of_pixel(47, 15), 1);
    assert_eq!(f.cell_of_pixel(-1, 0), -1);
    assert_eq!(f.cell_of_pixel(4 * 32 - 16, 0), -1);
}

#[test]
fn blast_risk_stops_at_walls_and_bombs() {
    // Row 0: bomb (reach 3) at column 0, empty, breakable wall, empty.
    let walls = vec![Wall::new(px(2), px(0), true)];
    let mut bomb = Bomb::new(px(0), px(0), 3);
    bomb.remain_time = 100;
    let f = Field::from_sprites(4, 3, &walls, &vec![bomb], &vec![], &vec![]);
    assert_eq!(f.elements[0].risk, 80);
    assert_eq!(f.elements[1].risk, 80);
    assert_eq!(f.elements[2].risk, 0);
    assert_eq!(f.elements[3].risk, 0);
    assert_eq!(f.elements[4].risk, 80);
    assert_eq!(f.elements[8].risk, 80);
    assert_eq!(f.elements[5].risk, 0);
}

#[test]
fn overlapping_blasts_keep_the_highest_risk() {
    let mut early = Bomb::new(px(0), px(0), 1);
    early.remain_time = 10;
    let late = Bomb::new(px(2), px(0), 1);
    let f = Field::from_sprites(3, 1, &vec![], &vec![early, late], &vec![], &vec![]);
    // Cell 1 lies in both blasts and keeps the higher risk.
    assert_eq!(f.elements[1].risk, 170);
    assert_eq!(f.elements[0].risk, 170);
    assert_eq!(f.elements[2].risk, 1);
}

#[test]
fn bomb_risk_values() {
    assert_eq!(Field::bomb_risk(180), 1);
    assert_eq!(Field::bomb_risk(500), 1);
    assert_eq!(Field::bomb_risk(179), 1);
    assert_eq!(Field::bomb_risk(1), 179);
    assert_eq!(Field::bomb_risk(0), 180);
    assert_eq!(Field::bomb_risk(-4), 180);
}

#[test]
fn add_bomb_counts_breakable_walls_hit_first() {
    // 5 x 5, bomb of reach 2 at the centre (2, 2).
    let walls = vec![
        Wall::new(px(3), px(2), true),  // east, 1 away: broken
        Wall::new(px(4), px(2), true),  // behind it: shielded
        Wall::new(px(2), px(0), true),  // north, 2 away: broken
        Wall::new(px(0), px(2), false), // west, 2 away: solid
    ];
    let mut f = Field::from_sprites(5, 5, &walls, &vec![], &vec![], &vec![]);
    let breaks = f.add_bomb(12, 2);
    assert_eq!(breaks, 2);
    assert_eq!(f.elements[12].field_object, FieldObject::Bomb);
    assert_eq!(f.elements[12].risk, 1);
    assert_eq!(f.elements[11].risk, 1);
    assert_eq!(f.elements[10].risk, 0);
    assert_eq!(f.elements[7].risk, 1);
    assert_eq!(f.elements[17].risk, 1);
    assert_eq!(f.elements[22].risk, 1);
    assert_eq!(f.elements[14].risk, 0);
}

#[test]
fn duplicate_is_independent() {
    let f = Field::new(2, 2);
    let mut g = f.duplicate();
    g.add_bomb(0, 1);
    assert_eq!(f.elements[0].field_object, FieldObject::Empty);
    assert_eq!(g.elements[0].field_object, FieldObject::Bomb);
}

#[test]
fn neighbors_respect_edges() {
    let f = Field::new(3, 2);
    assert_eq!(f.neighbor_of(0, 0), None);
    assert_eq!(f.neighbor_of(0, 1), Some(1));
    assert_eq!(f.neighbor_of(2, 1), None);
    assert_eq!(f.neighbor_of(1, 2), None);
    assert_eq!(f.neighbor_of(1, 3), Some(4));
    assert_eq!(f.neighbor_of(4, 3), None);
    assert_eq!(f.neighbor_of(4, 2), Some(1));
    assert_eq!(f.index_of(2, 1), 5);
}

#[test]
fn passability() {
    let e = |o| FieldElement { field_object: o, risk: 0 };
    assert!(e(FieldObject::Empty).is_passable());
    assert!(e(FieldObject::PowerUpItem).is_passable());
    assert!(e(FieldObject::Player).is_passable());
    assert!(!e(FieldObject::Wall).is_passable());
    assert!(!e(FieldObject::BreakableWall).is_passable());
    assert!(!e(FieldObject::Bomb).is_passable());
}
