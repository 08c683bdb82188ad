use std::collections::BTreeSet;
use std::rc::Rc;

use protoboard::{
    AttackInfo, AttackRange, DefenseInfo, Faction, Grid, MovementClassInfo, MovementInfo,
    RangeKind, Role, RoleInfo, SpriteInfo, Terrain, TerrainInfo, Tile, Unit,
};

fn terrain(name: &str, id: usize, defense: i32, capture: u32) -> Terrain {
    Rc::new(TerrainInfo { name: name.to_string(), id, defense, capture, sprite: None })
}

fn role(range: RangeKind, movement: u32, costs: Vec<u32>) -> Role {
    Rc::new(RoleInfo {
        name: "soldier".to_string(),
        attack: AttackInfo { damage: 500, range, modifiers: Vec::new() },
        defense: DefenseInfo { defense: 0, class: "infantry".to_string() },
        movement: MovementInfo {
            movement,
            class: Rc::new(MovementClassInfo { name: "foot".to_string(), costs }),
        },
        capture: 10,
        sprite: SpriteInfo { texture: "soldier.png".to_string(), area: None },
    })
}

fn grass_grid(w: u32, h: u32) -> Grid {
    let grass = terrain("grass", 0, 0, 0);
    let tiles = (0..w * h)
        .map(|_| Tile { terrain: grass.clone(), faction: None, capture: None })
        .collect();
    Grid::new((w, h), tiles)
}

fn collect(mut range: AttackRange) -> Vec<(u32, u32)> {
    let mut v = Vec::new();
    while let Some(t) = range.next() {
        v.push(t);
    }
    v
}

fn dist(a: (u32, u32), b: (u32, u32)) -> u32 {
    (a.0 as i64 - b.0 as i64).unsigned_abs() as u32 + (a.1 as i64 - b.1 as i64).unsigned_abs() as u32
}

fn brute_force(w: u32, h: u32, pos: (u32, u32), min: u32, max: u32) -> BTreeSet<(u32, u32)> {
    let mut s = BTreeSet::new();
    for x in 0..w {
        for y in 0..h {
            let d = dist((x, y), pos);
            if min <= d && d <= max {
                s.insert((x, y));
            }
        }
    }
    s
}

#[test]
fn melee_interior_yields_four_neighbours() {
    let grid = grass_grid(5, 5);
    let tiles = collect(AttackRange::melee(&grid, (2, 2)));
    assert_eq!(tiles, vec![(2, 3), (3, 2), (2, 1), (1, 2)]);
}

#[test]
fn melee_corner_keeps_only_tiles_on_the_grid() {
    let grid = grass_grid(5, 5);
    let tiles: BTreeSet<_> = collect(AttackRange::melee(&grid, (0, 0))).into_iter().collect();
    assert_eq!(tiles, [(0, 1), (1, 0)].into_iter().collect());
}

#[test]
fn ranged_from_corner_matches_distances_two_and_three() {
    let grid = grass_grid(10, 10);
    let tiles = collect(AttackRange::ranged(&grid, (0, 0), 2, 3));
    assert_eq!(tiles.len(), 7);
    let set: BTreeSet<_> = tiles.into_iter().collect();
    assert_eq!(set, brute_force(10, 10, (0, 0), 2, 3));
    assert_eq!(
        set,
        [(0, 2), (1, 1), (2, 0), (0, 3), (1, 2), (2, 1), (3, 0)].into_iter().collect()
    );
}

#[test]
fn ranged_matches_brute_force_everywhere() {
    let grid = grass_grid(7, 6);
    for x in 0..7 {
        for y in 0..6 {
            for (min, max) in [(1, 1), (1, 3), (2, 4), (3, 3), (0, 2)] {
                let tiles = collect(AttackRange::ranged(&grid, (x, y), min, max));
                let set: BTreeSet<_> = tiles.iter().cloned().collect();
                assert_eq!(set.len(), tiles.len());
                assert_eq!(set, brute_force(7, 6, (x, y), min, max));
            }
        }
    }
}

#[test]
fn ranged_walks_rings_from_the_outside_in() {
    let grid = grass_grid(9, 9);
    let tiles = collect(AttackRange::ranged(&grid, (4, 4), 1, 2));
    assert_eq!(tiles[0], (4, 6));
    assert_eq!(dist(tiles[7], (4, 4)), 2);
    assert_eq!(tiles[8], (4, 5));
    assert_eq!(tiles.len(), 12);
}

#[test]
fn ranged_with_min_above_max_is_empty() {
    let grid = grass_grid(5, 5);
    assert!(collect(AttackRange::ranged(&grid, (2, 2), 3, 2)).is_empty());
}

#[test]
fn spear_stops_at_first_enemy_and_yields_it() {
    let mut grid = grass_grid(7, 7);
    let kind = role(RangeKind::Spear { range: 3 }, 3, vec![1]);
    grid.add_unit(Unit::new(kind.clone(), Faction::Red), (3, 3));
    grid.add_unit(Unit::new(kind.clone(), Faction::Blue), (3, 5));
    grid.add_unit(Unit::new(kind.clone(), Faction::Red), (4, 3));
    let spearman = Unit::new(kind.clone(), Faction::Red);
    let tiles: BTreeSet<_> = collect(AttackRange::spear(&grid, &spearman, (3, 3), 3)).into_iter().collect();
    assert!(tiles.contains(&(3, 4)));
    assert!(tiles.contains(&(3, 5)));
    assert!(!tiles.contains(&(3, 6)));
    // an ally is thrust through
    assert!(tiles.contains(&(4, 3)));
    assert!(tiles.contains(&(5, 3)));
    assert!(tiles.contains(&(6, 3)));
    assert!(tiles.contains(&(3, 0)));
    assert!(tiles.contains(&(0, 3)));
    assert_eq!(tiles.len(), 11);
}

#[test]
fn after_moving_ranged_units_cannot_attack() {
    let mut grid = grass_grid(5, 5);
    let archer = role(RangeKind::Ranged { min: 2, max: 3 }, 3, vec![1]);
    grid.add_unit(Unit::new(archer.clone(), Faction::Red), (2, 2));
    let unit = grid.unit((2, 2)).unwrap();
    assert!(collect(grid.attack_range_after_moving(unit, (2, 2))).is_empty());
    assert_eq!(collect(grid.attack_range_before_moving(unit, (2, 2))).len(), 16);
}

#[test]
fn find_attackable_keeps_enemies_only() {
    let mut grid = grass_grid(5, 5);
    let kind = role(RangeKind::Melee, 3, vec![1]);
    grid.add_unit(Unit::new(kind.clone(), Faction::Red), (2, 2));
    grid.add_unit(Unit::new(kind.clone(), Faction::Blue), (2, 3));
    grid.add_unit(Unit::new(kind.clone(), Faction::Red), (1, 2));
    let unit = grid.unit((2, 2)).unwrap();
    let mut found = grid.find_attackable_before_moving(unit, (2, 2));
    assert_eq!(found.next(), Some((2, 3)));
    assert_eq!(found.next(), None);
}

#[test]
fn grid_add_move_remove() {
    let mut grid = grass_grid(3, 2);
    let kind = role(RangeKind::Melee, 3, vec![1]);
    assert_eq!(grid.size(), (3, 2));
    grid.add_unit(Unit::new(kind.clone(), Faction::Blue), (2, 1));
    assert!(grid.unit((2, 1)).is_some());
    grid.move_unit((2, 1), (0, 0));
    assert!(grid.unit((2, 1)).is_none());
    assert_eq!(grid.unit((0, 0)).unwrap().faction, Faction::Blue);
    assert!(grid.has_units_of(Faction::Blue));
    assert!(!grid.has_units_of(Faction::Red));
    let u = grid.remove_unit((0, 0));
    assert_eq!(u.health, 10);
    assert!(!grid.has_units_of(Faction::Blue));
}

#[test]
fn spent_flags_set_and_refreshed() {
    let mut grid = grass_grid(3, 3);
    let kind = role(RangeKind::Melee, 3, vec![1]);
    grid.add_unit(Unit::new(kind.clone(), Faction::Red), (1, 1));
    grid.set_spent((1, 1));
    assert!(grid.unit((1, 1)).unwrap().spent);
    grid.refresh_units();
    assert!(!grid.unit((1, 1)).unwrap().spent);
}

#[test]
fn cursor_moves_stop_at_edges() {
    let mut c = protoboard::Cursor::new((0, 0), (3, 2), (48, 48));
    c.move_down();
    c.move_left();
    assert_eq!(c.tile(), (0, 0));
    c.move_up();
    c.move_up();
    assert_eq!(c.tile(), (0, 1));
    c.move_right();
    c.move_right();
    c.move_right();
    assert_eq!(c.tile(), (2, 1));
}

#[test]
fn manager_cursor_stays_within_reach_while_selected() {
    let mut grid = grass_grid(5, 5);
    grid.add_unit(Unit::new(role(RangeKind::Melee, 1, vec![1]), Faction::Red), (2, 2));
    let turn = protoboard::TurnInfo::new(vec![Faction::Red], 2);
    let mut manager = protoboard::GridManager::new((2, 2));
    assert!(manager.confirm(&mut grid, &turn).is_none());
    manager.move_cursor_relative((1, 0), &grid);
    assert_eq!(manager.cursor(), (3, 2));
    manager.move_cursor_relative((1, 0), &grid);
    assert_eq!(manager.cursor(), (3, 2));
    manager.deselect();
    manager.move_cursor_relative((1, 0), &grid);
    assert_eq!(manager.cursor(), (4, 2));
    manager.move_cursor_relative((1, 0), &grid);
    assert_eq!(manager.cursor(), (4, 2));
}
