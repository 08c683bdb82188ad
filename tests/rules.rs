use std::collections::BTreeSet;
use std::rc::Rc;

use protoboard::{
    action_options, Action, AttackInfo, DefenseInfo, Faction, GameInfo, Grid, GridManager, Level,
    LevelSpec, MovementClassInfo, MovementInfo, MovementSpec, Point, RangeKind, RangeSpec, Role,
    RoleInfo, SpriteInfo, SpriteSpec, TargetSelector, Terrain, TerrainInfo, Tile, TurnInfo, Unit,
};

fn terrain(name: &str, id: usize, defense: i32, capture: u32) -> Terrain {
    Rc::new(TerrainInfo { name: name.to_string(), id, defense, capture, sprite: None })
}

fn role_with(range: RangeKind, movement: u32, costs: Vec<u32>, damage: u32, defense: i32) -> Role {
    Rc::new(RoleInfo {
        name: "soldier".to_string(),
        attack: AttackInfo {
            damage,
            range,
            modifiers: vec![("armor".to_string(), 50)],
        },
        defense: DefenseInfo { defense, class: "infantry".to_string() },
        movement: MovementInfo {
            movement,
            class: Rc::new(MovementClassInfo { name: "foot".to_string(), costs }),
        },
        capture: 10,
        sprite: SpriteInfo { texture: "soldier.png".to_string(), area: None },
    })
}

fn role(range: RangeKind, movement: u32) -> Role {
    role_with(range, movement, vec![1, 2], 500, 0)
}

fn grid_of(w: u32, h: u32, t: &Terrain) -> Grid {
    let tiles = (0..w * h).map(|_| Tile { terrain: t.clone(), faction: None, capture: None }).collect();
    Grid::new((w, h), tiles)
}

fn grass_grid(w: u32, h: u32) -> Grid {
    grid_of(w, h, &terrain("grass", 0, 0, 0))
}

fn dist(a: (u32, u32), b: (u32, u32)) -> u32 {
    (a.0 as i64 - b.0 as i64).unsigned_abs() as u32 + (a.1 as i64 - b.1 as i64).unsigned_abs() as u32
}

#[test]
fn reachable_set_is_clipped_diamond() {
    let mut grid = grass_grid(5, 5);
    grid.add_unit(Unit::new(role(RangeKind::Melee, 3), Faction::Red), (2, 2));
    let pf = grid.path_finder((2, 2));
    let mut reached = BTreeSet::new();
    for x in 0..5 {
        for y in 0..5 {
            if pf.can_move_to((x, y)) {
                reached.insert((x, y));
                assert_eq!(pf.cost((x, y)), Some(dist((x, y), (2, 2))));
            }
        }
    }
    let mut expected = BTreeSet::new();
    for x in 0..5 {
        for y in 0..5 {
            if dist((x, y), (2, 2)) <= 3 {
                expected.insert((x, y));
            }
        }
    }
    assert_eq!(reached, expected);
    assert_eq!(pf.cost((2, 2)), Some(0));
    assert_eq!(pf.cost((9, 9)), None);
}

#[test]
fn enemies_block_movement_allies_do_not() {
    let mut grid = grass_grid(5, 1);
    let kind = role(RangeKind::Melee, 4);
    grid.add_unit(Unit::new(kind.clone(), Faction::Red), (0, 0));
    grid.add_unit(Unit::new(kind.clone(), Faction::Red), (1, 0));
    grid.add_unit(Unit::new(kind.clone(), Faction::Blue), (3, 0));
    let pf = grid.path_finder((0, 0));
    assert_eq!(pf.cost((1, 0)), Some(1));
    assert_eq!(pf.cost((2, 0)), Some(2));
    assert!(!pf.can_move_to((3, 0)));
    assert!(!pf.can_move_to((4, 0)));
}

#[test]
fn terrain_costs_shape_the_search() {
    let grass = terrain("grass", 0, 0, 0);
    let forest = terrain("forest", 1, 0, 0);
    let tiles = (0..5u32)
        .map(|x| Tile { terrain: if x == 1 { forest.clone() } else { grass.clone() }, faction: None, capture: None })
        .collect();
    let mut grid = Grid::new((5, 1), tiles);
    grid.add_unit(Unit::new(role(RangeKind::Melee, 3), Faction::Red), (0, 0));
    let pf = grid.path_finder((0, 0));
    assert_eq!(pf.cost((1, 0)), Some(2));
    assert_eq!(pf.cost((2, 0)), Some(3));
    assert!(!pf.can_move_to((3, 0)));
}

#[test]
fn random_path_descends_to_origin() {
    let mut grid = grass_grid(5, 5);
    grid.add_unit(Unit::new(role(RangeKind::Melee, 3), Faction::Red), (2, 2));
    let pf = grid.path_finder((2, 2));
    for _ in 0..20 {
        let path = pf.random_path_rev((4, 3)).into_vec();
        assert_eq!(path.len(), 3);
        assert_eq!(path[0], (4, 3));
        for i in 1..path.len() {
            assert_eq!(dist(path[i - 1], path[i]), 1);
            assert!(pf.cost(path[i]).unwrap() < pf.cost(path[i - 1]).unwrap());
        }
        assert_eq!(dist(path[2], (2, 2)), 1);
    }
    assert!(pf.random_path_rev((2, 2)).into_vec().is_empty());
}

#[test]
fn random_path_next_steps_one_at_a_time() {
    let mut grid = grass_grid(3, 3);
    grid.add_unit(Unit::new(role(RangeKind::Melee, 2), Faction::Red), (0, 0));
    let pf = grid.path_finder((0, 0));
    let mut walk = pf.random_path_rev((1, 1));
    assert_eq!(walk.next(), Some((1, 1)));
    let second = walk.next().unwrap();
    assert!(second == (0, 1) || second == (1, 0));
    assert!(walk.at_origin());
    assert_eq!(walk.next(), None);
}

#[test]
fn attack_damage_exact_values() {
    let kind = role(RangeKind::Melee, 3);
    let a = Unit::new(kind.clone(), Faction::Red);
    let d = Unit::new(kind.clone(), Faction::Blue);
    let plain = terrain("grass", 0, 0, 0);
    // 5.0 * 1.0 * 1.0 * (1 - 0) = 5.00
    assert_eq!(a.attack_damage(&d, &plain), 500);
    // defense 0.25 on the tile: 5.0 * (1 - 0.25) = 3.75
    let hill = terrain("hill", 1, 25, 0);
    assert_eq!(a.attack_damage(&d, &hill), 375);
    // modifier 0.5 against armor
    let tank = role_with(RangeKind::Melee, 3, vec![1, 2], 500, 0);
    let mut armored = Unit::new(
        Rc::new(RoleInfo {
            defense: DefenseInfo { defense: 0, class: "armor".to_string() },
            ..(*tank).clone()
        }),
        Faction::Blue,
    );
    assert_eq!(a.attack_damage(&armored, &plain), 250);
    // half-health attacker deals half
    armored.health = 5;
    let mut weak = Unit::new(kind.clone(), Faction::Red);
    weak.health = 5;
    assert_eq!(weak.attack_damage(&d, &plain), 250);
    assert_eq!(weak.retaliation_damage(100, &d, &plain), 250);
}

#[test]
fn attack_damage_is_zero_for_dead_attacker_and_never_negative() {
    let kind = role(RangeKind::Melee, 3);
    let mut a = Unit::new(kind.clone(), Faction::Red);
    let d = Unit::new(kind.clone(), Faction::Blue);
    let fortress = terrain("fortress", 1, 200, 0);
    // defense 2.0 would make the factor negative: clamped to 0
    assert_eq!(a.attack_damage(&d, &fortress), 0);
    a.health = 0;
    assert_eq!(a.attack_damage(&d, &terrain("grass", 0, 0, 0)), 0);
}

#[test]
fn receive_damage_rounds_and_stops_at_zero() {
    let kind = role(RangeKind::Melee, 3);
    let mut u = Unit::new(kind.clone(), Faction::Red);
    assert!(!u.receive_damage(349));
    assert_eq!(u.health, 7);
    assert!(!u.receive_damage(350));
    assert_eq!(u.health, 3);
    assert!(!u.receive_damage(49));
    assert_eq!(u.health, 3);
    assert!(u.receive_damage(2000));
    assert_eq!(u.health, 0);
}

#[test]
fn capture_accumulates_and_flips_at_threshold() {
    let mut tile = Tile { terrain: terrain("city", 0, 0, 20), faction: None, capture: None };
    assert!(tile.can_be_captured());
    assert!(!tile.capture(Faction::Red, 10));
    assert_eq!(tile.capture, Some((Faction::Red, 10)));
    assert!(tile.capture(Faction::Red, 10));
    assert_eq!(tile.faction, Some(Faction::Red));
    assert_eq!(tile.capture, None);
}

#[test]
fn capture_progress_resets_for_another_faction() {
    let mut tile = Tile { terrain: terrain("city", 0, 0, 20), faction: None, capture: None };
    assert!(!tile.capture(Faction::Red, 15));
    assert!(!tile.capture(Faction::Blue, 15));
    assert_eq!(tile.capture, Some((Faction::Blue, 15)));
    assert_eq!(tile.faction, None);
    let plain = Tile { terrain: terrain("grass", 1, 0, 0), faction: None, capture: None };
    assert!(!plain.can_be_captured());
}

#[test]
fn remove_current_faction_passes_the_turn() {
    let mut t = TurnInfo::new(vec![Faction::Red, Faction::Blue], 4);
    assert_eq!(t.current_faction(), Faction::Red);
    t.remove_faction(Faction::Red);
    assert_eq!(t.factions(), &[Faction::Blue][..]);
    assert_eq!(t.current_faction(), Faction::Blue);
    assert_eq!(t.winner(), Some(Faction::Blue));
}

#[test]
fn remove_other_faction_keeps_current() {
    let mut t = TurnInfo::new(vec![Faction::Red, Faction::Blue, Faction::Red], 4);
    t.end_turn();
    assert_eq!(t.current_faction(), Faction::Blue);
    t.remove_faction(Faction::Red);
    assert_eq!(t.current_faction(), Faction::Blue);
    let mut u = TurnInfo::new(vec![Faction::Blue, Faction::Red, Faction::Blue], 4);
    u.end_turn();
    u.end_turn();
    assert_eq!(u.current_faction(), Faction::Blue);
    u.remove_faction(Faction::Red);
    assert_eq!(u.factions(), &[Faction::Blue, Faction::Blue][..]);
    assert_eq!(u.current_faction(), Faction::Blue);
}

#[test]
fn turns_rotate_and_spend_actions() {
    let kind = role(RangeKind::Melee, 3);
    let mut t = TurnInfo::new(vec![Faction::Red, Faction::Blue], 2);
    let red = Unit::new(kind.clone(), Faction::Red);
    let blue = Unit::new(kind.clone(), Faction::Blue);
    assert!(t.can_act(&red));
    assert!(!t.can_act(&blue));
    t.spend_action();
    t.spend_action();
    assert_eq!(t.actions_left(), 0);
    assert!(!t.can_act(&red));
    t.end_turn();
    assert_eq!(t.actions_left(), 2);
    assert!(t.can_act(&blue));
    t.end_turn();
    assert_eq!(t.current_faction(), Faction::Red);
    assert_eq!(t.winner(), None);
}

#[test]
fn melee_attack_draws_retaliation() {
    let mut grid = grass_grid(3, 3);
    let kind = role(RangeKind::Melee, 3);
    grid.add_unit(Unit::new(kind.clone(), Faction::Red), (1, 1));
    grid.add_unit(Unit::new(kind.clone(), Faction::Blue), (1, 2));
    let out = grid.resolve_attack((1, 1), (1, 2));
    assert_eq!(out.damage, 500);
    assert!(!out.defender_destroyed);
    assert_eq!(grid.unit((1, 2)).unwrap().health, 5);
    assert_eq!(out.retaliation, Some(250));
    assert!(!out.attacker_destroyed);
    assert_eq!(grid.unit((1, 1)).unwrap().health, 7);
}

#[test]
fn ranged_attack_is_not_answered_by_melee() {
    let mut grid = grass_grid(4, 4);
    grid.add_unit(Unit::new(role(RangeKind::Ranged { min: 2, max: 3 }, 2), Faction::Red), (0, 0));
    grid.add_unit(Unit::new(role(RangeKind::Melee, 3), Faction::Blue), (0, 2));
    let out = grid.resolve_attack((0, 0), (0, 2));
    assert_eq!(out.retaliation, None);
    assert_eq!(grid.unit((0, 0)).unwrap().health, 10);
    assert_eq!(grid.unit((0, 2)).unwrap().health, 5);
}

#[test]
fn destroyed_defender_is_removed() {
    let mut grid = grass_grid(3, 3);
    let strong = role_with(RangeKind::Melee, 3, vec![1], 2000, 0);
    grid.add_unit(Unit::new(strong, Faction::Red), (0, 0));
    grid.add_unit(Unit::new(role(RangeKind::Melee, 3), Faction::Blue), (1, 0));
    let out = grid.resolve_attack((0, 0), (1, 0));
    assert!(out.defender_destroyed);
    assert_eq!(out.defeated, Some(Faction::Blue));
    assert!(grid.unit((1, 0)).is_none());
    assert!(!grid.has_units_of(Faction::Blue));
    let mut turn = TurnInfo::new(vec![Faction::Red, Faction::Blue], 4);
    assert_eq!(turn.remove_defeated(&grid), vec![Faction::Blue]);
    assert_eq!(turn.factions(), &[Faction::Red][..]);
    assert_eq!(turn.winner(), Some(Faction::Red));
}

#[test]
fn surviving_factions_stay_in_turn_order() {
    let mut grid = grass_grid(3, 3);
    grid.add_unit(Unit::new(role(RangeKind::Melee, 3), Faction::Red), (0, 0));
    grid.add_unit(Unit::new(role(RangeKind::Melee, 3), Faction::Blue), (2, 2));
    let mut turn = TurnInfo::new(vec![Faction::Red, Faction::Blue], 4);
    assert!(turn.remove_defeated(&grid).is_empty());
    assert_eq!(turn.factions(), &[Faction::Red, Faction::Blue][..]);
    let out = grid.resolve_attack((0, 0), (2, 2));
    assert_eq!(out.defeated, None);
}

#[test]
fn manager_selects_and_moves_a_unit() {
    let mut grid = grass_grid(5, 5);
    grid.add_unit(Unit::new(role(RangeKind::Melee, 3), Faction::Red), (2, 2));
    let turn = TurnInfo::new(vec![Faction::Red, Faction::Blue], 4);
    let mut manager = GridManager::new((2, 2));
    assert!(manager.confirm(&mut grid, &turn).is_none());
    manager.move_cursor_to((4, 4), &grid);
    manager.move_cursor_to((4, 3), &grid);
    let moved = manager.confirm(&mut grid, &turn).unwrap();
    assert_eq!(moved.origin, (2, 2));
    assert_eq!(moved.path.len(), 3);
    assert_eq!(*moved.path.last().unwrap(), (4, 3));
    assert!(grid.unit((2, 2)).is_none());
    grid.add_unit(moved.unit, (4, 3));
    assert_eq!(action_options(&grid, (2, 2), (4, 3)), vec![Action::Wait]);
}

#[test]
fn action_options_offer_attack_and_capture() {
    let grass = terrain("grass", 0, 0, 0);
    let city = terrain("city", 1, 0, 20);
    let tiles = (0..9u32)
        .map(|i| Tile { terrain: if i == 4 { city.clone() } else { grass.clone() }, faction: None, capture: None })
        .collect();
    let mut grid = Grid::new((3, 3), tiles);
    grid.add_unit(Unit::new(role(RangeKind::Melee, 3), Faction::Red), (1, 1));
    grid.add_unit(Unit::new(role(RangeKind::Melee, 3), Faction::Blue), (1, 2));
    assert_eq!(
        action_options(&grid, (0, 1), (1, 1)),
        vec![Action::Attack, Action::Capture, Action::Wait]
    );
    let mut turn = TurnInfo::new(vec![Faction::Red, Faction::Blue], 4);
    let mut manager = GridManager::new((1, 1));
    assert!(!manager.capture_at((1, 1), &mut grid, &mut turn));
    assert_eq!(grid.tile((1, 1)).1.capture, Some((Faction::Red, 10)));
    assert!(grid.unit((1, 1)).unwrap().spent);
    assert_eq!(turn.actions_left(), 3);
}

#[test]
fn range_specs_parse() {
    let spec = |kind: &str, min, max, range| RangeSpec { kind: kind.to_string(), min, max, range };
    assert_eq!(spec("melee", None, None, None).to_info(), Ok(RangeKind::Melee));
    assert_eq!(
        spec("ranged", Some(2), Some(3), None).to_info(),
        Ok(RangeKind::Ranged { min: 2, max: 3 })
    );
    assert_eq!(spec("spear", None, None, Some(2)).to_info(), Ok(RangeKind::Spear { range: 2 }));
    assert!(spec("ranged", None, Some(3), None).to_info().is_err());
    assert!(spec("spear", None, None, None).to_info().is_err());
    assert!(spec("laser", None, None, None).to_info().is_err());
    let sprite = SpriteSpec { texture: "a.png".to_string(), area: Some((0, 0, 8, 8)) };
    assert_eq!(sprite.to_info().unwrap().area, Some((0, 0, 8, 8)));
    let classes = vec![Rc::new(MovementClassInfo { name: "foot".to_string(), costs: vec![1] })];
    let m = MovementSpec { movement: 4, class: "foot".to_string() };
    assert_eq!(m.to_info(&classes).unwrap().movement, 4);
    assert!(MovementSpec { movement: 4, class: "wings".to_string() }.to_info(&classes).is_err());
}

#[test]
fn level_builds_grid_with_terrain_and_units() {
    let spec = LevelSpec {
        name: "test".to_string(),
        schema: "v1".to_string(),
        layers: vec![
            ("terrain".to_string(), vec![("city".to_string(), vec![(10, 20, 1)])]),
            ("units".to_string(), vec![("soldier".to_string(), vec![(11, 21, 2), (12, 20, 1)])]),
        ],
    };
    let level = Level::from_spec(spec).unwrap();
    assert_eq!(level.layers[1].1[0].1[0], Point(11, 21, 2));
    let info = GameInfo {
        movement_classes: Vec::new(),
        roles: vec![("soldier".to_string(), role(RangeKind::Melee, 3))],
        terrain: vec![
            ("default".to_string(), terrain("default", 0, 0, 0)),
            ("city".to_string(), terrain("city", 1, 10, 20)),
        ],
        defense_classes: Vec::new(),
    };
    let grid = level.create_grid(&info);
    assert_eq!(grid.size(), (3, 2));
    let (_, city) = grid.tile((0, 0));
    assert_eq!(city.terrain.name, "city");
    assert_eq!(city.faction, Some(Faction::Red));
    assert_eq!(grid.tile((1, 0)).1.terrain.name, "default");
    assert_eq!(grid.unit((1, 1)).unwrap().faction, Faction::Blue);
    assert_eq!(grid.unit((2, 0)).unwrap().faction, Faction::Red);
    assert!(grid.unit((0, 0)).is_none());
}

#[test]
fn target_selector_wraps_both_ways() {
    let mut sel = TargetSelector::new((0, 0), (0, 0), vec![(1, 0), (0, 1), (2, 2)]);
    assert_eq!(sel.selected(), (1, 0));
    sel.select_previous();
    assert_eq!(sel.selected(), (2, 2));
    sel.select_next();
    sel.select_next();
    assert_eq!(sel.selected(), (0, 1));
    assert!(sel.select_at((2, 2)));
    assert_eq!(sel.selected(), (2, 2));
    assert!(!sel.select_at((5, 5)));
    assert_eq!(sel.selected(), (2, 2));
}

#[test]
fn point_equality_ignores_colour() {
    assert_eq!(Point(1, 2, 0), Point(1, 2, 2));
    assert_ne!(Point(1, 2, 0), Point(2, 1, 0));
}
