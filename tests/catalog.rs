use std::rc::Rc;

use protoboard::{
    AttackInfo, AttackSpec, DefenseInfo, DefenseSpec, Faction, Grid, GridManager,
    MovementClassInfo, MovementInfo, MovementSpec, RangeKind, RangeSpec, RoleInfo, RoleSpec, Spec,
    SpriteInfo, SpriteSpec, TerrainInfo, TerrainSpec, Tile, Unit,
};

fn role_spec(kind: &str, min: Option<u32>, max: Option<u32>, class: &str) -> RoleSpec {
    RoleSpec {
        attack: AttackSpec {
            damage: 550,
            range: RangeSpec { kind: kind.to_string(), min, max, range: None },
            modifiers: vec![("armor".to_string(), 50)],
        },
        defense: DefenseSpec { defense: 10, class: "infantry".to_string() },
        movement: MovementSpec { movement: 3, class: class.to_string() },
        capture: 10,
        sprite: SpriteSpec { texture: "u.png".to_string(), area: None },
    }
}

fn terrain_spec(defense: i32, capture: u32) -> TerrainSpec {
    TerrainSpec { defense, capture, sprite: None }
}

fn spec_with(classes: Vec<(String, Vec<(String, u32)>)>, roles: Vec<(String, RoleSpec)>) -> Spec {
    Spec {
        movement_classes: classes,
        roles,
        terrain: vec![
            ("default".to_string(), terrain_spec(0, 0)),
            ("city".to_string(), terrain_spec(20, 20)),
        ],
        defense_classes: vec!["infantry".to_string(), "armor".to_string()],
    }
}

fn foot() -> (String, Vec<(String, u32)>) {
    ("foot".to_string(), vec![("city".to_string(), 1), ("default".to_string(), 2)])
}

#[test]
fn catalog_builds_with_costs_in_terrain_order() {
    let spec = spec_with(vec![foot()], vec![("soldier".to_string(), role_spec("melee", None, None, "foot"))]);
    let info = spec.to_info().unwrap();
    assert_eq!(info.terrain[0].1.id, 0);
    assert_eq!(info.terrain[1].1.name, "city");
    assert_eq!(info.terrain[1].1.capture, 20);
    assert_eq!(info.movement_classes[0].1.costs, vec![2, 1]);
    assert_eq!(info.roles[0].1.attack.range, RangeKind::Melee);
    assert_eq!(info.roles[0].1.movement.class.name, "foot");
}

#[test]
fn catalog_rejects_unknown_terrain_in_class() {
    let mut class = foot();
    class.1.push(("lava".to_string(), 3));
    let spec = spec_with(vec![class], Vec::new());
    assert!(spec.to_info().is_err());
}

#[test]
fn catalog_rejects_class_missing_a_terrain() {
    let class = ("foot".to_string(), vec![("city".to_string(), 1)]);
    let spec = spec_with(vec![class], Vec::new());
    assert!(spec.to_info().is_err());
}

#[test]
fn catalog_rejects_bad_roles() {
    let bad_range = spec_with(vec![foot()], vec![("a".to_string(), role_spec("ranged", Some(1), None, "foot"))]);
    assert!(bad_range.to_info().is_err());
    let bad_class = spec_with(vec![foot()], vec![("a".to_string(), role_spec("melee", None, None, "wheels"))]);
    assert!(bad_class.to_info().is_err());
    let good = spec_with(vec![foot()], vec![("a".to_string(), role_spec("ranged", Some(2), Some(3), "foot"))]);
    assert_eq!(good.to_info().unwrap().roles[0].1.attack.range, RangeKind::Ranged { min: 2, max: 3 });
}

fn grass_grid(w: u32, h: u32) -> Grid {
    let grass = Rc::new(TerrainInfo { name: "grass".to_string(), id: 0, defense: 0, capture: 0, sprite: None });
    let tiles = (0..w * h).map(|_| Tile { terrain: grass.clone(), faction: None, capture: None }).collect();
    Grid::new((w, h), tiles)
}

fn unit(range: RangeKind, movement: u32, faction: Faction) -> Unit {
    Unit::new(
        Rc::new(RoleInfo {
            name: "u".to_string(),
            attack: AttackInfo { damage: 500, range, modifiers: Vec::new() },
            defense: DefenseInfo { defense: 0, class: "infantry".to_string() },
            movement: MovementInfo {
                movement,
                class: Rc::new(MovementClassInfo { name: "foot".to_string(), costs: vec![1] }),
            },
            capture: 0,
            sprite: SpriteInfo { texture: "u.png".to_string(), area: None },
        }),
        faction,
    )
}

#[test]
fn total_attack_range_covers_moves_then_strikes() {
    let mut grid = grass_grid(7, 1);
    grid.add_unit(unit(RangeKind::Melee, 2, Faction::Red), (0, 0));
    let pf = grid.path_finder((0, 0));
    let mut range = pf.total_attack_range(&grid);
    range.sort();
    assert_eq!(range, vec![(0, 0), (1, 0), (2, 0), (3, 0)]);
}

#[test]
fn ranged_total_attack_range_is_only_from_where_it_stands() {
    let mut grid = grass_grid(7, 1);
    grid.add_unit(unit(RangeKind::Ranged { min: 2, max: 2 }, 2, Faction::Red), (3, 0));
    let pf = grid.path_finder((3, 0));
    let mut range = pf.total_attack_range(&grid);
    range.sort();
    assert_eq!(range, vec![(1, 0), (5, 0)]);
}

#[test]
fn cancel_shows_reach_and_release_hides_it() {
    let mut grid = grass_grid(3, 3);
    grid.add_unit(unit(RangeKind::Melee, 1, Faction::Blue), (1, 1));
    let mut manager = GridManager::new((1, 1));
    manager.cancel(&grid);
    let shown = manager.shown_range().unwrap();
    assert_eq!(shown.len(), 9);
    manager.cancel_release();
    assert!(manager.shown_range().is_none());
    assert_eq!(manager.cursor(), (1, 1));
}
