//! Tactical combat core of a grid-based strategy game: the grid and its
//! occupancy, attack-range enumeration, movement search, combat and capture
//! resolution, turn bookkeeping, and building a grid from a level.
//!
//! Fractional quantities of the catalog (damage, modifiers, defense) are
//! fixed-point numbers in hundredths; see [`FIXED_ONE`].

mod attack_range;
mod catalog;
mod combat;
mod common;
mod cursor;
mod faction;
mod grid;
mod info;
mod manager;
mod path;
mod target_selector;
mod tile;
mod turn;
mod unit;

pub use attack_range::{
    blocks_spear, holds_target, in_attack_range, in_attack_range_after_moving, ray_dir, ray_of,
    ray_point, ray_reaches, ray_steps, spear_reaches, AttackRange, FindAttackable,
};
pub use catalog::{
    attained, class_matches, color_at, coords_fit, expected_tile, expected_unit, faction_code, has_point,
    index_named, is_point, layer_named, point_of, range_kind_of, role_valid, shifted, spec_valid,
    terrain_known, tiles_built, to_faction, type_at, units_known, units_placed, AttackSpec,
    DefenseSpec, GameInfo, Layer, LayerSpec, Level, LevelSpec, MovementSpec, Point, RangeSpec,
    RoleSpec, Spec, SpriteSpec, TerrainSpec,
};
pub use combat::{
    attack_resolved, damage_of, damage_value, damaged, defense_bonus_of, health_after,
    modifier_for, rounded_damage, AttackOutcome,
};
pub use common::{Config, Message};
pub use cursor::Cursor;
pub use faction::Faction;
pub use grid::{adjacent, in_bounds, manhattan, refers_to, tile_index, Grid};
pub use info::{
    AttackInfo, DefenseInfo, MovementClass, MovementClassInfo, MovementInfo, RangeKind, Role,
    RoleInfo, SpriteInfo, Terrain, TerrainInfo, FIXED_ONE,
};
pub use manager::{
    action_options, can_attack_after_move, can_capture, capture_amount, offered, Action,
    GridManager, PendingMove,
};
pub use path::{costs_defined, enter_cost, passable, PathFinder, RandomPathRev};
pub use target_selector::TargetSelector;
pub use tile::{progress_of, saturating_sum, Tile};
pub use turn::{all_equal, without, TurnInfo};
pub use unit::{Unit, MAX_HEALTH};
