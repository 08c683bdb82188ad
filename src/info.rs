use std::rc::Rc;

use vstd::prelude::*;

verus! {

/// Fixed-point scale of the catalog's fractional quantities: a stored
/// value of `FIXED_ONE` means 1.0, so values are kept in hundredths.
pub const FIXED_ONE: u32 = 100;

/// How a unit's attack reaches its targets.
#[derive(Clone, Copy, Debug, PartialEq, Eq, Structural)]
pub enum RangeKind {
    /// The four orthogonal neighbours.
    Melee,
    /// Every tile whose Manhattan distance lies between `min` and `max`.
    Ranged { min: u32, max: u32 },
    /// Up to `range` tiles along each of the four rays, stopped by units.
    Spear { range: u32 },
}

/// Where a sprite lives: a texture, and optionally the area (x, y, width,
/// height) of it to draw.
#[derive(Clone, Debug)]
pub struct SpriteInfo {
    pub texture: String,
    pub area: Option<(u32, u32, u32, u32)>,
}

/// A kind of terrain. `id` is its index in the catalog's terrain table,
/// by which movement classes give its cost; `defense` is in hundredths;
/// `capture` is the progress needed to take a tile of it, 0 where it
/// cannot be captured.
#[derive(Clone, Debug)]
pub struct TerrainInfo {
    pub name: String,
    pub id: usize,
    pub defense: i32,
    pub capture: u32,
    pub sprite: Option<SpriteInfo>,
}

pub type Terrain = Rc<TerrainInfo>;

/// A unit kind's attack: base damage and per-defense-class modifiers, both
/// in hundredths, and how far it reaches.
#[derive(Clone, Debug)]
pub struct AttackInfo {
    pub damage: u32,
    pub range: RangeKind,
    pub modifiers: Vec<(String, u32)>,
}

/// A unit kind's defense value (hundredths) and its defense class.
#[derive(Clone, Debug)]
pub struct DefenseInfo {
    pub defense: i32,
    pub class: String,
}

/// A movement class: the cost of entering each kind of terrain, indexed by
/// the terrain's `id`.
#[derive(Clone, Debug)]
pub struct MovementClassInfo {
    pub name: String,
    pub costs: Vec<u32>,
}

pub type MovementClass = Rc<MovementClassInfo>;

/// A unit kind's movement budget per move and its movement class.
#[derive(Clone, Debug)]
pub struct MovementInfo {
    pub movement: u32,
    pub class: MovementClass,
}

/// An immutable unit kind, shared by every unit of that kind. `capture` is
/// the capture capacity; 0 means the kind cannot capture.
#[derive(Clone, Debug)]
pub struct RoleInfo {
    pub name: String,
    pub attack: AttackInfo,
    pub defense: DefenseInfo,
    pub movement: MovementInfo,
    pub capture: u32,
    pub sprite: SpriteInfo,
}

pub type Role = Rc<RoleInfo>;

} // verus!
