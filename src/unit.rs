use vstd::prelude::*;

use crate::faction::Faction;
use crate::info::{Role, TerrainInfo};

verus! {

/// Health of a unit when it enters the match; damage only lowers it.
pub const MAX_HEALTH: u32 = 10;

/// A unit on the grid: its health, faction, whether it has acted this
/// turn, and its shared kind.
#[derive(Clone, Debug)]
pub struct Unit {
    pub health: u32,
    pub faction: Faction,
    pub spent: bool,
    pub kind: Role,
}

impl Unit {
    /// Health never exceeds that of a fresh unit.
    pub open spec fn wf(&self) -> bool {
        self.health <= MAX_HEALTH
    }

    /// A fresh unit of `kind` for `faction`, at full health and ready to act.
    pub fn new(kind: Role, faction: Faction) -> (r: Unit)
        ensures
            r.wf(),
            r.health == MAX_HEALTH,
            r.faction == faction,
            !r.spent,
            r.kind == kind,
    {
        Unit { health: MAX_HEALTH, faction, spent: false, kind }
    }

    /// Whether a spear thrust of this unit passes through `other`'s tile:
    /// only allies let it through.
    pub fn can_spear_through(&self, other: &Unit) -> (r: bool)
        ensures
            r == (self.faction == other.faction),
    {
        self.faction == other.faction
    }

    /// Whether this unit may move through `other`'s tile.
    pub fn can_move_through(&self, other: &Unit) -> (r: bool)
        ensures
            r == (self.faction == other.faction),
    {
        self.faction == other.faction
    }

    /// Whether this unit may attack `other`.
    pub fn can_attack(&self, other: &Unit) -> (r: bool)
        ensures
            r == (self.faction != other.faction),
    {
        self.faction != other.faction
    }

    /// Whether the unit's movement class gives a cost for `terrain`.
    pub open spec fn knows_terrain(&self, terrain: TerrainInfo) -> bool {
        terrain.id < self.kind.movement.class.costs.len()
    }

    pub open spec fn spec_terrain_cost(&self, terrain: TerrainInfo) -> u32 {
        self.kind.movement.class.costs@[terrain.id as int]
    }

    /// Cost for this unit of entering a tile of `terrain`.
    pub fn terrain_cost(&self, terrain: &TerrainInfo) -> (r: u32)
        requires
            self.knows_terrain(*terrain),
        ensures
            r == self.spec_terrain_cost(*terrain),
    {
        self.kind.movement.class.costs[terrain.id]
    }
}

} // verus!
