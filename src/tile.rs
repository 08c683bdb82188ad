use vstd::prelude::*;

use crate::faction::Faction;
use crate::info::Terrain;

verus! {

/// A grid tile: its terrain, the faction owning it, and the capture under
/// way on it (capturing faction, progress so far).
#[derive(Clone, Debug)]
pub struct Tile {
    pub terrain: Terrain,
    pub faction: Option<Faction>,
    pub capture: Option<(Faction, u32)>,
}

/// Progress that `faction` has on a tile whose capture state is `capture`:
/// what it accumulated so far, or nothing where another faction (or none)
/// was capturing.
pub open spec fn progress_of(capture: Option<(Faction, u32)>, faction: Faction) -> int {
    match capture {
        Some((f, v)) => if f == faction {
            v as int
        } else {
            0
        },
        None => 0,
    }
}

/// `a + b`, saturated at `u32::MAX`.
pub open spec fn saturating_sum(a: int, b: int) -> int {
    if a + b > u32::MAX {
        u32::MAX as int
    } else {
        a + b
    }
}

impl Tile {
    /// Whether the terrain of this tile can be captured at all.
    pub fn can_be_captured(&self) -> (r: bool)
        ensures
            r == (self.terrain.capture != 0),
    {
        self.terrain.capture != 0
    }

    /// Adds `amount` of capture progress for `faction`. Progress of another
    /// faction is dropped first. Once the progress reaches the terrain's
    /// threshold the tile passes to `faction`, the progress is cleared and
    /// `true` is returned.
    pub fn capture(&mut self, faction: Faction, amount: u32) -> (r: bool)
        ensures
            ({
                let total = saturating_sum(progress_of(old(self).capture, faction), amount as int);
                &&& final(self).terrain == old(self).terrain
                &&& r == (total >= old(self).terrain.capture)
                &&& r ==> final(self).faction == Some(faction) && final(self).capture is None
                &&& !r ==> final(self).faction == old(self).faction && final(self).capture == Some(
                    (faction, total as u32),
                )
            }),
    {
        let value = match self.capture {
            Some((prev_faction, prev_value)) => {
                if prev_faction == faction {
                    prev_value.saturating_add(amount)
                } else {
                    amount
                }
            },
            None => amount,
        };
        if value >= self.terrain.capture {
            self.faction = Some(faction);
            self.capture = None;
            true
        } else {
            self.capture = Some((faction, value));
            false
        }
    }
}

} // verus!
