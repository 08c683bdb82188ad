use vstd::prelude::*;

use crate::info::TerrainInfo;
use crate::tile::Tile;
use crate::unit::Unit;

verus! {

/// Whether `(x, y)` names a tile of a grid of `size` (columns, rows).
pub open spec fn in_bounds(size: (u32, u32), x: int, y: int) -> bool {
    0 <= x < size.0 && 0 <= y < size.1
}

/// Manhattan distance between two tiles.
pub open spec fn manhattan(a: (u32, u32), b: (u32, u32)) -> int {
    let dx = a.0 - b.0;
    let dy = a.1 - b.1;
    (if dx < 0 { -dx } else { dx }) + (if dy < 0 { -dy } else { dy })
}

/// Whether two tiles are orthogonal neighbours.
pub open spec fn adjacent(a: (u32, u32), b: (u32, u32)) -> bool {
    manhattan(a, b) == 1
}

/// The tile at offset `(dx, dy)` from `pos`, if it lies on the grid.
pub fn offset_tile(size: (u32, u32), pos: (u32, u32), dx: i64, dy: i64) -> (r: Option<(u32, u32)>)
    requires
        -0x1_0000_0000 <= dx <= 0x1_0000_0000,
        -0x1_0000_0000 <= dy <= 0x1_0000_0000,
    ensures
        r == (if in_bounds(size, pos.0 + dx, pos.1 + dy) {
            Some(((pos.0 + dx) as u32, (pos.1 + dy) as u32))
        } else {
            None::<(u32, u32)>
        }),
{
    let x = pos.0 as i64 + dx;
    let y = pos.1 as i64 + dy;
    if 0 <= x && x < size.0 as i64 && 0 <= y && y < size.1 as i64 {
        Some((x as u32, y as u32))
    } else {
        None
    }
}

/// Whether the borrowed `r` shows exactly what `o` holds.
pub open spec fn refers_to<T>(r: Option<&T>, o: Option<T>) -> bool {
    match r {
        Some(x) => o == Some(*x),
        None => o is None,
    }
}

/// Position in row-major storage of tile `p` of a grid of `size`.
pub open spec fn tile_index(size: (u32, u32), p: (u32, u32)) -> int {
    p.1 * size.0 + p.0
}

pub(crate) proof fn lemma_tile_index(size: (u32, u32), p: (u32, u32))
    requires
        in_bounds(size, p.0 as int, p.1 as int),
    ensures
        0 <= tile_index(size, p) < size.0 * size.1,
{
    assert(p.1 * size.0 + p.0 < size.0 * size.1) by (nonlinear_arith)
        requires
            p.1 < size.1,
            p.0 < size.0,
    ;
    assert(0 <= p.1 * size.0) by (nonlinear_arith);
}

pub(crate) proof fn lemma_tile_index_injective(size: (u32, u32), p: (u32, u32), q: (u32, u32))
    requires
        in_bounds(size, p.0 as int, p.1 as int),
        in_bounds(size, q.0 as int, q.1 as int),
        tile_index(size, p) == tile_index(size, q),
    ensures
        p == q,
{
    let w = size.0 as int;
    if p.1 < q.1 {
        assert(p.1 * w + w <= q.1 * w) by (nonlinear_arith)
            requires
                p.1 < q.1,
                w >= 0,
        ;
    } else if q.1 < p.1 {
        assert(q.1 * w + w <= p.1 * w) by (nonlinear_arith)
            requires
                q.1 < p.1,
                w >= 0,
        ;
    }
}

/// The playing field: a fixed-size rectangle of tiles stored row by row,
/// each holding terrain, ownership and at most one unit.
pub struct Grid {
    size: (u32, u32),
    units: Vec<Option<Unit>>,
    tiles: Vec<Tile>,
}

impl Grid {
    pub closed spec fn spec_size(&self) -> (u32, u32) {
        self.size
    }

    /// Storage matches the size.
    pub closed spec fn wf(&self) -> bool {
        &&& self.units.len() == self.size.0 * self.size.1
        &&& self.tiles.len() == self.size.0 * self.size.1
    }

    /// Whether `p` lies on the grid.
    pub open spec fn contains(&self, p: (u32, u32)) -> bool {
        in_bounds(self.spec_size(), p.0 as int, p.1 as int)
    }

    /// The unit standing on `p`; none off the grid.
    pub closed spec fn unit_at(&self, p: (u32, u32)) -> Option<Unit> {
        if self.contains(p) {
            self.units@[tile_index(self.size, p)]
        } else {
            None
        }
    }

    /// The tile at `p`, for `p` on the grid.
    pub closed spec fn tile_at(&self, p: (u32, u32)) -> Tile {
        self.tiles@[tile_index(self.size, p)]
    }

    /// A grid of `size` with the given tiles, row by row from the bottom
    /// left, and no unit.
    pub fn new(size: (u32, u32), tiles: Vec<Tile>) -> (r: Grid)
        requires
            tiles.len() == size.0 * size.1,
        ensures
            r.wf(),
            r.spec_size() == size,
            forall|p: (u32, u32)|
                #![trigger r.tile_at(p)]
                r.contains(p) ==> 0 <= tile_index(size, p) < tiles.len() && r.tile_at(p)
                    == tiles@[tile_index(size, p)],
            forall|p: (u32, u32)| r.unit_at(p) is None,
    {
        let count = tiles.len();
        let mut units: Vec<Option<Unit>> = Vec::new();
        let mut i: usize = 0;
        while i < count
            invariant
                i <= count,
                units.len() == i,
                forall|j: int| 0 <= j < i ==> units@[j] is None,
            decreases count - i,
        {
            units.push(None);
            i = i + 1;
        }
        let r = Grid { size, units, tiles };
        proof {
            assert forall|p: (u32, u32)| r.contains(p) implies 0 <= tile_index(size, p)
                < tiles.len() by {
                lemma_tile_index(size, p);
            }
            assert forall|p: (u32, u32)| r.unit_at(p) is None by {
                if r.contains(p) {
                    lemma_tile_index(size, p);
                }
            }
        }
        r
    }

    /// Number of columns and rows.
    pub fn size(&self) -> (r: (u32, u32))
        ensures
            r == self.spec_size(),
    {
        self.size
    }

    /// Number of tiles.
    pub fn tile_count(&self) -> (r: usize)
        requires
            self.wf(),
        ensures
            r == self.spec_size().0 * self.spec_size().1,
    {
        self.tiles.len()
    }

    pub(crate) fn index(&self, pos: (u32, u32)) -> (r: usize)
        requires
            self.wf(),
            self.contains(pos),
        ensures
            r == tile_index(self.spec_size(), pos),
            r < self.spec_size().0 * self.spec_size().1,
    {
        proof {
            lemma_tile_index(self.size, pos);
        }
        pos.1 as usize * self.size.0 as usize + pos.0 as usize
    }

    /// The unit and the tile at `pos`.
    pub fn tile(&self, pos: (u32, u32)) -> (r: (Option<&Unit>, &Tile))
        requires
            self.wf(),
            self.contains(pos),
        ensures
            refers_to(r.0, self.unit_at(pos)),
            *r.1 == self.tile_at(pos),
    {
        let i = self.index(pos);
        (self.units[i].as_ref(), &self.tiles[i])
    }

    /// The terrain at `pos`.
    pub fn terrain(&self, pos: (u32, u32)) -> (r: &TerrainInfo)
        requires
            self.wf(),
            self.contains(pos),
        ensures
            *r == *self.tile_at(pos).terrain,
    {
        let i = self.index(pos);
        &self.tiles[i].terrain
    }

    /// The unit at `pos`, if any.
    pub fn unit(&self, pos: (u32, u32)) -> (r: Option<&Unit>)
        requires
            self.wf(),
            self.contains(pos),
        ensures
            refers_to(r, self.unit_at(pos)),
    {
        let i = self.index(pos);
        self.units[i].as_ref()
    }

    /// Places `unit` on the empty tile `pos`.
    pub fn add_unit(&mut self, unit: Unit, pos: (u32, u32))
        requires
            old(self).wf(),
            old(self).contains(pos),
            old(self).unit_at(pos) is None,
        ensures
            final(self).wf(),
            final(self).spec_size() == old(self).spec_size(),
            final(self).unit_at(pos) == Some(unit),
            forall|p: (u32, u32)| p != pos ==> final(self).unit_at(p) == old(self).unit_at(p),
            forall|p: (u32, u32)| final(self).tile_at(p) == old(self).tile_at(p),
    {
        let i = self.index(pos);
        self.units.set(i, Some(unit));
        proof {
            assert forall|p: (u32, u32)| p != pos implies self.unit_at(p) == old(self).unit_at(p) by {
                if self.contains(p) {
                    lemma_tile_index(self.size, p);
                    if tile_index(self.size, p) == i {
                        lemma_tile_index_injective(self.size, p, pos);
                    }
                }
            }
        }
    }

    /// Takes the unit off the tile `pos`.
    pub fn remove_unit(&mut self, pos: (u32, u32)) -> (r: Unit)
        requires
            old(self).wf(),
            old(self).contains(pos),
            old(self).unit_at(pos) is Some,
        ensures
            final(self).wf(),
            final(self).spec_size() == old(self).spec_size(),
            Some(r) == old(self).unit_at(pos),
            final(self).unit_at(pos) is None,
            forall|p: (u32, u32)| p != pos ==> final(self).unit_at(p) == old(self).unit_at(p),
            forall|p: (u32, u32)| final(self).tile_at(p) == old(self).tile_at(p),
    {
        let i = self.index(pos);
        let r = self.units[i].take();
        proof {
            assert forall|p: (u32, u32)| p != pos implies self.unit_at(p) == old(self).unit_at(p) by {
                if self.contains(p) {
                    lemma_tile_index(self.size, p);
                    if tile_index(self.size, p) == i {
                        lemma_tile_index_injective(self.size, p, pos);
                    }
                }
            }
        }
        r.unwrap()
    }

    /// Moves whatever stands on `from` to `to`, which must be empty unless
    /// it is `from` itself.
    pub fn move_unit(&mut self, from: (u32, u32), to: (u32, u32))
        requires
            old(self).wf(),
            old(self).contains(from),
            old(self).contains(to),
            from == to || old(self).unit_at(to) is None,
        ensures
            final(self).wf(),
            final(self).spec_size() == old(self).spec_size(),
            final(self).unit_at(to) == old(self).unit_at(from),
            from != to ==> final(self).unit_at(from) is None,
            forall|p: (u32, u32)|
                p != from && p != to ==> final(self).unit_at(p) == old(self).unit_at(p),
            forall|p: (u32, u32)| final(self).tile_at(p) == old(self).tile_at(p),
    {
        let i = self.index(from);
        let j = self.index(to);
        let unit = self.units[i].take();
        self.units.set(j, unit);
        proof {
            assert forall|p: (u32, u32)|
                p != from && p != to implies self.unit_at(p) == old(self).unit_at(p) by {
                if self.contains(p) {
                    lemma_tile_index(self.size, p);
                }
                if self.contains(p) && tile_index(self.size, p) == i {
                    lemma_tile_index_injective(self.size, p, from);
                }
                if self.contains(p) && tile_index(self.size, p) == j {
                    lemma_tile_index_injective(self.size, p, to);
                }
            }
            if from != to {
                if tile_index(self.size, from) == j {
                    lemma_tile_index_injective(self.size, from, to);
                }
            }
        }
    }

    /// Whether some tile holds a unit of `faction`.
    pub open spec fn has_unit_of(&self, faction: crate::faction::Faction) -> bool {
        exists|p: (u32, u32)| #[trigger] self.unit_at(p) is Some && self.unit_at(p)->0.faction == faction
    }

    /// Whether some tile holds a unit of `faction`.
    pub fn has_units_of(&self, faction: crate::faction::Faction) -> (r: bool)
        requires
            self.wf(),
        ensures
            r == self.has_unit_of(faction),
    {
        let n = self.units.len();
        let w = self.size.0;
        let mut i: usize = 0;
        while i < n
            invariant
                self.wf(),
                n == self.units.len(),
                w == self.size.0,
                i <= n,
                forall|j: int| 0 <= j < i ==> !(#[trigger] self.units@[j] matches Some(u) && u.faction == faction),
            decreases n - i,
        {
            if let Some(u) = &self.units[i] {
                if u.faction == faction {
                    proof {
                        let x = (i as int) % (w as int);
                        let y = (i as int) / (w as int);
                        assert(w > 0) by (nonlinear_arith)
                            requires
                                i < n,
                                n == w * self.size.1,
                        ;
                        vstd::arithmetic::div_mod::lemma_fundamental_div_mod(i as int, w as int);
                        assert(0 <= x < w);
                        assert(0 <= y);
                        assert(y < self.size.1) by (nonlinear_arith)
                            requires
                                i == w * y + x,
                                0 <= x,
                                i < w * self.size.1,
                                w > 0,
                        ;
                        let p = (x as u32, y as u32);
                        assert(p.0 == x && p.1 == y);
                        assert(p.1 * w + p.0 == i) by (nonlinear_arith)
                            requires
                                i == w * y + x,
                                p.0 == x,
                                p.1 == y,
                        ;
                        assert(tile_index(self.size, p) == i);
                        assert(self.unit_at(p) is Some);
                    }
                    return true;
                }
            }
            i = i + 1;
        }
        proof {
            assert forall|p: (u32, u32)| !(#[trigger] self.unit_at(p) is Some && self.unit_at(p)->0.faction == faction) by {
                if self.contains(p) {
                    lemma_tile_index(self.size, p);
                }
            }
        }
        false
    }

    /// Marks the unit on `pos` as having acted this turn.
    pub fn set_spent(&mut self, pos: (u32, u32))
        requires
            old(self).wf(),
            old(self).contains(pos),
            old(self).unit_at(pos) is Some,
        ensures
            final(self).wf(),
            final(self).spec_size() == old(self).spec_size(),
            final(self).unit_at(pos) == Some(Unit { spent: true, ..old(self).unit_at(pos)->0 }),
            forall|p: (u32, u32)| p != pos ==> final(self).unit_at(p) == old(self).unit_at(p),
            forall|p: (u32, u32)| final(self).tile_at(p) == old(self).tile_at(p),
    {
        let mut u = self.remove_unit(pos);
        u.spent = true;
        self.add_unit(u, pos);
    }

    /// Readies every unit of the grid to act again.
    pub fn refresh_units(&mut self)
        requires
            old(self).wf(),
        ensures
            final(self).wf(),
            final(self).spec_size() == old(self).spec_size(),
            forall|p: (u32, u32)|
                final(self).unit_at(p) == match old(self).unit_at(p) {
                    Some(u) => Some(Unit { spent: false, ..u }),
                    None => None,
                },
            forall|p: (u32, u32)| final(self).tile_at(p) == old(self).tile_at(p),
    {
        let n = self.units.len();
        let ghost start = self.units@;
        let mut i: usize = 0;
        while i < n
            invariant
                n == self.units.len(),
                self.size == old(self).size,
                self.tiles == old(self).tiles,
                start == old(self).units@,
                i <= n,
                forall|j: int|
                    0 <= j < n ==> #[trigger] self.units@[j] == if j < i {
                        match start[j] {
                            Some(u) => Some(Unit { spent: false, ..u }),
                            None => None,
                        }
                    } else {
                        start[j]
                    },
            decreases n - i,
        {
            if let Some(u) = self.units[i].take() {
                let mut u = u;
                u.spent = false;
                self.units.set(i, Some(u));
            }
            i = i + 1;
        }
        proof {
            assert forall|p: (u32, u32)|
                self.unit_at(p) == match old(self).unit_at(p) {
                    Some(u) => Some(Unit { spent: false, ..u }),
                    None => None,
                } by {
                if self.contains(p) {
                    lemma_tile_index(self.size, p);
                }
            }
        }
    }

    /// Adds `amount` of capture progress for `faction` to the tile at `pos`,
    /// as `Tile::capture` does; true when the tile changed hands.
    pub fn capture_tile(&mut self, pos: (u32, u32), faction: crate::faction::Faction, amount: u32) -> (r: bool)
        requires
            old(self).wf(),
            old(self).contains(pos),
        ensures
            final(self).wf(),
            final(self).spec_size() == old(self).spec_size(),
            forall|p: (u32, u32)| final(self).unit_at(p) == old(self).unit_at(p),
            forall|p: (u32, u32)|
                final(self).contains(p) && p != pos ==> final(self).tile_at(p) == old(self).tile_at(p),
            ({
                let before = old(self).tile_at(pos);
                let after = final(self).tile_at(pos);
                let total = crate::tile::saturating_sum(
                    crate::tile::progress_of(before.capture, faction),
                    amount as int,
                );
                &&& after.terrain == before.terrain
                &&& r == (total >= before.terrain.capture)
                &&& r ==> after.faction == Some(faction) && after.capture is None
                &&& !r ==> after.faction == before.faction && after.capture == Some(
                    (faction, total as u32),
                )
            }),
    {
        let i = self.index(pos);
        let r = self.tiles[i].capture(faction, amount);
        proof {
            assert forall|p: (u32, u32)|
                self.contains(p) && p != pos implies self.tile_at(p) == old(self).tile_at(p) by {
                lemma_tile_index(self.size, p);
                if tile_index(self.size, p) == i {
                    lemma_tile_index_injective(self.size, p, pos);
                }
            }
        }
        r
    }
}

} // verus!
