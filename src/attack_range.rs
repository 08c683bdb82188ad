use vstd::prelude::*;

use crate::grid::{adjacent, in_bounds, manhattan, offset_tile, refers_to, Grid};
use crate::unit::Unit;

verus! {

/// The one-element sequence of what `o` holds, or the empty one.
pub open spec fn opt_seq<T>(o: Option<T>) -> Seq<T> {
    match o {
        Some(t) => seq![t],
        None => Seq::empty(),
    }
}

proof fn lemma_concat_contains<T>(a: Seq<T>, b: Seq<T>, x: T)
    ensures
        (a + b).contains(x) <==> a.contains(x) || b.contains(x),
{
    if (a + b).contains(x) {
        let i = choose|i: int| 0 <= i < (a + b).len() && (a + b)[i] == x;
        if i < a.len() {
            assert(a[i] == x);
        } else {
            assert(b[i - a.len()] == x);
        }
    }
    if a.contains(x) {
        let i = choose|i: int| 0 <= i < a.len() && a[i] == x;
        assert((a + b)[i] == x);
    }
    if b.contains(x) {
        let i = choose|i: int| 0 <= i < b.len() && b[i] == x;
        assert((a + b)[a.len() + i] == x);
    }
}

proof fn lemma_opt_seq_contains<T>(o: Option<T>, x: T)
    ensures
        opt_seq(o).contains(x) <==> o == Some(x),
{
    if o == Some(x) {
        assert(opt_seq(o)[0] == x);
    }
}

pub(crate) proof fn lemma_push_contains<T>(s: Seq<T>, x: T, y: T)
    ensures
        s.push(x).contains(y) <==> s.contains(y) || y == x,
{
    if s.push(x).contains(y) {
        let j = choose|j: int| 0 <= j < s.push(x).len() && s.push(x)[j] == y;
        if j < s.len() {
            assert(s[j] == y);
        }
    }
    if s.contains(y) {
        let j = choose|j: int| 0 <= j < s.len() && s[j] == y;
        assert(s.push(x)[j] == y);
    }
    if y == x {
        assert(s.push(x)[s.len() as int] == y);
    }
}

fn push_some(v: &mut Vec<(u32, u32)>, o: Option<(u32, u32)>)
    ensures
        final(v)@ == old(v)@ + opt_seq(o),
{
    if let Some(t) = o {
        v.push(t);
    }
    assert(v@ =~= old(v)@ + opt_seq(o));
}

/// Offset from the centre of the `t`-th tile of side `s` of the ring of
/// tiles at distance `d`. The walk starts due north and turns clockwise:
/// north to east, east to south, south to west, west back to north.
pub open spec fn ring_offset(d: int, s: int, t: int) -> (int, int) {
    if s == 0 {
        (t, d - t)
    } else if s == 1 {
        (d - t, -t)
    } else if s == 2 {
        (-t, -(d - t))
    } else {
        (-(d - t), t)
    }
}

/// The side of the ring walk on which offset `(dx, dy)` lies.
pub open spec fn ring_side(dx: int, dy: int) -> int {
    if dx >= 0 && dy > 0 {
        0
    } else if dx > 0 && dy <= 0 {
        1
    } else if dx <= 0 && dy < 0 {
        2
    } else {
        3
    }
}

/// How many steps along its side the ring walk takes to reach `(dx, dy)`.
pub open spec fn ring_step(dx: int, dy: int) -> int {
    let s = ring_side(dx, dy);
    if s == 0 {
        dx
    } else if s == 1 {
        -dy
    } else if s == 2 {
        -dx
    } else {
        dy
    }
}

/// Whether the walk of ring `d` has passed tile `t` once it is at step
/// `i` of side `s`.
pub open spec fn ring_walked(pos: (u32, u32), t: (u32, u32), d: int, s: int, i: int) -> bool {
    let dx = t.0 - pos.0;
    let dy = t.1 - pos.1;
    manhattan(t, pos) == d && (ring_side(dx, dy) < s || (ring_side(dx, dy) == s
        && ring_step(dx, dy) < i))
}

proof fn lemma_ring_offset(d: int, s: int, i: int)
    requires
        d >= 1,
        0 <= s < 4,
        0 <= i < d,
    ensures
        ({
            let (dx, dy) = ring_offset(d, s, i);
            &&& ring_side(dx, dy) == s
            &&& ring_step(dx, dy) == i
            &&& (if dx < 0 { -dx } else { dx }) + (if dy < 0 { -dy } else { dy }) == d
        }),
{
}

proof fn lemma_ring_inverse(dx: int, dy: int)
    requires
        (if dx < 0 { -dx } else { dx }) + (if dy < 0 { -dy } else { dy }) >= 1,
    ensures
        ring_offset(
            (if dx < 0 { -dx } else { dx }) + (if dy < 0 { -dy } else { dy }),
            ring_side(dx, dy),
            ring_step(dx, dy),
        ) == (dx, dy),
{
}

proof fn lemma_ring_step_bound(dx: int, dy: int)
    requires
        (if dx < 0 { -dx } else { dx }) + (if dy < 0 { -dy } else { dy }) >= 1,
    ensures
        0 <= ring_step(dx, dy) < (if dx < 0 { -dx } else { dx }) + (if dy < 0 { -dy } else { dy }),
{
}

/// The tile `k` steps from `pos` along ray `d`: north, east, south, west
/// for `d` from 0 to 3.
pub open spec fn ray_point(pos: (u32, u32), d: int, k: int) -> (int, int) {
    if d == 0 {
        (pos.0 as int, pos.1 + k)
    } else if d == 1 {
        (pos.0 + k, pos.1 as int)
    } else if d == 2 {
        (pos.0 as int, pos.1 - k)
    } else {
        (pos.0 - k, pos.1 as int)
    }
}

/// The ray from `pos` on which `t` lies and how many steps out, or `None`
/// when `t` is `pos` itself or on no ray.
pub open spec fn ray_of(pos: (u32, u32), t: (u32, u32)) -> Option<(int, int)> {
    let dx = t.0 - pos.0;
    let dy = t.1 - pos.1;
    if dx == 0 && dy > 0 {
        Some((0, dy))
    } else if dx > 0 && dy == 0 {
        Some((1, dx))
    } else if dx == 0 && dy < 0 {
        Some((2, -dy))
    } else if dx < 0 && dy == 0 {
        Some((3, -dx))
    } else {
        None
    }
}

/// The ray on which `t` lies, 4 where it lies on none.
pub open spec fn ray_dir(pos: (u32, u32), t: (u32, u32)) -> int {
    match ray_of(pos, t) {
        Some((d, _)) => d,
        None => 4,
    }
}

/// How many steps out along its ray `t` lies.
pub open spec fn ray_steps(pos: (u32, u32), t: (u32, u32)) -> int {
    match ray_of(pos, t) {
        Some((_, k)) => k,
        None => 0,
    }
}

/// Whether a unit on `(x, y)` stops a spear thrust of `unit`.
pub open spec fn blocks_spear(grid: &Grid, unit: &Unit, x: int, y: int) -> bool {
    &&& in_bounds(grid.spec_size(), x, y)
    &&& grid.unit_at((x as u32, y as u32)) is Some
    &&& grid.unit_at((x as u32, y as u32))->0.faction != unit.faction
}

/// Whether a thrust along ray `d` reaches its `k`-th tile: the tile is on
/// the grid and no unit that stops the thrust stands before it.
pub open spec fn ray_reaches(grid: &Grid, unit: &Unit, pos: (u32, u32), d: int, k: int) -> bool {
    &&& in_bounds(grid.spec_size(), ray_point(pos, d, k).0, ray_point(pos, d, k).1)
    &&& forall|j: int|
        1 <= j < k ==> !#[trigger] blocks_spear(
            grid,
            unit,
            ray_point(pos, d, j).0,
            ray_point(pos, d, j).1,
        )
}

/// Whether a spear of reach `range` held by `unit` at `pos` reaches `t`.
pub open spec fn spear_reaches(
    grid: &Grid,
    unit: &Unit,
    pos: (u32, u32),
    range: u32,
    t: (u32, u32),
) -> bool {
    match ray_of(pos, t) {
        Some((d, k)) => 1 <= k <= range && ray_reaches(grid, unit, pos, d, k),
        None => false,
    }
}

/// The tiles a unit could target from a position, before occupancy is
/// taken into account, handed out one by one.
pub struct AttackRange {
    tiles: Vec<(u32, u32)>,
    next: usize,
}

impl View for AttackRange {
    type V = Seq<(u32, u32)>;

    /// The tiles not yet handed out, in order.
    closed spec fn view(&self) -> Seq<(u32, u32)> {
        self.tiles@.skip(self.next as int)
    }
}

impl AttackRange {
    pub closed spec fn wf(&self) -> bool {
        self.next <= self.tiles.len()
    }

    fn from_tiles(tiles: Vec<(u32, u32)>) -> (r: AttackRange)
        ensures
            r.wf(),
            r@ == tiles@,
    {
        let r = AttackRange { tiles, next: 0 };
        assert(r@ =~= tiles@);
        r
    }

    /// A range holding no tile.
    pub fn empty() -> (r: AttackRange)
        ensures
            r.wf(),
            r@ == Seq::<(u32, u32)>::empty(),
    {
        AttackRange::from_tiles(Vec::new())
    }

    /// The orthogonal neighbours of `pos` that lie on the grid.
    pub fn melee(grid: &Grid, pos: (u32, u32)) -> (r: AttackRange)
        ensures
            r.wf(),
            r@.no_duplicates(),
            forall|t: (u32, u32)|
                #[trigger] r@.contains(t) <==> in_bounds(grid.spec_size(), t.0 as int, t.1 as int)
                    && adjacent(t, pos),
    {
        let size = grid.size();
        let mut tiles: Vec<(u32, u32)> = Vec::new();
        let north = offset_tile(size, pos, 0, 1);
        let east = offset_tile(size, pos, 1, 0);
        let south = offset_tile(size, pos, 0, -1);
        let west = offset_tile(size, pos, -1, 0);
        push_some(&mut tiles, north);
        push_some(&mut tiles, east);
        push_some(&mut tiles, south);
        push_some(&mut tiles, west);
        assert(tiles@ =~= opt_seq(north) + opt_seq(east) + opt_seq(south) + opt_seq(west));
        assert forall|t: (u32, u32)|
            tiles@.contains(t) <==> in_bounds(size, t.0 as int, t.1 as int) && adjacent(t, pos) by {
            lemma_concat_contains(opt_seq(north) + opt_seq(east) + opt_seq(south), opt_seq(west), t);
            lemma_concat_contains(opt_seq(north) + opt_seq(east), opt_seq(south), t);
            lemma_concat_contains(opt_seq(north), opt_seq(east), t);
            lemma_opt_seq_contains(north, t);
            lemma_opt_seq_contains(east, t);
            lemma_opt_seq_contains(south, t);
            lemma_opt_seq_contains(west, t);
            if in_bounds(size, t.0 as int, t.1 as int) && adjacent(t, pos) {
                if t.1 > pos.1 {
                    assert(north == Some(t));
                } else if t.0 > pos.0 {
                    assert(east == Some(t));
                } else if t.1 < pos.1 {
                    assert(south == Some(t));
                } else {
                    assert(west == Some(t));
                }
            }
        }
        assert(tiles@.no_duplicates());
        AttackRange::from_tiles(tiles)
    }

    /// The tiles on the grid whose Manhattan distance from `pos` lies
    /// between `min` and `max`, walked ring by ring from the outermost
    /// inward.
    pub fn ranged(grid: &Grid, pos: (u32, u32), min: u32, max: u32) -> (r: AttackRange)
        ensures
            r.wf(),
            r@.no_duplicates(),
            forall|t: (u32, u32)|
                #[trigger] r@.contains(t) <==> in_bounds(grid.spec_size(), t.0 as int, t.1 as int)
                    && min <= manhattan(t, pos) <= max,
    {
        let size = grid.size();
        let mut tiles: Vec<(u32, u32)> = Vec::new();
        let mut d: u64 = max as u64 + 1;
        while d > min as u64 && d > 1
            invariant
                1 <= d <= max as u64 + 1,
                d >= min as u64 || d == max as u64 + 1,
                tiles@.no_duplicates(),
                forall|t: (u32, u32)|
                    tiles@.contains(t) <==> in_bounds(size, t.0 as int, t.1 as int) && d
                        <= manhattan(t, pos) <= max,
            decreases d,
        {
            d = d - 1;
            walk_ring(size, pos, d, &mut tiles);
            assert forall|t: (u32, u32)|
                tiles@.contains(t) <==> in_bounds(size, t.0 as int, t.1 as int) && d
                    <= manhattan(t, pos) <= max by {
                if manhattan(t, pos) == d {
                    lemma_ring_step_bound(t.0 - pos.0, t.1 - pos.1);
                }
            }
        }
        if min == 0 {
            let centre = offset_tile(size, pos, 0, 0);
            let ghost before = tiles@;
            assert(d == 1);
            if let Some(t) = centre {
                assert(!tiles@.contains(t));
                tiles.push(t);
            }
            assert forall|t: (u32, u32)|
                tiles@.contains(t) <==> in_bounds(size, t.0 as int, t.1 as int) && min
                    <= manhattan(t, pos) <= max by {
                if centre is Some {
                    lemma_push_contains(before, centre->0, t);
                }
                if manhattan(t, pos) == 0 {
                    assert(t == pos);
                }
            }
        }
        AttackRange::from_tiles(tiles)
    }

    /// The tiles along the four rays from `pos`, up to `range` steps out;
    /// each ray ends at the grid's edge or at the first unit that `unit`
    /// cannot thrust through, which is itself part of the range.
    pub fn spear(grid: &Grid, unit: &Unit, pos: (u32, u32), range: u32) -> (r: AttackRange)
        requires
            grid.wf(),
            grid.contains(pos),
        ensures
            r.wf(),
            r@.no_duplicates(),
            forall|t: (u32, u32)| #[trigger] r@.contains(t) <==> spear_reaches(grid, unit, pos, range, t),
    {
        let mut tiles: Vec<(u32, u32)> = Vec::new();
        walk_ray(grid, unit, pos, range, 0, 0, 1, &mut tiles);
        let ghost t0 = tiles@;
        walk_ray(grid, unit, pos, range, 1, 1, 0, &mut tiles);
        let ghost t1 = tiles@;
        walk_ray(grid, unit, pos, range, 2, 0, -1, &mut tiles);
        let ghost t2 = tiles@;
        walk_ray(grid, unit, pos, range, 3, -1, 0, &mut tiles);
        assert forall|t: (u32, u32)|
            tiles@.contains(t) <==> spear_reaches(grid, unit, pos, range, t) by {
            if spear_reaches(grid, unit, pos, range, t) {
                let d = ray_dir(pos, t);
                if d == 0 {
                    assert(t0.contains(t));
                    assert(t1.contains(t));
                    assert(t2.contains(t));
                } else if d == 1 {
                    assert(t1.contains(t));
                    assert(t2.contains(t));
                } else if d == 2 {
                    assert(t2.contains(t));
                }
            }
            if tiles@.contains(t) {
                if !t2.contains(t) {
                } else if !t1.contains(t) {
                } else if !t0.contains(t) {
                } else {
                }
            }
        }
        AttackRange::from_tiles(tiles)
    }

    /// How many tiles are left to hand out.
    pub fn remaining(&self) -> (r: usize)
        requires
            self.wf(),
        ensures
            r == self@.len(),
    {
        self.tiles.len() - self.next
    }

    /// Whether `t` is among the tiles not yet handed out.
    pub fn includes(&self, t: (u32, u32)) -> (r: bool)
        requires
            self.wf(),
        ensures
            r == self@.contains(t),
    {
        let mut j: usize = self.next;
        while j < self.tiles.len()
            invariant
                self.next <= j <= self.tiles.len(),
                forall|m: int| self.next <= m < j ==> self.tiles@[m] != t,
            decreases self.tiles.len() - j,
        {
            let c = self.tiles[j];
            if c.0 == t.0 && c.1 == t.1 {
                assert(self@[j - self.next] == t);
                return true;
            }
            j = j + 1;
        }
        proof {
            if self@.contains(t) {
                let m = choose|m: int| 0 <= m < self@.len() && self@[m] == t;
                assert(self.tiles@[self.next + m] == t);
            }
        }
        false
    }

    /// Hands out the next tile of the range.
    pub fn next(&mut self) -> (r: Option<(u32, u32)>)
        requires
            old(self).wf(),
        ensures
            final(self).wf(),
            old(self)@.len() == 0 ==> r is None && final(self)@ == old(self)@,
            old(self)@.len() > 0 ==> r == Some(old(self)@[0]) && final(self)@ == old(self)@.drop_first(),
    {
        if self.next < self.tiles.len() {
            let t = self.tiles[self.next];
            self.next = self.next + 1;
            assert(self@ =~= old(self)@.drop_first());
            Some(t)
        } else {
            None
        }
    }
}


/// Appends the tiles of the ring at distance `d` around `pos` that lie on
/// the grid.
fn walk_ring(size: (u32, u32), pos: (u32, u32), d: u64, tiles: &mut Vec<(u32, u32)>)
    requires
        1 <= d <= 0xffff_ffff,
        old(tiles)@.no_duplicates(),
        forall|t: (u32, u32)| #[trigger] old(tiles)@.contains(t) ==> manhattan(t, pos) > d,
    ensures
        final(tiles)@.no_duplicates(),
        forall|t: (u32, u32)|
            final(tiles)@.contains(t) <==> old(tiles)@.contains(t) || (in_bounds(
                size,
                t.0 as int,
                t.1 as int,
            ) && ring_walked(pos, t, d as int, 4, 0)),
{
    let ghost start = tiles@;
    let mut s: u64 = 0;
    while s < 4
        invariant
            s <= 4,
            1 <= d <= 0xffff_ffff,
            tiles@.no_duplicates(),
            forall|t: (u32, u32)| #[trigger] start.contains(t) ==> manhattan(t, pos) > d,
            forall|t: (u32, u32)|
                tiles@.contains(t) <==> start.contains(t) || (in_bounds(
                    size,
                    t.0 as int,
                    t.1 as int,
                ) && ring_walked(pos, t, d as int, s as int, 0)),
        decreases 4 - s,
    {
        let mut i: u64 = 0;
        while i < d
            invariant
                s < 4,
                i <= d,
                1 <= d <= 0xffff_ffff,
                tiles@.no_duplicates(),
                forall|t: (u32, u32)| #[trigger] start.contains(t) ==> manhattan(t, pos) > d,
                forall|t: (u32, u32)|
                    tiles@.contains(t) <==> start.contains(t) || (in_bounds(
                        size,
                        t.0 as int,
                        t.1 as int,
                    ) && (ring_walked(pos, t, d as int, s as int, 0) || ring_walked(
                        pos,
                        t,
                        d as int,
                        s as int,
                        i as int,
                    ))),
            decreases d - i,
        {
            let (dx, dy): (i64, i64) = if s == 0 {
                (i as i64, (d - i) as i64)
            } else if s == 1 {
                ((d - i) as i64, -(i as i64))
            } else if s == 2 {
                (-(i as i64), -((d - i) as i64))
            } else {
                (-((d - i) as i64), i as i64)
            };
            proof {
                lemma_ring_offset(d as int, s as int, i as int);
                assert((dx as int, dy as int) == ring_offset(d as int, s as int, i as int));
            }
            let next = offset_tile(size, pos, dx, dy);
            let ghost before = tiles@;
            if let Some(t) = next {
                proof {
                    let ox = t.0 - pos.0;
                    let oy = t.1 - pos.1;
                    assert(ox == dx && oy == dy);
                    assert(ring_side(ox, oy) == s && ring_step(ox, oy) == i);
                    assert(manhattan(t, pos) == d);
                    if tiles@.contains(t) {
                        assert(start.contains(t) ==> manhattan(t, pos) > d);
                        assert(false);
                    }
                }
                tiles.push(t);
                assert forall|u: (u32, u32)|
                    tiles@.contains(u) <==> before.contains(u) || u == t by {
                    lemma_push_contains(before, t, u);
                }
            }
            assert forall|u: (u32, u32)|
                tiles@.contains(u) <==> before.contains(u) || (in_bounds(
                    size,
                    u.0 as int,
                    u.1 as int,
                ) && u.0 - pos.0 == dx && u.1 - pos.1 == dy) by {
                if in_bounds(size, u.0 as int, u.1 as int) && u.0 - pos.0 == dx && u.1 - pos.1
                    == dy {
                    assert(next == Some(u));
                }
            }
            assert forall|u: (u32, u32)|
                ring_walked(pos, u, d as int, s as int, i + 1) <==> ring_walked(
                    pos,
                    u,
                    d as int,
                    s as int,
                    i as int,
                ) || (u.0 - pos.0 == dx && u.1 - pos.1 == dy) by {
                if manhattan(u, pos) == d {
                    lemma_ring_inverse(u.0 - pos.0, u.1 - pos.1);
                }
            }
            i = i + 1;
        }
        assert forall|t: (u32, u32)|
            ring_walked(pos, t, d as int, s as int, 0) || ring_walked(pos, t, d as int, s as int, d as int)
            <==> ring_walked(pos, t, d as int, s as int + 1, 0) by {
            if manhattan(t, pos) == d {
                lemma_ring_step_bound(t.0 - pos.0, t.1 - pos.1);
            }
        }
        s = s + 1;
    }
}


/// Appends the tiles that a thrust along ray `d` (step `(dx, dy)`) reaches.
fn walk_ray(
    grid: &Grid,
    unit: &Unit,
    pos: (u32, u32),
    range: u32,
    d: u8,
    dx: i64,
    dy: i64,
    tiles: &mut Vec<(u32, u32)>,
)
    requires
        grid.wf(),
        grid.contains(pos),
        d < 4,
        (dx, dy) == (if d == 0 {
            (0i64, 1i64)
        } else if d == 1 {
            (1i64, 0i64)
        } else if d == 2 {
            (0i64, -1i64)
        } else {
            (-1i64, 0i64)
        }),
        old(tiles)@.no_duplicates(),
        forall|t: (u32, u32)| #[trigger]
            old(tiles)@.contains(t) ==> ray_dir(pos, t) < d,
    ensures
        final(tiles)@.no_duplicates(),
        forall|t: (u32, u32)| #[trigger]
            final(tiles)@.contains(t) ==> ray_dir(pos, t) <= d,
        forall|t: (u32, u32)|
            final(tiles)@.contains(t) <==> old(tiles)@.contains(t) || (ray_dir(pos, t) == d
                && spear_reaches(grid, unit, pos, range, t)),
{
    let ghost start = tiles@;
    let mut k: u64 = 1;
    let mut open = true;
    while open && k <= range as u64
        invariant
            grid.wf(),
            grid.contains(pos),
            d < 4,
            (dx, dy) == (if d == 0 {
                (0i64, 1i64)
            } else if d == 1 {
                (1i64, 0i64)
            } else if d == 2 {
                (0i64, -1i64)
            } else {
                (-1i64, 0i64)
            }),
            1 <= k <= range as u64 + 1,
            tiles@.no_duplicates(),
            forall|t: (u32, u32)| #[trigger]
                start.contains(t) ==> ray_dir(pos, t) < d,
            open ==> forall|j: int|
                1 <= j < k ==> !#[trigger] blocks_spear(
                    grid,
                    unit,
                    ray_point(pos, d as int, j).0,
                    ray_point(pos, d as int, j).1,
                ),
            !open ==> forall|kk: int| k <= kk ==> !#[trigger] ray_reaches(grid, unit, pos, d as int, kk),
            forall|t: (u32, u32)|
                tiles@.contains(t) <==> start.contains(t) || (ray_dir(pos, t) == d
                    && ray_steps(pos, t) < k && spear_reaches(
                    grid,
                    unit,
                    pos,
                    range,
                    t,
                )),
        decreases range as u64 + 1 - k, (if open { 1int } else { 0int }),
    {
        let (ox, oy): (i64, i64) = if d == 0 {
            (0, k as i64)
        } else if d == 1 {
            (k as i64, 0)
        } else if d == 2 {
            (0, -(k as i64))
        } else {
            (-(k as i64), 0)
        };
        let next = offset_tile(grid.size(), pos, ox, oy);
        assert(ray_point(pos, d as int, k as int) == (pos.0 + ox, pos.1 + oy));
        match next {
            None => {
                open = false;
                let ghost size = grid.spec_size();
                assert(!in_bounds(size, ray_point(pos, d as int, k as int).0, ray_point(pos, d as int, k as int).1));
                assert forall|kk: int| k <= kk implies !#[trigger] ray_reaches(grid, unit, pos, d as int, kk) by {
                    assert(!in_bounds(size, ray_point(pos, d as int, kk).0, ray_point(pos, d as int, kk).1));
                }
            },
            Some(t) => {
                let ghost before = tiles@;
                assert(ray_of(pos, t) == Some((d as int, k as int)));
                proof {
                    if tiles@.contains(t) {
                        assert(start.contains(t) || ray_steps(pos, t) < k);
                        assert(false);
                    }
                }
                tiles.push(t);
                assert forall|u: (u32, u32)| tiles@.contains(u) <==> before.contains(u) || u == t by {
                    lemma_push_contains(before, t, u);
                }
                let stop = match grid.unit(t) {
                    Some(other) => !unit.can_spear_through(other),
                    None => false,
                };
                assert(stop == blocks_spear(grid, unit, t.0 as int, t.1 as int));
                if stop {
                    open = false;
                }
                k = k + 1;
            },
        }
    }
}


/// Whether `unit`, attacking from `from` without having moved, can target
/// tile `t` (before looking at what stands there).
pub open spec fn in_attack_range(grid: &Grid, unit: &Unit, from: (u32, u32), t: (u32, u32)) -> bool {
    match unit.kind.attack.range {
        crate::info::RangeKind::Melee => grid.contains(t) && adjacent(t, from),
        crate::info::RangeKind::Ranged { min, max } => grid.contains(t) && min <= manhattan(t, from)
            <= max,
        crate::info::RangeKind::Spear { range } => spear_reaches(grid, unit, from, range, t),
    }
}

/// Whether `unit`, attacking after moving to `from`, can target tile `t`:
/// melee and spear units strike a neighbour, ranged units cannot attack.
pub open spec fn in_attack_range_after_moving(
    grid: &Grid,
    unit: &Unit,
    from: (u32, u32),
    t: (u32, u32),
) -> bool {
    match unit.kind.attack.range {
        crate::info::RangeKind::Ranged { .. } => false,
        _ => grid.contains(t) && adjacent(t, from),
    }
}

/// Whether `unit` may attack what stands on `t`.
pub open spec fn holds_target(grid: &Grid, unit: &Unit, t: (u32, u32)) -> bool {
    grid.unit_at(t) is Some && grid.unit_at(t)->0.faction != unit.faction
}

/// The tiles of a range that hold a unit the attacker may attack, handed
/// out one by one.
pub struct FindAttackable {
    range: AttackRange,
}

impl View for FindAttackable {
    type V = Seq<(u32, u32)>;

    closed spec fn view(&self) -> Seq<(u32, u32)> {
        self.range@
    }
}

impl FindAttackable {
    pub closed spec fn wf(&self) -> bool {
        self.range.wf()
    }

    fn filter(grid: &Grid, unit: &Unit, range: AttackRange) -> (r: FindAttackable)
        requires
            grid.wf(),
            range.wf(),
            range@.no_duplicates(),
            forall|t: (u32, u32)| #[trigger] range@.contains(t) ==> grid.contains(t),
        ensures
            r.wf(),
            r@.no_duplicates(),
            forall|t: (u32, u32)|
                r@.contains(t) <==> range@.contains(t) && holds_target(grid, unit, t),
    {
        let ghost all = range@;
        let n = range.tiles.len();
        let start = range.next;
        let mut out: Vec<(u32, u32)> = Vec::new();
        let mut j: usize = start;
        assert(all.take(0) =~= Seq::<(u32, u32)>::empty());
        while j < n
            invariant
                grid.wf(),
                n == range.tiles.len(),
                start <= j <= n,
                all == range.tiles@.skip(start as int),
                forall|t: (u32, u32)| #[trigger] all.contains(t) ==> grid.contains(t),
                all.no_duplicates(),
                out@.no_duplicates(),
                forall|u: (u32, u32)|
                    out@.contains(u) <==> all.take(j - start).contains(u) && holds_target(grid, unit, u),
            decreases n - j,
        {
            let t = range.tiles[j];
            let ghost k = j - start;
            assert(all[k] == t);
            assert(all.take(k + 1) =~= all.take(k).push(t));
            assert(all.contains(t));
            let keep = match grid.unit(t) {
                Some(other) => unit.can_attack(other),
                None => false,
            };
            let ghost before = out@;
            if keep {
                proof {
                    if all.take(k).contains(t) {
                        let m = choose|m: int| 0 <= m < k && all.take(k)[m] == t;
                        assert(all[m] == all[k]);
                    }
                    assert(!out@.contains(t));
                }
                out.push(t);
                proof {
                    assert forall|a: int, b: int| 0 <= a < b < out@.len() implies out@[a] != out@[b] by {
                        if b == out@.len() - 1 {
                            assert(before[a] == out@[a]);
                        } else {
                            assert(before[a] == out@[a] && before[b] == out@[b]);
                        }
                    }
                }
            }
            assert forall|u: (u32, u32)|
                out@.contains(u) <==> all.take(k + 1).contains(u) && holds_target(grid, unit, u) by {
                lemma_push_contains(all.take(k), t, u);
                if keep {
                    lemma_push_contains(before, t, u);
                }
            }
            j = j + 1;
        }
        assert(all.take(n - start) =~= all);
        FindAttackable { range: AttackRange::from_tiles(out) }
    }

    /// Hands out the next attackable tile.
    pub fn next(&mut self) -> (r: Option<(u32, u32)>)
        requires
            old(self).wf(),
        ensures
            final(self).wf(),
            old(self)@.len() == 0 ==> r is None && final(self)@ == old(self)@,
            old(self)@.len() > 0 ==> r == Some(old(self)@[0]) && final(self)@ == old(self)@.drop_first(),
    {
        self.range.next()
    }
}


impl Grid {
    /// The tiles `unit` could attack from `pos` without moving.
    pub fn attack_range_before_moving(&self, unit: &Unit, pos: (u32, u32)) -> (r: AttackRange)
        requires
            self.wf(),
            self.contains(pos),
        ensures
            r.wf(),
            r@.no_duplicates(),
            forall|t: (u32, u32)| r@.contains(t) <==> in_attack_range(self, unit, pos, t),
            forall|t: (u32, u32)| #[trigger] r@.contains(t) ==> self.contains(t),
    {
        match unit.kind.attack.range {
            crate::info::RangeKind::Melee => {
                let r = AttackRange::melee(self, pos);
                assert forall|t: (u32, u32)| #[trigger] r@.contains(t) implies self.contains(t) by {}
                r
            },
            crate::info::RangeKind::Ranged { min, max } => {
                let r = AttackRange::ranged(self, pos, min, max);
                assert forall|t: (u32, u32)| #[trigger] r@.contains(t) implies self.contains(t) by {}
                r
            },
            crate::info::RangeKind::Spear { range } => {
                let r = AttackRange::spear(self, unit, pos, range);
                assert forall|t: (u32, u32)| #[trigger] r@.contains(t) implies self.contains(t) by {
                    let (d, k) = ray_of(pos, t)->0;
                    assert(ray_point(pos, d, k) == (t.0 as int, t.1 as int));
                }
                r
            },
        }
    }

    /// The tiles `unit` could attack after moving to `pos`: a neighbour for
    /// melee and spear units, none for ranged units, which only attack
    /// from where they stood.
    pub fn attack_range_after_moving(&self, unit: &Unit, pos: (u32, u32)) -> (r: AttackRange)
        requires
            self.wf(),
            self.contains(pos),
        ensures
            r.wf(),
            r@.no_duplicates(),
            forall|t: (u32, u32)| r@.contains(t) <==> in_attack_range_after_moving(self, unit, pos, t),
            forall|t: (u32, u32)| #[trigger] r@.contains(t) ==> self.contains(t),
    {
        match unit.kind.attack.range {
            crate::info::RangeKind::Ranged { .. } => {
                let r = AttackRange::empty();
                assert forall|t: (u32, u32)| !r@.contains(t) by {}
                r
            },
            _ => {
                let r = AttackRange::melee(self, pos);
                assert forall|t: (u32, u32)| #[trigger] r@.contains(t) implies self.contains(t) by {}
                r
            },
        }
    }

    /// The tiles `unit` on `pos` can strike back at when attacked.
    pub fn attack_range_when_retaliating(&self, unit: &Unit, pos: (u32, u32)) -> (r: AttackRange)
        requires
            self.wf(),
            self.contains(pos),
        ensures
            r.wf(),
            r@.no_duplicates(),
            forall|t: (u32, u32)| r@.contains(t) <==> in_attack_range(self, unit, pos, t),
            forall|t: (u32, u32)| #[trigger] r@.contains(t) ==> self.contains(t),
    {
        self.attack_range_before_moving(unit, pos)
    }

    /// The tiles holding a unit that `unit` could attack from `pos` without
    /// moving.
    pub fn find_attackable_before_moving(&self, unit: &Unit, pos: (u32, u32)) -> (r: FindAttackable)
        requires
            self.wf(),
            self.contains(pos),
        ensures
            r.wf(),
            r@.no_duplicates(),
            forall|t: (u32, u32)|
                r@.contains(t) <==> in_attack_range(self, unit, pos, t) && holds_target(self, unit, t),
    {
        FindAttackable::filter(self, unit, self.attack_range_before_moving(unit, pos))
    }

    /// The tiles holding a unit that `unit` could attack after moving to
    /// `pos`.
    pub fn find_attackable_after_moving(&self, unit: &Unit, pos: (u32, u32)) -> (r: FindAttackable)
        requires
            self.wf(),
            self.contains(pos),
        ensures
            r.wf(),
            r@.no_duplicates(),
            forall|t: (u32, u32)|
                r@.contains(t) <==> in_attack_range_after_moving(self, unit, pos, t) && holds_target(
                    self,
                    unit,
                    t,
                ),
    {
        FindAttackable::filter(self, unit, self.attack_range_after_moving(unit, pos))
    }
}

} // verus!
