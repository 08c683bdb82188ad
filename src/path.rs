use vstd::prelude::*;

use crate::attack_range::{in_attack_range, in_attack_range_after_moving, AttackRange};
use crate::grid::{adjacent, in_bounds, offset_tile, tile_index, Grid};
use crate::unit::Unit;

verus! {

/// Whether `mover` may enter tile `p`: it is empty, or holds a unit that
/// `mover` may pass.
pub open spec fn passable(grid: &Grid, mover: &Unit, p: (u32, u32)) -> bool {
    match grid.unit_at(p) {
        Some(u) => u.faction == mover.faction,
        None => true,
    }
}

/// What it costs `mover` to enter tile `p`.
pub open spec fn enter_cost(grid: &Grid, mover: &Unit, p: (u32, u32)) -> int {
    mover.spec_terrain_cost(*grid.tile_at(p).terrain) as int
}

/// The movement class of `mover` prices every tile of the grid, and every
/// price is at least 1.
pub open spec fn costs_defined(grid: &Grid, mover: &Unit) -> bool {
    forall|p: (u32, u32)|
        grid.contains(p) ==> mover.knows_terrain(*grid.tile_at(p).terrain) && #[trigger] enter_cost(
            grid,
            mover,
            p,
        ) >= 1
}

/// Weight of one tile's entry in the search's termination measure: its
/// cost once reached, one past the budget before.
pub open spec fn weight(c: Option<u32>, budget: int) -> int {
    match c {
        Some(v) => v as int,
        None => budget + 1,
    }
}

/// Sum of the weights of all entries.
pub open spec fn potential(s: Seq<Option<u32>>, budget: int) -> int
    decreases s.len(),
{
    if s.len() == 0 {
        0
    } else {
        potential(s.drop_last(), budget) + weight(s.last(), budget)
    }
}

proof fn lemma_potential_nonneg(s: Seq<Option<u32>>, budget: int)
    requires
        budget >= 0,
    ensures
        potential(s, budget) >= 0,
    decreases s.len(),
{
    if s.len() > 0 {
        lemma_potential_nonneg(s.drop_last(), budget);
    }
}

proof fn lemma_potential_update(s: Seq<Option<u32>>, i: int, v: Option<u32>, budget: int)
    requires
        0 <= i < s.len(),
        weight(v, budget) < weight(s[i], budget),
    ensures
        potential(s.update(i, v), budget) < potential(s, budget),
    decreases s.len(),
{
    let u = s.update(i, v);
    if i == s.len() - 1 {
        assert(u.drop_last() =~= s.drop_last());
    } else {
        assert(u.drop_last() =~= s.drop_last().update(i, v));
        lemma_potential_update(s.drop_last(), i, v, budget);
    }
}

/// The cost recorded for `p` in row-major `costs` of a grid of `size`.
pub open spec fn cost_in(costs: Seq<Option<u32>>, size: (u32, u32), p: (u32, u32)) -> Option<u32> {
    if in_bounds(size, p.0 as int, p.1 as int) {
        costs[tile_index(size, p)]
    } else {
        None
    }
}

proof fn lemma_cost_in_update(
    costs: Seq<Option<u32>>,
    size: (u32, u32),
    q: (u32, u32),
    v: Option<u32>,
)
    requires
        costs.len() == size.0 * size.1,
        in_bounds(size, q.0 as int, q.1 as int),
    ensures
        forall|p: (u32, u32)|
            #[trigger] cost_in(costs.update(tile_index(size, q), v), size, p) == if p == q {
                v
            } else {
                cost_in(costs, size, p)
            },
{
    assert forall|p: (u32, u32)|
        #[trigger] cost_in(costs.update(tile_index(size, q), v), size, p) == if p == q {
            v
        } else {
            cost_in(costs, size, p)
        } by {
        crate::grid::lemma_tile_index(size, q);
        if in_bounds(size, p.0 as int, p.1 as int) {
            crate::grid::lemma_tile_index(size, p);
            if tile_index(size, p) == tile_index(size, q) {
                crate::grid::lemma_tile_index_injective(size, p, q);
            }
        }
    }
}

/// An entry of the search frontier: a tile, the cost of reaching it, and
/// the neighbour it is reached from.
type Step = ((u32, u32), u32, (u32, u32));

/// Pushes onto `stack` every neighbour of `p` that `mover` may enter and
/// reach within `budget`, when `p` is reached at cost `c`.
fn expand(
    grid: &Grid,
    mover: &Unit,
    p: (u32, u32),
    c: u32,
    budget: u32,
    stack: &mut Vec<Step>,
)
    requires
        grid.wf(),
        grid.contains(p),
        costs_defined(grid, mover),
    ensures
        final(stack)@.len() >= old(stack)@.len(),
        forall|i: int| 0 <= i < old(stack)@.len() ==> final(stack)@[i] == old(stack)@[i],
        forall|i: int|
            #![trigger final(stack)@[i]]
            old(stack)@.len() <= i < final(stack)@.len() ==> {
                let (q, x, from) = final(stack)@[i];
                &&& from == p
                &&& grid.contains(q)
                &&& adjacent(p, q)
                &&& passable(grid, mover, q)
                &&& x == c + enter_cost(grid, mover, q)
                &&& x <= budget
            },
        forall|q: (u32, u32)|
            grid.contains(q) && adjacent(p, q) && passable(grid, mover, q) && c + enter_cost(
                grid,
                mover,
                q,
            ) <= budget ==> final(stack)@.contains((q, (c + enter_cost(grid, mover, q)) as u32, p)),
{
    let size = grid.size();
    let dirs: [(i64, i64); 4] = [(1, 0), (0, 1), (-1, 0), (0, -1)];
    let mut k: usize = 0;
    while k < 4
        invariant
            grid.wf(),
            grid.contains(p),
            costs_defined(grid, mover),
            size == grid.spec_size(),
            k <= 4,
            dirs@ == seq![(1i64, 0i64), (0i64, 1i64), (-1i64, 0i64), (0i64, -1i64)],
            stack@.len() >= old(stack)@.len(),
            forall|i: int| 0 <= i < old(stack)@.len() ==> stack@[i] == old(stack)@[i],
            forall|i: int|
                #![trigger stack@[i]]
                old(stack)@.len() <= i < stack@.len() ==> {
                    let (q, x, from) = stack@[i];
                    &&& from == p
                    &&& grid.contains(q)
                    &&& adjacent(p, q)
                    &&& passable(grid, mover, q)
                    &&& x == c + enter_cost(grid, mover, q)
                    &&& x <= budget
                },
            forall|j: int|
                #![trigger dirs@[j]]
                0 <= j < k ==> {
                    let q = ((p.0 + dirs@[j].0) as u32, (p.1 + dirs@[j].1) as u32);
                    in_bounds(size, p.0 + dirs@[j].0, p.1 + dirs@[j].1) && passable(grid, mover, q)
                        && c + enter_cost(grid, mover, q) <= budget ==> stack@.contains(
                        (q, (c + enter_cost(grid, mover, q)) as u32, p),
                    )
                },
        decreases 4 - k,
    {
        let (dx, dy) = dirs[k];
        let ghost before = stack@;
        if let Some(q) = offset_tile(size, p, dx, dy) {
            let enterable = match grid.unit(q) {
                Some(other) => mover.can_move_through(other),
                None => true,
            };
            if enterable {
                let t = mover.terrain_cost(grid.terrain(q));
                let x = c as u64 + t as u64;
                if x <= budget as u64 {
                    stack.push((q, x as u32, p));
                    assert(stack@[stack@.len() - 1] == (q, x as u32, p));
                }
            }
        }
        assert forall|j: int|
            #![trigger dirs@[j]]
            0 <= j < k + 1 implies {
                let q = ((p.0 + dirs@[j].0) as u32, (p.1 + dirs@[j].1) as u32);
                in_bounds(size, p.0 + dirs@[j].0, p.1 + dirs@[j].1) && passable(grid, mover, q) && c
                    + enter_cost(grid, mover, q) <= budget ==> stack@.contains(
                    (q, (c + enter_cost(grid, mover, q)) as u32, p),
                )
            } by {
            let q = ((p.0 + dirs@[j].0) as u32, (p.1 + dirs@[j].1) as u32);
            let e = (q, (c + enter_cost(grid, mover, q)) as u32, p);
            if j < k && before.contains(e) {
                let m = choose|m: int| 0 <= m < before.len() && before[m] == e;
                assert(stack@[m] == e);
            }
        }
        k = k + 1;
    }
    assert forall|q: (u32, u32)|
        grid.contains(q) && adjacent(p, q) && passable(grid, mover, q) && c + enter_cost(
            grid,
            mover,
            q,
        ) <= budget implies stack@.contains((q, (c + enter_cost(grid, mover, q)) as u32, p)) by {
        let j: int = if q.0 > p.0 {
            0
        } else if q.1 > p.1 {
            1
        } else if q.0 < p.0 {
            2
        } else {
            3
        };
        assert(q == ((p.0 + dirs@[j].0) as u32, (p.1 + dirs@[j].1) as u32));
    }
}

/// The outcome of a movement search: for each tile the unit at `origin`
/// can reach within its budget, the least cost of getting there.
#[derive(Debug)]
pub struct PathFinder {
    origin: (u32, u32),
    size: (u32, u32),
    costs: Vec<Option<u32>>,
}

impl PathFinder {
    pub closed spec fn spec_origin(&self) -> (u32, u32) {
        self.origin
    }

    pub closed spec fn spec_size(&self) -> (u32, u32) {
        self.size
    }

    /// Least cost of reaching `p`; none where it cannot be reached.
    pub closed spec fn cost_at(&self, p: (u32, u32)) -> Option<u32> {
        cost_in(self.costs@, self.size, p)
    }

    /// The origin costs nothing, and every other reached tile has a
    /// neighbour reached more cheaply, so that walking downhill always
    /// leads back to the origin.
    #[verifier::opaque]
    pub closed spec fn wf(&self) -> bool {
        &&& self.costs.len() == self.size.0 * self.size.1
        &&& in_bounds(self.size, self.origin.0 as int, self.origin.1 as int)
        &&& self.cost_at(self.origin) == Some(0u32)
        &&& forall|q: (u32, u32)|
            #![trigger self.cost_at(q)]
            self.cost_at(q) is Some && q != self.origin ==> exists|p: (u32, u32)|
                adjacent(p, q) && self.cost_at(p) is Some && self.cost_at(p)->0 < self.cost_at(
                    q,
                )->0
    }

    /// A reached tile other than the origin has a cheaper reached neighbour.
    pub proof fn lemma_cheaper_neighbour(&self, q: (u32, u32)) -> (p: (u32, u32))
        requires
            self.wf(),
            self.cost_at(q) is Some,
            q != self.spec_origin(),
        ensures
            adjacent(p, q),
            self.cost_at(p) is Some,
            self.cost_at(p)->0 < self.cost_at(q)->0,
    {
        reveal(PathFinder::wf);
        choose|p: (u32, u32)|
            adjacent(p, q) && self.cost_at(p) is Some && self.cost_at(p)->0 < self.cost_at(q)->0
    }

    /// Whether the unit can reach `pos`.
    pub fn can_move_to(&self, pos: (u32, u32)) -> (r: bool)
        requires
            self.wf(),
        ensures
            r == self.cost_at(pos) is Some,
    {
        self.cost(pos).is_some()
    }

    /// Least cost of reaching `pos`, if it can be reached.
    pub fn cost(&self, pos: (u32, u32)) -> (r: Option<u32>)
        requires
            self.wf(),
        ensures
            r == self.cost_at(pos),
    {
        proof {
            reveal(PathFinder::wf);
        }
        if pos.0 < self.size.0 && pos.1 < self.size.1 {
            proof {
                crate::grid::lemma_tile_index(self.size, pos);
            }
            self.costs[pos.1 as usize * self.size.0 as usize + pos.0 as usize]
        } else {
            None
        }
    }
}

/// Recorded costs: the origin at 0, every other within the budget and on a
/// tile the mover may enter.
#[verifier::opaque]
spec fn costs_ok(
    grid: &Grid,
    mover: &Unit,
    pos: (u32, u32),
    budget: u32,
    costs: Seq<Option<u32>>,
) -> bool {
    let size = grid.spec_size();
    &&& costs.len() == size.0 * size.1
    &&& cost_in(costs, size, pos) == Some(0u32)
    &&& forall|p: (u32, u32)|
        #[trigger] cost_in(costs, size, p) is Some ==> cost_in(costs, size, p)->0 <= budget
            && passable(grid, mover, p)
}

/// Every frontier entry is a step from a reached tile onto an enterable
/// neighbour, costed no lower than that step.
#[verifier::opaque]
spec fn frontier_ok(
    grid: &Grid,
    mover: &Unit,
    budget: u32,
    costs: Seq<Option<u32>>,
    stack: Seq<Step>,
) -> bool {
    let size = grid.spec_size();
    forall|i: int|
        #![trigger stack[i]]
        0 <= i < stack.len() ==> {
            let (q, x, from) = stack[i];
            &&& grid.contains(q)
            &&& adjacent(from, q)
            &&& passable(grid, mover, q)
            &&& cost_in(costs, size, from) is Some
            &&& cost_in(costs, size, from)->0 + enter_cost(grid, mover, q) <= x
            &&& x <= budget
        }
}

/// Every affordable step from `p`, if `p` is reached, is either already
/// matched by the neighbour's cost or still waits on the frontier.
spec fn covered_from(
    grid: &Grid,
    mover: &Unit,
    budget: u32,
    costs: Seq<Option<u32>>,
    stack: Seq<Step>,
    p: (u32, u32),
) -> bool {
    let size = grid.spec_size();
    forall|q: (u32, u32)|
        #![trigger cost_in(costs, size, q)]
        cost_in(costs, size, p) is Some && grid.contains(q) && adjacent(p, q) && passable(
            grid,
            mover,
            q,
        ) && cost_in(costs, size, p)->0 + enter_cost(grid, mover, q) <= budget ==> (cost_in(
            costs,
            size,
            q,
        ) is Some && cost_in(costs, size, q)->0 <= cost_in(costs, size, p)->0 + enter_cost(
            grid,
            mover,
            q,
        )) || stack.contains(
            (q, (cost_in(costs, size, p)->0 + enter_cost(grid, mover, q)) as u32, p),
        )
}

#[verifier::opaque]
spec fn steps_covered(
    grid: &Grid,
    mover: &Unit,
    budget: u32,
    costs: Seq<Option<u32>>,
    stack: Seq<Step>,
) -> bool {
    forall|p: (u32, u32)| #[trigger] covered_from(grid, mover, budget, costs, stack, p)
}

/// Every reached tile but the origin was reached from the neighbour
/// `pred` records for it, at no less than that neighbour's cost plus the
/// entry cost.
#[verifier::opaque]
spec fn traced(
    grid: &Grid,
    mover: &Unit,
    pos: (u32, u32),
    costs: Seq<Option<u32>>,
    pred: Seq<(u32, u32)>,
) -> bool {
    let size = grid.spec_size();
    &&& pred.len() == size.0 * size.1
    &&& forall|q: (u32, u32)|
        #[trigger] cost_in(costs, size, q) is Some && q != pos ==> {
            let p = pred[tile_index(size, q)];
            &&& adjacent(p, q)
            &&& cost_in(costs, size, p) is Some
            &&& cost_in(costs, size, p)->0 + enter_cost(grid, mover, q) <= cost_in(
                costs,
                size,
                q,
            )->0
        }
}

proof fn lemma_drop_contains(before: Seq<Step>, e: Step)
    requires
        before.len() > 0,
        before.contains(e),
        e != before.last(),
    ensures
        before.drop_last().contains(e),
{
    let m = choose|m: int| 0 <= m < before.len() && before[m] == e;
    assert(before.drop_last()[m] == e);
}

proof fn lemma_frontier_drop(
    grid: &Grid,
    mover: &Unit,
    budget: u32,
    costs: Seq<Option<u32>>,
    before: Seq<Step>,
)
    requires
        before.len() > 0,
        frontier_ok(grid, mover, budget, costs, before),
    ensures
        frontier_ok(grid, mover, budget, costs, before.drop_last()),
{
    reveal(frontier_ok);
    assert forall|i: int| #![trigger before.drop_last()[i]] 0 <= i < before.len() - 1 implies before.drop_last()[i] == before[i] by {}
}

/// Popping an entry whose tile is already as cheap keeps every step covered.
proof fn lemma_pop_unimproved(
    grid: &Grid,
    mover: &Unit,
    budget: u32,
    costs: Seq<Option<u32>>,
    before: Seq<Step>,
)
    requires
        before.len() > 0,
        steps_covered(grid, mover, budget, costs, before),
        cost_in(costs, grid.spec_size(), before.last().0) is Some,
        cost_in(costs, grid.spec_size(), before.last().0)->0 <= before.last().1,
    ensures
        steps_covered(grid, mover, budget, costs, before.drop_last()),
{
    reveal(steps_covered);
    let size = grid.spec_size();
    assert forall|p: (u32, u32)| #[trigger] covered_from(grid, mover, budget, costs, before.drop_last(), p) by {
        assert(covered_from(grid, mover, budget, costs, before, p));
        assert forall|q: (u32, u32)|
            #![trigger cost_in(costs, size, q)]
            cost_in(costs, size, p) is Some && grid.contains(q) && adjacent(p, q) && passable(
                grid,
                mover,
                q,
            ) && cost_in(costs, size, p)->0 + enter_cost(grid, mover, q) <= budget implies (cost_in(
                costs,
                size,
                q,
            ) is Some && cost_in(costs, size, q)->0 <= cost_in(costs, size, p)->0 + enter_cost(
                grid,
                mover,
                q,
            )) || before.drop_last().contains(
                (q, (cost_in(costs, size, p)->0 + enter_cost(grid, mover, q)) as u32, p),
            ) by {
            let e = (q, (cost_in(costs, size, p)->0 + enter_cost(grid, mover, q)) as u32, p);
            if e != before.last() && before.contains(e) {
                lemma_drop_contains(before, e);
            }
        }
    }
}

/// Recording a cheaper cost for `q`, reached from `from`, keeps the costs,
/// frontier and trace sound, and every step but those out of `q` covered.
proof fn lemma_record(
    grid: &Grid,
    mover: &Unit,
    pos: (u32, u32),
    budget: u32,
    costs: Seq<Option<u32>>,
    before: Seq<Step>,
    pred: Seq<(u32, u32)>,
)
    requires
        grid.wf(),
        costs_defined(grid, mover),
        before.len() > 0,
        grid.contains(before.last().0),
        costs_ok(grid, mover, pos, budget, costs),
        frontier_ok(grid, mover, budget, costs, before),
        steps_covered(grid, mover, budget, costs, before),
        traced(grid, mover, pos, costs, pred),
        cost_in(costs, grid.spec_size(), before.last().0) is None || before.last().1 < cost_in(
            costs,
            grid.spec_size(),
            before.last().0,
        )->0,
    ensures
        ({
            let (q, x, from) = before.last();
            let size = grid.spec_size();
            let new_costs = costs.update(tile_index(size, q), Some(x));
            &&& costs_ok(grid, mover, pos, budget, new_costs)
            &&& frontier_ok(grid, mover, budget, new_costs, before.drop_last())
            &&& traced(grid, mover, pos, new_costs, pred.update(tile_index(size, q), from))
            &&& forall|p: (u32, u32)|
                p != q ==> #[trigger] covered_from(
                    grid,
                    mover,
                    budget,
                    new_costs,
                    before.drop_last(),
                    p,
                )
            &&& potential(new_costs, budget as int) < potential(costs, budget as int)
        }),
{
    let (q, x, from) = before.last();
    let size = grid.spec_size();
    let qi = tile_index(size, q);
    let new_costs = costs.update(qi, Some(x));
    let rest = before.drop_last();
    reveal(costs_ok);
    reveal(frontier_ok);
    crate::grid::lemma_tile_index(size, q);
    lemma_cost_in_update(costs, size, q, Some(x));
    assert(before[before.len() - 1] == (q, x, from));
    lemma_potential_update(costs, qi, Some(x), budget as int);
    assert(q != pos);
    assert(frontier_ok(grid, mover, budget, new_costs, rest)) by {
        assert forall|i: int| #![trigger rest[i]] 0 <= i < rest.len() implies rest[i] == before[i] by {}
    }
    assert(traced(grid, mover, pos, new_costs, pred.update(qi, from))) by {
        reveal(traced);
        assert forall|r: (u32, u32)|
            #[trigger] cost_in(new_costs, size, r) is Some && r != pos implies {
                let p = pred.update(qi, from)[tile_index(size, r)];
                &&& adjacent(p, r)
                &&& cost_in(new_costs, size, p) is Some
                &&& cost_in(new_costs, size, p)->0 + enter_cost(grid, mover, r) <= cost_in(
                    new_costs,
                    size,
                    r,
                )->0
            } by {
            crate::grid::lemma_tile_index(size, r);
            if r != q {
                if tile_index(size, r) == qi {
                    crate::grid::lemma_tile_index_injective(size, r, q);
                }
                assert(cost_in(costs, size, r) is Some);
                let p = pred[tile_index(size, r)];
                assert(cost_in(costs, size, p) is Some);
            }
        }
    }
    assert forall|p: (u32, u32)| p != q implies #[trigger] covered_from(
        grid,
        mover,
        budget,
        new_costs,
        rest,
        p,
    ) by {
        reveal(steps_covered);
        assert(covered_from(grid, mover, budget, costs, before, p));
        assert forall|r: (u32, u32)|
            #![trigger cost_in(new_costs, size, r)]
            cost_in(new_costs, size, p) is Some && grid.contains(r) && adjacent(p, r) && passable(
                grid,
                mover,
                r,
            ) && cost_in(new_costs, size, p)->0 + enter_cost(grid, mover, r) <= budget implies (
            cost_in(new_costs, size, r) is Some && cost_in(new_costs, size, r)->0 <= cost_in(
                new_costs,
                size,
                p,
            )->0 + enter_cost(grid, mover, r)) || rest.contains(
                (r, (cost_in(new_costs, size, p)->0 + enter_cost(grid, mover, r)) as u32, p),
            ) by {
            assert(cost_in(new_costs, size, p) == cost_in(costs, size, p));
            assert(cost_in(costs, size, r) is Some || cost_in(costs, size, r) is None);
            let e = (r, (cost_in(costs, size, p)->0 + enter_cost(grid, mover, r)) as u32, p);
            if e != before.last() && before.contains(e) {
                lemma_drop_contains(before, e);
            }
        }
    }
}

/// Once the steps out of the newly recorded `q` are on the frontier, every
/// step is covered again.
proof fn lemma_expanded(
    grid: &Grid,
    mover: &Unit,
    budget: u32,
    costs: Seq<Option<u32>>,
    mid: Seq<Step>,
    stack: Seq<Step>,
    q: (u32, u32),
)
    requires
        cost_in(costs, grid.spec_size(), q) is Some,
        frontier_ok(grid, mover, budget, costs, mid),
        forall|p: (u32, u32)|
            p != q ==> #[trigger] covered_from(grid, mover, budget, costs, mid, p),
        stack.len() >= mid.len(),
        forall|i: int| 0 <= i < mid.len() ==> stack[i] == mid[i],
        forall|i: int|
            #![trigger stack[i]]
            mid.len() <= i < stack.len() ==> {
                let (r, x, from) = stack[i];
                &&& from == q
                &&& grid.contains(r)
                &&& adjacent(q, r)
                &&& passable(grid, mover, r)
                &&& x == cost_in(costs, grid.spec_size(), q)->0 + enter_cost(grid, mover, r)
                &&& x <= budget
            },
        forall|r: (u32, u32)|
            grid.contains(r) && adjacent(q, r) && passable(grid, mover, r) && cost_in(
                costs,
                grid.spec_size(),
                q,
            )->0 + enter_cost(grid, mover, r) <= budget ==> stack.contains(
                (r, (cost_in(costs, grid.spec_size(), q)->0 + enter_cost(grid, mover, r)) as u32, q),
            ),
    ensures
        frontier_ok(grid, mover, budget, costs, stack),
        steps_covered(grid, mover, budget, costs, stack),
{
    reveal(frontier_ok);
    reveal(steps_covered);
    let size = grid.spec_size();
    assert forall|i: int| #![trigger stack[i]] 0 <= i < stack.len() implies {
        let (r, x, from) = stack[i];
        &&& grid.contains(r)
        &&& adjacent(from, r)
        &&& passable(grid, mover, r)
        &&& cost_in(costs, size, from) is Some
        &&& cost_in(costs, size, from)->0 + enter_cost(grid, mover, r) <= x
        &&& x <= budget
    } by {
        if i < mid.len() {
            assert(stack[i] == mid[i]);
        }
    }
    assert forall|p: (u32, u32)| #[trigger] covered_from(grid, mover, budget, costs, stack, p) by {
        if p != q {
            assert(covered_from(grid, mover, budget, costs, mid, p));
            assert forall|e: Step| mid.contains(e) implies stack.contains(e) by {
                let m = choose|m: int| 0 <= m < mid.len() && mid[m] == e;
                assert(stack[m] == e);
            }
        }
    }
}

/// Takes one entry off the frontier; where it improves on the recorded
/// cost, records it and puts the tile's own steps on the frontier.
fn relax(
    grid: &Grid,
    mover: &Unit,
    pos: (u32, u32),
    budget: u32,
    costs: &mut Vec<Option<u32>>,
    stack: &mut Vec<Step>,
    pred: Ghost<Seq<(u32, u32)>>,
) -> (r: Ghost<Seq<(u32, u32)>>)
    requires
        grid.wf(),
        grid.contains(pos),
        costs_defined(grid, mover),
        old(stack).len() > 0,
        costs_ok(grid, mover, pos, budget, old(costs)@),
        frontier_ok(grid, mover, budget, old(costs)@, old(stack)@),
        steps_covered(grid, mover, budget, old(costs)@, old(stack)@),
        traced(grid, mover, pos, old(costs)@, pred@),
    ensures
        costs_ok(grid, mover, pos, budget, final(costs)@),
        frontier_ok(grid, mover, budget, final(costs)@, final(stack)@),
        steps_covered(grid, mover, budget, final(costs)@, final(stack)@),
        traced(grid, mover, pos, final(costs)@, r@),
        potential(final(costs)@, budget as int) < potential(old(costs)@, budget as int) || (
        potential(final(costs)@, budget as int) == potential(old(costs)@, budget as int)
            && final(stack).len() < old(stack).len()),
{
    let ghost size = grid.spec_size();
    let ghost before = stack@;
    let ghost old_costs = costs@;
    let (q, x, from) = stack.pop().unwrap();
    proof {
        reveal(frontier_ok);
        reveal(costs_ok);
        assert(before.drop_last() == stack@);
        assert(before[before.len() - 1] == (q, x, from));
        assert(before.last() == (q, x, from));
    }
    let qi = grid.index(q);
    assert(cost_in(costs@, size, q) == costs@[qi as int]);
    let improves = match costs[qi] {
        None => true,
        Some(c) => x < c,
    };
    if !improves {
        proof {
            lemma_frontier_drop(grid, mover, budget, old_costs, before);
            lemma_pop_unimproved(grid, mover, budget, old_costs, before);
        }
        return pred;
    }
    proof {
        lemma_record(grid, mover, pos, budget, old_costs, before, pred@);
        reveal(costs_ok);
        lemma_cost_in_update(old_costs, size, q, Some(x));
    }
    costs.set(qi, Some(x));
    let ghost mid = stack@;
    expand(grid, mover, q, x, budget, stack);
    proof {
        lemma_expanded(grid, mover, budget, costs@, mid, stack@, q);
    }
    Ghost(pred@.update(qi as int, from))
}

proof fn lemma_search_start(
    grid: &Grid,
    mover: &Unit,
    pos: (u32, u32),
    budget: u32,
    costs: Seq<Option<u32>>,
    stack: Seq<Step>,
    pred: Seq<(u32, u32)>,
)
    requires
        grid.wf(),
        grid.contains(pos),
        grid.unit_at(pos) == Some(*mover),
        costs.len() == grid.spec_size().0 * grid.spec_size().1,
        pred.len() == costs.len(),
        forall|p: (u32, u32)|
            #[trigger] cost_in(costs, grid.spec_size(), p) == if p == pos {
                Some(0u32)
            } else {
                None
            },
        forall|i: int|
            #![trigger stack[i]]
            0 <= i < stack.len() ==> {
                let (q, x, from) = stack[i];
                &&& from == pos
                &&& grid.contains(q)
                &&& adjacent(pos, q)
                &&& passable(grid, mover, q)
                &&& x == 0 + enter_cost(grid, mover, q)
                &&& x <= budget
            },
        forall|q: (u32, u32)|
            grid.contains(q) && adjacent(pos, q) && passable(grid, mover, q) && 0 + enter_cost(
                grid,
                mover,
                q,
            ) <= budget ==> stack.contains((q, (0 + enter_cost(grid, mover, q)) as u32, pos)),
    ensures
        costs_ok(grid, mover, pos, budget, costs),
        frontier_ok(grid, mover, budget, costs, stack),
        steps_covered(grid, mover, budget, costs, stack),
        traced(grid, mover, pos, costs, pred),
{
    reveal(costs_ok);
    reveal(frontier_ok);
    reveal(steps_covered);
    reveal(traced);
    let size = grid.spec_size();
    assert(cost_in(costs, size, pos) == Some(0u32));
    assert forall|p: (u32, u32)| #[trigger] covered_from(grid, mover, budget, costs, stack, p) by {
        if p == pos {
            assert forall|q: (u32, u32)|
                #![trigger cost_in(costs, size, q)]
                grid.contains(q) && adjacent(p, q) && passable(grid, mover, q) && cost_in(
                    costs,
                    size,
                    p,
                )->0 + enter_cost(grid, mover, q) <= budget implies stack.contains(
                    (q, (cost_in(costs, size, p)->0 + enter_cost(grid, mover, q)) as u32, p),
                ) by {}
        } else {
            assert(cost_in(costs, size, p) is None);
        }
    }
}

proof fn lemma_search_done(
    grid: &Grid,
    mover: &Unit,
    pos: (u32, u32),
    budget: u32,
    costs: Seq<Option<u32>>,
    pred: Seq<(u32, u32)>,
    stack: Seq<Step>,
)
    requires
        costs_defined(grid, mover),
        stack.len() == 0,
        costs_ok(grid, mover, pos, budget, costs),
        steps_covered(grid, mover, budget, costs, stack),
        traced(grid, mover, pos, costs, pred),
    ensures
        ({
            let size = grid.spec_size();
            &&& forall|p: (u32, u32)|
                #![trigger cost_in(costs, size, p)]
                cost_in(costs, size, p) is Some ==> grid.contains(p) && cost_in(costs, size, p)->0
                    <= budget && passable(grid, mover, p)
            &&& forall|p: (u32, u32), q: (u32, u32)|
                #![trigger cost_in(costs, size, p), cost_in(costs, size, q)]
                cost_in(costs, size, p) is Some && grid.contains(q) && adjacent(p, q) && passable(
                    grid,
                    mover,
                    q,
                ) && cost_in(costs, size, p)->0 + enter_cost(grid, mover, q) <= budget ==> cost_in(
                    costs,
                    size,
                    q,
                ) is Some && cost_in(costs, size, q)->0 <= cost_in(costs, size, p)->0 + enter_cost(
                    grid,
                    mover,
                    q,
                )
            &&& forall|q: (u32, u32)|
                #![trigger cost_in(costs, size, q)]
                cost_in(costs, size, q) is Some && q != pos ==> exists|p: (u32, u32)|
                    adjacent(p, q) && cost_in(costs, size, p) is Some && cost_in(costs, size, p)->0
                        + enter_cost(grid, mover, q) == cost_in(costs, size, q)->0
            &&& forall|q: (u32, u32)|
                #![trigger cost_in(costs, size, q)]
                cost_in(costs, size, q) is Some && q != pos ==> exists|p: (u32, u32)|
                    adjacent(p, q) && cost_in(costs, size, p) is Some && cost_in(costs, size, p)->0
                        < cost_in(costs, size, q)->0
        }),
{
    reveal(costs_ok);
    reveal(steps_covered);
    reveal(traced);
    let size = grid.spec_size();
    assert forall|p: (u32, u32), q: (u32, u32)|
        #![trigger cost_in(costs, size, p), cost_in(costs, size, q)]
        cost_in(costs, size, p) is Some && grid.contains(q) && adjacent(p, q) && passable(
            grid,
            mover,
            q,
        ) && cost_in(costs, size, p)->0 + enter_cost(grid, mover, q) <= budget implies cost_in(
            costs,
            size,
            q,
        ) is Some && cost_in(costs, size, q)->0 <= cost_in(costs, size, p)->0 + enter_cost(
            grid,
            mover,
            q,
        ) by {
        assert(covered_from(grid, mover, budget, costs, stack, p));
    }
    assert forall|q: (u32, u32)|
        #![trigger cost_in(costs, size, q)]
        cost_in(costs, size, q) is Some && q != pos implies exists|p: (u32, u32)|
            adjacent(p, q) && cost_in(costs, size, p) is Some && cost_in(costs, size, p)->0
                + enter_cost(grid, mover, q) == cost_in(costs, size, q)->0 by {
        let p = pred[tile_index(size, q)];
        assert(covered_from(grid, mover, budget, costs, stack, p));
        assert(cost_in(costs, size, p) is Some);
    }
    assert forall|q: (u32, u32)|
        #![trigger cost_in(costs, size, q)]
        cost_in(costs, size, q) is Some && q != pos implies exists|p: (u32, u32)|
            adjacent(p, q) && cost_in(costs, size, p) is Some && cost_in(costs, size, p)->0
                < cost_in(costs, size, q)->0 by {
        let p = pred[tile_index(size, q)];
        assert(cost_in(costs, size, p) is Some);
        assert(grid.contains(q));
    }
}

/// Relies on rand's `SliceRandom::shuffle` with `rand::thread_rng()`: it
/// puts the elements in a random order and leaves them otherwise as they
/// are.
#[verifier::external_body]
fn shuffled(v: Vec<(i64, i64)>) -> (r: Vec<(i64, i64)>)
    ensures
        r@.to_multiset() == v@.to_multiset(),
{
    let mut v = v;
    rand::seq::SliceRandom::shuffle(&mut v[..], &mut rand::thread_rng());
    v
}

proof fn lemma_same_elements(all: Seq<(i64, i64)>, order: Seq<(i64, i64)>)
    requires
        all == seq![(0i64, 1i64), (1i64, 0i64), (0i64, -1i64), (-1i64, 0i64)],
        order.to_multiset() == all.to_multiset(),
    ensures
        forall|d: (i64, i64)| all.contains(d) ==> order.contains(d),
        forall|j: int| 0 <= j < order.len() ==> unit_step(#[trigger] order[j]),
{
    broadcast use vstd::seq_lib::to_multiset_contains;

    assert forall|j: int| 0 <= j < order.len() implies unit_step(#[trigger] order[j]) by {
        assert(order.contains(order[j]));
        assert(order.to_multiset().count(order[j]) > 0);
        assert(all.contains(order[j]));
    }
    assert forall|d: (i64, i64)| all.contains(d) implies order.contains(d) by {
        assert(all.to_multiset().count(d) > 0);
        assert(order.to_multiset().count(d) > 0);
    }
}

/// A tile other than the origin has a cheaper neighbour among the four
/// directions, in whatever order they are tried.
proof fn lemma_downhill_found(
    pf: PathFinder,
    pos: (u32, u32),
    cost: u32,
    order: Seq<(i64, i64)>,
    all: Seq<(i64, i64)>,
    found: bool,
)
    requires
        pf.wf(),
        pos != pf.spec_origin(),
        pf.cost_at(pos) == Some(cost),
        all == seq![(0i64, 1i64), (1i64, 0i64), (0i64, -1i64), (-1i64, 0i64)],
        forall|d: (i64, i64)| all.contains(d) ==> order.contains(d),
        forall|j: int|
            #![trigger order[j]]
            0 <= j < order.len() ==> {
                let c = (pos.0 + order[j].0, pos.1 + order[j].1);
                0 <= c.0 <= u32::MAX && 0 <= c.1 <= u32::MAX && pf.cost_at((c.0 as u32, c.1 as u32))
                    is Some && pf.cost_at((c.0 as u32, c.1 as u32))->0 < cost ==> found
            },
    ensures
        found,
{
    let p = pf.lemma_cheaper_neighbour(pos);
    let d: (i64, i64) = if p.1 > pos.1 {
        all[0]
    } else if p.0 > pos.0 {
        all[1]
    } else if p.1 < pos.1 {
        all[2]
    } else {
        all[3]
    };
    assert(all.contains(d));
    let j = choose|j: int| 0 <= j < order.len() && order[j] == d;
    let c = (pos.0 + order[j].0, pos.1 + order[j].1);
    assert(c == (p.0 as int, p.1 as int));
    assert(p == (c.0 as u32, c.1 as u32));
}

/// One step north, east, south or west.
pub open spec fn unit_step(d: (i64, i64)) -> bool {
    (d.0 == 0 && (d.1 == 1 || d.1 == -1)) || (d.1 == 0 && (d.0 == 1 || d.0 == -1))
}

/// A walk from a reached tile back towards the origin of a movement
/// search, each step to a neighbour of strictly lower cost. Among several
/// such neighbours one is picked at random, which varies the path drawn
/// but never its cost.
pub struct RandomPathRev<'a> {
    path_finder: &'a PathFinder,
    pos: (u32, u32),
}

impl<'a> RandomPathRev<'a> {
    pub closed spec fn spec_path_finder(&self) -> PathFinder {
        *self.path_finder
    }

    /// The tile the walk stands on.
    pub closed spec fn spec_pos(&self) -> (u32, u32) {
        self.pos
    }

    pub open spec fn wf(&self) -> bool {
        self.spec_path_finder().wf() && self.spec_path_finder().cost_at(self.spec_pos()) is Some
    }

    /// Whether the walk has reached the origin.
    pub fn at_origin(&self) -> (r: bool)
        ensures
            r == (self.spec_pos() == self.spec_path_finder().spec_origin()),
    {
        self.pos.0 == self.path_finder.origin.0 && self.pos.1 == self.path_finder.origin.1
    }

    /// Hands out the tile the walk stands on and steps to a cheaper
    /// neighbour; nothing once the walk stands on the origin.
    pub fn next(&mut self) -> (r: Option<(u32, u32)>)
        requires
            old(self).wf(),
        ensures
            final(self).wf(),
            final(self).spec_path_finder() == old(self).spec_path_finder(),
            ({
                let pf = old(self).spec_path_finder();
                let pos = old(self).spec_pos();
                let next = final(self).spec_pos();
                &&& pos == pf.spec_origin() ==> r is None && next == pos
                &&& pos != pf.spec_origin() ==> r == Some(pos) && adjacent(next, pos)
                    && pf.cost_at(next)->0 < pf.cost_at(pos)->0
            }),
    {
        if self.pos.0 == self.path_finder.origin.0 && self.pos.1 == self.path_finder.origin.1 {
            return None;
        }
        let pf = self.path_finder;
        let pos = self.pos;
        let cost = pf.cost(pos).unwrap();
        let dirs = vec![(0i64, 1i64), (1, 0), (0, -1), (-1, 0)];
        let ghost all = dirs@;
        let order = shuffled(dirs);
        proof {
            lemma_same_elements(all, order@);
        }
        let mut best = cost;
        let mut res: Option<(u32, u32)> = None;
        let mut k: usize = 0;
        while k < order.len()
            invariant
                pf.wf(),
                pf.cost_at(pos) == Some(cost),
                k <= order.len(),
                forall|j: int| 0 <= j < order@.len() ==> unit_step(#[trigger] order@[j]),
                res is None ==> best == cost,
                res is Some ==> adjacent(res->0, pos) && pf.cost_at(res->0) == Some(best) && best
                    < cost,
                forall|j: int|
                    #![trigger order@[j]]
                    0 <= j < k ==> {
                        let c = (pos.0 + order@[j].0, pos.1 + order@[j].1);
                        0 <= c.0 <= u32::MAX && 0 <= c.1 <= u32::MAX && pf.cost_at(
                            (c.0 as u32, c.1 as u32),
                        ) is Some && pf.cost_at((c.0 as u32, c.1 as u32))->0 < cost ==> res is Some
                    },
            decreases order.len() - k,
        {
            let (dx, dy) = order[k];
            let x = pos.0 as i64 + dx;
            let y = pos.1 as i64 + dy;
            if 0 <= x && x <= u32::MAX as i64 && 0 <= y && y <= u32::MAX as i64 {
                let npos = (x as u32, y as u32);
                if let Some(ncost) = pf.cost(npos) {
                    if ncost < best {
                        res = Some(npos);
                        best = ncost;
                    }
                }
            }
            k = k + 1;
        }
        proof {
            lemma_downhill_found(*pf, pos, cost, order@, all, res is Some);
        }
        self.pos = res.unwrap();
        Some(pos)
    }

    /// The rest of the walk, down to (not including) the origin.
    pub fn into_vec(self) -> (r: Vec<(u32, u32)>)
        requires
            self.wf(),
        ensures
            ({
                let pf = self.spec_path_finder();
                &&& self.spec_pos() == pf.spec_origin() <==> r@.len() == 0
                &&& r@.len() > 0 ==> r@[0] == self.spec_pos() && adjacent(
                    r@[r@.len() - 1],
                    pf.spec_origin(),
                )
                &&& forall|i: int|
                    #![trigger r@[i]]
                    0 <= i < r@.len() ==> pf.cost_at(r@[i]) is Some && r@[i] != pf.spec_origin()
                &&& forall|i: int|
                    #![trigger r@[i]]
                    0 < i < r@.len() ==> adjacent(r@[i - 1], r@[i]) && pf.cost_at(r@[i])->0
                        < pf.cost_at(r@[i - 1])->0
            }),
    {
        let mut walk = self;
        let ghost pf = walk.spec_path_finder();
        let ghost start = walk.spec_pos();
        let mut r: Vec<(u32, u32)> = Vec::new();
        while !walk.at_origin()
            invariant
                walk.wf(),
                walk.spec_path_finder() == pf,
                r@.len() == 0 ==> walk.spec_pos() == start,
                r@.len() > 0 ==> r@[0] == start && adjacent(r@[r@.len() - 1], walk.spec_pos())
                    && pf.cost_at(walk.spec_pos())->0 < pf.cost_at(r@[r@.len() - 1])->0,
                forall|i: int|
                    #![trigger r@[i]]
                    0 <= i < r@.len() ==> pf.cost_at(r@[i]) is Some && r@[i] != pf.spec_origin(),
                forall|i: int|
                    #![trigger r@[i]]
                    0 < i < r@.len() ==> adjacent(r@[i - 1], r@[i]) && pf.cost_at(r@[i])->0
                        < pf.cost_at(r@[i - 1])->0,
            decreases pf.cost_at(walk.spec_pos())->0,
        {
            let t = walk.next().unwrap();
            r.push(t);
        }
        r
    }
}

impl PathFinder {
    /// A walk from `target` back to the origin.
    pub fn random_path_rev(&self, target: (u32, u32)) -> (r: RandomPathRev)
        requires
            self.wf(),
            self.cost_at(target) is Some,
        ensures
            r.wf(),
            r.spec_path_finder() == *self,
            r.spec_pos() == target,
    {
        RandomPathRev { path_finder: self, pos: target }
    }
}

impl Grid {
    /// Searches the tiles that the unit at `pos` can reach with its
    /// movement budget, moving orthogonally, entering no tile held by a
    /// unit it may not pass, and paying each entered tile's terrain cost.
    /// Every reached tile is recorded with the least cost of reaching it.
    pub fn path_finder(&self, pos: (u32, u32)) -> (r: PathFinder)
        requires
            self.wf(),
            self.contains(pos),
            self.unit_at(pos) is Some,
            costs_defined(self, &self.unit_at(pos)->0),
        ensures
            r.wf(),
            r.spec_origin() == pos,
            r.spec_size() == self.spec_size(),
            r.cost_at(pos) == Some(0u32),
            ({
                let mover = self.unit_at(pos)->0;
                let budget = mover.kind.movement.movement;
                &&& forall|p: (u32, u32)|
                    #![trigger r.cost_at(p)]
                    r.cost_at(p) is Some ==> self.contains(p) && r.cost_at(p)->0 <= budget
                        && passable(self, &mover, p)
                &&& forall|p: (u32, u32), q: (u32, u32)|
                    #![trigger r.cost_at(p), r.cost_at(q)]
                    r.cost_at(p) is Some && self.contains(q) && adjacent(p, q) && passable(
                        self,
                        &mover,
                        q,
                    ) && r.cost_at(p)->0 + enter_cost(self, &mover, q) <= budget ==> r.cost_at(
                        q,
                    ) is Some && r.cost_at(q)->0 <= r.cost_at(p)->0 + enter_cost(self, &mover, q)
                &&& forall|q: (u32, u32)|
                    #![trigger r.cost_at(q)]
                    r.cost_at(q) is Some && q != pos ==> exists|p: (u32, u32)|
                        adjacent(p, q) && r.cost_at(p) is Some && r.cost_at(p)->0 + enter_cost(
                            self,
                            &mover,
                            q,
                        ) == r.cost_at(q)->0
            }),
    {
        let mover = self.unit(pos).unwrap();
        let budget = mover.kind.movement.movement;
        let size = self.size();
        let n = self.tile_count();
        let mut costs: Vec<Option<u32>> = Vec::new();
        let mut i: usize = 0;
        while i < n
            invariant
                i <= n,
                costs.len() == i,
                forall|j: int| 0 <= j < i ==> costs@[j] is None,
            decreases n - i,
        {
            costs.push(None);
            i = i + 1;
        }
        let oi = self.index(pos);
        costs.set(oi, Some(0));
        let ghost mut pred: Seq<(u32, u32)> = Seq::new(n as nat, |j: int| pos);
        proof {
            assert forall|p: (u32, u32)| #[trigger] cost_in(costs@, size, p) == if p == pos {
                Some(0u32)
            } else {
                None
            } by {
                if in_bounds(size, p.0 as int, p.1 as int) {
                    crate::grid::lemma_tile_index(size, p);
                    if tile_index(size, p) == oi {
                        crate::grid::lemma_tile_index_injective(size, p, pos);
                    }
                }
            }
        }
        let mut stack: Vec<Step> = Vec::new();
        expand(self, mover, pos, 0, budget, &mut stack);
        proof {
            lemma_search_start(self, mover, pos, budget, costs@, stack@, pred);
            lemma_potential_nonneg(costs@, budget as int);
        }
        while stack.len() > 0
            invariant
                self.wf(),
                self.contains(pos),
                costs_defined(self, mover),
                potential(costs@, budget as int) >= 0,
                costs_ok(self, mover, pos, budget, costs@),
                frontier_ok(self, mover, budget, costs@, stack@),
                steps_covered(self, mover, budget, costs@, stack@),
                traced(self, mover, pos, costs@, pred),
            decreases potential(costs@, budget as int), stack.len(),
        {
            let g = relax(self, mover, pos, budget, &mut costs, &mut stack, Ghost(pred));
            proof {
                pred = g@;
                lemma_potential_nonneg(costs@, budget as int);
            }
        }
        proof {
            lemma_search_done(self, mover, pos, budget, costs@, pred, stack@);
            reveal(costs_ok);
        }
        let r = PathFinder { origin: pos, size, costs };
        proof {
            reveal(PathFinder::wf);
        }
        r
    }
}


/// Adds to `set` the tiles of `range` it lacks.
fn insert_all(set: &mut Vec<(u32, u32)>, range: AttackRange)
    requires
        range.wf(),
        old(set)@.no_duplicates(),
    ensures
        final(set)@.no_duplicates(),
        forall|t: (u32, u32)|
            #[trigger] final(set)@.contains(t) <==> old(set)@.contains(t) || range@.contains(t),
{
    let mut range = range;
    let ghost all = range@;
    let ghost start = set@;
    let ghost mut done: Seq<(u32, u32)> = Seq::empty();
    while range.remaining() > 0
        invariant
            range.wf(),
            all == done + range@,
            set@.no_duplicates(),
            forall|u: (u32, u32)|
                #[trigger] set@.contains(u) <==> start.contains(u) || done.contains(u),
        decreases range@.len(),
    {
        let t = range.next().unwrap();
        proof {
            assert(done.push(t) + range@ =~= all);
        }
        let mut present = false;
        let mut i: usize = 0;
        while i < set.len()
            invariant
                i <= set@.len(),
                present ==> set@.contains(t),
                !present ==> forall|j: int| 0 <= j < i ==> set@[j] != t,
            decreases set@.len() - i,
        {
            let c = set[i];
            if c.0 == t.0 && c.1 == t.1 {
                present = true;
            }
            i = i + 1;
        }
        let ghost before = set@;
        if !present {
            set.push(t);
            proof {
                assert forall|a: int, b: int| 0 <= a < b < set@.len() implies set@[a] != set@[b] by {
                    if b == set@.len() - 1 {
                        assert(before[a] == set@[a]);
                    } else {
                        assert(before[a] == set@[a] && before[b] == set@[b]);
                    }
                }
            }
        }
        proof {
            assert forall|u: (u32, u32)|
                #[trigger] set@.contains(u) <==> start.contains(u) || done.push(t).contains(u) by {
                crate::attack_range::lemma_push_contains(done, t, u);
                if !present {
                    crate::attack_range::lemma_push_contains(before, t, u);
                }
            }
            done = done.push(t);
        }
    }
    proof {
        assert(done =~= all);
    }
}

impl PathFinder {
    /// Every tile the searched unit could attack this turn: from where it
    /// stands, or after moving to any empty tile it can reach.
    pub fn total_attack_range(&self, grid: &Grid) -> (r: Vec<(u32, u32)>)
        requires
            self.wf(),
            grid.wf(),
            self.spec_size() == grid.spec_size(),
            grid.unit_at(self.spec_origin()) is Some,
        ensures
            r@.no_duplicates(),
            forall|t: (u32, u32)|
                #[trigger] r@.contains(t) <==> {
                    let unit = grid.unit_at(self.spec_origin())->0;
                    ||| in_attack_range(grid, &unit, self.spec_origin(), t)
                    ||| exists|p: (u32, u32)|
                        #![trigger self.cost_at(p), grid.unit_at(p)]
                        self.cost_at(p) is Some && grid.unit_at(p) is None
                            && in_attack_range_after_moving(grid, &unit, p, t)
                },
    {
        proof {
            reveal(PathFinder::wf);
        }
        let origin = self.origin;
        let unit = grid.unit(origin).unwrap();
        let mut set: Vec<(u32, u32)> = Vec::new();
        insert_all(&mut set, grid.attack_range_before_moving(unit, origin));
        let (w, h) = grid.size();
        let mut y: u32 = 0;
        while y < h
            invariant
                grid.wf(),
                self.wf(),
                (w, h) == grid.spec_size(),
                self.spec_size() == grid.spec_size(),
                *unit == grid.unit_at(origin)->0,
                origin == self.spec_origin(),
                y <= h,
                set@.no_duplicates(),
                forall|t: (u32, u32)|
                    #[trigger] set@.contains(t) <==> in_attack_range(grid, unit, origin, t) || exists|p: (u32, u32)|
                        #![trigger self.cost_at(p), grid.unit_at(p)]
                        p.1 < y && self.cost_at(p) is Some && grid.unit_at(p) is None
                            && in_attack_range_after_moving(grid, unit, p, t),
            decreases h - y,
        {
            let mut x: u32 = 0;
            while x < w
                invariant
                    grid.wf(),
                    self.wf(),
                    (w, h) == grid.spec_size(),
                    self.spec_size() == grid.spec_size(),
                    *unit == grid.unit_at(origin)->0,
                    origin == self.spec_origin(),
                    y < h,
                    x <= w,
                    set@.no_duplicates(),
                    forall|t: (u32, u32)|
                        #[trigger] set@.contains(t) <==> in_attack_range(grid, unit, origin, t) || exists|p: (u32, u32)|
                            #![trigger self.cost_at(p), grid.unit_at(p)]
                            (p.1 < y || (p.1 == y && p.0 < x)) && self.cost_at(p) is Some
                                && grid.unit_at(p) is None && in_attack_range_after_moving(grid, unit, p, t),
                decreases w - x,
            {
                let p = (x, y);
                let ghost before = set@;
                if self.can_move_to(p) && grid.unit(p).is_none() {
                    insert_all(&mut set, grid.attack_range_after_moving(unit, p));
                }
                proof {
                    assert forall|t: (u32, u32)|
                        #[trigger] set@.contains(t) <==> in_attack_range(grid, unit, origin, t) || exists|q: (u32, u32)|
                            #![trigger self.cost_at(q), grid.unit_at(q)]
                            (q.1 < y || (q.1 == y && q.0 < x + 1)) && self.cost_at(q) is Some
                                && grid.unit_at(q) is None && in_attack_range_after_moving(grid, unit, q, t) by {
                        let cond = self.cost_at(p) is Some && grid.unit_at(p) is None
                            && in_attack_range_after_moving(grid, unit, p, t);
                        if exists|q: (u32, u32)|
                            #![trigger self.cost_at(q), grid.unit_at(q)]
                            (q.1 < y || (q.1 == y && q.0 < x + 1)) && self.cost_at(q) is Some
                                && grid.unit_at(q) is None && in_attack_range_after_moving(grid, unit, q, t) {
                            let q = choose|q: (u32, u32)|
                                #![trigger self.cost_at(q), grid.unit_at(q)]
                                (q.1 < y || (q.1 == y && q.0 < x + 1)) && self.cost_at(q) is Some
                                    && grid.unit_at(q) is None && in_attack_range_after_moving(grid, unit, q, t);
                            if q != p {
                                assert(before.contains(t));
                            }
                        }
                        if cond {
                            assert(self.cost_at(p) is Some && grid.unit_at(p) is None);
                        }
                    }
                }
                x = x + 1;
            }
            proof {
                assert forall|t: (u32, u32)|
                    #[trigger] set@.contains(t) <==> in_attack_range(grid, unit, origin, t) || exists|q: (u32, u32)|
                        #![trigger self.cost_at(q), grid.unit_at(q)]
                        q.1 < y + 1 && self.cost_at(q) is Some && grid.unit_at(q) is None
                            && in_attack_range_after_moving(grid, unit, q, t) by {
                    if exists|q: (u32, u32)|
                        #![trigger self.cost_at(q), grid.unit_at(q)]
                        q.1 < y + 1 && self.cost_at(q) is Some && grid.unit_at(q) is None
                            && in_attack_range_after_moving(grid, unit, q, t) {
                        let q = choose|q: (u32, u32)|
                            #![trigger self.cost_at(q), grid.unit_at(q)]
                            q.1 < y + 1 && self.cost_at(q) is Some && grid.unit_at(q) is None
                                && in_attack_range_after_moving(grid, unit, q, t);
                        assert(q.0 < w);
                    }
                }
            }
            y = y + 1;
        }
        proof {
            assert forall|t: (u32, u32)|
                #[trigger] set@.contains(t) <==> in_attack_range(grid, unit, origin, t) || exists|q: (u32, u32)|
                    #![trigger self.cost_at(q), grid.unit_at(q)]
                    self.cost_at(q) is Some && grid.unit_at(q) is None && in_attack_range_after_moving(
                        grid,
                        unit,
                        q,
                        t,
                    ) by {
                if exists|q: (u32, u32)|
                    #![trigger self.cost_at(q), grid.unit_at(q)]
                    self.cost_at(q) is Some && grid.unit_at(q) is None && in_attack_range_after_moving(
                        grid,
                        unit,
                        q,
                        t,
                    ) {
                    let q = choose|q: (u32, u32)|
                        #![trigger self.cost_at(q), grid.unit_at(q)]
                        self.cost_at(q) is Some && grid.unit_at(q) is None && in_attack_range_after_moving(
                            grid,
                            unit,
                            q,
                            t,
                        );
                    assert(q.1 < h);
                }
            }
        }
        set
    }
}

} // verus!
