use vstd::prelude::*;

use crate::attack_range::{holds_target, in_attack_range, in_attack_range_after_moving};
use crate::combat::AttackOutcome;
use crate::grid::{adjacent, Grid};
use crate::path::{costs_defined, PathFinder};
use crate::tile::{progress_of, saturating_sum};
use crate::turn::TurnInfo;
use crate::unit::Unit;

verus! {

/// Capture progress that `u` makes in one action: its capture capacity
/// scaled by its health out of 10, rounded down.
pub open spec fn capture_amount(u: Unit) -> int {
    u.kind.capture * u.health / 10
}

/// An action offered to a unit that has just moved.
#[derive(Clone, Copy, Debug, PartialEq, Eq, Structural)]
pub enum Action {
    Attack,
    Capture,
    Wait,
}

/// A unit lifted off the grid to walk from `origin` along `path`, whose
/// last tile is the destination; the path is empty when it stays put.
#[derive(Debug)]
pub struct PendingMove {
    pub unit: Unit,
    pub origin: (u32, u32),
    pub path: Vec<(u32, u32)>,
}

/// Whether `unit`, having moved from `origin` to `target`, has something
/// to attack there: from where it stood when it stays put, from its
/// destination otherwise.
pub open spec fn can_attack_after_move(
    grid: &Grid,
    unit: &Unit,
    origin: (u32, u32),
    target: (u32, u32),
) -> bool {
    exists|t: (u32, u32)|
        #![trigger holds_target(grid, unit, t)]
        (if origin == target {
            in_attack_range(grid, unit, target, t)
        } else {
            in_attack_range_after_moving(grid, unit, target, t)
        }) && holds_target(grid, unit, t)
}

/// Whether `unit` on a tile `tile` may start or continue capturing it.
pub open spec fn can_capture(unit: &Unit, tile: crate::tile::Tile) -> bool {
    unit.kind.capture > 0 && tile.terrain.capture != 0 && tile.faction != Some(unit.faction)
}

/// The actions on offer, in menu order.
pub open spec fn offered(attack: bool, capture: bool) -> Seq<Action> {
    (if attack {
        seq![Action::Attack]
    } else {
        Seq::empty()
    }) + (if capture {
        seq![Action::Capture]
    } else {
        Seq::empty()
    }) + seq![Action::Wait]
}

/// The actions offered to the unit that moved from `origin` to `target`:
/// attack when it has a target, capture when it may capture the tile, and
/// always wait.
pub fn action_options(grid: &Grid, origin: (u32, u32), target: (u32, u32)) -> (r: Vec<Action>)
    requires
        grid.wf(),
        grid.contains(target),
        grid.unit_at(target) is Some,
    ensures
        r@ == offered(
            can_attack_after_move(grid, &grid.unit_at(target)->0, origin, target),
            can_capture(&grid.unit_at(target)->0, grid.tile_at(target)),
        ),
{
    let (unit, tile) = grid.tile(target);
    let unit = unit.unwrap();
    let mut find_attackable = if origin.0 == target.0 && origin.1 == target.1 {
        grid.find_attackable_before_moving(unit, target)
    } else {
        grid.find_attackable_after_moving(unit, target)
    };
    let ghost all = find_attackable@;
    let attack = find_attackable.next().is_some();
    proof {
        if attack {
            assert(all.contains(all[0]));
        } else {
            assert forall|t: (u32, u32)| !all.contains(t) by {}
        }
    }
    let capture = unit.kind.capture > 0 && tile.can_be_captured() && match tile.faction {
        Some(f) => f != unit.faction,
        None => true,
    };
    let mut options: Vec<Action> = Vec::new();
    if attack {
        options.push(Action::Attack);
    }
    if capture {
        options.push(Action::Capture);
    }
    options.push(Action::Wait);
    assert(options@ =~= offered(attack, capture));
    options
}

/// The selected unit: where it stands and where it can move.
#[derive(Debug)]
struct Selected {
    pos: (u32, u32),
    path_finder: PathFinder,
}

/// A unit whose reach is on show: where it stands and every tile it could
/// attack this turn.
#[derive(Debug)]
struct ShowingRangeOf {
    pos: (u32, u32),
    attack_range: Vec<(u32, u32)>,
}

/// The selection and cursor state of the board, driving the moves,
/// attacks and captures that the player orders.
#[derive(Debug)]
pub struct GridManager {
    selected: Option<Selected>,
    showing_range_of: Option<ShowingRangeOf>,
    cursor: (u32, u32),
    cursor_hidden: bool,
    mouse: Option<(i32, i32)>,
}

impl GridManager {
    pub closed spec fn spec_cursor(&self) -> (u32, u32) {
        self.cursor
    }

    pub closed spec fn spec_cursor_hidden(&self) -> bool {
        self.cursor_hidden
    }

    /// Where the selected unit stands, if one is selected.
    pub closed spec fn spec_selected(&self) -> Option<(u32, u32)> {
        match self.selected {
            Some(s) => Some(s.pos),
            None => None,
        }
    }

    /// The tile whose unit's reach is on show, if any.
    pub closed spec fn spec_showing_range_of(&self) -> Option<(u32, u32)> {
        match self.showing_range_of {
            Some(s) => Some(s.pos),
            None => None,
        }
    }

    /// The tiles shown as within reach, if a reach is on show.
    pub closed spec fn spec_shown_range(&self) -> Seq<(u32, u32)> {
        self.showing_range_of->0.attack_range@
    }

    /// The tiles shown as within reach of the unit whose reach is on show.
    pub fn shown_range(&self) -> (r: Option<&Vec<(u32, u32)>>)
        ensures
            r is Some <==> self.spec_showing_range_of() is Some,
            r matches Some(v) ==> v@ == self.spec_shown_range(),
    {
        match &self.showing_range_of {
            Some(s) => Some(&s.attack_range),
            None => None,
        }
    }

    /// The movement search of the selected unit.
    pub closed spec fn spec_path_finder(&self) -> PathFinder {
        self.selected->0.path_finder
    }

    /// A selection carries the search made from the selected unit, and the
    /// cursor stays on a tile that unit can reach.
    pub closed spec fn wf(&self) -> bool {
        self.selected matches Some(s) ==> {
            &&& s.path_finder.wf()
            &&& s.path_finder.spec_origin() == s.pos
            &&& s.path_finder.cost_at(self.cursor) is Some
        }
    }

    /// A board with the cursor on `cursor` and nothing selected.
    pub fn new(cursor: (u32, u32)) -> (r: GridManager)
        ensures
            r.wf(),
            r.spec_cursor() == cursor,
            !r.spec_cursor_hidden(),
            r.spec_selected() is None,
            r.spec_showing_range_of() is None,
    {
        GridManager { selected: None, showing_range_of: None, cursor, cursor_hidden: false, mouse: None }
    }

    /// The tile under the cursor.
    pub fn cursor(&self) -> (r: (u32, u32))
        ensures
            r == self.spec_cursor(),
    {
        self.cursor
    }

    /// Makes the cursor visible again once an action is over.
    pub fn hide_cursor(&mut self)
        requires
            old(self).wf(),
        ensures
            final(self).wf(),
            !final(self).spec_cursor_hidden(),
            final(self).spec_cursor() == old(self).spec_cursor(),
            final(self).spec_selected() == old(self).spec_selected(),
            final(self).spec_showing_range_of() == old(self).spec_showing_range_of(),
    {
        self.cursor_hidden = false;
    }

    /// Drops the selection.
    pub fn deselect(&mut self)
        requires
            old(self).wf(),
        ensures
            final(self).wf(),
            final(self).spec_selected() is None,
            final(self).spec_cursor() == old(self).spec_cursor(),
            final(self).spec_cursor_hidden() == old(self).spec_cursor_hidden(),
            final(self).spec_showing_range_of() == old(self).spec_showing_range_of(),
    {
        self.selected = None;
    }

    /// Stops showing a unit's reach, as when the cancel button is let go.
    pub fn cancel_release(&mut self)
        requires
            old(self).wf(),
        ensures
            final(self).wf(),
            final(self).spec_showing_range_of() is None,
            final(self).spec_selected() == old(self).spec_selected(),
            final(self).spec_cursor() == old(self).spec_cursor(),
            final(self).spec_cursor_hidden() == old(self).spec_cursor_hidden(),
    {
        self.showing_range_of = None;
    }

    /// Selects the unit under the cursor if it may act now, searching
    /// where it can move.
    pub fn select_unit(&mut self, grid: &Grid, turn_info: &TurnInfo)
        requires
            old(self).wf(),
            grid.wf(),
            grid.contains(old(self).spec_cursor()),
            grid.unit_at(old(self).spec_cursor()) is Some,
            costs_defined(grid, &grid.unit_at(old(self).spec_cursor())->0),
            turn_info.wf(),
            turn_info.spec_factions().len() > 0,
        ensures
            final(self).wf(),
            final(self).spec_cursor() == old(self).spec_cursor(),
            final(self).spec_cursor_hidden() == old(self).spec_cursor_hidden(),
            final(self).spec_showing_range_of() == old(self).spec_showing_range_of(),
            ({
                let u = grid.unit_at(old(self).spec_cursor())->0;
                let can = u.faction == turn_info.spec_current_faction()
                    && turn_info.spec_actions_left() > 0 && !u.spent;
                &&& can ==> final(self).spec_selected() == Some(old(self).spec_cursor())
                &&& !can ==> final(self).spec_selected() == old(self).spec_selected()
            }),
    {
        let pos = self.cursor;
        let unit = grid.unit(pos).unwrap();
        if turn_info.can_act(unit) {
            let path_finder = grid.path_finder(pos);
            self.selected = Some(Selected { pos, path_finder });
        }
    }

    /// Confirms at the cursor. With a unit selected, the cursor tile is its
    /// destination: unless another unit stands there, the unit is lifted
    /// off the grid and handed back with a cheapest path to walk, and the
    /// selection ends. With none selected, the unit under the cursor, if
    /// any, is selected.
    pub fn confirm(&mut self, grid: &mut Grid, turn_info: &TurnInfo) -> (r: Option<PendingMove>)
        requires
            old(self).wf(),
            old(grid).wf(),
            old(grid).contains(old(self).spec_cursor()),
            old(self).spec_selected() matches Some(p) ==> old(grid).contains(p) && old(
                grid,
            ).unit_at(p) is Some && old(self).spec_path_finder().spec_size() == old(
                grid,
            ).spec_size(),
            old(self).spec_selected() is None && old(grid).unit_at(old(self).spec_cursor()) is Some
                ==> costs_defined(&*old(grid), &old(grid).unit_at(old(self).spec_cursor())->0),
            turn_info.wf(),
            turn_info.spec_factions().len() > 0,
        ensures
            final(self).wf(),
            final(grid).wf(),
            ({
                let cursor = old(self).spec_cursor();
                match old(self).spec_selected() {
                    None => r is None && *final(grid) == *old(grid),
                    Some(origin) => {
                        if cursor != origin && old(grid).unit_at(cursor) is Some {
                            r is None && *final(grid) == *old(grid) && final(self).spec_selected()
                                == old(self).spec_selected()
                        } else {
                            let pf = old(self).spec_path_finder();
                            &&& r is Some
                            &&& final(self).spec_selected() is None
                            &&& final(self).spec_cursor_hidden()
                            &&& Some(r->0.unit) == old(grid).unit_at(origin)
                            &&& r->0.origin == origin
                            &&& final(grid).unit_at(origin) is None
                            &&& forall|p: (u32, u32)|
                                p != origin ==> final(grid).unit_at(p) == old(grid).unit_at(p)
                            &&& (cursor == origin <==> r->0.path@.len() == 0)
                            &&& r->0.path@.len() > 0 ==> r->0.path@.last() == cursor && adjacent(
                                origin,
                                r->0.path@[0],
                            )
                            &&& forall|i: int|
                                #![trigger r->0.path@[i]]
                                0 < i < r->0.path@.len() ==> adjacent(r->0.path@[i - 1], r->0.path@[i])
                                    && pf.cost_at(r->0.path@[i - 1])->0 < pf.cost_at(r->0.path@[i])->0
                        }
                    },
                }
            }),
    {
        if self.selected.is_none() {
            if grid.unit(self.cursor).is_some() {
                self.select_unit(grid, turn_info);
            }
            return None;
        }
        let target = self.cursor;
        let selected = self.selected.take().unwrap();
        let origin = selected.pos;
        if !(target.0 == origin.0 && target.1 == origin.1) && grid.unit(target).is_some() {
            self.selected = Some(selected);
            return None;
        }
        self.cursor_hidden = true;
        let unit = grid.remove_unit(origin);
        let rev = selected.path_finder.random_path_rev(target).into_vec();
        let path = reversed(&rev);
        Some(PendingMove { unit, origin, path })
    }

    /// Cancels: drops the selection if there is one, else shows the reach
    /// of the unit under the cursor, if any: every tile it could attack
    /// from where it stands or after a move.
    pub fn cancel(&mut self, grid: &Grid)
        requires
            old(self).wf(),
            grid.wf(),
            grid.contains(old(self).spec_cursor()),
            old(self).spec_selected() is None && grid.unit_at(old(self).spec_cursor()) is Some
                ==> costs_defined(grid, &grid.unit_at(old(self).spec_cursor())->0),
        ensures
            final(self).wf(),
            final(self).spec_cursor() == old(self).spec_cursor(),
            final(self).spec_selected() is None,
            old(self).spec_selected() is Some ==> final(self).spec_showing_range_of() == old(
                self,
            ).spec_showing_range_of(),
            old(self).spec_selected() is None && grid.unit_at(old(self).spec_cursor()) is None
                ==> final(self).spec_showing_range_of() == old(self).spec_showing_range_of(),
            old(self).spec_selected() is None && grid.unit_at(old(self).spec_cursor()) is Some
                ==> final(self).spec_showing_range_of() == Some(old(self).spec_cursor()) && exists|
                pf: PathFinder,
            |
                pf.wf() && pf.spec_origin() == old(self).spec_cursor() && forall|t: (u32, u32)|
                    #[trigger] final(self).spec_shown_range().contains(t) <==> {
                        let unit = grid.unit_at(old(self).spec_cursor())->0;
                        ||| in_attack_range(grid, &unit, old(self).spec_cursor(), t)
                        ||| exists|p: (u32, u32)|
                            #![trigger pf.cost_at(p), grid.unit_at(p)]
                            pf.cost_at(p) is Some && grid.unit_at(p) is None
                                && in_attack_range_after_moving(grid, &unit, p, t)
                    },
    {
        if self.selected.is_some() {
            self.selected = None;
        } else if grid.unit(self.cursor).is_some() {
            let path_finder = grid.path_finder(self.cursor);
            let attack_range = path_finder.total_attack_range(grid);
            self.showing_range_of = Some(ShowingRangeOf { pos: self.cursor, attack_range });
        }
    }

    /// Moves the cursor to `pos`; while a unit is selected, only onto
    /// tiles that unit can reach.
    pub fn move_cursor_to(&mut self, pos: (u32, u32), grid: &Grid)
        requires
            old(self).wf(),
            grid.contains(pos),
        ensures
            final(self).wf(),
            final(self).spec_selected() == old(self).spec_selected(),
            final(self).spec_cursor_hidden() == old(self).spec_cursor_hidden(),
            final(self).spec_showing_range_of() == old(self).spec_showing_range_of(),
            final(self).spec_cursor() == if old(self).spec_selected() is None
                || old(self).spec_path_finder().cost_at(pos) is Some {
                pos
            } else {
                old(self).spec_cursor()
            },
    {
        if let Some(selected) = &self.selected {
            if !selected.path_finder.can_move_to(pos) {
                return;
            }
        }
        self.cursor = pos;
    }

    /// Moves the cursor by `delta` where that stays on the grid.
    pub fn move_cursor_relative(&mut self, delta: (i32, i32), grid: &Grid)
        requires
            old(self).wf(),
        ensures
            final(self).wf(),
            final(self).spec_selected() == old(self).spec_selected(),
            ({
                let x = old(self).spec_cursor().0 + delta.0;
                let y = old(self).spec_cursor().1 + delta.1;
                let to = (x as u32, y as u32);
                &&& !crate::grid::in_bounds(grid.spec_size(), x, y) ==> final(self).spec_cursor()
                    == old(self).spec_cursor()
                &&& crate::grid::in_bounds(grid.spec_size(), x, y) ==> final(self).spec_cursor()
                    == if old(self).spec_selected() is None || old(self).spec_path_finder().cost_at(
                    to,
                ) is Some {
                    to
                } else {
                    old(self).spec_cursor()
                }
            }),
    {
        self.mouse = None;
        let (w, h) = grid.size();
        let x = self.cursor.0 as i64 + delta.0 as i64;
        let y = self.cursor.1 as i64 + delta.1 as i64;
        if 0 <= x && x < w as i64 && 0 <= y && y < h as i64 {
            self.move_cursor_to((x as u32, y as u32), grid);
        }
    }

    /// Marks the unit on `pos` as spent and uses up an action.
    pub fn unit_spent(&mut self, pos: (u32, u32), grid: &mut Grid, turn_info: &mut TurnInfo)
        requires
            old(grid).wf(),
            old(grid).contains(pos),
            old(turn_info).spec_actions_left() > 0,
        ensures
            *final(self) == *old(self),
            final(grid).wf(),
            final(grid).spec_size() == old(grid).spec_size(),
            forall|p: (u32, u32)| final(grid).tile_at(p) == old(grid).tile_at(p),
            forall|p: (u32, u32)| p != pos ==> final(grid).unit_at(p) == old(grid).unit_at(p),
            final(grid).unit_at(pos) == match old(grid).unit_at(pos) {
                Some(u) => Some(Unit { spent: true, ..u }),
                None => None,
            },
            final(turn_info).spec_actions_left() == old(turn_info).spec_actions_left() - 1,
            final(turn_info).spec_factions() == old(turn_info).spec_factions(),
            final(turn_info).spec_current() == old(turn_info).spec_current(),
            final(turn_info).spec_max_actions() == old(turn_info).spec_max_actions(),
    {
        if grid.unit(pos).is_some() {
            grid.set_spent(pos);
        }
        turn_info.spend_action();
    }

    /// Resolves the attack of the unit on `pos` against `target` and shows
    /// the cursor again.
    pub fn target_confirmed(&mut self, pos: (u32, u32), target: (u32, u32), grid: &mut Grid) -> (r:
        AttackOutcome)
        requires
            old(self).wf(),
            old(grid).wf(),
            old(grid).contains(pos),
            old(grid).contains(target),
            pos != target,
            old(grid).unit_at(pos) is Some,
            old(grid).unit_at(target) is Some,
            old(grid).unit_at(pos)->0.wf(),
            old(grid).unit_at(target)->0.wf(),
        ensures
            final(self).wf(),
            !final(self).spec_cursor_hidden(),
            final(self).spec_cursor() == old(self).spec_cursor(),
            final(self).spec_selected() == old(self).spec_selected(),
            crate::combat::attack_resolved(*old(grid), *final(grid), pos, target, r),
    {
        self.cursor_hidden = false;
        grid.resolve_attack(pos, target)
    }

    /// The unit on `pos` makes capture progress on its tile, then counts as
    /// spent. Returns whether the tile changed hands.
    pub fn capture_at(&mut self, pos: (u32, u32), grid: &mut Grid, turn_info: &mut TurnInfo) -> (r:
        bool)
        requires
            old(self).wf(),
            old(grid).wf(),
            old(grid).contains(pos),
            old(grid).unit_at(pos) is Some,
            old(grid).unit_at(pos)->0.wf(),
            old(grid).tile_at(pos).terrain.capture != 0,
            old(grid).tile_at(pos).faction != Some(old(grid).unit_at(pos)->0.faction),
            old(turn_info).spec_actions_left() > 0,
        ensures
            final(self).wf(),
            !final(self).spec_cursor_hidden(),
            final(self).spec_cursor() == old(self).spec_cursor(),
            final(grid).wf(),
            final(grid).unit_at(pos) == Some(Unit { spent: true, ..old(grid).unit_at(pos)->0 }),
            ({
                let u = old(grid).unit_at(pos)->0;
                let before = old(grid).tile_at(pos);
                let after = final(grid).tile_at(pos);
                let total = saturating_sum(progress_of(before.capture, u.faction), capture_amount(u));
                &&& r == (total >= before.terrain.capture)
                &&& r ==> after.faction == Some(u.faction) && after.capture is None
                &&& !r ==> after.faction == before.faction && after.capture == Some(
                    (u.faction, total as u32),
                )
            }),
            final(turn_info).spec_actions_left() == old(turn_info).spec_actions_left() - 1,
    {
        self.cursor_hidden = false;
        let (faction, amount) = {
            let unit = grid.unit(pos).unwrap();
            assert(unit.kind.capture as u64 * unit.health as u64 <= 0xffff_ffff * 10) by (nonlinear_arith)
                requires
                    unit.health <= 10,
            ;
            (unit.faction, (unit.kind.capture as u64 * unit.health as u64 / 10) as u32)
        };
        let r = grid.capture_tile(pos, faction, amount);
        self.unit_spent(pos, grid, turn_info);
        r
    }
}

/// `v` in reverse order.
fn reversed(v: &Vec<(u32, u32)>) -> (r: Vec<(u32, u32)>)
    ensures
        r@.len() == v@.len(),
        forall|i: int| 0 <= i < v@.len() ==> #[trigger] r@[i] == v@[v@.len() - 1 - i],
{
    let mut r: Vec<(u32, u32)> = Vec::new();
    let mut i: usize = v.len();
    while i > 0
        invariant
            i <= v.len(),
            r@.len() == v.len() - i,
            forall|j: int| 0 <= j < r@.len() ==> #[trigger] r@[j] == v@[v@.len() - 1 - j],
        decreases i,
    {
        i = i - 1;
        r.push(v[i]);
    }
    r
}

} // verus!
