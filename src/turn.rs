use vstd::prelude::*;

use crate::faction::Faction;
use crate::grid::Grid;
use crate::unit::Unit;

verus! {

/// `s` with every entry equal to `f` taken out.
pub open spec fn without(s: Seq<Faction>, f: Faction) -> Seq<Faction>
    decreases s.len(),
{
    if s.len() == 0 {
        s
    } else if s.last() == f {
        without(s.drop_last(), f)
    } else {
        without(s.drop_last(), f).push(s.last())
    }
}

proof fn lemma_without_contains(s: Seq<Faction>, f: Faction, x: Faction)
    ensures
        without(s, f).contains(x) <==> s.contains(x) && x != f,
    decreases s.len(),
{
    if s.len() > 0 {
        let rest = s.drop_last();
        lemma_without_contains(rest, f, x);
        assert(s =~= rest.push(s.last()));
        if s.contains(x) && !rest.contains(x) {
            let i = choose|i: int| 0 <= i < s.len() && s[i] == x;
            if i < s.len() - 1 {
                assert(rest[i] == x);
            }
        }
        if rest.contains(x) {
            let i = choose|i: int| 0 <= i < rest.len() && rest[i] == x;
            assert(s[i] == x);
        }
        if without(s, f).contains(x) && s.last() != f && !without(rest, f).contains(x) {
            let w = without(rest, f);
            let i = choose|i: int| 0 <= i < w.push(s.last()).len() && w.push(s.last())[i] == x;
            if i < w.len() {
                assert(w[i] == x);
            }
        }
        if without(rest, f).contains(x) && s.last() != f {
            let w = without(rest, f);
            let i = choose|i: int| 0 <= i < w.len() && w[i] == x;
            assert(w.push(s.last())[i] == x);
        }
        if s.last() == x && x != f {
            let w = without(rest, f);
            assert(w.push(s.last())[w.len() as int] == x);
        }
    }
}

/// Whether every entry of the non-empty `s` is `f`.
pub open spec fn all_equal(s: Seq<Faction>, f: Faction) -> bool {
    s.len() > 0 && forall|i: int| 0 <= i < s.len() ==> s[i] == f
}

/// Whose turn it is: the factions in turn order, the index of the current
/// one, and the actions left to it this turn out of the per-turn maximum.
#[derive(Clone, Debug)]
pub struct TurnInfo {
    factions: Vec<Faction>,
    current: usize,
    actions_left: u32,
    pub max_actions_left: u32,
}

impl TurnInfo {
    pub closed spec fn spec_factions(&self) -> Seq<Faction> {
        self.factions@
    }

    pub closed spec fn spec_current(&self) -> int {
        self.current as int
    }

    pub closed spec fn spec_actions_left(&self) -> u32 {
        self.actions_left
    }

    pub closed spec fn spec_max_actions(&self) -> u32 {
        self.max_actions_left
    }

    /// The current index points into the list, or the list is empty.
    pub open spec fn wf(&self) -> bool {
        (0 <= self.spec_current() < self.spec_factions().len()) || (self.spec_factions().len() == 0
            && self.spec_current() == 0)
    }

    /// The faction whose turn it is.
    pub open spec fn spec_current_faction(&self) -> Faction {
        self.spec_factions()[self.spec_current()]
    }

    /// A match in which `factions` take turns in that order, the first
    /// starting with `actions` actions.
    pub fn new(factions: Vec<Faction>, actions: u32) -> (r: TurnInfo)
        ensures
            r.wf(),
            r.spec_factions() == factions@,
            r.spec_current() == 0,
            r.spec_actions_left() == actions,
            r.spec_max_actions() == actions,
    {
        TurnInfo { factions, current: 0, actions_left: actions, max_actions_left: actions }
    }

    /// Ends the current turn: the next faction in order, wrapping round,
    /// gets a full set of actions.
    pub fn end_turn(&mut self)
        requires
            old(self).wf(),
            old(self).spec_factions().len() > 0,
        ensures
            final(self).wf(),
            final(self).spec_factions() == old(self).spec_factions(),
            final(self).spec_current() == (old(self).spec_current() + 1) % (old(
                self,
            ).spec_factions().len() as int),
            final(self).spec_actions_left() == old(self).spec_max_actions(),
            final(self).spec_max_actions() == old(self).spec_max_actions(),
    {
        self.actions_left = self.max_actions_left;
        assert(self.current < self.factions.len());
        self.current = (self.current + 1) % self.factions.len();
    }

    /// Actions left this turn.
    pub fn actions_left(&self) -> (r: u32)
        ensures
            r == self.spec_actions_left(),
    {
        self.actions_left
    }

    /// Uses up one action of the current turn.
    pub fn spend_action(&mut self)
        requires
            old(self).spec_actions_left() > 0,
        ensures
            final(self).spec_actions_left() == old(self).spec_actions_left() - 1,
            final(self).spec_factions() == old(self).spec_factions(),
            final(self).spec_current() == old(self).spec_current(),
            final(self).spec_max_actions() == old(self).spec_max_actions(),
    {
        self.actions_left = self.actions_left - 1;
    }

    /// The faction whose turn it is.
    pub fn current_faction(&self) -> (r: Faction)
        requires
            self.wf(),
            self.spec_factions().len() > 0,
        ensures
            r == self.spec_current_faction(),
    {
        self.factions[self.current]
    }

    /// Takes every entry of `faction` out of the turn order. The faction
    /// whose turn it was keeps its turn if it stays; if it is the one
    /// taken out, the turn passes to the next remaining faction in order.
    pub fn remove_faction(&mut self, faction: Faction)
        requires
            old(self).wf(),
        ensures
            final(self).wf(),
            final(self).spec_factions() == without(old(self).spec_factions(), faction),
            final(self).spec_actions_left() == old(self).spec_actions_left(),
            final(self).spec_max_actions() == old(self).spec_max_actions(),
            final(self).spec_factions().len() > 0 ==> final(self).spec_current() == (without(
                old(self).spec_factions().take(old(self).spec_current()),
                faction,
            ).len() as int) % (final(self).spec_factions().len() as int),
            old(self).spec_factions().len() > 0 && old(self).spec_current_faction() != faction
                ==> final(self).spec_current_faction() == old(self).spec_current_faction(),
    {
        let ghost s = self.factions@;
        let n = self.factions.len();
        let mut kept: Vec<Faction> = Vec::new();
        let mut before: usize = 0;
        let mut i: usize = 0;
        while i < n
            invariant
                s == self.factions@,
                n == s.len(),
                self.wf(),
                i <= n,
                before <= i,
                kept@ == without(s.take(i as int), faction),
                before == without(s.take(if i <= self.current { i as int } else { self.current as int }), faction).len(),
                i > self.current && s[self.current as int] != faction ==> before < kept@.len()
                    && kept@[before as int] == s[self.current as int],
            decreases n - i,
        {
            let f = self.factions[i];
            proof {
                assert(s.take(i + 1).drop_last() =~= s.take(i as int));
                assert(s.take(i + 1).last() == f);
            }
            if f != faction {
                kept.push(f);
                if i < self.current {
                    before = before + 1;
                }
            }
            i = i + 1;
        }
        proof {
            assert(s.take(n as int) =~= s);
        }
        self.current = if kept.len() == 0 {
            0
        } else {
            before % kept.len()
        };
        proof {
            if before < kept.len() {
                vstd::arithmetic::div_mod::lemma_small_mod(before as nat, kept.len() as nat);
            }
        }
        self.factions = kept;
    }

    /// Takes out of the turn order every faction with no unit left on
    /// `grid`, as `remove_faction` does, and returns them.
    pub fn remove_defeated(&mut self, grid: &Grid) -> (r: Vec<Faction>)
        requires
            old(self).wf(),
            grid.wf(),
        ensures
            final(self).wf(),
            forall|f: Faction|
                #[trigger] final(self).spec_factions().contains(f) <==> old(self).spec_factions().contains(f)
                    && grid.has_unit_of(f),
            forall|f: Faction|
                #[trigger] r@.contains(f) ==> old(self).spec_factions().contains(f) && !grid.has_unit_of(f),
            final(self).spec_actions_left() == old(self).spec_actions_left(),
            final(self).spec_max_actions() == old(self).spec_max_actions(),
    {
        let all = self.factions.clone();
        let mut removed: Vec<Faction> = Vec::new();
        let mut i: usize = 0;
        while i < all.len()
            invariant
                self.wf(),
                grid.wf(),
                all@ == old(self).spec_factions(),
                i <= all@.len(),
                self.spec_actions_left() == old(self).spec_actions_left(),
                self.spec_max_actions() == old(self).spec_max_actions(),
                forall|f: Faction|
                    #[trigger] self.spec_factions().contains(f) <==> all@.contains(f) && !(all@.take(
                        i as int,
                    ).contains(f) && !grid.has_unit_of(f)),
                forall|f: Faction|
                    #[trigger] removed@.contains(f) ==> all@.contains(f) && !grid.has_unit_of(f),
            decreases all@.len() - i,
        {
            let f = all[i];
            proof {
                assert(all@.take(i + 1) =~= all@.take(i as int).push(f));
            }
            let ghost before = self.spec_factions();
            let ghost removed_before = removed@;
            if !grid.has_units_of(f) {
                self.remove_faction(f);
                removed.push(f);
                proof {
                    assert forall|g: Faction| #[trigger] removed@.contains(g) implies all@.contains(g) && !grid.has_unit_of(g) by {
                        crate::attack_range::lemma_push_contains(removed_before, f, g);
                        assert(all@[i as int] == f);
                    }
                }
            }
            proof {
                assert forall|g: Faction|
                    #[trigger] self.spec_factions().contains(g) <==> all@.contains(g) && !(all@.take(
                        i + 1,
                    ).contains(g) && !grid.has_unit_of(g)) by {
                    crate::attack_range::lemma_push_contains(all@.take(i as int), f, g);
                    if !grid.has_unit_of(f) {
                        lemma_without_contains(before, f, g);
                    }
                }
            }
            i = i + 1;
        }
        proof {
            assert(all@.take(all@.len() as int) =~= all@);
        }
        removed
    }

    /// Whether `unit` may act now: it belongs to the current faction, has
    /// not acted this turn, and the turn has actions left.
    pub fn can_act(&self, unit: &Unit) -> (r: bool)
        requires
            self.wf(),
            self.spec_factions().len() > 0,
        ensures
            r == (unit.faction == self.spec_current_faction() && self.spec_actions_left() > 0
                && !unit.spent),
    {
        unit.faction == self.current_faction() && self.actions_left > 0 && !unit.spent
    }

    /// The factions in turn order.
    pub fn factions(&self) -> (r: &[Faction])
        ensures
            r@ == self.spec_factions(),
    {
        self.factions.as_slice()
    }

    /// The faction that has won: the one that every remaining entry names.
    pub fn winner(&self) -> (r: Option<Faction>)
        ensures
            r matches Some(f) ==> all_equal(self.spec_factions(), f),
            r is None ==> forall|f: Faction| !all_equal(self.spec_factions(), f),
    {
        let n = self.factions.len();
        if n == 0 {
            return None;
        }
        let f = self.factions[0];
        let mut i: usize = 1;
        while i < n
            invariant
                n == self.factions.len(),
                1 <= i <= n,
                f == self.factions@[0],
                forall|j: int| 0 <= j < i ==> self.factions@[j] == f,
            decreases n - i,
        {
            if self.factions[i] != f {
                return None;
            }
            i = i + 1;
        }
        Some(f)
    }
}

} // verus!
