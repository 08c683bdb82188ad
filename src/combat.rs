use vstd::prelude::*;

use crate::attack_range::{
    blocks_spear, in_attack_range, ray_dir, ray_of, ray_point, ray_reaches, spear_reaches,
};
use crate::faction::Faction;
use crate::grid::{in_bounds, Grid};
use crate::info::{RangeKind, TerrainInfo, FIXED_ONE};
use crate::unit::Unit;

verus! {

/// The modifier, in hundredths, that `mods` sets against defense class
/// `class`: that of the first entry naming the class, 1.0 where none does.
pub open spec fn modifier_for(mods: Seq<(String, u32)>, class: Seq<char>) -> int
    decreases mods.len(),
{
    if mods.len() == 0 {
        FIXED_ONE as int
    } else if mods[0].0@ == class {
        mods[0].1 as int
    } else {
        modifier_for(mods.drop_first(), class)
    }
}

/// Damage in hundredths dealt by an attack of base damage `base` and
/// modifier `modifier` (both hundredths) from an attacker with health
/// `atk_health`, on a defender with total defense bonus `defense`
/// (hundredths) and health `def_health`:
/// `base * modifier * (atk_health / 10) * (1 - defense * (def_health / 10))`,
/// rounded down and never below zero.
pub open spec fn damage_value(
    base: int,
    modifier: int,
    atk_health: int,
    defense: int,
    def_health: int,
) -> int {
    let raw = base * modifier * atk_health * (1000 - defense * def_health);
    if raw <= 0 {
        0
    } else {
        raw / 1_000_000
    }
}

/// Defense bonus (hundredths) of `unit` standing on `terrain`.
pub open spec fn defense_bonus_of(unit: Unit, terrain: TerrainInfo) -> int {
    terrain.defense + unit.kind.defense.defense
}

/// Damage (hundredths) that `attacker` deals to `defender` on `terrain`.
pub open spec fn damage_of(attacker: Unit, defender: Unit, terrain: TerrainInfo) -> int {
    damage_value(
        attacker.kind.attack.damage as int,
        modifier_for(attacker.kind.attack.modifiers@, defender.kind.defense.class@),
        attacker.health as int,
        defense_bonus_of(defender, terrain),
        defender.health as int,
    )
}

/// Whole health points that `amount` hundredths of damage take: the amount
/// rounded to the nearest whole, halves upward.
pub open spec fn rounded_damage(amount: int) -> int {
    (amount + 50) / 100
}

/// Health left after taking `amount` hundredths of damage.
pub open spec fn health_after(health: u32, amount: int) -> int {
    if health - rounded_damage(amount) < 0 {
        0
    } else {
        health - rounded_damage(amount)
    }
}

/// `u` after taking `amount` hundredths of damage.
pub open spec fn damaged(u: Unit, amount: int) -> Unit {
    Unit { health: health_after(u.health, amount) as u32, faction: u.faction, spent: u.spent, kind: u.kind }
}

fn modifier(mods: &Vec<(String, u32)>, class: &String) -> (r: u32)
    ensures
        r == modifier_for(mods@, class@),
{
    let mut i: usize = 0;
    assert(mods@.skip(0) =~= mods@);
    while i < mods.len()
        invariant
            i <= mods.len(),
            modifier_for(mods@, class@) == modifier_for(mods@.skip(i as int), class@),
        decreases mods.len() - i,
    {
        assert(mods@.skip(i as int).drop_first() =~= mods@.skip(i as int + 1));
        if mods[i].0 == *class {
            return mods[i].1;
        }
        i = i + 1;
    }
    FIXED_ONE
}

impl Unit {
    /// Defense bonus (hundredths) of this unit standing on `terrain`.
    pub fn defense_bonus(&self, terrain: &TerrainInfo) -> (r: i64)
        ensures
            r == defense_bonus_of(*self, *terrain),
    {
        terrain.defense as i64 + self.kind.defense.defense as i64
    }

    /// Damage (hundredths) this unit deals to `other` standing on `terrain`.
    pub fn attack_damage(&self, other: &Unit, terrain: &TerrainInfo) -> (r: u128)
        requires
            self.wf(),
            other.wf(),
        ensures
            r == damage_of(*self, *other, *terrain),
            self.health == 0 ==> r == 0,
    {
        let def = other.defense_bonus(terrain);
        let m = modifier(&self.kind.attack.modifiers, &other.kind.defense.class);
        let base = self.kind.attack.damage;
        let atk_hp = self.health;
        let def_hp = other.health;
        proof {
            assert(-0x1_0000_0000 <= def <= 0x1_0000_0000);
            assert(-0x10_0000_0000 <= def * def_hp <= 0x10_0000_0000) by (nonlinear_arith)
                requires
                    -0x1_0000_0000 <= def <= 0x1_0000_0000,
                    0 <= def_hp <= 10,
            ;
            assert(0 <= base * m <= 0x1_0000_0000_0000_0000) by (nonlinear_arith)
                requires
                    0 <= base < 0x1_0000_0000,
                    0 <= m < 0x1_0000_0000,
            ;
            assert(0 <= base * m * atk_hp <= 0x10_0000_0000_0000_0000) by (nonlinear_arith)
                requires
                    0 <= base * m <= 0x1_0000_0000_0000_0000,
                    0 <= atk_hp <= 10,
            ;
        }
        let factor: i128 = 1000 - def as i128 * def_hp as i128;
        let scaled: i128 = base as i128 * m as i128 * atk_hp as i128;
        proof {
            assert(-0x400_0000_0000_0000_0000_0000_0000 <= scaled * factor
                <= 0x400_0000_0000_0000_0000_0000_0000) by (nonlinear_arith)
                requires
                    0 <= scaled <= 0x10_0000_0000_0000_0000,
                    -0x20_0000_0000 <= factor <= 0x20_0000_0000,
            ;
        }
        let raw: i128 = scaled * factor;
        if raw <= 0 {
            proof {
                if atk_hp == 0 {
                    assert(scaled == 0) by (nonlinear_arith)
                        requires
                            scaled == base * m * atk_hp,
                            atk_hp == 0,
                    ;
                }
            }
            0
        } else {
            proof {
                if atk_hp == 0 {
                    assert(scaled == 0) by (nonlinear_arith)
                        requires
                            scaled == base * m * atk_hp,
                            atk_hp == 0,
                    ;
                    assert(raw == 0);
                }
            }
            (raw / 1_000_000) as u128
        }
    }

    /// Damage (hundredths) dealt back to `other` on `terrain` by this unit
    /// when it strikes back after taking `damage_taken`; the damage taken
    /// does not enter into it.
    pub fn retaliation_damage(&self, damage_taken: u128, other: &Unit, terrain: &TerrainInfo) -> (r: u128)
        requires
            self.wf(),
            other.wf(),
        ensures
            r == damage_of(*self, *other, *terrain),
    {
        self.attack_damage(other, terrain)
    }

    /// Takes `amount` hundredths of damage, rounded to whole health points;
    /// health stops at 0. Returns whether the unit is destroyed.
    pub fn receive_damage(&mut self, amount: u128) -> (r: bool)
        ensures
            *final(self) == damaged(*old(self), amount as int),
            final(self).health <= old(self).health,
            r == (final(self).health == 0),
    {
        let whole = amount / 100 + if amount % 100 >= 50 { 1 } else { 0 };
        assert(whole == rounded_damage(amount as int));
        if (self.health as u128) <= whole {
            self.health = 0;
        } else {
            self.health = self.health - whole as u32;
        }
        true && self.health == 0
    }
}

/// What came of an attack: the damage dealt (hundredths), whether the
/// defender was destroyed, the damage it dealt back if it struck back,
/// whether that destroyed the attacker, and the faction left without units
/// by a destruction, if any.
#[derive(Clone, Copy, Debug, PartialEq, Eq)]
pub struct AttackOutcome {
    pub damage: u128,
    pub defender_destroyed: bool,
    pub retaliation: Option<u128>,
    pub attacker_destroyed: bool,
    pub defeated: Option<Faction>,
}

/// What an attacker on `from` can target depends on the unit standing on
/// `from` only through its attack kind and faction.
proof fn lemma_range_frame(g1: &Grid, g2: &Grid, u1: &Unit, u2: &Unit, from: (u32, u32), t: (u32, u32))
    requires
        g1.spec_size() == g2.spec_size(),
        forall|p: (u32, u32)| p != from ==> g1.unit_at(p) == g2.unit_at(p),
        u1.kind == u2.kind,
        u1.faction == u2.faction,
    ensures
        in_attack_range(g1, u1, from, t) == in_attack_range(g2, u2, from, t),
{
    if let RangeKind::Spear { range } = u1.kind.attack.range {
        if let Some((d, k)) = ray_of(from, t) {
            assert forall|j: int|
                #![trigger blocks_spear(g1, u1, ray_point(from, d, j).0, ray_point(from, d, j).1)]
                #![trigger blocks_spear(g2, u2, ray_point(from, d, j).0, ray_point(from, d, j).1)]
                1 <= j < k implies blocks_spear(
                g1,
                u1,
                ray_point(from, d, j).0,
                ray_point(from, d, j).1,
            ) == blocks_spear(g2, u2, ray_point(from, d, j).0, ray_point(from, d, j).1) by {
                let c = ray_point(from, d, j);
                if in_bounds(g1.spec_size(), c.0, c.1) {
                    assert((c.0 as u32, c.1 as u32) != from);
                }
            }
            assert(ray_reaches(g1, u1, from, d, k) == ray_reaches(g2, u2, from, d, k));
        }
    }
}

/// How an attack of the unit on `pos` against the unit on `target`
/// leaves grid `before` as `after` with outcome `r`: the defender takes the
/// attacker's damage and is removed if destroyed; a surviving defender that
/// has the attacker in its range strikes back with its own damage,
/// computed from its health after the hit, and a destroyed attacker is
/// removed in turn. Nothing else on the grid changes.
pub open spec fn attack_resolved(
    before: Grid,
    after: Grid,
    pos: (u32, u32),
    target: (u32, u32),
    r: AttackOutcome,
) -> bool {
    let a = before.unit_at(pos)->0;
    let d = before.unit_at(target)->0;
    let dmg = damage_of(a, d, *before.tile_at(target).terrain);
    let d2 = damaged(d, dmg);
    let ret = damage_of(d2, a, *before.tile_at(pos).terrain);
    let a2 = damaged(a, ret);
    let strikes_back = d2.health > 0 && in_attack_range(&before, &d, target, pos);
    &&& after.wf()
    &&& after.spec_size() == before.spec_size()
    &&& forall|p: (u32, u32)| after.tile_at(p) == before.tile_at(p)
    &&& forall|p: (u32, u32)| p != pos && p != target ==> after.unit_at(p) == before.unit_at(p)
    &&& r.damage == dmg
    &&& r.defender_destroyed == (d2.health == 0)
    &&& after.unit_at(target) == if d2.health == 0 {
        None
    } else {
        Some(d2)
    }
    &&& r.retaliation == if strikes_back {
        Some(ret as u128)
    } else {
        None
    }
    &&& r.attacker_destroyed == (strikes_back && a2.health == 0)
    &&& after.unit_at(pos) == if !strikes_back {
        Some(a)
    } else if a2.health == 0 {
        None
    } else {
        Some(a2)
    }
    &&& r.defeated == if r.defender_destroyed && !after.has_unit_of(d.faction) {
        Some(d.faction)
    } else if r.attacker_destroyed && !after.has_unit_of(a.faction) {
        Some(a.faction)
    } else {
        None
    }
}

impl Grid {
    /// Resolves an attack of the unit on `pos` against the unit on
    /// `target`. The defender takes the attacker's damage and is removed if
    /// destroyed. A surviving defender that has the attacker in its range
    /// strikes back with its own damage, computed from its health after the
    /// hit, and a destroyed attacker is removed in turn.
    pub fn resolve_attack(&mut self, pos: (u32, u32), target: (u32, u32)) -> (r: AttackOutcome)
        requires
            old(self).wf(),
            old(self).contains(pos),
            old(self).contains(target),
            pos != target,
            old(self).unit_at(pos) is Some,
            old(self).unit_at(target) is Some,
            old(self).unit_at(pos)->0.wf(),
            old(self).unit_at(target)->0.wf(),
        ensures
            attack_resolved(*old(self), *final(self), pos, target, r),
    {
        let ghost g0 = *self;
        let damage = {
            let attacker = self.unit(pos).unwrap();
            let defender = self.unit(target).unwrap();
            attacker.attack_damage(defender, self.terrain(target))
        };
        let mut defender = self.remove_unit(target);
        let ghost d = defender;
        if defender.receive_damage(damage) {
            let defeated = if self.has_units_of(defender.faction) {
                None
            } else {
                Some(defender.faction)
            };
            return AttackOutcome {
                damage,
                defender_destroyed: true,
                retaliation: None,
                attacker_destroyed: false,
                defeated,
            };
        }
        let retaliation = defender.retaliation_damage(damage, self.unit(pos).unwrap(), self.terrain(pos));
        self.add_unit(defender, target);
        let in_range = {
            let striker = self.unit(target).unwrap();
            self.attack_range_when_retaliating(striker, target).includes(pos)
        };
        proof {
            lemma_range_frame(self, &g0, &damaged(d, damage as int), &d, target, pos);
        }
        if !in_range {
            return AttackOutcome {
                damage,
                defender_destroyed: false,
                retaliation: None,
                attacker_destroyed: false,
                defeated: None,
            };
        }
        let mut attacker = self.remove_unit(pos);
        let attacker_destroyed = attacker.receive_damage(retaliation);
        let defeated = if attacker_destroyed {
            if self.has_units_of(attacker.faction) {
                None
            } else {
                Some(attacker.faction)
            }
        } else {
            self.add_unit(attacker, pos);
            None
        };
        AttackOutcome {
            damage,
            defender_destroyed: false,
            retaliation: Some(retaliation),
            attacker_destroyed,
            defeated,
        }
    }
}

} // verus!
