//! Creatures: a stat block with clamped hit points, a resource ledger, a
//! set of actions, and the greedy per-turn decision policy.

use vstd::prelude::*;
use crate::ability::{Ability, StatBlock};
use crate::action::ActionStruct;
use crate::resource::{
    Charge, Ledger, Resource, count_of, is_turn_resource, ledger_sum, ledger_wf,
    lemma_ledger_sum_lt, resources_distinct,
};

verus! {

broadcast use vstd::std_specs::vec::group_vec_axioms;

/// `h` is the highest spell-slot level the ledger names, or zero when it
/// names none at all.
pub open spec fn is_highest_slot(led: Seq<(Resource, i32)>, h: int) -> bool {
    &&& i32::MIN <= h <= i32::MAX
    &&& forall|i: int| 0 <= i < led.len() ==> ((#[trigger] led[i]).0 matches Resource::Spell(l)
        ==> l <= h)
    &&& ((exists|i: int| 0 <= i < led.len() && (#[trigger] led[i]).0 == Resource::Spell(h as i32))
        || (h == 0 && forall|i: int| 0 <= i < led.len() ==> !((#[trigger] led[i]).0 is Spell)))
}

/// `v` forced into the representable hit-point range `[0, i32::MAX]`.
pub open spec fn spec_clamp_hp(v: int) -> int {
    if v <= 0 {
        0
    } else if v >= i32::MAX {
        i32::MAX as int
    } else {
        v
    }
}

/// A creature's stat block: ability scores, save modifiers, initiative,
/// armor class, and current/maximum hit points.
#[derive(Clone, Copy, Debug)]
pub struct MonsterStats {
    pub ability: StatBlock,
    pub saving_throws: StatBlock,
    pub initiative: i32,
    pub armor_class: i32,
    pub hp: i32,
    pub max_hp: i32,
}

impl MonsterStats {
    /// Save modifiers small enough that a d20 roll plus a modifier never
    /// overflows.
    pub open spec fn wf(&self) -> bool {
        self.saving_throws.wf()
    }

    pub fn hp(&self) -> (r: i32)
        ensures
            r == self.hp,
    {
        self.hp
    }

    /// Set the hit-point ceiling; current hit points are cut down to it.
    pub fn set_max_hp(&mut self, amount: i32)
        ensures
            *final(self) == (MonsterStats {
                max_hp: amount,
                hp: if old(self).hp < amount {
                    old(self).hp
                } else {
                    amount
                },
                ..*old(self)
            }),
    {
        self.max_hp = amount;
        if self.hp > self.max_hp {
            self.hp = self.max_hp;
        }
    }

    /// Set current hit points; the ceiling is raised if they exceed it.
    pub fn set_hp(&mut self, amount: i32)
        ensures
            *final(self) == (MonsterStats {
                hp: amount,
                max_hp: if old(self).max_hp > amount {
                    old(self).max_hp
                } else {
                    amount
                },
                ..*old(self)
            }),
    {
        self.hp = amount;
        if self.max_hp < self.hp {
            self.max_hp = self.hp;
        }
    }

    /// Take damage: hit points drop by `amount` but never below zero.
    pub fn decrease_hp(&mut self, amount: i32)
        ensures
            *final(self) == (MonsterStats {
                hp: spec_clamp_hp(old(self).hp - amount) as i32,
                ..*old(self)
            }),
            final(self).hp >= 0,
    {
        let s = (self.hp as i64) - (amount as i64);
        self.hp = if s <= 0 {
            0
        } else if s >= (i32::MAX as i64) {
            i32::MAX
        } else {
            s as i32
        };
    }

    /// Heal: hit points rise by `amount` but never above the ceiling.
    pub fn increase_hp(&mut self, amount: i32)
        ensures
            *final(self) == (MonsterStats {
                hp: if old(self).hp + amount > old(self).max_hp {
                    old(self).max_hp
                } else if old(self).hp + amount < i32::MIN {
                    i32::MIN
                } else {
                    (old(self).hp + amount) as i32
                },
                ..*old(self)
            }),
            old(self).hp <= old(self).max_hp ==> final(self).hp <= old(self).max_hp,
    {
        let s = (self.hp as i64) + (amount as i64);
        self.hp = if s > (self.max_hp as i64) {
            self.max_hp
        } else if s < (i32::MIN as i64) {
            i32::MIN
        } else {
            s as i32
        };
    }

    pub fn armor_class(&self) -> (r: i32)
        ensures
            r == self.armor_class,
    {
        self.armor_class
    }

    /// The saving-throw modifier for one ability.
    pub fn save_mod(&self, ability: Ability) -> (r: i32)
        ensures
            r == self.saving_throws.spec_get(ability),
    {
        self.saving_throws.get(ability)
    }
}

/// A creature in the encounter. "Dead" is a derived state (no hit points
/// left), not a removal from the roster.
#[derive(Debug)]
pub struct Monster {
    pub id: usize,
    pub name: String,
    pub entity_stats: MonsterStats,
    pub team_id: u8,
    pub actions: Vec<(String, ActionStruct)>,
    pub resources: Ledger,
}

impl Monster {
    /// The creature invariant: a sound ledger and well-formed actions.
    pub open spec fn wf(&self) -> bool {
        &&& self.entity_stats.wf()
        &&& ledger_wf(self.resources@)
        &&& forall|i: int| 0 <= i < self.actions@.len() ==> (#[trigger] self.actions@[i]).1@.wf()
    }

    /// The fields an encounter never changes: name, team, id, and every
    /// stat except current hit points. (The ledger, the stored actions and
    /// the hit points themselves are tracked by separate predicates.)
    pub open spec fn same_identity(&self, other: &Monster) -> bool {
        &&& self.id == other.id
        &&& self.name@ == other.name@
        &&& self.team_id == other.team_id
        &&& self.entity_stats.ability == other.entity_stats.ability
        &&& self.entity_stats.saving_throws == other.entity_stats.saving_throws
        &&& self.entity_stats.initiative == other.entity_stats.initiative
        &&& self.entity_stats.armor_class == other.entity_stats.armor_class
        &&& self.entity_stats.max_hp == other.entity_stats.max_hp
    }

    /// Whether some stored action is both affordable and charged.
    pub open spec fn spec_has_available_action(&self) -> bool {
        exists|i: int| 0 <= i < self.actions@.len() && (#[trigger] self.actions@[i]).1@
            .spec_available(self.resources@) && self.actions@[i].1@.charges.spec_has_charges()
    }

    pub fn team(&self) -> (r: u8)
        ensures
            r == self.team_id,
    {
        self.team_id
    }

    pub fn set_team(&mut self, team: u8)
        ensures
            *final(self) == (Monster { team_id: team, ..*old(self) }),
    {
        self.team_id = team;
    }

    pub fn is_dead(&self) -> (r: bool)
        ensures
            r == (self.entity_stats.hp <= 0),
    {
        self.entity_stats.hp() <= 0
    }

    pub fn is_alive(&self) -> (r: bool)
        ensures
            r == (self.entity_stats.hp > 0),
    {
        self.entity_stats.hp() > 0
    }

    pub fn ac(&self) -> (r: i32)
        ensures
            r == self.entity_stats.armor_class,
    {
        self.entity_stats.armor_class()
    }

    pub fn name(&self) -> (r: &str)
        ensures
            r@ == self.name@,
    {
        self.name.as_str()
    }

    pub fn hp(&self) -> (r: i32)
        ensures
            r == self.entity_stats.hp,
    {
        self.entity_stats.hp()
    }

    /// Set both current and maximum hit points to `hp` (used when an
    /// encounter fixes a creature's rolled hit points).
    pub fn set_hp(&mut self, hp: i32)
        ensures
            *final(self) == (Monster {
                entity_stats: MonsterStats {
                    hp,
                    max_hp: hp,
                    ..old(self).entity_stats
                },
                ..*old(self)
            }),
    {
        self.entity_stats.set_hp(hp);
        self.entity_stats.set_max_hp(hp);
    }

    pub fn set_id(&mut self, id: usize)
        ensures
            *final(self) == (Monster { id, ..*old(self) }),
    {
        self.id = id;
    }

    pub fn id(&self) -> (r: usize)
        ensures
            r == self.id,
    {
        self.id
    }

    /// Take damage; hit points never drop below zero.
    pub fn decrease_hp(&mut self, amount: i32)
        ensures
            *final(self) == (Monster {
                entity_stats: MonsterStats {
                    hp: spec_clamp_hp(old(self).entity_stats.hp - amount) as i32,
                    ..old(self).entity_stats
                },
                ..*old(self)
            }),
            final(self).entity_stats.hp >= 0,
    {
        self.entity_stats.decrease_hp(amount);
    }

    /// Heal; hit points never rise above the creature's maximum.
    pub fn increase_hp(&mut self, amount: i32)
        ensures
            *final(self) == (Monster {
                entity_stats: MonsterStats {
                    hp: if old(self).entity_stats.hp + amount > old(self).entity_stats.max_hp {
                        old(self).entity_stats.max_hp
                    } else if old(self).entity_stats.hp + amount < i32::MIN {
                        i32::MIN
                    } else {
                        (old(self).entity_stats.hp + amount) as i32
                    },
                    ..old(self).entity_stats
                },
                ..*old(self)
            }),
    {
        self.entity_stats.increase_hp(amount);
    }

    pub fn save_mod(&self, ability: Ability) -> (r: i32)
        ensures
            r == self.entity_stats.saving_throws.spec_get(ability),
    {
        self.entity_stats.save_mod(ability)
    }

    /// Start-of-turn refill: every per-turn resource present in the ledger
    /// resets to one; per-encounter budgets are untouched.
    #[verifier::loop_isolation(false)]
    pub fn new_turn(&mut self)
        requires
            old(self).wf(),
        ensures
            final(self).wf(),
            final(self).same_identity(old(self)),
            final(self).entity_stats == old(self).entity_stats,
            final(self).actions == old(self).actions,
            final(self).resources@.len() == old(self).resources@.len(),
            ({
                let before = old(self).resources@;
                let after = final(self).resources@;
                &&& forall|i: int| 0 <= i < before.len() ==> (#[trigger] after[i]).0
                    == before[i].0
                &&& forall|i: int| 0 <= i < before.len() ==> (#[trigger] after[i]).1 == if
                    is_turn_resource(before[i].0) {
                    1int
                } else {
                    before[i].1 as int
                }
            }),
    {
        let ghost led0 = self.resources@;
        let n = self.resources.len();
        let mut i: usize = 0;
        while i < n
            invariant
                0 <= i <= n,
                self.id == old(self).id,
                self.name == old(self).name,
                self.team_id == old(self).team_id,
                self.entity_stats == old(self).entity_stats,
                self.actions == old(self).actions,
                self.resources@.len() == led0.len(),
                forall|j: int| 0 <= j < led0.len() ==> (#[trigger] self.resources@[j]).0
                    == led0[j].0,
                forall|j: int| i <= j < led0.len() ==> (#[trigger] self.resources@[j]).1
                    == led0[j].1,
                forall|j: int| 0 <= j < i ==> (#[trigger] self.resources@[j]).1 == if
                    is_turn_resource(led0[j].0) {
                    1int
                } else {
                    led0[j].1 as int
                },
            decreases n - i,
        {
            let key = self.resources[i].0;
            let reset = match key {
                Resource::Action => true,
                Resource::BonusAction => true,
                Resource::SneakAttack => true,
                Resource::SpellAction => true,
                _ => false,
            };
            if reset {
                let ghost led_cur = self.resources@;
                let e = &mut self.resources[i];
                e.1 = 1;
                proof {
                    assert(self.resources@ =~= led_cur.update(i as int, (key, 1i32)));
                }
            }
            i = i + 1;
        }
        proof {
            assert forall|a: int, b: int| 0 <= a < b < self.resources@.len() implies (
            #[trigger] self.resources@[a]).0 != (#[trigger] self.resources@[b]).0 by {
                assert(led0[a].0 != led0[b].0);
            }
        }
    }

    /// The highest spell-slot level named in the ledger, or zero when the
    /// creature has no spell slots at all.
    #[verifier::loop_isolation(false)]
    pub fn highest_spell_slot(&self) -> (r: i32)
        ensures
            is_highest_slot(self.resources@, r as int),
    {
        let mut best: Option<i32> = None;
        let n = self.resources.len();
        let mut i: usize = 0;
        while i < n
            invariant
                0 <= i <= n,
                match best {
                    Some(b) => (exists|j: int| 0 <= j < i && (#[trigger] self.resources@[j]).0
                        == Resource::Spell(b)) && forall|j: int| 0 <= j < i ==> ((
                    #[trigger] self.resources@[j]).0 matches Resource::Spell(l) ==> l <= b),
                    None => forall|j: int| 0 <= j < i ==> !((#[trigger] self.resources@[j]).0
                        is Spell),
                },
            decreases n - i,
        {
            let key = self.resources[i].0;
            match key {
                Resource::Spell(lvl) => {
                    best = match best {
                        Some(b) => {
                            if lvl > b {
                                Some(lvl)
                            } else {
                                Some(b)
                            }
                        },
                        None => Some(lvl),
                    };
                },
                _ => {},
            }
            i = i + 1;
        }
        match best {
            Some(b) => b,
            None => 0,
        }
    }
}

} // verus!

// -- the greedy decision policy -------------------------------------------

verus! {

impl Monster {
    /// Whether the stored action at `i` may be taken right now: it is
    /// affordable from the ledger and still has charges.
    pub open spec fn spec_action_ready(&self, i: int) -> bool {
        &&& 0 <= i < self.actions@.len()
        &&& self.actions@[i].1@.spec_available(self.resources@)
        &&& self.actions@[i].1@.charges.spec_has_charges()
    }

    /// The greedy policy's choice: `i` is ready, no ready action averages
    /// higher, and every earlier ready action averages strictly lower
    /// (ties go to the first in insertion order).
    pub open spec fn spec_chooses(&self, i: int) -> bool {
        &&& self.spec_action_ready(i)
        &&& forall|k: int| self.spec_action_ready(k) ==> #[trigger] self.actions@[k].1@
            .spec_average_x4() <= self.actions@[i].1@.spec_average_x4()
        &&& forall|k: int| 0 <= k < i && self.spec_action_ready(k) ==> #[trigger] self.actions@[k]
            .1@.spec_average_x4() < self.actions@[i].1@.spec_average_x4()
    }

    /// Pick at most one available action by highest average damage, spend
    /// its resources and one of its charges, and hand back a copy of it
    /// for execution. Returns `None`, changing nothing, exactly when no
    /// stored action is both affordable and charged.
    #[verifier::loop_isolation(false)]
    pub fn take_action(&mut self) -> (r: Option<ActionStruct>)
        requires
            old(self).wf(),
        ensures
            final(self).wf(),
            final(self).same_identity(old(self)),
            final(self).entity_stats == old(self).entity_stats,
            r is Some <==> old(self).spec_has_available_action(),
            r is None ==> *final(self) == *old(self),
            r is Some ==> ledger_sum(final(self).resources@) < ledger_sum(old(self).resources@),
            same_gear(old(self), final(self)),
            ({
                let before = old(self).resources@;
                let after = final(self).resources@;
                forall|i: int| 0 <= i < before.len() ==> (#[trigger] after[i]).1 <= before[i].1
            }),
            match r {
                None => true,
                Some(a) => forall|i: int| 0 <= i < a@.components.len() ==> (#[trigger] a@
                    .components[i]).wf(),
            },
            match r {
                None => true,
                Some(a) => exists|j: int|
                    {
                        &&& #[trigger] old(self).spec_chooses(j)
                        &&& a@.charges == old(self).actions@[j].1@.charges.spec_use()
                        &&& a@.resources == old(self).actions@[j].1@.resources
                        &&& a@.components == old(self).actions@[j].1@.components
                        &&& final(self).actions@.len() == old(self).actions@.len()
                        &&& forall|k: int| 0 <= k < old(self).actions@.len() && k != j
                            ==> #[trigger] final(self).actions@[k] == old(self).actions@[k]
                        &&& final(self).actions@[j].0 == old(self).actions@[j].0
                        &&& final(self).actions@[j].1@.charges == old(self).actions@[j].1@.charges
                            .spec_use()
                        &&& final(self).actions@[j].1@.resources == old(self).actions@[j].1@
                            .resources
                        &&& final(self).actions@[j].1@.components == old(self).actions@[j].1@
                            .components
                        &&& final(self).resources@.len() == old(self).resources@.len()
                        &&& forall|i: int| 0 <= i < old(self).resources@.len() ==> (
                        #[trigger] final(self).resources@[i]).0 == old(self).resources@[i].0
                        &&& forall|i: int| 0 <= i < old(self).resources@.len() ==> (
                        #[trigger] final(self).resources@[i]).1 == old(self).resources@[i].1
                            - count_of(old(self).actions@[j].1@.resources, old(self).resources@[i].0)
                    },
            },
    {
        let mut best: Option<usize> = None;
        let mut best_avg: i64 = 0;
        let n = self.actions.len();
        let mut i: usize = 0;
        while i < n
            invariant
                0 <= i <= n,
                *self == *old(self),
                match best {
                    None => forall|k: int| 0 <= k < i ==> !old(self).spec_action_ready(k),
                    Some(j) => {
                        &&& j < i
                        &&& old(self).spec_action_ready(j as int)
                        &&& best_avg == old(self).actions@[j as int].1@.spec_average_x4()
                        &&& forall|k: int| 0 <= k < i && old(self).spec_action_ready(k)
                            ==> #[trigger] old(self).actions@[k].1@.spec_average_x4() <= best_avg
                        &&& forall|k: int| 0 <= k < j && old(self).spec_action_ready(k)
                            ==> #[trigger] old(self).actions@[k].1@.spec_average_x4() < best_avg
                    },
                },
            decreases n - i,
        {
            let entry = &self.actions[i];
            let avail = entry.1.is_available(&self.resources);
            let charged = entry.1.has_charges();
            if avail && charged {
                let avg = entry.1.average_dammage_x4();
                match best {
                    None => {
                        best = Some(i);
                        best_avg = avg;
                    },
                    Some(_) => {
                        if avg > best_avg {
                            best = Some(i);
                            best_avg = avg;
                        }
                    },
                }
            }
            i = i + 1;
        }
        match best {
            None => {
                proof {
                    assert forall|k: int| 0 <= k < old(self).actions@.len() implies !((
                    #[trigger] old(self).actions@[k]).1@.spec_available(old(self).resources@)
                        && old(self).actions@[k].1@.charges.spec_has_charges()) by {
                        assert(!old(self).spec_action_ready(k));
                    }
                    assert(!old(self).spec_has_available_action());
                }
                None
            },
            Some(j) => {
                let ghost jj = j as int;
                let ghost decl = self.actions@[jj].1@.resources;
                let ghost led0 = self.resources@;
                proof {
                    assert(old(self).spec_chooses(jj));
                }
                let action_ref = &self.actions[j].1;
                action_ref.consume_resources(&mut self.resources);
                let e = &mut self.actions[j];
                e.1.use_charge();
                let cloned = (&self.actions[j].1).clone();
                proof {
                    // the spent charge is still a sound counter
                    assert(self.actions@[jj].1@.charges.wf());
                    // the ledger strictly shrank: the first declared
                    // resource's entry lost at least one
                    assert(decl.len() >= 1);
                    assert(crate::resource::ledger_has_positive(led0, decl[0]));
                    let w = choose|x: int|
                        0 <= x < led0.len() && (#[trigger] led0[x]).0 == decl[0] && led0[x].1 > 0;
                    crate::resource::lemma_count_of_present(decl, 0);
                    assert forall|x: int| 0 <= x < led0.len() implies (#[trigger] self
                        .resources@[x]).1 <= led0[x].1 by {
                        crate::resource::lemma_count_of_bounds(decl, led0[x].0);
                    }
                    lemma_ledger_sum_lt(self.resources@, led0, w);
                }
                Some(cloned)
            },
        }
    }
}

} // verus!

verus! {

/// The highest-slot characterization determines its value.
pub proof fn lemma_highest_slot_unique(led: Seq<(Resource, i32)>, a: int, b: int)
    requires
        is_highest_slot(led, a),
        is_highest_slot(led, b),
    ensures
        a == b,
{
    if a != b {
        if exists|i: int| 0 <= i < led.len() && (#[trigger] led[i]).0 == Resource::Spell(
            a as i32,
        ) {
            let i = choose|i: int|
                0 <= i < led.len() && (#[trigger] led[i]).0 == Resource::Spell(a as i32);
            assert(a <= b);
        } else {
            assert(a == 0);
        }
        if exists|i: int| 0 <= i < led.len() && (#[trigger] led[i]).0 == Resource::Spell(
            b as i32,
        ) {
            let i = choose|i: int|
                0 <= i < led.len() && (#[trigger] led[i]).0 == Resource::Spell(b as i32);
            assert(b <= a);
        } else {
            assert(b == 0);
        }
        assert(false);
    }
}

} // verus!

verus! {

/// One charge counter is at most another: the same kind of counter, with
/// a limited count that may only have dropped.
pub open spec fn charge_at_most(b: Charge, a: Charge) -> bool {
    match (a, b) {
        (Charge::Infinite, Charge::Infinite) => true,
        (Charge::Limited(x), Charge::Limited(y)) => y <= x,
        _ => false,
    }
}

/// `b` keeps `a`'s gear: the same stored actions, entry for entry (names,
/// declared costs, component trees; only the charge counters may have
/// dropped through use), and a ledger with the same keys in the same
/// order.
pub open spec fn same_gear(a: &Monster, b: &Monster) -> bool {
    &&& b.actions@.len() == a.actions@.len()
    &&& forall|i: int| 0 <= i < a.actions@.len() ==> {
        let x = #[trigger] a.actions@[i];
        let y = b.actions@[i];
        &&& y.0@ == x.0@
        &&& y.1@.resources == x.1@.resources
        &&& y.1@.components == x.1@.components
        &&& charge_at_most(y.1@.charges, x.1@.charges)
    }
    &&& b.resources@.len() == a.resources@.len()
    &&& forall|i: int| 0 <= i < a.resources@.len() ==> (#[trigger] b.resources@[i]).0
        == a.resources@[i].0
}

/// Whether an action is available depends only on the creature's stored
/// actions and ledger, never on its hit points.
pub proof fn lemma_available_same_gear(a: &Monster, b: &Monster)
    requires
        a.actions == b.actions,
        a.resources == b.resources,
    ensures
        a.spec_has_available_action() == b.spec_has_available_action(),
{
    if a.spec_has_available_action() {
        let i = choose|i: int|
            0 <= i < a.actions@.len() && (#[trigger] a.actions@[i]).1@.spec_available(
                a.resources@,
            ) && a.actions@[i].1@.charges.spec_has_charges();
        assert(b.actions@[i].1@.spec_available(b.resources@)
            && b.actions@[i].1@.charges.spec_has_charges());
    }
    if b.spec_has_available_action() {
        let i = choose|i: int|
            0 <= i < b.actions@.len() && (#[trigger] b.actions@[i]).1@.spec_available(
                b.resources@,
            ) && b.actions@[i].1@.charges.spec_has_charges();
        assert(a.actions@[i].1@.spec_available(a.resources@)
            && a.actions@[i].1@.charges.spec_has_charges());
    }
}

} // verus!

verus! {

/// Keeping one's gear is reflexive.
pub proof fn lemma_same_gear_refl(a: &Monster)
    ensures
        same_gear(a, a),
{
    assert forall|i: int| 0 <= i < a.actions@.len() implies {
        let x = #[trigger] a.actions@[i];
        let y = a.actions@[i];
        &&& y.0@ == x.0@
        &&& y.1@.resources == x.1@.resources
        &&& y.1@.components == x.1@.components
        &&& charge_at_most(y.1@.charges, x.1@.charges)
    } by {
        assert(charge_at_most(a.actions@[i].1@.charges, a.actions@[i].1@.charges));
    }
}

/// Keeping one's gear is transitive.
pub proof fn lemma_same_gear_trans(a: &Monster, b: &Monster, c: &Monster)
    requires
        same_gear(a, b),
        same_gear(b, c),
    ensures
        same_gear(a, c),
{
    assert forall|i: int| 0 <= i < a.actions@.len() implies {
        let x = #[trigger] a.actions@[i];
        let y = c.actions@[i];
        &&& y.0@ == x.0@
        &&& y.1@.resources == x.1@.resources
        &&& y.1@.components == x.1@.components
        &&& charge_at_most(y.1@.charges, x.1@.charges)
    } by {
        assert(charge_at_most(b.actions@[i].1@.charges, a.actions@[i].1@.charges));
        assert(charge_at_most(c.actions@[i].1@.charges, b.actions@[i].1@.charges));
    }
}

} // verus!
