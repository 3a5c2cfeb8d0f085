//! The encounter scheduler: owns the roster, runs rounds and turns, and
//! detects the win condition.

use vstd::prelude::*;
use crate::monster::{Monster, same_gear, spec_clamp_hp};
use crate::roll::Roller;

verus! {

broadcast use vstd::std_specs::vec::group_vec_axioms;

/// An encounter: the creature roster (each holding its roster index as its
/// id) and the shared source of random draws.
pub struct Fight {
    pub entities: Vec<Monster>,
    pub roller: Roller,
}

/// `b` is `a` after an encounter step: the same roster, creature by
/// creature, up to hit points, ledgers and charges.
pub open spec fn same_roster(a: Seq<Monster>, b: Seq<Monster>) -> bool {
    &&& a.len() == b.len()
    &&& forall|i: int| 0 <= i < a.len() ==> (#[trigger] b[i]).same_identity(&a[i])
}

/// Every living creature has spent its way out of options: no stored
/// action is both affordable and charged for any creature still standing.
pub open spec fn all_turns_spent(es: Seq<Monster>, upto: int) -> bool {
    forall|j: int| 0 <= j < upto ==> ((#[trigger] es[j]).entity_stats.hp > 0 ==> !es[j]
        .spec_has_available_action())
}

/// Everyone keeps their gear: stored actions persist entry for entry
/// (only charge counters may drop) and ledgers keep their keys.
pub open spec fn same_gear_roster(a: Seq<Monster>, b: Seq<Monster>) -> bool {
    &&& a.len() == b.len()
    &&& forall|i: int| 0 <= i < a.len() ==> same_gear(&a[i], &#[trigger] b[i])
}

/// Every ledger shows a refill followed by consumption: after the round,
/// per-turn entries hold at most one, and per-encounter entries hold no
/// more than they did before the round.
pub open spec fn round_ledger(a: &Monster, b: &Monster) -> bool {
    forall|i: int| 0 <= i < a.resources@.len() ==> {
        let e0 = #[trigger] a.resources@[i];
        let v = b.resources@[i].1;
        if is_turn_resource(e0.0) {
            v <= 1
        } else {
            v <= e0.1
        }
    }
}

/// `round_ledger`, creature by creature.
pub open spec fn round_ledgers(a: Seq<Monster>, b: Seq<Monster>) -> bool {
    &&& a.len() == b.len()
    &&& forall|i: int| 0 <= i < a.len() ==> round_ledger(&a[i], &#[trigger] b[i])
}

/// Nobody comes back: every creature that was already down in `a` has
/// the same hit points in `b`.
pub open spec fn dead_stay_down(a: Seq<Monster>, b: Seq<Monster>) -> bool {
    forall|i: int| 0 <= i < a.len() && a[i].entity_stats.hp <= 0 ==> (#[trigger] b[i]).entity_stats
        .hp == a[i].entity_stats.hp
}

/// At least two different teams still have a living member: a fight is
/// actually asked for.
pub open spec fn multiple_teams_alive(es: Seq<Monster>) -> bool {
    exists|i: int, j: int|
        0 <= i < es.len() && 0 <= j < es.len() && (#[trigger] es[i]).entity_stats.hp > 0 && (
        #[trigger] es[j]).entity_stats.hp > 0 && es[i].team_id != es[j].team_id
}

/// Exactly the creatures of team `t` are still standing, and at least one
/// is: `t` is the sole surviving team.
pub open spec fn spec_sole_team(es: Seq<Monster>, t: u8) -> bool {
    &&& exists|i: int| 0 <= i < es.len() && (#[trigger] es[i]).entity_stats.hp > 0
        && es[i].team_id == t
    &&& forall|i: int| 0 <= i < es.len() && (#[trigger] es[i]).entity_stats.hp > 0 ==> es[i].team_id
        == t
}

impl Fight {
    /// The encounter invariant: every creature is well formed and holds
    /// its roster index as its id.
    pub open spec fn wf(&self) -> bool {
        forall|i: int| 0 <= i < self.entities@.len() ==> (#[trigger] self.entities@[i]).wf()
            && self.entities@[i].id == i
    }

    /// Take ownership of a roster; each creature is assigned its roster
    /// index as a stable id.
    #[verifier::loop_isolation(false)]
    pub fn new(entities: Vec<Monster>, roller: Roller) -> (r: Fight)
        ensures
            r.roller == roller,
            r.entities@.len() == entities@.len(),
            forall|i: int| 0 <= i < entities@.len() ==> #[trigger] r.entities@[i] == (Monster {
                id: i as usize,
                ..entities@[i]
            }),
            (forall|i: int| 0 <= i < entities@.len() ==> (#[trigger] entities@[i]).wf()) ==> r.wf(),
    {
        let ghost es0 = entities@;
        let mut entities = entities;
        let n = entities.len();
        let mut i: usize = 0;
        while i < n
            invariant
                0 <= i <= n,
                entities@.len() == es0.len(),
                forall|j: int| i <= j < es0.len() ==> #[trigger] entities@[j] == es0[j],
                forall|j: int| 0 <= j < i ==> #[trigger] entities@[j] == (Monster {
                    id: j as usize,
                    ..es0[j]
                }),
            decreases n - i,
        {
            let ghost before = entities@;
            let m = &mut entities[i];
            m.set_id(i);
            proof {
                assert(entities@ =~= before.update(
                    i as int,
                    Monster { id: i, ..before[i as int] },
                ));
            }
            i = i + 1;
        }
        Fight { entities, roller }
    }

    /// The creature's remaining hit points.
    pub fn get_hp(&self, id: usize) -> (r: i32)
        requires
            id < self.entities@.len(),
        ensures
            r == self.entities@[id as int].entity_stats.hp,
    {
        self.entities[id].hp()
    }

    /// The creature's armor class.
    pub fn get_ac(&self, id: usize) -> (r: i32)
        requires
            id < self.entities@.len(),
        ensures
            r == self.entities@[id as int].entity_stats.armor_class,
    {
        self.entities[id].ac()
    }

    /// Damage one creature: its hit points drop, floored at zero; nothing
    /// else in the encounter changes.
    pub fn decrease_hp(&mut self, id: usize, amount: i32)
        requires
            id < old(self).entities@.len(),
        ensures
            final(self).roller == old(self).roller,
            final(self).entities@.len() == old(self).entities@.len(),
            ({
                let before = old(self).entities@;
                let after = final(self).entities@;
                forall|i: int| 0 <= i < before.len() && i != id ==> #[trigger] after[i]
                    == before[i]
            }),
            final(self).entities@[id as int] == (Monster {
                entity_stats: crate::monster::MonsterStats {
                    hp: spec_clamp_hp(old(self).entities@[id as int].entity_stats.hp - amount)
                        as i32,
                    ..old(self).entities@[id as int].entity_stats
                },
                ..old(self).entities@[id as int]
            }),
    {
        let ghost before = self.entities@;
        let m = &mut self.entities[id];
        m.decrease_hp(amount);
        proof {
            assert(self.entities@ =~= before.update(id as int, self.entities@[id as int]));
        }
    }

    /// Borrow the roster.
    pub fn get_entities(&self) -> (r: &Vec<Monster>)
        ensures
            r == self.entities,
    {
        &self.entities
    }

    /// The teams that still have a living member, each listed once, in
    /// first-appearance order.
    #[verifier::loop_isolation(false)]
    pub fn team_alive(&self) -> (teams: Vec<u8>)
        ensures
            forall|t: u8| teams@.contains(t) <==> exists|i: int|
                0 <= i < self.entities@.len() && (#[trigger] self.entities@[i]).entity_stats.hp
                    > 0 && self.entities@[i].team_id == t,
            forall|a: int, b: int| 0 <= a < b < teams@.len() ==> teams@[a] != teams@[b],
    {
        let mut teams: Vec<u8> = Vec::new();
        let n = self.entities.len();
        let mut i: usize = 0;
        while i < n
            invariant
                0 <= i <= n,
                forall|t: u8| teams@.contains(t) <==> exists|j: int|
                    0 <= j < i && (#[trigger] self.entities@[j]).entity_stats.hp > 0
                        && self.entities@[j].team_id == t,
                forall|a: int, b: int| 0 <= a < b < teams@.len() ==> teams@[a] != teams@[b],
            decreases n - i,
        {
            let e = &self.entities[i];
            if e.is_alive() {
                let t = e.team();
                let mut seen = false;
                let mut k: usize = 0;
                while k < teams.len()
                    invariant
                        0 <= k <= teams@.len(),
                        seen == exists|a: int| 0 <= a < k && teams@[a] == t,
                    decreases teams@.len() - k,
                {
                    if teams[k] == t {
                        seen = true;
                    }
                    k = k + 1;
                }
                if !seen {
                    let ghost before = teams@;
                    teams.push(t);
                    proof {
                        assert(!before.contains(t));
                        assert forall|u: u8| teams@.contains(u) implies (exists|j: int|
                            0 <= j < i + 1 && (#[trigger] self.entities@[j]).entity_stats.hp > 0
                                && self.entities@[j].team_id == u) by {
                            let a = choose|a: int| 0 <= a < teams@.len() && teams@[a] == u;
                            if a < before.len() {
                                assert(before.contains(u));
                            } else {
                                assert(u == t);
                            }
                        }
                        assert forall|u: u8|
                            (exists|j: int|
                                0 <= j < i + 1 && (#[trigger] self.entities@[j]).entity_stats.hp
                                    > 0 && self.entities@[j].team_id == u) implies teams@.contains(
                            u,
                        ) by {
                            if u == t {
                                assert(teams@[teams@.len() - 1] == t);
                            } else {
                                let j = choose|j: int|
                                    0 <= j < i + 1 && (#[trigger] self.entities@[j]).entity_stats
                                        .hp > 0 && self.entities@[j].team_id == u;
                                assert(j < i);
                                assert(before.contains(u));
                                let a = choose|a: int|
                                    0 <= a < before.len() && before[a] == u;
                                assert(teams@[a] == u);
                            }
                        }
                    }
                } else {
                    proof {
                        assert(teams@.contains(t));
                        assert forall|u: u8| teams@.contains(u) implies (exists|j: int|
                            0 <= j < i + 1 && (#[trigger] self.entities@[j]).entity_stats.hp > 0
                                && self.entities@[j].team_id == u) by {
                            if u != t {
                                let j = choose|j: int|
                                    0 <= j < i && (#[trigger] self.entities@[j]).entity_stats.hp
                                        > 0 && self.entities@[j].team_id == u;
                                assert(0 <= j < i + 1);
                            } else {
                                assert(self.entities@[i as int].entity_stats.hp > 0);
                            }
                        }
                    }
                }
            } else {
                proof {
                    assert forall|u: u8|
                        (exists|j: int|
                            0 <= j < i + 1 && (#[trigger] self.entities@[j]).entity_stats.hp > 0
                                && self.entities@[j].team_id == u) implies teams@.contains(u) by {
                        let j = choose|j: int|
                            0 <= j < i + 1 && (#[trigger] self.entities@[j]).entity_stats.hp > 0
                                && self.entities@[j].team_id == u;
                        assert(j < i);
                    }
                }
            }
            i = i + 1;
        }
        teams
    }
}

} // verus!

// -- condition checks and the recursive apply pass ------------------------

verus! {

use crate::ability::StatBlock;
use crate::action::{
    ActionComponent, ActionCondition, CompModel, CondModel, condition_wf, spec_target_count,
    view_list, lemma_view_list,
};
use crate::roll::spec_clamp;

/// Whether a condition passes when every draw comes from a fixed roller
/// yielding `v`, against a target with the given armor class and save
/// modifiers.
pub open spec fn spec_cond_pass_fixed(c: CondModel, v: int, ac: int, saves: StatBlock) -> bool {
    match c {
        CondModel::True => true,
        CondModel::False => false,
        CondModel::Hit { attack_modifier } => spec_clamp(v, 1, 20) + attack_modifier >= ac,
        CondModel::Save { save_dc, ability } => saves.spec_get(ability) as int + spec_clamp(
            v,
            1,
            20,
        ) >= save_dc,
    }
}

/// A tree with no condition nodes: its effect does not depend on any
/// draw.
pub open spec fn no_condition(m: CompModel) -> bool
    decreases m,
{
    match m {
        CompModel::Nothing => true,
        CompModel::Condition { .. } => false,
        CompModel::Multi { next } => forall|i: int|
            0 <= i < next.len() ==> no_condition(#[trigger] next[i]),
        CompModel::Damage { .. } => true,
        CompModel::HalfDamage { .. } => true,
    }
}

/// The target's hit points after a condition-free tree is applied: each
/// leaf subtracts its pre-rolled amount, clamped at zero.
pub open spec fn spec_apply_leaves(m: CompModel, hp: int) -> int
    decreases m,
{
    match m {
        CompModel::Nothing => hp,
        CompModel::Condition { .. } => hp,
        CompModel::Multi { next } => spec_apply_leaves_list(next, hp),
        CompModel::Damage { rolled, .. } => spec_clamp_hp(hp - rolled),
        CompModel::HalfDamage { rolled, .. } => spec_clamp_hp(hp - rolled),
    }
}

pub open spec fn spec_apply_leaves_list(s: Seq<CompModel>, hp: int) -> int
    decreases s,
{
    if s.len() == 0 {
        hp
    } else {
        spec_apply_leaves(s.last(), spec_apply_leaves_list(s.drop_last(), hp))
    }
}

/// The target's hit points after the tree is applied with every draw
/// fixed to `v`: conditions branch deterministically, each taken leaf
/// subtracts its pre-rolled amount.
pub open spec fn spec_apply_fixed(m: CompModel, v: int, ac: int, saves: StatBlock, hp: int) -> int
    decreases m,
{
    match m {
        CompModel::Nothing => hp,
        CompModel::Condition { condition, success, failure, .. } => {
            if spec_cond_pass_fixed(condition, v, ac, saves) {
                spec_apply_fixed(*success, v, ac, saves, hp)
            } else {
                spec_apply_fixed(*failure, v, ac, saves, hp)
            }
        },
        CompModel::Multi { next } => spec_apply_fixed_list(next, v, ac, saves, hp),
        CompModel::Damage { rolled, .. } => spec_clamp_hp(hp - rolled),
        CompModel::HalfDamage { rolled, .. } => spec_clamp_hp(hp - rolled),
    }
}

pub open spec fn spec_apply_fixed_list(
    s: Seq<CompModel>,
    v: int,
    ac: int,
    saves: StatBlock,
    hp: int,
) -> int
    decreases s,
{
    if s.len() == 0 {
        hp
    } else {
        spec_apply_fixed(s.last(), v, ac, saves, spec_apply_fixed_list(s.drop_last(), v, ac, saves, hp))
    }
}

/// `b` is `a` with at most its current hit points changed.
pub open spec fn hp_only_change(a: Monster, b: Monster) -> bool {
    b == (Monster {
        entity_stats: crate::monster::MonsterStats {
            hp: b.entity_stats.hp,
            ..a.entity_stats
        },
        ..a
    })
}

impl ActionCondition {
    /// Evaluate this condition against a target: a hit condition rolls a
    /// d20 plus the attack modifier against the target's armor class, a
    /// save condition rolls a d20 plus the target's save modifier against
    /// the difficulty class; hit or pass on greater-or-equal.
    pub fn pass(&self, fight: &Fight, target: usize) -> (r: bool)
        requires
            condition_wf(self@),
            fight.wf(),
            target < fight.entities@.len(),
        ensures
            self@ is True ==> r,
            self@ is False ==> !r,
            ({
                let tgt = fight.entities@[target as int];
                &&& (self@ matches CondModel::Hit { attack_modifier } ==> {
                    &&& (tgt.entity_stats.armor_class <= attack_modifier + 1 ==> r)
                    &&& (tgt.entity_stats.armor_class > attack_modifier + 20 ==> !r)
                })
                &&& (self@ matches CondModel::Save { save_dc, ability } ==> {
                    &&& (save_dc <= tgt.entity_stats.saving_throws.spec_get(ability) + 1 ==> r)
                    &&& (save_dc > tgt.entity_stats.saving_throws.spec_get(ability) + 20 ==> !r)
                })
            }),
            fight.roller.is_fixed() ==> r == spec_cond_pass_fixed(
                self@,
                fight.roller.fixed_value() as int,
                fight.entities@[target as int].entity_stats.armor_class as int,
                fight.entities@[target as int].entity_stats.saving_throws,
            ),
    {
        match self {
            ActionCondition::True => true,
            ActionCondition::False => false,
            ActionCondition::SaveCondition { save_dc, ability } => {
                let save_mod = (&fight.entities[target]).save_mod(*ability);
                let d = fight.roller.draw(1, 20);
                save_mod + d >= *save_dc
            },
            ActionCondition::HitCondition { attack_modifier } => {
                let d = fight.roller.draw(1, 20);
                let hit = d + *attack_modifier;
                let ac = fight.get_ac(target);
                hit >= ac
            },
        }
    }
}

impl ActionComponent {
    /// Apply this tree to one target: damage leaves subtract their
    /// pre-rolled amount from the target's hit points (clamped at zero),
    /// condition nodes evaluate their check and recurse into exactly one
    /// branch, and sequences apply every child in order. Nothing but the
    /// target's hit points changes; with a condition-free tree or a fixed
    /// roller the outcome is exactly the modeled one.
    #[verifier::loop_isolation(false)]
    pub fn apply(&self, source: usize, target: usize, fight: &mut Fight)
        requires
            self@.wf(),
            old(fight).wf(),
            source < old(fight).entities@.len(),
            target < old(fight).entities@.len(),
        ensures
            final(fight).wf(),
            final(fight).roller == old(fight).roller,
            final(fight).entities@.len() == old(fight).entities@.len(),
            ({
                let before = old(fight).entities@;
                let after = final(fight).entities@;
                &&& forall|i: int| 0 <= i < before.len() && i != target ==> #[trigger] after[i]
                    == before[i]
                &&& hp_only_change(before[target as int], after[target as int])
                &&& no_condition(self@) ==> after[target as int].entity_stats.hp
                    == spec_apply_leaves(self@, before[target as int].entity_stats.hp as int)
                &&& old(fight).roller.is_fixed() ==> after[target as int].entity_stats.hp
                    == spec_apply_fixed(
                    self@,
                    old(fight).roller.fixed_value() as int,
                    before[target as int].entity_stats.armor_class as int,
                    before[target as int].entity_stats.saving_throws,
                    before[target as int].entity_stats.hp as int,
                )
            }),
        decreases self,
    {
        match self {
            ActionComponent::Nothing => {},
            ActionComponent::Damage { rolled, .. } => {
                fight.decrease_hp(target, *rolled);
            },
            ActionComponent::HalfDamage { rolled, .. } => {
                fight.decrease_hp(target, *rolled);
            },
            ActionComponent::Condition { condition, success, failure, .. } => {
                let p = condition.pass(&*fight, target);
                if p {
                    (&**success).apply(source, target, fight);
                } else {
                    (&**failure).apply(source, target, fight);
                }
            },
            ActionComponent::MultiComponent { next } => {
                proof {
                    lemma_view_list(next@);
                }
                let ghost models = view_list(next@);
                let ghost before = old(fight).entities@;
                let ghost hp0 = before[target as int].entity_stats.hp as int;
                let ghost ac0 = before[target as int].entity_stats.armor_class as int;
                let ghost saves0 = before[target as int].entity_stats.saving_throws;
                let n = next.len();
                let mut k: usize = 0;
                while k < n
                    invariant
                        0 <= k <= n,
                        fight.wf(),
                        fight.roller == old(fight).roller,
                        fight.entities@.len() == before.len(),
                        forall|i: int| 0 <= i < before.len() && i != target
                            ==> #[trigger] fight.entities@[i] == before[i],
                        hp_only_change(before[target as int], fight.entities@[target as int]),
                        no_condition(self@) ==> fight.entities@[target as int].entity_stats.hp
                            == spec_apply_leaves_list(models.take(k as int), hp0),
                        old(fight).roller.is_fixed() ==> fight.entities@[target as int]
                            .entity_stats.hp == spec_apply_fixed_list(
                            models.take(k as int),
                            old(fight).roller.fixed_value() as int,
                            ac0,
                            saves0,
                            hp0,
                        ),
                    decreases n - k,
                {
                    proof {
                        assert(decreases_to!(self => next));
                        assert(decreases_to!(next => next@));
                        assert(decreases_to!(next@ => next@[k as int]));
                        assert(next@[k as int]@ == models[k as int]);
                        assert(models[k as int].wf());
                        if no_condition(self@) {
                            assert(no_condition(models[k as int]));
                        }
                    }
                    let ghost mid_hp = fight.entities@[target as int].entity_stats.hp as int;
                    (&next[k]).apply(source, target, fight);
                    proof {
                        let kk = k as int;
                        assert(models.take(kk + 1).drop_last() =~= models.take(kk));
                        assert(models.take(kk + 1).last() == models[kk]);
                    }
                    k = k + 1;
                }
                proof {
                    assert(models.take(n as int) =~= models);
                }
            },
        }
    }
}

} // verus!

// -- target selection -----------------------------------------------------

verus! {

/// The first `tc` living, opposing-team roster indices at or after `i`,
/// in roster order: the engine's deterministic targeting rule.
pub open spec fn spec_targets_from(es: Seq<Monster>, team: u8, tc: int, i: int) -> Seq<usize>
    decreases es.len() - i,
{
    if i < 0 || i >= es.len() || tc <= 0 {
        Seq::empty()
    } else if es[i].team_id != team && es[i].entity_stats.hp > 0 {
        seq![i as usize] + spec_targets_from(es, team, tc - 1, i + 1)
    } else {
        spec_targets_from(es, team, tc, i + 1)
    }
}

/// Every selected target is a living creature of another team, at a
/// roster index at or after the scan start.
pub proof fn lemma_targets_from_props(es: Seq<Monster>, team: u8, tc: int, i: int)
    requires
        es.len() <= usize::MAX,
    ensures
        ({
            let r = spec_targets_from(es, team, tc, i);
            &&& forall|k: int| 0 <= k < r.len() ==> i <= #[trigger] r[k] < es.len() && es[r[k]
                as int].team_id != team && es[r[k] as int].entity_stats.hp > 0
            &&& forall|a: int, b: int| 0 <= a < b < r.len() ==> r[a] < r[b]
        }),
    decreases es.len() - i,
{
    if i < 0 || i >= es.len() || tc <= 0 {
    } else if es[i].team_id != team && es[i].entity_stats.hp > 0 {
        lemma_targets_from_props(es, team, tc - 1, i + 1);
        let rest = spec_targets_from(es, team, tc - 1, i + 1);
        let r = spec_targets_from(es, team, tc, i);
        assert(r == seq![i as usize] + rest);
        assert forall|k: int| 0 <= k < r.len() implies i <= #[trigger] r[k] < es.len() && es[r[k]
            as int].team_id != team && es[r[k] as int].entity_stats.hp > 0 by {
            if k == 0 {
                assert(r[0] == i as usize);
            } else {
                assert(r[k] == rest[k - 1]);
            }
        }
        assert forall|a: int, b: int| 0 <= a < b < r.len() implies r[a] < r[b] by {
            assert(r[b] == rest[b - 1]);
            assert(i + 1 <= rest[b - 1]);
            if a == 0 {
                assert(r[0] == i as usize);
            } else {
                assert(r[a] == rest[a - 1]);
            }
        }
    } else {
        lemma_targets_from_props(es, team, tc, i + 1);
        let r = spec_targets_from(es, team, tc, i);
        let r2 = spec_targets_from(es, team, tc, i + 1);
        assert(r == r2);
        assert forall|k: int| 0 <= k < r.len() implies i <= #[trigger] r[k] < es.len() && es[r[k]
            as int].team_id != team && es[r[k] as int].entity_stats.hp > 0 by {
            assert(r[k] == r2[k]);
            assert(i + 1 <= r2[k]);
        }
        assert forall|a: int, b: int| 0 <= a < b < r.len() implies r[a] < r[b] by {
            assert(r[a] == r2[a] && r[b] == r2[b]);
        }
    }
}

impl Monster {
    /// The opposing, living targets this component strikes: the first
    /// `target_count` eligible creatures in roster order, fewer when not
    /// that many are standing.
    #[verifier::loop_isolation(false)]
    pub fn get_targets(&self, fight: &Fight, action: &ActionComponent) -> (r: Vec<usize>)
        requires
            action@.wf(),
        ensures
            r@ == spec_targets_from(
                fight.entities@,
                self.team_id,
                spec_target_count(action@),
                0,
            ),
    {
        let ghost es = fight.entities@;
        let ghost team = self.team_id;
        let tc0 = action.target_count();
        let ghost tc_spec = spec_target_count(action@);
        let mut out: Vec<usize> = Vec::new();
        let mut remaining = tc0;
        let n = fight.entities.len();
        let mut i: usize = 0;
        while i < n && remaining > 0
            invariant
                0 <= i <= n,
                remaining <= tc_spec,
                out@.len() + remaining == tc_spec || (out@.len() < tc_spec && remaining == 0),
                spec_targets_from(es, team, tc_spec, 0) == out@ + spec_targets_from(
                    es,
                    team,
                    remaining as int,
                    i as int,
                ),
            decreases n - i,
        {
            let e = &fight.entities[i];
            if e.team() != self.team_id && e.is_alive() {
                let ghost out_old = out@;
                out.push(i);
                remaining = remaining - 1;
                proof {
                    assert(spec_targets_from(es, team, remaining + 1, i as int) == seq![i]
                        + spec_targets_from(es, team, remaining as int, i as int + 1));
                    assert(out@ =~= out_old.push(i));
                    assert(out_old + (seq![i] + spec_targets_from(
                        es,
                        team,
                        remaining as int,
                        i as int + 1,
                    )) =~= out@ + spec_targets_from(es, team, remaining as int, i as int + 1));
                }
            } else {
                proof {
                    assert(spec_targets_from(es, team, remaining as int, i as int)
                        == spec_targets_from(es, team, remaining as int, i as int + 1));
                }
            }
            i = i + 1;
        }
        proof {
            assert(spec_targets_from(es, team, remaining as int, i as int) =~= Seq::<
                usize,
            >::empty());
            assert(out@ + Seq::<usize>::empty() =~= out@);
        }
        out
    }
}

} // verus!

// -- rounds, turns, and the win condition ---------------------------------

verus! {

use crate::resource::{is_turn_resource, ledger_sum};

/// The largest number of rounds `play` will run before declaring the
/// encounter a stalemate. A round either makes progress or repeats
/// forever (for example, two creatures that cannot hit each other), and
/// no bounded encounter between damaging sides comes near this many
/// rounds.
pub const MAX_ROUNDS: u32 = 1_000_000;

impl Fight {
    /// One full round: every creature, in roster order, refills its
    /// per-turn resources and then keeps taking its best available action
    /// until none is affordable or it is dead. Afterwards no living
    /// creature has an affordable, charged action left; identities and
    /// gear persist (only hit points, ledger quantities and charge
    /// counters move), the downed stay down, and every ledger shows the
    /// refill followed by consumption.
    #[verifier::loop_isolation(false)]
    pub fn advance_round(&mut self)
        requires
            old(self).wf(),
        ensures
            final(self).wf(),
            final(self).roller == old(self).roller,
            same_roster(old(self).entities@, final(self).entities@),
            dead_stay_down(old(self).entities@, final(self).entities@),
            all_turns_spent(final(self).entities@, final(self).entities@.len() as int),
            same_gear_roster(old(self).entities@, final(self).entities@),
            round_ledgers(old(self).entities@, final(self).entities@),
    {
        let n = self.entities.len();
        proof {
            assert forall|j: int| 0 <= j < self.entities@.len() implies same_gear(
                &self.entities@[j],
                &(#[trigger] self.entities@[j]),
            ) by {
                crate::monster::lemma_same_gear_refl(&self.entities@[j]);
            }
        }
        let mut idx: usize = 0;
        while idx < n
            invariant
                0 <= idx <= n,
                n == self.entities@.len(),
                self.wf(),
                self.roller == old(self).roller,
                same_roster(old(self).entities@, self.entities@),
                dead_stay_down(old(self).entities@, self.entities@),
                all_turns_spent(self.entities@, idx as int),
                same_gear_roster(old(self).entities@, self.entities@),
                forall|j: int| 0 <= j < idx ==> round_ledger(
                    &old(self).entities@[j],
                    &(#[trigger] self.entities@[j]),
                ),
                forall|j: int| idx <= j < n ==> (#[trigger] self.entities@[j]).resources@ == old(
                    self,
                ).entities@[j].resources@,
            decreases n - idx,
        {
            let ghost before_turn = self.entities@;
            {
                let m = &mut self.entities[idx];
                m.new_turn();
            }
            proof {
                assert(self.entities@ =~= before_turn.update(
                    idx as int,
                    self.entities@[idx as int],
                ));
                // the refill touches neither the stored actions nor the
                // ledger keys, so gear carries over
                crate::monster::lemma_same_gear_refl(&before_turn[idx as int]);
                assert(same_gear(&before_turn[idx as int], &self.entities@[idx as int]));
                crate::monster::lemma_same_gear_trans(
                    &old(self).entities@[idx as int],
                    &before_turn[idx as int],
                    &self.entities@[idx as int],
                );
                // and leaves the ledger as a fresh refill of the pre-round one
                assert forall|i: int|
                    0 <= i < old(self).entities@[idx as int].resources@.len() implies {
                    let e0 = #[trigger] old(self).entities@[idx as int].resources@[i];
                    let v = self.entities@[idx as int].resources@[i].1;
                    if is_turn_resource(e0.0) {
                        v <= 1
                    } else {
                        v <= e0.1
                    }
                } by {
                    assert(before_turn[idx as int].resources@[i]
                        == old(self).entities@[idx as int].resources@[i]);
                }
                assert(round_ledger(
                    &old(self).entities@[idx as int],
                    &self.entities@[idx as int],
                ));
            }
            let mut turn_over = false;
            while !turn_over
                invariant
                    idx < n,
                    n == self.entities@.len(),
                    self.wf(),
                    self.roller == old(self).roller,
                    same_roster(old(self).entities@, self.entities@),
                    dead_stay_down(old(self).entities@, self.entities@),
                    all_turns_spent(self.entities@, idx as int),
                    same_gear_roster(old(self).entities@, self.entities@),
                    forall|j: int| 0 <= j < idx ==> round_ledger(
                        &old(self).entities@[j],
                        &(#[trigger] self.entities@[j]),
                    ),
                    round_ledger(
                        &old(self).entities@[idx as int],
                        &self.entities@[idx as int],
                    ),
                    forall|j: int| idx < j < n ==> (#[trigger] self.entities@[j]).resources@
                        == old(self).entities@[j].resources@,
                    turn_over ==> self.entities@[idx as int].entity_stats.hp <= 0
                        || !self.entities@[idx as int].spec_has_available_action(),
                decreases
                    ledger_sum(self.entities@[idx as int].resources@),
                    (if turn_over {
                        0int
                    } else {
                        1int
                    }),
            {
                let alive = (&self.entities[idx]).is_alive();
                if !alive {
                    turn_over = true;
                    continue;
                }
                let ghost before_take = self.entities@;
                let action_opt = {
                    let m = &mut self.entities[idx];
                    m.take_action()
                };
                proof {
                    assert(self.entities@ =~= before_take.update(
                        idx as int,
                        self.entities@[idx as int],
                    ));
                    // the selection spent resources and a charge, nothing more
                    crate::monster::lemma_same_gear_trans(
                        &old(self).entities@[idx as int],
                        &before_take[idx as int],
                        &self.entities@[idx as int],
                    );
                    assert forall|i: int|
                        0 <= i < old(self).entities@[idx as int].resources@.len() implies {
                        let e0 = #[trigger] old(self).entities@[idx as int].resources@[i];
                        let v = self.entities@[idx as int].resources@[i].1;
                        if is_turn_resource(e0.0) {
                            v <= 1
                        } else {
                            v <= e0.1
                        }
                    } by {
                        assert(self.entities@[idx as int].resources@[i].1
                            <= before_take[idx as int].resources@[i].1);
                    }
                    assert(round_ledger(
                        &old(self).entities@[idx as int],
                        &self.entities@[idx as int],
                    ));
                }
                match action_opt {
                    None => {
                        turn_over = true;
                    },
                    Some(action) => {
                        let ghost sum_after_take = ledger_sum(
                            self.entities@[idx as int].resources@,
                        );
                        proof {
                            assert(sum_after_take < ledger_sum(
                                before_take[idx as int].resources@,
                            ));
                        }
                        let mut action = action;
                        action.ready_for_apply(&self.roller);
                        let ghost my_team = self.entities@[idx as int].team_id;
                        let comps = action.get_components();
                        proof {
                            lemma_view_list(comps@);
                        }
                        let cn = comps.len();
                        let mut k: usize = 0;
                        while k < cn
                            invariant
                                idx < n,
                                k <= cn,
                                cn == comps@.len(),
                                n == self.entities@.len(),
                                self.wf(),
                                self.roller == old(self).roller,
                                same_roster(old(self).entities@, self.entities@),
                                dead_stay_down(old(self).entities@, self.entities@),
                                all_turns_spent(self.entities@, idx as int),
                                same_gear_roster(old(self).entities@, self.entities@),
                                forall|j: int| 0 <= j < idx ==> round_ledger(
                                    &old(self).entities@[j],
                                    &(#[trigger] self.entities@[j]),
                                ),
                                round_ledger(
                                    &old(self).entities@[idx as int],
                                    &self.entities@[idx as int],
                                ),
                                forall|j: int| idx < j < n ==> (#[trigger] self.entities@[j]).resources@
                                    == old(self).entities@[j].resources@,
                                ledger_sum(self.entities@[idx as int].resources@)
                                    == sum_after_take,
                                self.entities@[idx as int].team_id == my_team,
                            decreases cn - k,
                        {
                            let comp = &comps[k];
                            proof {
                                assert(comp@ == view_list(comps@)[k as int]);
                                assert(comp@.wf());
                            }
                            let targets = {
                                let me = &self.entities[idx];
                                me.get_targets(&*self, comp)
                            };
                            proof {
                                lemma_targets_from_props(
                                    self.entities@,
                                    my_team,
                                    spec_target_count(comp@),
                                    0,
                                );
                            }
                            let ghost es_at_select = self.entities@;
                            proof {
                                assert(dead_stay_down(old(self).entities@, es_at_select));
                            }
                            let tn = targets.len();
                            let mut t: usize = 0;
                            while t < tn
                                invariant
                                    idx < n,
                                    t <= tn,
                                    tn == targets@.len(),
                                    n == self.entities@.len(),
                                    self.wf(),
                                    self.roller == old(self).roller,
                                    same_roster(old(self).entities@, self.entities@),
                                    dead_stay_down(old(self).entities@, self.entities@),
                                    all_turns_spent(self.entities@, idx as int),
                                    same_gear_roster(old(self).entities@, self.entities@),
                                    forall|j: int| 0 <= j < idx ==> round_ledger(
                                        &old(self).entities@[j],
                                        &(#[trigger] self.entities@[j]),
                                    ),
                                    round_ledger(
                                        &old(self).entities@[idx as int],
                                        &self.entities@[idx as int],
                                    ),
                                    forall|j: int| idx < j < n ==> (#[trigger] self.entities@[j]).resources@
                                        == old(self).entities@[j].resources@,
                                    ledger_sum(self.entities@[idx as int].resources@)
                                        == sum_after_take,
                                    self.entities@[idx as int].team_id == my_team,
                                    forall|e: int| 0 <= e < targets@.len()
                                        ==> #[trigger] targets@[e] < n && self.entities@[targets@[e]
                                        as int].team_id != my_team && es_at_select[targets@[e]
                                        as int].entity_stats.hp > 0,
                                    forall|a: int, b: int| 0 <= a < b < targets@.len()
                                        ==> targets@[a] < targets@[b],
                                    forall|e: int| t <= e < targets@.len() ==> (
                                    #[trigger] self.entities@[targets@[e] as int]).entity_stats
                                        .hp == es_at_select[targets@[e] as int].entity_stats.hp,
                                decreases tn - t,
                            {
                                let tgt = targets[t];
                                proof {
                                    assert(self.entities@[tgt as int].team_id != my_team);
                                    assert(tgt != idx);
                                    // the selected target was standing when chosen, so it
                                    // was not one of the creatures already down
                                    assert(old(self).entities@[tgt as int].entity_stats.hp > 0);
                                }
                                let ghost es_before_apply = self.entities@;
                                proof {
                                    // this target is untouched since selection, so it is
                                    // still standing right before the blow lands
                                    assert(es_before_apply[tgt as int].entity_stats.hp
                                        == es_at_select[tgt as int].entity_stats.hp);
                                }
                                comp.apply(idx, tgt, self);
                                proof {
                                    assert(hp_only_change(
                                        es_before_apply[tgt as int],
                                        self.entities@[tgt as int],
                                    ));
                                    // a blow moves hit points only: gear and
                                    // ledgers are untouched everywhere
                                    assert forall|j: int| 0 <= j < n implies same_gear(
                                        &old(self).entities@[j],
                                        &(#[trigger] self.entities@[j]),
                                    ) by {
                                        if j == tgt {
                                            crate::monster::lemma_same_gear_refl(
                                                &es_before_apply[j],
                                            );
                                            assert(same_gear(
                                                &es_before_apply[j],
                                                &self.entities@[j],
                                            ));
                                            crate::monster::lemma_same_gear_trans(
                                                &old(self).entities@[j],
                                                &es_before_apply[j],
                                                &self.entities@[j],
                                            );
                                        } else {
                                            assert(self.entities@[j] == es_before_apply[j]);
                                        }
                                    }
                                    assert forall|j: int| 0 <= j < n implies (
                                    #[trigger] self.entities@[j]).resources@
                                        == es_before_apply[j].resources@ by {
                                        if j != tgt {
                                            assert(self.entities@[j] == es_before_apply[j]);
                                        }
                                    }
                                    assert forall|j: int| 0 <= j < idx implies ((
                                    #[trigger] self.entities@[j]).entity_stats.hp > 0
                                        ==> !self.entities@[j].spec_has_available_action()) by {
                                        if j == tgt {
                                            assert(es_before_apply[j].entity_stats.hp > 0);
                                            crate::monster::lemma_available_same_gear(
                                                &es_before_apply[j],
                                                &self.entities@[j],
                                            );
                                        } else {
                                            assert(self.entities@[j] == es_before_apply[j]);
                                        }
                                    }
                                    // later targets sit strictly further down the roster
                                    assert forall|e: int| t + 1 <= e < targets@.len() implies (
                                    #[trigger] self.entities@[targets@[e] as int]).entity_stats
                                        .hp == es_at_select[targets@[e] as int].entity_stats
                                        .hp by {
                                        assert(targets@[t as int] < targets@[e]);
                                        assert(self.entities@[targets@[e] as int]
                                            == es_before_apply[targets@[e] as int]);
                                    }
                                }
                                t = t + 1;
                            }
                            k = k + 1;
                        }
                        proof {
                            crate::resource::lemma_ledger_sum_nonneg(
                                self.entities@[idx as int].resources@,
                            );
                        }
                    },
                }
            }
            idx = idx + 1;
        }
    }

    /// Run the encounter to its end: rounds follow one another until at
    /// most one team has a living member (or the stalemate bound is hit).
    /// The result is `Some(team)` exactly when that team's creatures are
    /// the only ones left standing, and `None` when nobody survived — or
    /// when the stalemate bound was reached with several teams still up
    /// and no end in sight. Whenever the opening roster actually holds
    /// two opposed living teams, at least one round is fought and the
    /// final state is quiescent.
    #[verifier::loop_isolation(false)]
    pub fn play(&mut self) -> (r: Option<u8>)
        requires
            old(self).wf(),
        ensures
            final(self).wf(),
            final(self).roller == old(self).roller,
            same_roster(old(self).entities@, final(self).entities@),
            dead_stay_down(old(self).entities@, final(self).entities@),
            same_gear_roster(old(self).entities@, final(self).entities@),
            multiple_teams_alive(old(self).entities@) ==> all_turns_spent(
                final(self).entities@,
                final(self).entities@.len() as int,
            ) && round_ledgers(old(self).entities@, final(self).entities@),
            match r {
                Some(t) => spec_sole_team(final(self).entities@, t),
                None => forall|t: u8| !spec_sole_team(final(self).entities@, t),
            },
    {
        proof {
            assert forall|j: int| 0 <= j < self.entities@.len() implies same_gear(
                &self.entities@[j],
                &(#[trigger] self.entities@[j]),
            ) by {
                crate::monster::lemma_same_gear_refl(&self.entities@[j]);
            }
        }
        let mut teams = self.team_alive();
        let mut rounds: u32 = 0;
        while teams.len() > 1 && rounds < MAX_ROUNDS
            invariant
                self.wf(),
                self.roller == old(self).roller,
                same_roster(old(self).entities@, self.entities@),
                dead_stay_down(old(self).entities@, self.entities@),
                same_gear_roster(old(self).entities@, self.entities@),
                rounds == 0 ==> self.entities@ == old(self).entities@,
                rounds > 0 ==> all_turns_spent(self.entities@, self.entities@.len() as int)
                    && round_ledgers(old(self).entities@, self.entities@),
                rounds <= MAX_ROUNDS,
                forall|t: u8| teams@.contains(t) <==> exists|i: int|
                    0 <= i < self.entities@.len() && (#[trigger] self.entities@[i]).entity_stats
                        .hp > 0 && self.entities@[i].team_id == t,
                forall|a: int, b: int| 0 <= a < b < teams@.len() ==> teams@[a] != teams@[b],
            decreases MAX_ROUNDS - rounds,
        {
            let ghost es_mid = self.entities@;
            self.advance_round();
            proof {
                // one more round composes with what came before: gear only
                // degrades, per-encounter entries only shrink
                assert forall|j: int| 0 <= j < old(self).entities@.len() implies same_gear(
                    &old(self).entities@[j],
                    &(#[trigger] self.entities@[j]),
                ) by {
                    crate::monster::lemma_same_gear_trans(
                        &old(self).entities@[j],
                        &es_mid[j],
                        &self.entities@[j],
                    );
                }
                assert forall|j: int| 0 <= j < old(self).entities@.len() implies round_ledger(
                    &old(self).entities@[j],
                    &(#[trigger] self.entities@[j]),
                ) by {
                    assert(round_ledger(&es_mid[j], &self.entities@[j]));
                    assert forall|i: int|
                        0 <= i < old(self).entities@[j].resources@.len() implies {
                        let e0 = #[trigger] old(self).entities@[j].resources@[i];
                        let v = self.entities@[j].resources@[i].1;
                        if is_turn_resource(e0.0) {
                            v <= 1
                        } else {
                            v <= e0.1
                        }
                    } by {
                        assert(es_mid[j].resources@[i].0
                            == old(self).entities@[j].resources@[i].0);
                        if rounds == 0 {
                            assert(es_mid[j] == old(self).entities@[j]);
                        } else {
                            assert(round_ledger(&old(self).entities@[j], &es_mid[j]));
                        }
                    }
                }
            }
            teams = self.team_alive();
            rounds = rounds + 1;
        }
        proof {
            if multiple_teams_alive(old(self).entities@) && rounds == 0 {
                // with the roster untouched and two living teams listed,
                // the round loop could not have been skipped
                let (wi, wj) = choose|wi: int, wj: int|
                    0 <= wi < old(self).entities@.len() && 0 <= wj < old(self).entities@.len()
                        && (#[trigger] old(self).entities@[wi]).entity_stats.hp > 0 && (
                    #[trigger] old(self).entities@[wj]).entity_stats.hp > 0 && old(
                        self,
                    ).entities@[wi].team_id != old(self).entities@[wj].team_id;
                assert(self.entities@ == old(self).entities@);
                let t0 = self.entities@[wi].team_id;
                let t1 = self.entities@[wj].team_id;
                assert(teams@.contains(t0));
                assert(teams@.contains(t1));
                let a = choose|a: int| 0 <= a < teams@.len() && teams@[a] == t0;
                let b = choose|b: int| 0 <= b < teams@.len() && teams@[b] == t1;
                assert(a != b);
                assert(teams@.len() >= 2);
                assert(false);
            }
        }
        if teams.len() == 1 {
            let t = teams[0];
            proof {
                assert(teams@.contains(t));
                assert forall|i: int|
                    0 <= i < self.entities@.len() && (#[trigger] self.entities@[i]).entity_stats
                        .hp > 0 implies self.entities@[i].team_id == t by {
                    let u = self.entities@[i].team_id;
                    assert(teams@.contains(u));
                    let a = choose|a: int| 0 <= a < teams@.len() && teams@[a] == u;
                    assert(a == 0);
                }
                assert(spec_sole_team(self.entities@, t));
            }
            Some(t)
        } else {
            proof {
                assert forall|t: u8| !spec_sole_team(self.entities@, t) by {
                    if teams@.len() == 0 {
                        if spec_sole_team(self.entities@, t) {
                            let i = choose|i: int|
                                0 <= i < self.entities@.len() && (#[trigger] self.entities@[i])
                                    .entity_stats.hp > 0 && self.entities@[i].team_id == t;
                            assert(teams@.contains(t));
                        }
                    } else {
                        let t0 = teams@[0];
                        let t1 = teams@[1];
                        assert(teams@.contains(t0) && teams@.contains(t1));
                        assert(t0 != t1);
                        if spec_sole_team(self.entities@, t) {
                            let i0 = choose|i: int|
                                0 <= i < self.entities@.len() && (#[trigger] self.entities@[i])
                                    .entity_stats.hp > 0 && self.entities@[i].team_id == t0;
                            let i1 = choose|i: int|
                                0 <= i < self.entities@.len() && (#[trigger] self.entities@[i])
                                    .entity_stats.hp > 0 && self.entities@[i].team_id == t1;
                            assert(self.entities@[i0].team_id == t);
                            assert(self.entities@[i1].team_id == t);
                            assert(false);
                        }
                    }
                }
            }
            None
        }
    }
}

} // verus!

// -- laws of the resolution pass ------------------------------------------

verus! {

/// Pre-roll determinism: once the pre-roll pass has cached every damage
/// roll, a condition-free tree inflicts an amount that depends on the
/// tree alone — whatever value the roller would yield and whatever armor
/// class or save modifiers a target brings, every target entering with
/// the same hit points leaves with the same hit points.
pub proof fn lemma_preroll_determinism(
    m: CompModel,
    v: int,
    ac: int,
    saves: StatBlock,
    hp: int,
)
    requires
        no_condition(m),
    ensures
        spec_apply_fixed(m, v, ac, saves, hp) == spec_apply_leaves(m, hp),
    decreases m,
{
    match m {
        CompModel::Multi { next } => {
            lemma_preroll_determinism_list(next, v, ac, saves, hp);
        },
        _ => {},
    }
}

pub proof fn lemma_preroll_determinism_list(
    s: Seq<CompModel>,
    v: int,
    ac: int,
    saves: StatBlock,
    hp: int,
)
    requires
        forall|i: int| 0 <= i < s.len() ==> no_condition(#[trigger] s[i]),
    ensures
        spec_apply_fixed_list(s, v, ac, saves, hp) == spec_apply_leaves_list(s, hp),
    decreases s,
{
    if s.len() > 0 {
        assert(forall|i: int| 0 <= i < s.drop_last().len() ==> no_condition(
            #[trigger] s.drop_last()[i],
        ));
        lemma_preroll_determinism_list(s.drop_last(), v, ac, saves, hp);
        assert(s.last() == s[s.len() - 1]);
        lemma_preroll_determinism(
            s.last(),
            v,
            ac,
            saves,
            spec_apply_leaves_list(s.drop_last(), hp),
        );
    }
}

} // verus!
