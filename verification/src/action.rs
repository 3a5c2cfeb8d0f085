//! Actions: the recursive effect tree a creature executes on its turn,
//! plus the charge and resource gating that decides availability.

use vstd::prelude::*;
use crate::ability::{Ability, STAT_LIMIT};
use crate::formula::Formula;
use crate::resource::{Charge, Resource, Ledger, count_of, ledger_has_positive, ledger_keys_distinct, ledger_wf, lemma_count_of_bounds, lemma_count_of_distinct, lemma_count_of_member, lemma_count_of_push, resources_distinct};
use crate::roll::Roller;

verus! {

broadcast use vstd::std_specs::vec::group_vec_axioms;

/// Largest target count a well-formed condition node may carry.
pub const TARGET_COUNT_LIMIT: i32 = 1_000_000;

/// Bound on the (absolute, four-times-scaled) average damage of a
/// well-formed component tree, so averages can be summed in an `i64`.
pub const AVERAGE_X4_LIMIT: i64 = 1_000_000_000_000;

/// A probabilistic gate over one (source, target) pair: always true,
/// always false, an attack roll against armor class, or a saving throw
/// against a difficulty class.
#[derive(Clone, Copy, Debug)]
pub enum ActionCondition {
    True,
    False,
    HitCondition { attack_modifier: i32 },
    SaveCondition { save_dc: i32, ability: Ability },
}

/// The mathematical model of a condition.
pub enum CondModel {
    True,
    False,
    Hit { attack_modifier: int },
    Save { save_dc: int, ability: Ability },
}

impl View for ActionCondition {
    type V = CondModel;

    open spec fn view(&self) -> CondModel {
        match *self {
            ActionCondition::True => CondModel::True,
            ActionCondition::False => CondModel::False,
            ActionCondition::HitCondition { attack_modifier } => CondModel::Hit {
                attack_modifier: attack_modifier as int,
            },
            ActionCondition::SaveCondition { save_dc, ability } => CondModel::Save {
                save_dc: save_dc as int,
                ability,
            },
        }
    }
}

impl ActionCondition {
    /// Modifiers and difficulty classes stay small enough that a d20 roll
    /// plus a modifier never overflows.
    pub open spec fn wf(&self) -> bool {
        match *self {
            ActionCondition::True => true,
            ActionCondition::False => true,
            ActionCondition::HitCondition { attack_modifier } => -STAT_LIMIT <= attack_modifier
                <= STAT_LIMIT,
            ActionCondition::SaveCondition { save_dc, .. } => -STAT_LIMIT <= save_dc
                <= STAT_LIMIT,
        }
    }

    /// The condition with its attack modifier replaced, if it is a hit
    /// condition; anything else is returned unchanged.
    pub fn set_hit_roll(self, attack_modifier: i32) -> (r: Self)
        ensures
            r@ == spec_cond_set_hit_roll(self@, attack_modifier as int),
    {
        match self {
            ActionCondition::HitCondition { .. } => ActionCondition::HitCondition {
                attack_modifier,
            },
            other => other,
        }
    }

    /// The condition with its save difficulty replaced, if it is a save
    /// condition; anything else is returned unchanged.
    pub fn set_save_dc(self, save_dc: i32) -> (r: Self)
        ensures
            r@ == spec_cond_set_save_dc(self@, save_dc as int),
    {
        match self {
            ActionCondition::SaveCondition { ability, .. } => ActionCondition::SaveCondition {
                save_dc,
                ability,
            },
            other => other,
        }
    }
}

pub open spec fn spec_cond_set_hit_roll(c: CondModel, attack_modifier: int) -> CondModel {
    match c {
        CondModel::Hit { .. } => CondModel::Hit { attack_modifier },
        other => other,
    }
}

pub open spec fn spec_cond_set_save_dc(c: CondModel, save_dc: int) -> CondModel {
    match c {
        CondModel::Save { ability, .. } => CondModel::Save { save_dc, ability },
        other => other,
    }
}

/// One node of the recursive effect tree inside an action.
#[derive(Debug)]
pub enum ActionComponent {
    /// A leaf with no effect.
    Nothing,
    /// Branch on a condition, with the number of targets this component
    /// selects; only condition nodes carry a target count.
    Condition {
        target_count: i32,
        condition: ActionCondition,
        success: Box<ActionComponent>,
        failure: Box<ActionComponent>,
    },
    /// Sibling sub-trees applied in sequence to the same target.
    MultiComponent { next: Vec<ActionComponent> },
    /// Subtract the pre-rolled amount from the target's hit points.
    Damage { damage: Formula, rolled: i32 },
    /// Like `Damage`, but the pre-roll pass stores half the roll,
    /// rounded down.
    HalfDamage { damage: Formula, rolled: i32 },
}

/// The mathematical model of a component tree.
pub enum CompModel {
    Nothing,
    Condition {
        target_count: int,
        condition: CondModel,
        success: Box<CompModel>,
        failure: Box<CompModel>,
    },
    Multi { next: Seq<CompModel> },
    Damage { damage: Formula, rolled: int },
    HalfDamage { damage: Formula, rolled: int },
}

impl View for ActionComponent {
    type V = CompModel;

    open spec fn view(&self) -> CompModel
        decreases self,
    {
        match self {
            ActionComponent::Nothing => CompModel::Nothing,
            ActionComponent::Condition { target_count, condition, success, failure } => {
                CompModel::Condition {
                    target_count: *target_count as int,
                    condition: condition@,
                    success: Box::new((**success).view()),
                    failure: Box::new((**failure).view()),
                }
            },
            ActionComponent::MultiComponent { next } => CompModel::Multi {
                next: view_list(next@),
            },
            ActionComponent::Damage { damage, rolled } => CompModel::Damage {
                damage: *damage,
                rolled: *rolled as int,
            },
            ActionComponent::HalfDamage { damage, rolled } => CompModel::HalfDamage {
                damage: *damage,
                rolled: *rolled as int,
            },
        }
    }
}

/// The models of a list of components, in order.
pub open spec fn view_list(s: Seq<ActionComponent>) -> Seq<CompModel>
    decreases s,
{
    if s.len() == 0 {
        Seq::empty()
    } else {
        view_list(s.drop_last()).push(s.last().view())
    }
}

/// `view_list` maps the list elementwise.
pub proof fn lemma_view_list(s: Seq<ActionComponent>)
    ensures
        view_list(s).len() == s.len(),
        forall|i: int| 0 <= i < s.len() ==> view_list(s)[i] == (#[trigger] s[i])@,
    decreases s,
{
    if s.len() > 0 {
        lemma_view_list(s.drop_last());
        assert(view_list(s) == view_list(s.drop_last()).push(s.last().view()));
        assert forall|i: int| 0 <= i < s.len() implies view_list(s)[i] == (#[trigger] s[i])@ by {
            assert(view_list(s)[i] == view_list(s.drop_last()).push(s.last().view())[i]);
            if i < s.len() - 1 {
                assert(view_list(s.drop_last())[i] == s.drop_last()[i]@);
                assert(s.drop_last()[i] == s[i]);
            } else {
                assert(s.last() == s[i]);
            }
        }
    }
}

impl CompModel {
    /// The tree invariant: formulas and conditions are well formed, target
    /// counts are bounded, rolled values fit a machine integer, and the
    /// scaled average damage of every node is bounded.
    pub open spec fn wf(&self) -> bool
        decreases self,
    {
        &&& self.abs_average_x4() <= AVERAGE_X4_LIMIT
        &&& match *self {
            CompModel::Nothing => true,
            CompModel::Condition { target_count, condition, ref success, ref failure } => {
                &&& 0 <= target_count <= TARGET_COUNT_LIMIT
                &&& condition_wf(condition)
                &&& success.wf()
                &&& failure.wf()
            },
            CompModel::Multi { next } => forall|i: int|
                0 <= i < next.len() ==> (#[trigger] next[i]).wf(),
            CompModel::Damage { damage, rolled } => damage.wf() && i32::MIN <= rolled
                <= i32::MAX,
            CompModel::HalfDamage { damage, rolled } => damage.wf() && i32::MIN <= rolled
                <= i32::MAX,
        }
    }

    /// Four times the expected damage this node is counted for by the
    /// decision policy: condition nodes count only their success branch,
    /// sequences sum their children.
    pub open spec fn average_x4(&self) -> int
        decreases self,
    {
        match *self {
            CompModel::Nothing => 0,
            CompModel::Condition { ref success, .. } => success.average_x4(),
            CompModel::Multi { next } => average_x4_sum(next),
            CompModel::Damage { damage, .. } => 2 * damage.spec_average_x2(),
            CompModel::HalfDamage { damage, .. } => damage.spec_average_x2(),
        }
    }

    /// An upper bound on the absolute scaled average of any node of this
    /// tree, used to keep the exec computation inside `i64`.
    pub open spec fn abs_average_x4(&self) -> int
        decreases self,
    {
        match *self {
            CompModel::Nothing => 0,
            CompModel::Condition { ref success, ref failure, .. } => success.abs_average_x4()
                + failure.abs_average_x4(),
            CompModel::Multi { next } => abs_average_x4_sum(next),
            CompModel::Damage { damage, .. } => 2 * damage.dice.spec_average_x2() + 4 * abs(
                damage.fixed as int,
            ),
            CompModel::HalfDamage { damage, .. } => damage.dice.spec_average_x2() + 2 * abs(
                damage.fixed as int,
            ),
        }
    }
}

pub open spec fn abs(v: int) -> int {
    if v < 0 {
        -v
    } else {
        v
    }
}

pub open spec fn condition_wf(c: CondModel) -> bool {
    match c {
        CondModel::True => true,
        CondModel::False => true,
        CondModel::Hit { attack_modifier } => -STAT_LIMIT <= attack_modifier <= STAT_LIMIT,
        CondModel::Save { save_dc, .. } => -STAT_LIMIT <= save_dc <= STAT_LIMIT,
    }
}

/// The summed scaled average of a list of sibling components.
pub open spec fn average_x4_sum(s: Seq<CompModel>) -> int
    decreases s,
{
    if s.len() == 0 {
        0
    } else {
        average_x4_sum(s.drop_last()) + s.last().average_x4()
    }
}

/// The summed absolute-average bound of a list of sibling components.
pub open spec fn abs_average_x4_sum(s: Seq<CompModel>) -> int
    decreases s,
{
    if s.len() == 0 {
        0
    } else {
        abs_average_x4_sum(s.drop_last()) + s.last().abs_average_x4()
    }
}

} // verus!

// -- transformations of the component tree --------------------------------

verus! {

/// `set_hit_roll` over the model: every hit condition in the tree gets the
/// new attack modifier.
pub open spec fn spec_set_hit_roll(m: CompModel, attack_modifier: int) -> CompModel
    decreases m,
{
    match m {
        CompModel::Condition { target_count, condition, success, failure } => {
            CompModel::Condition {
                target_count,
                condition: spec_cond_set_hit_roll(condition, attack_modifier),
                success: Box::new(spec_set_hit_roll(*success, attack_modifier)),
                failure: Box::new(spec_set_hit_roll(*failure, attack_modifier)),
            }
        },
        CompModel::Multi { next } => CompModel::Multi {
            next: spec_set_hit_roll_list(next, attack_modifier),
        },
        other => other,
    }
}

pub open spec fn spec_set_hit_roll_list(s: Seq<CompModel>, attack_modifier: int) -> Seq<CompModel>
    decreases s,
{
    if s.len() == 0 {
        Seq::empty()
    } else {
        spec_set_hit_roll_list(s.drop_last(), attack_modifier).push(
            spec_set_hit_roll(s.last(), attack_modifier),
        )
    }
}

/// `set_save_dc` over the model: every save condition in the tree gets the
/// new difficulty class.
pub open spec fn spec_set_save_dc(m: CompModel, save_dc: int) -> CompModel
    decreases m,
{
    match m {
        CompModel::Condition { target_count, condition, success, failure } => {
            CompModel::Condition {
                target_count,
                condition: spec_cond_set_save_dc(condition, save_dc),
                success: Box::new(spec_set_save_dc(*success, save_dc)),
                failure: Box::new(spec_set_save_dc(*failure, save_dc)),
            }
        },
        CompModel::Multi { next } => CompModel::Multi {
            next: spec_set_save_dc_list(next, save_dc),
        },
        other => other,
    }
}

pub open spec fn spec_set_save_dc_list(s: Seq<CompModel>, save_dc: int) -> Seq<CompModel>
    decreases s,
{
    if s.len() == 0 {
        Seq::empty()
    } else {
        spec_set_save_dc_list(s.drop_last(), save_dc).push(
            spec_set_save_dc(s.last(), save_dc),
        )
    }
}

/// `set_target_count` over the model: every condition node gets the new
/// target count.
pub open spec fn spec_set_target_count(m: CompModel, target_count: int) -> CompModel
    decreases m,
{
    match m {
        CompModel::Condition { condition, success, failure, .. } => {
            CompModel::Condition {
                target_count,
                condition,
                success: Box::new(spec_set_target_count(*success, target_count)),
                failure: Box::new(spec_set_target_count(*failure, target_count)),
            }
        },
        CompModel::Multi { next } => CompModel::Multi {
            next: spec_set_target_count_list(next, target_count),
        },
        other => other,
    }
}

pub open spec fn spec_set_target_count_list(s: Seq<CompModel>, target_count: int) -> Seq<
    CompModel,
>
    decreases s,
{
    if s.len() == 0 {
        Seq::empty()
    } else {
        spec_set_target_count_list(s.drop_last(), target_count).push(
            spec_set_target_count(s.last(), target_count),
        )
    }
}

impl ActionComponent {
    /// Set the attack modifier of every hit condition in the tree (used
    /// when a spell's attack bonus is bound in).
    #[verifier::loop_isolation(false)]
    pub fn set_hit_roll(self, attack_modifier: i32) -> (r: Self)
        ensures
            r@ == spec_set_hit_roll(self@, attack_modifier as int),
        decreases self,
    {
        let ghost gself = self;
        match self {
            ActionComponent::Condition { target_count, condition, success, failure } => {
                ActionComponent::Condition {
                    target_count,
                    condition: condition.set_hit_roll(attack_modifier),
                    success: Box::new((*success).set_hit_roll(attack_modifier)),
                    failure: Box::new((*failure).set_hit_roll(attack_modifier)),
                }
            },
            ActionComponent::MultiComponent { next } => {
                proof {
                    assert(decreases_to!(gself => next));
                }
                let ghost gnext = next;
                let ghost n = gnext@.len() as int;
                let mut rest = next;
                let mut out: Vec<ActionComponent> = Vec::new();
                while rest.len() > 0
                    invariant
                        rest@ == gnext@.skip(n - rest@.len()),
                        0 <= n - rest@.len() <= n,
                        n == gnext@.len(),
                        view_list(out@) == spec_set_hit_roll_list(
                            view_list(gnext@.take(n - rest@.len())),
                            attack_modifier as int,
                        ),
                        gself == (ActionComponent::MultiComponent { next: gnext }),
                    decreases rest@.len(),
                {
                    let ghost i = n - rest@.len();
                    let x = rest.remove(0);
                    proof {
                        assert(x == gnext@[i]);
                        assert(rest@ =~= gnext@.skip(i + 1));
                        assert(decreases_to!(gself => gnext));
                        assert(decreases_to!(gnext => gnext@));
                        assert(decreases_to!(gnext@ => gnext@[i]));
                    }
                    let y = x.set_hit_roll(attack_modifier);
                    let ghost out_old = out@;
                    out.push(y);
                    proof {
                        let m_i = gnext@[i]@;
                        assert(gnext@.take(i + 1).drop_last() =~= gnext@.take(i));
                        assert(gnext@.take(i + 1).last() == gnext@[i]);
                        assert(view_list(gnext@.take(i + 1)) == view_list(gnext@.take(i)).push(
                            m_i,
                        ));
                        let q = view_list(gnext@.take(i));
                        assert(q.push(m_i).drop_last() =~= q);
                        assert(spec_set_hit_roll_list(q.push(m_i), attack_modifier as int)
                            == spec_set_hit_roll_list(q, attack_modifier as int).push(
                            spec_set_hit_roll(m_i, attack_modifier as int),
                        ));
                        assert(out@.drop_last() =~= out_old);
                        assert(view_list(out@) == view_list(out_old).push(y@));
                    }
                }
                proof {
                    assert(gnext@.take(n) =~= gnext@);
                }
                ActionComponent::MultiComponent { next: out }
            },
            other => other,
        }
    }

    /// Set the difficulty class of every save condition in the tree (used
    /// when a spell's save DC is bound in).
    #[verifier::loop_isolation(false)]
    pub fn set_save_dc(self, save_dc: i32) -> (r: Self)
        ensures
            r@ == spec_set_save_dc(self@, save_dc as int),
        decreases self,
    {
        let ghost gself = self;
        match self {
            ActionComponent::Condition { target_count, condition, success, failure } => {
                ActionComponent::Condition {
                    target_count,
                    condition: condition.set_save_dc(save_dc),
                    success: Box::new((*success).set_save_dc(save_dc)),
                    failure: Box::new((*failure).set_save_dc(save_dc)),
                }
            },
            ActionComponent::MultiComponent { next } => {
                proof {
                    assert(decreases_to!(gself => next));
                }
                let ghost gnext = next;
                let ghost n = gnext@.len() as int;
                let mut rest = next;
                let mut out: Vec<ActionComponent> = Vec::new();
                while rest.len() > 0
                    invariant
                        rest@ == gnext@.skip(n - rest@.len()),
                        0 <= n - rest@.len() <= n,
                        view_list(out@) == spec_set_save_dc_list(
                            view_list(gnext@.take(n - rest@.len())),
                            save_dc as int,
                        ),
                    decreases rest@.len(),
                {
                    let ghost i = n - rest@.len();
                    let x = rest.remove(0);
                    proof {
                        assert(x == gnext@[i]);
                        assert(rest@ =~= gnext@.skip(i + 1));
                        assert(decreases_to!(gself => gnext));
                        assert(decreases_to!(gnext => gnext@));
                        assert(decreases_to!(gnext@ => gnext@[i]));
                    }
                    let y = x.set_save_dc(save_dc);
                    let ghost out_old = out@;
                    out.push(y);
                    proof {
                        let m_i = gnext@[i]@;
                        assert(gnext@.take(i + 1).drop_last() =~= gnext@.take(i));
                        assert(gnext@.take(i + 1).last() == gnext@[i]);
                        assert(view_list(gnext@.take(i + 1)) == view_list(gnext@.take(i)).push(
                            m_i,
                        ));
                        let q = view_list(gnext@.take(i));
                        assert(q.push(m_i).drop_last() =~= q);
                        assert(spec_set_save_dc_list(q.push(m_i), save_dc as int)
                            == spec_set_save_dc_list(q, save_dc as int).push(
                            spec_set_save_dc(m_i, save_dc as int),
                        ));
                        assert(out@.drop_last() =~= out_old);
                        assert(view_list(out@) == view_list(out_old).push(y@));
                    }
                }
                proof {
                    assert(gnext@.take(n) =~= gnext@);
                }
                ActionComponent::MultiComponent { next: out }
            },
            other => other,
        }
    }

    /// Replace the target count of every condition node in the tree.
    #[verifier::loop_isolation(false)]
    pub fn set_target_count(self, target_count: i32) -> (r: Self)
        ensures
            r@ == spec_set_target_count(self@, target_count as int),
        decreases self,
    {
        let ghost gself = self;
        match self {
            ActionComponent::Condition { condition, success, failure, .. } => {
                ActionComponent::Condition {
                    target_count,
                    condition,
                    success: Box::new((*success).set_target_count(target_count)),
                    failure: Box::new((*failure).set_target_count(target_count)),
                }
            },
            ActionComponent::MultiComponent { next } => {
                proof {
                    assert(decreases_to!(gself => next));
                }
                let ghost gnext = next;
                let ghost n = gnext@.len() as int;
                let mut rest = next;
                let mut out: Vec<ActionComponent> = Vec::new();
                while rest.len() > 0
                    invariant
                        rest@ == gnext@.skip(n - rest@.len()),
                        0 <= n - rest@.len() <= n,
                        view_list(out@) == spec_set_target_count_list(
                            view_list(gnext@.take(n - rest@.len())),
                            target_count as int,
                        ),
                    decreases rest@.len(),
                {
                    let ghost i = n - rest@.len();
                    let x = rest.remove(0);
                    proof {
                        assert(x == gnext@[i]);
                        assert(rest@ =~= gnext@.skip(i + 1));
                        assert(decreases_to!(gself => gnext));
                        assert(decreases_to!(gnext => gnext@));
                        assert(decreases_to!(gnext@ => gnext@[i]));
                    }
                    let y = x.set_target_count(target_count);
                    let ghost out_old = out@;
                    out.push(y);
                    proof {
                        let m_i = gnext@[i]@;
                        assert(gnext@.take(i + 1).drop_last() =~= gnext@.take(i));
                        assert(gnext@.take(i + 1).last() == gnext@[i]);
                        assert(view_list(gnext@.take(i + 1)) == view_list(gnext@.take(i)).push(
                            m_i,
                        ));
                        let q = view_list(gnext@.take(i));
                        assert(q.push(m_i).drop_last() =~= q);
                        assert(spec_set_target_count_list(q.push(m_i), target_count as int)
                            == spec_set_target_count_list(q, target_count as int).push(
                            spec_set_target_count(m_i, target_count as int),
                        ));
                        assert(out@.drop_last() =~= out_old);
                        assert(view_list(out@) == view_list(out_old).push(y@));
                    }
                }
                proof {
                    assert(gnext@.take(n) =~= gnext@);
                }
                ActionComponent::MultiComponent { next: out }
            },
            other => other,
        }
    }
}

} // verus!

// -- damage and target-count upcasting, and the pre-roll pass -------------

verus! {

/// Formula addition over plain values: die counts add when the right
/// side has dice, fixed parts always add.
pub open spec fn spec_formula_add(a: Formula, b: Formula) -> Formula {
    Formula {
        dice: crate::dice::Dice {
            dice_count: if b.dice.dice_count > 0 {
                (a.dice.dice_count + b.dice.dice_count) as i32
            } else {
                a.dice.dice_count
            },
            face_count: a.dice.face_count,
        },
        fixed: (a.fixed + b.fixed) as i32,
    }
}

/// Whether `f` may be folded into every damage leaf of the tree: each
/// leaf's formula must agree with `f` on the die size.
pub open spec fn spec_can_increase(m: CompModel, f: Formula) -> bool
    decreases m,
{
    match m {
        CompModel::Nothing => true,
        CompModel::Condition { success, failure, .. } => spec_can_increase(*success, f)
            && spec_can_increase(*failure, f),
        CompModel::Multi { next } => forall|i: int|
            0 <= i < next.len() ==> spec_can_increase(#[trigger] next[i], f),
        CompModel::Damage { damage, .. } => damage.spec_compatible(&f),
        CompModel::HalfDamage { damage, .. } => damage.spec_compatible(&f),
    }
}

/// `increase_damage` over the model: `f` is folded into every damage leaf.
pub open spec fn spec_increase_damage(m: CompModel, f: Formula) -> CompModel
    decreases m,
{
    match m {
        CompModel::Nothing => CompModel::Nothing,
        CompModel::Condition { target_count, condition, success, failure } => {
            CompModel::Condition {
                target_count,
                condition,
                success: Box::new(spec_increase_damage(*success, f)),
                failure: Box::new(spec_increase_damage(*failure, f)),
            }
        },
        CompModel::Multi { next } => CompModel::Multi { next: spec_increase_damage_list(next, f) },
        CompModel::Damage { damage, rolled } => CompModel::Damage {
            damage: spec_formula_add(damage, f),
            rolled,
        },
        CompModel::HalfDamage { damage, rolled } => CompModel::HalfDamage {
            damage: spec_formula_add(damage, f),
            rolled,
        },
    }
}

pub open spec fn spec_increase_damage_list(s: Seq<CompModel>, f: Formula) -> Seq<CompModel>
    decreases s,
{
    if s.len() == 0 {
        Seq::empty()
    } else {
        spec_increase_damage_list(s.drop_last(), f).push(spec_increase_damage(s.last(), f))
    }
}

/// `spec_increase_damage_list` maps its list elementwise.
pub proof fn lemma_increase_damage_list_elem(s: Seq<CompModel>, f: Formula)
    ensures
        spec_increase_damage_list(s, f).len() == s.len(),
        forall|i: int| 0 <= i < s.len() ==> spec_increase_damage_list(s, f)[i]
            == spec_increase_damage(#[trigger] s[i], f),
    decreases s,
{
    if s.len() > 0 {
        lemma_increase_damage_list_elem(s.drop_last(), f);
        assert forall|i: int| 0 <= i < s.len() implies spec_increase_damage_list(s, f)[i]
            == spec_increase_damage(#[trigger] s[i], f) by {
            if i < s.len() - 1 {
                assert(spec_increase_damage_list(s.drop_last(), f)[i] == spec_increase_damage(
                    s.drop_last()[i],
                    f,
                ));
                assert(s.drop_last()[i] == s[i]);
            } else {
                assert(s.last() == s[i]);
            }
        }
    }
}

/// `increase_target_count` over the model: every condition node's target
/// count grows by `amount`.
pub open spec fn spec_increase_target_count(m: CompModel, amount: int) -> CompModel
    decreases m,
{
    match m {
        CompModel::Condition { target_count, condition, success, failure } => {
            CompModel::Condition {
                target_count: target_count + amount,
                condition,
                success: Box::new(spec_increase_target_count(*success, amount)),
                failure: Box::new(spec_increase_target_count(*failure, amount)),
            }
        },
        CompModel::Multi { next } => CompModel::Multi {
            next: spec_increase_target_count_list(next, amount),
        },
        other => other,
    }
}

pub open spec fn spec_increase_target_count_list(s: Seq<CompModel>, amount: int) -> Seq<CompModel>
    decreases s,
{
    if s.len() == 0 {
        Seq::empty()
    } else {
        spec_increase_target_count_list(s.drop_last(), amount).push(
            spec_increase_target_count(s.last(), amount),
        )
    }
}

/// `spec_increase_target_count_list` maps its list elementwise.
pub proof fn lemma_increase_target_count_list_elem(s: Seq<CompModel>, amount: int)
    ensures
        spec_increase_target_count_list(s, amount).len() == s.len(),
        forall|i: int| 0 <= i < s.len() ==> spec_increase_target_count_list(s, amount)[i]
            == spec_increase_target_count(#[trigger] s[i], amount),
    decreases s,
{
    if s.len() > 0 {
        lemma_increase_target_count_list_elem(s.drop_last(), amount);
        assert forall|i: int| 0 <= i < s.len() implies spec_increase_target_count_list(s, amount)[i]
            == spec_increase_target_count(#[trigger] s[i], amount) by {
            if i < s.len() - 1 {
                assert(spec_increase_target_count_list(s.drop_last(), amount)[i]
                    == spec_increase_target_count(s.drop_last()[i], amount));
                assert(s.drop_last()[i] == s[i]);
            } else {
                assert(s.last() == s[i]);
            }
        }
    }
}

/// Two trees with the same structure: equal everywhere except possibly in
/// the pre-rolled damage values.
pub open spec fn shape_eq(a: CompModel, b: CompModel) -> bool
    decreases a,
{
    match (a, b) {
        (CompModel::Nothing, CompModel::Nothing) => true,
        (
            CompModel::Condition { target_count: ta, condition: ca, success: sa, failure: fa },
            CompModel::Condition { target_count: tb, condition: cb, success: sb, failure: fb },
        ) => ta == tb && ca == cb && shape_eq(*sa, *sb) && shape_eq(*fa, *fb),
        (CompModel::Multi { next: na }, CompModel::Multi { next: nb }) => na.len() == nb.len()
            && forall|i: int| 0 <= i < na.len() ==> shape_eq(#[trigger] na[i], nb[i]),
        (CompModel::Damage { damage: da, .. }, CompModel::Damage { damage: db, .. }) => da == db,
        (CompModel::HalfDamage { damage: da, .. }, CompModel::HalfDamage { damage: db, .. }) => da
            == db,
        _ => false,
    }
}

/// Every cached roll in the tree lies within its own formula's range
/// (a half-damage leaf within the floored half of that range) — what the
/// pre-roll pass guarantees whatever source the draws came from.
pub open spec fn rolls_in_range(m: CompModel) -> bool
    decreases m,
{
    match m {
        CompModel::Nothing => true,
        CompModel::Condition { success, failure, .. } => rolls_in_range(*success)
            && rolls_in_range(*failure),
        CompModel::Multi { next } => forall|i: int|
            0 <= i < next.len() ==> rolls_in_range(#[trigger] next[i]),
        CompModel::Damage { damage, rolled } => damage.dice.dice_count + damage.fixed <= rolled
            <= damage.dice.dice_count * damage.dice.face_count + damage.fixed,
        CompModel::HalfDamage { damage, rolled } => (damage.dice.dice_count + damage.fixed) / 2
            <= rolled <= (damage.dice.dice_count * damage.dice.face_count + damage.fixed) / 2,
    }
}

/// What the pre-roll pass stores when every draw comes from a fixed roller
/// yielding `v`: each damage leaf caches its deterministic roll, and a
/// half-damage leaf caches the floored half.
pub open spec fn spec_ready_fixed(m: CompModel, v: int) -> CompModel
    decreases m,
{
    match m {
        CompModel::Nothing => CompModel::Nothing,
        CompModel::Condition { target_count, condition, success, failure } => {
            CompModel::Condition {
                target_count,
                condition,
                success: Box::new(spec_ready_fixed(*success, v)),
                failure: Box::new(spec_ready_fixed(*failure, v)),
            }
        },
        CompModel::Multi { next } => CompModel::Multi { next: spec_ready_fixed_list(next, v) },
        CompModel::Damage { damage, .. } => CompModel::Damage {
            damage,
            rolled: damage.dice.dice_count * crate::roll::spec_clamp(
                v,
                1,
                damage.dice.face_count as int,
            ) + damage.fixed,
        },
        CompModel::HalfDamage { damage, .. } => CompModel::HalfDamage {
            damage,
            rolled: (damage.dice.dice_count * crate::roll::spec_clamp(
                v,
                1,
                damage.dice.face_count as int,
            ) + damage.fixed) / 2,
        },
    }
}

pub open spec fn spec_ready_fixed_list(s: Seq<CompModel>, v: int) -> Seq<CompModel>
    decreases s,
{
    if s.len() == 0 {
        Seq::empty()
    } else {
        spec_ready_fixed_list(s.drop_last(), v).push(spec_ready_fixed(s.last(), v))
    }
}

} // verus!

verus! {

impl ActionComponent {
    /// Fold `damage` into every damage leaf of the tree (used when a spell
    /// is upcast: extra dice are added to the base damage).
    #[verifier::loop_isolation(false)]
    pub fn increase_damage(self, damage: &Formula) -> (r: Self)
        requires
            self@.wf(),
            damage.wf(),
            spec_can_increase(self@, *damage),
            spec_increase_damage(self@, *damage).wf(),
        ensures
            r@ == spec_increase_damage(self@, *damage),
        decreases self,
    {
        let ghost gself = self;
        match self {
            ActionComponent::Nothing => ActionComponent::Nothing,
            ActionComponent::Damage { damage: dmg, rolled } => {
                let mut d = dmg;
                d.add_formula(damage);
                ActionComponent::Damage { damage: d, rolled }
            },
            ActionComponent::HalfDamage { damage: dmg, rolled } => {
                let mut d = dmg;
                d.add_formula(damage);
                ActionComponent::HalfDamage { damage: d, rolled }
            },
            ActionComponent::Condition { target_count, condition, success, failure } => {
                ActionComponent::Condition {
                    target_count,
                    condition,
                    success: Box::new((*success).increase_damage(damage)),
                    failure: Box::new((*failure).increase_damage(damage)),
                }
            },
            ActionComponent::MultiComponent { next } => {
                proof {
                    assert(decreases_to!(gself => next));
                    lemma_view_list(next@);
                    lemma_increase_damage_list_elem(view_list(next@), *damage);
                }
                let ghost gnext = next;
                let ghost n = gnext@.len() as int;
                let mut rest = next;
                let mut out: Vec<ActionComponent> = Vec::new();
                while rest.len() > 0
                    invariant
                        rest@ == gnext@.skip(n - rest@.len()),
                        0 <= n - rest@.len() <= n,
                        view_list(out@) == spec_increase_damage_list(
                            view_list(gnext@.take(n - rest@.len())),
                            *damage,
                        ),
                    decreases rest@.len(),
                {
                    let ghost i = n - rest@.len();
                    let x = rest.remove(0);
                    proof {
                        assert(x == gnext@[i]);
                        assert(rest@ =~= gnext@.skip(i + 1));
                        assert(decreases_to!(gself => gnext));
                        assert(decreases_to!(gnext => gnext@));
                        assert(decreases_to!(gnext@ => gnext@[i]));
                        assert(x@ == view_list(gnext@)[i]);
                        assert(x@.wf());
                        assert(spec_can_increase(x@, *damage));
                        assert(spec_increase_damage_list(view_list(gnext@), *damage)[i]
                            == spec_increase_damage(x@, *damage));
                        assert(spec_increase_damage(x@, *damage).wf());
                    }
                    let y = x.increase_damage(damage);
                    let ghost out_old = out@;
                    out.push(y);
                    proof {
                        let m_i = gnext@[i]@;
                        assert(gnext@.take(i + 1).drop_last() =~= gnext@.take(i));
                        assert(gnext@.take(i + 1).last() == gnext@[i]);
                        assert(view_list(gnext@.take(i + 1)) == view_list(gnext@.take(i)).push(
                            m_i,
                        ));
                        let q = view_list(gnext@.take(i));
                        assert(q.push(m_i).drop_last() =~= q);
                        assert(spec_increase_damage_list(q.push(m_i), *damage)
                            == spec_increase_damage_list(q, *damage).push(
                            spec_increase_damage(m_i, *damage),
                        ));
                        assert(out@.drop_last() =~= out_old);
                        assert(view_list(out@) == view_list(out_old).push(y@));
                    }
                }
                proof {
                    assert(gnext@.take(n) =~= gnext@);
                }
                ActionComponent::MultiComponent { next: out }
            },
        }
    }

    /// Raise the target count of every condition node by `amount` (used
    /// when a spell is upcast to strike additional targets).
    #[verifier::loop_isolation(false)]
    pub fn increase_target_count(self, amount: i32) -> (r: Self)
        requires
            self@.wf(),
            spec_increase_target_count(self@, amount as int).wf(),
        ensures
            r@ == spec_increase_target_count(self@, amount as int),
        decreases self,
    {
        let ghost gself = self;
        match self {
            ActionComponent::Condition { target_count, condition, success, failure } => {
                ActionComponent::Condition {
                    target_count: target_count + amount,
                    condition,
                    success: Box::new((*success).increase_target_count(amount)),
                    failure: Box::new((*failure).increase_target_count(amount)),
                }
            },
            ActionComponent::MultiComponent { next } => {
                proof {
                    assert(decreases_to!(gself => next));
                    lemma_view_list(next@);
                    lemma_increase_target_count_list_elem(view_list(next@), amount as int);
                }
                let ghost gnext = next;
                let ghost n = gnext@.len() as int;
                let mut rest = next;
                let mut out: Vec<ActionComponent> = Vec::new();
                while rest.len() > 0
                    invariant
                        rest@ == gnext@.skip(n - rest@.len()),
                        0 <= n - rest@.len() <= n,
                        view_list(out@) == spec_increase_target_count_list(
                            view_list(gnext@.take(n - rest@.len())),
                            amount as int,
                        ),
                    decreases rest@.len(),
                {
                    let ghost i = n - rest@.len();
                    let x = rest.remove(0);
                    proof {
                        assert(x == gnext@[i]);
                        assert(rest@ =~= gnext@.skip(i + 1));
                        assert(decreases_to!(gself => gnext));
                        assert(decreases_to!(gnext => gnext@));
                        assert(decreases_to!(gnext@ => gnext@[i]));
                        assert(x@ == view_list(gnext@)[i]);
                        assert(x@.wf());
                        assert(spec_increase_target_count_list(view_list(gnext@), amount as int)[i]
                            == spec_increase_target_count(x@, amount as int));
                        assert(spec_increase_target_count(x@, amount as int).wf());
                    }
                    let y = x.increase_target_count(amount);
                    let ghost out_old = out@;
                    out.push(y);
                    proof {
                        let m_i = gnext@[i]@;
                        assert(gnext@.take(i + 1).drop_last() =~= gnext@.take(i));
                        assert(gnext@.take(i + 1).last() == gnext@[i]);
                        assert(view_list(gnext@.take(i + 1)) == view_list(gnext@.take(i)).push(
                            m_i,
                        ));
                        let q = view_list(gnext@.take(i));
                        assert(q.push(m_i).drop_last() =~= q);
                        assert(spec_increase_target_count_list(q.push(m_i), amount as int)
                            == spec_increase_target_count_list(q, amount as int).push(
                            spec_increase_target_count(m_i, amount as int),
                        ));
                        assert(out@.drop_last() =~= out_old);
                        assert(view_list(out@) == view_list(out_old).push(y@));
                    }
                }
                proof {
                    assert(gnext@.take(n) =~= gnext@);
                }
                ActionComponent::MultiComponent { next: out }
            },
            other => other,
        }
    }
}

} // verus!

verus! {

impl ActionComponent {
    /// The pre-roll pass: every damage leaf rolls its formula once and
    /// caches the result, so one multi-target action inflicts the same
    /// rolled amount on every target; half-damage leaves cache the floored
    /// half of their roll. Branch and sequence nodes recurse without
    /// rolling anything themselves.
    #[verifier::loop_isolation(false)]
    pub fn ready_for_apply(self, roller: &Roller) -> (r: Self)
        requires
            self@.wf(),
        ensures
            r@.wf(),
            shape_eq(self@, r@),
            rolls_in_range(r@),
            r@.abs_average_x4() == self@.abs_average_x4(),
            roller.is_fixed() ==> r@ == spec_ready_fixed(self@, roller.fixed_value() as int),
        decreases self,
    {
        let ghost gself = self;
        match self {
            ActionComponent::Nothing => ActionComponent::Nothing,
            ActionComponent::Damage { damage, .. } => {
                let rolled = damage.roll(roller);
                ActionComponent::Damage { damage, rolled }
            },
            ActionComponent::HalfDamage { damage, .. } => {
                let raw = damage.roll(roller);
                let rolled = if raw >= 0 {
                    raw / 2
                } else {
                    -((-raw + 1) / 2)
                };
                proof {
                    assert(rolled as int == raw as int / 2) by (nonlinear_arith)
                        requires
                            rolled as int == if raw as int >= 0 {
                                raw as int / 2
                            } else {
                                -((-(raw as int) + 1) / 2)
                            },
                    ;
                    assert((damage.dice.dice_count + damage.fixed) / 2 <= raw as int / 2
                        <= (damage.dice.dice_count * damage.dice.face_count + damage.fixed)
                        / 2) by (nonlinear_arith)
                        requires
                            damage.dice.dice_count + damage.fixed <= raw as int
                                <= damage.dice.dice_count * damage.dice.face_count
                                + damage.fixed,
                    ;
                }
                ActionComponent::HalfDamage { damage, rolled }
            },
            ActionComponent::Condition { target_count, condition, success, failure } => {
                ActionComponent::Condition {
                    target_count,
                    condition,
                    success: Box::new((*success).ready_for_apply(roller)),
                    failure: Box::new((*failure).ready_for_apply(roller)),
                }
            },
            ActionComponent::MultiComponent { next } => {
                proof {
                    assert(decreases_to!(gself => next));
                    lemma_view_list(next@);
                }
                let ghost gnext = next;
                let ghost n = gnext@.len() as int;
                let mut rest = next;
                let mut out: Vec<ActionComponent> = Vec::new();
                while rest.len() > 0
                    invariant
                        rest@ == gnext@.skip(n - rest@.len()),
                        0 <= n - rest@.len() <= n,
                        view_list(out@).len() == n - rest@.len(),
                        forall|j: int| 0 <= j < n - rest@.len() ==> (#[trigger] view_list(out@)[j])
                            .wf(),
                        forall|j: int| 0 <= j < n - rest@.len() ==> shape_eq(
                            view_list(gnext@)[j],
                            #[trigger] view_list(out@)[j],
                        ),
                        forall|j: int| 0 <= j < n - rest@.len() ==> rolls_in_range(
                            #[trigger] view_list(out@)[j],
                        ),
                        abs_average_x4_sum(view_list(out@)) == abs_average_x4_sum(
                            view_list(gnext@.take(n - rest@.len())),
                        ),
                        roller.is_fixed() ==> view_list(out@) == spec_ready_fixed_list(
                            view_list(gnext@.take(n - rest@.len())),
                            roller.fixed_value() as int,
                        ),
                    decreases rest@.len(),
                {
                    let ghost i = n - rest@.len();
                    let x = rest.remove(0);
                    proof {
                        assert(x == gnext@[i]);
                        assert(rest@ =~= gnext@.skip(i + 1));
                        assert(decreases_to!(gself => gnext));
                        assert(decreases_to!(gnext => gnext@));
                        assert(decreases_to!(gnext@ => gnext@[i]));
                        assert(x@ == view_list(gnext@)[i]);
                        assert(x@.wf());
                    }
                    let y = x.ready_for_apply(roller);
                    let ghost out_old = out@;
                    out.push(y);
                    proof {
                        let m_i = gnext@[i]@;
                        assert(gnext@.take(i + 1).drop_last() =~= gnext@.take(i));
                        assert(gnext@.take(i + 1).last() == gnext@[i]);
                        assert(view_list(gnext@.take(i + 1)) == view_list(gnext@.take(i)).push(
                            m_i,
                        ));
                        let q = view_list(gnext@.take(i));
                        assert(q.push(m_i).drop_last() =~= q);
                        assert(abs_average_x4_sum(q.push(m_i)) == abs_average_x4_sum(q)
                            + m_i.abs_average_x4());
                        if roller.is_fixed() {
                            let v = roller.fixed_value() as int;
                            assert(spec_ready_fixed_list(q.push(m_i), v)
                                == spec_ready_fixed_list(q, v).push(spec_ready_fixed(m_i, v)));
                        }
                        assert(out@.drop_last() =~= out_old);
                        assert(view_list(out@) == view_list(out_old).push(y@));
                        assert((view_list(out_old).push(y@)).drop_last() =~= view_list(out_old));
                        assert(view_list(out_old).push(y@).last() == y@);
                        assert(abs_average_x4_sum(view_list(out@)) == abs_average_x4_sum(
                            view_list(out_old),
                        ) + y@.abs_average_x4());
                    }
                }
                proof {
                    assert(gnext@.take(n) =~= gnext@);
                }
                ActionComponent::MultiComponent { next: out }
            },
        }
    }
}

} // verus!

// -- target counts, averages, and cloning ---------------------------------

verus! {

/// How many opposing targets a top-level component selects: condition
/// nodes carry an explicit count, other leaves and sequences default to
/// one, and the empty component targets nobody.
pub open spec fn spec_target_count(m: CompModel) -> int {
    match m {
        CompModel::Nothing => 0,
        CompModel::Condition { target_count, .. } => target_count,
        CompModel::Multi { .. } => 1,
        CompModel::Damage { .. } => 1,
        CompModel::HalfDamage { .. } => 1,
    }
}

/// A well-formed tree's absolute average bound is non-negative.
pub proof fn lemma_abs_nonneg(m: CompModel)
    requires
        m.wf(),
    ensures
        m.abs_average_x4() >= 0,
    decreases m,
{
    match m {
        CompModel::Condition { success, failure, .. } => {
            lemma_abs_nonneg(*success);
            lemma_abs_nonneg(*failure);
        },
        CompModel::Multi { next } => {
            lemma_abs_sum_nonneg(next);
        },
        CompModel::Damage { damage, .. } => {
            assert(damage.dice.spec_average_x2() >= 0) by (nonlinear_arith)
                requires
                    damage.dice.dice_count >= 0,
                    damage.dice.face_count >= 1,
            ;
        },
        CompModel::HalfDamage { damage, .. } => {
            assert(damage.dice.spec_average_x2() >= 0) by (nonlinear_arith)
                requires
                    damage.dice.dice_count >= 0,
                    damage.dice.face_count >= 1,
            ;
        },
        _ => {},
    }
}

/// The absolute average bound of a list of well-formed trees is
/// non-negative.
pub proof fn lemma_abs_sum_nonneg(s: Seq<CompModel>)
    requires
        forall|i: int| 0 <= i < s.len() ==> (#[trigger] s[i]).wf(),
    ensures
        abs_average_x4_sum(s) >= 0,
    decreases s,
{
    if s.len() > 0 {
        assert(forall|i: int| 0 <= i < s.drop_last().len() ==> (#[trigger] s.drop_last()[i]).wf());
        lemma_abs_sum_nonneg(s.drop_last());
        assert(s.last() == s[s.len() - 1]);
        lemma_abs_nonneg(s.last());
    }
}

/// The scaled average of a well-formed tree lies within its absolute
/// bound.
pub proof fn lemma_avg_within_abs(m: CompModel)
    requires
        m.wf(),
    ensures
        -m.abs_average_x4() <= m.average_x4() <= m.abs_average_x4(),
    decreases m,
{
    match m {
        CompModel::Condition { success, failure, .. } => {
            lemma_avg_within_abs(*success);
            lemma_abs_nonneg(*failure);
        },
        CompModel::Multi { next } => {
            lemma_avg_sum_within_abs(next);
        },
        _ => {},
    }
}

/// The summed scaled average of well-formed trees lies within the summed
/// absolute bound.
pub proof fn lemma_avg_sum_within_abs(s: Seq<CompModel>)
    requires
        forall|i: int| 0 <= i < s.len() ==> (#[trigger] s[i]).wf(),
    ensures
        -abs_average_x4_sum(s) <= average_x4_sum(s) <= abs_average_x4_sum(s),
    decreases s,
{
    if s.len() > 0 {
        assert(forall|i: int| 0 <= i < s.drop_last().len() ==> (#[trigger] s.drop_last()[i]).wf());
        lemma_avg_sum_within_abs(s.drop_last());
        assert(s.last() == s[s.len() - 1]);
        lemma_avg_within_abs(s.last());
    }
}

/// A prefix of a list of well-formed trees has a bound no larger than the
/// whole list's.
pub proof fn lemma_abs_sum_prefix(s: Seq<CompModel>, i: int)
    requires
        forall|k: int| 0 <= k < s.len() ==> (#[trigger] s[k]).wf(),
        0 <= i <= s.len(),
    ensures
        abs_average_x4_sum(s.take(i)) <= abs_average_x4_sum(s),
    decreases s.len() - i,
{
    if i == s.len() {
        assert(s.take(i) =~= s);
    } else {
        lemma_abs_sum_prefix(s, i + 1);
        assert(s.take(i + 1).drop_last() =~= s.take(i));
        assert(s.take(i + 1).last() == s[i]);
        lemma_abs_nonneg(s[i]);
    }
}

impl ActionComponent {
    /// The number of opposing targets this top-level component selects.
    pub fn target_count(&self) -> (r: usize)
        requires
            self@.wf(),
        ensures
            r == spec_target_count(self@),
    {
        match self {
            ActionComponent::Nothing => 0,
            ActionComponent::Condition { target_count, .. } => *target_count as usize,
            ActionComponent::MultiComponent { .. } => 1,
            ActionComponent::Damage { .. } => 1,
            ActionComponent::HalfDamage { .. } => 1,
        }
    }

    /// Four times the expected damage of this component, the quantity the
    /// greedy decision policy compares. A condition node counts only its
    /// success branch; a sequence sums its children.
    #[verifier::loop_isolation(false)]
    pub fn average_dammage_x4(&self) -> (r: i64)
        requires
            self@.wf(),
        ensures
            r == self@.average_x4(),
        decreases self,
    {
        match self {
            ActionComponent::Nothing => 0,
            ActionComponent::Damage { damage, .. } => {
                let a = damage.average_roll_x2();
                2 * a
            },
            ActionComponent::HalfDamage { damage, .. } => damage.average_roll_x2(),
            ActionComponent::Condition { success, .. } => (&**success).average_dammage_x4(),
            ActionComponent::MultiComponent { next } => {
                proof {
                    lemma_view_list(next@);
                }
                let ghost models = view_list(next@);
                let mut acc: i64 = 0;
                let mut i: usize = 0;
                let n = next.len();
                while i < n
                    invariant
                        0 <= i <= n,
                        acc == average_x4_sum(models.take(i as int)),
                        -abs_average_x4_sum(models.take(i as int)) <= acc
                            <= abs_average_x4_sum(models.take(i as int)),
                    decreases n - i,
                {
                    proof {
                        assert(decreases_to!(self => next));
                        assert(decreases_to!(next => next@));
                        assert(decreases_to!(next@ => next@[i as int]));
                        assert(next@[i as int]@ == models[i as int]);
                        assert(models[i as int].wf());
                    }
                    let a = (&next[i]).average_dammage_x4();
                    proof {
                        let ii = i as int;
                        assert(models.take(ii + 1).drop_last() =~= models.take(ii));
                        assert(models.take(ii + 1).last() == models[ii]);
                        lemma_avg_within_abs(models[ii]);
                        lemma_abs_sum_prefix(models, ii + 1);
                        lemma_abs_sum_nonneg(models);
                    }
                    acc = acc + a;
                    i = i + 1;
                }
                proof {
                    assert(models.take(n as int) =~= models);
                }
                acc
            },
        }
    }
}

impl Clone for ActionComponent {
    /// A structural copy: the clone models the same tree.
    #[verifier::loop_isolation(false)]
    fn clone(&self) -> (res: Self)
        ensures
            res@ == self@,
        decreases self,
    {
        match self {
            ActionComponent::Nothing => ActionComponent::Nothing,
            ActionComponent::Damage { damage, rolled } => ActionComponent::Damage {
                damage: *damage,
                rolled: *rolled,
            },
            ActionComponent::HalfDamage { damage, rolled } => ActionComponent::HalfDamage {
                damage: *damage,
                rolled: *rolled,
            },
            ActionComponent::Condition { target_count, condition, success, failure } => {
                ActionComponent::Condition {
                    target_count: *target_count,
                    condition: *condition,
                    success: Box::new((&**success).clone()),
                    failure: Box::new((&**failure).clone()),
                }
            },
            ActionComponent::MultiComponent { next } => {
                proof {
                    lemma_view_list(next@);
                }
                let mut out: Vec<ActionComponent> = Vec::new();
                let mut i: usize = 0;
                let n = next.len();
                while i < n
                    invariant
                        0 <= i <= n,
                        view_list(out@) == view_list(next@.take(i as int)),
                    decreases n - i,
                {
                    proof {
                        assert(decreases_to!(self => next));
                        assert(decreases_to!(next => next@));
                        assert(decreases_to!(next@ => next@[i as int]));
                    }
                    let y = (&next[i]).clone();
                    let ghost out_old = out@;
                    out.push(y);
                    proof {
                        let ii = i as int;
                        assert(next@.take(ii + 1).drop_last() =~= next@.take(ii));
                        assert(next@.take(ii + 1).last() == next@[ii]);
                        assert(view_list(next@.take(ii + 1)) == view_list(next@.take(ii)).push(
                            next@[ii]@,
                        ));
                        assert(out@.drop_last() =~= out_old);
                        assert(view_list(out@) == view_list(out_old).push(y@));
                    }
                    i = i + 1;
                }
                proof {
                    assert(next@.take(n as int) =~= next@);
                }
                ActionComponent::MultiComponent { next: out }
            },
        }
    }
}

} // verus!

// -- the selectable action: charges, resources, components ----------------

verus! {

/// One selectable action: the per-encounter charge limit, the resources a
/// use consumes, and the component trees it executes.
#[derive(Debug)]
pub struct ActionStruct {
    pub charges: Charge,
    pub resources: Vec<Resource>,
    pub components: Vec<ActionComponent>,
}

/// The mathematical model of an action.
pub struct ActionModel {
    pub charges: Charge,
    pub resources: Seq<Resource>,
    pub components: Seq<CompModel>,
}

impl View for ActionStruct {
    type V = ActionModel;

    open spec fn view(&self) -> ActionModel {
        ActionModel {
            charges: self.charges,
            resources: self.resources@,
            components: view_list(self.components@),
        }
    }
}

impl ActionModel {
    /// The action invariant: a sound charge counter, at least one declared
    /// resource, no resource declared twice, well-formed components, and a
    /// bounded total average.
    pub open spec fn wf(&self) -> bool {
        &&& self.charges.wf()
        &&& 1 <= self.resources.len()
        &&& resources_distinct(self.resources)
        &&& forall|i: int| 0 <= i < self.components.len() ==> (#[trigger] self.components[i]).wf()
        &&& abs_average_x4_sum(self.components) <= AVERAGE_X4_LIMIT
    }

    /// Four times the expected damage of the whole action.
    pub open spec fn spec_average_x4(&self) -> int {
        average_x4_sum(self.components)
    }

    /// Whether every declared resource is present in the ledger with a
    /// positive quantity (a missing entry means unavailable, not an
    /// error).
    pub open spec fn spec_available(&self, ledger: Seq<(Resource, i32)>) -> bool {
        forall|k: int| 0 <= k < self.resources.len() ==> ledger_has_positive(
            ledger,
            #[trigger] self.resources[k],
        )
    }
}

impl ActionStruct {
    pub fn get_components(&self) -> (r: &Vec<ActionComponent>)
        ensures
            r == self.components,
    {
        &self.components
    }

    pub fn set_charge(&mut self, charge: Charge)
        ensures
            final(self).charges == charge,
            final(self).resources == old(self).resources,
            final(self).components == old(self).components,
    {
        self.charges = charge;
    }

    pub fn add_resource(&mut self, resource: Resource)
        ensures
            final(self).charges == old(self).charges,
            final(self).resources@ == old(self).resources@.push(resource),
            final(self).components == old(self).components,
    {
        self.resources.push(resource);
    }

    pub fn add_component(&mut self, component: ActionComponent)
        ensures
            final(self).charges == old(self).charges,
            final(self).resources == old(self).resources,
            final(self)@.components == old(self)@.components.push(component@),
    {
        let ghost comps_old = self.components@;
        self.components.push(component);
        proof {
            assert(self.components@.drop_last() =~= comps_old);
            assert(view_list(self.components@) == view_list(comps_old).push(component@));
        }
    }

    /// Pre-roll every component of the action.
    #[verifier::loop_isolation(false)]
    pub fn ready_for_apply(&mut self, roller: &Roller)
        requires
            ({
                let before = old(self)@.components;
                forall|i: int| 0 <= i < before.len() ==> (#[trigger] before[i]).wf()
            }),
        ensures
            final(self).charges == old(self).charges,
            final(self).resources == old(self).resources,
            final(self)@.components.len() == old(self)@.components.len(),
            ({
                let before = old(self)@.components;
                let after = final(self)@.components;
                &&& forall|i: int| 0 <= i < after.len() ==> (#[trigger] after[i]).wf()
                &&& forall|i: int| 0 <= i < after.len() ==> rolls_in_range(#[trigger] after[i])
                &&& forall|i: int| 0 <= i < after.len() ==> shape_eq(
                    before[i],
                    #[trigger] after[i],
                )
                &&& forall|i: int| 0 <= i < after.len() ==> (#[trigger] after[i]).abs_average_x4()
                    == before[i].abs_average_x4()
                &&& roller.is_fixed() ==> after == spec_ready_fixed_list(
                    before,
                    roller.fixed_value() as int,
                )
            }),
    {
        proof {
            lemma_view_list(self.components@);
        }
        let ghost old_comps = self.components@;
        let ghost old_models = view_list(old_comps);
        let mut rest: Vec<ActionComponent> = Vec::new();
        core::mem::swap(&mut self.components, &mut rest);
        let ghost n = old_comps.len() as int;
        let mut out: Vec<ActionComponent> = Vec::new();
        while rest.len() > 0
            invariant
                rest@ == old_comps.skip(n - rest@.len()),
                0 <= n - rest@.len() <= n,
                view_list(out@).len() == n - rest@.len(),
                forall|j: int| 0 <= j < n - rest@.len() ==> (#[trigger] view_list(out@)[j]).wf(),
                forall|j: int| 0 <= j < n - rest@.len() ==> rolls_in_range(
                    #[trigger] view_list(out@)[j],
                ),
                forall|j: int| 0 <= j < n - rest@.len() ==> shape_eq(
                    old_models[j],
                    #[trigger] view_list(out@)[j],
                ),
                forall|j: int| 0 <= j < n - rest@.len() ==> (#[trigger] view_list(out@)[j])
                    .abs_average_x4() == old_models[j].abs_average_x4(),
                roller.is_fixed() ==> view_list(out@) == spec_ready_fixed_list(
                    view_list(old_comps.take(n - rest@.len())),
                    roller.fixed_value() as int,
                ),
            decreases rest@.len(),
        {
            let ghost i = n - rest@.len();
            let x = rest.remove(0);
            proof {
                assert(x == old_comps[i]);
                assert(rest@ =~= old_comps.skip(i + 1));
                assert(x@ == old_models[i]);
                assert(old_models == old(self)@.components);
                assert(old(self)@.components[i].wf());
                assert(old_models[i].wf());
            }
            let y = x.ready_for_apply(roller);
            let ghost out_old = out@;
            out.push(y);
            proof {
                let m_i = old_comps[i]@;
                assert(old_comps.take(i + 1).drop_last() =~= old_comps.take(i));
                assert(old_comps.take(i + 1).last() == old_comps[i]);
                assert(view_list(old_comps.take(i + 1)) == view_list(old_comps.take(i)).push(
                    m_i,
                ));
                if roller.is_fixed() {
                    let v = roller.fixed_value() as int;
                    let q = view_list(old_comps.take(i));
                    assert(q.push(m_i).drop_last() =~= q);
                    assert(spec_ready_fixed_list(q.push(m_i), v) == spec_ready_fixed_list(
                        q,
                        v,
                    ).push(spec_ready_fixed(m_i, v)));
                }
                assert(out@.drop_last() =~= out_old);
                assert(view_list(out@) == view_list(out_old).push(y@));
            }
        }
        core::mem::swap(&mut self.components, &mut out);
        proof {
            assert(old_comps.take(n) =~= old_comps);
        }
    }

    /// Four times the expected damage of the whole action, the number the
    /// greedy policy maximizes.
    #[verifier::loop_isolation(false)]
    pub fn average_dammage_x4(&self) -> (r: i64)
        requires
            self@.wf(),
        ensures
            r == self@.spec_average_x4(),
    {
        proof {
            lemma_view_list(self.components@);
        }
        let ghost models = self@.components;
        let mut acc: i64 = 0;
        let mut i: usize = 0;
        let n = self.components.len();
        while i < n
            invariant
                0 <= i <= n,
                acc == average_x4_sum(models.take(i as int)),
                -abs_average_x4_sum(models.take(i as int)) <= acc <= abs_average_x4_sum(
                    models.take(i as int),
                ),
            decreases n - i,
        {
            proof {
                assert(self.components@[i as int]@ == models[i as int]);
                assert(models[i as int].wf());
            }
            let a = (&self.components[i]).average_dammage_x4();
            proof {
                let ii = i as int;
                assert(models.take(ii + 1).drop_last() =~= models.take(ii));
                assert(models.take(ii + 1).last() == models[ii]);
                lemma_avg_within_abs(models[ii]);
                lemma_abs_sum_prefix(models, ii + 1);
                lemma_abs_sum_nonneg(models);
            }
            acc = acc + a;
            i = i + 1;
        }
        proof {
            assert(models.take(n as int) =~= models);
        }
        acc
    }

    /// Whether the ledger can afford this action: every declared resource
    /// is present with a positive quantity.
    #[verifier::loop_isolation(false)]
    pub fn is_available(&self, resources: &Ledger) -> (r: bool)
        requires
            ledger_keys_distinct(resources@),
        ensures
            r == self@.spec_available(resources@),
    {
        let mut k: usize = 0;
        let n = self.resources.len();
        while k < n
            invariant
                0 <= k <= n,
                n == self.resources@.len(),
                forall|j: int| 0 <= j < k ==> ledger_has_positive(
                    resources@,
                    #[trigger] self.resources@[j],
                ),
            decreases n - k,
        {
            let r = self.resources[k];
            match crate::resource::ledger_find(resources, r) {
                Some(idx) => {
                    if resources[idx].1 <= 0 {
                        proof {
                            if ledger_has_positive(resources@, r) {
                                let w = choose|i: int|
                                    0 <= i < resources@.len() && (#[trigger] resources@[i]).0 == r
                                        && resources@[i].1 > 0;
                                if w < idx {
                                    assert(resources@[w].0 != resources@[idx as int].0);
                                } else if idx < w {
                                    assert(resources@[idx as int].0 != resources@[w].0);
                                }
                                assert(false);
                            }
                            assert(self@.resources[k as int] == r);
                            assert(!ledger_has_positive(resources@, self@.resources[k as int]));
                        }
                        return false;
                    }
                },
                None => {
                    proof {
                        if ledger_has_positive(resources@, r) {
                            let w = choose|i: int|
                                0 <= i < resources@.len() && (#[trigger] resources@[i]).0 == r
                                    && resources@[i].1 > 0;
                            assert(resources@[w].0 != r);
                            assert(false);
                        }
                        assert(self@.resources[k as int] == r);
                        assert(!ledger_has_positive(resources@, self@.resources[k as int]));
                    }
                    return false;
                },
            }
            k = k + 1;
        }
        true
    }

    /// Spend the action: each declared resource's ledger entry loses one.
    /// Callers must have confirmed availability; spending an action that
    /// was not affordable is a logic error, not a runtime condition.
    #[verifier::loop_isolation(false)]
    pub fn consume_resources(&self, resources: &mut Ledger)
        requires
            ledger_wf(old(resources)@),
            resources_distinct(self@.resources),
            self@.spec_available(old(resources)@),
        ensures
            final(resources)@.len() == old(resources)@.len(),
            forall|i: int| 0 <= i < old(resources)@.len() ==> (#[trigger] final(resources)@[i]).0
                == old(resources)@[i].0,
            forall|i: int| 0 <= i < old(resources)@.len() ==> (#[trigger] final(resources)@[i]).1
                == old(resources)@[i].1 - count_of(self@.resources, old(resources)@[i].0),
            ledger_wf(final(resources)@),
    {
        let ghost led0 = resources@;
        let ghost decl = self@.resources;
        let mut k: usize = 0;
        let n = self.resources.len();
        proof {
            assert forall|i: int| 0 <= i < led0.len() implies count_of(decl.take(0), (#[trigger] led0[i]).0) == 0 by {
                assert(decl.take(0) =~= Seq::<Resource>::empty());
            }
        }
        while k < n
            invariant
                0 <= k <= n,
                n == decl.len(),
                resources@.len() == led0.len(),
                forall|i: int| 0 <= i < led0.len() ==> (#[trigger] resources@[i]).0 == led0[i].0,
                forall|i: int| 0 <= i < led0.len() ==> (#[trigger] resources@[i]).1 == led0[i].1
                    - count_of(decl.take(k as int), led0[i].0),
            decreases n - k,
        {
            let r = self.resources[k];
            proof {
                assert(decl[k as int] == r);
                assert(ledger_has_positive(led0, r));
                lemma_count_of_distinct_prefix(decl, k as int);
            }
            let found = crate::resource::ledger_find(resources, r);
            match found {
                Some(idx) => {
                    let ghost led_cur = resources@;
                    let e = &mut resources[idx];
                    let ghost v_old = e.1;
                    e.1 = e.1 - 1;
                    proof {
                        assert(resources@ =~= led_cur.update(idx as int, (r, (v_old - 1) as i32)));
                        assert forall|i: int| 0 <= i < led0.len() implies (#[trigger] resources@[i]).1
                            == led0[i].1 - count_of(decl.take(k as int + 1), led0[i].0) by {
                            assert(decl.take(k as int + 1) =~= decl.take(k as int).push(r));
                            lemma_count_of_push(decl.take(k as int), r, led0[i].0);
                            if i != idx {
                                assert(resources@[i] == led_cur[i]);
                                assert(led_cur[i].0 != r);
                            }
                        }
                    }
                },
                None => {
                    proof {
                        let w = choose|i: int|
                            0 <= i < led0.len() && (#[trigger] led0[i]).0 == r && led0[i].1 > 0;
                        assert(resources@[w].0 == r);
                        assert(false);
                    }
                },
            }
            k = k + 1;
        }
        proof {
            assert(decl.take(n as int) =~= decl);
            assert forall|i: int| 0 <= i < led0.len() implies (#[trigger] resources@[i]).1 >= 0 by {
                lemma_count_of_distinct(decl, led0[i].0);
                lemma_count_of_bounds(decl, led0[i].0);
                if count_of(decl, led0[i].0) > 0 {
                    lemma_count_of_member(decl, led0[i].0);
                    let kk = choose|kk: int| 0 <= kk < decl.len() && decl[kk] == led0[i].0;
                    assert(ledger_has_positive(led0, decl[kk]));
                    let w = choose|j: int|
                        0 <= j < led0.len() && (#[trigger] led0[j]).0 == decl[kk] && led0[j].1 > 0;
                    assert(w == i);
                }
            }
        }
    }

    /// Whether the action may still be used this encounter.
    pub fn has_charges(&self) -> (r: bool)
        ensures
            r == self@.charges.spec_has_charges(),
    {
        match self.charges {
            Charge::Infinite => true,
            Charge::Limited(qty) => qty > 0,
        }
    }

    /// Spend one charge; infinite charges are never exhausted. Callers
    /// must have checked `has_charges` first.
    pub fn use_charge(&mut self)
        requires
            old(self)@.charges.spec_has_charges(),
        ensures
            final(self).charges == old(self).charges.spec_use(),
            final(self).resources == old(self).resources,
            final(self).components == old(self).components,
    {
        match &mut self.charges {
            Charge::Infinite => {},
            Charge::Limited(qty) => {
                *qty = *qty - 1;
            },
        }
    }
}

/// In a duplicate-free list, the element at `k` does not occur among the
/// first `k`.
pub proof fn lemma_count_of_distinct_prefix(rs: Seq<Resource>, k: int)
    requires
        resources_distinct(rs),
        0 <= k < rs.len(),
    ensures
        count_of(rs.take(k), rs[k]) == 0,
{
    if count_of(rs.take(k), rs[k]) > 0 {
        lemma_count_of_member(rs.take(k), rs[k]);
        let j = choose|j: int| 0 <= j < rs.take(k).len() && rs.take(k)[j] == rs[k];
        assert(rs[j] == rs[k]);
        assert(false);
    } else {
        lemma_count_of_bounds(rs.take(k), rs[k]);
    }
}

impl Clone for ActionStruct {
    /// A structural copy: the clone models the same action.
    #[verifier::loop_isolation(false)]
    fn clone(&self) -> (res: Self)
        ensures
            res@ == self@,
    {
        let mut rs: Vec<Resource> = Vec::new();
        let mut i: usize = 0;
        while i < self.resources.len()
            invariant
                0 <= i <= self.resources@.len(),
                rs@ == self.resources@.take(i as int),
            decreases self.resources@.len() - i,
        {
            rs.push(self.resources[i]);
            proof {
                assert(rs@ =~= self.resources@.take(i as int + 1));
            }
            i = i + 1;
        }
        proof {
            assert(self.resources@.take(self.resources@.len() as int) =~= self.resources@);
        }
        let mut cs: Vec<ActionComponent> = Vec::new();
        let mut j: usize = 0;
        while j < self.components.len()
            invariant
                0 <= j <= self.components@.len(),
                view_list(cs@) == view_list(self.components@.take(j as int)),
            decreases self.components@.len() - j,
        {
            let y = (&self.components[j]).clone();
            let ghost cs_old = cs@;
            cs.push(y);
            proof {
                let jj = j as int;
                assert(self.components@.take(jj + 1).drop_last() =~= self.components@.take(jj));
                assert(self.components@.take(jj + 1).last() == self.components@[jj]);
                assert(view_list(self.components@.take(jj + 1)) == view_list(
                    self.components@.take(jj),
                ).push(self.components@[jj]@));
                assert(cs@.drop_last() =~= cs_old);
                assert(view_list(cs@) == view_list(cs_old).push(y@));
            }
            j = j + 1;
        }
        proof {
            assert(self.components@.take(self.components@.len() as int) =~= self.components@);
        }
        ActionStruct { charges: self.charges, resources: rs, components: cs }
    }
}

impl Default for ActionStruct {
    /// An empty action: infinite charges, nothing declared, no effect.
    fn default() -> (r: Self)
        ensures
            r.charges == Charge::Infinite,
            r.resources@ == Seq::<Resource>::empty(),
            r@.components == Seq::<CompModel>::empty(),
    {
        ActionStruct { charges: Charge::Infinite, resources: Vec::new(), components: Vec::new() }
    }
}

} // verus!

// -- binding a DC or attack bonus preserves shape-level invariants --------

verus! {

/// Setting a save difficulty touches only condition nodes: the tree stays
/// well formed for a bounded difficulty, and its average bound is
/// untouched.
pub proof fn lemma_set_save_dc_wf(m: CompModel, dc: int)
    ensures
        spec_set_save_dc(m, dc).abs_average_x4() == m.abs_average_x4(),
        spec_set_save_dc(m, dc).average_x4() == m.average_x4(),
        m.wf() && -STAT_LIMIT <= dc <= STAT_LIMIT ==> spec_set_save_dc(m, dc).wf(),
    decreases m,
{
    match m {
        CompModel::Condition { success, failure, .. } => {
            lemma_set_save_dc_wf(*success, dc);
            lemma_set_save_dc_wf(*failure, dc);
        },
        CompModel::Multi { next } => {
            lemma_set_save_dc_wf_list(next, dc);
            assert(spec_set_save_dc(m, dc) == (CompModel::Multi {
                next: spec_set_save_dc_list(next, dc),
            }));
        },
        _ => {},
    }
}

pub proof fn lemma_set_save_dc_wf_list(s: Seq<CompModel>, dc: int)
    ensures
        spec_set_save_dc_list(s, dc).len() == s.len(),
        abs_average_x4_sum(spec_set_save_dc_list(s, dc)) == abs_average_x4_sum(s),
        average_x4_sum(spec_set_save_dc_list(s, dc)) == average_x4_sum(s),
        forall|i: int| 0 <= i < s.len() ==> spec_set_save_dc_list(s, dc)[i] == spec_set_save_dc(
            #[trigger] s[i],
            dc,
        ),
        (forall|i: int| 0 <= i < s.len() ==> (#[trigger] s[i]).wf() && -STAT_LIMIT <= dc
            <= STAT_LIMIT) ==> forall|i: int| 0 <= i < s.len() ==> (
        #[trigger] spec_set_save_dc_list(s, dc)[i]).wf(),
    decreases s,
{
    if s.len() > 0 {
        lemma_set_save_dc_wf_list(s.drop_last(), dc);
        lemma_set_save_dc_wf(s.last(), dc);
        assert(s.last() == s[s.len() - 1]);
        let l = spec_set_save_dc_list(s, dc);
        assert(l.drop_last() =~= spec_set_save_dc_list(s.drop_last(), dc));
        assert forall|i: int| 0 <= i < s.len() implies l[i] == spec_set_save_dc(
            #[trigger] s[i],
            dc,
        ) by {
            if i < s.len() - 1 {
                assert(l[i] == spec_set_save_dc_list(s.drop_last(), dc)[i]);
                assert(s.drop_last()[i] == s[i]);
            }
        }
    }
}

/// Setting an attack bonus touches only condition nodes: the tree stays
/// well formed for a bounded bonus, and its average bound is untouched.
pub proof fn lemma_set_hit_roll_wf(m: CompModel, atk: int)
    ensures
        spec_set_hit_roll(m, atk).abs_average_x4() == m.abs_average_x4(),
        spec_set_hit_roll(m, atk).average_x4() == m.average_x4(),
        m.wf() && -STAT_LIMIT <= atk <= STAT_LIMIT ==> spec_set_hit_roll(m, atk).wf(),
    decreases m,
{
    match m {
        CompModel::Condition { success, failure, .. } => {
            lemma_set_hit_roll_wf(*success, atk);
            lemma_set_hit_roll_wf(*failure, atk);
        },
        CompModel::Multi { next } => {
            lemma_set_hit_roll_wf_list(next, atk);
            assert(spec_set_hit_roll(m, atk) == (CompModel::Multi {
                next: spec_set_hit_roll_list(next, atk),
            }));
        },
        _ => {},
    }
}

pub proof fn lemma_set_hit_roll_wf_list(s: Seq<CompModel>, atk: int)
    ensures
        spec_set_hit_roll_list(s, atk).len() == s.len(),
        abs_average_x4_sum(spec_set_hit_roll_list(s, atk)) == abs_average_x4_sum(s),
        average_x4_sum(spec_set_hit_roll_list(s, atk)) == average_x4_sum(s),
        forall|i: int| 0 <= i < s.len() ==> spec_set_hit_roll_list(s, atk)[i]
            == spec_set_hit_roll(#[trigger] s[i], atk),
        (forall|i: int| 0 <= i < s.len() ==> (#[trigger] s[i]).wf() && -STAT_LIMIT <= atk
            <= STAT_LIMIT) ==> forall|i: int| 0 <= i < s.len() ==> (
        #[trigger] spec_set_hit_roll_list(s, atk)[i]).wf(),
    decreases s,
{
    if s.len() > 0 {
        lemma_set_hit_roll_wf_list(s.drop_last(), atk);
        lemma_set_hit_roll_wf(s.last(), atk);
        assert(s.last() == s[s.len() - 1]);
        let l = spec_set_hit_roll_list(s, atk);
        assert(l.drop_last() =~= spec_set_hit_roll_list(s.drop_last(), atk));
        assert forall|i: int| 0 <= i < s.len() implies l[i] == spec_set_hit_roll(
            #[trigger] s[i],
            atk,
        ) by {
            if i < s.len() - 1 {
                assert(l[i] == spec_set_hit_roll_list(s.drop_last(), atk)[i]);
                assert(s.drop_last()[i] == s[i]);
            }
        }
    }
}

/// The average bound of a concatenation is the sum of the parts' bounds.
pub proof fn lemma_abs_sum_concat(a: Seq<CompModel>, b: Seq<CompModel>)
    ensures
        abs_average_x4_sum(a + b) == abs_average_x4_sum(a) + abs_average_x4_sum(b),
    decreases b,
{
    if b.len() == 0 {
        assert(a + b =~= a);
    } else {
        assert((a + b).drop_last() =~= a + b.drop_last());
        assert((a + b).last() == b.last());
        lemma_abs_sum_concat(a, b.drop_last());
    }
}

} // verus!
