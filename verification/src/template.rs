//! Templates: the authoring-side descriptions of creatures, attacks and
//! spells, and the builder that instantiates concrete creatures from
//! them. Malformed template data is an authoring error, expressed here as
//! preconditions on the building operations.

use vstd::prelude::*;
use crate::ability::{StatBlock, STAT_LIMIT};
use crate::action::{
    ActionComponent, ActionStruct, ActionModel, CompModel, spec_increase_damage,
    spec_increase_target_count, spec_set_hit_roll, spec_set_save_dc, spec_can_increase,
    TARGET_COUNT_LIMIT,
};
use crate::dice::{Dice, DICE_COUNT_LIMIT};
use crate::formula::{Formula, FIXED_LIMIT};
use crate::monster::{Monster, MonsterStats};
use crate::resource::{Charge, Resource};
use crate::roll::Roller;

verus! {

broadcast use vstd::std_specs::vec::group_vec_axioms;

/// Largest number of attacks a multi-attack template may list.
pub const ATTACKS_LIMIT: usize = 100;

/// Highest spell-slot level a template may name.
pub const SPELL_LEVEL_LIMIT: i32 = 30;

/// A template for one selectable action: a plain attack, a multi-attack
/// of plain attacks, or a reference to a named spell with its attack
/// bonus and save difficulty.
#[derive(Debug)]
pub enum ActionTemplate {
    Attack { name: String, attack_modifier: i32, dammage: Formula, target_count: i32 },
    MultiAttack { name: String, attacks: Vec<ActionTemplate> },
    Spell { name: String, spell_attack: i32, spell_dc: i32 },
}

impl ActionTemplate {
    /// Sound authoring data: bounded modifiers and counts, well-formed
    /// formulas, and multi-attacks composed of plain attacks only.
    pub open spec fn wf(&self) -> bool
        decreases self,
    {
        match self {
            ActionTemplate::Attack { attack_modifier, dammage, target_count, .. } => {
                &&& -STAT_LIMIT <= *attack_modifier <= STAT_LIMIT
                &&& dammage.wf()
                &&& 0 <= *target_count <= TARGET_COUNT_LIMIT
            },
            ActionTemplate::MultiAttack { attacks, .. } => {
                &&& attacks@.len() <= ATTACKS_LIMIT
                &&& forall|i: int| 0 <= i < attacks@.len() ==> (#[trigger] attacks@[i]).wf()
                    && attacks@[i] is Attack
            },
            ActionTemplate::Spell { spell_attack, spell_dc, .. } => {
                &&& -STAT_LIMIT <= *spell_attack <= STAT_LIMIT
                &&& -STAT_LIMIT <= *spell_dc <= STAT_LIMIT
            },
        }
    }
}

/// Six raw values as a creature template carries them.
#[derive(Clone, Copy, Debug)]
pub struct StatsTemplate {
    pub strength: i32,
    pub dexterity: i32,
    pub constitution: i32,
    pub wisdom: i32,
    pub intelligence: i32,
    pub charisma: i32,
}

impl StatsTemplate {
    pub open spec fn wf(&self) -> bool {
        &&& -STAT_LIMIT <= self.strength <= STAT_LIMIT
        &&& -STAT_LIMIT <= self.dexterity <= STAT_LIMIT
        &&& -STAT_LIMIT <= self.constitution <= STAT_LIMIT
        &&& -STAT_LIMIT <= self.wisdom <= STAT_LIMIT
        &&& -STAT_LIMIT <= self.intelligence <= STAT_LIMIT
        &&& -STAT_LIMIT <= self.charisma <= STAT_LIMIT
    }

    /// The same six values as a stat block.
    pub open spec fn spec_as_block(&self) -> StatBlock {
        StatBlock {
            strength: self.strength,
            dexterity: self.dexterity,
            constitution: self.constitution,
            intelligence: self.intelligence,
            wisdom: self.wisdom,
            charisma: self.charisma,
        }
    }

    pub fn as_block(&self) -> (r: StatBlock)
        ensures
            r == self.spec_as_block(),
    {
        StatBlock {
            strength: self.strength,
            dexterity: self.dexterity,
            constitution: self.constitution,
            intelligence: self.intelligence,
            wisdom: self.wisdom,
            charisma: self.charisma,
        }
    }
}

/// A creature's stat-block template: ability scores, save modifiers,
/// initiative, armor class, and the formula its hit points are rolled
/// from.
#[derive(Clone, Copy, Debug)]
pub struct MonsterStatsTemplate {
    pub abilities: StatsTemplate,
    pub saving_throws: StatsTemplate,
    pub initiative: i32,
    pub armor_class: i32,
    pub hp: Formula,
}

impl MonsterStatsTemplate {
    pub open spec fn wf(&self) -> bool {
        &&& self.abilities.wf()
        &&& self.saving_throws.wf()
        &&& self.hp.wf()
    }
}

/// A creature template: name, stat block, extra per-encounter resources
/// (spell slots, Ki, ...) and action templates.
#[derive(Debug)]
pub struct MonsterTemplate {
    pub name: String,
    pub entity_stats: MonsterStatsTemplate,
    pub resources: Vec<Resource>,
    pub actions: Vec<ActionTemplate>,
}

/// The per-level delta a spell applies when upcast: extra targets and
/// extra damage per slot level above the base.
#[derive(Clone, Copy, Debug)]
pub struct ActionComponentModifier {
    pub target_count: i32,
    pub damage: Formula,
}

impl ActionComponentModifier {
    /// The delta scaled by a number of upcast levels.
    pub fn times(&self, k: i32) -> (r: ActionComponentModifier)
        requires
            self.damage.wf(),
            0 <= k,
            self.damage.dice.dice_count * k <= DICE_COUNT_LIMIT,
            -FIXED_LIMIT <= self.damage.fixed * k <= FIXED_LIMIT,
            0 <= self.target_count * k <= TARGET_COUNT_LIMIT,
        ensures
            r.damage == spec_formula_times(self.damage, k as int),
            r.target_count == self.target_count * k,
    {
        proof {
            assert(0 <= self.target_count * k <= TARGET_COUNT_LIMIT);
        }
        ActionComponentModifier {
            target_count: self.target_count * k,
            damage: self.damage.times(k),
        }
    }
}

/// A formula scaled by a non-negative factor, over plain values.
pub open spec fn spec_formula_times(f: Formula, k: int) -> Formula {
    Formula {
        dice: Dice {
            dice_count: (f.dice.dice_count * k) as i32,
            face_count: f.dice.face_count,
        },
        fixed: (f.fixed * k) as i32,
    }
}

/// A spell template: base charges, resources and level, the base
/// components paired with their per-level upcast deltas, extra components
/// gained per upcast level, and the bindings (upcast level, save DC,
/// attack bonus) filled in before building.
#[derive(Debug)]
pub struct SpellTemplate {
    pub charges: Charge,
    pub resources: Vec<Resource>,
    pub level: i32,
    pub components: Vec<(ActionComponent, ActionComponentModifier)>,
    pub upcast_components: Vec<ActionComponent>,
    pub upcast_level: i32,
    pub spell_dc: i32,
    pub spell_attack: i32,
}

impl SpellTemplate {
    /// Bind the spell's attack bonus.
    pub fn spell_attack(&mut self, amount: i32) -> (ret: &mut Self)
        ensures
            *ret == (SpellTemplate { spell_attack: amount, ..*old(self) }),
            *final(self) == *final(ret),
    {
        self.spell_attack = amount;
        self
    }

    /// Bind the spell's save difficulty.
    pub fn spell_dc(&mut self, amount: i32) -> (ret: &mut Self)
        ensures
            *ret == (SpellTemplate { spell_dc: amount, ..*old(self) }),
            *final(self) == *final(ret),
    {
        self.spell_dc = amount;
        self
    }

    /// Bind the number of levels above the base the spell is cast at.
    pub fn upcast(&mut self, lvl: i32) -> (ret: &mut Self)
        ensures
            *ret == (SpellTemplate { upcast_level: lvl, ..*old(self) }),
            *final(self) == *final(ret),
    {
        self.upcast_level = lvl;
        self
    }

    pub fn get_base_level(&self) -> (r: i32)
        ensures
            r == self.level,
    {
        self.level
    }
}

} // verus!

// -- building a concrete action from a spell template ---------------------

verus! {

/// A component with the spell's save difficulty and attack bonus bound
/// in.
pub open spec fn spec_bound_comp(c: CompModel, dc: int, atk: int) -> CompModel {
    spec_set_hit_roll(spec_set_save_dc(c, dc), atk)
}

/// One base component after upcasting: the scaled extra damage folded
/// into its leaves, the scaled extra targets added to its condition
/// nodes, then the spell's bindings applied.
pub open spec fn spec_spell_component(
    c: CompModel,
    m: ActionComponentModifier,
    lvl: int,
    dc: int,
    atk: int,
) -> CompModel {
    spec_bound_comp(
        spec_increase_target_count(
            spec_increase_damage(c, spec_formula_times(m.damage, lvl)),
            m.target_count * lvl,
        ),
        dc,
        atk,
    )
}

/// All base components after upcasting, in order.
pub open spec fn spec_spell_components(
    pairs: Seq<(ActionComponent, ActionComponentModifier)>,
    lvl: int,
    dc: int,
    atk: int,
) -> Seq<CompModel>
    decreases pairs,
{
    if pairs.len() == 0 {
        Seq::empty()
    } else {
        spec_spell_components(pairs.drop_last(), lvl, dc, atk).push(
            spec_spell_component(pairs.last().0@, pairs.last().1, lvl, dc, atk),
        )
    }
}

/// The extra components, bound but otherwise unchanged, in order.
pub open spec fn spec_bind_list(comps: Seq<ActionComponent>, dc: int, atk: int) -> Seq<CompModel>
    decreases comps,
{
    if comps.len() == 0 {
        Seq::empty()
    } else {
        spec_bind_list(comps.drop_last(), dc, atk).push(spec_bound_comp(comps.last()@, dc, atk))
    }
}

/// `times` copies of the bound extra components, one batch per upcast
/// level.
pub open spec fn spec_repeat_components(
    comps: Seq<ActionComponent>,
    times: int,
    dc: int,
    atk: int,
) -> Seq<CompModel>
    decreases times,
{
    if times <= 0 {
        Seq::empty()
    } else {
        spec_repeat_components(comps, times - 1, dc, atk) + spec_bind_list(comps, dc, atk)
    }
}

/// One base component and its upcast delta are sound for `lvl` levels of
/// upcasting: the scaled delta stays in range, fits the component's die
/// size, and the upcast component is well formed.
pub open spec fn pair_buildable(cm: CompModel, m: ActionComponentModifier, lvl: int) -> bool {
    let sf = spec_formula_times(m.damage, lvl);
    &&& cm.wf()
    &&& m.damage.wf()
    &&& m.damage.dice.dice_count * lvl <= DICE_COUNT_LIMIT
    &&& -FIXED_LIMIT <= m.damage.fixed * lvl <= FIXED_LIMIT
    &&& 0 <= m.target_count * lvl <= TARGET_COUNT_LIMIT
    &&& spec_can_increase(cm, sf)
    &&& spec_increase_damage(cm, sf).wf()
    &&& spec_increase_target_count(spec_increase_damage(cm, sf), m.target_count * lvl).wf()
}

impl SpellTemplate {
    /// The action this template builds at its bound upcast level.
    pub open spec fn spec_build(&self) -> ActionModel {
        ActionModel {
            charges: self.charges,
            resources: self.resources@.push(Resource::SpellAction).push(
                Resource::Spell((self.level + self.upcast_level) as i32),
            ),
            components: spec_spell_components(
                self.components@,
                self.upcast_level as int,
                self.spell_dc as int,
                self.spell_attack as int,
            ) + spec_repeat_components(
                self.upcast_components@,
                self.upcast_level as int,
                self.spell_dc as int,
                self.spell_attack as int,
            ),
        }
    }

    /// Sound authoring data for building at the bound upcast level: the
    /// scaled deltas stay in range, every delta fits its component's die
    /// size, and each upcast step yields a well-formed tree.
    pub open spec fn buildable(&self) -> bool {
        &&& 0 <= self.upcast_level
        &&& 0 <= self.level
        &&& self.level + self.upcast_level <= SPELL_LEVEL_LIMIT
        &&& forall|i: int| 0 <= i < self.components@.len() ==> pair_buildable(
            (#[trigger] self.components@[i]).0@,
            self.components@[i].1,
            self.upcast_level as int,
        )
    }

    /// Build the concrete action for the bound upcast level: the spell's
    /// charge limit, its declared resources plus a spell action and the
    /// slot it consumes, the upcast base components, and one batch of
    /// extra components per upcast level.
    #[verifier::loop_isolation(false)]
    pub fn build(&self) -> (r: ActionStruct)
        requires
            self.buildable(),
        ensures
            r@ == self.spec_build(),
    {
        let ghost lvl = self.upcast_level as int;
        let ghost dc = self.spell_dc as int;
        let ghost atk = self.spell_attack as int;
        let mut action = ActionStruct::default();
        action.set_charge(self.charges);
        let mut i: usize = 0;
        let n = self.resources.len();
        while i < n
            invariant
                0 <= i <= n,
                action.charges == self.charges,
                action.resources@ == self.resources@.take(i as int),
                action@.components == Seq::<CompModel>::empty(),
            decreases n - i,
        {
            action.add_resource(self.resources[i]);
            proof {
                assert(action.resources@ =~= self.resources@.take(i as int + 1));
            }
            i = i + 1;
        }
        proof {
            assert(self.resources@.take(n as int) =~= self.resources@);
        }
        action.add_resource(Resource::SpellAction);
        action.add_resource(Resource::Spell(self.level + self.upcast_level));
        let pn = self.components.len();
        let mut p: usize = 0;
        while p < pn
            invariant
                0 <= p <= pn,
                action.charges == self.charges,
                action.resources@ == self.resources@.push(Resource::SpellAction).push(
                    Resource::Spell((self.level + self.upcast_level) as i32),
                ),
                action@.components == spec_spell_components(
                    self.components@.take(p as int),
                    lvl,
                    dc,
                    atk,
                ),
            decreases pn - p,
        {
            let pair = &self.components[p];
            let comp = pair.0.clone();
            let delta = pair.1.times(self.upcast_level);
            let comp = comp.increase_damage(&delta.damage);
            let comp = comp.increase_target_count(delta.target_count);
            let comp = comp.set_save_dc(self.spell_dc);
            let comp = comp.set_hit_roll(self.spell_attack);
            let ghost comps_old = action@.components;
            action.add_component(comp);
            proof {
                let pp = p as int;
                assert(comp@ == spec_spell_component(
                    self.components@[pp].0@,
                    self.components@[pp].1,
                    lvl,
                    dc,
                    atk,
                ));
                assert(self.components@.take(pp + 1).drop_last() =~= self.components@.take(pp));
                assert(self.components@.take(pp + 1).last() == self.components@[pp]);
                assert(spec_spell_components(self.components@.take(pp + 1), lvl, dc, atk)
                    == comps_old.push(comp@));
            }
            p = p + 1;
        }
        proof {
            assert(self.components@.take(pn as int) =~= self.components@);
        }
        let ghost base_comps = action@.components;
        let mut u: i32 = 0;
        while u < self.upcast_level
            invariant
                0 <= u <= self.upcast_level || self.upcast_level < 0 && u == 0,
                action.charges == self.charges,
                action.resources@ == self.resources@.push(Resource::SpellAction).push(
                    Resource::Spell((self.level + self.upcast_level) as i32),
                ),
                action@.components == base_comps + spec_repeat_components(
                    self.upcast_components@,
                    u as int,
                    dc,
                    atk,
                ),
            decreases self.upcast_level - u,
        {
            let cn = self.upcast_components.len();
            let ghost batch_start = action@.components;
            let mut c: usize = 0;
            while c < cn
                invariant
                    0 <= c <= cn,
                    action.charges == self.charges,
                    action.resources@ == self.resources@.push(Resource::SpellAction).push(
                        Resource::Spell((self.level + self.upcast_level) as i32),
                    ),
                    action@.components == batch_start + spec_bind_list(
                        self.upcast_components@.take(c as int),
                        dc,
                        atk,
                    ),
                decreases cn - c,
            {
                let comp = (&self.upcast_components[c]).clone();
                let comp = comp.set_save_dc(self.spell_dc);
                let comp = comp.set_hit_roll(self.spell_attack);
                let ghost comps_old = action@.components;
                action.add_component(comp);
                proof {
                    let cc = c as int;
                    assert(comp@ == spec_bound_comp(self.upcast_components@[cc]@, dc, atk));
                    assert(self.upcast_components@.take(cc + 1).drop_last()
                        =~= self.upcast_components@.take(cc));
                    assert(self.upcast_components@.take(cc + 1).last()
                        == self.upcast_components@[cc]);
                    assert(spec_bind_list(self.upcast_components@.take(cc + 1), dc, atk)
                        == spec_bind_list(self.upcast_components@.take(cc), dc, atk).push(
                        comp@,
                    ));
                    assert(batch_start + spec_bind_list(
                        self.upcast_components@.take(cc),
                        dc,
                        atk,
                    ).push(comp@) =~= comps_old.push(comp@));
                }
                c = c + 1;
            }
            proof {
                assert(self.upcast_components@.take(cn as int) =~= self.upcast_components@);
                assert(spec_repeat_components(self.upcast_components@, u as int + 1, dc, atk)
                    == spec_repeat_components(self.upcast_components@, u as int, dc, atk)
                        + spec_bind_list(self.upcast_components@, dc, atk));
                assert(base_comps + (spec_repeat_components(
                    self.upcast_components@,
                    u as int,
                    dc,
                    atk,
                ) + spec_bind_list(self.upcast_components@, dc, atk)) =~= (base_comps
                    + spec_repeat_components(self.upcast_components@, u as int, dc, atk))
                    + spec_bind_list(self.upcast_components@, dc, atk));
            }
            u = u + 1;
        }
        proof {
            assert(base_comps + spec_repeat_components(
                self.upcast_components@,
                self.upcast_level as int,
                dc,
                atk,
            ) == self.spec_build().components);
        }
        action
    }
}

} // verus!

// -- cloning spell templates, and the template database -------------------

verus! {

use crate::action::view_list;

/// Pairwise model equality of two base-component lists.
pub open spec fn pairs_view_eq(
    a: Seq<(ActionComponent, ActionComponentModifier)>,
    b: Seq<(ActionComponent, ActionComponentModifier)>,
) -> bool {
    &&& a.len() == b.len()
    &&& forall|i: int| 0 <= i < a.len() ==> (#[trigger] a[i]).0@ == b[i].0@ && a[i].1 == b[i].1
}

/// Model-equal base-component lists upcast to the same components.
pub proof fn lemma_spell_components_congruent(
    a: Seq<(ActionComponent, ActionComponentModifier)>,
    b: Seq<(ActionComponent, ActionComponentModifier)>,
    lvl: int,
    dc: int,
    atk: int,
)
    requires
        pairs_view_eq(a, b),
    ensures
        spec_spell_components(a, lvl, dc, atk) == spec_spell_components(b, lvl, dc, atk),
    decreases a,
{
    if a.len() > 0 {
        assert(a.last() == a[a.len() - 1]);
        assert(b.last() == b[b.len() - 1]);
        assert(pairs_view_eq(a.drop_last(), b.drop_last()));
        lemma_spell_components_congruent(a.drop_last(), b.drop_last(), lvl, dc, atk);
    }
}

/// Model-equal component lists bind to the same components.
pub proof fn lemma_bind_list_congruent(
    a: Seq<ActionComponent>,
    b: Seq<ActionComponent>,
    dc: int,
    atk: int,
)
    requires
        a.len() == b.len(),
        forall|i: int| 0 <= i < a.len() ==> (#[trigger] a[i])@ == b[i]@,
    ensures
        spec_bind_list(a, dc, atk) == spec_bind_list(b, dc, atk),
    decreases a,
{
    if a.len() > 0 {
        assert(a.last() == a[a.len() - 1]);
        assert(b.last() == b[b.len() - 1]);
        assert(forall|i: int| 0 <= i < a.drop_last().len() ==> (#[trigger] a.drop_last()[i])@
            == b.drop_last()[i]@);
        lemma_bind_list_congruent(a.drop_last(), b.drop_last(), dc, atk);
    }
}

/// Model-equal component lists repeat to the same components.
pub proof fn lemma_repeat_congruent(
    a: Seq<ActionComponent>,
    b: Seq<ActionComponent>,
    times: int,
    dc: int,
    atk: int,
)
    requires
        a.len() == b.len(),
        forall|i: int| 0 <= i < a.len() ==> (#[trigger] a[i])@ == b[i]@,
    ensures
        spec_repeat_components(a, times, dc, atk) == spec_repeat_components(b, times, dc, atk),
    decreases times,
{
    if times > 0 {
        lemma_repeat_congruent(a, b, times - 1, dc, atk);
        lemma_bind_list_congruent(a, b, dc, atk);
    }
}

/// Whether two spell templates agree on everything a build can see.
pub open spec fn spell_view_eq(a: &SpellTemplate, b: &SpellTemplate) -> bool {
    &&& a.charges == b.charges
    &&& a.resources@ == b.resources@
    &&& a.level == b.level
    &&& a.upcast_level == b.upcast_level
    &&& a.spell_dc == b.spell_dc
    &&& a.spell_attack == b.spell_attack
    &&& pairs_view_eq(a.components@, b.components@)
    &&& a.upcast_components@.len() == b.upcast_components@.len()
    &&& forall|i: int| 0 <= i < a.upcast_components@.len()
        ==> (#[trigger] a.upcast_components@[i])@ == b.upcast_components@[i]@
}

/// Build-equal templates build the same action and are buildable under
/// the same conditions.
pub proof fn lemma_build_congruent(a: &SpellTemplate, b: &SpellTemplate)
    requires
        spell_view_eq(a, b),
    ensures
        a.spec_build() == b.spec_build(),
        a.buildable() == b.buildable(),
{
    lemma_spell_components_congruent(
        a.components@,
        b.components@,
        a.upcast_level as int,
        a.spell_dc as int,
        a.spell_attack as int,
    );
    lemma_repeat_congruent(
        a.upcast_components@,
        b.upcast_components@,
        a.upcast_level as int,
        a.spell_dc as int,
        a.spell_attack as int,
    );
    if a.buildable() {
        assert forall|i: int| 0 <= i < b.components@.len() implies pair_buildable(
            (#[trigger] b.components@[i]).0@,
            b.components@[i].1,
            b.upcast_level as int,
        ) by {
            assert(pair_buildable(
                a.components@[i].0@,
                a.components@[i].1,
                a.upcast_level as int,
            ));
        }
    }
    if b.buildable() {
        assert forall|i: int| 0 <= i < a.components@.len() implies pair_buildable(
            (#[trigger] a.components@[i]).0@,
            a.components@[i].1,
            a.upcast_level as int,
        ) by {
            assert(pair_buildable(
                b.components@[i].0@,
                b.components@[i].1,
                b.upcast_level as int,
            ));
        }
    }
}

impl Clone for SpellTemplate {
    /// A structural copy that builds the very same action.
    #[verifier::loop_isolation(false)]
    fn clone(&self) -> (res: Self)
        ensures
            spell_view_eq(self, &res),
    {
        let mut rs: Vec<Resource> = Vec::new();
        let mut i: usize = 0;
        while i < self.resources.len()
            invariant
                0 <= i <= self.resources@.len(),
                rs@ == self.resources@.take(i as int),
            decreases self.resources@.len() - i,
        {
            rs.push(self.resources[i]);
            proof {
                assert(rs@ =~= self.resources@.take(i as int + 1));
            }
            i = i + 1;
        }
        proof {
            assert(self.resources@.take(self.resources@.len() as int) =~= self.resources@);
        }
        let mut cs: Vec<(ActionComponent, ActionComponentModifier)> = Vec::new();
        let mut j: usize = 0;
        while j < self.components.len()
            invariant
                0 <= j <= self.components@.len(),
                cs@.len() == j,
                forall|k: int| 0 <= k < j ==> (#[trigger] cs@[k]).0@ == self.components@[k].0@
                    && cs@[k].1 == self.components@[k].1,
            decreases self.components@.len() - j,
        {
            let pair = &self.components[j];
            let c = pair.0.clone();
            cs.push((c, pair.1));
            j = j + 1;
        }
        let mut us: Vec<ActionComponent> = Vec::new();
        let mut k: usize = 0;
        while k < self.upcast_components.len()
            invariant
                0 <= k <= self.upcast_components@.len(),
                us@.len() == k,
                forall|m: int| 0 <= m < k ==> (#[trigger] us@[m])@ == self.upcast_components@[m]@,
            decreases self.upcast_components@.len() - k,
        {
            let c = (&self.upcast_components[k]).clone();
            us.push(c);
            k = k + 1;
        }
        SpellTemplate {
            charges: self.charges,
            resources: rs,
            level: self.level,
            components: cs,
            upcast_components: us,
            upcast_level: self.upcast_level,
            spell_dc: self.spell_dc,
            spell_attack: self.spell_attack,
        }
    }
}

/// `si` is the first entry of the spell database that carries `name`.
pub open spec fn is_first_spell_match(
    db: Seq<(String, SpellTemplate)>,
    name: Seq<char>,
    si: int,
) -> bool {
    &&& 0 <= si < db.len()
    &&& db[si].0@ == name
    &&& forall|j: int| 0 <= j < si ==> (#[trigger] db[j]).0@ != name
}

/// Instantiates concrete creatures from a database of creature templates
/// and one of named spell templates.
#[derive(Debug)]
pub struct TemplateBuilder {
    pub monster_database: Vec<(String, MonsterTemplate)>,
    pub spell_database: Vec<(String, SpellTemplate)>,
    pub current_monster: Option<Monster>,
    pub roller: Roller,
}

impl TemplateBuilder {
    /// Whether the spell database holds an entry named `name`.
    pub open spec fn spec_has_spell(&self, name: Seq<char>) -> bool {
        exists|i: int| 0 <= i < self.spell_database@.len() && (#[trigger] self.spell_database@[i])
            .0@ == name
    }

    /// The position of the first database entry named `name`. Looking up
    /// a name the database does not hold is a fatal authoring error.
    #[verifier::loop_isolation(false)]
    pub fn spell_index(&self, name: &str) -> (si: usize)
        requires
            self.spec_has_spell(name@),
        ensures
            is_first_spell_match(self.spell_database@, name@, si as int),
    {
        let name_owned = name.to_owned();
        let mut i: usize = 0;
        let n = self.spell_database.len();
        while i < n
            invariant
                0 <= i <= n,
                name_owned@ == name@,
                forall|j: int| 0 <= j < i ==> (#[trigger] self.spell_database@[j]).0@ != name@,
            decreases n - i,
        {
            let entry = &self.spell_database[i];
            if entry.0 == name_owned {
                return i;
            }
            i = i + 1;
        }
        proof {
            let w = choose|w: int|
                0 <= w < self.spell_database@.len() && (#[trigger] self.spell_database@[w]).0@
                    == name@;
            assert(false);
        }
        unreached()
    }

    /// A copy of the named spell template. Looking up a name the database
    /// does not hold is a fatal authoring error.
    #[verifier::loop_isolation(false)]
    pub fn get_spell_template(&self, name: &str) -> (r: SpellTemplate)
        requires
            self.spec_has_spell(name@),
        ensures
            exists|si: int| is_first_spell_match(self.spell_database@, name@, si)
                && spell_view_eq(&(#[trigger] self.spell_database@[si]).1, &r),
    {
        let name_owned = name.to_owned();
        let mut i: usize = 0;
        let n = self.spell_database.len();
        while i < n
            invariant
                0 <= i <= n,
                name_owned@ == name@,
                forall|j: int| 0 <= j < i ==> (#[trigger] self.spell_database@[j]).0@ != name@,
            decreases n - i,
        {
            let entry = &self.spell_database[i];
            if entry.0 == name_owned {
                let r = entry.1.clone();
                proof {
                    assert(is_first_spell_match(self.spell_database@, name@, i as int));
                }
                return r;
            }
            i = i + 1;
        }
        proof {
            let w = choose|w: int|
                0 <= w < self.spell_database@.len() && (#[trigger] self.spell_database@[w]).0@
                    == name@;
            assert(false);
        }
        unreached()
    }
}

} // verus!

// -- instantiating actions from templates ---------------------------------

verus! {

use crate::action::{ActionCondition, CondModel};
use crate::formula_text::{push_dec_digits, spec_dec_digits};
use crate::monster::is_highest_slot;

/// The component a plain attack template describes: an attack roll that
/// deals the damage on a hit and nothing on a miss.
pub open spec fn spec_attack_component(am: int, dmg: Formula, tc: int) -> CompModel {
    CompModel::Condition {
        target_count: tc,
        condition: CondModel::Hit { attack_modifier: am },
        success: Box::new(CompModel::Damage { damage: dmg, rolled: 0 }),
        failure: Box::new(CompModel::Nothing),
    }
}

/// The action a plain attack template describes: infinitely usable, costs
/// the turn's action, one attack component.
pub open spec fn spec_attack_action(am: int, dmg: Formula, tc: int) -> ActionModel {
    ActionModel {
        charges: Charge::Infinite,
        resources: seq![Resource::Action],
        components: seq![spec_attack_component(am, dmg, tc)],
    }
}

/// The components of a multi-attack: one attack component per listed
/// attack, in order.
pub open spec fn spec_multi_components(attacks: Seq<ActionTemplate>) -> Seq<CompModel>
    decreases attacks,
{
    if attacks.len() == 0 {
        Seq::empty()
    } else {
        spec_multi_components(attacks.drop_last()).push(
            match attacks.last() {
                ActionTemplate::Attack { attack_modifier, dammage, target_count, .. } => {
                    spec_attack_component(
                        attack_modifier as int,
                        dammage,
                        target_count as int,
                    )
                },
                _ => CompModel::Nothing,
            },
        )
    }
}

impl TemplateBuilder {
    /// Every spell template in the database can be built at every upcast
    /// level its base level leaves room for.
    pub open spec fn spells_wf(&self) -> bool {
        &&& forall|si: int| 0 <= si < self.spell_database@.len() ==> 0 <= (
        #[trigger] self.spell_database@[si]).1.level <= SPELL_LEVEL_LIMIT
        &&& forall|si: int, off: i32| 0 <= si < self.spell_database@.len() && 0 <= off
            && self.spell_database@[si].1.level + off <= SPELL_LEVEL_LIMIT
            ==> #[trigger] spell_buildable_at(self.spell_database@[si].1, off)
    }
}

/// Whether a spell template can be built once bound to `off` levels of
/// upcasting, yielding a well-formed action: sound charges, no duplicate
/// resource once the spell action and slot are added, sound components at
/// that level, and a bounded total average.
pub open spec fn spell_buildable_at(t: SpellTemplate, off: i32) -> bool {
    &&& 0 <= off
    &&& 0 <= t.level
    &&& t.level + off <= SPELL_LEVEL_LIMIT
    &&& t.charges.wf()
    &&& crate::resource::resources_distinct(
        t.resources@.push(Resource::SpellAction).push(
            Resource::Spell((t.level + off) as i32),
        ),
    )
    &&& forall|i: int| 0 <= i < t.components@.len() ==> pair_buildable(
        (#[trigger] t.components@[i]).0@,
        t.components@[i].1,
        off as int,
    )
    &&& forall|i: int| 0 <= i < t.upcast_components@.len()
        ==> (#[trigger] t.upcast_components@[i])@.wf()
    &&& crate::action::abs_average_x4_sum(
        spec_spell_components(t.components@, off as int, 0, 0) + spec_repeat_components(
            t.upcast_components@,
            off as int,
            0,
            0,
        ),
    ) <= crate::action::AVERAGE_X4_LIMIT
}

/// Every spell-slot level the ledger names fits the template limits.
pub open spec fn slots_bounded(led: Seq<(Resource, i32)>) -> bool {
    forall|i: int| 0 <= i < led.len() ==> ((#[trigger] led[i]).0 matches Resource::Spell(l)
        ==> l <= SPELL_LEVEL_LIMIT)
}

/// The named actions one template yields, relative to the spell database
/// and the owning creature's ledger: one entry for an attack or a
/// multi-attack, and one entry per castable upcast level for a spell.
pub open spec fn template_yields(
    spell_db: Seq<(String, SpellTemplate)>,
    led: Seq<(Resource, i32)>,
    t: ActionTemplate,
    es: Seq<(String, ActionStruct)>,
) -> bool {
    match t {
        ActionTemplate::Attack { name, attack_modifier, dammage, target_count } => {
            &&& es.len() == 1
            &&& es[0].0@ == name@
            &&& es[0].1@ == spec_attack_action(
                attack_modifier as int,
                dammage,
                target_count as int,
            )
        },
        ActionTemplate::MultiAttack { name, attacks } => {
            &&& es.len() == 1
            &&& es[0].0@ == name@
            &&& es[0].1@ == (ActionModel {
                charges: Charge::Infinite,
                resources: seq![Resource::Action],
                components: spec_multi_components(attacks@),
            })
        },
        ActionTemplate::Spell { name, spell_attack, spell_dc } => forall|si: int, h: int|
            #[trigger] is_first_spell_match(spell_db, name@, si) && #[trigger] is_highest_slot(
                led,
                h,
            ) ==> ({
                let t0 = spell_db[si].1;
                let lowest = t0.level as int;
                let cnt = if h - lowest + 1 >= 0 {
                    h - lowest + 1
                } else {
                    0
                };
                &&& es.len() == cnt
                &&& forall|u: int| 0 <= u < cnt ==> ((#[trigger] es[u]).0@ == name@ + seq![' ']
                    + spec_dec_digits(lowest + u) && es[u].1@ == (SpellTemplate {
                    spell_attack,
                    spell_dc,
                    upcast_level: u as i32,
                    ..t0
                }).spec_build())
            }),
    }
}

/// The concatenation, template by template and in order, of the actions
/// the templates yield: the empty template list yields no actions.
pub open spec fn templates_yield_all(
    spell_db: Seq<(String, SpellTemplate)>,
    led: Seq<(Resource, i32)>,
    ts: Seq<ActionTemplate>,
    es: Seq<(String, ActionStruct)>,
) -> bool
    decreases ts,
{
    if ts.len() == 0 {
        es.len() == 0
    } else {
        exists|k: int|
            {
                &&& 0 <= k <= es.len()
                &&& templates_yield_all(spell_db, led, ts.drop_last(), #[trigger] es.take(k))
                &&& template_yields(spell_db, led, ts.last(), es.skip(k))
            }
    }
}

impl ActionStruct {
    /// The named, selectable actions a template describes: one entry for
    /// an attack or a multi-attack, and one entry per castable upcast
    /// level for a spell ("Name 3", "Name 4", ... up to the creature's
    /// highest slot).
    #[verifier::loop_isolation(false)]
    pub fn from_template(
        builder: &TemplateBuilder,
        monster: &Monster,
        template: &ActionTemplate,
    ) -> (r: Vec<(String, ActionStruct)>)
        requires
            template.wf(),
            match template {
                ActionTemplate::Spell { name, .. } => builder.spec_has_spell(name@)
                    && builder.spells_wf() && slots_bounded(monster.resources@),
                _ => true,
            },
        ensures
            template_yields(builder.spell_database@, monster.resources@, *template, r@),
    {
        let mut ret: Vec<(String, ActionStruct)> = Vec::new();
        match template {
            ActionTemplate::Attack { name, attack_modifier, dammage, target_count } => {
                let dmg = ActionComponent::Damage { damage: *dammage, rolled: 0 };
                let miss = ActionComponent::Nothing;
                proof {
                    assert(dmg@ == (CompModel::Damage { damage: *dammage, rolled: 0 }));
                    assert(miss@ == CompModel::Nothing);
                }
                let component = ActionComponent::Condition {
                    condition: ActionCondition::HitCondition {
                        attack_modifier: *attack_modifier,
                    },
                    success: Box::new(dmg),
                    failure: Box::new(miss),
                    target_count: *target_count,
                };
                proof {
                    assert(component@ == spec_attack_component(
                        *attack_modifier as int,
                        *dammage,
                        *target_count as int,
                    ));
                }
                let ghost gcomp = component;
                let action = ActionStruct {
                    charges: Charge::Infinite,
                    resources: vec![Resource::Action],
                    components: vec![component],
                };
                proof {
                    assert(action.resources@ =~= seq![Resource::Action]);
                    assert(action.components@ =~= seq![gcomp]);
                    assert(seq![gcomp].drop_last() =~= Seq::<ActionComponent>::empty());
                    assert(view_list(seq![gcomp]) == view_list(
                        Seq::<ActionComponent>::empty(),
                    ).push(gcomp@));
                    assert(view_list(action.components@) =~= seq![
                        spec_attack_component(
                            *attack_modifier as int,
                            *dammage,
                            *target_count as int,
                        ),
                    ]);
                }
                ret.push((name.clone(), action));
            },
            ActionTemplate::MultiAttack { name, attacks } => {
                let mut components: Vec<ActionComponent> = Vec::new();
                let an = attacks.len();
                let mut i: usize = 0;
                while i < an
                    invariant
                        0 <= i <= an,
                        view_list(components@) == spec_multi_components(attacks@.take(i as int)),
                    decreases an - i,
                {
                    let att = &attacks[i];
                    match att {
                        ActionTemplate::Attack {
                            attack_modifier,
                            dammage,
                            target_count,
                            ..
                        } => {
                            let dmg = ActionComponent::Damage { damage: *dammage, rolled: 0 };
                            let miss = ActionComponent::Nothing;
                            proof {
                                assert(dmg@ == (CompModel::Damage {
                                    damage: *dammage,
                                    rolled: 0,
                                }));
                                assert(miss@ == CompModel::Nothing);
                            }
                            let component = ActionComponent::Condition {
                                condition: ActionCondition::HitCondition {
                                    attack_modifier: *attack_modifier,
                                },
                                success: Box::new(dmg),
                                failure: Box::new(miss),
                                target_count: *target_count,
                            };
                            proof {
                                assert(component@ == spec_attack_component(
                                    *attack_modifier as int,
                                    *dammage,
                                    *target_count as int,
                                ));
                            }
                            let ghost comps_old = components@;
                            components.push(component);
                            proof {
                                let ii = i as int;
                                assert(attacks@.take(ii + 1).drop_last() =~= attacks@.take(ii));
                                assert(attacks@.take(ii + 1).last() == attacks@[ii]);
                                assert(components@.drop_last() =~= comps_old);
                                assert(view_list(components@) == view_list(comps_old).push(
                                    component@,
                                ));
                                assert(component@ == spec_attack_component(
                                    *attack_modifier as int,
                                    *dammage,
                                    *target_count as int,
                                ));
                                assert(spec_multi_components(attacks@.take(ii + 1))
                                    == spec_multi_components(attacks@.take(ii)).push(
                                    component@,
                                ));
                            }
                        },
                        _ => {
                            proof {
                                assert(attacks@[i as int] is Attack);
                                assert(false);
                            }
                        },
                    }
                    i = i + 1;
                }
                proof {
                    assert(attacks@.take(an as int) =~= attacks@);
                }
                let action = ActionStruct {
                    charges: Charge::Infinite,
                    resources: vec![Resource::Action],
                    components,
                };
                proof {
                    assert(action.resources@ =~= seq![Resource::Action]);
                }
                ret.push((name.clone(), action));
            },
            ActionTemplate::Spell { name, spell_attack, spell_dc } => {
                let si = builder.spell_index(name.as_str());
                let mut spell_template = (&builder.spell_database[si].1).clone();
                let highest = monster.highest_spell_slot();
                let lowest = spell_template.get_base_level();
                let ghost t0 = builder.spell_database@[si as int].1;
                proof {
                    reveal_strlit(" ");
                    assert(" "@ =~= seq![' ']);
                }
                proof {
                    if highest as int > SPELL_LEVEL_LIMIT {
                        let w = choose|i: int|
                            0 <= i < monster.resources@.len() && (
                            #[trigger] monster.resources@[i]).0 == Resource::Spell(highest);
                        assert(false);
                    }
                }
                if highest >= lowest {
                    proof {
                        assert(spell_buildable_at(t0, 0i32));
                        assert(0 <= t0.level);
                    }
                    let mut u: i32 = 0;
                    while u <= highest - lowest
                        invariant
                            0 <= u <= highest - lowest + 1,
                            spell_template.level == t0.level,
                            spell_template.charges == t0.charges,
                            spell_template.resources@ == t0.resources@,
                            pairs_view_eq(t0.components@, spell_template.components@),
                            spell_template.upcast_components@.len()
                                == t0.upcast_components@.len(),
                            forall|m: int| 0 <= m < t0.upcast_components@.len()
                                ==> (#[trigger] t0.upcast_components@[m])@
                                == spell_template.upcast_components@[m]@,
                            ret@.len() == u,
                            forall|w: int| 0 <= w < u ==> ((#[trigger] ret@[w]).0@ == name@
                                + seq![' '] + spec_dec_digits(t0.level + w) && ret@[w].1@
                                == (SpellTemplate {
                                spell_attack: *spell_attack,
                                spell_dc: *spell_dc,
                                upcast_level: w as i32,
                                ..t0
                            }).spec_build()),
                        decreases highest - lowest - u + 1,
                    {
                        spell_template.spell_attack(*spell_attack);
                        spell_template.spell_dc(*spell_dc);
                        spell_template.upcast(u);
                        proof {
                            let bt = SpellTemplate {
                                spell_attack: *spell_attack,
                                spell_dc: *spell_dc,
                                upcast_level: u as i32,
                                ..t0
                            };
                            assert(spell_view_eq(&bt, &spell_template));
                            lemma_build_congruent(&bt, &spell_template);
                            assert(t0.level + u <= SPELL_LEVEL_LIMIT);
                            assert(spell_buildable_at(t0, u));
                            let zt = SpellTemplate {
                                upcast_level: u,
                                spell_dc: 0,
                                spell_attack: 0,
                                ..t0
                            };
                            assert(zt.buildable());
                            assert(bt.components@ == t0.components@);
                            assert forall|i: int| 0 <= i < bt.components@.len() implies
                                pair_buildable(
                                (#[trigger] bt.components@[i]).0@,
                                bt.components@[i].1,
                                bt.upcast_level as int,
                            ) by {
                                assert(pair_buildable(
                                    zt.components@[i].0@,
                                    zt.components@[i].1,
                                    zt.upcast_level as int,
                                ));
                                assert(zt.components@[i] == bt.components@[i]);
                            }
                            assert(bt.buildable());
                            assert(spell_template.buildable());
                        }
                        let action = spell_template.build();
                        let mut entry_name = name.clone();
                        entry_name.append(" ");
                        let lvl = lowest + u;
                        push_dec_digits(&mut entry_name, lvl as i64);
                        ret.push((entry_name, action));
                        u = u + 1;
                    }
                }
                proof {
                    assert(is_highest_slot(monster.resources@, highest as int));
                    assert(is_first_spell_match(builder.spell_database@, name@, si as int));
                    assert forall|si2: int, h2: int|
                        #[trigger] is_first_spell_match(builder.spell_database@, name@, si2)
                            && #[trigger] is_highest_slot(monster.resources@, h2) implies si2
                        == si as int && h2 == highest as int by {
                        if si2 != si as int {
                            if si2 < si as int {
                                assert(builder.spell_database@[si2].0@ != name@);
                            } else {
                                assert(builder.spell_database@[si as int].0@ != name@);
                            }
                            assert(false);
                        }
                        crate::monster::lemma_highest_slot_unique(
                            monster.resources@,
                            h2,
                            highest as int,
                        );
                    }
                }
            },
        }
        ret
    }
}

} // verus!

// -- a built spell action is well formed ----------------------------------

verus! {

use crate::action::{
    abs_average_x4_sum, lemma_abs_sum_concat, lemma_set_hit_roll_wf, lemma_set_save_dc_wf,
    AVERAGE_X4_LIMIT,
};

/// Each upcast base component is well formed for bounded bindings, and
/// its average bound does not depend on the bindings.
pub proof fn lemma_base_components_wf(
    pairs: Seq<(ActionComponent, ActionComponentModifier)>,
    lvl: int,
    dc: int,
    atk: int,
)
    requires
        forall|i: int| 0 <= i < pairs.len() ==> pair_buildable(
            (#[trigger] pairs[i]).0@,
            pairs[i].1,
            lvl,
        ),
        -STAT_LIMIT <= dc <= STAT_LIMIT,
        -STAT_LIMIT <= atk <= STAT_LIMIT,
    ensures
        spec_spell_components(pairs, lvl, dc, atk).len() == pairs.len(),
        forall|i: int| 0 <= i < pairs.len() ==> (#[trigger] spec_spell_components(
            pairs,
            lvl,
            dc,
            atk,
        )[i]).wf(),
        abs_average_x4_sum(spec_spell_components(pairs, lvl, dc, atk)) == abs_average_x4_sum(
            spec_spell_components(pairs, lvl, 0, 0),
        ),
    decreases pairs,
{
    if pairs.len() > 0 {
        assert(pairs.last() == pairs[pairs.len() - 1]);
        assert(forall|i: int| 0 <= i < pairs.drop_last().len() ==> pair_buildable(
            (#[trigger] pairs.drop_last()[i]).0@,
            pairs.drop_last()[i].1,
            lvl,
        ));
        lemma_base_components_wf(pairs.drop_last(), lvl, dc, atk);
        let c = pairs.last().0@;
        let m = pairs.last().1;
        let raised = spec_increase_target_count(
            spec_increase_damage(c, spec_formula_times(m.damage, lvl)),
            m.target_count * lvl,
        );
        lemma_set_save_dc_wf(raised, dc);
        lemma_set_hit_roll_wf(spec_set_save_dc(raised, dc), atk);
        lemma_set_save_dc_wf(raised, 0);
        lemma_set_hit_roll_wf(spec_set_save_dc(raised, 0), 0);
        let full = spec_spell_components(pairs, lvl, dc, atk);
        let zero = spec_spell_components(pairs, lvl, 0, 0);
        assert(full.drop_last() =~= spec_spell_components(pairs.drop_last(), lvl, dc, atk));
        assert(zero.drop_last() =~= spec_spell_components(pairs.drop_last(), lvl, 0, 0));
        assert forall|i: int| 0 <= i < pairs.len() implies (#[trigger] full[i]).wf() by {
            if i < pairs.len() - 1 {
                assert(full[i] == spec_spell_components(pairs.drop_last(), lvl, dc, atk)[i]);
            }
        }
    }
}

/// Each bound extra component is well formed for bounded bindings, and
/// its average bound does not depend on the bindings.
pub proof fn lemma_bind_list_wf(comps: Seq<ActionComponent>, dc: int, atk: int)
    requires
        forall|i: int| 0 <= i < comps.len() ==> (#[trigger] comps[i])@.wf(),
        -STAT_LIMIT <= dc <= STAT_LIMIT,
        -STAT_LIMIT <= atk <= STAT_LIMIT,
    ensures
        spec_bind_list(comps, dc, atk).len() == comps.len(),
        forall|i: int| 0 <= i < comps.len() ==> (#[trigger] spec_bind_list(comps, dc, atk)[i])
            .wf(),
        abs_average_x4_sum(spec_bind_list(comps, dc, atk)) == abs_average_x4_sum(
            spec_bind_list(comps, 0, 0),
        ),
    decreases comps,
{
    if comps.len() > 0 {
        assert(comps.last() == comps[comps.len() - 1]);
        assert(forall|i: int| 0 <= i < comps.drop_last().len()
            ==> (#[trigger] comps.drop_last()[i])@.wf());
        lemma_bind_list_wf(comps.drop_last(), dc, atk);
        let c = comps.last()@;
        lemma_set_save_dc_wf(c, dc);
        lemma_set_hit_roll_wf(spec_set_save_dc(c, dc), atk);
        lemma_set_save_dc_wf(c, 0);
        lemma_set_hit_roll_wf(spec_set_save_dc(c, 0), 0);
        let full = spec_bind_list(comps, dc, atk);
        assert(full.drop_last() =~= spec_bind_list(comps.drop_last(), dc, atk));
        assert(spec_bind_list(comps, 0, 0).drop_last() =~= spec_bind_list(
            comps.drop_last(),
            0,
            0,
        ));
        assert forall|i: int| 0 <= i < comps.len() implies (#[trigger] full[i]).wf() by {
            if i < comps.len() - 1 {
                assert(full[i] == spec_bind_list(comps.drop_last(), dc, atk)[i]);
            }
        }
    }
}

/// Each repeated extra component is well formed for bounded bindings, and
/// the repeated batch's average bound does not depend on the bindings.
pub proof fn lemma_repeat_wf(comps: Seq<ActionComponent>, times: int, dc: int, atk: int)
    requires
        forall|i: int| 0 <= i < comps.len() ==> (#[trigger] comps[i])@.wf(),
        -STAT_LIMIT <= dc <= STAT_LIMIT,
        -STAT_LIMIT <= atk <= STAT_LIMIT,
    ensures
        forall|i: int| 0 <= i < spec_repeat_components(comps, times, dc, atk).len() ==> (
        #[trigger] spec_repeat_components(comps, times, dc, atk)[i]).wf(),
        abs_average_x4_sum(spec_repeat_components(comps, times, dc, atk))
            == abs_average_x4_sum(spec_repeat_components(comps, times, 0, 0)),
    decreases times,
{
    if times > 0 {
        lemma_repeat_wf(comps, times - 1, dc, atk);
        lemma_bind_list_wf(comps, dc, atk);
        lemma_abs_sum_concat(
            spec_repeat_components(comps, times - 1, dc, atk),
            spec_bind_list(comps, dc, atk),
        );
        lemma_abs_sum_concat(
            spec_repeat_components(comps, times - 1, 0, 0),
            spec_bind_list(comps, 0, 0),
        );
        let full = spec_repeat_components(comps, times, dc, atk);
        let head = spec_repeat_components(comps, times - 1, dc, atk);
        let tail = spec_bind_list(comps, dc, atk);
        assert forall|i: int| 0 <= i < full.len() implies (#[trigger] full[i]).wf() by {
            if i < head.len() {
                assert(full[i] == head[i]);
            } else {
                assert(full[i] == tail[i - head.len()]);
            }
        }
    }
}

/// A spell built with bounded bindings at a buildable level yields a
/// well-formed action.
pub proof fn lemma_spell_action_wf(t0: SpellTemplate, off: i32, dc: i32, atk: i32)
    requires
        spell_buildable_at(t0, off),
        -STAT_LIMIT <= dc <= STAT_LIMIT,
        -STAT_LIMIT <= atk <= STAT_LIMIT,
    ensures
        (SpellTemplate {
            spell_attack: atk,
            spell_dc: dc,
            upcast_level: off,
            ..t0
        }).spec_build().wf(),
{
    let bt = SpellTemplate { spell_attack: atk, spell_dc: dc, upcast_level: off, ..t0 };
    let built = bt.spec_build();
    lemma_base_components_wf(t0.components@, off as int, dc as int, atk as int);
    lemma_repeat_wf(t0.upcast_components@, off as int, dc as int, atk as int);
    lemma_abs_sum_concat(
        spec_spell_components(t0.components@, off as int, dc as int, atk as int),
        spec_repeat_components(t0.upcast_components@, off as int, dc as int, atk as int),
    );
    lemma_abs_sum_concat(
        spec_spell_components(t0.components@, off as int, 0, 0),
        spec_repeat_components(t0.upcast_components@, off as int, 0, 0),
    );
    let base = spec_spell_components(t0.components@, off as int, dc as int, atk as int);
    let rep = spec_repeat_components(t0.upcast_components@, off as int, dc as int, atk as int);
    assert(built.components == base + rep);
    assert forall|i: int| 0 <= i < built.components.len() implies (
    #[trigger] built.components[i]).wf() by {
        if i < base.len() {
            assert(built.components[i] == base[i]);
        } else {
            assert(built.components[i] == rep[i - base.len()]);
        }
    }
}

} // verus!

// -- instantiating creatures from templates -------------------------------

verus! {

use crate::resource::{
    Ledger, count_of, ledger_wf, ledger_keys_distinct, lemma_count_of_bounds,
    lemma_count_of_member, lemma_count_of_push,
};
use crate::roll::spec_clamp as roll_clamp;

/// A plain attack's component is well formed and its average bound small.
pub proof fn lemma_attack_component_wf(am: int, dmg: Formula, tc: int)
    requires
        -STAT_LIMIT <= am <= STAT_LIMIT,
        dmg.wf(),
        0 <= tc <= TARGET_COUNT_LIMIT,
    ensures
        spec_attack_component(am, dmg, tc).wf(),
        0 <= spec_attack_component(am, dmg, tc).abs_average_x4() <= 6_000_000_000,
{
    assert(0 <= dmg.dice.spec_average_x2() <= 900_000_000) by (nonlinear_arith)
        requires
            0 <= dmg.dice.dice_count <= DICE_COUNT_LIMIT,
            1 <= dmg.dice.face_count <= crate::dice::FACE_COUNT_LIMIT,
    ;
    let c = spec_attack_component(am, dmg, tc);
    let leaf = CompModel::Damage { damage: dmg, rolled: 0 };
    let miss = CompModel::Nothing;
    assert(leaf.abs_average_x4() == 2 * dmg.dice.spec_average_x2() + 4 * crate::action::abs(
        dmg.fixed as int,
    ));
    assert(miss.abs_average_x4() == 0);
    assert(leaf.wf());
    assert(miss.wf());
    assert(c.abs_average_x4() == leaf.abs_average_x4() + miss.abs_average_x4());
}

/// Every component of a multi-attack is well formed, and the whole
/// component list's average bound is small.
pub proof fn lemma_multi_components_wf(attacks: Seq<ActionTemplate>)
    requires
        forall|i: int| 0 <= i < attacks.len() ==> (#[trigger] attacks[i]).wf() && attacks[i]
            is Attack,
    ensures
        spec_multi_components(attacks).len() == attacks.len(),
        forall|i: int| 0 <= i < attacks.len() ==> (#[trigger] spec_multi_components(attacks)[i])
            .wf(),
        0 <= abs_average_x4_sum(spec_multi_components(attacks)) <= attacks.len()
            * 6_000_000_000,
    decreases attacks,
{
    if attacks.len() > 0 {
        assert(attacks.last() == attacks[attacks.len() - 1]);
        assert(forall|i: int| 0 <= i < attacks.drop_last().len()
            ==> (#[trigger] attacks.drop_last()[i]).wf() && attacks.drop_last()[i] is Attack);
        lemma_multi_components_wf(attacks.drop_last());
        match attacks.last() {
            ActionTemplate::Attack { attack_modifier, dammage, target_count, .. } => {
                lemma_attack_component_wf(
                    attack_modifier as int,
                    dammage,
                    target_count as int,
                );
            },
            _ => {},
        }
        let full = spec_multi_components(attacks);
        assert(full.drop_last() =~= spec_multi_components(attacks.drop_last()));
        assert forall|i: int| 0 <= i < attacks.len() implies (#[trigger] full[i]).wf() by {
            if i < attacks.len() - 1 {
                assert(full[i] == spec_multi_components(attacks.drop_last())[i]);
            }
        }
        assert((attacks.len() - 1) * 6_000_000_000 + 6_000_000_000 == attacks.len()
            * 6_000_000_000) by (nonlinear_arith);
    }
}

impl MonsterStats {
    /// A concrete stat block from a template: the six scores and six save
    /// modifiers are copied, and the hit points are rolled once from the
    /// template's formula and frozen as the maximum.
    pub fn from_template(template: &MonsterStatsTemplate, roller: &Roller) -> (r: MonsterStats)
        requires
            template.wf(),
        ensures
            r.wf(),
            r.ability == template.abilities.spec_as_block(),
            r.saving_throws == template.saving_throws.spec_as_block(),
            r.initiative == template.initiative,
            r.armor_class == template.armor_class,
            r.max_hp == r.hp,
            template.hp.dice.dice_count + template.hp.fixed <= r.hp <= template.hp.dice.dice_count
                * template.hp.dice.face_count + template.hp.fixed,
            roller.is_fixed() ==> r.hp == template.hp.dice.dice_count * roll_clamp(
                roller.fixed_value() as int,
                1,
                template.hp.dice.face_count as int,
            ) + template.hp.fixed,
    {
        let hp = template.hp.roll(roller);
        MonsterStats {
            ability: template.abilities.as_block(),
            saving_throws: template.saving_throws.as_block(),
            initiative: template.initiative,
            armor_class: template.armor_class,
            hp,
            max_hp: hp,
        }
    }
}

/// Add one unit of `r` to the ledger: an existing entry is incremented, a
/// missing one is created with quantity one.
#[verifier::loop_isolation(false)]
pub fn ledger_add(led: &mut Ledger, r: Resource)
    requires
        ledger_wf(old(led)@),
        forall|i: int| 0 <= i < old(led)@.len() ==> (#[trigger] old(led)@[i]).1 < i32::MAX,
    ensures
        ledger_wf(final(led)@),
        ({
            let before = old(led)@;
            let after = final(led)@;
            if exists|i: int| 0 <= i < before.len() && (#[trigger] before[i]).0 == r {
                &&& after.len() == before.len()
                &&& forall|i: int| 0 <= i < before.len() ==> (#[trigger] after[i]).0
                    == before[i].0
                &&& forall|i: int| 0 <= i < before.len() ==> (#[trigger] after[i]).1
                    == before[i].1 + if before[i].0 == r {
                    1int
                } else {
                    0int
                }
            } else {
                after == before.push((r, 1i32))
            }
        }),
{
    let found = crate::resource::ledger_find(led, r);
    match found {
        Some(idx) => {
            let ghost before = led@;
            let e = &mut led[idx];
            let ghost v_old = e.1;
            e.1 = e.1 + 1;
            proof {
                assert(led@ =~= before.update(idx as int, (r, (v_old + 1) as i32)));
                assert forall|i: int, j: int| 0 <= i < j < led@.len() implies (
                #[trigger] led@[i]).0 != (#[trigger] led@[j]).0 by {
                    assert(before[i].0 != before[j].0);
                }
                assert(before[idx as int].0 == r);
                assert(exists|i: int| 0 <= i < before.len() && (#[trigger] before[i]).0 == r);
                assert forall|i: int| 0 <= i < before.len() implies (#[trigger] led@[i]).1
                    == before[i].1 + if before[i].0 == r {
                    1int
                } else {
                    0int
                } by {
                    if i != idx {
                        if i < idx {
                            assert(before[i].0 != before[idx as int].0);
                        } else {
                            assert(before[idx as int].0 != before[i].0);
                        }
                    }
                }
            }
        },
        None => {
            led.push((r, 1));
            proof {
                let after = led@;
                if exists|i: int| 0 <= i < old(led)@.len() && (#[trigger] old(led)@[i]).0 == r {
                    let w = choose|i: int|
                        0 <= i < old(led)@.len() && (#[trigger] old(led)@[i]).0 == r;
                    assert(false);
                }
                assert forall|i: int, j: int| 0 <= i < j < after.len() implies (
                #[trigger] after[i]).0 != (#[trigger] after[j]).0 by {
                    if j == after.len() - 1 {
                        assert(after[i].0 == old(led)@[i].0);
                        assert(after[j].0 == r);
                        if after[i].0 == r {
                            assert((#[trigger] old(led)@[i]).0 == r);
                            assert(false);
                        }
                    } else {
                        assert(old(led)@[i].0 != old(led)@[j].0);
                    }
                }
            }
        },
    }
}

} // verus!

verus! {

impl MonsterTemplate {
    /// Sound authoring data: a sound stat block, a bounded resource list
    /// with bounded slot levels, and well-formed action templates.
    pub open spec fn wf(&self) -> bool {
        &&& self.entity_stats.wf()
        &&& self.resources@.len() <= 1_000_000
        &&& forall|i: int| 0 <= i < self.resources@.len() ==> ((#[trigger] self.resources@[i])
            matches Resource::Spell(l) ==> l <= SPELL_LEVEL_LIMIT)
        &&& forall|i: int| 0 <= i < self.actions@.len() ==> (#[trigger] self.actions@[i]).wf()
    }

    /// Every spell reference among the actions names a spell the builder
    /// knows.
    pub open spec fn spells_known(&self, builder: &TemplateBuilder) -> bool {
        forall|i: int| 0 <= i < self.actions@.len() ==> ((#[trigger] self.actions@[i]) matches
            ActionTemplate::Spell { name, .. } ==> builder.spec_has_spell(name@))
    }

    /// The resources every creature ends up with: the template's list plus
    /// one action, one bonus action and one spell action.
    pub open spec fn spec_chain(&self) -> Seq<Resource> {
        self.resources@ + seq![Resource::Action, Resource::BonusAction, Resource::SpellAction]
    }
}

/// Everything instantiation pins about a creature built from a template:
/// a well-formed creature at id 0 on team 0 carrying the template's name
/// and stats, hit points rolled once from the template's formula and
/// frozen as the maximum (exactly computable under a fixed roller), a
/// ledger counting each declared resource plus the implicit per-turn
/// ones, and exactly the actions the template's entries yield, in order.
pub open spec fn monster_built_from(
    m: Monster,
    spell_db: Seq<(String, SpellTemplate)>,
    t: MonsterTemplate,
    roller: Roller,
) -> bool {
    &&& m.wf()
    &&& m.id == 0
    &&& m.team_id == 0
    &&& m.name@ == t.name@
    &&& m.entity_stats.ability == t.entity_stats.abilities.spec_as_block()
    &&& m.entity_stats.saving_throws == t.entity_stats.saving_throws.spec_as_block()
    &&& m.entity_stats.initiative == t.entity_stats.initiative
    &&& m.entity_stats.armor_class == t.entity_stats.armor_class
    &&& m.entity_stats.max_hp == m.entity_stats.hp
    &&& t.entity_stats.hp.dice.dice_count + t.entity_stats.hp.fixed <= m.entity_stats.hp
        <= t.entity_stats.hp.dice.dice_count * t.entity_stats.hp.dice.face_count
        + t.entity_stats.hp.fixed
    &&& (roller.is_fixed() ==> m.entity_stats.hp == t.entity_stats.hp.dice.dice_count
        * roll_clamp(roller.fixed_value() as int, 1, t.entity_stats.hp.dice.face_count as int)
        + t.entity_stats.hp.fixed)
    &&& forall|i: int| 0 <= i < m.resources@.len() ==> (#[trigger] m.resources@[i]).1 == count_of(
        t.spec_chain(),
        m.resources@[i].0,
    )
    &&& forall|k: int| 0 <= k < t.spec_chain().len()
        ==> #[trigger] crate::resource::ledger_has_positive(m.resources@, t.spec_chain()[k])
    &&& forall|i: int| 0 <= i < m.actions@.len() ==> (#[trigger] m.actions@[i]).1@.wf()
    &&& templates_yield_all(spell_db, m.resources@, t.actions@, m.actions@)
}

impl Monster {
    /// A concrete creature from a template: rolled hit points, a ledger
    /// that counts each declared resource (plus the implicit per-turn
    /// ones), and one stored action per template entry — several for a
    /// spell, one per castable upcast level.
    #[verifier::loop_isolation(false)]
    pub fn from_template(
        builder: &TemplateBuilder,
        template: &MonsterTemplate,
        roller: &Roller,
    ) -> (r: Monster)
        requires
            template.wf(),
            builder.spells_wf(),
            template.spells_known(builder),
        ensures
            monster_built_from(r, builder.spell_database@, *template, *roller),
    {
        let ghost chain = template.spec_chain();
        // materialize the full resource chain, implicit entries included
        let mut chain_vec: Vec<Resource> = Vec::new();
        let n = template.resources.len();
        let mut j: usize = 0;
        while j < n
            invariant
                0 <= j <= n,
                chain_vec@ == template.resources@.take(j as int),
            decreases n - j,
        {
            chain_vec.push(template.resources[j]);
            proof {
                assert(chain_vec@ =~= template.resources@.take(j as int + 1));
            }
            j = j + 1;
        }
        proof {
            assert(template.resources@.take(n as int) =~= template.resources@);
        }
        chain_vec.push(Resource::Action);
        chain_vec.push(Resource::BonusAction);
        chain_vec.push(Resource::SpellAction);
        proof {
            assert(chain_vec@ =~= chain);
        }
        // fold the chain into a ledger of per-resource counts
        let mut led: Ledger = Vec::new();
        let cn = chain_vec.len();
        let mut k: usize = 0;
        while k < cn
            invariant
                0 <= k <= cn,
                cn == chain.len(),
                ledger_wf(led@),
                forall|i: int| 0 <= i < led@.len() ==> (#[trigger] led@[i]).1 == count_of(
                    chain.take(k as int),
                    led@[i].0,
                ),
                forall|i: int| 0 <= i < led@.len() ==> (#[trigger] led@[i]).1 >= 1,
                forall|w: int| 0 <= w < k ==> #[trigger] crate::resource::ledger_has_positive(
                    led@,
                    chain[w],
                ),
            decreases cn - k,
        {
            let rsc = chain_vec[k];
            proof {
                assert(chain[k as int] == rsc);
                assert forall|i: int| 0 <= i < led@.len() implies (#[trigger] led@[i]).1
                    < i32::MAX by {
                    crate::resource::lemma_count_of_bounds(chain.take(k as int), led@[i].0);
                }
            }
            let ghost led_old = led@;
            ledger_add(&mut led, rsc);
            proof {
                let kk = k as int;
                assert(chain.take(kk + 1) =~= chain.take(kk).push(rsc));
                if exists|i: int| 0 <= i < led_old.len() && (#[trigger] led_old[i]).0 == rsc {
                    assert forall|i: int| 0 <= i < led@.len() implies (#[trigger] led@[i]).1
                        == count_of(chain.take(kk + 1), led@[i].0) by {
                        lemma_count_of_push(chain.take(kk), rsc, led@[i].0);
                    }
                    assert forall|w: int| 0 <= w < k + 1 implies
                        #[trigger] crate::resource::ledger_has_positive(led@, chain[w]) by {
                        if w == kk {
                            let x = choose|i: int|
                                0 <= i < led_old.len() && (#[trigger] led_old[i]).0 == rsc;
                            assert(led@[x].0 == rsc && led@[x].1 > 0);
                        } else {
                            assert(crate::resource::ledger_has_positive(led_old, chain[w]));
                            let x = choose|i: int|
                                0 <= i < led_old.len() && (#[trigger] led_old[i]).0 == chain[w]
                                    && led_old[i].1 > 0;
                            assert(led@[x].0 == chain[w] && led@[x].1 > 0);
                        }
                    }
                } else {
                    assert(led@ == led_old.push((rsc, 1i32)));
                    assert forall|i: int| 0 <= i < led@.len() implies (#[trigger] led@[i]).1
                        == count_of(chain.take(kk + 1), led@[i].0) by {
                        lemma_count_of_push(chain.take(kk), rsc, led@[i].0);
                        lemma_count_of_bounds(chain.take(kk), rsc);
                        if i == led@.len() - 1 {
                            assert(led@[i] == (rsc, 1i32));
                            if count_of(chain.take(kk), rsc) > 0 {
                                lemma_count_of_member(chain.take(kk), rsc);
                                let w0 = choose|w0: int|
                                    0 <= w0 < chain.take(kk).len() && chain.take(kk)[w0] == rsc;
                                assert(chain[w0] == rsc);
                                assert(crate::resource::ledger_has_positive(led_old, chain[w0]));
                                let x = choose|i2: int|
                                    0 <= i2 < led_old.len() && (#[trigger] led_old[i2]).0
                                        == chain[w0] && led_old[i2].1 > 0;
                                assert(false);
                            }
                        } else {
                            assert(led@[i] == led_old[i]);
                            assert(led_old[i].1 == count_of(chain.take(kk), led_old[i].0));
                            if led_old[i].0 == rsc {
                                assert(exists|j: int|
                                    0 <= j < led_old.len() && (#[trigger] led_old[j]).0 == rsc);
                                assert(false);
                            }
                        }
                    }
                    assert forall|w: int| 0 <= w < k + 1 implies
                        #[trigger] crate::resource::ledger_has_positive(led@, chain[w]) by {
                        if w == kk {
                            assert(led@[led@.len() - 1].0 == rsc && led@[led@.len() - 1].1 > 0);
                        } else {
                            assert(crate::resource::ledger_has_positive(led_old, chain[w]));
                            let x = choose|i: int|
                                0 <= i < led_old.len() && (#[trigger] led_old[i]).0 == chain[w]
                                    && led_old[i].1 > 0;
                            assert(led@[x].0 == chain[w] && led@[x].1 > 0);
                        }
                    }
                }
            }
            k = k + 1;
        }
        proof {
            assert(chain.take(cn as int) =~= chain);
        }
        // the creature itself, actions filled in below
        let stats = MonsterStats::from_template(&template.entity_stats, roller);
        let mut monster = Monster {
            id: 0,
            name: template.name.clone(),
            entity_stats: stats,
            team_id: 0,
            actions: Vec::new(),
            resources: led,
        };
        proof {
            assert forall|i: int| 0 <= i < monster.resources@.len() implies ((
            #[trigger] monster.resources@[i]).0 matches Resource::Spell(l) ==> l
                <= SPELL_LEVEL_LIMIT) by {
                if monster.resources@[i].1 >= 1 {
                    lemma_count_of_member(chain, monster.resources@[i].0);
                    let w = choose|w: int|
                        0 <= w < chain.len() && chain[w] == monster.resources@[i].0;
                    if w < template.resources@.len() {
                        assert(chain[w] == template.resources@[w]);
                    } else {
                        assert(!(chain[w] is Spell));
                    }
                }
            }
            assert(slots_bounded(monster.resources@));
        }
        // one template entry at a time, collecting the named actions
        let hs = monster.highest_spell_slot();
        let an = template.actions.len();
        let mut acts: Vec<(String, ActionStruct)> = Vec::new();
        let mut ai: usize = 0;
        while ai < an
            invariant
                0 <= ai <= an,
                monster.wf(),
                slots_bounded(monster.resources@),
                monster.actions@.len() == 0,
                forall|w: int| 0 <= w < acts@.len() ==> (#[trigger] acts@[w]).1@.wf(),
                templates_yield_all(
                    builder.spell_database@,
                    monster.resources@,
                    template.actions@.take(ai as int),
                    acts@,
                ),
            decreases an - ai,
        {
            let at = &template.actions[ai];
            let mut entries = ActionStruct::from_template(builder, &monster, at);
            proof {
                assert(template.actions@[ai as int].wf());
            }
            match at {
                ActionTemplate::Attack { attack_modifier, dammage, target_count, .. } => {
                    proof {
                        lemma_attack_component_wf(
                            *attack_modifier as int,
                            *dammage,
                            *target_count as int,
                        );
                        let c = spec_attack_component(
                            *attack_modifier as int,
                            *dammage,
                            *target_count as int,
                        );
                        let a = entries@[0].1@;
                        assert(a.components =~= seq![c]);
                        assert(seq![c].drop_last() =~= Seq::<CompModel>::empty());
                        assert(abs_average_x4_sum(Seq::<CompModel>::empty()) == 0);
                        assert(abs_average_x4_sum(a.components) == c.abs_average_x4());
                        assert forall|w: int| 0 <= w < a.components.len() implies (
                        #[trigger] a.components[w]).wf() by {
                            assert(a.components[w] == c);
                        }
                        assert(entries@[0].1@.wf());
                    }
                },
                ActionTemplate::MultiAttack { attacks, .. } => {
                    proof {
                        lemma_multi_components_wf(attacks@);
                        assert(attacks@.len() * 6_000_000_000 <= 100 * 6_000_000_000int) by (
                        nonlinear_arith)
                            requires
                                attacks@.len() <= 100,
                        ;
                        let a = entries@[0].1@;
                        assert(a.components == spec_multi_components(attacks@));
                        assert forall|w: int| 0 <= w < a.components.len() implies (
                        #[trigger] a.components[w]).wf() by {
                            assert(spec_multi_components(attacks@)[w].wf());
                        }
                        assert(entries@[0].1@.wf());
                    }
                },
                ActionTemplate::Spell { name, spell_attack, spell_dc } => {
                    let si = builder.spell_index(name.as_str());
                    proof {
                        assert(is_first_spell_match(
                            builder.spell_database@,
                            name@,
                            si as int,
                        ));
                        assert(is_highest_slot(monster.resources@, hs as int));
                        let t = builder.spell_database@[si as int].1;
                        let lowest = t.level as int;
                        let h = hs as int;
                        if h > SPELL_LEVEL_LIMIT {
                            let w = choose|i: int|
                                0 <= i < monster.resources@.len() && (
                                #[trigger] monster.resources@[i]).0 == Resource::Spell(hs);
                            assert(false);
                        }
                        assert(0 <= t.level <= SPELL_LEVEL_LIMIT);
                        assert forall|u: int| 0 <= u < entries@.len() implies (
                        #[trigger] entries@[u]).1@.wf() by {
                            assert(lowest <= h);
                            assert(h <= SPELL_LEVEL_LIMIT);
                            assert(0 <= u && u <= h - lowest);
                            assert(0 <= u as i32);
                            assert(t.level + (u as i32) <= SPELL_LEVEL_LIMIT);
                            assert(spell_buildable_at(
                                builder.spell_database@[si as int].1,
                                u as i32,
                            ));
                            lemma_spell_action_wf(t, u as i32, *spell_dc, *spell_attack);
                        }
                    }
                },
            }
            let ghost k0 = acts@.len() as int;
            let ghost acts0 = acts@;
            let ghost ent0 = entries@;
            acts.append(&mut entries);
            proof {
                let ts1 = template.actions@.take(ai as int + 1);
                assert(ts1.drop_last() =~= template.actions@.take(ai as int));
                assert(ts1.last() == template.actions@[ai as int]);
                assert(acts@.take(k0) =~= acts0);
                assert(acts@.skip(k0) =~= ent0);
                assert(templates_yield_all(
                    builder.spell_database@,
                    monster.resources@,
                    ts1.drop_last(),
                    acts@.take(k0),
                ));
                assert(template_yields(
                    builder.spell_database@,
                    monster.resources@,
                    template.actions@[ai as int],
                    ent0,
                ));
                assert(acts@.skip(k0) == ent0);
                assert(template_yields(
                    builder.spell_database@,
                    monster.resources@,
                    ts1.last(),
                    acts@.skip(k0),
                ));
                assert(ts1.len() == ai + 1);
                assert(0 <= k0 <= acts@.len());
                assert(templates_yield_all(
                    builder.spell_database@,
                    monster.resources@,
                    ts1,
                    acts@,
                )) by {
                    reveal_with_fuel(templates_yield_all, 2);
                    assert(templates_yield_all(
                        builder.spell_database@,
                        monster.resources@,
                        ts1.drop_last(),
                        acts@.take(k0),
                    ) && template_yields(
                        builder.spell_database@,
                        monster.resources@,
                        ts1.last(),
                        acts@.skip(k0),
                    ));
                }
            }
            ai = ai + 1;
        }
        proof {
            assert(template.actions@.take(an as int) =~= template.actions@);
        }
        monster.actions = acts;
        monster
    }
}

} // verus!

// -- the builder facade ---------------------------------------------------

verus! {

/// `mi` is the first entry of the monster database that carries `name`.
pub open spec fn is_first_monster_match(
    db: Seq<(String, MonsterTemplate)>,
    name: Seq<char>,
    mi: int,
) -> bool {
    &&& 0 <= mi < db.len()
    &&& db[mi].0@ == name
    &&& forall|j: int| 0 <= j < mi ==> (#[trigger] db[j]).0@ != name
}

/// Conversion from authoring templates, parametrized by the builder that
/// resolves named references.
pub trait FromTemplate<T>: Sized {
    fn from_template(builder: &TemplateBuilder, value: T) -> Self;
}

impl TemplateBuilder {
    /// Whether the monster database holds an entry named `name`.
    pub open spec fn spec_has_monster(&self, name: Seq<char>) -> bool {
        exists|i: int| 0 <= i < self.monster_database@.len() && (
        #[trigger] self.monster_database@[i]).0@ == name
    }

    /// Sound databases: every creature template is well formed and refers
    /// only to spells the spell database can build at every level.
    pub open spec fn wf(&self) -> bool {
        &&& self.spells_wf()
        &&& forall|i: int| 0 <= i < self.monster_database@.len() ==> (
        #[trigger] self.monster_database@[i]).1.wf()
        &&& forall|i: int| 0 <= i < self.monster_database@.len() ==> (
        #[trigger] self.monster_database@[i]).1.spells_known(self)
    }

    /// A builder over the given databases; creatures are keyed by their
    /// template's name, and the roller drives all hit-point rolls.
    #[verifier::loop_isolation(false)]
    pub fn new(monsters: Vec<MonsterTemplate>, spells: Vec<(String, SpellTemplate)>, roller: Roller) -> (r: Self)
        ensures
            r.monster_database@.len() == monsters@.len(),
            forall|i: int| 0 <= i < monsters@.len() ==> (#[trigger] r.monster_database@[i]).0@
                == monsters@[i].name@ && r.monster_database@[i].1 == monsters@[i],
            r.spell_database == spells,
            r.current_monster is None,
            r.roller == roller,
    {
        let mut db: Vec<(String, MonsterTemplate)> = Vec::new();
        let mut monsters = monsters;
        let ghost ms = monsters@;
        let mut i: usize = 0;
        let n = monsters.len();
        while i < n
            invariant
                0 <= i <= n,
                monsters@ == ms.skip(i as int),
                n - i == monsters@.len(),
                db@.len() == i,
                forall|j: int| 0 <= j < i ==> (#[trigger] db@[j]).0@ == ms[j].name@ && db@[j].1
                    == ms[j],
            decreases n - i,
        {
            let t = monsters.remove(0);
            proof {
                assert(t == ms[i as int]);
                assert(monsters@ =~= ms.skip(i as int + 1));
            }
            let nm = t.name.clone();
            db.push((nm, t));
            i = i + 1;
        }
        TemplateBuilder { monster_database: db, spell_database: spells, current_monster: None, roller }
    }

    /// The position of the first database entry named `name`.
    #[verifier::loop_isolation(false)]
    pub fn monster_index(&self, name: &str) -> (mi: usize)
        requires
            self.spec_has_monster(name@),
        ensures
            is_first_monster_match(self.monster_database@, name@, mi as int),
    {
        let name_owned = name.to_owned();
        let mut i: usize = 0;
        let n = self.monster_database.len();
        while i < n
            invariant
                0 <= i <= n,
                name_owned@ == name@,
                forall|j: int| 0 <= j < i ==> (#[trigger] self.monster_database@[j]).0@ != name@,
            decreases n - i,
        {
            let entry = &self.monster_database[i];
            if entry.0 == name_owned {
                return i;
            }
            i = i + 1;
        }
        proof {
            let w = choose|w: int|
                0 <= w < self.monster_database@.len() && (#[trigger] self.monster_database@[w]).0@
                    == name@;
            assert(false);
        }
        unreached()
    }

    /// Start building the named creature: it is instantiated from the
    /// first template of that name and held until `build` hands it out.
    /// Naming an unknown creature is a fatal authoring error.
    pub fn create<'a>(&'a mut self, name: &str) -> (ret: &'a mut Self)
        requires
            old(self).wf(),
            old(self).spec_has_monster(name@),
        ensures
            *final(self) == *final(ret),
            ret.monster_database == old(self).monster_database,
            ret.spell_database == old(self).spell_database,
            ret.roller == old(self).roller,
            ret.current_monster matches Some(m) && (forall|mi: int| #[trigger]
                is_first_monster_match(old(self).monster_database@, name@, mi)
                ==> monster_built_from(
                m,
                old(self).spell_database@,
                old(self).monster_database@[mi].1,
                old(self).roller,
            )),
    {
        let mi = self.monster_index(name);
        let roller = self.roller;
        let m = Monster::from_template(self, &self.monster_database[mi].1, &roller);
        proof {
            assert forall|mi2: int| #[trigger] is_first_monster_match(
                self.monster_database@,
                name@,
                mi2,
            ) implies monster_built_from(
                m,
                self.spell_database@,
                self.monster_database@[mi2].1,
                roller,
            ) by {
                if mi2 != mi as int {
                    if mi2 < mi as int {
                        assert(self.monster_database@[mi2].0@ != name@);
                    } else {
                        assert(self.monster_database@[mi as int].0@ != name@);
                    }
                    assert(false);
                }
            }
        }
        self.current_monster = Some(m);
        self
    }

    /// Assign the creature being built to a team. Calling this with no
    /// creature in progress is a fatal logic error.
    pub fn team<'a>(&'a mut self, team: i32) -> (ret: &'a mut Self)
        requires
            old(self).current_monster is Some,
            0 <= team <= 255,
        ensures
            *final(self) == *final(ret),
            ret.monster_database == old(self).monster_database,
            ret.spell_database == old(self).spell_database,
            ret.roller == old(self).roller,
            ret.current_monster matches Some(m) && m == (Monster {
                team_id: team as u8,
                ..old(self).current_monster->Some_0
            }),
    {
        match &mut self.current_monster {
            Some(monster) => {
                monster.set_team(team as u8);
            },
            None => {},
        }
        self
    }

    /// Fix the creature's current and maximum hit points. Calling this
    /// with no creature in progress is a fatal logic error.
    pub fn hp<'a>(&'a mut self, hp: i32) -> (ret: &'a mut Self)
        requires
            old(self).current_monster is Some,
        ensures
            *final(self) == *final(ret),
            ret.monster_database == old(self).monster_database,
            ret.spell_database == old(self).spell_database,
            ret.roller == old(self).roller,
            ret.current_monster matches Some(m) && m == (Monster {
                entity_stats: MonsterStats {
                    hp,
                    max_hp: hp,
                    ..old(self).current_monster->Some_0.entity_stats
                },
                ..old(self).current_monster->Some_0
            }),
    {
        match &mut self.current_monster {
            Some(monster) => {
                monster.set_hp(hp);
            },
            None => {},
        }
        self
    }

    /// Hand the built creature out, leaving the builder empty. Calling
    /// this with no creature in progress is a fatal logic error.
    pub fn build(&mut self) -> (r: Monster)
        requires
            old(self).current_monster is Some,
        ensures
            r == old(self).current_monster->Some_0,
            final(self).monster_database == old(self).monster_database,
            final(self).spell_database == old(self).spell_database,
            final(self).roller == old(self).roller,
            final(self).current_monster is None,
    {
        let m = self.current_monster.take();
        match m {
            Some(monster) => monster,
            None => unreached(),
        }
    }
}

} // verus!
