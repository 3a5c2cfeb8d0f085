//! The six abilities and a block of one value per ability.

use vstd::prelude::*;

verus! {

/// One of the six abilities a save can be rolled against.
#[derive(Clone, Copy, Debug, PartialEq, Eq, Structural, Hash)]
pub enum Ability {
    Strength,
    Dexterity,
    Constitution,
    Intelligence,
    Wisdom,
    Charisma,
}

/// One integer per ability: a set of scores or of save modifiers.
#[derive(Clone, Copy, Debug, PartialEq, Eq, Structural)]
pub struct StatBlock {
    pub strength: i32,
    pub dexterity: i32,
    pub constitution: i32,
    pub intelligence: i32,
    pub wisdom: i32,
    pub charisma: i32,
}

/// A stat block whose every value is small enough for d20 arithmetic.
pub const STAT_LIMIT: i32 = 1_000_000;

impl StatBlock {
    pub open spec fn wf(&self) -> bool {
        &&& -STAT_LIMIT <= self.strength <= STAT_LIMIT
        &&& -STAT_LIMIT <= self.dexterity <= STAT_LIMIT
        &&& -STAT_LIMIT <= self.constitution <= STAT_LIMIT
        &&& -STAT_LIMIT <= self.intelligence <= STAT_LIMIT
        &&& -STAT_LIMIT <= self.wisdom <= STAT_LIMIT
        &&& -STAT_LIMIT <= self.charisma <= STAT_LIMIT
    }

    /// The value this block holds for one ability.
    pub open spec fn spec_get(&self, ability: Ability) -> i32 {
        match ability {
            Ability::Strength => self.strength,
            Ability::Dexterity => self.dexterity,
            Ability::Constitution => self.constitution,
            Ability::Intelligence => self.intelligence,
            Ability::Wisdom => self.wisdom,
            Ability::Charisma => self.charisma,
        }
    }

    pub fn get(&self, ability: Ability) -> (r: i32)
        ensures
            r == self.spec_get(ability),
    {
        match ability {
            Ability::Strength => self.strength,
            Ability::Dexterity => self.dexterity,
            Ability::Constitution => self.constitution,
            Ability::Intelligence => self.intelligence,
            Ability::Wisdom => self.wisdom,
            Ability::Charisma => self.charisma,
        }
    }

    /// A block with the same value everywhere.
    pub fn uniform(v: i32) -> (r: StatBlock)
        ensures
            forall|a: Ability| r.spec_get(a) == v,
            -STAT_LIMIT <= v <= STAT_LIMIT ==> r.wf(),
    {
        StatBlock {
            strength: v,
            dexterity: v,
            constitution: v,
            intelligence: v,
            wisdom: v,
            charisma: v,
        }
    }
}

} // verus!
