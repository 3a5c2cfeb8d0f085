//! A small engine that resolves automated tabletop-style combat encounters:
//! dice formulas, resource-gated actions, a recursive action-component tree,
//! and a round/turn scheduler that drives creatures to a win condition.

pub mod roll;
pub mod dice;
pub mod formula;
pub mod formula_text;
pub mod resource;
pub mod ability;
pub mod action;
pub mod monster;
pub mod fight;
pub mod template;

pub use ability::{Ability, StatBlock};
pub use action::{ActionComponent, ActionCondition, ActionStruct};
pub use dice::Dice;
pub use fight::Fight;
pub use formula::Formula;
pub use monster::{Monster, MonsterStats};
pub use resource::{Charge, Resource};
pub use roll::Roller;
pub use template::{
    ActionComponentModifier, ActionTemplate, FromTemplate, MonsterStatsTemplate, MonsterTemplate,
    SpellTemplate, StatsTemplate, TemplateBuilder,
};
