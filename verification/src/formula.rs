//! A roll formula "NdM+K": a die pool plus a fixed modifier.

use vstd::prelude::*;
use crate::dice::{Dice, DICE_COUNT_LIMIT, FACE_COUNT_LIMIT};
use crate::roll::{Roller, spec_clamp};

verus! {

/// Largest magnitude a well-formed fixed modifier may have.
pub const FIXED_LIMIT: i32 = 1_000_000_000;

/// A randomized numeric expression `NdM+K` (`K` may be negative): one die
/// pool and one fixed modifier. Only a single die size per formula is
/// supported; combining formulas with different face counts is an
/// authoring error.
#[derive(Clone, Copy, Debug, PartialEq, Eq, Structural)]
pub struct Formula {
    pub dice: Dice,
    pub fixed: i32,
}

impl Formula {
    /// The formula invariant: a well-formed pool and a bounded modifier,
    /// so that every roll and average fits the machine integers.
    pub open spec fn wf(&self) -> bool {
        &&& self.dice.wf()
        &&& -FIXED_LIMIT <= self.fixed <= FIXED_LIMIT
    }

    /// Twice the average roll: `count * faces + 2 * fixed`.
    pub open spec fn spec_average_x2(&self) -> int {
        self.dice.spec_average_x2() + 2 * self.fixed
    }

    /// Whether `other` may be folded into `self`: formulas only combine
    /// when they agree on the die size (a pool of zero dice fits any).
    pub open spec fn spec_compatible(&self, other: &Formula) -> bool {
        other.dice.dice_count > 0 ==> self.dice.face_count == other.dice.face_count
    }

    pub fn new(dice: Dice, fixed: i32) -> (r: Self)
        requires
            dice.wf(),
            -FIXED_LIMIT <= fixed <= FIXED_LIMIT,
        ensures
            r.wf(),
            r.dice == dice,
            r.fixed == fixed,
    {
        Self { dice, fixed }
    }

    /// A formula with no dice at all: just the fixed value.
    pub fn fixed_only(fixed: i32) -> (r: Self)
        requires
            -FIXED_LIMIT <= fixed <= FIXED_LIMIT,
        ensures
            r.wf(),
            r.dice.dice_count == 0,
            r.dice.face_count == 1,
            r.fixed == fixed,
    {
        Self { dice: Dice::new(0, 1), fixed }
    }

    /// `dice.roll() + fixed`; the result is not floored at zero, so a very
    /// negative modifier can make the whole roll negative.
    pub fn roll(&self, roller: &Roller) -> (r: i32)
        requires
            self.wf(),
        ensures
            self.dice.dice_count + self.fixed <= r
                <= self.dice.dice_count * self.dice.face_count + self.fixed,
            self.dice.dice_count == 0 ==> r == self.fixed,
            roller.is_fixed() ==> r == self.dice.dice_count * spec_clamp(
                roller.fixed_value() as int,
                1,
                self.dice.face_count as int,
            ) + self.fixed,
    {
        let d = self.dice.roll(roller);
        proof {
            assert(self.dice.dice_count * self.dice.face_count
                <= DICE_COUNT_LIMIT * FACE_COUNT_LIMIT) by (nonlinear_arith)
                requires
                    0 <= self.dice.dice_count <= DICE_COUNT_LIMIT,
                    1 <= self.dice.face_count <= FACE_COUNT_LIMIT,
            ;
        }
        d + self.fixed
    }

    pub fn add_dice(&mut self, amount: i32)
        requires
            old(self).wf(),
            old(self).dice.dice_count + amount <= DICE_COUNT_LIMIT,
            -DICE_COUNT_LIMIT <= amount,
        ensures
            final(self).wf(),
            final(self).fixed == old(self).fixed,
            final(self).dice.face_count == old(self).dice.face_count,
            final(self).dice.dice_count == if old(self).dice.dice_count + amount >= 0 {
                old(self).dice.dice_count + amount
            } else {
                0
            },
    {
        self.dice.add_dice(amount);
    }

    pub fn add_fixed(&mut self, amount: i32)
        requires
            old(self).wf(),
            -FIXED_LIMIT <= old(self).fixed + amount <= FIXED_LIMIT,
        ensures
            final(self).wf(),
            final(self).dice == old(self).dice,
            final(self).fixed == old(self).fixed + amount,
    {
        self.fixed = self.fixed + amount;
    }

    /// Fold another formula of the same die size into this one, adding the
    /// die counts and the fixed parts.
    pub fn add_formula(&mut self, other: &Formula)
        requires
            old(self).wf(),
            other.wf(),
            old(self).spec_compatible(other),
            old(self).dice.dice_count + other.dice.dice_count <= DICE_COUNT_LIMIT,
            -FIXED_LIMIT <= old(self).fixed + other.fixed <= FIXED_LIMIT,
        ensures
            final(self).wf(),
            final(self).dice.face_count == old(self).dice.face_count,
            final(self).dice.dice_count == old(self).dice.dice_count + if other.dice.dice_count
                > 0 {
                other.dice.dice_count as int
            } else {
                0
            },
            final(self).fixed == old(self).fixed + other.fixed,
    {
        if other.dice.dice_count > 0 {
            self.dice.add_dice(other.dice.dice_count);
        }
        self.fixed = self.fixed + other.fixed;
    }

    /// Remove another formula of the same die size from this one: the die
    /// count drops when the right side has dice (never below zero), and
    /// the fixed parts subtract.
    pub fn sub_formula(&mut self, other: &Formula)
        requires
            old(self).wf(),
            other.wf(),
            old(self).spec_compatible(other),
            -FIXED_LIMIT <= old(self).fixed - other.fixed <= FIXED_LIMIT,
        ensures
            final(self).wf(),
            final(self).dice.face_count == old(self).dice.face_count,
            final(self).dice.dice_count == if other.dice.dice_count > 0 {
                if old(self).dice.dice_count - other.dice.dice_count >= 0 {
                    old(self).dice.dice_count - other.dice.dice_count
                } else {
                    0
                }
            } else {
                old(self).dice.dice_count as int
            },
            final(self).fixed == old(self).fixed - other.fixed,
    {
        if other.dice.dice_count > 0 {
            self.dice.add_dice(-other.dice.dice_count);
        }
        self.fixed = self.fixed - other.fixed;
    }

    /// The formula scaled by a non-negative factor: `k` times the dice and
    /// `k` times the modifier.
    pub fn times(&self, k: i32) -> (r: Formula)
        requires
            self.wf(),
            0 <= k,
            self.dice.dice_count * k <= DICE_COUNT_LIMIT,
            -FIXED_LIMIT <= self.fixed * k <= FIXED_LIMIT,
        ensures
            r.wf(),
            r.dice.face_count == self.dice.face_count,
            r.dice.dice_count == self.dice.dice_count * k,
            r.fixed == self.fixed * k,
    {
        proof {
            assert(0 <= self.dice.dice_count * k) by (nonlinear_arith)
                requires
                    0 <= self.dice.dice_count,
                    0 <= k,
            ;
        }
        Formula { dice: Dice { dice_count: self.dice.dice_count * k, face_count: self.dice.face_count }, fixed: self.fixed * k }
    }

    pub fn dice(&self) -> (r: Dice)
        ensures
            r == self.dice,
    {
        self.dice
    }

    pub fn fixed(&self) -> (r: i32)
        ensures
            r == self.fixed,
    {
        self.fixed
    }

    /// Twice the average roll as a machine integer.
    pub fn average_roll_x2(&self) -> (r: i64)
        requires
            self.wf(),
        ensures
            r == self.spec_average_x2(),
    {
        let a = self.dice.average_roll_x2();
        proof {
            assert(0 <= self.dice.dice_count * self.dice.face_count
                <= DICE_COUNT_LIMIT * FACE_COUNT_LIMIT) by (nonlinear_arith)
                requires
                    0 <= self.dice.dice_count <= DICE_COUNT_LIMIT,
                    1 <= self.dice.face_count <= FACE_COUNT_LIMIT,
            ;
        }
        a + 2 * (self.fixed as i64)
    }
}

} // verus!
