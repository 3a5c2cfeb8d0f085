//! The die-pool half of a roll formula: `N` dice of `M` faces each.

use vstd::prelude::*;
use crate::roll::{Roller, spec_clamp};

verus! {

/// Largest die count a well-formed pool may hold.
pub const DICE_COUNT_LIMIT: i32 = 30_000;

/// Largest face count a well-formed pool may hold.
pub const FACE_COUNT_LIMIT: i32 = 30_000;

/// A pool of identical dice: `dice_count` dice with `face_count` faces each.
#[derive(Clone, Copy, Debug, PartialEq, Eq, Structural)]
pub struct Dice {
    pub dice_count: i32,
    pub face_count: i32,
}

impl Dice {
    /// The pool invariant: a non-negative count of dice that each have at
    /// least one face, with both small enough that every roll fits an `i32`.
    pub open spec fn wf(&self) -> bool {
        &&& 0 <= self.dice_count <= DICE_COUNT_LIMIT
        &&& 1 <= self.face_count <= FACE_COUNT_LIMIT
    }

    /// Twice the average roll, `dice_count * face_count`, kept doubled so
    /// that it stays an integer when the product is odd.
    pub open spec fn spec_average_x2(&self) -> int {
        self.dice_count * self.face_count
    }

    pub fn new(dice_count: i32, face_count: i32) -> (r: Self)
        requires
            0 <= dice_count <= DICE_COUNT_LIMIT,
            1 <= face_count <= FACE_COUNT_LIMIT,
        ensures
            r.wf(),
            r.dice_count == dice_count,
            r.face_count == face_count,
    {
        Self { dice_count, face_count }
    }

    /// The sum of `dice_count` independent draws in `[1, face_count]`;
    /// zero dice roll zero deterministically.
    pub fn roll(&self, roller: &Roller) -> (r: i32)
        requires
            self.wf(),
        ensures
            self.dice_count <= r <= self.dice_count * self.face_count,
            self.dice_count == 0 ==> r == 0,
            roller.is_fixed() ==> r == self.dice_count * spec_clamp(
                roller.fixed_value() as int,
                1,
                self.face_count as int,
            ),
    {
        let mut sum: i32 = 0;
        let mut i: i32 = 0;
        while i < self.dice_count
            invariant
                self.wf(),
                0 <= i <= self.dice_count,
                i <= sum <= i * self.face_count,
                roller.is_fixed() ==> sum == i * spec_clamp(
                    roller.fixed_value() as int,
                    1,
                    self.face_count as int,
                ),
            decreases self.dice_count - i,
        {
            let d = roller.draw(1, self.face_count);
            proof {
                assert((i + 1) * self.face_count == i * self.face_count + self.face_count)
                    by (nonlinear_arith);
                assert(i * self.face_count <= DICE_COUNT_LIMIT * FACE_COUNT_LIMIT)
                    by (nonlinear_arith)
                    requires
                        0 <= i <= DICE_COUNT_LIMIT,
                        1 <= self.face_count <= FACE_COUNT_LIMIT,
                ;
                assert((i + 1) * spec_clamp(roller.fixed_value() as int, 1, self.face_count as int)
                    == i * spec_clamp(roller.fixed_value() as int, 1, self.face_count as int)
                        + spec_clamp(roller.fixed_value() as int, 1, self.face_count as int))
                    by (nonlinear_arith);
            }
            sum = sum + d;
            i = i + 1;
        }
        sum
    }

    /// Add (or, when negative, remove) dice of the same face count; the
    /// count never drops below zero.
    pub fn add_dice(&mut self, amount: i32)
        requires
            old(self).wf(),
            old(self).dice_count + amount <= DICE_COUNT_LIMIT,
            -DICE_COUNT_LIMIT <= amount,
        ensures
            final(self).wf(),
            final(self).face_count == old(self).face_count,
            final(self).dice_count == if old(self).dice_count + amount >= 0 {
                old(self).dice_count + amount
            } else {
                0
            },
    {
        let next = self.dice_count + amount;
        self.dice_count = if next >= 0 { next } else { 0 };
    }

    pub fn dice_count(&self) -> (r: i32)
        ensures
            r == self.dice_count,
    {
        self.dice_count
    }

    pub fn face_count(&self) -> (r: i32)
        ensures
            r == self.face_count,
    {
        self.face_count
    }

    /// Twice the exact expected roll, so callers can compare averages
    /// without leaving the integers.
    pub fn average_roll_x2(&self) -> (r: i64)
        requires
            self.wf(),
        ensures
            r == self.spec_average_x2(),
    {
        proof {
            assert(0 <= self.dice_count * self.face_count
                <= DICE_COUNT_LIMIT * FACE_COUNT_LIMIT)
                by (nonlinear_arith)
                requires
                    0 <= self.dice_count <= DICE_COUNT_LIMIT,
                    1 <= self.face_count <= FACE_COUNT_LIMIT,
            ;
        }
        (self.dice_count as i64) * (self.face_count as i64)
    }
}

} // verus!

// -- recognizing die notation in text -------------------------------------

verus! {

use crate::formula_text::is_digit_char;

/// Whether `s` contains die notation anywhere: a digit, then `'d'`, then
/// a nonzero digit — the shape `count 'd' faces` with at least one digit
/// on each side.
pub open spec fn spec_contains_dice(s: Seq<char>) -> bool {
    exists|p: int| 1 <= p && p + 1 < s.len() && s[p] == 'd' && is_digit_char(#[trigger] s[p - 1])
        && is_digit_char(s[p + 1]) && s[p + 1] != '0'
}

impl Dice {
    /// Whether the text contains die notation (`"3d6"` somewhere in it);
    /// unlike a formula check this is a substring search, not anchored.
    #[verifier::loop_isolation(false)]
    pub fn is_dice(s: &str) -> (r: bool)
        ensures
            r == spec_contains_dice(s@),
    {
        let n = s.unicode_len();
        if n < 3 {
            return false;
        }
        let mut p: usize = 1;
        while p < n - 1
            invariant
                1 <= p <= n - 1,
                3 <= n,
                n == s@.len(),
                forall|q: int| 1 <= q < p && q + 1 < s@.len() ==> !(s@[q] == 'd' && is_digit_char(
                    #[trigger] s@[q - 1],
                ) && is_digit_char(s@[q + 1]) && s@[q + 1] != '0'),
            decreases n - 1 - p,
        {
            let c = s.get_char(p);
            if c == 'd' {
                let before = s.get_char(p - 1);
                let after = s.get_char(p + 1);
                let bu = before as u32;
                let au = after as u32;
                if 48 <= bu && bu <= 57 && 49 <= au && au <= 57 {
                    proof {
                        assert('0' as int == 48);
                        assert(spec_contains_dice(s@));
                    }
                    return true;
                }
            }
            p = p + 1;
        }
        proof {
            if spec_contains_dice(s@) {
                let q = choose|q: int|
                    1 <= q && q + 1 < s@.len() && s@[q] == 'd' && is_digit_char(
                        #[trigger] s@[q - 1],
                    ) && is_digit_char(s@[q + 1]) && s@[q + 1] != '0';
                assert(false);
            }
        }
        false
    }
}

} // verus!
