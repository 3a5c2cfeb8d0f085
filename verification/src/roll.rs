//! Source of the integer draws behind every die roll and d20 check.
//!
//! All randomness in the engine flows through a [`Roller`] handle, so a
//! simulation can run against the process RNG or against a fixed,
//! reproducible stream (used by the determinism tests).

use vstd::prelude::*;

verus! {

/// How a [`Roller`] produces its draws.
#[derive(Clone, Copy, Debug)]
pub enum RollerMode {
    /// Uniform draws from the process random number generator.
    Random,
    /// Every draw yields this value, clamped into the requested range.
    Fixed(i32),
}

/// A handle that yields one integer per request, each within the range the
/// caller asks for.
#[derive(Clone, Copy, Debug)]
pub struct Roller {
    pub mode: RollerMode,
}

/// `v` forced into the closed interval `[lo, hi]`.
pub open spec fn spec_clamp(v: int, lo: int, hi: int) -> int {
    if v < lo {
        lo
    } else if v > hi {
        hi
    } else {
        v
    }
}

/// Relies on `rand::thread_rng` and `rand::Rng::gen_range`: a uniform draw
/// over the inclusive range `lo..=hi`; `gen_range` panics only when the
/// range is empty, which the precondition rules out.
#[verifier::external_body]
fn draw_uniform(lo: i32, hi: i32) -> (r: i32)
    requires
        lo <= hi,
    ensures
        lo <= r <= hi,
{
    rand::Rng::gen_range(&mut rand::thread_rng(), lo..=hi)
}

impl Roller {
    /// A roller backed by the process RNG.
    pub fn random() -> (r: Roller)
        ensures
            !r.is_fixed(),
    {
        Roller { mode: RollerMode::Random }
    }

    /// A roller whose every draw is `v` (clamped into the requested range).
    pub fn fixed(v: i32) -> (r: Roller)
        ensures
            r.is_fixed(),
            r.fixed_value() == v,
    {
        Roller { mode: RollerMode::Fixed(v) }
    }

    /// Whether this roller is a deterministic, fixed-value source.
    pub open spec fn is_fixed(&self) -> bool {
        self.mode is Fixed
    }

    /// The value a fixed roller yields (before clamping).
    pub open spec fn fixed_value(&self) -> i32 {
        self.mode->Fixed_0
    }

    /// One draw, uniform over `[lo, hi]` for a random roller, and exactly
    /// the clamped fixed value for a fixed one.
    pub fn draw(&self, lo: i32, hi: i32) -> (r: i32)
        requires
            lo <= hi,
        ensures
            lo <= r <= hi,
            self.is_fixed() ==> r == spec_clamp(self.fixed_value() as int, lo as int, hi as int),
    {
        match self.mode {
            RollerMode::Random => draw_uniform(lo, hi),
            RollerMode::Fixed(v) => {
                if v < lo {
                    lo
                } else if v > hi {
                    hi
                } else {
                    v
                }
            },
        }
    }
}

} // verus!
