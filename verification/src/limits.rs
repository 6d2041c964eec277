//! The bounds within which expressions are rolled.

use vstd::prelude::*;

verus! {

/// The most sides that a die may have, unless told otherwise.
pub const MAX_DICE_SIDES: u64 = 5000;

/// The most dice that one term may roll at first, unless told otherwise.
pub const MAX_NUMBER_OF_DICE: u64 = 5000;

/// The most rounds of an indefinite explosion, and the most times that an
/// indefinite reroll rolls one die again, unless told otherwise.
pub const MAX_ITERATIONS: u64 = 100;

/// The bounds within which expressions are rolled.
#[derive(Debug, Clone, Copy, PartialEq, Eq, Structural)]
pub struct Limits {
    /// The most dice that one term may roll at first.
    pub max_dice: u64,
    /// The most sides that a die may have.
    pub max_sides: u64,
    /// The most rounds of an indefinite explosion, and the most times that
    /// an indefinite reroll rolls one die again.
    pub max_iterations: u64,
}

/// The bounds that hold unless others are given.
pub open spec fn usual() -> Limits {
    Limits {
        max_dice: MAX_NUMBER_OF_DICE,
        max_sides: MAX_DICE_SIDES,
        max_iterations: MAX_ITERATIONS,
    }
}

impl Default for Limits {
    fn default() -> (limits: Self)
        ensures
            limits == usual(),
    {
        Limits {
            max_dice: MAX_NUMBER_OF_DICE,
            max_sides: MAX_DICE_SIDES,
            max_iterations: MAX_ITERATIONS,
        }
    }
}

} // verus!
