//! One rolled die.

use core::cmp::Ordering;
use vstd::prelude::*;
use vstd::std_specs::cmp::{PartialEqSpecImpl, PartialOrdSpecImpl};

verus! {

/// Marks a die whose face is the lowest or the highest it can show.
#[derive(Debug, Clone, Copy, PartialEq, Eq, Hash, Structural)]
pub enum Critic {
    /// An ordinary face.
    No,
    /// The face is 1.
    Min,
    /// The face is the number of sides.
    Max,
}

/// The face a die showed, with its marker.
///
/// Two dice compare by their faces alone: the marker takes no part in `==`
/// or `<`.
#[derive(Debug, Clone, Copy)]
pub struct DiceResult {
    /// The face that came up.
    pub res: u64,
    /// Whether that face is the lowest or the highest of the die.
    pub crit: Critic,
}

/// The marker of face `value` on a die of `sides` sides. The highest face wins
/// over the lowest, so the only face of a one-sided die is `Max`.
pub open spec fn critic_of(value: u64, sides: u64) -> Critic {
    if value == sides {
        Critic::Max
    } else if value == 1 {
        Critic::Min
    } else {
        Critic::No
    }
}

/// The die that shows `value` out of `sides`.
pub open spec fn die(value: u64, sides: u64) -> DiceResult {
    DiceResult { res: value, crit: critic_of(value, sides) }
}

impl DiceResult {
    /// Records face `value` of a die with `sides` sides.
    pub fn new(value: u64, sides: u64) -> (d: Self)
        ensures
            d == die(value, sides),
    {
        DiceResult {
            res: value,
            crit: if value == sides {
                Critic::Max
            } else if value == 1 {
                Critic::Min
            } else {
                Critic::No
            },
        }
    }
}

impl PartialEq for DiceResult {
    fn eq(&self, other: &Self) -> (r: bool) {
        self.res == other.res
    }
}

impl PartialEqSpecImpl for DiceResult {
    open spec fn obeys_eq_spec() -> bool {
        true
    }

    open spec fn eq_spec(&self, other: &Self) -> bool {
        self.res == other.res
    }
}

impl Eq for DiceResult {

}

/// How the faces `a` and `b` stand to each other.
pub open spec fn face_order(a: u64, b: u64) -> Ordering {
    if a < b {
        Ordering::Less
    } else if a == b {
        Ordering::Equal
    } else {
        Ordering::Greater
    }
}

impl PartialOrd for DiceResult {
    fn partial_cmp(&self, other: &Self) -> (r: Option<Ordering>) {
        if self.res < other.res {
            Some(Ordering::Less)
        } else if self.res == other.res {
            Some(Ordering::Equal)
        } else {
            Some(Ordering::Greater)
        }
    }
}

impl PartialOrdSpecImpl for DiceResult {
    open spec fn obeys_partial_cmp_spec() -> bool {
        true
    }

    open spec fn partial_cmp_spec(&self, other: &Self) -> Option<Ordering> {
        Some(face_order(self.res, other.res))
    }
}

impl core::ops::Deref for DiceResult {
    type Target = u64;

    fn deref(&self) -> (face: &u64)
        ensures
            *face == self.res,
    {
        &self.res
    }
}

} // verus!
