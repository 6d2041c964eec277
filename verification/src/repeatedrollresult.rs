//! The results of an expression that was rolled several times.

use crate::singlerollresult::{Single, SingleRollResult};
use vstd::prelude::*;

verus! {

/// Represent a repeated roll.
///
/// Can store the sum of all the roll if asked to. Usually created through
/// [`RollResult::new_repeated()`](crate::RollResult::new_repeated).
#[derive(Debug, Clone)]
pub struct RepeatedRollResult {
    rolls: Vec<SingleRollResult>,
    total: Option<i64>,
}

/// The results of a list as mathematical values.
pub open spec fn singles(rolls: Seq<SingleRollResult>) -> Seq<Single> {
    rolls.map_values(|r: SingleRollResult| r@)
}

pub proof fn lemma_singles_push(rolls: Seq<SingleRollResult>, r: SingleRollResult)
    ensures
        singles(rolls.push(r)) == singles(rolls).push(r@),
{
    assert(singles(rolls.push(r)) =~= singles(rolls).push(r@));
}

/// A [`RepeatedRollResult`] as a mathematical value.
pub ghost struct Repeated {
    pub rolls: Seq<Single>,
    pub total: Option<i64>,
}

impl View for RepeatedRollResult {
    type V = Repeated;

    closed spec fn view(&self) -> Repeated {
        Repeated { rolls: singles(self.rolls@), total: self.total }
    }
}

impl RepeatedRollResult {
    /// The results `rolls` with the sum of their totals, where it was asked for.
    pub fn new(rolls: Vec<SingleRollResult>, total: Option<i64>) -> (out: Self)
        ensures
            out@ == (Repeated { rolls: singles(rolls@), total }),
    {
        RepeatedRollResult { rolls, total }
    }

    /// If the repeated roll was asked with a total, this will return the computed total.
    pub fn get_total(&self) -> (t: Option<i64>)
        ensures
            t == self@.total,
    {
        self.total
    }

    /// The results, in order.
    pub fn rolls(&self) -> (r: &Vec<SingleRollResult>)
        ensures
            singles(r@) == self@.rolls,
    {
        &self.rolls
    }
}

impl core::ops::Deref for RepeatedRollResult {
    type Target = Vec<SingleRollResult>;

    fn deref(&self) -> (r: &Vec<SingleRollResult>)
        ensures
            singles(r@) == self@.rolls,
    {
        &self.rolls
    }
}

} // verus!
