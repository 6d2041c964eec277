//! The result of a request.

use crate::render::{history_lines, outcome_text, reason_text, result_lines};
use crate::repeatedrollresult::{singles, Repeated, RepeatedRollResult};
use crate::singlerollresult::{mark, Single, SingleRollResult};
use crate::text::{push_integer, push_text};
use vstd::prelude::*;
use vstd::string::*;

verus! {

/// Distinguish between a simple roll and a repeated roll using `^`.
#[derive(Debug, Clone)]
pub enum RollResultType {
    /// A single roll
    Single(SingleRollResult),
    /// An expression repeated multiple times (using the `^` operator)
    Repeated(RepeatedRollResult),
}

/// Carry the result of the roll.
///
/// A `RollResult` contains either a single roll result, or if the roll is repeated, a list of the
/// same roll different results. And a reason if needed.
#[derive(Debug, Clone)]
pub struct RollResult {
    result: RollResultType,
    reason: Option<String>,
}

/// What was rolled, as a mathematical value.
pub ghost enum Rolled {
    Single(Single),
    Repeated(Repeated),
}

/// A [`RollResult`] as a mathematical value.
pub ghost struct Outcome {
    pub result: Rolled,
    pub reason: Option<Seq<char>>,
}

impl View for RollResultType {
    type V = Rolled;

    open spec fn view(&self) -> Rolled {
        match *self {
            RollResultType::Single(r) => Rolled::Single(r@),
            RollResultType::Repeated(r) => Rolled::Repeated(r@),
        }
    }
}

/// The text of a reason, if there is one.
pub open spec fn reason_view(reason: Option<String>) -> Option<Seq<char>> {
    match reason {
        Some(s) => Some(s@),
        None => None,
    }
}

impl View for RollResult {
    type V = Outcome;

    closed spec fn view(&self) -> Outcome {
        Outcome { result: self.result@, reason: reason_view(self.reason) }
    }
}

impl RollResult {
    /// Create a `RollResult` with only one single roll.
    pub fn new_single(r: SingleRollResult) -> (out: Self)
        ensures
            out@ == (Outcome { result: Rolled::Single(r@), reason: None }),
    {
        RollResult { result: RollResultType::Single(r), reason: None }
    }

    /// Create a `RollResult` with a repeated roll results.
    pub fn new_repeated(v: Vec<SingleRollResult>, total: Option<i64>) -> (out: Self)
        ensures
            out@ == (Outcome {
                result: Rolled::Repeated(Repeated { rolls: singles(v@), total }),
                reason: None,
            }),
    {
        RollResult {
            result: RollResultType::Repeated(RepeatedRollResult::new(v, total)),
            reason: None,
        }
    }

    /// Add a comment to the result.
    pub fn add_reason(&mut self, reason: String)
        ensures
            final(self)@ == (Outcome { reason: Some(reason@), ..old(self)@ }),
    {
        self.reason = Some(reason);
    }

    /// Get the comment, if any.
    pub fn get_reason(&self) -> (reason: Option<&String>)
        ensures
            match reason {
                Some(s) => self@.reason == Some(s@),
                None => self@.reason is None,
            },
    {
        self.reason.as_ref()
    }

    /// Return the result.
    pub fn get_result(&self) -> (result: &RollResultType)
        ensures
            result@ == self@.result,
    {
        &self.result
    }

    /// If the result is a single roll, it will return it.
    pub fn as_single(&self) -> (single: Option<&SingleRollResult>)
        ensures
            match single {
                Some(r) => self@.result == Rolled::Single(r@),
                None => self@.result is Repeated,
            },
    {
        match &self.result {
            RollResultType::Single(result) => Some(result),
            RollResultType::Repeated(_) => None,
        }
    }

    /// If the result is a repeated roll, it will return it.
    pub fn as_repeated(&self) -> (repeated: Option<&RepeatedRollResult>)
        ensures
            match repeated {
                Some(r) => self@.result == Rolled::Repeated(r@),
                None => self@.result is Single,
            },
    {
        match &self.result {
            RollResultType::Single(_) => None,
            RollResultType::Repeated(results) => Some(results),
        }
    }
}

impl RollResult {
    /// Appends the reason, if there is one, to `s` after `lead`.
    fn push_reason(&self, s: &mut String, lead: &str, md: bool)
        ensures
            final(s)@ == old(s)@ + reason_text(lead@, self@.reason, md),
    {
        match &self.reason {
            Some(reason) => {
                push_text(s, lead);
                push_text(s, mark(md, "`"));
                push_text(s, reason.as_str());
                push_text(s, mark(md, "`"));
                assert(s@ =~= old(s)@ + reason_text(lead@, self@.reason, md));
            },
            None => {
                assert(s@ =~= old(s)@ + reason_text(lead@, self@.reason, md));
            },
        }
    }

    /// The result as it is shown, with emphasis: on one line for a single
    /// roll.
    pub fn to_string(&self) -> (s: String)
        ensures
            s@ == outcome_text(self@, true),
    {
        self.render(true)
    }

    /// The result as it is shown, with or without markdown formatting.
    pub fn render(&self, md: bool) -> (s: String)
        ensures
            s@ == outcome_text(self@, md),
    {
        let mut s = String::new();
        match &self.result {
            RollResultType::Single(roll_result) => {
                roll_result.push_to(&mut s, md);
                self.push_reason(&mut s, ", Reason: ", md);
            },
            RollResultType::Repeated(repeated_result) => {
                let rolls = repeated_result.rolls();
                let ghost all = singles(rolls@);
                let ghost start = s@;
                let with_sum = repeated_result.get_total().is_some();
                let mut i: usize = 0;
                assert(all.take(0) =~= Seq::empty());
                assert(s@ =~= start + history_lines(all.take(0), md));
                assert(s@ =~= start + result_lines(all.take(0), md));
                while i < rolls.len()
                    invariant
                        i <= rolls@.len(),
                        all == singles(rolls@),
                        s@ == start + if with_sum {
                            history_lines(all.take(i as int), md)
                        } else {
                            result_lines(all.take(i as int), md)
                        },
                    decreases rolls.len() - i,
                {
                    if with_sum {
                        push_text(&mut s, mark(md, "`"));
                        rolls[i].push_history(&mut s);
                        push_text(&mut s, mark(md, "`"));
                        push_text(&mut s, "\n");
                    } else {
                        rolls[i].push_to(&mut s, md);
                        push_text(&mut s, "\n");
                    }
                    proof {
                        let next = all.take(i + 1);
                        assert(next.drop_last() =~= all.take(i as int));
                        assert(next.last() == rolls@[i as int]@);
                        if with_sum {
                            assert(s@ =~= start + history_lines(next, md));
                        } else {
                            assert(s@ =~= start + result_lines(next, md));
                        }
                    }
                    i = i + 1;
                }
                assert(all.take(all.len() as int) =~= all);
                match repeated_result.get_total() {
                    Some(total) => {
                        push_text(&mut s, "Sum: ");
                        push_text(&mut s, mark(md, "**"));
                        push_integer(&mut s, total);
                        push_text(&mut s, mark(md, "**"));
                        self.push_reason(&mut s, ", Reason: ", md);
                    },
                    None => {
                        self.push_reason(&mut s, "Reason: ", md);
                    },
                }
            },
        }
        assert(s@ =~= outcome_text(self@, md));
        s
    }
}

} // verus!
