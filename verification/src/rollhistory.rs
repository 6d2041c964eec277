//! The steps that led to a result.

use crate::diceresult::DiceResult;
use crate::number::Decimal;
use crate::render::{push_fudge, push_rerolls, push_roll, push_value, step_text, value_text};
use crate::text::push_text;
use vstd::prelude::*;
use vstd::string::*;

verus! {

/// A constant of an expression, either an integer or a decimal literal.
#[derive(Debug, Clone, Copy)]
pub enum Value {
    /// An integer.
    Int(i64),
    /// A decimal literal.
    Decimal(Decimal),
}

impl Value {
    /// The constant as an integer: a decimal literal is cut off toward zero.
    pub open spec fn spec_get_value(&self) -> int {
        match *self {
            Value::Int(i) => i as int,
            Value::Decimal(d) => d.spec_trunc(),
        }
    }

    /// Get the value as `i64`.
    pub fn get_value(&self) -> (v: i64)
        ensures
            v == self.spec_get_value(),
    {
        match *self {
            Value::Int(i) => i,
            Value::Decimal(d) => d.trunc(),
        }
    }
}

impl Value {
    /// The constant as it is shown.
    pub fn to_string(&self) -> (s: String)
        ensures
            s@ == value_text(*self),
    {
        let mut s = String::new();
        push_value(&mut s, self);
        assert(s@ =~= value_text(*self));
        s
    }
}

/// One step of the history that led to a result.
///
/// For `1d6 + 1d6` the history is a [`RollHistory::Roll`], a
/// [`RollHistory::Separator`] and another [`RollHistory::Roll`].
#[non_exhaustive]
#[derive(Debug, Clone)]
pub enum RollHistory {
    /// For each die that was rolled again, the faces it showed in turn. A
    /// `Roll` with the faces that stand at the end follows.
    ReRolls(Vec<Vec<DiceResult>>),
    /// A batch of ordinary dice.
    Roll(Vec<DiceResult>),
    /// A batch of fudge dice, as the faces of six-sided dice.
    Fudge(Vec<u64>),
    /// A constant.
    Value(Value),
    /// An operator between two operands, as it is shown.
    Separator(&'static str),
    /// An opening parenthesis.
    OpenParenthesis,
    /// A closing parenthesis.
    CloseParenthesis,
}

/// A step of a history as a mathematical value.
pub ghost enum Step {
    ReRolls(Seq<Seq<DiceResult>>),
    Roll(Seq<DiceResult>),
    Fudge(Seq<u64>),
    Value(Value),
    Separator(Seq<char>),
    OpenParenthesis,
    CloseParenthesis,
}

/// The faces that each die of a reroll showed in turn.
pub open spec fn chains_of(chains: Seq<Vec<DiceResult>>) -> Seq<Seq<DiceResult>> {
    chains.map_values(|c: Vec<DiceResult>| c@)
}

impl View for RollHistory {
    type V = Step;

    open spec fn view(&self) -> Step {
        match *self {
            RollHistory::ReRolls(chains) => Step::ReRolls(chains_of(chains@)),
            RollHistory::Roll(dice) => Step::Roll(dice@),
            RollHistory::Fudge(faces) => Step::Fudge(faces@),
            RollHistory::Value(v) => Step::Value(v),
            RollHistory::Separator(s) => Step::Separator(s@),
            RollHistory::OpenParenthesis => Step::OpenParenthesis,
            RollHistory::CloseParenthesis => Step::CloseParenthesis,
        }
    }
}

/// The steps of a history, in order.
pub open spec fn steps(history: Seq<RollHistory>) -> Seq<Step> {
    history.map_values(|h: RollHistory| h@)
}

/// The numbers that a step adds to a total: the faces of a batch, or the
/// constant. A face counts as the signed integer with the same 64 bits.
pub open spec fn step_values(step: Step) -> Seq<i64> {
    match step {
        Step::Roll(dice) => dice.map_values(|d: DiceResult| d.res as i64),
        Step::Fudge(faces) => faces.map_values(|f: u64| f as i64),
        Step::Value(v) => seq![v.spec_get_value() as i64],
        _ => Seq::empty(),
    }
}

/// The numbers of all steps of a history, in order.
pub open spec fn flat_values(history: Seq<Step>) -> Seq<i64>
    decreases history.len(),
{
    if history.len() == 0 {
        Seq::empty()
    } else {
        flat_values(history.drop_last()) + step_values(history.last())
    }
}

impl RollHistory {
    /// Appends the step to `s`, as it is shown.
    pub fn push_to(&self, s: &mut String)
        ensures
            final(s)@ == old(s)@ + step_text(self@),
    {
        match self {
            RollHistory::ReRolls(chains) => push_rerolls(s, chains),
            RollHistory::Roll(dice) => push_roll(s, dice),
            RollHistory::Fudge(faces) => push_fudge(s, faces),
            RollHistory::Value(v) => push_value(s, v),
            RollHistory::Separator(sep) => push_text(s, sep),
            RollHistory::OpenParenthesis => push_text(s, "("),
            RollHistory::CloseParenthesis => push_text(s, ")"),
        }
    }

    /// The step as it is shown.
    pub fn to_string(&self) -> (s: String)
        ensures
            s@ == step_text(self@),
    {
        let mut s = String::new();
        self.push_to(&mut s);
        assert(s@ =~= step_text(self@));
        s
    }
}

} // verus!
