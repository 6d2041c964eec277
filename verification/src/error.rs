//! The errors of the library.

use crate::text::{natural_text, push_natural, push_text};
use vstd::prelude::*;
use vstd::std_specs::convert::FromSpecImpl;
use vstd::string::*;

verus! {

/// What the evaluator refuses in an expression.
#[derive(Debug, Clone, Copy, PartialEq, Eq, Structural)]
pub enum Fault {
    /// A die with no sides.
    ZeroSides,
    /// More dice in one term than the bound, which is given.
    TooManyDice(u64),
    /// More sides than the bound, which is given.
    TooManySides(u64),
    /// A count of dice to keep or drop that is over the number of dice.
    NotEnoughDice,
    /// A repetition that is not at least once.
    RepeatNotPositive,
    /// A division by an operand that is zero.
    DivisionByZero,
    /// Dice that went on exploding, or a die that went on being rerolled,
    /// beyond the bound, which is given.
    TooManyRolls(u64),
    /// A total outside the range of a 64-bit integer.
    Overflow,
    /// A number of dice of zero where a rule needs one that is not.
    ZeroNumber,
    /// A repeated roll where a rule takes a single one.
    NotSingle,
    /// A history of more or fewer than one step where a rule takes one roll.
    NotOneRoll,
    /// A history whose step is no batch of dice.
    NotARoll,
    /// A batch without dice where a rule takes the lowest die.
    NoDice,
}

impl Fault {
    /// The text that reports the fault.
    pub open spec fn text(self) -> Seq<char> {
        match self {
            Fault::ZeroSides => "Dice can't have 0 sides"@,
            Fault::TooManyDice(max) => "Exceed maximum allowed number of dices ("@ + natural_text(
                max as nat,
            ) + ")"@,
            Fault::TooManySides(max) => "Dice can't have more than "@ + natural_text(max as nat),
            Fault::NotEnoughDice => "Not enough dice to keep or drop"@,
            Fault::RepeatNotPositive => "Can't repeat 0 times or negatively"@,
            Fault::DivisionByZero => "Can't divide by zero"@,
            Fault::TooManyRolls(max) => "Exceed maximum allowed number of explosions or rerolls ("@
                + natural_text(max as nat) + ")"@,
            Fault::Overflow => "Total is out of range"@,
            Fault::ZeroNumber => "Number can't be zero"@,
            Fault::NotSingle => "Not a single roll result"@,
            Fault::NotOneRoll => "Should have only one roll"@,
            Fault::NotARoll => "RollHistory must be a Roll variant"@,
            Fault::NoDice => "Should have at least one dice"@,
        }
    }

    /// The text that reports the fault.
    pub fn message(self) -> (s: String)
        ensures
            s@ == self.text(),
    {
        match self {
            Fault::ZeroSides => String::from_str("Dice can't have 0 sides"),
            Fault::TooManyDice(max) => {
                let mut s = String::from_str("Exceed maximum allowed number of dices (");
                push_natural(&mut s, max);
                push_text(&mut s, ")");
                s
            },
            Fault::TooManySides(max) => {
                let mut s = String::from_str("Dice can't have more than ");
                push_natural(&mut s, max);
                s
            },
            Fault::NotEnoughDice => String::from_str("Not enough dice to keep or drop"),
            Fault::RepeatNotPositive => String::from_str("Can't repeat 0 times or negatively"),
            Fault::DivisionByZero => String::from_str("Can't divide by zero"),
            Fault::TooManyRolls(max) => {
                let mut s = String::from_str(
                    "Exceed maximum allowed number of explosions or rerolls (",
                );
                push_natural(&mut s, max);
                push_text(&mut s, ")");
                s
            },
            Fault::Overflow => String::from_str("Total is out of range"),
            Fault::ZeroNumber => String::from_str("Number can't be zero"),
            Fault::NotSingle => String::from_str("Not a single roll result"),
            Fault::NotOneRoll => String::from_str("Should have only one roll"),
            Fault::NotARoll => String::from_str("RollHistory must be a Roll variant"),
            Fault::NoDice => String::from_str("Should have at least one dice"),
        }
    }
}

/// Where and why an expression could not be read.
#[derive(Debug, Clone)]
pub struct SyntaxError {
    /// The number of characters before the place that could not be read.
    pub position: usize,
    /// What was expected there.
    pub description: String,
}

/// The error reported.
#[derive(Debug)]
pub enum RollError {
    /// The text is no expression.
    ParseError(SyntaxError),
    /// The expression asks for something that cannot be done; the `String`
    /// says what.
    ParamError(String),
}

/// An error as a mathematical value.
pub ghost enum Failure {
    /// The text could not be read at `position`.
    Parse { position: nat, description: Seq<char> },
    /// The expression was refused with this text.
    Param(Seq<char>),
}

impl View for RollError {
    type V = Failure;

    open spec fn view(&self) -> Failure {
        match *self {
            RollError::ParseError(e) => Failure::Parse {
                position: e.position as nat,
                description: e.description@,
            },
            RollError::ParamError(s) => Failure::Param(s@),
        }
    }
}

impl RollError {
    /// The error that reports `fault`.
    pub fn refuse(fault: Fault) -> (e: RollError)
        ensures
            e@ == Failure::Param(fault.text()),
    {
        RollError::ParamError(fault.message())
    }

    /// Whether this error reports `fault`.
    pub open spec fn reports(&self, fault: Fault) -> bool {
        self@ == Failure::Param(fault.text())
    }

    /// The text of the error.
    pub fn to_string(&self) -> (s: String)
        ensures
            self@ matches Failure::Param(t) ==> s@ == t,
            self@ matches Failure::Parse { description, .. } ==> s@ == description,
    {
        match self {
            RollError::ParseError(e) => e.description.clone(),
            RollError::ParamError(s) => s.clone(),
        }
    }
}

impl From<String> for RollError {
    fn from(e: String) -> (error: Self) {
        RollError::ParamError(e)
    }
}

impl FromSpecImpl<String> for RollError {
    open spec fn obeys_from_spec() -> bool {
        true
    }

    open spec fn from_spec(e: String) -> Self {
        RollError::ParamError(e)
    }
}

} // verus!
