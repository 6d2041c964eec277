//! A dice roller library written in Rust (and also a card drawer).
//!
//! # Usage
//!
//! ```text
//! use caith::Roller;
//!
//! let result = Roller::new("1d6 : initiative").unwrap().roll().unwrap();
//! println!("{}", result.to_string());
//! ```
//!
//! # Syntax
//!
//! ```text
//! xdy [OPTIONS] [TARGET] [FAILURE] [: REASON]
//!
//! roll `x` dice(s) with `y` sides
//!
//! `y` can also be "F" or "f" for fudge dice, which take no option.
//!
//! Options:
//! + - / * : modifiers
//! e# : Explode value. If number is omitted, we use dice sides
//! ie# or !# : Indefinite explode value, If number is omitted, we use dice sides
//! K#  : Keeping # highest (upperacse "K")
//! k#  : Keeping # lowest (lowercase "k")
//! D#  : Dropping the highest (uppercase "D")
//! d#  : Dropping the lowest (lowercase "d")
//! r#  : Reroll if <= value
//! ir# : Indefinite reroll if <= value
//!
//! Target:
//! t#  : minimum value to count as success
//! tt# : minimum value to count as two successes
//! t[<list of numbers>] : enumeration of values considered as success
//!
//! Failure:
//! f# : value under which it's counted as failure
//!
//! Repetition:
//! a roll can be repeated with `^` operator: `(2d6 + 6) ^ 8` will roll eight times the expression.
//!
//! Summed repetition:
//! with the `^+` operator, the roll will be repeated and all the totals summed.
//!
//! Sorted repetition:
//! with the `^#` operator, the roll will be repeated and sorted by total.
//!
//! Reason:
//! : : Any text after `:` will be a comment
//! ```
//!
//! # How the crate is laid out
//!
//! [`grammar`] reads a text into the tree of [`syntax`]. [`semantics`] says,
//! as mathematical functions, what such a tree yields from the faces that its
//! dice show, and [`engine`] computes it while it asks a source of dice for
//! one die at a time, within the bounds of [`limits`]. A source keeps what
//! it was asked and what it showed, as [`Recorded`] says; [`source`] holds
//! the random one, one that replays a list of faces, and [`Recorder`], which
//! makes such a source of any [`DiceRollSource`]. The results,
//! with the history of every roll, are in [`singlerollresult`],
//! [`repeatedrollresult`] and [`rollresult`]; [`render`] says how they are
//! shown. [`laws`] holds what is proved of all of this together.
//!
//! Decimal constants such as `1.5` are kept exactly, as in [`number`]: an
//! operation that one of them takes part in is carried out on fractions, and
//! its result is cut off toward zero once.
//! A literal with more digits than [`number`] can keep is cut off behind
//! those that it can.

pub mod cards;
pub mod diceresult;
pub mod engine;
pub mod error;
pub mod grammar;
pub mod helpers;
pub mod laws;
pub mod lexer;
pub mod limits;
pub mod number;
pub mod render;
pub mod repeatedrollresult;
pub mod roller;
pub mod rollhistory;
pub mod rollresult;
pub mod semantics;
pub mod singlerollresult;
pub mod sorting;
pub mod source;
pub mod syntax;
pub mod text;
pub mod total;

pub use diceresult::{Critic, DiceResult};
pub use error::{Fault, RollError, SyntaxError};
pub use helpers::ova::compute_ova;
pub use limits::{Limits, MAX_DICE_SIDES, MAX_ITERATIONS, MAX_NUMBER_OF_DICE};
pub use number::{Decimal, Operator};
pub use repeatedrollresult::RepeatedRollResult;
pub use roller::{Dices, Roller};
pub use rollhistory::{RollHistory, Value};
pub use rollresult::{RollResult, RollResultType};
pub use singlerollresult::SingleRollResult;
pub use source::{DiceRollSource, Recorded, Recorder, ReplaySource, ThreadRngSource};
