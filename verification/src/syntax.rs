//! The syntax tree of an expression.

use crate::number::{Decimal, Operator};
use vstd::prelude::*;

verus! {

/// What follows the sides of a dice term, such as `e6` or `K2`.
#[derive(Debug, Clone)]
pub enum Modifier {
    /// `e#`: the dice at or over the number explode once. Without a number,
    /// the number of sides is taken.
    Explode(Option<u64>),
    /// `ie#` or `!#`: the dice at or over the number explode again and again.
    IndefiniteExplode(Option<u64>),
    /// `r#`: each die at or under the number is rolled again, once.
    Reroll(u64),
    /// `ir#`: each die is rolled again until it is over the number.
    IndefiniteReroll(u64),
    /// `K#`: keep that many of the highest dice.
    KeepHi(u64),
    /// `k#`: keep that many of the lowest dice.
    KeepLo(u64),
    /// `D#`: drop that many of the highest dice.
    DropHi(u64),
    /// `d#`: drop that many of the lowest dice.
    DropLo(u64),
    /// `t#`: a die at or over the number is a success.
    Target(u64),
    /// `t[#, #]`: a die that shows one of the numbers is a success.
    TargetEnum(Vec<u64>),
    /// `tt#`: a die at or over the number is two successes.
    DoubleTarget(u64),
    /// `f#`: a die at or under the number is a failure.
    Failure(u64),
}

/// The sides of the dice of a term.
#[derive(Debug, Clone, Copy, PartialEq, Eq, Structural)]
pub enum Sides {
    /// Dice with that many sides.
    Number(u64),
    /// Fudge dice: six sides that count -1, 0 or 1.
    Fudge,
}

/// A dice term: `3d6`, `d20`, `4dF`, `10d10 t7 tt9`.
#[derive(Debug, Clone)]
pub struct Dice {
    /// The number of dice; one where it is left out.
    pub count: Option<u64>,
    /// The sides of each die.
    pub sides: Sides,
    /// The modifiers, in the order in which they were written.
    pub modifiers: Vec<Modifier>,
    /// Where the term starts in the text it was read from: the number of
    /// characters before it. Zero for a term that was not read from a text.
    pub start: usize,
    /// Where the term ends in the text it was read from: the number of
    /// characters before its end. Zero for a term that was not read from a
    /// text.
    pub end: usize,
}

/// One operand of an expression.
#[derive(Debug)]
pub enum Operand {
    /// An integer constant.
    Integer(i64),
    /// A decimal constant.
    Decimal(Decimal),
    /// A dice term.
    Dice(Dice),
    /// An expression in parentheses.
    Block(Box<Expression>),
}

/// An expression: operands with operators between them, as written. `*` and
/// `/` bind tighter than `+` and `-`, and operators of one kind group from
/// the left.
#[derive(Debug)]
pub struct Expression {
    /// The first operand.
    pub first: Operand,
    /// Each further operand with the operator before it.
    pub rest: Vec<(Operator, Operand)>,
}

/// What becomes of the results of a repeated expression.
#[derive(Debug, Clone, Copy, PartialEq, Eq, Structural)]
pub enum Repetition {
    /// `^`: they are kept in the order in which they came.
    Plain,
    /// `^+`: their totals are summed as well.
    Sum,
    /// `^#`: they are ordered by their totals.
    Sort,
}

/// What is to be rolled.
#[derive(Debug)]
pub enum Roll {
    /// One expression.
    Single(Expression),
    /// An expression rolled several times over.
    Repeated { expression: Expression, how: Repetition, times: i64 },
}

/// A whole request: what is to be rolled, and the reason given for it.
#[derive(Debug)]
pub struct Command {
    /// What is to be rolled.
    pub roll: Roll,
    /// The text after the `:`, without the blanks around it.
    pub reason: Option<String>,
}

/// A [`Modifier`] as a mathematical value.
pub ghost enum ModifierView {
    Explode(Option<u64>),
    IndefiniteExplode(Option<u64>),
    Reroll(u64),
    IndefiniteReroll(u64),
    KeepHi(u64),
    KeepLo(u64),
    DropHi(u64),
    DropLo(u64),
    Target(u64),
    TargetEnum(Seq<u64>),
    DoubleTarget(u64),
    Failure(u64),
}

/// A [`Dice`] as a mathematical value.
pub ghost struct DiceView {
    pub count: Option<u64>,
    pub sides: Sides,
    pub modifiers: Seq<ModifierView>,
    pub start: usize,
    pub end: usize,
}

/// An [`Operand`] as a mathematical value.
pub ghost enum OperandView {
    Integer(i64),
    Decimal(Decimal),
    Dice(DiceView),
    Block(Box<ExpressionView>),
}

/// An [`Expression`] as a mathematical value.
pub ghost struct ExpressionView {
    pub first: OperandView,
    pub rest: Seq<(Operator, OperandView)>,
}

/// A [`Roll`] as a mathematical value.
pub ghost enum RollView {
    Single(ExpressionView),
    Repeated { expression: ExpressionView, how: Repetition, times: i64 },
}

/// A [`Command`] as a mathematical value.
pub ghost struct CommandView {
    pub roll: RollView,
    pub reason: Option<Seq<char>>,
}

impl View for Modifier {
    type V = ModifierView;

    open spec fn view(&self) -> ModifierView {
        match *self {
            Modifier::Explode(n) => ModifierView::Explode(n),
            Modifier::IndefiniteExplode(n) => ModifierView::IndefiniteExplode(n),
            Modifier::Reroll(n) => ModifierView::Reroll(n),
            Modifier::IndefiniteReroll(n) => ModifierView::IndefiniteReroll(n),
            Modifier::KeepHi(n) => ModifierView::KeepHi(n),
            Modifier::KeepLo(n) => ModifierView::KeepLo(n),
            Modifier::DropHi(n) => ModifierView::DropHi(n),
            Modifier::DropLo(n) => ModifierView::DropLo(n),
            Modifier::Target(n) => ModifierView::Target(n),
            Modifier::TargetEnum(list) => ModifierView::TargetEnum(list@),
            Modifier::DoubleTarget(n) => ModifierView::DoubleTarget(n),
            Modifier::Failure(n) => ModifierView::Failure(n),
        }
    }
}

/// The modifiers of a list as mathematical values.
pub open spec fn modifier_views(modifiers: Seq<Modifier>) -> Seq<ModifierView> {
    modifiers.map_values(|m: Modifier| m@)
}

impl View for Dice {
    type V = DiceView;

    open spec fn view(&self) -> DiceView {
        DiceView {
            count: self.count,
            sides: self.sides,
            modifiers: modifier_views(self.modifiers@),
            start: self.start,
            end: self.end,
        }
    }
}

/// The first `n` of the operands that follow the first of `e`, each with
/// its operator.
pub open spec fn rest_view(e: Expression, n: nat) -> Seq<(Operator, OperandView)>
    decreases e, n,
{
    if n == 0 || n > e.rest@.len() {
        Seq::empty()
    } else {
        rest_view(e, (n - 1) as nat).push((e.rest@[n - 1].0, operand_view(e.rest@[n - 1].1)))
    }
}

/// An operand as a mathematical value.
pub open spec fn operand_view(o: Operand) -> OperandView
    decreases o,
{
    match o {
        Operand::Integer(i) => OperandView::Integer(i),
        Operand::Decimal(d) => OperandView::Decimal(d),
        Operand::Dice(d) => OperandView::Dice(d@),
        Operand::Block(e) => OperandView::Block(Box::new(expression_view(*e))),
    }
}

/// An expression as a mathematical value.
pub open spec fn expression_view(e: Expression) -> ExpressionView
    decreases e, e.rest@.len() + 1,
{
    ExpressionView { first: operand_view(e.first), rest: rest_view(e, e.rest@.len()) }
}

impl View for Operand {
    type V = OperandView;

    open spec fn view(&self) -> OperandView {
        operand_view(*self)
    }
}

impl View for Expression {
    type V = ExpressionView;

    open spec fn view(&self) -> ExpressionView {
        expression_view(*self)
    }
}

impl View for Roll {
    type V = RollView;

    open spec fn view(&self) -> RollView {
        match *self {
            Roll::Single(e) => RollView::Single(e@),
            Roll::Repeated { expression, how, times } => RollView::Repeated {
                expression: expression@,
                how,
                times,
            },
        }
    }
}

impl View for Command {
    type V = CommandView;

    open spec fn view(&self) -> CommandView {
        CommandView {
            roll: self.roll@,
            reason: match self.reason {
                Some(s) => Some(s@),
                None => None,
            },
        }
    }
}

/// The operands that follow the first of an expression are, as values, its
/// operands one by one.
pub proof fn lemma_rest_view(e: Expression, n: nat)
    requires
        n <= e.rest@.len(),
    ensures
        rest_view(e, n).len() == n,
        forall|i: int|
            0 <= i < n ==> #[trigger] rest_view(e, n)[i] == (e.rest@[i].0, e.rest@[i].1@),
    decreases n,
{
    if n > 0 {
        lemma_rest_view(e, (n - 1) as nat);
    }
}

/// What the view of an expression holds.
pub proof fn lemma_expression_view(e: Expression)
    ensures
        e@.first == e.first@,
        e@.rest.len() == e.rest@.len(),
        forall|i: int|
            0 <= i < e.rest@.len() ==> #[trigger] e@.rest[i] == (e.rest@[i].0, e.rest@[i].1@),
{
    lemma_rest_view(e, e.rest@.len());
}

} // verus!
