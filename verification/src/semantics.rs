//! What an expression yields from the faces that its dice show.
//!
//! Every function here takes the faces that are still to come, the oldest
//! first, and returns what is left of them next to its result: the dice of an
//! expression take their faces from the front, in the order in which the
//! expression is evaluated.

use crate::diceresult::{die, DiceResult};
use crate::error::Fault;
use crate::limits::Limits;
use crate::number::{fits_i64, Decimal, Operator};
use crate::repeatedrollresult::Repeated;
use crate::rollhistory::{flat_values, Step, Value};
use crate::rollresult::Rolled;
use crate::singlerollresult::{batch, combined, dice_of, parenthesized, roll_total, Single};
use crate::sorting::ascending;
use crate::source::{dealt, left, next_face};
use crate::syntax::{
    DiceView, ExpressionView, ModifierView, OperandView, Repetition, RollView, Sides,
};
use crate::total::Strategy;
use vstd::prelude::*;

verus! {

/// A dice term while its modifiers are applied: the history so far, the
/// faces that the next modifier works on, and the way to the total.
pub ghost struct Term {
    pub history: Seq<Step>,
    pub faces: Seq<u64>,
    pub strategy: Strategy,
}

/// A result whose total has yet to be computed from `history`.
pub open spec fn pending(history: Seq<Step>) -> Single {
    Single { total: 0, history, dirty: true, constant: None }
}

/// The number of `faces` that are at least `value`.
pub open spec fn count_at_least(faces: Seq<u64>, value: u64) -> nat
    decreases faces.len(),
{
    if faces.len() == 0 {
        0
    } else {
        count_at_least(faces.drop_last(), value) + if faces.last() >= value {
            1nat
        } else {
            0nat
        }
    }
}

/// Whether one of `faces` is at most `value`.
pub open spec fn any_at_most(faces: Seq<u64>, value: u64) -> bool {
    exists|i: int| 0 <= i < faces.len() && faces[i] <= value
}

/// The threshold of an explosion: the number given, else the number of sides.
pub open spec fn threshold(given: Option<u64>, sides: u64) -> u64 {
    match given {
        Some(v) => v,
        None => sides,
    }
}

/// The history of a term with the faces that the term works on put there,
/// if nothing is there yet: the first modifier of a term finds the dice as
/// they were rolled, and records them.
pub open spec fn recorded(history: Seq<Step>, faces: Seq<u64>, sides: u64) -> Seq<Step> {
    if history.len() == 0 {
        history.push(batch(faces, sides, false))
    } else {
        history
    }
}

/// `e#`: as many new dice as there are faces at or over the threshold. The
/// new dice are added to the history as one batch, and the next modifier
/// works on them. If none explodes, the faces stay.
pub open spec fn explode_spec(
    sides: u64,
    given: Option<u64>,
    history: Seq<Step>,
    faces: Seq<u64>,
    tape: Seq<u64>,
) -> (Term, Seq<u64>) {
    let value = threshold(given, sides);
    let nb = count_at_least(faces, value);
    let history = recorded(history, faces, sides);
    if nb > 0 {
        let new = dealt(tape, nb, sides);
        (
            Term {
                history: history.push(batch(new, sides, false)),
                faces: new,
                strategy: Strategy::Sum,
            },
            left(tape, nb),
        )
    } else {
        (Term { history, faces, strategy: Strategy::Sum }, tape)
    }
}

/// The rounds of an indefinite explosion: while `nb` dice explode, `nb` new
/// dice are rolled, and those of them at or over `value` explode in the next
/// round. Returns the new dice of all rounds, in the order in which they
/// were rolled, and those of the last round. More than `fuel` rounds are a
/// fault.
pub open spec fn explosions(
    limits: Limits,
    sides: u64,
    value: u64,
    nb: nat,
    gathered: Seq<u64>,
    faces: Seq<u64>,
    fuel: nat,
    tape: Seq<u64>,
) -> (Result<(Seq<u64>, Seq<u64>), Fault>, Seq<u64>)
    decreases fuel,
{
    if nb == 0 {
        (Ok((gathered, faces)), tape)
    } else if fuel == 0 {
        (Err(Fault::TooManyRolls(limits.max_iterations)), tape)
    } else {
        let new = dealt(tape, nb, sides);
        explosions(
            limits,
            sides,
            value,
            count_at_least(new, value),
            gathered + new,
            new,
            (fuel - 1) as nat,
            left(tape, nb),
        )
    }
}

/// `ie#`: the rounds of explosions until no new die explodes. The new dice
/// of all rounds are added to the history as one batch, and the next modifier
/// works on those of the last round. If none explodes, the faces stay.
pub open spec fn indefinite_explode_spec(
    limits: Limits,
    sides: u64,
    given: Option<u64>,
    history: Seq<Step>,
    faces: Seq<u64>,
    tape: Seq<u64>,
) -> (Result<Term, Fault>, Seq<u64>) {
    let value = threshold(given, sides);
    let (rounds, rest) = explosions(
        limits,
        sides,
        value,
        count_at_least(faces, value),
        Seq::empty(),
        faces,
        limits.max_iterations as nat,
        tape,
    );
    match rounds {
        Ok((gathered, last)) => (
            Ok(
                Term {
                    history: if gathered.len() > 0 {
                        recorded(history, faces, sides).push(batch(gathered, sides, false))
                    } else {
                        recorded(history, faces, sides)
                    },
                    faces: last,
                    strategy: Strategy::Sum,
                },
            ),
            rest,
        ),
        Err(f) => (Err(f), rest),
    }
}

/// The faces after a reroll of `faces[i..]`, and for each die the faces it
/// showed in turn: a die at or under `value` takes the next face of the
/// tape.
pub open spec fn rerolls(
    sides: u64,
    value: u64,
    faces: Seq<u64>,
    i: nat,
    out: Seq<u64>,
    chains: Seq<Seq<DiceResult>>,
    tape: Seq<u64>,
) -> (Seq<u64>, Seq<Seq<DiceResult>>, Seq<u64>)
    decreases faces.len() - i,
{
    if i >= faces.len() {
        (out, chains, tape)
    } else if faces[i as int] <= value {
        rerolls(
            sides,
            value,
            faces,
            i + 1,
            out.push(next_face(tape, sides)),
            chains.push(seq![die(faces[i as int], sides), die(next_face(tape, sides), sides)]),
            left(tape, 1),
        )
    } else {
        rerolls(
            sides,
            value,
            faces,
            i + 1,
            out.push(faces[i as int]),
            chains.push(seq![die(faces[i as int], sides)]),
            tape,
        )
    }
}

/// The history after a reroll: if any die was rolled again, the faces that
/// every die showed in turn; then the faces that stand at the end, as a
/// batch.
pub open spec fn rerolled(
    history: Seq<Step>,
    sides: u64,
    any: bool,
    chains: Seq<Seq<DiceResult>>,
    out: Seq<u64>,
) -> Seq<Step> {
    if any {
        history.push(Step::ReRolls(chains)).push(batch(out, sides, false))
    } else {
        history.push(batch(out, sides, false))
    }
}

/// `r#`: each die at or under the number is rolled again, once.
pub open spec fn reroll_spec(
    sides: u64,
    value: u64,
    history: Seq<Step>,
    faces: Seq<u64>,
    tape: Seq<u64>,
) -> (Term, Seq<u64>) {
    let (out, chains, rest) = rerolls(sides, value, faces, 0, Seq::empty(), Seq::empty(), tape);
    (
        Term {
            history: rerolled(history, sides, any_at_most(faces, value), chains, out),
            faces: out,
            strategy: Strategy::Sum,
        },
        rest,
    )
}

/// The faces that a die shows in turn when it is rolled again while it is at
/// or under `value`, after those it has `shown`; nothing if it is rolled
/// more than `fuel` times.
pub open spec fn settled(
    limits: Limits,
    sides: u64,
    value: u64,
    shown: Seq<u64>,
    fuel: nat,
    tape: Seq<u64>,
) -> (
    Option<Seq<u64>>,
    Seq<u64>,
)
    decreases fuel,
{
    if shown.len() > 0 && shown.last() > value {
        (Some(shown), tape)
    } else if fuel == 0 {
        (None, tape)
    } else {
        settled(
            limits,
            sides,
            value,
            shown.push(next_face(tape, sides)),
            (fuel - 1) as nat,
            left(tape, 1),
        )
    }
}

/// The faces at which `faces[i..]` come to rest, after `out`, and for each
/// die the faces it showed in turn, after `chains`.
pub open spec fn indefinite_rerolls(
    limits: Limits,
    sides: u64,
    value: u64,
    faces: Seq<u64>,
    i: nat,
    out: Seq<u64>,
    chains: Seq<Seq<DiceResult>>,
    tape: Seq<u64>,
) -> (Result<(Seq<u64>, Seq<Seq<DiceResult>>), Fault>, Seq<u64>)
    decreases faces.len() - i,
{
    if i >= faces.len() {
        (Ok((out, chains)), tape)
    } else {
        match settled(
            limits,
            sides,
            value,
            seq![faces[i as int]],
            limits.max_iterations as nat,
            tape,
        ) {
            (Some(shown), rest) => indefinite_rerolls(
                limits,
                sides,
                value,
                faces,
                i + 1,
                out.push(shown.last()),
                chains.push(dice_of(shown, sides)),
                rest,
            ),
            (None, rest) => (Err(Fault::TooManyRolls(limits.max_iterations)), rest),
        }
    }
}

/// `ir#`: each die is rolled again until it is over the number. A die that
/// is rolled again more often than the bounds allow is a fault.
pub open spec fn indefinite_reroll_spec(
    limits: Limits,
    sides: u64,
    value: u64,
    history: Seq<Step>,
    faces: Seq<u64>,
    tape: Seq<u64>,
) -> (Result<Term, Fault>, Seq<u64>) {
    match indefinite_rerolls(limits, sides, value, faces, 0, Seq::empty(), Seq::empty(), tape) {
        (Ok((out, chains)), rest) => (
            Ok(
                Term {
                    history: rerolled(history, sides, any_at_most(faces, value), chains, out),
                    faces: out,
                    strategy: Strategy::Sum,
                },
            ),
            rest,
        ),
        (Err(f), rest) => (Err(f), rest),
    }
}

/// `K# k# D# d#`: the faces are added to the history if it is empty. More
/// dice than the history holds cannot be kept or dropped.
pub open spec fn keep_drop_spec(
    sides: u64,
    strategy: Strategy,
    n: u64,
    history: Seq<Step>,
    faces: Seq<u64>,
) -> Result<Term, Fault> {
    let history = recorded(history, faces, sides);
    if n > flat_values(history).len() {
        Err(Fault::NotEnoughDice)
    } else {
        Ok(Term { history, faces, strategy })
    }
}

/// `t# tt# f# t[#, #]`: the dice are not touched. They are added to the
/// history if it is empty.
pub open spec fn counted(
    sides: u64,
    strategy: Strategy,
    history: Seq<Step>,
    faces: Seq<u64>,
) -> Term {
    Term { history: recorded(history, faces, sides), faces, strategy }
}

/// A threshold of the successes: a number of zero stands for none.
pub open spec fn limit(n: u64) -> Option<u64> {
    if n > 0 {
        Some(n)
    } else {
        None
    }
}

/// What a modifier does by itself to the history and to the faces of a
/// term: the history and the faces after it, and the way to the total that
/// it asks for.
pub open spec fn modifier_spec(
    limits: Limits,
    sides: u64,
    m: ModifierView,
    history: Seq<Step>,
    faces: Seq<u64>,
    tape: Seq<u64>,
) -> (Result<Term, Fault>, Seq<u64>) {
    match m {
        ModifierView::Explode(given) => {
            let (next, rest) = explode_spec(sides, given, history, faces, tape);
            (Ok(next), rest)
        },
        ModifierView::IndefiniteExplode(given) => indefinite_explode_spec(
            limits,
            sides,
            given,
            history,
            faces,
            tape,
        ),
        ModifierView::Reroll(value) => {
            let (next, rest) = reroll_spec(sides, value, history, faces, tape);
            (Ok(next), rest)
        },
        ModifierView::IndefiniteReroll(value) => indefinite_reroll_spec(
            limits,
            sides,
            value,
            history,
            faces,
            tape,
        ),
        ModifierView::KeepHi(n) => (
            keep_drop_spec(sides, Strategy::KeepHi(n), n, history, faces),
            tape,
        ),
        ModifierView::KeepLo(n) => (
            keep_drop_spec(sides, Strategy::KeepLo(n), n, history, faces),
            tape,
        ),
        ModifierView::DropHi(n) => (
            keep_drop_spec(sides, Strategy::DropHi(n), n, history, faces),
            tape,
        ),
        ModifierView::DropLo(n) => (
            keep_drop_spec(sides, Strategy::DropLo(n), n, history, faces),
            tape,
        ),
        ModifierView::Target(n) => (
            Ok(
                counted(sides, Strategy::TargetFailureDouble(limit(n), None, None), history, faces),
            ),
            tape,
        ),
        ModifierView::TargetEnum(list) => (
            Ok(counted(sides, Strategy::TargetEnum(list), history, faces)),
            tape,
        ),
        ModifierView::DoubleTarget(n) => (
            Ok(
                counted(sides, Strategy::TargetFailureDouble(None, None, limit(n)), history, faces),
            ),
            tape,
        ),
        ModifierView::Failure(n) => (
            Ok(
                counted(sides, Strategy::TargetFailureDouble(None, limit(n), None), history, faces),
            ),
            tape,
        ),
    }
}

/// The faces that the next modifier works on: `faces` in rising order, and of
/// them those that the strategy keeps. A count over the number of faces keeps
/// all of them and drops none.
pub open spec fn working_set(strategy: Strategy, faces: Seq<u64>) -> Seq<u64> {
    let sorted = ascending(faces);
    let len = sorted.len() as int;
    match strategy {
        Strategy::KeepHi(n) => sorted.skip(
            len - if n > len {
                len
            } else {
                n as int
            },
        ),
        Strategy::KeepLo(n) => sorted.take(
            if n > len {
                len
            } else {
                n as int
            },
        ),
        Strategy::DropHi(n) => sorted.take(
            len - if n > len {
                0
            } else {
                n as int
            },
        ),
        Strategy::DropLo(n) => sorted.skip(
            if n > len {
                0
            } else {
                n as int
            },
        ),
        _ => sorted,
    }
}

/// `first` where it is set, else `later`.
pub open spec fn first_set(first: Option<u64>, later: Option<u64>) -> Option<u64> {
    if first is Some {
        first
    } else {
        later
    }
}

/// What a modifier asks for: what it does by itself, and of the faces after
/// it those that the next modifier works on.
pub open spec fn option_spec(
    limits: Limits,
    sides: u64,
    m: ModifierView,
    history: Seq<Step>,
    faces: Seq<u64>,
    tape: Seq<u64>,
) -> (Result<Term, Fault>, Seq<u64>) {
    match modifier_spec(limits, sides, m, history, faces, tape) {
        (Ok(a), rest) => (Ok(Term { faces: working_set(a.strategy, a.faces), ..a }), rest),
        (Err(f), rest) => (Err(f), rest),
    }
}

/// The way to the total after a modifier that asks for `asked`, `before`
/// being the way before it.
///
/// Targets, failures and double targets are gathered: of each, the first
/// that is set stands. Anything else replaces the way to the total: the
/// last of a list of targets and of thresholds stands alone, and a modifier
/// that rolls dice brings the plain sum back.
pub open spec fn merged(before: Strategy, asked: Strategy) -> Strategy {
    match (before, asked) {
        (
            Strategy::TargetFailureDouble(ot, of, od),
            Strategy::TargetFailureDouble(t, f, d),
        ) => Strategy::TargetFailureDouble(first_set(ot, t), first_set(of, f), first_set(od, d)),
        _ => asked,
    }
}

/// The term after one modifier.
pub open spec fn step_spec(
    limits: Limits,
    sides: u64,
    m: ModifierView,
    t: Term,
    tape: Seq<u64>,
) -> (
    Result<Term, Fault>,
    Seq<u64>,
) {
    match option_spec(limits, sides, m, t.history, t.faces, tape) {
        (Ok(asked), rest) => (
            Ok(Term { strategy: merged(t.strategy, asked.strategy), ..asked }),
            rest,
        ),
        (Err(f), rest) => (Err(f), rest),
    }
}

/// The term after the modifiers `modifiers[i..]`, from left to right.
pub open spec fn modifiers_spec(
    limits: Limits,
    sides: u64,
    modifiers: Seq<ModifierView>,
    i: nat,
    t: Term,
    tape: Seq<u64>,
) -> (Result<Term, Fault>, Seq<u64>)
    decreases modifiers.len() - i,
{
    if i >= modifiers.len() {
        (Ok(t), tape)
    } else {
        match step_spec(limits, sides, modifiers[i as int], t, tape) {
            (Ok(next), rest) => modifiers_spec(limits, sides, modifiers, i + 1, next, rest),
            (Err(f), rest) => (Err(f), rest),
        }
    }
}

/// The result with this history, its total computed under `strategy`.
pub open spec fn finished(strategy: Strategy, history: Seq<Step>) -> Result<Single, Fault> {
    match roll_total(strategy, history) {
        Ok(total) => Ok(Single { total, history, dirty: false, constant: None }),
        Err(f) => Err(f),
    }
}

/// The number of sides of the dice of a term: fudge dice have six.
pub open spec fn sides_of(sides: Sides) -> u64 {
    match sides {
        Sides::Number(n) => n,
        Sides::Fudge => 6,
    }
}

/// The number of dice of a term: one where none is given.
pub open spec fn count_of(count: Option<u64>) -> u64 {
    match count {
        Some(n) => n,
        None => 1,
    }
}

/// The fault in the numbers of a term, if there is one: more dice than
/// the bound where their number is given, no sides, or too many sides, in
/// this order.
pub open spec fn term_fault(limits: Limits, dice: DiceView) -> Option<Fault> {
    if dice.count is Some && dice.count->0 > limits.max_dice {
        Some(Fault::TooManyDice(limits.max_dice))
    } else if sides_of(dice.sides) == 0 {
        Some(Fault::ZeroSides)
    } else if sides_of(dice.sides) > limits.max_sides {
        Some(Fault::TooManySides(limits.max_sides))
    } else {
        None
    }
}

/// What a dice term yields.
///
/// A term with a fault in its numbers rolls nothing. Otherwise the dice are
/// rolled. Fudge dice take no modifier: their batch is the history, and they
/// are summed as fudge dice. For other dice the modifiers are applied from
/// left to right; without any, the batch is the history. The total is
/// computed from the history at the end.
pub open spec fn dice_spec(
    limits: Limits,
    dice: DiceView,
    tape: Seq<u64>,
) -> (Result<Single, Fault>, Seq<u64>) {
    let count = count_of(dice.count);
    let sides = sides_of(dice.sides);
    let faces = dealt(tape, count as nat, sides);
    let rest = left(tape, count as nat);
    if term_fault(limits, dice) is Some {
        (Err(term_fault(limits, dice)->0), tape)
    } else if dice.sides is Fudge {
        (finished(Strategy::Fudge, seq![batch(faces, sides, true)]), rest)
    } else if dice.modifiers.len() == 0 {
        (finished(Strategy::Sum, seq![batch(faces, sides, false)]), rest)
    } else {
        let start = Term { history: Seq::empty(), faces, strategy: Strategy::Sum };
        match modifiers_spec(limits, sides, dice.modifiers, 0, start, rest) {
            (Ok(t), left) => (finished(t.strategy, t.history), left),
            (Err(f), left) => (Err(f), left),
        }
    }
}

/// The result that stands for an integer constant.
pub open spec fn integer_spec(i: i64) -> Single {
    Single { total: i, history: seq![Step::Value(Value::Int(i))], dirty: false, constant: None }
}

/// The result that stands for a decimal constant.
pub open spec fn decimal_spec(d: Decimal) -> Single {
    Single {
        total: d.spec_trunc() as i64,
        history: seq![Step::Value(Value::Decimal(d))],
        dirty: false,
        constant: Some(d),
    }
}

/// Whether the operator binds tighter than `+` and `-`.
pub open spec fn binds_tighter(op: Operator) -> bool {
    op == Operator::Mul || op == Operator::Div
}

/// The sum so far with the product so far: `sum` holds what stands before
/// the last `+` or `-`, and that operator.
pub open spec fn folded(sum: Option<(Single, Operator)>, product: Single) -> Result<
    Single,
    Fault,
> {
    match sum {
        Some((s, op)) => combined(op, s, product),
        None => Ok(product),
    }
}

/// The result in parentheses, if it is that of a block.
pub open spec fn wrapped(r: Single, is_block: bool) -> Single {
    if is_block {
        Single { history: parenthesized(r.history), ..r }
    } else {
        r
    }
}

/// What an operand yields.
pub open spec fn operand_spec(
    limits: Limits,
    o: OperandView,
    tape: Seq<u64>,
) -> (Result<Single, Fault>, Seq<u64>)
    decreases o, 0nat,
{
    match o {
        OperandView::Integer(i) => (Ok(integer_spec(i)), tape),
        OperandView::Decimal(d) => (Ok(decimal_spec(d)), tape),
        OperandView::Dice(dice) => dice_spec(limits, dice, tape),
        OperandView::Block(e) => match expression_spec(limits, *e, tape) {
            (Ok(r), rest) => (Ok(wrapped(r, true)), rest),
            (Err(f), rest) => (Err(f), rest),
        },
    }
}

/// What an expression yields: its operands are evaluated from left to right,
/// `*` and `/` before `+` and `-`, and operators of one kind from the left.
/// The first fault ends the evaluation.
pub open spec fn expression_spec(limits: Limits, e: ExpressionView, tape: Seq<u64>) -> (
    Result<Single, Fault>,
    Seq<u64>,
)
    decreases e, e.rest.len() + 1,
{
    match operand_spec(limits, e.first, tape) {
        (Ok(v), rest) => climb(limits, e, 0, None, v, rest),
        (Err(f), rest) => (Err(f), rest),
    }
}

/// The sum and the product after the operator `op` and its right operand.
///
/// After `*` or `/` the operand is evaluated and joins the product. After
/// `+` or `-` the product joins the sum, and the operand starts a new
/// product.
pub open spec fn climb_step(
    limits: Limits,
    op: Operator,
    operand: OperandView,
    sum: Option<(Single, Operator)>,
    product: Single,
    tape: Seq<u64>,
) -> (Result<(Option<(Single, Operator)>, Single), Fault>, Seq<u64>)
    decreases operand, 1nat,
{
    if binds_tighter(op) {
        match operand_spec(limits, operand, tape) {
            (Ok(v), rest) => match combined(op, product, v) {
                Ok(p) => (Ok((sum, p)), rest),
                Err(f) => (Err(f), rest),
            },
            (Err(f), rest) => (Err(f), rest),
        }
    } else {
        match folded(sum, product) {
            Ok(s) => match operand_spec(limits, operand, tape) {
                (Ok(v), rest) => (Ok((Some((s, op)), v)), rest),
                (Err(f), rest) => (Err(f), rest),
            },
            Err(f) => (Err(f), tape),
        }
    }
}

/// What `e` yields from its operand `i` on, given the sum and the product
/// so far.
pub open spec fn climb(
    limits: Limits,
    e: ExpressionView,
    i: nat,
    sum: Option<(Single, Operator)>,
    product: Single,
    tape: Seq<u64>,
) -> (Result<Single, Fault>, Seq<u64>)
    decreases e, e.rest.len() - i,
{
    if i >= e.rest.len() {
        (folded(sum, product), tape)
    } else {
        match climb_step(limits, e.rest[i as int].0, e.rest[i as int].1, sum, product, tape) {
            (Ok((s, p)), rest) => climb(limits, e, i + 1, s, p, rest),
            (Err(f), rest) => (Err(f), rest),
        }
    }
}

/// The results of `times` more evaluations of `e`, after `done`.
pub open spec fn repeats(
    limits: Limits,
    e: ExpressionView,
    times: nat,
    done: Seq<Single>,
    tape: Seq<u64>,
) -> (
    Result<Seq<Single>, Fault>,
    Seq<u64>,
)
    decreases times,
{
    if times == 0 {
        (Ok(done), tape)
    } else {
        match expression_spec(limits, e, tape) {
            (Ok(r), rest) => repeats(limits, e, (times - 1) as nat, done.push(r), rest),
            (Err(f), rest) => (Err(f), rest),
        }
    }
}

/// The number of results at the front of `sorted` whose total is under
/// `total`.
pub open spec fn slot(sorted: Seq<Single>, total: i64) -> nat
    decreases sorted.len(),
{
    if sorted.len() == 0 || sorted[0].total >= total {
        0
    } else {
        1 + slot(sorted.skip(1), total)
    }
}

/// The results in the order of their totals, the lowest first; results with
/// equal totals stay in the order in which they came.
pub open spec fn ordered_by_total(rolls: Seq<Single>) -> Seq<Single>
    decreases rolls.len(),
{
    if rolls.len() == 0 {
        Seq::empty()
    } else {
        let later = ordered_by_total(rolls.skip(1));
        later.insert(slot(later, rolls[0].total) as int, rolls[0])
    }
}

/// The sum of the totals of `rolls`.
pub open spec fn sum_of_totals(rolls: Seq<Single>) -> int
    decreases rolls.len(),
{
    if rolls.len() == 0 {
        0
    } else {
        sum_of_totals(rolls.drop_last()) + rolls.last().total
    }
}

/// What becomes of the results of a repeated expression: `^#` orders them by
/// their totals, and `^+` sums their totals.
pub open spec fn repeated_spec(how: Repetition, rolls: Seq<Single>) -> Result<Repeated, Fault> {
    match how {
        Repetition::Plain => Ok(Repeated { rolls, total: None }),
        Repetition::Sort => Ok(Repeated { rolls: ordered_by_total(rolls), total: None }),
        Repetition::Sum => if fits_i64(sum_of_totals(rolls)) {
            Ok(Repeated { rolls, total: Some(sum_of_totals(rolls) as i64) })
        } else {
            Err(Fault::Overflow)
        },
    }
}

/// `n` dice of `sides` sides, as they are asked for.
pub open spec fn copies(n: nat, sides: u64) -> Seq<u64> {
    Seq::new(n, |i: int| sides)
}

/// The dice that a term asks for, each by the number of its sides: a die of
/// the sides of the term for each face that the term takes from the tape.
/// Meant for a tape that holds a face for each of them.
pub open spec fn dice_asked(limits: Limits, dice: DiceView, tape: Seq<u64>) -> Seq<u64> {
    let rest = dice_spec(limits, dice, tape).1;
    if rest.len() <= tape.len() {
        copies((tape.len() - rest.len()) as nat, sides_of(dice.sides))
    } else {
        Seq::empty()
    }
}

/// The dice that an operand asks for, in the order in which it asks.
pub open spec fn operand_asked(limits: Limits, o: OperandView, tape: Seq<u64>) -> Seq<u64>
    decreases o, 0nat,
{
    match o {
        OperandView::Dice(dice) => dice_asked(limits, dice, tape),
        OperandView::Block(e) => expression_asked(limits, *e, tape),
        _ => Seq::empty(),
    }
}

/// The dice that an expression asks for, in the order in which it asks:
/// those of its operands from left to right, up to the first fault.
pub open spec fn expression_asked(limits: Limits, e: ExpressionView, tape: Seq<u64>) -> Seq<u64>
    decreases e, e.rest.len() + 1,
{
    operand_asked(limits, e.first, tape) + match operand_spec(limits, e.first, tape) {
        (Ok(v), rest) => climb_asked(limits, e, 0, None, v, rest),
        (Err(_), _) => Seq::empty(),
    }
}

/// The dice that are asked for after the operator `op`: those of its right
/// operand, unless the sum so far is at fault before the operand is reached.
pub open spec fn step_asked(
    limits: Limits,
    op: Operator,
    operand: OperandView,
    sum: Option<(Single, Operator)>,
    product: Single,
    tape: Seq<u64>,
) -> Seq<u64>
    decreases operand, 1nat,
{
    if binds_tighter(op) || folded(sum, product) is Ok {
        operand_asked(limits, operand, tape)
    } else {
        Seq::empty()
    }
}

/// The dice that `e` asks for from its operand `i` on, given the sum and the
/// product so far.
pub open spec fn climb_asked(
    limits: Limits,
    e: ExpressionView,
    i: nat,
    sum: Option<(Single, Operator)>,
    product: Single,
    tape: Seq<u64>,
) -> Seq<u64>
    decreases e, e.rest.len() - i,
{
    if i >= e.rest.len() {
        Seq::empty()
    } else {
        step_asked(limits, e.rest[i as int].0, e.rest[i as int].1, sum, product, tape)
            + match climb_step(
            limits,
            e.rest[i as int].0,
            e.rest[i as int].1,
            sum,
            product,
            tape,
        ) {
            (Ok((s, p)), rest) => climb_asked(limits, e, i + 1, s, p, rest),
            (Err(_), _) => Seq::empty(),
        }
    }
}

/// The dice that `times` evaluations of `e` ask for.
pub open spec fn repeats_asked(
    limits: Limits,
    e: ExpressionView,
    times: nat,
    tape: Seq<u64>,
) -> Seq<u64>
    decreases times,
{
    if times == 0 {
        Seq::empty()
    } else {
        expression_asked(limits, e, tape) + match expression_spec(limits, e, tape) {
            (Ok(_), rest) => repeats_asked(limits, e, (times - 1) as nat, rest),
            (Err(_), _) => Seq::empty(),
        }
    }
}

/// The dice that a roll asks for, each by the number of its sides, in the
/// order in which it asks.
pub open spec fn roll_asked(limits: Limits, roll: RollView, tape: Seq<u64>) -> Seq<u64> {
    match roll {
        RollView::Single(e) => expression_asked(limits, e, tape),
        RollView::Repeated { expression, how, times } => if times <= 0 {
            Seq::empty()
        } else {
            repeats_asked(limits, expression, times as nat, tape)
        },
    }
}

/// What a roll yields. An expression that is repeated is evaluated as often
/// as asked, each time through all of its dice; fewer than one time is a
/// fault.
pub open spec fn roll_spec(
    limits: Limits,
    roll: RollView,
    tape: Seq<u64>,
) -> (Result<Rolled, Fault>, Seq<u64>) {
    match roll {
        RollView::Single(e) => match expression_spec(limits, e, tape) {
            (Ok(r), rest) => (Ok(Rolled::Single(r)), rest),
            (Err(f), rest) => (Err(f), rest),
        },
        RollView::Repeated { expression, how, times } => if times <= 0 {
            (Err(Fault::RepeatNotPositive), tape)
        } else {
            match repeats(limits, expression, times as nat, Seq::empty(), tape) {
                (Ok(rolls), rest) => match repeated_spec(how, rolls) {
                    Ok(r) => (Ok(Rolled::Repeated(r)), rest),
                    Err(f) => (Err(f), rest),
                },
                (Err(f), rest) => (Err(f), rest),
            }
        },
    }
}

} // verus!
