//! The result of one expression.

use crate::diceresult::{die, DiceResult};
use crate::error::{Fault, RollError};
use crate::number::{checked, compute, fits_i64, operand, truncated, Decimal, Operator};
use crate::render::{history_text, single_text};
use crate::rollhistory::{flat_values, step_values, steps, RollHistory, Step, Value};
use crate::sorting::{ascending, descending, sort_ascending, sort_descending};
use crate::text::{push_integer, push_text};
use crate::total::{strategy_total, sum_points, Strategy, TotalModifier};
use vstd::prelude::*;
use vstd::string::*;

verus! {

/// Carry the result of one roll and an history of the steps taken.
///
/// Usually created through
/// [`RollResult::new_single()`](crate::RollResult::new_single).
#[derive(Debug, Clone)]
pub struct SingleRollResult {
    /// Result of the roll. Where a target or a failure is used, the number
    /// of successes less the number of failures.
    total: i64,
    /// History of the steps taken that lead to this result.
    history: Vec<RollHistory>,
    /// Whether the history has changed since the total was computed.
    dirty: bool,
    /// The decimal literal that this result stands for, if it is one.
    constant: Option<Decimal>,
}

/// A [`SingleRollResult`] as a mathematical value.
pub ghost struct Single {
    pub total: i64,
    pub history: Seq<Step>,
    pub dirty: bool,
    pub constant: Option<Decimal>,
}

/// The dice that show `faces`, each out of `sides`.
pub open spec fn dice_of(faces: Seq<u64>, sides: u64) -> Seq<DiceResult> {
    faces.map_values(|f: u64| die(f, sides))
}

/// The step that records a batch of dice with these faces, highest first.
pub open spec fn batch(faces: Seq<u64>, sides: u64, is_fudge: bool) -> Step {
    if is_fudge {
        Step::Fudge(descending(faces))
    } else {
        Step::Roll(dice_of(descending(faces), sides))
    }
}

/// The total of a history under a strategy: the values of the history, in
/// rising order, reduced as the strategy says. A fault where the strategy
/// keeps or drops more values than there are, or where the total does not fit
/// 64 bits.
pub open spec fn roll_total(strategy: Strategy, history: Seq<Step>) -> Result<i64, Fault> {
    match strategy_total(strategy, ascending(flat_values(history))) {
        Ok(v) => if fits_i64(v) {
            Ok(v as i64)
        } else {
            Err(Fault::Overflow)
        },
        Err(f) => Err(f),
    }
}

/// The operator as it is shown between two operands.
pub open spec fn symbol(op: Operator) -> Seq<char> {
    match op {
        Operator::Add => " + "@,
        Operator::Sub => " - "@,
        Operator::Mul => " * "@,
        Operator::Div => " / "@,
    }
}

/// The history of `l op r`: that of `l`, then the operator and the history of
/// `r`, unless `r` has none.
pub open spec fn joined(l: Seq<Step>, op: Operator, r: Seq<Step>) -> Seq<Step> {
    if r.len() > 0 {
        l.push(Step::Separator(symbol(op))) + r
    } else {
        l
    }
}

/// Whether the value that a result brings to arithmetic is zero.
pub open spec fn is_zero_spec(r: Single) -> bool {
    operand(r.total, r.constant).num == 0
}

/// The result of `l op r`. A division by a zero `r` is a fault, and so is a
/// total that does not fit 64 bits. Otherwise the total is the exact result
/// cut off toward zero, and the histories are joined.
pub open spec fn combined(op: Operator, l: Single, r: Single) -> Result<Single, Fault> {
    if op == Operator::Div && is_zero_spec(r) {
        Err(Fault::DivisionByZero)
    } else {
        match checked(truncated(op, operand(l.total, l.constant), operand(r.total, r.constant))) {
            Some(t) => Ok(
                Single {
                    total: t,
                    history: joined(l.history, op, r.history),
                    dirty: false,
                    constant: None,
                },
            ),
            None => Err(Fault::Overflow),
        }
    }
}

/// The history `h` between parentheses.
pub open spec fn parenthesized(h: Seq<Step>) -> Seq<Step> {
    seq![Step::OpenParenthesis] + h + seq![Step::CloseParenthesis]
}

pub proof fn lemma_steps_push(h: Seq<RollHistory>, x: RollHistory)
    ensures
        steps(h.push(x)) == steps(h).push(x@),
{
    assert(steps(h.push(x)) =~= steps(h).push(x@));
}

pub proof fn lemma_steps_concat(a: Seq<RollHistory>, b: Seq<RollHistory>)
    ensures
        steps(a + b) == steps(a) + steps(b),
{
    assert(steps(a + b) =~= steps(a) + steps(b));
}

pub proof fn lemma_flat_values_push(h: Seq<Step>, s: Step)
    ensures
        flat_values(h.push(s)) == flat_values(h) + step_values(s),
{
    assert(h.push(s).drop_last() =~= h);
}

/// `sign` where results are shown with emphasis, nothing where they are
/// not.
pub fn mark(md: bool, sign: &'static str) -> (out: &'static str)
    ensures
        out@ == if md {
            sign@
        } else {
            ""@
        },
{
    if md {
        sign
    } else {
        ""
    }
}

impl View for SingleRollResult {
    type V = Single;

    closed spec fn view(&self) -> Single {
        Single {
            total: self.total,
            history: steps(self.history@),
            dirty: self.dirty,
            constant: self.constant,
        }
    }
}

impl SingleRollResult {
    /// Create an empty `SingleRollResult`
    pub fn new() -> (r: Self)
        ensures
            r@ == (Single { total: 0, history: Seq::empty(), dirty: true, constant: None }),
    {
        let r = Self { total: 0, history: Vec::new(), dirty: true, constant: None };
        assert(steps(r.history@) =~= Seq::empty());
        r
    }

    /// Create a `SingleRollResult` with already a total. Used to carry constant value.
    pub fn with_total(total: i64) -> (r: Self)
        ensures
            r@ == (Single {
                total,
                history: seq![Step::Value(Value::Int(total))],
                dirty: false,
                constant: None,
            }),
    {
        let mut history = Vec::new();
        history.push(RollHistory::Value(Value::Int(total)));
        let r = Self { total, history, dirty: false, constant: None };
        assert(steps(r.history@) =~= seq![Step::Value(Value::Int(total))]);
        r
    }

    /// Create a `SingleRollResult` that stands for a decimal literal. Its
    /// total is the literal cut off toward zero.
    pub fn with_decimal(d: Decimal) -> (r: Self)
        ensures
            r@ == (Single {
                total: d.spec_trunc() as i64,
                history: seq![Step::Value(Value::Decimal(d))],
                dirty: false,
                constant: Some(d),
            }),
    {
        let mut history = Vec::new();
        history.push(RollHistory::Value(Value::Decimal(d)));
        let r = Self { total: d.trunc(), history, dirty: false, constant: Some(d) };
        assert(steps(r.history@) =~= seq![Step::Value(Value::Decimal(d))]);
        r
    }

    /// Create a `SingleRollResult` with a history and a total.
    pub fn with_total_and_hist(total: i64, history: Vec<DiceResult>) -> (r: Self)
        ensures
            r@ == (Single {
                total,
                history: seq![Step::Roll(history@)],
                dirty: false,
                constant: None,
            }),
    {
        let ghost dice = history@;
        let mut steps_taken = Vec::new();
        steps_taken.push(RollHistory::Roll(history));
        let r = Self { total, history: steps_taken, dirty: false, constant: None };
        assert(steps(r.history@) =~= seq![Step::Roll(dice)]);
        r
    }

    /// Get the history of the result
    pub fn get_history(&self) -> (h: &Vec<RollHistory>)
        ensures
            steps(h@) == self@.history,
    {
        &self.history
    }

    /// Add a batch of dice to the history, the highest face first. The total
    /// is stale from then on.
    pub fn add_history(&mut self, faces: &Vec<u64>, sides: u64, is_fudge: bool)
        ensures
            final(self)@ == (Single {
                history: old(self)@.history.push(batch(faces@, sides, is_fudge)),
                dirty: true,
                ..old(self)@
            }),
    {
        let sorted = sort_descending(faces);
        self.dirty = true;
        if is_fudge {
            proof {
                lemma_steps_push(self.history@, RollHistory::Fudge(sorted));
            }
            self.history.push(RollHistory::Fudge(sorted));
        } else {
            let mut dice: Vec<DiceResult> = Vec::new();
            let mut i: usize = 0;
            while i < sorted.len()
                invariant
                    i <= sorted@.len(),
                    dice@ =~= dice_of(sorted@.take(i as int), sides),
                decreases sorted.len() - i,
            {
                dice.push(DiceResult::new(sorted[i], sides));
                i = i + 1;
            }
            assert(sorted@.take(sorted@.len() as int) =~= sorted@);
            proof {
                lemma_steps_push(self.history@, RollHistory::Roll(dice));
            }
            self.history.push(RollHistory::Roll(dice));
        }
    }

    /// Add to the history, for each die of a reroll, the faces it showed in
    /// turn. The total is stale from then on.
    pub fn add_rerolled_history(&mut self, chains: Vec<Vec<DiceResult>>)
        ensures
            final(self)@ == (Single {
                history: old(self)@.history.push(RollHistory::ReRolls(chains)@),
                dirty: true,
                ..old(self)@
            }),
    {
        proof {
            lemma_steps_push(self.history@, RollHistory::ReRolls(chains));
        }
        self.dirty = true;
        self.history.push(RollHistory::ReRolls(chains));
    }

    /// Put the history between parentheses.
    pub fn add_parenthesis(&mut self)
        ensures
            final(self)@ == (Single { history: parenthesized(old(self)@.history), ..old(self)@ }),
    {
        let ghost before = self.history@;
        self.history.insert(0, RollHistory::OpenParenthesis);
        self.history.push(RollHistory::CloseParenthesis);
        assert(steps(self.history@) =~= parenthesized(steps(before)));
    }

    /// The values of the history, in order.
    fn values(&self) -> (flat: Vec<i64>)
        ensures
            flat@ == flat_values(self@.history),
    {
        let mut flat: Vec<i64> = Vec::new();
        let mut k: usize = 0;
        assert(steps(self.history@).take(0) =~= Seq::empty());
        while k < self.history.len()
            invariant
                k <= self.history@.len(),
                flat@ == flat_values(steps(self.history@).take(k as int)),
            decreases self.history.len() - k,
        {
            let ghost done = steps(self.history@).take(k as int);
            let ghost step = self.history@[k as int]@;
            proof {
                assert(steps(self.history@).take(k + 1) =~= done.push(step));
                lemma_flat_values_push(done, step);
            }
            match &self.history[k] {
                RollHistory::Roll(dice) => {
                    let mut i: usize = 0;
                    while i < dice.len()
                        invariant
                            i <= dice@.len(),
                            step == Step::Roll(dice@),
                            flat@ =~= flat_values(done) + step_values(step).take(i as int),
                        decreases dice.len() - i,
                    {
                        flat.push(dice[i].res as i64);
                        i = i + 1;
                    }
                    assert(step_values(step).take(dice@.len() as int) =~= step_values(step));
                },
                RollHistory::Fudge(faces) => {
                    let mut i: usize = 0;
                    while i < faces.len()
                        invariant
                            i <= faces@.len(),
                            step == Step::Fudge(faces@),
                            flat@ =~= flat_values(done) + step_values(step).take(i as int),
                        decreases faces.len() - i,
                    {
                        flat.push(faces[i] as i64);
                        i = i + 1;
                    }
                    assert(step_values(step).take(faces@.len() as int) =~= step_values(step));
                },
                RollHistory::Value(v) => {
                    flat.push(v.get_value());
                    assert(flat@ =~= flat_values(done) + step_values(step));
                },
                _ => {
                    assert(flat@ =~= flat_values(done) + step_values(step));
                },
            }
            k = k + 1;
        }
        assert(steps(self.history@).take(self.history@.len() as int) =~= steps(self.history@));
        flat
    }

    /// The number of values in the history.
    pub fn count_values(&self) -> (n: usize)
        ensures
            n == flat_values(self@.history).len(),
    {
        self.values().len()
    }

    /// Compute the total value according to some modifier.
    ///
    /// Where the history has not changed since the total was computed, the
    /// total is returned as it is. Otherwise it is computed from the history
    /// and kept, unless that is a fault.
    pub fn compute_total(&mut self, modifier: &TotalModifier) -> (out: Result<i64, RollError>)
        ensures
            final(self)@.history == old(self)@.history,
            final(self)@.constant == old(self)@.constant,
            !final(self)@.dirty,
            !old(self)@.dirty ==> out == Ok::<i64, RollError>(old(self)@.total) && final(self)@
                == old(self)@,
            old(self)@.dirty ==> match roll_total(modifier@, old(self)@.history) {
                Ok(v) => out == Ok::<i64, RollError>(v) && final(self)@.total == v,
                Err(f) => out matches Err(e) && e.reports(f) && final(self)@.total == old(
                    self,
                )@.total,
            },
    {
        if self.dirty {
            self.dirty = false;
            let flat = self.values();
            let sorted = sort_ascending(&flat);
            proof {
                crate::sorting::lemma_ascending(flat@);
            }
            let len = sorted.len();
            let (from, to): (usize, usize) = match modifier {
                TotalModifier::KeepHi(n) => {
                    if *n > len as u64 {
                        return Err(RollError::refuse(Fault::NotEnoughDice));
                    }
                    (len - *n as usize, len)
                },
                TotalModifier::KeepLo(n) => {
                    if *n > len as u64 {
                        return Err(RollError::refuse(Fault::NotEnoughDice));
                    }
                    (0, *n as usize)
                },
                TotalModifier::DropHi(n) => {
                    if *n > len as u64 {
                        return Err(RollError::refuse(Fault::NotEnoughDice));
                    }
                    (0, len - *n as usize)
                },
                TotalModifier::DropLo(n) => {
                    if *n > len as u64 {
                        return Err(RollError::refuse(Fault::NotEnoughDice));
                    }
                    (*n as usize, len)
                },
                _ => (0, len),
            };
            let total = sum_points(modifier, &sorted, from, to);
            if total < -0x8000_0000_0000_0000 || total > 0x7fff_ffff_ffff_ffff {
                return Err(RollError::refuse(Fault::Overflow));
            }
            self.total = total as i64;
        }
        Ok(self.total)
    }

    /// Get the result value
    pub fn get_total(&self) -> (t: i64)
        ensures
            t == self@.total,
    {
        self.total
    }

    /// Says if the used value for math operation is 0
    ///
    /// If there's a constant stored, we'll use it and if not, `total` is used instead
    pub fn is_zero(&self) -> (z: bool)
        ensures
            z == is_zero_spec(self@),
    {
        match self.constant {
            Some(c) => c.is_zero(),
            None => self.total == 0,
        }
    }

    /// Appends the history to `s`, as it is shown.
    pub fn push_history(&self, s: &mut String)
        ensures
            final(s)@ == old(s)@ + history_text(self@.history),
    {
        let mut k: usize = 0;
        let ghost all = steps(self.history@);
        assert(all.take(0) =~= Seq::empty());
        assert(s@ =~= old(s)@ + history_text(all.take(0)));
        while k < self.history.len()
            invariant
                k <= self.history@.len(),
                all == steps(self.history@),
                s@ == old(s)@ + history_text(all.take(k as int)),
            decreases self.history.len() - k,
        {
            self.history[k].push_to(s);
            proof {
                let next = all.take(k + 1);
                assert(next.drop_last() =~= all.take(k as int));
                assert(next.last() == self.history@[k as int]@);
                assert(s@ =~= old(s)@ + history_text(next));
            }
            k = k + 1;
        }
        assert(all.take(all.len() as int) =~= all);
    }

    /// Turn the vector of `RollHistory` to a `String`
    pub fn to_string_history(&self) -> (s: String)
        ensures
            s@ == history_text(self@.history),
    {
        let mut s = String::new();
        self.push_history(&mut s);
        assert(s@ =~= history_text(self@.history));
        s
    }

    /// Appends the result to `s`, as it is shown.
    pub fn push_to(&self, s: &mut String, md: bool)
        ensures
            final(s)@ == old(s)@ + single_text(self@, md),
    {
        let tick = mark(md, "`");
        let bold = mark(md, "**");
        push_text(s, tick);
        if self.history.len() == 0 {
            push_integer(s, self.total);
            push_text(s, tick);
        } else {
            self.push_history(s);
            push_text(s, tick);
            push_text(s, " = ");
            push_text(s, bold);
            push_integer(s, self.total);
            push_text(s, bold);
        }
        assert(s@ =~= old(s)@ + single_text(self@, md));
    }

    /// Turn the `RollResult` to a readable String, with or without markdown formatting.
    pub fn to_string(&self, md: bool) -> (s: String)
        ensures
            s@ == single_text(self@, md),
    {
        let mut s = String::new();
        self.push_to(&mut s, md);
        assert(s@ =~= single_text(self@, md));
        s
    }

    /// `self op rhs`: the histories are joined by the operator, and the
    /// total is the exact result cut off toward zero.
    pub fn combine(self, op: Operator, rhs: Self) -> (out: Result<Self, RollError>)
        ensures
            match combined(op, self@, rhs@) {
                Ok(r) => out matches Ok(o) && o@ == r,
                Err(f) => out matches Err(e) && e.reports(f),
            },
    {
        let is_div = match op {
            Operator::Div => true,
            _ => false,
        };
        if is_div && rhs.is_zero() {
            return Err(RollError::refuse(Fault::DivisionByZero));
        }
        let total = match compute(op, self.total, self.constant, rhs.total, rhs.constant) {
            Some(t) => t,
            None => {
                return Err(RollError::refuse(Fault::Overflow));
            },
        };
        let mut history = self.history;
        let mut other = rhs.history;
        let ghost l = history@;
        let ghost r = other@;
        if other.len() > 0 {
            let separator = match op {
                Operator::Add => RollHistory::Separator(" + "),
                Operator::Sub => RollHistory::Separator(" - "),
                Operator::Mul => RollHistory::Separator(" * "),
                Operator::Div => RollHistory::Separator(" / "),
            };
            assert(separator@ == Step::Separator(symbol(op)));
            history.push(separator);
            history.append(&mut other);
            proof {
                lemma_steps_push(l, separator);
                lemma_steps_concat(l.push(separator), r);
            }
        }
        Ok(SingleRollResult { total, history, dirty: false, constant: None })
    }

    /// `self + rhs`.
    pub fn add(self, rhs: Self) -> (out: Result<Self, RollError>)
        ensures
            match combined(Operator::Add, self@, rhs@) {
                Ok(r) => out matches Ok(o) && o@ == r,
                Err(f) => out matches Err(e) && e.reports(f),
            },
    {
        self.combine(Operator::Add, rhs)
    }

    /// `self - rhs`.
    pub fn sub(self, rhs: Self) -> (out: Result<Self, RollError>)
        ensures
            match combined(Operator::Sub, self@, rhs@) {
                Ok(r) => out matches Ok(o) && o@ == r,
                Err(f) => out matches Err(e) && e.reports(f),
            },
    {
        self.combine(Operator::Sub, rhs)
    }

    /// `self * rhs`.
    pub fn mul(self, rhs: Self) -> (out: Result<Self, RollError>)
        ensures
            match combined(Operator::Mul, self@, rhs@) {
                Ok(r) => out matches Ok(o) && o@ == r,
                Err(f) => out matches Err(e) && e.reports(f),
            },
    {
        self.combine(Operator::Mul, rhs)
    }

    /// `self / rhs`. A zero `rhs` is refused before anything is computed.
    pub fn div(self, rhs: Self) -> (out: Result<Self, RollError>)
        ensures
            match combined(Operator::Div, self@, rhs@) {
                Ok(r) => out matches Ok(o) && o@ == r,
                Err(f) => out matches Err(e) && e.reports(f),
            },
    {
        self.combine(Operator::Div, rhs)
    }
}

} // verus!
