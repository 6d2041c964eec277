//! The query and its evaluation.

use crate::engine::{
    compute, fair_dice, grown, lemma_asked_twice, lemma_fair_dice_more, lemma_grown_by,
    lemma_grown_twice, lemma_same_dice_none, lemma_tape, most_sides, since, yields,
};
use crate::error::{Failure, Fault, RollError};
use crate::grammar::{command, parse, Misread};
use crate::limits::Limits;
use crate::repeatedrollresult::{lemma_singles_push, singles, Repeated};
use crate::rollresult::{Outcome, RollResult, Rolled};
use crate::semantics::{
    expression_spec, ordered_by_total, repeats, repeats_asked, roll_asked, roll_spec, slot,
    sum_of_totals,
};
use crate::singlerollresult::{Single, SingleRollResult};
use crate::source::{Recorded, ReplaySource, ThreadRngSource};
use crate::syntax::{
    lemma_expression_view, Expression, ExpressionView, Operand, OperandView, Repetition, Roll,
    RollView,
};
use crate::text::{chars_of, string_of};
use vstd::prelude::*;
use vstd::string::*;

verus! {

/// The results in the order of their totals, the lowest first. Results with
/// equal totals stay in the order in which they came.
pub fn sort_by_total(results: Vec<SingleRollResult>) -> (out: Vec<SingleRollResult>)
    ensures
        singles(out@) == ordered_by_total(singles(results@)),
{
    let ghost all = singles(results@);
    let mut results = results;
    let mut out: Vec<SingleRollResult> = Vec::new();
    assert(all.skip(all.len() as int) =~= Seq::empty());
    assert(singles(out@) =~= Seq::empty());
    while results.len() > 0
        invariant
            results@.len() <= all.len(),
            singles(results@) == all.take(results@.len() as int),
            singles(out@) == ordered_by_total(all.skip(results@.len() as int)),
        decreases results.len(),
    {
        let ghost before = results@;
        let ghost later = singles(out@);
        let x = results.pop().unwrap();
        let ghost k = results@.len() as int;
        proof {
            assert(singles(before)[k] == x@);
            assert(all[k] == x@);
            assert(singles(results@) =~= all.take(k));
            assert(all.skip(k).skip(1) =~= all.skip(k + 1));
        }
        let total = x.get_total();
        let mut pos: usize = 0;
        assert(later.skip(0) =~= later);
        while pos < out.len() && out[pos].get_total() < total
            invariant
                pos <= out@.len(),
                later == singles(out@),
                slot(later, total) == pos + slot(later.skip(pos as int), total),
            decreases out.len() - pos,
        {
            assert(later.skip(pos as int)[0] == out@[pos as int]@);
            assert(later.skip(pos as int).skip(1) =~= later.skip(pos + 1));
            pos = pos + 1;
        }
        proof {
            if pos < out@.len() {
                assert(later.skip(pos as int)[0] == out@[pos as int]@);
            }
            assert(singles(out@.insert(pos as int, x)) =~= later.insert(pos as int, x@));
        }
        out.insert(pos, x);
    }
    assert(all.skip(0) =~= all);
    out
}

/// The sum of the totals of `results`, or nothing where it does not fit 64 bits.
pub fn sum_totals(results: &Vec<SingleRollResult>) -> (total: Option<i64>)
    ensures
        total == crate::number::checked(sum_of_totals(singles(results@))),
{
    let mut acc: i128 = 0;
    let mut i: usize = 0;
    assert(singles(results@).take(0) =~= Seq::empty());
    while i < results.len()
        invariant
            i <= results@.len(),
            acc == sum_of_totals(singles(results@).take(i as int)),
            -(i * 0x8000_0000_0000_0000) <= acc <= i * 0x8000_0000_0000_0000,
        decreases results.len() - i,
    {
        proof {
            let next = singles(results@).take(i + 1);
            assert(next.drop_last() =~= singles(results@).take(i as int));
            assert(next.last() == results@[i as int]@);
        }
        acc = acc + results[i].get_total() as i128;
        i = i + 1;
    }
    assert(singles(results@).take(results@.len() as int) =~= singles(results@));
    if acc < -0x8000_0000_0000_0000 || acc > 0x7fff_ffff_ffff_ffff {
        None
    } else {
        Some(acc as i64)
    }
}

/// Rolls `expression` `times` times over, and orders or sums the results as
/// `how` says.
pub fn process_repeated_expr<R: Recorded>(
    limits: Limits,
    expression: &Expression,
    how: Repetition,
    times: i64,
    rng: &mut R,
) -> (out: Result<RollResult, RollError>)
    ensures
        grown(old(rng).drawn(), final(rng).drawn()),
        fair_dice(
            old(rng).drawn(),
            final(rng).drawn(),
            old(rng).asked(),
            final(rng).asked(),
            most_sides(limits),
        ),
        forall|rest: Seq<u64>|
            {
                let expected = #[trigger] roll_spec(
                    limits,
                    (Roll::Repeated { expression: *expression, how, times })@,
                    since(old(rng).drawn(), final(rng).drawn()) + rest,
                );
                &&& outcome(out, expected.0)
                &&& expected.1 == rest
                &&& roll_asked(
                    limits,
                    (Roll::Repeated { expression: *expression, how, times })@,
                    since(old(rng).drawn(), final(rng).drawn()) + rest,
                ) == since(old(rng).asked(), final(rng).asked())
            },
        old(rng).script() matches Some(tape) ==> {
            let expected = roll_spec(
                limits,
                (Roll::Repeated { expression: *expression, how, times })@,
                tape,
            );
            outcome(out, expected.0) && final(rng).script() == Some(expected.1)
        },
        old(rng).script() is None ==> final(rng).script() is None,
{
    let ghost d0 = rng.drawn();
    let ghost a0 = rng.asked();
    let ghost s0 = rng.script();
    let ghost asked = (Roll::Repeated { expression: *expression, how, times })@;
    proof {
        lemma_grown_by(d0, Seq::empty());
        lemma_same_dice_none(d0, a0, most_sides(limits));
        lemma_grown_by(a0, Seq::empty());
        assert forall|rest: Seq<u64>| #[trigger] (since(d0, d0) + rest) == rest by {
            lemma_tape(Seq::empty(), Seq::empty(), rest);
        }
    }
    if times <= 0 {
        return Err(RollError::refuse(Fault::RepeatNotPositive));
    }
    let mut results: Vec<SingleRollResult> = Vec::new();
    let mut n: i64 = 0;
    proof {
        assert(singles(results@) =~= Seq::empty());
        assert forall|rest: Seq<u64>|
            repeats_asked(limits, expression@, times as nat, #[trigger] (since(d0, d0) + rest))
                == since(a0, a0) + repeats_asked(limits, expression@, times as nat, rest) by {
            lemma_asked_twice(a0, a0, a0, repeats_asked(limits, expression@, times as nat, rest));
        }
    }
    while n < times
        invariant
            0 <= n <= times,
            d0 == old(rng).drawn(),
            a0 == old(rng).asked(),
            s0 == old(rng).script(),
            grown(d0, rng.drawn()),
            fair_dice(d0, rng.drawn(), a0, rng.asked(), most_sides(limits)),
            s0 is None ==> rng.script() is None,
            s0 matches Some(tape) ==> rng.script() is Some && repeats(
                limits,
                expression@,
                times as nat,
                Seq::empty(),
                tape,
            ) == repeats(
                limits,
                expression@,
                (times - n) as nat,
                singles(results@),
                rng.script()->0,
            ),
            asked == (Roll::Repeated { expression: *expression, how, times })@,
            forall|rest: Seq<u64>|
                #[trigger] repeats(
                    limits,
                    expression@,
                    times as nat,
                    Seq::empty(),
                    since(d0, rng.drawn()) + rest,
                ) == repeats(limits, expression@, (times - n) as nat, singles(results@), rest)
                    && repeats_asked(
                    limits,
                    expression@,
                    times as nat,
                    since(d0, rng.drawn()) + rest,
                ) == since(a0, rng.asked()) + repeats_asked(
                    limits,
                    expression@,
                    (times - n) as nat,
                    rest,
                ),
        decreases times - n,
    {
        let ghost d1 = rng.drawn();
        let ghost a1 = rng.asked();
        let ghost s1 = rng.script();
        let ghost done = singles(results@);
        let one = compute(limits, expression, rng, false);
        let ghost drawn_here = since(d1, rng.drawn());
        proof {
            lemma_grown_twice(d0, d1, rng.drawn());
            lemma_fair_dice_more(d0, d1, rng.drawn(), a0, a1, rng.asked(), most_sides(limits));
            if s1 is Some {
                let expected = expression_spec(limits, expression@, s1->0);
                assert(rng.script() == Some(expected.1));
            }
        }
        match one {
            Ok(r) => {
                proof {
                    lemma_singles_push(results@, r);
                }
                results.push(r);
                proof {
                    assert forall|rest: Seq<u64>|
                        #[trigger] repeats(
                            limits,
                            expression@,
                            times as nat,
                            Seq::empty(),
                            since(d0, rng.drawn()) + rest,
                        ) == repeats(
                            limits,
                            expression@,
                            (times - (n + 1)) as nat,
                            singles(results@),
                            rest,
                        ) && repeats_asked(
                            limits,
                            expression@,
                            times as nat,
                            since(d0, rng.drawn()) + rest,
                        ) == since(a0, rng.asked()) + repeats_asked(
                            limits,
                            expression@,
                            (times - (n + 1)) as nat,
                            rest,
                        ) by {
                        lemma_tape(since(d0, d1), drawn_here, rest);
                        lemma_asked_twice(
                            a0,
                            a1,
                            rng.asked(),
                            repeats_asked(limits, expression@, (times - (n + 1)) as nat, rest),
                        );
                        assert(repeats(
                            limits,
                            expression@,
                            times as nat,
                            Seq::empty(),
                            since(d0, d1) + (drawn_here + rest),
                        ) == repeats(
                            limits,
                            expression@,
                            (times - n) as nat,
                            done,
                            drawn_here + rest,
                        ));
                        assert(expression_spec(limits, expression@, drawn_here + rest).1 == rest);
                    }
                }
            },
            Err(e) => {
                let out: Result<RollResult, RollError> = Err(e);
                proof {
                    assert forall|rest: Seq<u64>|
                        {
                            let expected = #[trigger] roll_spec(
                                limits,
                                asked,
                                since(d0, rng.drawn()) + rest,
                            );
                            &&& outcome(out, expected.0)
                            &&& expected.1 == rest
                            &&& roll_asked(limits, asked, since(d0, rng.drawn()) + rest) == since(
                                a0,
                                rng.asked(),
                            )
                        } by {
                        lemma_tape(since(d0, d1), drawn_here, rest);
                        lemma_asked_twice(a0, a1, rng.asked(), Seq::empty());
                        assert(since(a0, rng.asked()) + Seq::<u64>::empty() =~= since(
                            a0,
                            rng.asked(),
                        ));
                        assert(repeats(
                            limits,
                            expression@,
                            times as nat,
                            Seq::empty(),
                            since(d0, d1) + (drawn_here + rest),
                        ) == repeats(
                            limits,
                            expression@,
                            (times - n) as nat,
                            done,
                            drawn_here + rest,
                        ));
                        assert(expression_spec(limits, expression@, drawn_here + rest).1 == rest);
                    }
                }
                return out;
            },
        }
        n = n + 1;
    }
    let ghost rolled = singles(results@);
    let out = match how {
        Repetition::Plain => Ok(RollResult::new_repeated(results, None)),
        Repetition::Sort => Ok(RollResult::new_repeated(sort_by_total(results), None)),
        Repetition::Sum => match sum_totals(&results) {
            Some(total) => Ok(RollResult::new_repeated(results, Some(total))),
            None => Err(RollError::refuse(Fault::Overflow)),
        },
    };
    proof {
        assert forall|rest: Seq<u64>|
            {
                let expected = #[trigger] roll_spec(limits, asked, since(d0, rng.drawn()) + rest);
                &&& outcome(out, expected.0)
                &&& expected.1 == rest
                &&& roll_asked(limits, asked, since(d0, rng.drawn()) + rest) == since(
                    a0,
                    rng.asked(),
                )
            } by {
            assert(since(a0, rng.asked()) + Seq::<u64>::empty() =~= since(a0, rng.asked()));
            assert(repeats(
                limits,
                expression@,
                times as nat,
                Seq::empty(),
                since(d0, rng.drawn()) + rest,
            ) == (Ok::<Seq<Single>, Fault>(rolled), rest));
        }
    }
    out
}

/// Whether `out` holds what was `expected` to be rolled, without a reason,
/// or reports the fault `expected`.
pub open spec fn outcome(
    out: Result<RollResult, RollError>,
    expected: Result<Rolled, Fault>,
) -> bool {
    match expected {
        Ok(rolled) => out matches Ok(o) && o@.result == rolled && o@.reason is None,
        Err(f) => out matches Err(e) && e.reports(f),
    }
}

/// Rolls what `roll` asks for.
pub fn evaluate<R: Recorded>(limits: Limits, roll: &Roll, rng: &mut R) -> (out: Result<
    RollResult,
    RollError,
>)
    ensures
        grown(old(rng).drawn(), final(rng).drawn()),
        fair_dice(
            old(rng).drawn(),
            final(rng).drawn(),
            old(rng).asked(),
            final(rng).asked(),
            most_sides(limits),
        ),
        forall|rest: Seq<u64>|
            {
                let expected = #[trigger] roll_spec(
                    limits,
                    roll@,
                    since(old(rng).drawn(), final(rng).drawn()) + rest,
                );
                &&& outcome(out, expected.0)
                &&& expected.1 == rest
                &&& roll_asked(
                    limits,
                    roll@,
                    since(old(rng).drawn(), final(rng).drawn()) + rest,
                ) == since(old(rng).asked(), final(rng).asked())
            },
        old(rng).script() matches Some(tape) ==> {
            let expected = roll_spec(limits, roll@, tape);
            outcome(out, expected.0) && final(rng).script() == Some(expected.1)
        },
        old(rng).script() is None ==> final(rng).script() is None,
{
    let ghost d0 = rng.drawn();
    let ghost a0 = rng.asked();
    match roll {
        Roll::Single(e) => {
            let out = match compute(limits, e, rng, false) {
                Ok(r) => Ok(RollResult::new_single(r)),
                Err(e) => Err(e),
            };
            proof {
                assert forall|rest: Seq<u64>|
                    {
                        let expected = #[trigger] roll_spec(
                            limits,
                            roll@,
                            since(d0, rng.drawn()) + rest,
                        );
                        &&& outcome(out, expected.0)
                        &&& expected.1 == rest
                        &&& roll_asked(limits, roll@, since(d0, rng.drawn()) + rest) == since(
                            a0,
                            rng.asked(),
                        )
                    } by {
                    assert(expression_spec(limits, e@, since(d0, rng.drawn()) + rest).1 == rest);
                }
            }
            out
        },
        Roll::Repeated { expression, how, times } => process_repeated_expr(
            limits,
            expression,
            *how,
            *times,
            rng,
        ),
    }
}

/// The sign that stands before the reason of a roll.
pub const REASON_CHAR: char = ':';

/// An object holding the query.
#[derive(Clone, Debug)]
pub struct Roller(String, Limits);

impl View for Roller {
    type V = Seq<char>;

    closed spec fn view(&self) -> Seq<char> {
        self.0@
    }
}

/// What a text yields when it is rolled: the text is read as a command, and
/// what the command asks for is rolled. A text that cannot be read is
/// reported with the place, and rolls nothing. The reason of the command goes
/// with what was rolled.
pub open spec fn request_spec(limits: Limits, text: Seq<char>, tape: Seq<u64>) -> (
    Result<Outcome, Failure>,
    Seq<u64>,
) {
    match command(text) {
        Ok(c) => match roll_spec(limits, c.roll, tape) {
            (Ok(rolled), rest) => (Ok(Outcome { result: rolled, reason: c.reason }), rest),
            (Err(f), rest) => (Err(Failure::Param(f.text())), rest),
        },
        Err(m) => (
            Err(Failure::Parse { position: m.position, description: m.description }),
            tape,
        ),
    }
}

/// Whether `out` is the outcome `expected`, or the error `expected`.
pub open spec fn told(
    out: Result<RollResult, RollError>,
    expected: Result<Outcome, Failure>,
) -> bool {
    match expected {
        Ok(o) => out matches Ok(r) && r@ == o,
        Err(f) => out matches Err(e) && e@ == f,
    }
}

/// The dice that a text asks for when it is rolled, each by the number of
/// its sides, in the order in which it asks. A text that cannot be read asks
/// for none.
pub open spec fn request_asked(limits: Limits, text: Seq<char>, tape: Seq<u64>) -> Seq<u64> {
    match command(text) {
        Ok(c) => roll_asked(limits, c.roll, tape),
        Err(_) => Seq::empty(),
    }
}

/// Whether `out` is what `text` yields from `faces`, the faces of dice with
/// `sides` sides each: one die for each face, none with more sides than the
/// bounds allow, each face one that its die can show, and no face that
/// might follow them taken. The dice are those that the text asks for.
pub open spec fn thrown(
    limits: Limits,
    text: Seq<char>,
    out: Result<RollResult, RollError>,
    faces: Seq<u64>,
    sides: Seq<u64>,
) -> bool {
    &&& faces.len() == sides.len()
    &&& forall|i: int|
        0 <= i < faces.len() ==> 1 <= #[trigger] faces[i] <= sides[i] <= most_sides(limits)
    &&& forall|rest: Seq<u64>|
        {
            let expected = #[trigger] request_spec(limits, text, faces + rest);
            &&& told(out, expected.0)
            &&& expected.1 == rest
            &&& request_asked(limits, text, faces + rest) == sides
        }
}

/// The text before the first `c` from `pos` on; all of it if there is none.
pub open spec fn cut_at(s: Seq<char>, pos: nat, c: char) -> Seq<char>
    decreases s.len() - pos,
{
    if pos >= s.len() {
        s
    } else if s[pos as int] == c {
        s.take(pos as int)
    } else {
        cut_at(s, pos + 1, c)
    }
}

/// The text of an operand that is a dice term, as it stands in `s`.
pub open spec fn dice_text(s: Seq<char>, o: OperandView) -> Option<Seq<char>> {
    match o {
        OperandView::Dice(d) => if d.start <= d.end <= s.len() {
            Some(s.subrange(d.start as int, d.end as int))
        } else {
            None
        },
        _ => None,
    }
}

/// `texts` with the text of `o` behind them, if `o` is a dice term.
pub open spec fn with_dice(texts: Seq<Seq<char>>, s: Seq<char>, o: OperandView) -> Seq<Seq<char>> {
    match dice_text(s, o) {
        Some(t) => texts.push(t),
        None => texts,
    }
}

/// The texts of the dice terms among the first operand of `e` and the `n`
/// that follow it, in order. Dice terms in parentheses are not among them.
pub open spec fn dice_texts(s: Seq<char>, e: ExpressionView, n: nat) -> Seq<Seq<char>>
    decreases n,
{
    if n == 0 || n > e.rest.len() {
        with_dice(Seq::empty(), s, e.first)
    } else {
        with_dice(dice_texts(s, e, (n - 1) as nat), s, e.rest[n - 1].1)
    }
}

/// The dice terms of a text: of a single expression all that stand outside
/// parentheses, of a repeated expression the first of them.
pub open spec fn dices_spec(s: Seq<char>) -> Result<Seq<Seq<char>>, Misread> {
    match command(s) {
        Ok(c) => match c.roll {
            RollView::Single(e) => Ok(dice_texts(s, e, e.rest.len())),
            RollView::Repeated { expression, .. } => {
                let all = dice_texts(s, expression, expression.rest.len());
                if all.len() > 0 {
                    Ok(seq![all[0]])
                } else {
                    Ok(Seq::empty())
                }
            },
        },
        Err(m) => Err(m),
    }
}

/// The texts of a list.
pub open spec fn texts(list: Seq<String>) -> Seq<Seq<char>> {
    list.map_values(|t: String| t@)
}

/// Puts the text of `o` behind `found`, if `o` is a dice term.
fn note_dice(found: &mut Vec<String>, text: &Vec<char>, o: &Operand)
    ensures
        texts(final(found)@) == with_dice(texts(old(found)@), text@, o@),
{
    match o {
        Operand::Dice(d) => {
            if d.start <= d.end && d.end <= text.len() {
                let t = string_of(text, d.start, d.end);
                assert(texts(found@.push(t)) =~= texts(found@).push(t@));
                found.push(t);
            }
        },
        _ => {},
    }
}

/// The texts of the dice terms of `e` that stand outside parentheses.
fn dice_of_expression(text: &Vec<char>, e: &Expression) -> (found: Vec<String>)
    ensures
        texts(found@) == dice_texts(text@, e@, e@.rest.len()),
{
    let mut found: Vec<String> = Vec::new();
    proof {
        lemma_expression_view(*e);
        assert(texts(found@) =~= Seq::empty());
    }
    note_dice(&mut found, text, &e.first);
    let mut i: usize = 0;
    while i < e.rest.len()
        invariant
            i <= e.rest@.len(),
            texts(found@) == dice_texts(text@, e@, i as nat),
        decreases e.rest.len() - i,
    {
        proof {
            lemma_expression_view(*e);
        }
        note_dice(&mut found, text, &e.rest[i].1);
        i = i + 1;
    }
    proof {
        lemma_expression_view(*e);
    }
    found
}

impl Roller {
    /// Store the input
    ///
    /// It always returns `Ok(Self)`: the text is read when it is rolled.
    pub fn new(input: &str) -> (out: Result<Self, RollError>)
        ensures
            out matches Ok(r) && r@ == input@ && r.limits() == crate::limits::usual(),
    {
        Ok(Roller(String::from_str(input), Limits::default()))
    }

    /// The bounds within which the query is rolled.
    pub closed spec fn limits(&self) -> Limits {
        self.1
    }

    /// The bounds within which the query is rolled.
    pub fn get_limits(&self) -> (limits: Limits)
        ensures
            limits == self.limits(),
    {
        self.1
    }

    /// The same query, to be rolled within other bounds.
    pub fn with_limits(self, limits: Limits) -> (out: Self)
        ensures
            out@ == self@,
            out.limits() == limits,
    {
        Roller(self.0, limits)
    }

    /// Evaluate and roll the dices with the random generator of the thread.
    ///
    /// There are faces, and a die for each, such that the dice are those
    /// that the text asks for, each face is one that its die can show, and
    /// what comes back is what the text yields from these faces.
    pub fn roll(&self) -> (out: Result<RollResult, RollError>)
        ensures
            exists|faces: Seq<u64>, sides: Seq<u64>|
                #[trigger] thrown(self.limits(), self@, out, faces, sides),
    {
        let mut source = ThreadRngSource::new();
        let out = self.roll_with_source(&mut source);
        proof {
            let faces = source.drawn();
            let sides = source.asked();
            assert(since(Seq::<u64>::empty(), faces) =~= faces);
            assert(since(Seq::<u64>::empty(), sides) =~= sides);
            assert(thrown(self.limits(), self@, out, faces, sides));
        }
        out
    }

    /// Evaluate and roll the dice with provided dice roll source
    ///
    /// The source is asked for exactly the dice that the text asks for, one
    /// after the other, each of the sides of its term, and each face that it
    /// shows is one that its die can show. What comes back is what the text
    /// yields from the faces that the source showed: whatever faces might
    /// follow them, none would be taken. Of a source that follows a list of
    /// faces, it is what the text yields from that list, and the source is
    /// left with what the text did not take.
    ///
    /// A source that only rolls, a [`DiceRollSource`](crate::DiceRollSource),
    /// is handed over as a [`Recorder`](crate::Recorder).
    pub fn roll_with_source<RNG: Recorded>(&self, rng: &mut RNG) -> (out: Result<
        RollResult,
        RollError,
    >)
        ensures
            grown(old(rng).drawn(), final(rng).drawn()),
            grown(old(rng).asked(), final(rng).asked()),
            thrown(
                self.limits(),
                self@,
                out,
                since(old(rng).drawn(), final(rng).drawn()),
                since(old(rng).asked(), final(rng).asked()),
            ),
            old(rng).script() matches Some(tape) ==> {
                let expected = request_spec(self.limits(), self@, tape);
                told(out, expected.0) && final(rng).script() == Some(expected.1)
            },
            old(rng).script() is None ==> final(rng).script() is None,
    {
        let ghost d0 = rng.drawn();
        let ghost a0 = rng.asked();
        proof {
            lemma_grown_by(d0, Seq::empty());
            lemma_grown_by(a0, Seq::empty());
            lemma_same_dice_none(d0, rng.asked(), most_sides(self.limits()));
            assert forall|rest: Seq<u64>| #[trigger] (since(d0, d0) + rest) == rest by {
                lemma_tape(Seq::empty(), Seq::empty(), rest);
            }
        }
        let parsed = match parse(self.0.as_str()) {
            Ok(c) => c,
            Err(e) => {
                return Err(e);
            },
        };
        let rolled = evaluate(self.1, &parsed.roll, rng);
        let out = match rolled {
            Ok(mut roll_res) => {
                match parsed.reason {
                    Some(reason) => {
                        roll_res.add_reason(reason);
                    },
                    None => {},
                }
                Ok(roll_res)
            },
            Err(e) => Err(e),
        };
        proof {
            assert forall|rest: Seq<u64>|
                {
                    let expected = #[trigger] request_spec(
                        self.limits(),
                        self@,
                        since(d0, rng.drawn()) + rest,
                    );
                    &&& told(out, expected.0)
                    &&& expected.1 == rest
                    &&& request_asked(self.limits(), self@, since(d0, rng.drawn()) + rest)
                        == since(a0, rng.asked())
                } by {
                assert(
                    roll_spec(self.limits(), parsed.roll@, since(d0, rng.drawn()) + rest).1 == rest
                );
            }
        }
        out
    }

    /// Evaluate the text on the faces of a list, one for each die in the
    /// order in which the dice are rolled.
    ///
    /// What comes back is what the text yields from the list: a face that a
    /// die cannot show counts as the nearest that it can, and a die for which
    /// the list holds no face shows a one.
    pub fn roll_replayed(&self, faces: Vec<u64>) -> (out: Result<RollResult, RollError>)
        ensures
            told(out, request_spec(self.limits(), self@, faces@).0),
    {
        let mut source = ReplaySource::new(faces);
        self.roll_with_source(&mut source)
    }

    /// Get the dices of the expression, as they are written
    ///
    /// For `1d6 + 1d4 + 1d10 + 1d20` these are `1d6`, `1d4`, `1d10` and
    /// `1d20`. Dice in parentheses are left out, and of a repeated expression
    /// only the first dice term is given.
    pub fn dices(&self) -> (out: Result<Dices, RollError>)
        ensures
            match dices_spec(self@) {
                Ok(found) => out matches Ok(list) && list@ == found,
                Err(m) => out matches Err(e) && e@ == (Failure::Parse {
                    position: m.position,
                    description: m.description,
                }),
            },
    {
        let parsed = match parse(self.0.as_str()) {
            Ok(c) => c,
            Err(e) => {
                return Err(e);
            },
        };
        let text = chars_of(self.0.as_str());
        match &parsed.roll {
            Roll::Single(e) => Ok(Dices::new(dice_of_expression(&text, e))),
            Roll::Repeated { expression, .. } => {
                let mut all = dice_of_expression(&text, expression);
                let ghost before = texts(all@);
                all.truncate(1);
                assert(texts(all@) =~= if before.len() > 0 {
                    seq![before[0]]
                } else {
                    Seq::empty()
                });
                Ok(Dices::new(all))
            },
        }
    }

    /// Give back the query string
    pub fn as_str(&self) -> (s: &str)
        ensures
            s@ == self@,
    {
        self.0.as_str()
    }

    /// Removes the reason from the Roller: what stands from the first `:` on.
    pub fn trim_reason(&mut self)
        ensures
            final(self)@ == cut_at(old(self)@, 0, REASON_CHAR),
            final(self).limits() == old(self).limits(),
    {
        let text = chars_of(self.0.as_str());
        let mut idx: usize = 0;
        while idx < text.len() && text[idx] != REASON_CHAR
            invariant
                idx <= text@.len(),
                cut_at(text@, 0, REASON_CHAR) == cut_at(text@, idx as nat, REASON_CHAR),
            decreases text.len() - idx,
        {
            idx = idx + 1;
        }
        if idx < text.len() {
            self.0 = string_of(&text, 0, idx);
        }
    }
}

/// The dices of an expression, one after the other.
///
/// See [`Roller::dices()`]
pub struct Dices {
    found: Vec<String>,
    at: usize,
}

impl View for Dices {
    type V = Seq<Seq<char>>;

    /// The dices that are still to come.
    closed spec fn view(&self) -> Seq<Seq<char>> {
        if self.at <= self.found@.len() {
            texts(self.found@).skip(self.at as int)
        } else {
            Seq::empty()
        }
    }
}

impl Dices {
    /// The dices `found`, none of them given yet.
    pub fn new(found: Vec<String>) -> (dices: Self)
        ensures
            dices@ == texts(found@),
    {
        let dices = Dices { found, at: 0 };
        assert(texts(dices.found@).skip(0) =~= texts(dices.found@));
        dices
    }

    /// The next dice, if there is one left.
    pub fn next(&mut self) -> (dice: Option<String>)
        ensures
            match dice {
                Some(text) => old(self)@.len() > 0 && text@ == old(self)@[0] && final(self)@
                    == old(self)@.skip(1),
                None => old(self)@.len() == 0 && final(self)@ == old(self)@,
            },
    {
        if self.at < self.found.len() {
            let text = self.found[self.at].clone();
            assert(texts(self.found@).skip(self.at as int).skip(1) =~= texts(self.found@).skip(
                self.at + 1,
            ));
            self.at = self.at + 1;
            Some(text)
        } else {
            None
        }
    }

    /// The number of dices that are left.
    pub fn len(&self) -> (n: usize)
        ensures
            n == self@.len(),
    {
        if self.at <= self.found.len() {
            self.found.len() - self.at
        } else {
            0
        }
    }
}

} // verus!
