//! The evaluation of an expression against a source of dice.
//!
//! Every function here that rolls dice says what it returns in the same way.
//! Take the faces that the source showed while the function ran, and put any
//! faces `rest` behind them: from that tape the function of
//! [`semantics`](crate::semantics) for the same thing yields what was
//! returned, and leaves `rest`. So the source is asked for exactly the dice
//! that are needed, and what is returned depends on nothing but the faces
//! that it showed.
//!
//! Each function also says which dice it asked for: one die for each face,
//! of the sides of the term that is rolled, and each face one that such a
//! die can show. And of a source that follows a tape it says that what is
//! returned is what the tape yields, and what the source is left with.

use crate::diceresult::{die, DiceResult};
use crate::error::{Fault, RollError};
use crate::limits::Limits;
use crate::number::Operator;
use crate::rollhistory::{chains_of, Step};
use crate::semantics::{
    any_at_most, climb, climb_asked, climb_step, copies, count_at_least, counted, dice_asked,
    dice_spec, explode_spec, explosions, expression_asked, expression_spec, folded,
    indefinite_explode_spec, indefinite_reroll_spec, indefinite_rerolls, keep_drop_spec, limit,
    merged, modifier_spec, modifiers_spec, operand_asked, operand_spec, option_spec, pending,
    recorded, reroll_spec, rerolls, settled, sides_of, step_asked, term_fault, threshold,
    working_set, wrapped, Term,
};
use crate::singlerollresult::{batch, dice_of, Single, SingleRollResult};
use crate::sorting::{lemma_ascending, sort_ascending};
use crate::source::{dealt, left, next_face, Recorded};
use crate::syntax::{lemma_expression_view, Dice, Expression, Modifier, Operand, Sides};
use crate::total::{Strategy, TotalModifier};
use vstd::prelude::*;

verus! {

/// The faces that were drawn between two states of a source, given what it
/// had drawn `before` and what it has drawn `after`.
pub open spec fn since(before: Seq<u64>, after: Seq<u64>) -> Seq<u64> {
    after.skip(before.len() as int)
}

/// Whether `after` is `before` with more faces behind it.
pub open spec fn grown(before: Seq<u64>, after: Seq<u64>) -> bool {
    after == before + since(before, after)
}

/// Whether `out`, with the history that was written, is the term `expected`
/// or reports the fault `expected`.
pub open spec fn agrees(
    out: Result<(TotalModifier, Vec<u64>), RollError>,
    history: Seq<Step>,
    expected: Result<Term, Fault>,
) -> bool {
    match expected {
        Ok(t) => out matches Ok(o) && t == (Term { history, faces: o.1@, strategy: o.0@ }),
        Err(f) => out matches Err(e) && e.reports(f),
    }
}

/// Whether `out` is the result `expected` or reports the fault `expected`.
pub open spec fn yields<T: View>(out: Result<T, RollError>, expected: Result<T::V, Fault>) -> bool {
    match expected {
        Ok(v) => out matches Ok(o) && o@ == v,
        Err(f) => out matches Err(e) && e.reports(f),
    }
}

/// What was drawn in two stretches, one after the other.
pub proof fn lemma_grown_twice(d0: Seq<u64>, d1: Seq<u64>, d2: Seq<u64>)
    requires
        grown(d0, d1),
        grown(d1, d2),
    ensures
        grown(d0, d2),
        since(d0, d2) == since(d0, d1) + since(d1, d2),
{
    assert(since(d0, d2) =~= since(d0, d1) + since(d1, d2));
    assert(d2 =~= d0 + since(d0, d2));
}

/// What was drawn where `more` came behind what had been drawn.
pub proof fn lemma_grown_by(d0: Seq<u64>, more: Seq<u64>)
    ensures
        grown(d0, d0 + more),
        since(d0, d0 + more) == more,
        grown(d0, d0),
        since(d0, d0) == Seq::<u64>::empty(),
{
    assert(since(d0, d0 + more) =~= more);
    assert(since(d0, d0) =~= Seq::<u64>::empty());
    assert(d0 + Seq::<u64>::empty() =~= d0);
}

/// The tape that starts with `a`, then `b`, then `rest`.
pub proof fn lemma_tape(a: Seq<u64>, b: Seq<u64>, rest: Seq<u64>)
    ensures
        (a + b) + rest == a + (b + rest),
        (b + rest).take(b.len() as int) == b,
        (b + rest).skip(b.len() as int) == rest,
        left(b + rest, b.len()) == rest,
        Seq::<u64>::empty() + rest == rest,
{
    assert((a + b) + rest =~= a + (b + rest));
    assert((b + rest).take(b.len() as int) =~= b);
    assert((b + rest).skip(b.len() as int) =~= rest);
    assert(Seq::<u64>::empty() + rest =~= rest);
}

/// Whether dice of `sides` sides can show each of `faces`.
pub open spec fn fitting(faces: Seq<u64>, sides: u64) -> bool {
    forall|i: int| 0 <= i < faces.len() ==> 1 <= #[trigger] faces[i] <= sides
}

/// Dice take from a tape the faces that it starts with, where they can show
/// them.
pub proof fn lemma_dealt(faces: Seq<u64>, rest: Seq<u64>, sides: u64)
    requires
        fitting(faces, sides),
    ensures
        dealt(faces + rest, faces.len(), sides) == faces,
        left(faces + rest, faces.len()) == rest,
        faces.len() == 1 ==> next_face(faces + rest, sides) == faces[0],
{
    assert(dealt(faces + rest, faces.len(), sides) =~= faces) by {
        assert forall|i: int| 0 <= i < faces.len() implies dealt(
            faces + rest,
            faces.len(),
            sides,
        )[i] == faces[i] by {
            assert((faces + rest)[i] == faces[i]);
        }
    }
    assert(left(faces + rest, faces.len()) =~= rest);
}

/// One face more is at most `value` if it is, or one before it was.
pub proof fn lemma_any_at_most_push(faces: Seq<u64>, x: u64, value: u64)
    ensures
        any_at_most(faces.push(x), value) == (any_at_most(faces, value) || x <= value),
{
    let more = faces.push(x);
    if any_at_most(faces, value) {
        let k = choose|k: int| 0 <= k < faces.len() && faces[k] <= value;
        assert(more[k] <= value);
    }
    if x <= value {
        assert(more[faces.len() as int] <= value);
    }
    if any_at_most(more, value) && x > value {
        let k = choose|k: int| 0 <= k < more.len() && more[k] <= value;
        assert(faces[k] <= value);
    }
}

/// Whether, between two states of a source, dice of `sides` sides were asked
/// for and no others: one for each face that was drawn, and each face one
/// that such a die can show. `drawn0` and `asked0` are what the source had
/// drawn and had been asked before, `drawn1` and `asked1` after.
pub open spec fn same_dice(
    drawn0: Seq<u64>,
    drawn1: Seq<u64>,
    asked0: Seq<u64>,
    asked1: Seq<u64>,
    sides: u64,
) -> bool {
    &&& grown(drawn0, drawn1)
    &&& asked1 == asked0 + copies(since(drawn0, drawn1).len(), sides)
    &&& fitting(since(drawn0, drawn1), sides)
}

/// The most sides of any die that is rolled within `limits`: fudge dice have
/// six.
pub open spec fn most_sides(limits: Limits) -> u64 {
    if limits.max_sides > 6 {
        limits.max_sides
    } else {
        6
    }
}

/// Whether, between two states of a source, one die was asked for each face
/// that was drawn, each of at most `most` sides, and each face is one that
/// its die can show.
pub open spec fn fair_dice(
    drawn0: Seq<u64>,
    drawn1: Seq<u64>,
    asked0: Seq<u64>,
    asked1: Seq<u64>,
    most: u64,
) -> bool {
    &&& grown(drawn0, drawn1)
    &&& grown(asked0, asked1)
    &&& since(asked0, asked1).len() == since(drawn0, drawn1).len()
    &&& forall|i: int|
        0 <= i < since(drawn0, drawn1).len() ==> 1 <= #[trigger] since(drawn0, drawn1)[i] <= since(
            asked0,
            asked1,
        )[i] <= most
}

/// A source that is not asked has been asked for no dice.
pub proof fn lemma_same_dice_none(drawn: Seq<u64>, asked: Seq<u64>, sides: u64)
    ensures
        same_dice(drawn, drawn, asked, asked, sides),
        fair_dice(drawn, drawn, asked, asked, sides),
{
    lemma_grown_by(drawn, Seq::empty());
    lemma_grown_by(asked, Seq::empty());
    assert(asked =~= asked + copies(0, sides));
}

/// Dice of the same sides asked for in two stretches, one after the other.
pub proof fn lemma_same_dice_more(
    drawn0: Seq<u64>,
    drawn1: Seq<u64>,
    drawn2: Seq<u64>,
    asked0: Seq<u64>,
    asked1: Seq<u64>,
    asked2: Seq<u64>,
    sides: u64,
)
    requires
        same_dice(drawn0, drawn1, asked0, asked1, sides),
        same_dice(drawn1, drawn2, asked1, asked2, sides),
    ensures
        same_dice(drawn0, drawn2, asked0, asked2, sides),
        since(drawn0, drawn2) == since(drawn0, drawn1) + since(drawn1, drawn2),
{
    lemma_grown_twice(drawn0, drawn1, drawn2);
    let a = since(drawn0, drawn1);
    let b = since(drawn1, drawn2);
    assert(asked2 =~= asked0 + copies((a + b).len(), sides));
    assert forall|i: int| 0 <= i < (a + b).len() implies 1 <= #[trigger] (a + b)[i] <= sides by {
        if i < a.len() {
            assert((a + b)[i] == a[i]);
        } else {
            assert((a + b)[i] == b[i - a.len()]);
        }
    }
}

/// One die asked for, and the face that it showed.
pub proof fn lemma_same_dice_one(
    drawn0: Seq<u64>,
    asked0: Seq<u64>,
    face: u64,
    sides: u64,
)
    requires
        1 <= face <= sides,
    ensures
        same_dice(drawn0, drawn0.push(face), asked0, asked0.push(sides), sides),
        since(drawn0, drawn0.push(face)) == seq![face],
{
    assert(drawn0.push(face) =~= drawn0 + seq![face]);
    lemma_grown_by(drawn0, seq![face]);
    assert(asked0.push(sides) =~= asked0 + copies(1, sides));
}

/// Dice of the same sides are dice of at most as many sides.
pub proof fn lemma_fair_dice(
    drawn0: Seq<u64>,
    drawn1: Seq<u64>,
    asked0: Seq<u64>,
    asked1: Seq<u64>,
    sides: u64,
    most: u64,
)
    requires
        same_dice(drawn0, drawn1, asked0, asked1, sides),
        sides <= most,
    ensures
        fair_dice(drawn0, drawn1, asked0, asked1, most),
{
    let n = since(drawn0, drawn1).len();
    lemma_grown_by(asked0, copies(n, sides));
}

/// Dice asked for in two stretches, one after the other.
pub proof fn lemma_fair_dice_more(
    drawn0: Seq<u64>,
    drawn1: Seq<u64>,
    drawn2: Seq<u64>,
    asked0: Seq<u64>,
    asked1: Seq<u64>,
    asked2: Seq<u64>,
    most: u64,
)
    requires
        fair_dice(drawn0, drawn1, asked0, asked1, most),
        fair_dice(drawn1, drawn2, asked1, asked2, most),
    ensures
        fair_dice(drawn0, drawn2, asked0, asked2, most),
{
    lemma_grown_twice(drawn0, drawn1, drawn2);
    lemma_grown_twice(asked0, asked1, asked2);
    let a = since(drawn0, drawn1);
    let b = since(drawn1, drawn2);
    let x = since(asked0, asked1);
    let y = since(asked1, asked2);
    assert forall|i: int| 0 <= i < (a + b).len() implies 1 <= #[trigger] (a + b)[i] <= (x
        + y)[i] <= most by {
        if i < a.len() {
            assert((a + b)[i] == a[i]);
            assert((x + y)[i] == x[i]);
        } else {
            assert((a + b)[i] == b[i - a.len()]);
            assert((x + y)[i] == y[i - a.len()]);
        }
    }
}

/// What dice take from a tape, a few and then a few more, is what they take
/// at once.
pub proof fn lemma_dealt_more(tape: Seq<u64>, a: nat, b: nat, sides: u64)
    ensures
        dealt(tape, a + b, sides) == dealt(tape, a, sides) + dealt(left(tape, a), b, sides),
        left(tape, a + b) == left(left(tape, a), b),
        dealt(tape, 0, sides) == Seq::<u64>::empty(),
        left(tape, 0) == tape,
{
    assert(dealt(tape, a + b, sides) =~= dealt(tape, a, sides) + dealt(left(tape, a), b, sides));
    assert(left(tape, a + b) =~= left(left(tape, a), b));
    assert(dealt(tape, 0, sides) =~= Seq::<u64>::empty());
    assert(left(tape, 0) =~= tape);
}

/// A term that has asked for dice of its sides only, and has left `rest` of
/// the tape, has asked for the dice that it is said to ask for.
pub proof fn lemma_dice_asked(
    limits: Limits,
    dice: crate::syntax::DiceView,
    drawn0: Seq<u64>,
    drawn1: Seq<u64>,
    asked0: Seq<u64>,
    asked1: Seq<u64>,
    rest: Seq<u64>,
)
    requires
        same_dice(drawn0, drawn1, asked0, asked1, sides_of(dice.sides)),
        dice_spec(limits, dice, since(drawn0, drawn1) + rest).1 == rest,
    ensures
        dice_asked(limits, dice, since(drawn0, drawn1) + rest) == since(asked0, asked1),
{
    lemma_grown_by(asked0, copies(since(drawn0, drawn1).len(), sides_of(dice.sides)));
}

/// The dice asked for in two stretches, one after the other.
pub proof fn lemma_asked_twice(a0: Seq<u64>, a1: Seq<u64>, a2: Seq<u64>, more: Seq<u64>)
    requires
        grown(a0, a1),
        grown(a1, a2),
    ensures
        since(a0, a2) + more == since(a0, a1) + (since(a1, a2) + more),
        since(a0, a2) == since(a0, a1) + since(a1, a2),
        since(a0, a0) + more == more,
{
    lemma_grown_twice(a0, a1, a2);
    assert(since(a0, a2) + more =~= since(a0, a1) + (since(a1, a2) + more));
    assert(since(a0, a0) + more =~= more);
}

/// Rolls `num` dice of `sides` sides, one after the other: the source is
/// asked `num` times, each time for a die of `sides` sides.
pub fn roll_dice<R: Recorded>(num: u64, sides: u64, rng: &mut R) -> (faces: Vec<u64>)
    requires
        sides >= 1,
    ensures
        faces@.len() == num,
        fitting(faces@, sides),
        final(rng).drawn() == old(rng).drawn() + faces@,
        final(rng).asked() == old(rng).asked() + copies(num as nat, sides),
        same_dice(
            old(rng).drawn(),
            final(rng).drawn(),
            old(rng).asked(),
            final(rng).asked(),
            sides,
        ),
        old(rng).script() matches Some(tape) ==> faces@ == dealt(tape, num as nat, sides),
        old(rng).script() matches Some(tape) ==> final(rng).script() == Some(
            left(tape, num as nat),
        ),
        old(rng).script() is None ==> final(rng).script() is None,
{
    let mut faces: Vec<u64> = Vec::new();
    let mut i: u64 = 0;
    proof {
        assert(rng.drawn() =~= old(rng).drawn() + faces@);
        assert(rng.asked() =~= old(rng).asked() + copies(0, sides));
        if old(rng).script() is Some {
            lemma_dealt_more(old(rng).script()->0, 0, 0, sides);
        }
    }
    while i < num
        invariant
            sides >= 1,
            i <= num,
            faces@.len() == i,
            fitting(faces@, sides),
            rng.drawn() == old(rng).drawn() + faces@,
            rng.asked() == old(rng).asked() + copies(i as nat, sides),
            old(rng).script() matches Some(tape) ==> faces@ == dealt(tape, i as nat, sides),
            old(rng).script() matches Some(tape) ==> rng.script() == Some(left(tape, i as nat)),
            old(rng).script() is None ==> rng.script() is None,
        decreases num - i,
    {
        let ghost before = faces@;
        let face = rng.draw(sides);
        faces.push(face);
        proof {
            assert(rng.drawn() =~= old(rng).drawn() + faces@);
            assert(rng.asked() =~= old(rng).asked() + copies((i + 1) as nat, sides));
            if old(rng).script() is Some {
                let tape = old(rng).script()->0;
                lemma_dealt_more(tape, i as nat, 1, sides);
                assert(dealt(left(tape, i as nat), 1, sides) =~= seq![face]);
                assert(faces@ =~= before + seq![face]);
            }
        }
        i = i + 1;
    }
    proof {
        lemma_grown_by(old(rng).drawn(), faces@);
    }
    faces
}

/// The number of `faces` that are at least `value`.
pub fn count_over(faces: &Vec<u64>, value: u64) -> (nb: u64)
    ensures
        nb == count_at_least(faces@, value),
        nb <= faces@.len(),
{
    let mut nb: u64 = 0;
    let mut i: usize = 0;
    assert(faces@.take(0) =~= Seq::<u64>::empty());
    while i < faces.len()
        invariant
            i <= faces@.len(),
            nb <= i,
            nb == count_at_least(faces@.take(i as int), value),
        decreases faces.len() - i,
    {
        assert(faces@.take(i + 1).drop_last() =~= faces@.take(i as int));
        if faces[i] >= value {
            nb = nb + 1;
        }
        i = i + 1;
    }
    assert(faces@.take(faces@.len() as int) =~= faces@);
    nb
}

/// Puts the faces `res` into the history if nothing is there yet.
fn record_first(rolls: &mut SingleRollResult, sides: u64, res: &Vec<u64>)
    requires
        old(rolls)@ == pending(old(rolls)@.history),
    ensures
        final(rolls)@ == pending(final(rolls)@.history),
        final(rolls)@.history == recorded(old(rolls)@.history, res@, sides),
{
    if rolls.get_history().len() == 0 {
        rolls.add_history(res, sides, false);
    }
}

/// The dice that show `faces`, each out of `sides`.
pub fn to_dice(faces: &Vec<u64>, sides: u64) -> (dice: Vec<DiceResult>)
    ensures
        dice@ == dice_of(faces@, sides),
{
    let mut dice: Vec<DiceResult> = Vec::new();
    let mut i: usize = 0;
    while i < faces.len()
        invariant
            i <= faces@.len(),
            dice@ =~= dice_of(faces@.take(i as int), sides),
        decreases faces.len() - i,
    {
        dice.push(DiceResult::new(faces[i], sides));
        i = i + 1;
    }
    assert(faces@.take(faces@.len() as int) =~= faces@);
    dice
}

/// Puts a copy of `more` behind `all`.
fn gather(all: &mut Vec<u64>, more: &Vec<u64>)
    ensures
        final(all)@ == old(all)@ + more@,
{
    let mut i: usize = 0;
    while i < more.len()
        invariant
            i <= more@.len(),
            all@ =~= old(all)@ + more@.take(i as int),
        decreases more.len() - i,
    {
        all.push(more[i]);
        i = i + 1;
    }
    assert(more@.take(more@.len() as int) =~= more@);
}

/// `e#`: rolls one new die for each face of `res` at or over the threshold.
///
/// Returns the new dice, or `res` if there are none, and the plain sum as the
/// way to the total.
pub fn compute_explode<R: Recorded>(
    rolls: &mut SingleRollResult,
    sides: u64,
    res: Vec<u64>,
    given: Option<u64>,
    rng: &mut R,
) -> (out: (TotalModifier, Vec<u64>))
    requires
        sides >= 1,
        old(rolls)@ == pending(old(rolls)@.history),
    ensures
        grown(old(rng).drawn(), final(rng).drawn()),
        same_dice(
            old(rng).drawn(),
            final(rng).drawn(),
            old(rng).asked(),
            final(rng).asked(),
            sides,
        ),
        final(rolls)@ == pending(final(rolls)@.history),
        forall|rest: Seq<u64>|
            #[trigger] explode_spec(
                sides,
                given,
                old(rolls)@.history,
                res@,
                since(old(rng).drawn(), final(rng).drawn()) + rest,
            ) == (Term { history: final(rolls)@.history, faces: out.1@, strategy: out.0@ }, rest),
        old(rng).script() matches Some(tape) ==> explode_spec(
            sides,
            given,
            old(rolls)@.history,
            res@,
            tape,
        ) == (
            Term { history: final(rolls)@.history, faces: out.1@, strategy: out.0@ },
            final(rng).script()->0,
        ) && final(rng).script() is Some,
        old(rng).script() is None ==> final(rng).script() is None,
{
    let value = match given {
        Some(v) => v,
        None => sides,
    };
    let nb = count_over(&res, value);
    record_first(rolls, sides, &res);
    if nb > 0 {
        let new = roll_dice(nb, sides, rng);
        rolls.add_history(&new, sides, false);
        proof {
            lemma_grown_by(old(rng).drawn(), new@);
            assert forall|rest: Seq<u64>|
                #[trigger] explode_spec(
                    sides,
                    given,
                    old(rolls)@.history,
                    res@,
                    since(old(rng).drawn(), rng.drawn()) + rest,
                ) == (
                    Term { history: rolls@.history, faces: new@, strategy: Strategy::Sum },
                    rest,
                ) by {
                lemma_tape(Seq::empty(), new@, rest);
                lemma_dealt(new@, rest, sides);
            }
        }
        (TotalModifier::Sum, new)
    } else {
        proof {
            lemma_grown_by(old(rng).drawn(), Seq::empty());
            lemma_same_dice_none(old(rng).drawn(), old(rng).asked(), sides);
            assert forall|rest: Seq<u64>|
                #[trigger] explode_spec(
                    sides,
                    given,
                    old(rolls)@.history,
                    res@,
                    since(old(rng).drawn(), rng.drawn()) + rest,
                ) == (
                    Term { history: rolls@.history, faces: res@, strategy: Strategy::Sum },
                    rest,
                ) by {
                lemma_tape(Seq::empty(), Seq::empty(), rest);
            }
        }
        (TotalModifier::Sum, res)
    }
}

/// `ie#`: rolls new dice for the faces at or over the threshold, then for
/// those of the new dice that are, and so on until none is.
///
/// Returns the dice of the last round, or `res` if nothing exploded, and the
/// plain sum as the way to the total. More rounds than the bounds allow are
/// refused.
pub fn compute_i_explode<R: Recorded>(
    limits: Limits,
    rolls: &mut SingleRollResult,
    sides: u64,
    res: Vec<u64>,
    given: Option<u64>,
    rng: &mut R,
) -> (out: Result<(TotalModifier, Vec<u64>), RollError>)
    requires
        sides >= 1,
        old(rolls)@ == pending(old(rolls)@.history),
    ensures
        grown(old(rng).drawn(), final(rng).drawn()),
        same_dice(
            old(rng).drawn(),
            final(rng).drawn(),
            old(rng).asked(),
            final(rng).asked(),
            sides,
        ),
        final(rolls)@ == pending(final(rolls)@.history),
        forall|rest: Seq<u64>|
            {
                let expected = #[trigger] indefinite_explode_spec(
                    limits,
                    sides,
                    given,
                    old(rolls)@.history,
                    res@,
                    since(old(rng).drawn(), final(rng).drawn()) + rest,
                );
                agrees(out, final(rolls)@.history, expected.0) && expected.1 == rest
            },
        old(rng).script() matches Some(tape) ==> {
            let expected = indefinite_explode_spec(
                limits,
                sides,
                given,
                old(rolls)@.history,
                res@,
                tape,
            );
            agrees(out, final(rolls)@.history, expected.0) && final(rng).script() == Some(
                expected.1,
            )
        },
        old(rng).script() is None ==> final(rng).script() is None,
{
    let value = match given {
        Some(v) => v,
        None => sides,
    };
    record_first(rolls, sides, &res);
    let mut nb = count_over(&res, value);
    let ghost first = res@;
    let mut last: Vec<u64> = res;
    let mut gathered: Vec<u64> = Vec::new();
    let mut rounds: u64 = 0;
    let ghost d0 = rng.drawn();
    let ghost a0 = rng.asked();
    let ghost s0 = rng.script();
    let ghost nb0 = nb as nat;
    let ghost fuel0 = limits.max_iterations as nat;
    proof {
        lemma_grown_by(d0, Seq::empty());
        lemma_same_dice_none(d0, a0, sides);
        assert forall|rest: Seq<u64>|
            #[trigger] explosions(
                limits,
                sides,
                value,
                nb0,
                Seq::empty(),
                first,
                fuel0,
                since(d0, rng.drawn()) + rest,
            ) == explosions(limits, sides, value, nb as nat, gathered@, last@, fuel0, rest) by {
            lemma_tape(Seq::empty(), Seq::empty(), rest);
        }
    }
    while nb > 0
        invariant
            sides >= 1,
            rounds <= limits.max_iterations,
            fuel0 == limits.max_iterations,
            value == threshold(given, sides),
            d0 == old(rng).drawn(),
            a0 == old(rng).asked(),
            s0 == old(rng).script(),
            same_dice(d0, rng.drawn(), a0, rng.asked(), sides),
            s0 is None ==> rng.script() is None,
            s0 matches Some(tape) ==> rng.script() is Some && explosions(
                limits,
                sides,
                value,
                nb0,
                Seq::empty(),
                first,
                fuel0,
                tape,
            ) == explosions(
                limits,
                sides,
                value,
                nb as nat,
                gathered@,
                last@,
                (fuel0 - rounds) as nat,
                rng.script()->0,
            ),
            nb0 == count_at_least(first, value),
            first == res@,
            rolls@ == pending(rolls@.history),
            grown(d0, rng.drawn()),
            forall|rest: Seq<u64>|
                #[trigger] explosions(
                    limits,
                    sides,
                    value,
                    nb0,
                    Seq::empty(),
                    first,
                    fuel0,
                    since(d0, rng.drawn()) + rest,
                ) == explosions(
                    limits,
                    sides,
                    value,
                    nb as nat,
                    gathered@,
                    last@,
                    (fuel0 - rounds) as nat,
                    rest,
                ),
        decreases limits.max_iterations - rounds,
    {
        if rounds >= limits.max_iterations {
            let out = Err(RollError::refuse(Fault::TooManyRolls(limits.max_iterations)));
            proof {
                assert forall|rest: Seq<u64>|
                    {
                        let expected = #[trigger] indefinite_explode_spec(
                            limits,
                            sides,
                            given,
                            old(rolls)@.history,
                            res@,
                            since(d0, rng.drawn()) + rest,
                        );
                        agrees(out, rolls@.history, expected.0) && expected.1 == rest
                    } by {
                    let rounds_left = explosions(
                        limits,
                        sides,
                        value,
                        nb0,
                        Seq::empty(),
                        first,
                        fuel0,
                        since(d0, rng.drawn()) + rest,
                    );
                    assert(rounds_left == (
                        Err::<(
                            Seq<u64>,
                            Seq<u64>,
                        ), Fault>(Fault::TooManyRolls(limits.max_iterations)),
                        rest,
                    ));
                }
            }
            return out;
        }
        let ghost d1 = rng.drawn();
        let ghost a1 = rng.asked();
        let ghost gathered1 = gathered@;
        let ghost last1 = last@;
        let ghost nb1 = nb as nat;
        last = roll_dice(nb, sides, rng);
        nb = count_over(&last, value);
        gather(&mut gathered, &last);
        proof {
            lemma_grown_by(d1, last@);
            lemma_grown_twice(d0, d1, rng.drawn());
            lemma_same_dice_more(d0, d1, rng.drawn(), a0, a1, rng.asked(), sides);
            assert forall|rest: Seq<u64>|
                #[trigger] explosions(
                    limits,
                    sides,
                    value,
                    nb0,
                    Seq::empty(),
                    first,
                    fuel0,
                    since(d0, rng.drawn()) + rest,
                ) == explosions(
                    limits,
                    sides,
                    value,
                    nb as nat,
                    gathered@,
                    last@,
                    (fuel0 - rounds - 1) as nat,
                    rest,
                ) by {
                lemma_tape(since(d0, d1), last@, rest);
                lemma_dealt(last@, rest, sides);
                assert(explosions(
                    limits,
                    sides,
                    value,
                    nb0,
                    Seq::empty(),
                    first,
                    fuel0,
                    since(d0, d1) + (last@ + rest),
                ) == explosions(
                    limits,
                    sides,
                    value,
                    nb1,
                    gathered1,
                    last1,
                    (fuel0 - rounds) as nat,
                    last@ + rest,
                ));
            }
        }
        rounds = rounds + 1;
    }
    let ghost before = rolls@.history;
    if gathered.len() > 0 {
        rolls.add_history(&gathered, sides, false);
    }
    let out = Ok((TotalModifier::Sum, last));
    proof {
        assert forall|rest: Seq<u64>|
            {
                let expected = #[trigger] indefinite_explode_spec(
                    limits,
                    sides,
                    given,
                    old(rolls)@.history,
                    res@,
                    since(d0, rng.drawn()) + rest,
                );
                agrees(out, rolls@.history, expected.0) && expected.1 == rest
            } by {
            assert(before == recorded(old(rolls)@.history, res@, sides));
            let all = explosions(
                limits,
                sides,
                value,
                nb0,
                Seq::empty(),
                first,
                fuel0,
                since(d0, rng.drawn()) + rest,
            );
            assert(all == (Ok::<(Seq<u64>, Seq<u64>), Fault>((gathered@, last@)), rest));
        }
    }
    out
}

/// `r#`: rolls each die of `res` at or under `value` again, once.
///
/// Returns the faces that stand at the end, in the order of the dice, and
/// the plain sum as the way to the total.
pub fn compute_reroll<R: Recorded>(
    rolls: &mut SingleRollResult,
    sides: u64,
    res: Vec<u64>,
    value: u64,
    rng: &mut R,
) -> (out: (TotalModifier, Vec<u64>))
    requires
        sides >= 1,
        old(rolls)@ == pending(old(rolls)@.history),
    ensures
        grown(old(rng).drawn(), final(rng).drawn()),
        same_dice(
            old(rng).drawn(),
            final(rng).drawn(),
            old(rng).asked(),
            final(rng).asked(),
            sides,
        ),
        final(rolls)@ == pending(final(rolls)@.history),
        forall|rest: Seq<u64>|
            #[trigger] reroll_spec(
                sides,
                value,
                old(rolls)@.history,
                res@,
                since(old(rng).drawn(), final(rng).drawn()) + rest,
            ) == (Term { history: final(rolls)@.history, faces: out.1@, strategy: out.0@ }, rest),
        old(rng).script() matches Some(tape) ==> reroll_spec(
            sides,
            value,
            old(rolls)@.history,
            res@,
            tape,
        ) == (
            Term { history: final(rolls)@.history, faces: out.1@, strategy: out.0@ },
            final(rng).script()->0,
        ) && final(rng).script() is Some,
        old(rng).script() is None ==> final(rng).script() is None,
{
    let mut has_rerolled = false;
    let mut chains: Vec<Vec<DiceResult>> = Vec::new();
    let mut new: Vec<u64> = Vec::new();
    let mut i: usize = 0;
    let ghost d0 = rng.drawn();
    let ghost a0 = rng.asked();
    let ghost s0 = rng.script();
    proof {
        lemma_grown_by(d0, Seq::empty());
        lemma_same_dice_none(d0, a0, sides);
        assert(chains_of(chains@) =~= Seq::empty());
        assert(res@.take(0) =~= Seq::empty());
        assert forall|rest: Seq<u64>|
            #[trigger] rerolls(
                sides,
                value,
                res@,
                0,
                Seq::empty(),
                Seq::empty(),
                since(d0, rng.drawn()) + rest,
            ) == rerolls(sides, value, res@, 0, new@, chains_of(chains@), rest) by {
            lemma_tape(Seq::empty(), Seq::empty(), rest);
        }
    }
    while i < res.len()
        invariant
            sides >= 1,
            i <= res@.len(),
            d0 == old(rng).drawn(),
            a0 == old(rng).asked(),
            s0 == old(rng).script(),
            same_dice(d0, rng.drawn(), a0, rng.asked(), sides),
            s0 is None ==> rng.script() is None,
            s0 matches Some(tape) ==> rng.script() is Some && rerolls(
                sides,
                value,
                res@,
                0,
                Seq::empty(),
                Seq::empty(),
                tape,
            ) == rerolls(
                sides,
                value,
                res@,
                i as nat,
                new@,
                chains_of(chains@),
                rng.script()->0,
            ),
            *rolls == *old(rolls),
            grown(d0, rng.drawn()),
            has_rerolled == any_at_most(res@.take(i as int), value),
            forall|rest: Seq<u64>|
                #[trigger] rerolls(
                    sides,
                    value,
                    res@,
                    0,
                    Seq::empty(),
                    Seq::empty(),
                    since(d0, rng.drawn()) + rest,
                ) == rerolls(sides, value, res@, i as nat, new@, chains_of(chains@), rest),
        decreases res.len() - i,
    {
        let x = res[i];
        let ghost d1 = rng.drawn();
        let ghost a1 = rng.asked();
        let ghost new1 = new@;
        let ghost chains1 = chains_of(chains@);
        let ghost seen = res@.take(i as int);
        let mut chain: Vec<DiceResult> = Vec::new();
        chain.push(DiceResult::new(x, sides));
        proof {
            assert(res@.take(i + 1) =~= seen.push(x));
            lemma_any_at_most_push(seen, x, value);
        }
        if x <= value {
            has_rerolled = true;
            let r = rng.draw(sides);
            chain.push(DiceResult::new(r, sides));
            new.push(r);
            proof {
                lemma_grown_by(d1, seq![r]);
                assert(rng.drawn() == d1 + seq![r]);
                lemma_grown_twice(d0, d1, rng.drawn());
                lemma_same_dice_one(d1, a1, r, sides);
                lemma_same_dice_more(d0, d1, rng.drawn(), a0, a1, rng.asked(), sides);
                assert(chain@ =~= seq![die(x, sides), die(r, sides)]);
            }
        } else {
            new.push(x);
            proof {
                lemma_grown_by(d1, Seq::empty());
                assert(chain@ =~= seq![die(x, sides)]);
            }
        }
        let ghost drawn_here = since(d1, rng.drawn());
        proof {
            assert(chains_of(chains@.push(chain)) =~= chains1.push(chain@));
        }
        chains.push(chain);
        proof {
            assert forall|rest: Seq<u64>|
                #[trigger] rerolls(
                    sides,
                    value,
                    res@,
                    0,
                    Seq::empty(),
                    Seq::empty(),
                    since(d0, rng.drawn()) + rest,
                ) == rerolls(
                    sides,
                    value,
                    res@,
                    (i + 1) as nat,
                    new@,
                    chains_of(chains@),
                    rest,
                ) by {
                lemma_grown_twice(d0, d1, rng.drawn());
                lemma_tape(since(d0, d1), drawn_here, rest);
                assert(rerolls(
                    sides,
                    value,
                    res@,
                    0,
                    Seq::empty(),
                    Seq::empty(),
                    since(d0, d1) + (drawn_here + rest),
                ) == rerolls(sides, value, res@, i as nat, new1, chains1, drawn_here + rest));
                if x <= value {
                    assert((drawn_here + rest)[0] == drawn_here[0]);
                    assert(next_face(drawn_here + rest, sides) == drawn_here[0]);
                    assert(left(drawn_here + rest, 1) =~= rest);
                }
            }
        }
        i = i + 1;
    }
    proof {
        assert(res@.take(res@.len() as int) =~= res@);
    }
    if has_rerolled {
        rolls.add_rerolled_history(chains);
    }
    rolls.add_history(&new, sides, false);
    (TotalModifier::Sum, new)
}

/// The faces that a die showed, as a mathematical value.
pub open spec fn shown_view(shown: Option<Vec<u64>>) -> Option<Seq<u64>> {
    match shown {
        Some(faces) => Some(faces@),
        None => None,
    }
}

/// Rolls a die that shows `face` again until it is over `value`, as often as
/// the bounds allow. Returns the faces that it showed in turn, the
/// last being the one at which it comes to rest, or nothing if it does not.
pub fn settle<R: Recorded>(
    limits: Limits,
    value: u64,
    face: u64,
    sides: u64,
    rng: &mut R,
) -> (out: Option<
    Vec<u64>,
>)
    requires
        sides >= 1,
    ensures
        grown(old(rng).drawn(), final(rng).drawn()),
        same_dice(
            old(rng).drawn(),
            final(rng).drawn(),
            old(rng).asked(),
            final(rng).asked(),
            sides,
        ),
        out matches Some(shown) ==> shown@.len() > 0,
        forall|rest: Seq<u64>|
            #[trigger] settled(
                limits,
                sides,
                value,
                seq![face],
                limits.max_iterations as nat,
                since(old(rng).drawn(), final(rng).drawn()) + rest,
            ) == (shown_view(out), rest),
        old(rng).script() matches Some(tape) ==> settled(
            limits,
            sides,
            value,
            seq![face],
            limits.max_iterations as nat,
            tape,
        ) == (shown_view(out), final(rng).script()->0) && final(rng).script() is Some,
        old(rng).script() is None ==> final(rng).script() is None,
{
    let mut x = face;
    let mut shown: Vec<u64> = Vec::new();
    shown.push(face);
    let mut tries: u64 = 0;
    let ghost d0 = rng.drawn();
    let ghost a0 = rng.asked();
    let ghost s0 = rng.script();
    proof {
        lemma_grown_by(d0, Seq::empty());
        lemma_same_dice_none(d0, a0, sides);
        assert(shown@ =~= seq![face]);
        assert forall|rest: Seq<u64>|
            #[trigger] settled(
                limits,
                sides,
                value,
                seq![face],
                limits.max_iterations as nat,
                since(d0, rng.drawn()) + rest,
            ) == settled(limits, sides, value, shown@, limits.max_iterations as nat, rest) by {
            lemma_tape(Seq::empty(), Seq::empty(), rest);
        }
    }
    while x <= value
        invariant
            sides >= 1,
            tries <= limits.max_iterations,
            d0 == old(rng).drawn(),
            a0 == old(rng).asked(),
            s0 == old(rng).script(),
            same_dice(d0, rng.drawn(), a0, rng.asked(), sides),
            s0 is None ==> rng.script() is None,
            s0 matches Some(tape) ==> rng.script() is Some && settled(
                limits,
                sides,
                value,
                seq![face],
                limits.max_iterations as nat,
                tape,
            ) == settled(
                limits,
                sides,
                value,
                shown@,
                (limits.max_iterations - tries) as nat,
                rng.script()->0,
            ),
            grown(d0, rng.drawn()),
            shown@.len() > 0,
            shown@.last() == x,
            forall|rest: Seq<u64>|
                #[trigger] settled(
                    limits,
                    sides,
                    value,
                    seq![face],
                    limits.max_iterations as nat,
                    since(d0, rng.drawn()) + rest,
                ) == settled(
                    limits,
                    sides,
                    value,
                    shown@,
                    (limits.max_iterations - tries) as nat,
                    rest,
                ),
        decreases limits.max_iterations - tries,
    {
        if tries >= limits.max_iterations {
            return None;
        }
        let ghost d1 = rng.drawn();
        let ghost a1 = rng.asked();
        let ghost shown1 = shown@;
        x = rng.draw(sides);
        shown.push(x);
        proof {
            lemma_grown_by(d1, seq![x]);
            assert(rng.drawn() == d1 + seq![x]);
            lemma_grown_twice(d0, d1, rng.drawn());
            lemma_same_dice_one(d1, a1, x, sides);
            lemma_same_dice_more(d0, d1, rng.drawn(), a0, a1, rng.asked(), sides);
            assert forall|rest: Seq<u64>|
                #[trigger] settled(
                    limits,
                    sides,
                    value,
                    seq![face],
                    limits.max_iterations as nat,
                    since(d0, rng.drawn()) + rest,
                ) == settled(
                    limits,
                    sides,
                    value,
                    shown@,
                    (limits.max_iterations - tries - 1) as nat,
                    rest,
                ) by {
                lemma_tape(since(d0, d1), seq![x], rest);
                assert(settled(
                    limits,
                    sides,
                    value,
                    seq![face],
                    limits.max_iterations as nat,
                    since(d0, d1) + (seq![x] + rest),
                ) == settled(
                    limits,
                    sides,
                    value,
                    shown1,
                    (limits.max_iterations - tries) as nat,
                    seq![x] + rest,
                ));
                assert((seq![x] + rest)[0] == x);
                assert(next_face(seq![x] + rest, sides) == x);
                assert(left(seq![x] + rest, 1) =~= rest);
            }
        }
        tries = tries + 1;
    }
    Some(shown)
}

/// `ir#`: rolls each die of `res` again until it is over `value`.
///
/// Returns the faces at which the dice come to rest, in the order of the
/// dice, and the plain sum as the way to the total. A die that is rolled
/// again more often than the bounds allow is refused.
pub fn compute_i_reroll<R: Recorded>(
    limits: Limits,
    rolls: &mut SingleRollResult,
    sides: u64,
    res: Vec<u64>,
    value: u64,
    rng: &mut R,
) -> (out: Result<(TotalModifier, Vec<u64>), RollError>)
    requires
        sides >= 1,
        old(rolls)@ == pending(old(rolls)@.history),
    ensures
        grown(old(rng).drawn(), final(rng).drawn()),
        same_dice(
            old(rng).drawn(),
            final(rng).drawn(),
            old(rng).asked(),
            final(rng).asked(),
            sides,
        ),
        final(rolls)@ == pending(final(rolls)@.history),
        forall|rest: Seq<u64>|
            {
                let expected = #[trigger] indefinite_reroll_spec(
                    limits,
                    sides,
                    value,
                    old(rolls)@.history,
                    res@,
                    since(old(rng).drawn(), final(rng).drawn()) + rest,
                );
                agrees(out, final(rolls)@.history, expected.0) && expected.1 == rest
            },
        old(rng).script() matches Some(tape) ==> {
            let expected = indefinite_reroll_spec(
                limits,
                sides,
                value,
                old(rolls)@.history,
                res@,
                tape,
            );
            agrees(out, final(rolls)@.history, expected.0) && final(rng).script() == Some(
                expected.1,
            )
        },
        old(rng).script() is None ==> final(rng).script() is None,
{
    let mut has_rerolled = false;
    let mut new: Vec<u64> = Vec::new();
    let mut chains: Vec<Vec<DiceResult>> = Vec::new();
    let mut i: usize = 0;
    let ghost d0 = rng.drawn();
    let ghost a0 = rng.asked();
    let ghost s0 = rng.script();
    proof {
        lemma_grown_by(d0, Seq::empty());
        lemma_same_dice_none(d0, a0, sides);
        assert(chains_of(chains@) =~= Seq::empty());
        assert(res@.take(0) =~= Seq::empty());
        assert forall|rest: Seq<u64>|
            #[trigger] indefinite_rerolls(
                limits,
                sides,
                value,
                res@,
                0,
                Seq::empty(),
                Seq::empty(),
                since(d0, rng.drawn()) + rest,
            ) == indefinite_rerolls(
                limits,
                sides,
                value,
                res@,
                0,
                new@,
                chains_of(chains@),
                rest,
            ) by {
            lemma_tape(Seq::empty(), Seq::empty(), rest);
        }
    }
    while i < res.len()
        invariant
            sides >= 1,
            i <= res@.len(),
            d0 == old(rng).drawn(),
            a0 == old(rng).asked(),
            s0 == old(rng).script(),
            same_dice(d0, rng.drawn(), a0, rng.asked(), sides),
            s0 is None ==> rng.script() is None,
            s0 matches Some(tape) ==> rng.script() is Some && indefinite_rerolls(
                limits,
                sides,
                value,
                res@,
                0,
                Seq::empty(),
                Seq::empty(),
                tape,
            ) == indefinite_rerolls(
                limits,
                sides,
                value,
                res@,
                i as nat,
                new@,
                chains_of(chains@),
                rng.script()->0,
            ),
            *rolls == *old(rolls),
            rolls@ == pending(rolls@.history),
            grown(d0, rng.drawn()),
            has_rerolled == any_at_most(res@.take(i as int), value),
            forall|rest: Seq<u64>|
                #[trigger] indefinite_rerolls(
                    limits,
                    sides,
                    value,
                    res@,
                    0,
                    Seq::empty(),
                    Seq::empty(),
                    since(d0, rng.drawn()) + rest,
                ) == indefinite_rerolls(
                    limits,
                    sides,
                    value,
                    res@,
                    i as nat,
                    new@,
                    chains_of(chains@),
                    rest,
                ),
        decreases res.len() - i,
    {
        let x = res[i];
        let ghost d1 = rng.drawn();
        let ghost a1 = rng.asked();
        let ghost s1 = rng.script();
        let ghost new1 = new@;
        let ghost chains1 = chains_of(chains@);
        let ghost seen = res@.take(i as int);
        proof {
            assert(res@.take(i + 1) =~= seen.push(x));
            lemma_any_at_most_push(seen, x, value);
        }
        if x <= value {
            has_rerolled = true;
        }
        let rested = settle(limits, value, x, sides, rng);
        let ghost drawn_here = since(d1, rng.drawn());
        let ghost rested_view = shown_view(rested);
        proof {
            lemma_grown_twice(d0, d1, rng.drawn());
            lemma_same_dice_more(d0, d1, rng.drawn(), a0, a1, rng.asked(), sides);
            if s1 is Some {
                assert(settled(
                    limits,
                    sides,
                    value,
                    seq![x],
                    limits.max_iterations as nat,
                    s1->0,
                ) == (rested_view, rng.script()->0));
            }
        }
        match rested {
            Some(shown) => {
                let chain = to_dice(&shown, sides);
                new.push(shown[shown.len() - 1]);
                proof {
                    assert(chains_of(chains@.push(chain)) =~= chains1.push(chain@));
                }
                chains.push(chain);
                proof {
                    assert forall|rest: Seq<u64>|
                        #[trigger] indefinite_rerolls(
                            limits,
                            sides,
                            value,
                            res@,
                            0,
                            Seq::empty(),
                            Seq::empty(),
                            since(d0, rng.drawn()) + rest,
                        ) == indefinite_rerolls(
                            limits,
                            sides,
                            value,
                            res@,
                            (i + 1) as nat,
                            new@,
                            chains_of(chains@),
                            rest,
                        ) by {
                        lemma_tape(since(d0, d1), drawn_here, rest);
                        assert(indefinite_rerolls(
                            limits,
                            sides,
                            value,
                            res@,
                            0,
                            Seq::empty(),
                            Seq::empty(),
                            since(d0, d1) + (drawn_here + rest),
                        ) == indefinite_rerolls(
                            limits,
                            sides,
                            value,
                            res@,
                            i as nat,
                            new1,
                            chains1,
                            drawn_here + rest,
                        ));
                        assert(settled(
                            limits,
                            sides,
                            value,
                            seq![x],
                            limits.max_iterations as nat,
                            drawn_here + rest,
                        ) == (rested_view, rest));
                    }
                }
            },
            None => {
                let out = Err(RollError::refuse(Fault::TooManyRolls(limits.max_iterations)));
                proof {
                    assert forall|rest: Seq<u64>|
                        {
                            let expected = #[trigger] indefinite_reroll_spec(
                                limits,
                                sides,
                                value,
                                old(rolls)@.history,
                                res@,
                                since(d0, rng.drawn()) + rest,
                            );
                            agrees(out, rolls@.history, expected.0) && expected.1 == rest
                        } by {
                        lemma_tape(since(d0, d1), drawn_here, rest);
                        assert(indefinite_rerolls(
                            limits,
                            sides,
                            value,
                            res@,
                            0,
                            Seq::empty(),
                            Seq::empty(),
                            since(d0, d1) + (drawn_here + rest),
                        ) == indefinite_rerolls(
                            limits,
                            sides,
                            value,
                            res@,
                            i as nat,
                            new1,
                            chains1,
                            drawn_here + rest,
                        ));
                        assert(settled(
                            limits,
                            sides,
                            value,
                            seq![x],
                            limits.max_iterations as nat,
                            drawn_here + rest,
                        ) == (rested_view, rest));
                    }
                }
                return out;
            },
        }
        i = i + 1;
    }
    proof {
        assert(res@.take(res@.len() as int) =~= res@);
    }
    if has_rerolled {
        rolls.add_rerolled_history(chains);
    }
    rolls.add_history(&new, sides, false);
    Ok((TotalModifier::Sum, new))
}

/// A copy of `list`.
pub fn copy_of(list: &Vec<u64>) -> (out: Vec<u64>)
    ensures
        out@ == list@,
{
    let mut out: Vec<u64> = Vec::new();
    let mut i: usize = 0;
    while i < list.len()
        invariant
            i <= list@.len(),
            out@ =~= list@.take(i as int),
        decreases list.len() - i,
    {
        out.push(list[i]);
        i = i + 1;
    }
    assert(list@.take(list@.len() as int) =~= list@);
    out
}

/// The faces that the next modifier works on: `faces` in rising order, cut
/// down to those that `modifier` keeps.
pub fn working(modifier: &TotalModifier, faces: &Vec<u64>) -> (out: Vec<u64>)
    ensures
        out@ == working_set(modifier@, faces@),
{
    let sorted = sort_ascending(faces);
    proof {
        lemma_ascending(faces@);
    }
    let len = sorted.len();
    let (from, to): (usize, usize) = match modifier {
        TotalModifier::KeepHi(n) => if *n > len as u64 {
            (0, len)
        } else {
            (len - *n as usize, len)
        },
        TotalModifier::KeepLo(n) => if *n > len as u64 {
            (0, len)
        } else {
            (0, *n as usize)
        },
        TotalModifier::DropHi(n) => if *n > len as u64 {
            (0, len)
        } else {
            (0, len - *n as usize)
        },
        TotalModifier::DropLo(n) => if *n > len as u64 {
            (0, len)
        } else {
            (*n as usize, len)
        },
        _ => (0, len),
    };
    let mut out: Vec<u64> = Vec::new();
    let mut i: usize = from;
    while i < to
        invariant
            from <= i <= to <= sorted@.len(),
            out@ =~= sorted@.subrange(from as int, i as int),
        decreases to - i,
    {
        out.push(sorted[i]);
        i = i + 1;
    }
    assert(out@ =~= working_set(modifier@, faces@));
    out
}

/// `K# k# D# d#`: puts the faces into the history if it is empty, and
/// refuses a count over the number of values in the history.
fn keep_or_drop(
    rolls: &mut SingleRollResult,
    sides: u64,
    res: Vec<u64>,
    modifier: TotalModifier,
    n: u64,
) -> (out: Result<(TotalModifier, Vec<u64>), RollError>)
    requires
        old(rolls)@ == pending(old(rolls)@.history),
    ensures
        final(rolls)@ == pending(final(rolls)@.history),
        agrees(
            out,
            final(rolls)@.history,
            keep_drop_spec(sides, modifier@, n, old(rolls)@.history, res@),
        ),
{
    record_first(rolls, sides, &res);
    if n > rolls.count_values() as u64 {
        return Err(RollError::refuse(Fault::NotEnoughDice));
    }
    Ok((modifier, res))
}

/// `t# tt# f# t[#, #]`: puts the faces into the history if it is empty.
fn count_successes(
    rolls: &mut SingleRollResult,
    sides: u64,
    res: Vec<u64>,
    modifier: TotalModifier,
) -> (out: Result<(TotalModifier, Vec<u64>), RollError>)
    requires
        old(rolls)@ == pending(old(rolls)@.history),
    ensures
        final(rolls)@ == pending(final(rolls)@.history),
        agrees(
            out,
            final(rolls)@.history,
            Ok(counted(sides, modifier@, old(rolls)@.history, res@)),
        ),
{
    record_first(rolls, sides, &res);
    Ok((modifier, res))
}

/// Applies one modifier to the faces `res` of a term.
///
/// Returns the way to the total that the modifier asks for, and the faces
/// that the next modifier works on.
pub fn compute_option<R: Recorded>(
    limits: Limits,
    rolls: &mut SingleRollResult,
    sides: u64,
    res: Vec<u64>,
    option: &Modifier,
    rng: &mut R,
) -> (out: Result<(TotalModifier, Vec<u64>), RollError>)
    requires
        sides >= 1,
        old(rolls)@ == pending(old(rolls)@.history),
    ensures
        grown(old(rng).drawn(), final(rng).drawn()),
        same_dice(
            old(rng).drawn(),
            final(rng).drawn(),
            old(rng).asked(),
            final(rng).asked(),
            sides,
        ),
        final(rolls)@ == pending(final(rolls)@.history),
        forall|rest: Seq<u64>|
            {
                let expected = #[trigger] option_spec(
                    limits,
                    sides,
                    option@,
                    old(rolls)@.history,
                    res@,
                    since(old(rng).drawn(), final(rng).drawn()) + rest,
                );
                agrees(out, final(rolls)@.history, expected.0) && expected.1 == rest
            },
        old(rng).script() matches Some(tape) ==> {
            let expected = option_spec(limits, sides, option@, old(rolls)@.history, res@, tape);
            agrees(out, final(rolls)@.history, expected.0) && final(rng).script() == Some(
                expected.1,
            )
        },
        old(rng).script() is None ==> final(rng).script() is None,
{
    let ghost d0 = rng.drawn();
    let ghost s0 = rng.script();
    proof {
        lemma_grown_by(d0, Seq::empty());
        lemma_same_dice_none(d0, rng.asked(), sides);
    }
    let asked: Result<(TotalModifier, Vec<u64>), RollError> = match option {
        Modifier::Explode(given) => Ok(compute_explode(rolls, sides, res, *given, rng)),
        Modifier::IndefiniteExplode(given) => compute_i_explode(
            limits,
            rolls,
            sides,
            res,
            *given,
            rng,
        ),
        Modifier::Reroll(value) => Ok(compute_reroll(rolls, sides, res, *value, rng)),
        Modifier::IndefiniteReroll(value) => compute_i_reroll(
            limits,
            rolls,
            sides,
            res,
            *value,
            rng,
        ),
        Modifier::KeepHi(n) => keep_or_drop(rolls, sides, res, TotalModifier::KeepHi(*n), *n),
        Modifier::KeepLo(n) => keep_or_drop(rolls, sides, res, TotalModifier::KeepLo(*n), *n),
        Modifier::DropHi(n) => keep_or_drop(rolls, sides, res, TotalModifier::DropHi(*n), *n),
        Modifier::DropLo(n) => keep_or_drop(rolls, sides, res, TotalModifier::DropLo(*n), *n),
        Modifier::Target(n) => count_successes(
            rolls,
            sides,
            res,
            TotalModifier::TargetFailureDouble(at_least_one(*n), None, None),
        ),
        Modifier::TargetEnum(list) => count_successes(
            rolls,
            sides,
            res,
            TotalModifier::TargetEnum(copy_of(list)),
        ),
        Modifier::DoubleTarget(n) => count_successes(
            rolls,
            sides,
            res,
            TotalModifier::TargetFailureDouble(None, None, at_least_one(*n)),
        ),
        Modifier::Failure(n) => count_successes(
            rolls,
            sides,
            res,
            TotalModifier::TargetFailureDouble(None, at_least_one(*n), None),
        ),
    };
    proof {
        assert forall|rest: Seq<u64>|
            {
                let expected = #[trigger] modifier_spec(
                    limits,
                    sides,
                    option@,
                    old(rolls)@.history,
                    res@,
                    since(d0, rng.drawn()) + rest,
                );
                agrees(asked, rolls@.history, expected.0) && expected.1 == rest
            } by {
            let history = old(rolls)@.history;
            let tape = since(d0, rng.drawn()) + rest;
            lemma_tape(Seq::empty(), Seq::empty(), rest);
            match *option {
                Modifier::Explode(given) => {
                    assert(explode_spec(sides, given, history, res@, tape).1 == rest);
                },
                Modifier::IndefiniteExplode(given) => {
                    assert(indefinite_explode_spec(
                        limits,
                        sides,
                        given,
                        history,
                        res@,
                        tape,
                    ).1 == rest);
                },
                Modifier::Reroll(value) => {
                    assert(reroll_spec(sides, value, history, res@, tape).1 == rest);
                },
                Modifier::IndefiniteReroll(value) => {
                    assert(indefinite_reroll_spec(
                        limits,
                        sides,
                        value,
                        history,
                        res@,
                        tape,
                    ).1 == rest);
                },
                _ => {},
            }
        }
    }
    proof {
        if s0 is Some {
            let expected = modifier_spec(limits, sides, option@, old(rolls)@.history, res@, s0->0);
            assert(agrees(asked, rolls@.history, expected.0) && rng.script() == Some(expected.1));
        }
    }
    match asked {
        Ok((modifier, faces)) => {
            let worked = working(&modifier, &faces);
            Ok((modifier, worked))
        },
        Err(e) => Err(e),
    }
}

/// The threshold of a count of successes: a number of zero stands for none.
fn at_least_one(n: u64) -> (out: Option<u64>)
    ensures
        out == limit(n),
{
    if n > 0 {
        Some(n)
    } else {
        None
    }
}

/// The way to the total after a modifier that asks for `asked`, `before`
/// being the way before it.
fn merge(before: TotalModifier, asked: TotalModifier) -> (out: TotalModifier)
    ensures
        out@ == merged(before@, asked@),
{
    match asked {
        TotalModifier::TargetFailureDouble(t, f, d) => match before {
            TotalModifier::TargetFailureDouble(ot, of, od) => TotalModifier::TargetFailureDouble(
                if ot.is_some() {
                    ot
                } else {
                    t
                },
                if of.is_some() {
                    of
                } else {
                    f
                },
                if od.is_some() {
                    od
                } else {
                    d
                },
            ),
            _ => TotalModifier::TargetFailureDouble(t, f, d),
        },
        other => other,
    }
}

/// Rolls a dice term: its dice, then each of its modifiers from left to
/// right, then the total.
pub fn compute_roll<R: Recorded>(limits: Limits, dice: &Dice, rng: &mut R) -> (out: Result<
    SingleRollResult,
    RollError,
>)
    ensures
        grown(old(rng).drawn(), final(rng).drawn()),
        same_dice(
            old(rng).drawn(),
            final(rng).drawn(),
            old(rng).asked(),
            final(rng).asked(),
            sides_of(dice@.sides),
        ),
        fair_dice(
            old(rng).drawn(),
            final(rng).drawn(),
            old(rng).asked(),
            final(rng).asked(),
            most_sides(limits),
        ),
        forall|rest: Seq<u64>|
            {
                let expected = #[trigger] dice_spec(
                    limits,
                    dice@,
                    since(old(rng).drawn(), final(rng).drawn()) + rest,
                );
                yields(out, expected.0) && expected.1 == rest
            },
        old(rng).script() matches Some(tape) ==> {
            let expected = dice_spec(limits, dice@, tape);
            yields(out, expected.0) && final(rng).script() == Some(expected.1)
        },
        old(rng).script() is None ==> final(rng).script() is None,
{
    let ghost d0 = rng.drawn();
    let ghost a0 = rng.asked();
    let ghost s0 = rng.script();
    proof {
        lemma_grown_by(d0, Seq::empty());
        lemma_same_dice_none(d0, a0, sides_of(dice@.sides));
        lemma_same_dice_none(d0, a0, most_sides(limits));
        assert forall|rest: Seq<u64>| #[trigger] (since(d0, d0) + rest) == rest by {
            lemma_tape(Seq::empty(), Seq::empty(), rest);
        }
    }
    let mut rolls = SingleRollResult::new();
    let number_of_dice = match dice.count {
        Some(n) => {
            if n > limits.max_dice {
                return Err(RollError::refuse(Fault::TooManyDice(limits.max_dice)));
            }
            n
        },
        None => 1,
    };
    let (sides, is_fudge): (u64, bool) = match dice.sides {
        Sides::Number(n) => (n, false),
        Sides::Fudge => (6, true),
    };
    if sides == 0 {
        return Err(RollError::refuse(Fault::ZeroSides));
    } else if sides > limits.max_sides {
        return Err(RollError::refuse(Fault::TooManySides(limits.max_sides)));
    }
    let mut res = roll_dice(number_of_dice, sides, rng);
    let ghost d1 = rng.drawn();
    let ghost a1 = rng.asked();
    let ghost first = res@;
    proof {
        lemma_grown_by(d0, first);
        lemma_grown_by(d1, Seq::empty());
        lemma_same_dice_none(d1, a1, sides);
        lemma_fair_dice(d0, d1, a0, a1, sides, most_sides(limits));
        assert forall|rest: Seq<u64>|
            dealt(#[trigger] (since(d0, d1) + rest), number_of_dice as nat, sides) == first && left(
                since(d0, d1) + rest,
                number_of_dice as nat,
            ) == rest by {
            lemma_tape(Seq::empty(), first, rest);
            lemma_dealt(first, rest, sides);
        }
    }
    if is_fudge {
        rolls.add_history(&res, sides, true);
        let total = rolls.compute_total(&TotalModifier::Fudge);
        assert(rolls@.history =~= seq![batch(first, sides, true)]);
        return match total {
            Ok(_) => Ok(rolls),
            Err(e) => Err(e),
        };
    }
    let mut modifier = TotalModifier::Sum;
    if dice.modifiers.len() == 0 {
        rolls.add_history(&res, sides, false);
        let total = rolls.compute_total(&modifier);
        assert(rolls@.history =~= seq![batch(first, sides, false)]);
        return match total {
            Ok(_) => Ok(rolls),
            Err(e) => Err(e),
        };
    }
    let ghost start = Term { history: Seq::empty(), faces: first, strategy: Strategy::Sum };
    let mut i: usize = 0;
    proof {
        assert forall|rest: Seq<u64>|
            #[trigger] modifiers_spec(
                limits,
                sides,
                dice@.modifiers,
                0,
                start,
                since(d1, rng.drawn()) + rest,
            )
                == modifiers_spec(
                limits,
                sides,
                dice@.modifiers,
                0,
                Term { history: rolls@.history, faces: res@, strategy: modifier@ },
                rest,
            ) by {
            lemma_tape(Seq::empty(), Seq::empty(), rest);
        }
    }
    while i < dice.modifiers.len()
        invariant
            sides >= 1,
            i <= dice.modifiers@.len(),
            d0 == old(rng).drawn(),
            a0 == old(rng).asked(),
            s0 == old(rng).script(),
            grown(d0, d1),
            grown(d1, rng.drawn()),
            since(d0, d1) == first,
            fitting(first, sides),
            same_dice(d0, rng.drawn(), a0, rng.asked(), sides),
            s0 is None ==> rng.script() is None,
            s0 matches Some(tape) ==> rng.script() is Some && first == dealt(
                tape,
                number_of_dice as nat,
                sides,
            ) && modifiers_spec(
                limits,
                sides,
                dice@.modifiers,
                0,
                start,
                left(tape, number_of_dice as nat),
            ) == modifiers_spec(
                limits,
                sides,
                dice@.modifiers,
                i as nat,
                Term { history: rolls@.history, faces: res@, strategy: modifier@ },
                rng.script()->0,
            ),
            first.len() == number_of_dice,
            term_fault(limits, dice@) is None,
            dice.sides == Sides::Number(sides),
            dice.modifiers@.len() > 0,
            number_of_dice == crate::semantics::count_of(dice.count),
            start == (Term { history: Seq::empty(), faces: first, strategy: Strategy::Sum }),
            rolls@ == pending(rolls@.history),
            forall|rest: Seq<u64>|
                #[trigger] modifiers_spec(
                    limits,
                    sides,
                    dice@.modifiers,
                    0,
                    start,
                    since(d1, rng.drawn()) + rest,
                ) == modifiers_spec(
                    limits,
                    sides,
                    dice@.modifiers,
                    i as nat,
                    Term { history: rolls@.history, faces: res@, strategy: modifier@ },
                    rest,
                ),
        decreases dice.modifiers.len() - i,
    {
        let ghost d2 = rng.drawn();
        let ghost a2 = rng.asked();
        let ghost s2 = rng.script();
        let ghost here = Term { history: rolls@.history, faces: res@, strategy: modifier@ };
        let asked = compute_option(limits, &mut rolls, sides, res, &dice.modifiers[i], rng);
        let ghost drawn_here = since(d2, rng.drawn());
        proof {
            lemma_grown_twice(d1, d2, rng.drawn());
            lemma_grown_twice(d0, d1, rng.drawn());
            lemma_same_dice_more(d0, d2, rng.drawn(), a0, a2, rng.asked(), sides);
            lemma_fair_dice(d0, rng.drawn(), a0, rng.asked(), sides, most_sides(limits));
            if s2 is Some {
                let asked_here = option_spec(
                    limits,
                    sides,
                    dice@.modifiers[i as int],
                    here.history,
                    here.faces,
                    s2->0,
                );
                assert(agrees(asked, rolls@.history, asked_here.0));
                assert(rng.script() == Some(asked_here.1));
            }
        }
        match asked {
            Ok((wanted, faces)) => {
                let ghost asked_term = Term {
                    history: rolls@.history,
                    faces: faces@,
                    strategy: wanted@,
                };
                res = faces;
                modifier = merge(modifier, wanted);
                proof {
                    assert forall|rest: Seq<u64>|
                        #[trigger] modifiers_spec(
                            limits,
                            sides,
                            dice@.modifiers,
                            0,
                            start,
                            since(d1, rng.drawn()) + rest,
                        ) == modifiers_spec(
                            limits,
                            sides,
                            dice@.modifiers,
                            (i + 1) as nat,
                            Term { history: rolls@.history, faces: res@, strategy: modifier@ },
                            rest,
                        ) by {
                        lemma_tape(since(d1, d2), drawn_here, rest);
                        assert(modifiers_spec(
                            limits,
                            sides,
                            dice@.modifiers,
                            0,
                            start,
                            since(d1, d2) + (drawn_here + rest),
                        ) == modifiers_spec(
                            limits,
                            sides,
                            dice@.modifiers,
                            i as nat,
                            here,
                            drawn_here + rest,
                        ));
                        let asked_here = option_spec(
                            limits,
                            sides,
                            dice@.modifiers[i as int],
                            here.history,
                            here.faces,
                            drawn_here + rest,
                        );
                        assert(asked_here == (Ok::<Term, Fault>(asked_term), rest));
                    }
                }
            },
            Err(e) => {
                let out: Result<SingleRollResult, RollError> = Err(e);
                proof {
                    assert forall|rest: Seq<u64>|
                        {
                            let expected = #[trigger] dice_spec(
                                limits,
                                dice@,
                                since(d0, rng.drawn()) + rest,
                            );
                            yields(out, expected.0) && expected.1 == rest
                        } by {
                        let later = since(d1, rng.drawn()) + rest;
                        lemma_tape(first, since(d1, rng.drawn()), rest);
                        lemma_tape(Seq::empty(), first, later);
                        lemma_dealt(first, later, sides);
                        lemma_tape(since(d1, d2), drawn_here, rest);
                        assert(modifiers_spec(
                            limits,
                            sides,
                            dice@.modifiers,
                            0,
                            start,
                            since(d1, d2) + (drawn_here + rest),
                        ) == modifiers_spec(
                            limits,
                            sides,
                            dice@.modifiers,
                            i as nat,
                            here,
                            drawn_here + rest,
                        ));
                        let asked_here = option_spec(
                            limits,
                            sides,
                            dice@.modifiers[i as int],
                            here.history,
                            here.faces,
                            drawn_here + rest,
                        );
                        assert(asked_here.1 == rest);
                    }
                }
                return out;
            },
        }
        i = i + 1;
    }
    let ghost history = rolls@.history;
    let total = rolls.compute_total(&modifier);
    let out = match total {
        Ok(_) => Ok(rolls),
        Err(e) => Err(e),
    };
    proof {
        lemma_grown_twice(d0, d1, rng.drawn());
        lemma_fair_dice(d0, rng.drawn(), a0, rng.asked(), sides, most_sides(limits));
        assert forall|rest: Seq<u64>|
            {
                let expected = #[trigger] dice_spec(limits, dice@, since(d0, rng.drawn()) + rest);
                yields(out, expected.0) && expected.1 == rest
            } by {
            let later = since(d1, rng.drawn()) + rest;
            lemma_tape(first, since(d1, rng.drawn()), rest);
            lemma_tape(Seq::empty(), first, later);
            lemma_dealt(first, later, sides);
            assert(modifiers_spec(limits, sides, dice@.modifiers, 0, start, later) == (
                Ok::<Term, Fault>(Term { history, faces: res@, strategy: modifier@ }),
                rest,
            ));
        }
    }
    out
}

/// The sum so far of an expression as a mathematical value.
pub open spec fn sum_view(sum: Option<(SingleRollResult, Operator)>) -> Option<(Single, Operator)> {
    match sum {
        Some((s, op)) => Some((s@, op)),
        None => None,
    }
}

/// Whether `out` is the sum and product `expected` or reports the fault
/// `expected`.
pub open spec fn steps_to(
    out: Result<(Option<(SingleRollResult, Operator)>, SingleRollResult), RollError>,
    expected: Result<(Option<(Single, Operator)>, Single), Fault>,
) -> bool {
    match expected {
        Ok(v) => out matches Ok(o) && sum_view(o.0) == v.0 && o.1@ == v.1,
        Err(f) => out matches Err(e) && e.reports(f),
    }
}

/// The sum so far with the product so far.
fn fold(sum: Option<(SingleRollResult, Operator)>, product: SingleRollResult) -> (out: Result<
    SingleRollResult,
    RollError,
>)
    ensures
        yields(out, folded(sum_view(sum), product@)),
{
    match sum {
        Some((s, op)) => s.combine(op, product),
        None => Ok(product),
    }
}

/// Evaluates one operand.
pub fn compute_operand<R: Recorded>(limits: Limits, operand: &Operand, rng: &mut R) -> (out: Result<
    SingleRollResult,
    RollError,
>)
    ensures
        grown(old(rng).drawn(), final(rng).drawn()),
        fair_dice(
            old(rng).drawn(),
            final(rng).drawn(),
            old(rng).asked(),
            final(rng).asked(),
            most_sides(limits),
        ),
        forall|rest: Seq<u64>|
            {
                let expected = #[trigger] operand_spec(
                    limits,
                    operand@,
                    since(old(rng).drawn(), final(rng).drawn()) + rest,
                );
                &&& yields(out, expected.0)
                &&& expected.1 == rest
                &&& operand_asked(
                    limits,
                    operand@,
                    since(old(rng).drawn(), final(rng).drawn()) + rest,
                ) == since(old(rng).asked(), final(rng).asked())
            },
        old(rng).script() matches Some(tape) ==> {
            let expected = operand_spec(limits, operand@, tape);
            yields(out, expected.0) && final(rng).script() == Some(expected.1)
        },
        old(rng).script() is None ==> final(rng).script() is None,
    decreases operand, 0nat,
{
    let ghost d0 = rng.drawn();
    let ghost a0 = rng.asked();
    proof {
        lemma_grown_by(a0, Seq::empty());
        lemma_grown_by(d0, Seq::empty());
        lemma_same_dice_none(d0, rng.asked(), most_sides(limits));
        assert forall|rest: Seq<u64>| #[trigger] (since(d0, d0) + rest) == rest by {
            lemma_tape(Seq::empty(), Seq::empty(), rest);
        }
    }
    let out = match operand {
        Operand::Integer(i) => Ok(SingleRollResult::with_total(*i)),
        Operand::Decimal(d) => Ok(SingleRollResult::with_decimal(*d)),
        Operand::Dice(dice) => compute_roll(limits, dice, rng),
        Operand::Block(e) => compute(limits, e, rng, true),
    };
    proof {
        assert forall|rest: Seq<u64>|
            {
                let expected = #[trigger] operand_spec(
                    limits,
                    operand@,
                    since(d0, rng.drawn()) + rest,
                );
                &&& yields(out, expected.0)
                &&& expected.1 == rest
                &&& operand_asked(limits, operand@, since(d0, rng.drawn()) + rest) == since(
                    a0,
                    rng.asked(),
                )
            } by {
            let tape = since(d0, rng.drawn()) + rest;
            match *operand {
                Operand::Dice(dice) => {
                    assert(dice_spec(limits, dice@, tape).1 == rest);
                    lemma_dice_asked(limits, dice@, d0, rng.drawn(), a0, rng.asked(), rest);
                },
                Operand::Block(e) => {
                    assert(expression_spec(limits, e@, tape).1 == rest);
                },
                _ => {},
            }
        }
    }
    out
}

/// Takes the operator `op` and its right operand into the sum and the
/// product of an expression.
fn climb_once<R: Recorded>(
    limits: Limits,
    op: Operator,
    operand: &Operand,
    sum: Option<(SingleRollResult, Operator)>,
    product: SingleRollResult,
    rng: &mut R,
) -> (out: Result<(Option<(SingleRollResult, Operator)>, SingleRollResult), RollError>)
    ensures
        grown(old(rng).drawn(), final(rng).drawn()),
        fair_dice(
            old(rng).drawn(),
            final(rng).drawn(),
            old(rng).asked(),
            final(rng).asked(),
            most_sides(limits),
        ),
        forall|rest: Seq<u64>|
            {
                let expected = #[trigger] climb_step(
                    limits,
                    op,
                    operand@,
                    sum_view(sum),
                    product@,
                    since(old(rng).drawn(), final(rng).drawn()) + rest,
                );
                &&& steps_to(out, expected.0)
                &&& expected.1 == rest
                &&& step_asked(
                    limits,
                    op,
                    operand@,
                    sum_view(sum),
                    product@,
                    since(old(rng).drawn(), final(rng).drawn()) + rest,
                ) == since(old(rng).asked(), final(rng).asked())
            },
        old(rng).script() matches Some(tape) ==> {
            let expected = climb_step(limits, op, operand@, sum_view(sum), product@, tape);
            steps_to(out, expected.0) && final(rng).script() == Some(expected.1)
        },
        old(rng).script() is None ==> final(rng).script() is None,
    decreases operand, 1nat,
{
    let ghost d0 = rng.drawn();
    let ghost a0 = rng.asked();
    proof {
        lemma_grown_by(a0, Seq::empty());
        lemma_grown_by(d0, Seq::empty());
        lemma_same_dice_none(d0, rng.asked(), most_sides(limits));
        assert forall|rest: Seq<u64>| #[trigger] (since(d0, d0) + rest) == rest by {
            lemma_tape(Seq::empty(), Seq::empty(), rest);
        }
    }
    let tighter = match op {
        Operator::Mul => true,
        Operator::Div => true,
        _ => false,
    };
    if tighter {
        let right = compute_operand(limits, operand, rng);
        let out = match right {
            Ok(v) => match product.combine(op, v) {
                Ok(p) => Ok((sum, p)),
                Err(e) => Err(e),
            },
            Err(e) => Err(e),
        };
        proof {
            assert forall|rest: Seq<u64>|
                {
                    let expected = #[trigger] climb_step(
                        limits,
                        op,
                        operand@,
                        sum_view(sum),
                        product@,
                        since(d0, rng.drawn()) + rest,
                    );
                    &&& steps_to(out, expected.0)
                    &&& expected.1 == rest
                    &&& step_asked(
                        limits,
                        op,
                        operand@,
                        sum_view(sum),
                        product@,
                        since(d0, rng.drawn()) + rest,
                    ) == since(a0, rng.asked())
                } by {
                let right_spec = operand_spec(limits, operand@, since(d0, rng.drawn()) + rest);
                assert(right_spec.1 == rest);
            }
        }
        out
    } else {
        let ghost sum0 = sum_view(sum);
        let ghost product0 = product@;
        match fold(sum, product) {
            Ok(s) => {
                let right = compute_operand(limits, operand, rng);
                let out = match right {
                    Ok(v) => Ok((Some((s, op)), v)),
                    Err(e) => Err(e),
                };
                proof {
                    assert forall|rest: Seq<u64>|
                        {
                            let expected = #[trigger] climb_step(
                                limits,
                                op,
                                operand@,
                                sum0,
                                product0,
                                since(d0, rng.drawn()) + rest,
                            );
                            &&& steps_to(out, expected.0)
                            &&& expected.1 == rest
                            &&& step_asked(
                                limits,
                                op,
                                operand@,
                                sum0,
                                product0,
                                since(d0, rng.drawn()) + rest,
                            ) == since(a0, rng.asked())
                        } by {
                        let right_spec = operand_spec(
                            limits,
                            operand@,
                            since(d0, rng.drawn()) + rest,
                        );
                        assert(right_spec.1 == rest);
                    }
                }
                out
            },
            Err(e) => Err(e),
        }
    }
}

/// Evaluates an expression: its operands from left to right, `*` and `/`
/// before `+` and `-`. The result of a block stands in parentheses.
pub fn compute<R: Recorded>(
    limits: Limits,
    expr: &Expression,
    rng: &mut R,
    is_block: bool,
) -> (out: Result<
    SingleRollResult,
    RollError,
>)
    ensures
        grown(old(rng).drawn(), final(rng).drawn()),
        fair_dice(
            old(rng).drawn(),
            final(rng).drawn(),
            old(rng).asked(),
            final(rng).asked(),
            most_sides(limits),
        ),
        forall|rest: Seq<u64>|
            {
                let expected = #[trigger] expression_spec(
                    limits,
                    expr@,
                    since(old(rng).drawn(), final(rng).drawn()) + rest,
                );
                &&& yields(
                    out,
                    match expected.0 {
                        Ok(r) => Ok(wrapped(r, is_block)),
                        Err(f) => Err(f),
                    },
                )
                &&& expected.1 == rest
                &&& expression_asked(
                    limits,
                    expr@,
                    since(old(rng).drawn(), final(rng).drawn()) + rest,
                ) == since(old(rng).asked(), final(rng).asked())
            },
        old(rng).script() matches Some(tape) ==> {
            let expected = expression_spec(limits, expr@, tape);
            yields(
                out,
                match expected.0 {
                    Ok(r) => Ok(wrapped(r, is_block)),
                    Err(f) => Err(f),
                },
            ) && final(rng).script() == Some(expected.1)
        },
        old(rng).script() is None ==> final(rng).script() is None,
    decreases expr, expr.rest@.len() + 1,
{
    let ghost d0 = rng.drawn();
    let ghost a0 = rng.asked();
    let ghost s0 = rng.script();
    proof {
        lemma_expression_view(*expr);
    }
    let first = compute_operand(limits, &expr.first, rng);
    let ghost d1 = rng.drawn();
    let ghost a1 = rng.asked();
    let ghost s1 = rng.script();
    let mut product = match first {
        Ok(v) => v,
        Err(e) => {
            let out: Result<SingleRollResult, RollError> = Err(e);
            proof {
                assert forall|rest: Seq<u64>|
                    {
                        let expected = #[trigger] expression_spec(
                            limits,
                            expr@,
                            since(d0, rng.drawn()) + rest,
                        );
                        &&& yields(
                            out,
                            match expected.0 {
                                Ok(r) => Ok(wrapped(r, is_block)),
                                Err(f) => Err(f),
                            },
                        )
                        &&& expected.1 == rest
                        &&& expression_asked(limits, expr@, since(d0, rng.drawn()) + rest) == since(
                            a0,
                            rng.asked(),
                        )
                    } by {
                    assert(
                        operand_spec(limits, expr.first@, since(d0, rng.drawn()) + rest).1 == rest
                    );
                    assert(since(a0, rng.asked()) + Seq::<u64>::empty() =~= since(a0, rng.asked()));
                }
            }
            return out;
        },
    };
    let mut sum: Option<(SingleRollResult, Operator)> = None;
    let mut i: usize = 0;
    let ghost product0 = product@;
    proof {
        lemma_grown_by(d1, Seq::empty());
        lemma_grown_by(a1, Seq::empty());
        assert forall|rest: Seq<u64>|
            #[trigger] climb(
                limits,
                expr@,
                0,
                None,
                product0,
                since(d1, rng.drawn()) + rest,
            ) == climb(limits, expr@, 0, sum_view(sum), product@, rest) && climb_asked(
                limits,
                expr@,
                0,
                None,
                product0,
                since(d1, rng.drawn()) + rest,
            ) == since(a1, rng.asked()) + climb_asked(
                limits,
                expr@,
                0,
                sum_view(sum),
                product@,
                rest,
            ) by {
            lemma_tape(Seq::empty(), Seq::empty(), rest);
            lemma_asked_twice(
                a1,
                a1,
                a1,
                climb_asked(limits, expr@, 0, sum_view(sum), product@, rest),
            );
        }
    }
    while i < expr.rest.len()
        invariant
            i <= expr.rest@.len(),
            d0 == old(rng).drawn(),
            a0 == old(rng).asked(),
            s0 == old(rng).script(),
            grown(d0, d1),
            grown(d1, rng.drawn()),
            fair_dice(d0, rng.drawn(), a0, rng.asked(), most_sides(limits)),
            s0 is None ==> rng.script() is None,
            s0 matches Some(tape) ==> s1 is Some && rng.script() is Some && operand_spec(
                limits,
                expr.first@,
                tape,
            ) == (Ok::<Single, Fault>(product0), s1->0) && climb(
                limits,
                expr@,
                0,
                None,
                product0,
                s1->0,
            ) == climb(limits, expr@, i as nat, sum_view(sum), product@, rng.script()->0),
            grown(a0, a1),
            grown(a1, rng.asked()),
            forall|rest: Seq<u64>|
                #[trigger] operand_spec(limits, expr.first@, since(d0, d1) + rest) == (
                    Ok::<Single, Fault>(product0),
                    rest,
                ) && operand_asked(limits, expr.first@, since(d0, d1) + rest) == since(a0, a1),
            forall|rest: Seq<u64>|
                #[trigger] climb(
                    limits,
                    expr@,
                    0,
                    None,
                    product0,
                    since(d1, rng.drawn()) + rest,
                ) == climb(limits, expr@, i as nat, sum_view(sum), product@, rest) && climb_asked(
                    limits,
                    expr@,
                    0,
                    None,
                    product0,
                    since(d1, rng.drawn()) + rest,
                ) == since(a1, rng.asked()) + climb_asked(
                    limits,
                    expr@,
                    i as nat,
                    sum_view(sum),
                    product@,
                    rest,
                ),
        decreases expr.rest.len() - i,
    {
        let ghost d2 = rng.drawn();
        let ghost a2 = rng.asked();
        let ghost s2 = rng.script();
        proof {
            lemma_expression_view(*expr);
        }
        let ghost sum2 = sum_view(sum);
        let ghost product2 = product@;
        let op = expr.rest[i].0;
        let next = climb_once(limits, op, &expr.rest[i].1, sum, product, rng);
        let ghost drawn_here = since(d2, rng.drawn());
        proof {
            lemma_grown_twice(d1, d2, rng.drawn());
            lemma_grown_twice(d0, d1, rng.drawn());
            lemma_fair_dice_more(d0, d2, rng.drawn(), a0, a2, rng.asked(), most_sides(limits));
            lemma_grown_twice(a1, a2, rng.asked());
            if s2 is Some {
                let step = climb_step(
                    limits,
                    op,
                    expr.rest@[i as int].1@,
                    sum2,
                    product2,
                    s2->0,
                );
                assert(steps_to(next, step.0));
                assert(rng.script() == Some(step.1));
            }
        }
        match next {
            Ok((s, p)) => {
                sum = s;
                product = p;
                proof {
                    assert forall|rest: Seq<u64>|
                        #[trigger] climb(
                            limits,
                            expr@,
                            0,
                            None,
                            product0,
                            since(d1, rng.drawn()) + rest,
                        ) == climb(
                            limits,
                            expr@,
                            (i + 1) as nat,
                            sum_view(sum),
                            product@,
                            rest,
                        ) && climb_asked(
                            limits,
                            expr@,
                            0,
                            None,
                            product0,
                            since(d1, rng.drawn()) + rest,
                        ) == since(a1, rng.asked()) + climb_asked(
                            limits,
                            expr@,
                            (i + 1) as nat,
                            sum_view(sum),
                            product@,
                            rest,
                        ) by {
                        lemma_tape(since(d1, d2), drawn_here, rest);
                        lemma_asked_twice(
                            a1,
                            a2,
                            rng.asked(),
                            climb_asked(
                                limits,
                                expr@,
                                (i + 1) as nat,
                                sum_view(sum),
                                product@,
                                rest,
                            ),
                        );
                        assert(climb(
                            limits,
                            expr@,
                            0,
                            None,
                            product0,
                            since(d1, d2) + (drawn_here + rest),
                        ) == climb(limits, expr@, i as nat, sum2, product2, drawn_here + rest));
                        let step = climb_step(
                            limits,
                            op,
                            expr.rest@[i as int].1@,
                            sum2,
                            product2,
                            drawn_here + rest,
                        );
                        assert(step.1 == rest);
                    }
                }
            },
            Err(e) => {
                let out: Result<SingleRollResult, RollError> = Err(e);
                proof {
                    assert forall|rest: Seq<u64>|
                        {
                            let expected = #[trigger] expression_spec(
                                limits,
                                expr@,
                                since(d0, rng.drawn()) + rest,
                            );
                            &&& yields(
                                out,
                                match expected.0 {
                                    Ok(r) => Ok(wrapped(r, is_block)),
                                    Err(f) => Err(f),
                                },
                            )
                            &&& expected.1 == rest
                            &&& expression_asked(
                                limits,
                                expr@,
                                since(d0, rng.drawn()) + rest,
                            ) == since(a0, rng.asked())
                        } by {
                        let later = since(d1, rng.drawn()) + rest;
                        lemma_tape(since(d0, d1), since(d1, rng.drawn()), rest);
                        assert(operand_spec(limits, expr.first@, since(d0, d1) + later).1 == later);
                        lemma_tape(since(d1, d2), drawn_here, rest);
                        assert(climb(
                            limits,
                            expr@,
                            0,
                            None,
                            product0,
                            since(d1, d2) + (drawn_here + rest),
                        ) == climb(limits, expr@, i as nat, sum2, product2, drawn_here + rest));
                        let step = climb_step(
                            limits,
                            op,
                            expr.rest@[i as int].1@,
                            sum2,
                            product2,
                            drawn_here + rest,
                        );
                        assert(step.1 == rest);
                        lemma_asked_twice(a1, a2, rng.asked(), Seq::empty());
                        lemma_asked_twice(a0, a1, rng.asked(), Seq::empty());
                        assert(since(a0, rng.asked()) + Seq::<u64>::empty() =~= since(
                            a0,
                            rng.asked(),
                        ));
                    }
                }
                return out;
            },
        }
        i = i + 1;
    }
    proof {
        lemma_expression_view(*expr);
    }
    let ghost sum3 = sum_view(sum);
    let ghost product3 = product@;
    let out = match fold(sum, product) {
        Ok(mut r) => {
            if is_block {
                r.add_parenthesis();
            }
            Ok(r)
        },
        Err(e) => Err(e),
    };
    proof {
        lemma_grown_twice(d0, d1, rng.drawn());
        assert forall|rest: Seq<u64>|
            {
                let expected = #[trigger] expression_spec(
                    limits,
                    expr@,
                    since(d0, rng.drawn()) + rest,
                );
                &&& yields(
                    out,
                    match expected.0 {
                        Ok(r) => Ok(wrapped(r, is_block)),
                        Err(f) => Err(f),
                    },
                )
                &&& expected.1 == rest
                &&& expression_asked(limits, expr@, since(d0, rng.drawn()) + rest) == since(
                    a0,
                    rng.asked(),
                )
            } by {
            let later = since(d1, rng.drawn()) + rest;
            lemma_tape(since(d0, d1), since(d1, rng.drawn()), rest);
            assert(operand_spec(limits, expr.first@, since(d0, d1) + later).1 == later);
            assert(climb(limits, expr@, 0, None, product0, later) == climb(
                limits,
                expr@,
                expr.rest@.len(),
                sum3,
                product3,
                rest,
            ));
            lemma_asked_twice(a0, a1, rng.asked(), Seq::empty());
            assert(since(a1, rng.asked()) + Seq::<u64>::empty() =~= since(a1, rng.asked()));
        }
    }
    out
}

} // verus!
