//! What is proved of the evaluation as a whole.

use crate::engine::lemma_dealt_more;
use crate::error::{Fault, RollError};
use crate::limits::Limits;
use crate::number::{fits_i64, Operator};
use crate::render::outcome_text;
use crate::roller::{request_spec, told};
use crate::rollhistory::{flat_values, step_values, Step};
use crate::rollresult::RollResult;
use crate::semantics::{
    climb, climb_step, copies, count_at_least, dice_asked, dice_spec, explosions, expression_spec,
    folded, modifiers_spec, operand_spec, ordered_by_total, recorded, reroll_spec, rerolls, slot,
    term_fault, threshold, Term,
};
use crate::singlerollresult::{batch, combined, dice_of, is_zero_spec, roll_total, Single};
use crate::sorting::{ascending, descending, lemma_ascending};
use crate::source::{dealt, left, next_face};
use crate::syntax::{DiceView, ExpressionView, ModifierView};
use crate::total::{points, strategy_total, total_points, Strategy};
use vstd::prelude::*;
use vstd::seq_lib::{to_multiset_build, to_multiset_insert, to_multiset_remove};

verus! {

/// The points of a list are those of the list without one of its values,
/// and the points of that value.
pub proof fn lemma_total_points_remove(strategy: Strategy, values: Seq<i64>, i: int)
    requires
        0 <= i < values.len(),
    ensures
        total_points(strategy, values) == total_points(strategy, values.remove(i)) + points(
            strategy,
            values[i],
        ),
    decreases values.len(),
{
    if i == values.len() - 1 {
        assert(values.remove(i) =~= values.drop_last());
    } else {
        lemma_total_points_remove(strategy, values.drop_last(), i);
        assert(values.remove(i).drop_last() =~= values.drop_last().remove(i));
        assert(values.remove(i).last() == values.last());
    }
}

/// The points of a list do not depend on the order of its values.
pub proof fn lemma_total_points_any_order(strategy: Strategy, a: Seq<i64>, b: Seq<i64>)
    requires
        a.to_multiset() == b.to_multiset(),
    ensures
        total_points(strategy, a) == total_points(strategy, b),
    decreases a.len(),
{
    a.to_multiset_ensures();
    b.to_multiset_ensures();
    if a.len() == 0 {
        assert(b.len() == 0);
    } else {
        let x = a.last();
        assert(a.to_multiset().count(x) > 0) by {
            assert(a.contains(x));
        }
        assert(b.contains(x));
        let j = choose|j: int| 0 <= j < b.len() && b[j] == x;
        assert(a =~= a.drop_last().push(x));
        to_multiset_build(a.drop_last(), x);
        to_multiset_remove(b, j);
        assert(a.drop_last().to_multiset() =~= a.to_multiset().remove(x));
        lemma_total_points_any_order(strategy, a.drop_last(), b.remove(j));
        lemma_total_points_remove(strategy, b, j);
    }
}

/// A plain sum is the sum of every value in the history, whatever the order
/// in which the values stand there.
pub proof fn lemma_plain_sum(history: Seq<Step>)
    ensures
        match roll_total(Strategy::Sum, history) {
            Ok(total) => total == sum_of(flat_values(history)),
            Err(f) => f == Fault::Overflow && !fits_i64(sum_of(flat_values(history))),
        },
{
    let flat = flat_values(history);
    lemma_ascending(flat);
    lemma_total_points_any_order(Strategy::Sum, ascending(flat), flat);
    lemma_sum_of_points(flat);
    lemma_sum_of_points(ascending(flat));
    assert(ascending(flat).subrange(0, ascending(flat).len() as int) =~= ascending(flat));
}

/// The points of two lists, one behind the other, are those of the one and
/// those of the other.
pub proof fn lemma_total_points_concat(strategy: Strategy, a: Seq<i64>, b: Seq<i64>)
    ensures
        total_points(strategy, a + b) == total_points(strategy, a) + total_points(strategy, b),
    decreases b.len(),
{
    if b.len() == 0 {
        assert(a + b =~= a);
    } else {
        lemma_total_points_concat(strategy, a, b.drop_last());
        assert((a + b).drop_last() =~= a + b.drop_last());
    }
}

/// What is kept and what is dropped make up the whole: the sum of the `n`
/// highest values and the sum of all but the `n` highest are together the
/// sum of all values, and so for the lowest.
pub proof fn lemma_kept_and_dropped(n: u64, sorted: Seq<i64>)
    requires
        n <= sorted.len(),
    ensures
        strategy_total(Strategy::KeepHi(n), sorted)->Ok_0 + strategy_total(
            Strategy::DropHi(n),
            sorted,
        )->Ok_0 == sum_of(sorted),
        strategy_total(Strategy::KeepLo(n), sorted)->Ok_0 + strategy_total(
            Strategy::DropLo(n),
            sorted,
        )->Ok_0 == sum_of(sorted),
        strategy_total(Strategy::KeepHi(n), sorted) is Ok,
        strategy_total(Strategy::DropHi(n), sorted) is Ok,
        strategy_total(Strategy::KeepLo(n), sorted) is Ok,
        strategy_total(Strategy::DropLo(n), sorted) is Ok,
{
    let len = sorted.len() as int;
    let low = sorted.subrange(0, len - n);
    let high = sorted.subrange(len - n, len);
    assert(low + high =~= sorted);
    lemma_sum_of_concat(low, high);
    lemma_points_are_values(Strategy::KeepHi(n), high);
    lemma_points_are_values(Strategy::DropHi(n), low);
    let first = sorted.subrange(0, n as int);
    let others = sorted.subrange(n as int, len);
    assert(first + others =~= sorted);
    lemma_sum_of_concat(first, others);
    lemma_points_are_values(Strategy::KeepLo(n), first);
    lemma_points_are_values(Strategy::DropLo(n), others);
}

/// Where dice are kept or dropped, or summed, each value counts as itself.
proof fn lemma_points_are_values(strategy: Strategy, values: Seq<i64>)
    requires
        crate::total::kept_or_dropped(strategy) is Some || strategy == Strategy::Sum,
    ensures
        total_points(strategy, values) == sum_of(values),
    decreases values.len(),
{
    if values.len() > 0 {
        lemma_points_are_values(strategy, values.drop_last());
    }
}

/// The sum of `values`.
pub open spec fn sum_of(values: Seq<i64>) -> int
    decreases values.len(),
{
    if values.len() == 0 {
        0
    } else {
        sum_of(values.drop_last()) + values.last()
    }
}

/// The sum of `faces`, each counted as it is in a total.
pub open spec fn face_sum(faces: Seq<u64>) -> int
    decreases faces.len(),
{
    if faces.len() == 0 {
        0
    } else {
        face_sum(faces.drop_last()) + (faces.last() as i64)
    }
}

proof fn lemma_sum_of_points(values: Seq<i64>)
    ensures
        total_points(Strategy::Sum, values) == sum_of(values),
    decreases values.len(),
{
    if values.len() > 0 {
        lemma_sum_of_points(values.drop_last());
    }
}

proof fn lemma_sum_of_concat(a: Seq<i64>, b: Seq<i64>)
    ensures
        sum_of(a + b) == sum_of(a) + sum_of(b),
    decreases b.len(),
{
    if b.len() == 0 {
        assert(a + b =~= a);
    } else {
        lemma_sum_of_concat(a, b.drop_last());
        assert((a + b).drop_last() =~= a + b.drop_last());
    }
}

proof fn lemma_face_sum_concat(a: Seq<u64>, b: Seq<u64>)
    ensures
        face_sum(a + b) == face_sum(a) + face_sum(b),
    decreases b.len(),
{
    if b.len() == 0 {
        assert(a + b =~= a);
    } else {
        lemma_face_sum_concat(a, b.drop_last());
        assert((a + b).drop_last() =~= a + b.drop_last());
    }
}

proof fn lemma_face_sum_remove(faces: Seq<u64>, i: int)
    requires
        0 <= i < faces.len(),
    ensures
        face_sum(faces) == face_sum(faces.remove(i)) + (faces[i] as i64),
    decreases faces.len(),
{
    if i == faces.len() - 1 {
        assert(faces.remove(i) =~= faces.drop_last());
    } else {
        lemma_face_sum_remove(faces.drop_last(), i);
        assert(faces.remove(i).drop_last() =~= faces.drop_last().remove(i));
        assert(faces.remove(i).last() == faces.last());
    }
}

proof fn lemma_face_sum_any_order(a: Seq<u64>, b: Seq<u64>)
    requires
        a.to_multiset() == b.to_multiset(),
    ensures
        face_sum(a) == face_sum(b),
    decreases a.len(),
{
    a.to_multiset_ensures();
    b.to_multiset_ensures();
    if a.len() == 0 {
        assert(b.len() == 0);
    } else {
        let x = a.last();
        assert(a.to_multiset().count(x) > 0) by {
            assert(a.contains(x));
        }
        assert(b.contains(x));
        let j = choose|j: int| 0 <= j < b.len() && b[j] == x;
        assert(a =~= a.drop_last().push(x));
        to_multiset_build(a.drop_last(), x);
        to_multiset_remove(b, j);
        assert(a.drop_last().to_multiset() =~= a.to_multiset().remove(x));
        lemma_face_sum_any_order(a.drop_last(), b.remove(j));
        lemma_face_sum_remove(b, j);
    }
}

/// The values of a batch of dice sum up to the sum of their faces.
proof fn lemma_batch_sum(faces: Seq<u64>, sides: u64)
    ensures
        sum_of(step_values(batch(faces, sides, false))) == face_sum(faces),
{
    let sorted = descending(faces);
    lemma_ascending(faces);
    ascending(faces).lemma_reverse_to_multiset();
    lemma_face_sum_any_order(sorted, faces);
    lemma_values_sum(dice_of(sorted, sides), sorted);
}

proof fn lemma_values_sum(dice: Seq<crate::diceresult::DiceResult>, faces: Seq<u64>)
    requires
        dice.len() == faces.len(),
        forall|i: int| 0 <= i < dice.len() ==> dice[i].res == faces[i],
    ensures
        sum_of(step_values(Step::Roll(dice))) == face_sum(faces),
    decreases dice.len(),
{
    let values = step_values(Step::Roll(dice));
    if dice.len() > 0 {
        lemma_values_sum(dice.drop_last(), faces.drop_last());
        assert(values.drop_last() =~= step_values(Step::Roll(dice.drop_last())));
    }
}

/// The rounds of an indefinite explosion gather the faces that they take
/// from the tape, in the order of the tape.
proof fn lemma_explosions(
    limits: Limits,
    sides: u64,
    value: u64,
    nb: nat,
    gathered: Seq<u64>,
    faces: Seq<u64>,
    fuel: nat,
    tape: Seq<u64>,
)
    ensures
        explosions(limits, sides, value, nb, gathered, faces, fuel, tape) matches (
            Ok((all, last)),
            rest,
        )
            ==> exists|used: nat|
            rest == left(tape, used) && all == gathered + #[trigger] dealt(tape, used, sides),
    decreases fuel,
{
    if nb == 0 {
        assert(dealt(tape, 0, sides) =~= Seq::empty());
        assert(left(tape, 0) =~= tape);
        assert(tape == left(tape, 0) && gathered =~= gathered + dealt(tape, 0, sides));
    } else if fuel == 0 {
    } else {
        let new = dealt(tape, nb, sides);
        let later = left(tape, nb);
        lemma_explosions(
            limits,
            sides,
            value,
            count_at_least(new, value),
            gathered + new,
            new,
            (fuel - 1) as nat,
            later,
        );
        let rounds = explosions(limits, sides, value, nb, gathered, faces, fuel, tape);
        if rounds.0 is Ok {
            let all = rounds.0->Ok_0.0;
            let rest = rounds.1;
            let more = choose|more: nat|
                rest == left(later, more) && all == (gathered + new) + #[trigger] dealt(
                    later,
                    more,
                    sides,
                );
            lemma_dealt_more(tape, nb, more, sides);
            assert(rest == left(tape, nb + more));
            assert(all =~= gathered + dealt(tape, nb + more, sides));
        }
    }
}

/// With an indefinite explosion the total is the sum of every die that was
/// rolled, in the first round and in every round of explosions.
///
/// `dice` rolls its dice and lets them explode indefinitely. Where that
/// yields a result, the term has taken some number of faces from the tape,
/// and the total is their sum. The history holds the dice of the first
/// round, and behind them those of all rounds of explosions as one batch.
pub proof fn lemma_indefinite_explosion_total(limits: Limits, dice: DiceView, tape: Seq<u64>)
    requires
        term_fault(limits, dice) is None,
        dice.sides is Number,
        dice.modifiers.len() == 1,
        dice.modifiers[0] is IndefiniteExplode,
    ensures
        dice_spec(limits, dice, tape) matches (Ok(r), rest) ==> exists|used: nat|
            {
                let count = crate::semantics::count_of(dice.count) as nat;
                let sides = crate::semantics::sides_of(dice.sides);
                &&& count <= used
                &&& rest == #[trigger] left(tape, used)
                &&& r.total == face_sum(dealt(tape, used, sides))
                &&& r.history == if used > count {
                    seq![
                        batch(dealt(tape, count, sides), sides, false),
                        batch(dealt(left(tape, count), (used - count) as nat, sides), sides, false),
                    ]
                } else {
                    seq![batch(dealt(tape, count, sides), sides, false)]
                }
            },
{
    let count = crate::semantics::count_of(dice.count) as nat;
    let sides = crate::semantics::sides_of(dice.sides);
    let given = dice.modifiers[0]->IndefiniteExplode_0;
    let first = dealt(tape, count, sides);
    let later = left(tape, count);
    let start = Term { history: Seq::empty(), faces: first, strategy: Strategy::Sum };
    let value = threshold(given, sides);
    reveal_with_fuel(modifiers_spec, 3);
    lemma_explosions(
        limits,
        sides,
        value,
        count_at_least(first, value),
        Seq::empty(),
        first,
        limits.max_iterations as nat,
        later,
    );
    let whole = dice_spec(limits, dice, tape);
    if whole.0 is Ok {
        let r = whole.0->Ok_0;
        let rest = whole.1;
        let rounds = explosions(
            limits,
            sides,
            value,
            count_at_least(first, value),
            Seq::empty(),
            first,
            limits.max_iterations as nat,
            later,
        );
        assert(rounds.0 is Ok);
        let all = rounds.0->Ok_0.0;
        let more = choose|more: nat|
            rest == left(later, more) && all == Seq::<u64>::empty() + #[trigger] dealt(
                later,
                more,
                sides,
            );
        assert(all =~= dealt(later, more, sides));
        let h = r.history;
        lemma_plain_sum(h);
        let one = seq![batch(first, sides, false)];
        assert(recorded(start.history, start.faces, sides) =~= one);
        crate::singlerollresult::lemma_flat_values_push(Seq::empty(), batch(first, sides, false));
        assert(flat_values(Seq::<Step>::empty()) =~= Seq::<i64>::empty());
        assert(Seq::<Step>::empty().push(batch(first, sides, false)) =~= one);
        lemma_sum_of_concat(Seq::empty(), step_values(batch(first, sides, false)));
        lemma_batch_sum(first, sides);
        lemma_dealt_more(tape, count, more, sides);
        lemma_face_sum_concat(first, dealt(later, more, sides));
        if all.len() > 0 {
            assert(h =~= seq![batch(first, sides, false), batch(all, sides, false)]);
            crate::singlerollresult::lemma_flat_values_push(one, batch(all, sides, false));
            assert(one.push(batch(all, sides, false)) =~= h);
            lemma_sum_of_concat(flat_values(one), step_values(batch(all, sides, false)));
            lemma_batch_sum(all, sides);
        } else {
            assert(more == 0);
            assert(face_sum(dealt(later, more, sides)) == 0);
        }
        assert(count <= count + more && rest == left(tape, count + more) && r.total == face_sum(
            dealt(tape, count + more, sides),
        ) && r.history == if count + more > count {
            seq![
                batch(dealt(tape, count, sides), sides, false),
                batch(dealt(left(tape, count), (count + more - count) as nat, sides), sides, false),
            ]
        } else {
            seq![batch(dealt(tape, count, sides), sides, false)]
        });
    }
}

/// A round in which no die explodes ends an indefinite explosion: no more
/// dice are rolled.
pub proof fn lemma_explosion_ends(
    limits: Limits,
    sides: u64,
    value: u64,
    nb: nat,
    gathered: Seq<u64>,
    faces: Seq<u64>,
    fuel: nat,
    tape: Seq<u64>,
)
    requires
        nb > 0,
        fuel > 0,
        count_at_least(dealt(tape, nb, sides), value) == 0,
    ensures
        explosions(limits, sides, value, nb, gathered, faces, fuel, tape) == (
            Ok::<(Seq<u64>, Seq<u64>), Fault>(
                (gathered + dealt(tape, nb, sides), dealt(tape, nb, sides)),
            ),
            left(tape, nb),
        ),
{
    reveal_with_fuel(explosions, 2);
}

/// Without modifiers a dice term asks for as many dice as it has, each of
/// the sides of the term: six for fudge dice.
pub proof fn lemma_plain_dice_asked(
    limits: Limits,
    dice: DiceView,
    faces: Seq<u64>,
    rest: Seq<u64>,
)
    requires
        term_fault(limits, dice) is None,
        dice.modifiers.len() == 0,
        faces.len() == crate::semantics::count_of(dice.count),
    ensures
        dice_asked(limits, dice, faces + rest) == copies(
            crate::semantics::count_of(dice.count) as nat,
            crate::semantics::sides_of(dice.sides),
        ),
{
    assert(left(faces + rest, faces.len()) =~= rest);
}

/// Without modifiers the total of a dice term is the sum of its dice.
pub proof fn lemma_plain_dice_total(limits: Limits, dice: DiceView, tape: Seq<u64>)
    requires
        term_fault(limits, dice) is None,
        dice.sides is Number,
        dice.modifiers.len() == 0,
    ensures
        dice_spec(limits, dice, tape).1 == left(
            tape,
            crate::semantics::count_of(dice.count) as nat,
        ),
        dice_spec(limits, dice, tape).0 matches Ok(r) ==> r.total == face_sum(
            dealt(
                tape,
                crate::semantics::count_of(dice.count) as nat,
                crate::semantics::sides_of(dice.sides),
            ),
        ),
{
    let count = crate::semantics::count_of(dice.count) as nat;
    let sides = crate::semantics::sides_of(dice.sides);
    let first = dealt(tape, count, sides);
    let history = seq![batch(first, sides, false)];
    lemma_plain_sum(history);
    crate::singlerollresult::lemma_flat_values_push(Seq::empty(), batch(first, sides, false));
    assert(flat_values(Seq::<Step>::empty()) =~= Seq::<i64>::empty());
    assert(Seq::<Step>::empty().push(batch(first, sides, false)) =~= history);
    lemma_sum_of_concat(Seq::empty(), step_values(batch(first, sides, false)));
    lemma_batch_sum(first, sides);
}

/// Where `slot` puts a total into a list.
proof fn lemma_slot(sorted: Seq<Single>, total: i64)
    ensures
        slot(sorted, total) <= sorted.len(),
        forall|k: int| 0 <= k < slot(sorted, total) ==> (#[trigger] sorted[k]).total < total,
        slot(sorted, total) < sorted.len() ==> sorted[slot(sorted, total) as int].total >= total,
    decreases sorted.len(),
{
    if sorted.len() == 0 || sorted[0].total >= total {
    } else {
        let later = sorted.skip(1);
        lemma_slot(later, total);
        assert forall|k: int| 0 <= k < slot(sorted, total) implies (#[trigger] sorted[k]).total
            < total by {
            if k > 0 {
                assert(sorted[k] == later[k - 1]);
            }
        }
        if slot(sorted, total) < sorted.len() {
            assert(sorted[slot(sorted, total) as int] == later[slot(later, total) as int]);
        }
    }
}

/// Results that are ordered by their totals are the same results, each as
/// often as before, with totals that never fall from one to the next.
pub proof fn lemma_ordered_by_total(rolls: Seq<Single>)
    ensures
        ordered_by_total(rolls).len() == rolls.len(),
        ordered_by_total(rolls).to_multiset() == rolls.to_multiset(),
        forall|i: int, j: int|
            0 <= i < j < rolls.len() ==> (#[trigger] ordered_by_total(rolls)[i]).total <= (
            #[trigger] ordered_by_total(rolls)[j]).total,
    decreases rolls.len(),
{
    if rolls.len() == 0 {
        assert(rolls =~= Seq::empty());
    } else {
        let later = ordered_by_total(rolls.skip(1));
        let x = rolls[0];
        let pos = slot(later, x.total) as int;
        lemma_ordered_by_total(rolls.skip(1));
        lemma_slot(later, x.total);
        let out = later.insert(pos, x);
        to_multiset_insert(later, pos, x);
        assert(rolls =~= seq![x] + rolls.skip(1));
        assert(rolls.to_multiset() =~= rolls.skip(1).to_multiset().insert(x)) by {
            to_multiset_insert(rolls.skip(1), 0, x);
            assert(rolls.skip(1).insert(0, x) =~= rolls);
        }
        assert(out.to_multiset() =~= rolls.to_multiset());
        assert forall|i: int, j: int| 0 <= i < j < rolls.len() implies (#[trigger] out[i]).total
            <= (#[trigger] out[j]).total by {
            if j < pos {
                assert(out[i] == later[i]);
                assert(out[j] == later[j]);
            } else if j == pos {
                assert(out[i] == later[i]);
            } else if i == pos {
                assert(out[j] == later[j - 1]);
                if pos < j - 1 {
                    assert(later[pos].total <= later[j - 1].total);
                }
            } else if i < pos {
                assert(out[i] == later[i]);
                assert(out[j] == later[j - 1]);
            } else {
                assert(out[i] == later[i - 1]);
                assert(out[j] == later[j - 1]);
            }
        }
    }
}

/// The results of `rolls` whose total is `total`, in their order.
pub open spec fn with_total(rolls: Seq<Single>, total: i64) -> Seq<Single>
    decreases rolls.len(),
{
    if rolls.len() == 0 {
        Seq::empty()
    } else if rolls[0].total == total {
        seq![rolls[0]] + with_total(rolls.skip(1), total)
    } else {
        with_total(rolls.skip(1), total)
    }
}

/// What a result adds to those with the total `total`: itself, if that is
/// its total.
pub open spec fn if_total(x: Single, total: i64) -> Seq<Single> {
    if x.total == total {
        seq![x]
    } else {
        Seq::empty()
    }
}

/// The results with a given total in a list into which one was put are
/// those before its place, the one itself if it has that total, and those
/// behind its place.
proof fn lemma_with_total_insert(rolls: Seq<Single>, pos: int, x: Single, total: i64)
    requires
        0 <= pos <= rolls.len(),
    ensures
        with_total(rolls.insert(pos, x), total) == with_total(rolls.take(pos), total) + if_total(
            x,
            total,
        ) + with_total(rolls.skip(pos), total),
        with_total(rolls, total) == with_total(rolls.take(pos), total) + with_total(
            rolls.skip(pos),
            total,
        ),
    decreases pos,
{
    if pos == 0 {
        assert(rolls.take(0) =~= Seq::empty());
        assert(rolls.skip(0) =~= rolls);
        assert(rolls.insert(0, x).skip(1) =~= rolls);
        assert(rolls.insert(0, x)[0] == x);
        assert(with_total(rolls.insert(0, x), total) =~= if_total(x, total) + with_total(
            rolls,
            total,
        ));
        assert(with_total(rolls.take(0), total) + if_total(x, total) + with_total(rolls, total)
            =~= if_total(x, total) + with_total(rolls, total));
        assert(with_total(rolls.take(0), total) + with_total(rolls, total) =~= with_total(
            rolls,
            total,
        ));
    } else {
        let later = rolls.skip(1);
        lemma_with_total_insert(later, pos - 1, x, total);
        assert(rolls.insert(pos, x).skip(1) =~= later.insert(pos - 1, x));
        assert(rolls.insert(pos, x)[0] == rolls[0]);
        assert(rolls.take(pos).skip(1) =~= later.take(pos - 1));
        assert(rolls.take(pos)[0] == rolls[0]);
        assert(later.skip(pos - 1) =~= rolls.skip(pos));
        let head = if_total(rolls[0], total);
        let before = with_total(later.take(pos - 1), total);
        let behind = with_total(rolls.skip(pos), total);
        assert(with_total(rolls.take(pos), total) =~= head + before);
        assert(with_total(rolls.insert(pos, x), total) =~= head + (before + if_total(x, total)
            + behind));
        assert(head + (before + if_total(x, total) + behind) =~= (head + before) + if_total(
            x,
            total,
        ) + behind);
        assert(with_total(rolls, total) =~= head + (before + behind));
        assert(head + (before + behind) =~= (head + before) + behind);
    }
}

/// No result has a total that all results are under.
proof fn lemma_with_total_none(rolls: Seq<Single>, total: i64)
    requires
        forall|k: int| 0 <= k < rolls.len() ==> (#[trigger] rolls[k]).total != total,
    ensures
        with_total(rolls, total) == Seq::<Single>::empty(),
    decreases rolls.len(),
{
    if rolls.len() > 0 {
        assert forall|k: int| 0 <= k < rolls.skip(1).len() implies (#[trigger] rolls.skip(
            1,
        )[k]).total != total by {
            assert(rolls.skip(1)[k] == rolls[k + 1]);
        }
        lemma_with_total_none(rolls.skip(1), total);
    }
}

/// Results with equal totals stay in the order in which they came: for
/// every total, the results with that total are the same before and after,
/// in the same order.
pub proof fn lemma_ordered_by_total_is_stable(rolls: Seq<Single>, total: i64)
    ensures
        with_total(ordered_by_total(rolls), total) == with_total(rolls, total),
    decreases rolls.len(),
{
    if rolls.len() > 0 {
        let later = ordered_by_total(rolls.skip(1));
        let x = rolls[0];
        let pos = slot(later, x.total) as int;
        lemma_ordered_by_total_is_stable(rolls.skip(1), total);
        lemma_ordered_by_total(rolls.skip(1));
        lemma_slot(later, x.total);
        lemma_with_total_insert(later, pos, x, total);
        if x.total == total {
            assert forall|k: int| 0 <= k < later.take(pos).len() implies (#[trigger] later.take(
                pos,
            )[k]).total != total by {
                assert(later.take(pos)[k] == later[k]);
            }
            lemma_with_total_none(later.take(pos), total);
            assert(with_total(later.insert(pos, x), total) =~= seq![x] + with_total(
                later,
                total,
            ));
        } else {
            assert(with_total(later.insert(pos, x), total) =~= with_total(later, total));
        }
    }
}

/// A division by an operand that is zero is refused, whatever stands on the
/// left: there is no result.
pub proof fn lemma_division_by_zero(l: Single, r: Single)
    requires
        is_zero_spec(r),
    ensures
        combined(Operator::Div, l, r) == Err::<Single, Fault>(Fault::DivisionByZero),
{
}

/// Any other division of results has a result or is out of range.
pub proof fn lemma_division_otherwise(l: Single, r: Single)
    requires
        !is_zero_spec(r),
    ensures
        combined(Operator::Div, l, r) is Ok || combined(Operator::Div, l, r) == Err::<
            Single,
            Fault,
        >(Fault::Overflow),
{
}

/// The same text with the same faces yields the same outcome, and the same
/// outcome is shown as the same text: of two rolls that both come to what
/// the text yields from `faces`, either both are the same outcome, shown
/// alike, or both are the same error.
pub proof fn lemma_same_faces_same_outcome(
    limits: Limits,
    text: Seq<char>,
    faces: Seq<u64>,
    one: Result<RollResult, RollError>,
    other: Result<RollResult, RollError>,
)
    requires
        told(one, request_spec(limits, text, faces).0),
        told(other, request_spec(limits, text, faces).0),
    ensures
        one matches Ok(a) ==> (other matches Ok(b) && a@ == b@ && outcome_text(a@, true)
            == outcome_text(b@, true) && outcome_text(a@, false) == outcome_text(b@, false)),
        one matches Err(e) ==> (other matches Err(f) && e@ == f@),
{
}

/// A target and a double target may be written in either order: the way to
/// the total is the same.
pub proof fn lemma_targets_in_any_order(
    limits: Limits,
    sides: u64,
    target: u64,
    double: u64,
    t: Term,
    tape: Seq<u64>,
)
    requires
        !(t.strategy is TargetFailureDouble),
    ensures
        ({
            let one = modifiers_spec(
                limits,
                sides,
                seq![ModifierView::Target(target), ModifierView::DoubleTarget(double)],
                0,
                t,
                tape,
            );
            let other = modifiers_spec(
                limits,
                sides,
                seq![ModifierView::DoubleTarget(double), ModifierView::Target(target)],
                0,
                t,
                tape,
            );
            &&& one.0 matches Ok(a)
            &&& other.0 matches Ok(b)
            &&& a == b
            &&& one.1 == tape
            &&& other.1 == tape
            &&& a.strategy == Strategy::TargetFailureDouble(
                crate::semantics::limit(target),
                None,
                crate::semantics::limit(double),
            )
        }),
{
    reveal_with_fuel(modifiers_spec, 4);
}

/// An expression `a / b` whose right operand comes to zero has no result:
/// both operands are evaluated, and the division is refused.
pub proof fn lemma_quotient_by_zero(limits: Limits, e: ExpressionView, tape: Seq<u64>)
    requires
        e.rest.len() == 1,
        e.rest[0].0 == Operator::Div,
        operand_spec(limits, e.first, tape).0 is Ok,
        operand_spec(limits, e.rest[0].1, operand_spec(limits, e.first, tape).1).0 matches Ok(r)
            && is_zero_spec(r),
    ensures
        expression_spec(limits, e, tape) == (
            Err::<Single, Fault>(Fault::DivisionByZero),
            operand_spec(limits, e.rest[0].1, operand_spec(limits, e.first, tape).1).1,
        ),
{
    let first = operand_spec(limits, e.first, tape);
    let second = operand_spec(limits, e.rest[0].1, first.1);
    let step = climb_step(limits, Operator::Div, e.rest[0].1, None, first.0->Ok_0, first.1);
    assert(step == (
        Err::<(Option<(Single, Operator)>, Single), Fault>(Fault::DivisionByZero),
        second.1,
    ));
    assert(climb(limits, e, 0, None, first.0->Ok_0, first.1) == (
        Err::<Single, Fault>(Fault::DivisionByZero),
        second.1,
    ));
}

/// The number of `faces` that are at most `value`.
pub open spec fn count_at_most(faces: Seq<u64>, value: u64) -> nat
    decreases faces.len(),
{
    if faces.len() == 0 {
        0
    } else {
        count_at_most(faces.drop_last(), value) + if faces.last() <= value {
            1nat
        } else {
            0nat
        }
    }
}

proof fn lemma_count_at_most_first(faces: Seq<u64>, value: u64)
    requires
        faces.len() > 0,
    ensures
        count_at_most(faces, value) == count_at_most(faces.skip(1), value) + if faces[0]
            <= value {
            1nat
        } else {
            0nat
        },
    decreases faces.len(),
{
    if faces.len() == 1 {
        assert(faces.drop_last().len() == 0);
        assert(faces.skip(1).len() == 0);
        assert(faces.last() == faces[0]);
        assert(count_at_most(faces.drop_last(), value) == 0);
        assert(count_at_most(faces.skip(1), value) == 0);
    } else {
        let later = faces.skip(1);
        lemma_count_at_most_first(faces.drop_last(), value);
        assert(faces.drop_last().skip(1) =~= later.drop_last());
        assert(later.last() == faces.last());
        assert(faces.drop_last()[0] == faces[0]);
        let last: nat = if later.last() <= value {
            1
        } else {
            0
        };
        assert(count_at_most(later, value) == count_at_most(later.drop_last(), value) + last);
    }
}

/// What a reroll of the dice from `i` on does: every die keeps its place;
/// a die over `value` keeps its face, and the dice at or under `value` take
/// the next faces of the tape, in the order of the dice.
proof fn lemma_rerolls(
    sides: u64,
    value: u64,
    faces: Seq<u64>,
    i: nat,
    out: Seq<u64>,
    chains: Seq<Seq<crate::diceresult::DiceResult>>,
    tape: Seq<u64>,
)
    requires
        i <= faces.len(),
    ensures
        ({
            let all = rerolls(sides, value, faces, i, out, chains, tape);
            let taken = count_at_most(faces.skip(i as int), value);
            &&& all.0.len() == out.len() + faces.len() - i
            &&& all.0.take(out.len() as int) == out
            &&& all.2 == left(tape, taken)
            &&& forall|k: int|
                i <= k < faces.len() ==> #[trigger] all.0[out.len() + k - i] == if faces[k]
                    <= value {
                    dealt(tape, taken, sides)[count_at_most(
                        faces.subrange(i as int, k),
                        value,
                    ) as int]
                } else {
                    faces[k]
                }
        }),
    decreases faces.len() - i,
{
    let rest_faces = faces.skip(i as int);
    if i >= faces.len() {
        assert(out.take(out.len() as int) =~= out);
        assert(left(tape, 0) =~= tape);
    } else {
        let x = faces[i as int];
        lemma_count_at_most_first(rest_faces, value);
        assert(rest_faces.skip(1) =~= faces.skip(i + 1 as int));
        assert(rest_faces[0] == x);
        let (out1, chains1, tape1) = if x <= value {
            (
                out.push(next_face(tape, sides)),
                chains.push(
                    seq![
                        crate::diceresult::die(x, sides),
                        crate::diceresult::die(next_face(tape, sides), sides),
                    ],
                ),
                left(tape, 1),
            )
        } else {
            (out.push(x), chains.push(seq![crate::diceresult::die(x, sides)]), tape)
        };
        lemma_rerolls(sides, value, faces, i + 1, out1, chains1, tape1);
        let all = rerolls(sides, value, faces, i, out, chains, tape);
        let later = count_at_most(faces.skip(i + 1 as int), value);
        let taken = count_at_most(rest_faces, value);
        assert(all == rerolls(sides, value, faces, i + 1, out1, chains1, tape1));
        assert(all.0.take(out.len() as int) =~= all.0.take(out1.len() as int).take(
            out.len() as int,
        ));
        assert(all.0.take(out.len() as int) =~= out);
        if x <= value {
            lemma_dealt_more(tape, 1, later, sides);
        } else {
            assert(left(tape, 0) =~= tape);
        }
        assert forall|k: int| i <= k < faces.len() implies #[trigger] all.0[out.len() + k - i]
            == if faces[k] <= value {
            dealt(tape, taken, sides)[count_at_most(faces.subrange(i as int, k), value) as int]
        } else {
            faces[k]
        } by {
            if k == i {
                assert(all.0.take(out1.len() as int)[out.len() as int] == out1[out.len() as int]);
                assert(faces.subrange(i as int, k).len() == 0);
            } else {
                assert(all.0[out1.len() + k - (i + 1)] == all.0[out.len() + k - i]);
                let before = faces.subrange(i as int, k);
                lemma_count_at_most_first(before, value);
                assert(before.skip(1) =~= faces.subrange(i + 1 as int, k));
                assert(before[0] == x);
                if faces[k] <= value {
                    lemma_count_at_most_within(faces, i + 1, k, value);
                }
            }
        }
    }
}

/// Fewer dice at or under `value` stand before the die `k` than from `i`
/// on, if the die `k` is one of them.
proof fn lemma_count_at_most_within(faces: Seq<u64>, i: nat, k: int, value: u64)
    requires
        i <= k < faces.len(),
        faces[k] <= value,
    ensures
        count_at_most(faces.subrange(i as int, k), value) < count_at_most(
            faces.skip(i as int),
            value,
        ),
    decreases faces.len() - k,
{
    let whole = faces.skip(i as int);
    if k == faces.len() - 1 {
        assert(whole.drop_last() =~= faces.subrange(i as int, k));
        assert(whole.last() == faces[k]);
    } else {
        lemma_count_at_most_within(faces.drop_last(), i, k, value);
        assert(faces.drop_last().subrange(i as int, k) =~= faces.subrange(i as int, k));
        assert(faces.drop_last().skip(i as int) =~= whole.drop_last());
    }
}

/// `r#` leaves every die in its place. A die over the number keeps its face;
/// the dice at or under the number take the next faces of the tape, one each,
/// in the order of the dice.
pub proof fn lemma_reroll(
    sides: u64,
    value: u64,
    history: Seq<Step>,
    faces: Seq<u64>,
    tape: Seq<u64>,
)
    ensures
        ({
            let (after, rest) = reroll_spec(sides, value, history, faces, tape);
            let taken = count_at_most(faces, value);
            &&& after.faces.len() == faces.len()
            &&& rest == left(tape, taken)
            &&& forall|k: int|
                0 <= k < faces.len() ==> #[trigger] after.faces[k] == if faces[k] <= value {
                    dealt(tape, taken, sides)[count_at_most(faces.take(k), value) as int]
                } else {
                    faces[k]
                }
        }),
{
    lemma_rerolls(sides, value, faces, 0, Seq::empty(), Seq::empty(), tape);
    assert(faces.skip(0) =~= faces);
    let all = rerolls(sides, value, faces, 0, Seq::empty(), Seq::empty(), tape);
    assert forall|k: int| 0 <= k < faces.len() implies #[trigger] all.0[k] == if faces[k]
        <= value {
        dealt(tape, count_at_most(faces, value), sides)[count_at_most(faces.take(k), value) as int]
    } else {
        faces[k]
    } by {
        assert(faces.subrange(0, k) =~= faces.take(k));
        assert(all.0[0 + k - 0] == all.0[k]);
    }
}

/// `a + b * c` and `a - b / c` are `a` with the product or the quotient of
/// `b` and `c`: what binds tighter is worked out first.
pub proof fn lemma_products_first(limits: Limits, e: ExpressionView, tape: Seq<u64>)
    requires
        e.rest.len() == 2,
        !crate::semantics::binds_tighter(e.rest[0].0),
        crate::semantics::binds_tighter(e.rest[1].0),
    ensures
        ({
            let a = operand_spec(limits, e.first, tape);
            let b = operand_spec(limits, e.rest[0].1, a.1);
            let c = operand_spec(limits, e.rest[1].1, b.1);
            a.0 is Ok && b.0 is Ok && c.0 is Ok ==> expression_spec(limits, e, tape) == (
                match combined(e.rest[1].0, b.0->Ok_0, c.0->Ok_0) {
                    Ok(product) => combined(e.rest[0].0, a.0->Ok_0, product),
                    Err(f) => Err(f),
                },
                c.1,
            )
        }),
{
    let a = operand_spec(limits, e.first, tape);
    let b = operand_spec(limits, e.rest[0].1, a.1);
    let c = operand_spec(limits, e.rest[1].1, b.1);
    if a.0 is Ok && b.0 is Ok && c.0 is Ok {
        let x = a.0->Ok_0;
        let y = b.0->Ok_0;
        let z = c.0->Ok_0;
        let first = climb_step(limits, e.rest[0].0, e.rest[0].1, None, x, a.1);
        assert(first == (
            Ok::<(Option<(Single, Operator)>, Single), Fault>((Some((x, e.rest[0].0)), y)),
            b.1,
        ));
        let second = climb_step(
            limits,
            e.rest[1].0,
            e.rest[1].1,
            Some((x, e.rest[0].0)),
            y,
            b.1,
        );
        match combined(e.rest[1].0, y, z) {
            Ok(product) => {
                assert(second == (
                    Ok::<(Option<(Single, Operator)>, Single), Fault>(
                        (Some((x, e.rest[0].0)), product),
                    ),
                    c.1,
                ));
                assert(climb(limits, e, 2, Some((x, e.rest[0].0)), product, c.1) == (
                    folded(Some((x, e.rest[0].0)), product),
                    c.1,
                ));
                assert(climb(limits, e, 1, Some((x, e.rest[0].0)), y, b.1) == climb(
                    limits,
                    e,
                    2,
                    Some((x, e.rest[0].0)),
                    product,
                    c.1,
                ));
            },
            Err(f) => {
                assert(second == (
                    Err::<(Option<(Single, Operator)>, Single), Fault>(f),
                    c.1,
                ));
                assert(climb(limits, e, 1, Some((x, e.rest[0].0)), y, b.1) == (
                    Err::<Single, Fault>(f),
                    c.1,
                ));
            },
        }
        assert(climb(limits, e, 0, None, x, a.1) == climb(
            limits,
            e,
            1,
            Some((x, e.rest[0].0)),
            y,
            b.1,
        ));
    }
}

/// `a - b + c` and `a / b * c` are worked out from the left: first `a` with
/// `b`, then the result with `c`.
pub proof fn lemma_from_the_left(limits: Limits, e: ExpressionView, tape: Seq<u64>)
    requires
        e.rest.len() == 2,
        crate::semantics::binds_tighter(e.rest[0].0) == crate::semantics::binds_tighter(
            e.rest[1].0,
        ),
    ensures
        ({
            let a = operand_spec(limits, e.first, tape);
            let b = operand_spec(limits, e.rest[0].1, a.1);
            a.0 is Ok && b.0 is Ok ==> match combined(e.rest[0].0, a.0->Ok_0, b.0->Ok_0) {
                Ok(left_part) => {
                    let c = operand_spec(limits, e.rest[1].1, b.1);
                    c.0 is Ok ==> expression_spec(limits, e, tape) == (
                        combined(e.rest[1].0, left_part, c.0->Ok_0),
                        c.1,
                    )
                },
                Err(f) => expression_spec(limits, e, tape).0 == Err::<Single, Fault>(f),
            }
        }),
{
    let a = operand_spec(limits, e.first, tape);
    let b = operand_spec(limits, e.rest[0].1, a.1);
    let c = operand_spec(limits, e.rest[1].1, b.1);
    if a.0 is Ok && b.0 is Ok {
        let x = a.0->Ok_0;
        let y = b.0->Ok_0;
        let tighter = crate::semantics::binds_tighter(e.rest[0].0);
        let first = climb_step(limits, e.rest[0].0, e.rest[0].1, None, x, a.1);
        match combined(e.rest[0].0, x, y) {
            Ok(left_part) => {
                let (sum1, product1) = if tighter {
                    (None::<(Single, Operator)>, left_part)
                } else {
                    (Some((x, e.rest[0].0)), y)
                };
                assert(first == (
                    Ok::<(Option<(Single, Operator)>, Single), Fault>((sum1, product1)),
                    b.1,
                ));
                assert(climb(limits, e, 0, None, x, a.1) == climb(
                    limits,
                    e,
                    1,
                    sum1,
                    product1,
                    b.1,
                ));
                if c.0 is Ok {
                    let z = c.0->Ok_0;
                    let second = climb_step(
                        limits,
                        e.rest[1].0,
                        e.rest[1].1,
                        sum1,
                        product1,
                        b.1,
                    );
                    match combined(e.rest[1].0, left_part, z) {
                        Ok(whole) => {
                            let (sum2, product2) = if tighter {
                                (None::<(Single, Operator)>, whole)
                            } else {
                                (Some((left_part, e.rest[1].0)), z)
                            };
                            assert(second == (
                                Ok::<(Option<(Single, Operator)>, Single), Fault>(
                                    (sum2, product2),
                                ),
                                c.1,
                            ));
                            assert(climb(limits, e, 2, sum2, product2, c.1) == (
                                folded(sum2, product2),
                                c.1,
                            ));
                            assert(climb(limits, e, 1, sum1, product1, b.1) == climb(
                                limits,
                                e,
                                2,
                                sum2,
                                product2,
                                c.1,
                            ));
                        },
                        Err(f) => {
                            if tighter {
                                assert(second == (
                                    Err::<(Option<(Single, Operator)>, Single), Fault>(f),
                                    c.1,
                                ));
                                assert(climb(limits, e, 1, sum1, product1, b.1) == (
                                    Err::<Single, Fault>(f),
                                    c.1,
                                ));
                            } else {
                                assert(second == (
                                    Ok::<(Option<(Single, Operator)>, Single), Fault>(
                                        (Some((left_part, e.rest[1].0)), z),
                                    ),
                                    c.1,
                                ));
                                assert(climb(
                                    limits,
                                    e,
                                    2,
                                    Some((left_part, e.rest[1].0)),
                                    z,
                                    c.1,
                                ) == (Err::<Single, Fault>(f), c.1));
                                assert(climb(limits, e, 1, sum1, product1, b.1) == climb(
                                    limits,
                                    e,
                                    2,
                                    Some((left_part, e.rest[1].0)),
                                    z,
                                    c.1,
                                ));
                            }
                        },
                    }
                }
            },
            Err(f) => {
                if tighter {
                    assert(first == (
                        Err::<(Option<(Single, Operator)>, Single), Fault>(f),
                        b.1,
                    ));
                } else {
                    assert(first == (
                        Ok::<(Option<(Single, Operator)>, Single), Fault>(
                            (Some((x, e.rest[0].0)), y),
                        ),
                        b.1,
                    ));
                    assert(climb(limits, e, 0, None, x, a.1) == climb(
                        limits,
                        e,
                        1,
                        Some((x, e.rest[0].0)),
                        y,
                        b.1,
                    ));
                    let second = climb_step(
                        limits,
                        e.rest[1].0,
                        e.rest[1].1,
                        Some((x, e.rest[0].0)),
                        y,
                        b.1,
                    );
                    assert(second.0 == Err::<(Option<(Single, Operator)>, Single), Fault>(f));
                    assert(climb(limits, e, 1, Some((x, e.rest[0].0)), y, b.1).0 == Err::<
                        Single,
                        Fault,
                    >(f));
                }
            },
        }
    }
}

} // verus!
