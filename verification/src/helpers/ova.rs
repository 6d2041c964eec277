//! Helpers for "OVA: The Anime Role-Playing Game result"

use crate::diceresult::DiceResult;
use crate::error::{Fault, RollError};
use crate::render::faces_of;
use crate::rollhistory::{RollHistory, Step};
use crate::rollresult::{Outcome, RollResult, Rolled};
use crate::singlerollresult::{Single, SingleRollResult};
use vstd::prelude::*;
use vstd::seq_lib::{to_multiset_build, to_multiset_insert};

verus! {

/// Whether the faces of `dice` never fall from one die to the next.
pub open spec fn rising(dice: Seq<DiceResult>) -> bool {
    forall|i: int, j: int| 0 <= i < j < dice.len() ==> dice[i].res <= dice[j].res
}

/// The number of `faces` that are `face`.
pub open spec fn count_of_face(faces: Seq<u64>, face: u64) -> nat
    decreases faces.len(),
{
    if faces.len() == 0 {
        0
    } else {
        count_of_face(faces.drop_last(), face) + if faces.last() == face {
            1nat
        } else {
            0nat
        }
    }
}

/// The best of the first `n` of `faces` among all of them: dice that show
/// the same face are added up, and the highest of these sums is taken.
pub open spec fn best_of(faces: Seq<u64>, n: nat) -> nat
    decreases n,
{
    if n == 0 || n > faces.len() {
        0
    } else {
        let before = best_of(faces, (n - 1) as nat);
        let face = faces[n - 1];
        let sum = face * count_of_face(faces, face);
        if sum > before {
            sum as nat
        } else {
            before
        }
    }
}

/// The best of the first `n` of `faces` that are under `bound`.
pub open spec fn best_under(faces: Seq<u64>, n: nat, bound: int) -> nat
    decreases n,
{
    if n == 0 || n > faces.len() {
        0
    } else {
        let before = best_under(faces, (n - 1) as nat, bound);
        let face = faces[n - 1];
        let sum = face * count_of_face(faces, face);
        if face < bound && sum > before {
            sum as nat
        } else {
            before
        }
    }
}

/// The total of a positive roll: dice that show the same face are added up,
/// and the highest of these sums is the total. Without dice it is zero.
pub open spec fn positive_total(faces: Seq<u64>) -> nat {
    best_of(faces, faces.len())
}

/// The lowest of `faces`. Meaningful where there are some.
pub open spec fn lowest(faces: Seq<u64>) -> u64
    decreases faces.len(),
{
    if faces.len() <= 1 {
        faces[0]
    } else if faces.last() <= lowest(faces.drop_last()) {
        faces.last()
    } else {
        lowest(faces.drop_last())
    }
}

/// The total of the roll `dice` for `number`: the total of a positive roll
/// where `number` is positive, the lowest die where it is negative. A fault
/// where the total does not fit 63 bits, and where the lowest of no dice is
/// asked for.
pub open spec fn ova_total(dice: Seq<DiceResult>, number: i32) -> Result<i64, Fault> {
    let faces = faces_of(dice);
    let total = if number > 0 {
        positive_total(faces) as int
    } else {
        lowest(faces) as int
    };
    if number <= 0 && faces.len() == 0 {
        Err(Fault::NoDice)
    } else if total > i64::MAX {
        Err(Fault::Overflow)
    } else {
        Ok(total as i64)
    }
}

/// The dice of the one batch of a single roll, or the fault that keeps the
/// roll from being read so.
pub open spec fn one_roll(res: Outcome) -> Result<Seq<DiceResult>, Fault> {
    match res.result {
        Rolled::Single(single) => if single.history.len() != 1 {
            Err(Fault::NotOneRoll)
        } else {
            match single.history[0] {
                Step::Roll(dice) => Ok(dice),
                _ => Err(Fault::NotARoll),
            }
        },
        Rolled::Repeated(_) => Err(Fault::NotSingle),
    }
}

/// The dice in rising order of their faces.
fn sort_dice(dice: &Vec<DiceResult>) -> (out: Vec<DiceResult>)
    ensures
        rising(out@),
        out@.to_multiset() == dice@.to_multiset(),
        out@.len() == dice@.len(),
{
    let mut out: Vec<DiceResult> = Vec::new();
    let mut i: usize = 0;
    assert(out@ =~= dice@.take(0));
    while i < dice.len()
        invariant
            i <= dice@.len(),
            out@.len() == i,
            rising(out@),
            out@.to_multiset() == dice@.take(i as int).to_multiset(),
        decreases dice.len() - i,
    {
        let x = dice[i];
        let mut pos: usize = out.len();
        while pos > 0 && out[pos - 1].res > x.res
            invariant
                pos <= out@.len(),
                forall|k: int| pos <= k < out@.len() ==> out@[k].res > x.res,
            decreases pos,
        {
            pos = pos - 1;
        }
        let ghost before = out@;
        out.insert(pos, x);
        proof {
            to_multiset_insert(before, pos as int, x);
            assert(dice@.take(i + 1) =~= dice@.take(i as int).push(x));
            to_multiset_build(dice@.take(i as int), x);
            assert forall|a: int, b: int| 0 <= a < b < out@.len() implies out@[a].res
                <= out@[b].res by {
                if a < pos && b > pos {
                    assert(out@[a] == before[a]);
                    assert(out@[b] == before[b - 1]);
                } else if a < pos && b == pos {
                    assert(out@[a] == before[a]);
                    if a < pos - 1 {
                        assert(before[a].res <= before[pos - 1].res);
                    }
                } else if a < pos && b < pos {
                    assert(out@[a] == before[a]);
                    assert(out@[b] == before[b]);
                } else if a == pos {
                    assert(out@[b] == before[b - 1]);
                } else {
                    assert(out@[a] == before[a - 1]);
                    assert(out@[b] == before[b - 1]);
                }
            }
        }
        i = i + 1;
    }
    assert(dice@.take(dice@.len() as int) =~= dice@);
    out
}

/// Whether `faces` never fall from one to the next.
pub open spec fn rising_faces(faces: Seq<u64>) -> bool {
    forall|i: int, j: int| 0 <= i < j < faces.len() ==> faces[i] <= faces[j]
}

proof fn lemma_count_bound(faces: Seq<u64>, face: u64)
    ensures
        count_of_face(faces, face) <= faces.len(),
    decreases faces.len(),
{
    if faces.len() > 0 {
        lemma_count_bound(faces.drop_last(), face);
    }
}

/// A face that none of `faces` shows is counted zero times.
proof fn lemma_count_absent(faces: Seq<u64>, face: u64)
    requires
        forall|k: int| 0 <= k < faces.len() ==> faces[k] != face,
    ensures
        count_of_face(faces, face) == 0,
    decreases faces.len(),
{
    if faces.len() > 0 {
        lemma_count_absent(faces.drop_last(), face);
    }
}

/// Where no face from `i` on is `face`, the first `i` faces hold all of them.
proof fn lemma_count_prefix(faces: Seq<u64>, i: int, face: u64)
    requires
        0 <= i <= faces.len(),
        forall|k: int| i <= k < faces.len() ==> faces[k] != face,
    ensures
        count_of_face(faces, face) == count_of_face(faces.take(i), face),
    decreases faces.len() - i,
{
    if i == faces.len() {
        assert(faces.take(i) =~= faces);
    } else {
        assert(faces.drop_last().take(i) =~= faces.take(i));
        lemma_count_prefix(faces.drop_last(), i, face);
    }
}

/// The lowest of rising faces is the first.
proof fn lemma_lowest_of_rising(faces: Seq<u64>)
    requires
        rising_faces(faces),
        faces.len() > 0,
    ensures
        lowest(faces) == faces[0],
    decreases faces.len(),
{
    if faces.len() > 1 {
        let before = faces.drop_last();
        assert(rising_faces(before)) by {
            assert forall|i: int, j: int| 0 <= i < j < before.len() implies before[i]
                <= before[j] by {
                assert(before[i] == faces[i]);
                assert(before[j] == faces[j]);
            }
        }
        lemma_lowest_of_rising(before);
        assert(before[0] == faces[0]);
    }
}

/// What raising the bound from `last` to a higher face adds to the best of
/// the first `j` faces, none of which is over `last`: the sum of the dice
/// that show `last`, if one of them does.
proof fn lemma_best_under_raised(faces: Seq<u64>, j: nat, last: u64, bound: int)
    requires
        j <= faces.len(),
        last < bound,
        forall|k: int| 0 <= k < j ==> faces[k] <= last,
    ensures
        ({
            let sum = (last * count_of_face(faces, last)) as nat;
            let shown = exists|k: int| 0 <= k < j && faces[k] == last;
            best_under(faces, j, bound) == if shown && sum > best_under(faces, j, last as int) {
                sum
            } else {
                best_under(faces, j, last as int)
            }
        }),
    decreases j,
{
    if j > 0 {
        lemma_best_under_raised(faces, (j - 1) as nat, last, bound);
        let face = faces[j - 1];
        let before_shown = exists|k: int| 0 <= k < j - 1 && faces[k] == last;
        if face == last {
            assert(exists|k: int| 0 <= k < j && faces[k] == last);
        } else {
            if before_shown {
                let k = choose|k: int| 0 <= k < j - 1 && faces[k] == last;
                assert(0 <= k < j && faces[k] == last);
            }
            if exists|k: int| 0 <= k < j && faces[k] == last {
                let k = choose|k: int| 0 <= k < j && faces[k] == last;
                assert(0 <= k < j - 1 && faces[k] == last);
            }
        }
    }
}

/// A bound over each of the first `j` faces leaves none of them out.
proof fn lemma_best_under_all(faces: Seq<u64>, j: nat, bound: int)
    requires
        j <= faces.len(),
        forall|k: int| 0 <= k < j ==> faces[k] < bound,
    ensures
        best_under(faces, j, bound) == best_of(faces, j),
    decreases j,
{
    if j > 0 {
        lemma_best_under_all(faces, (j - 1) as nat, bound);
    }
}

/// The total of the dice for `number`.
fn total_of(dice: &Vec<DiceResult>, number: i32) -> (out: Result<i64, RollError>)
    requires
        rising(dice@),
        number != 0,
    ensures
        match ova_total(dice@, number) {
            Ok(t) => out == Ok::<i64, RollError>(t),
            Err(f) => out matches Err(e) && e.reports(f),
        },
{
    let ghost faces = faces_of(dice@);
    assert(rising_faces(faces)) by {
        assert forall|i: int, j: int| 0 <= i < j < faces.len() implies faces[i] <= faces[j] by {
            assert(faces[i] == dice@[i].res);
            assert(faces[j] == dice@[j].res);
        }
    }
    if number < 0 {
        if dice.len() == 0 {
            return Err(RollError::refuse(Fault::NoDice));
        }
        proof {
            lemma_lowest_of_rising(faces);
        }
        let face = dice[0].res;
        if face > 0x7fff_ffff_ffff_ffff {
            return Err(RollError::refuse(Fault::Overflow));
        }
        return Ok(face as i64);
    }
    let mut last: u64 = 0;
    let mut acc: u128 = 0;
    let mut best: u128 = 0;
    let mut i: usize = 0;
    proof {
        assert(faces.take(0) =~= Seq::empty());
    }
    while i < dice.len()
        invariant
            i <= dice@.len(),
            faces == faces_of(dice@),
            rising_faces(faces),
            i == 0 ==> last == 0,
            i > 0 ==> last == faces[i - 1],
            acc == last * count_of_face(faces.take(i as int), last),
            best == best_under(faces, i as nat, last as int),
        decreases dice.len() - i,
    {
        let x = dice[i].res;
        let ghost seen = faces.take(i as int);
        proof {
            assert(faces[i as int] == x);
            assert(faces.take(i + 1) =~= seen.push(x));
            assert(faces.take(i + 1).drop_last() =~= seen);
            lemma_count_bound(seen, last);
            lemma_count_bound(faces.take(i + 1), last);
            assert(last * count_of_face(seen, last) <= 0xffff_ffff_ffff_ffff
                * 0xffff_ffff_ffff_ffff) by (nonlinear_arith)
                requires
                    0 <= last <= 0xffff_ffff_ffff_ffff,
                    0 <= count_of_face(seen, last) <= 0xffff_ffff_ffff_ffff,
            ;
        }
        if last != x {
            proof {
                assert forall|k: int| 0 <= k < i implies faces[k] <= last by {
                    if i > 0 && k < i - 1 {
                        assert(faces[k] <= faces[i - 1]);
                    }
                }
                assert(last < x) by {
                    if i > 0 {
                        assert(faces[i - 1] <= faces[i as int]);
                    }
                }
                lemma_best_under_raised(faces, i as nat, last, x as int);
                assert forall|k: int| i <= k < faces.len() implies faces[k] != last by {
                    assert(faces[i as int] <= faces[k]);
                }
                lemma_count_prefix(faces, i as int, last);
                if !(exists|k: int| 0 <= k < i && faces[k] == last) {
                    if i > 0 {
                        assert(faces[i - 1] == last);
                    }
                    assert(last * count_of_face(seen, last) == 0) by (nonlinear_arith)
                        requires
                            i == 0 ==> last == 0,
                            i > 0 ==> false,
                    ;
                }
                assert forall|k: int| 0 <= k < seen.len() implies seen[k] != x by {
                    assert(seen[k] == faces[k]);
                }
                lemma_count_absent(seen, x);
                assert(x * count_of_face(faces.take(i + 1), x) == x) by (nonlinear_arith)
                    requires
                        count_of_face(faces.take(i + 1), x) == 1,
                ;
            }
            last = x;
            if acc > best {
                best = acc;
            }
            acc = x as u128;
        } else {
            proof {
                assert(last * count_of_face(faces.take(i + 1), last) == last * count_of_face(
                    seen,
                    last,
                ) + last) by (nonlinear_arith)
                    requires
                        count_of_face(faces.take(i + 1), last) == count_of_face(seen, last) + 1,
                ;
                lemma_count_bound(faces.take(i + 1), last);
                assert(last * count_of_face(faces.take(i + 1), last) <= 0xffff_ffff_ffff_ffff
                    * 0xffff_ffff_ffff_ffff) by (nonlinear_arith)
                    requires
                        0 <= last <= 0xffff_ffff_ffff_ffff,
                        0 <= count_of_face(faces.take(i + 1), last) <= 0xffff_ffff_ffff_ffff,
                ;
            }
            acc = acc + x as u128;
        }
        i = i + 1;
    }
    proof {
        assert(faces.take(faces.len() as int) =~= faces);
        assert forall|k: int| 0 <= k < faces.len() implies faces[k] < last + 1 by {
            if k < faces.len() - 1 {
                assert(faces[k] <= faces[faces.len() - 1]);
            }
        }
        lemma_best_under_raised(faces, faces.len(), last, last + 1);
        lemma_best_under_all(faces, faces.len(), last + 1);
        if faces.len() > 0 {
            assert(faces[faces.len() - 1] == last);
        }
    }
    if acc > best {
        best = acc;
    }
    if best > 0x7fff_ffff_ffff_ffff {
        return Err(RollError::refuse(Fault::Overflow));
    }
    Ok(best as i64)
}

/// Interpret the roll result as OVA: The Anime Role-Playing Game result
///
/// `res` has to be a single roll of one batch of dice. For a positive
/// `number`, dice that show the same face are added up and the highest of
/// these sums is the total. For a negative `number` the lowest die is the
/// total. The result holds the dice in rising order.
pub fn compute_ova(res: &RollResult, number: i32) -> (out: Result<RollResult, RollError>)
    ensures
        number == 0 ==> (out matches Err(e) && e.reports(Fault::ZeroNumber)),
        number != 0 ==> match one_roll(res@) {
            Ok(dice) => match out {
                Ok(o) => {
                    &&& o@.reason is None
                    &&& o@.result matches Rolled::Single(single)
                    &&& single.history.len() == 1
                    &&& single.history[0] matches Step::Roll(sorted)
                    &&& rising(sorted)
                    &&& sorted.to_multiset() == dice.to_multiset()
                    &&& ova_total(sorted, number) == Ok::<i64, Fault>(single.total)
                    &&& !single.dirty
                    &&& single.constant is None
                },
                Err(e) => exists|sorted: Seq<DiceResult>|
                    #![trigger ova_total(sorted, number)]
                    rising(sorted) && sorted.to_multiset() == dice.to_multiset() && (ova_total(
                        sorted,
                        number,
                    ) matches Err(f) && e.reports(f)),
            },
            Err(f) => out matches Err(e) && e.reports(f),
        },
{
    if number == 0 {
        return Err(RollError::refuse(Fault::ZeroNumber));
    }
    let single = match res.as_single() {
        Some(single) => single,
        None => {
            return Err(RollError::refuse(Fault::NotSingle));
        },
    };
    let history = single.get_history();
    if history.len() != 1 {
        return Err(RollError::refuse(Fault::NotOneRoll));
    }
    let dice = match &history[0] {
        RollHistory::Roll(dice) => dice,
        _ => {
            return Err(RollError::refuse(Fault::NotARoll));
        },
    };
    assert(crate::rollhistory::steps(history@)[0] == history@[0]@);
    let sorted = sort_dice(dice);
    match total_of(&sorted, number) {
        Ok(total) => Ok(
            RollResult::new_single(SingleRollResult::with_total_and_hist(total, sorted)),
        ),
        Err(e) => Err(e),
    }
}

} // verus!
