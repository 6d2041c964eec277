//! How the values of a dice term are reduced to one total.

use crate::error::Fault;
use vstd::prelude::*;

verus! {

/// How the values of a term are reduced to its total.
#[derive(Debug, Clone)]
pub enum TotalModifier {
    /// The sum of the highest values, as many as given.
    KeepHi(u64),
    /// The sum of the lowest values, as many as given.
    KeepLo(u64),
    /// The sum of all but the highest values, as many as given.
    DropHi(u64),
    /// The sum of all but the lowest values, as many as given.
    DropLo(u64),
    /// A count of successes: the target, the failure and the double target,
    /// each of which may be absent.
    TargetFailureDouble(Option<u64>, Option<u64>, Option<u64>),
    /// A count of the values that are among those listed.
    TargetEnum(Vec<u64>),
    /// The sum of fudge dice.
    Fudge,
    /// The sum of all values.
    Sum,
}

/// A [`TotalModifier`] as a mathematical value.
pub ghost enum Strategy {
    KeepHi(u64),
    KeepLo(u64),
    DropHi(u64),
    DropLo(u64),
    TargetFailureDouble(Option<u64>, Option<u64>, Option<u64>),
    TargetEnum(Seq<u64>),
    Fudge,
    Sum,
}

impl View for TotalModifier {
    type V = Strategy;

    open spec fn view(&self) -> Strategy {
        match *self {
            TotalModifier::KeepHi(n) => Strategy::KeepHi(n),
            TotalModifier::KeepLo(n) => Strategy::KeepLo(n),
            TotalModifier::DropHi(n) => Strategy::DropHi(n),
            TotalModifier::DropLo(n) => Strategy::DropLo(n),
            TotalModifier::TargetFailureDouble(t, f, d) => Strategy::TargetFailureDouble(t, f, d),
            TotalModifier::TargetEnum(list) => Strategy::TargetEnum(list@),
            TotalModifier::Fudge => Strategy::Fudge,
            TotalModifier::Sum => Strategy::Sum,
        }
    }
}

/// What one value is worth where successes are counted: two at or over
/// the double target, else one at or over the target, else minus one at or
/// under the failure, else nothing. The value is compared as the unsigned
/// integer with the same 64 bits.
pub open spec fn successes(t: Option<u64>, f: Option<u64>, d: Option<u64>, x: i64) -> int {
    let x = x as u64;
    if d is Some && x >= d->0 {
        2
    } else if t is Some && x >= t->0 {
        1
    } else if f is Some && x <= f->0 {
        -1
    } else {
        0
    }
}

/// What a fudge die is worth: faces up to 2 count minus one, faces up to 4
/// nothing, higher faces one.
pub open spec fn fudge_points(x: i64) -> int {
    if x <= 2 {
        -1
    } else if x <= 4 {
        0
    } else {
        1
    }
}

/// What one value adds to the total under a strategy.
pub open spec fn points(strategy: Strategy, x: i64) -> int {
    match strategy {
        Strategy::TargetFailureDouble(t, f, d) => successes(t, f, d, x),
        Strategy::TargetEnum(list) => if list.contains(x as u64) {
            1
        } else {
            0
        },
        Strategy::Fudge => fudge_points(x),
        _ => x as int,
    }
}

/// The points of all of `values` together.
pub open spec fn total_points(strategy: Strategy, values: Seq<i64>) -> int
    decreases values.len(),
{
    if values.len() == 0 {
        0
    } else {
        total_points(strategy, values.drop_last()) + points(strategy, values.last())
    }
}

/// The number of dice that a strategy keeps or drops, if it does either.
pub open spec fn kept_or_dropped(strategy: Strategy) -> Option<u64> {
    match strategy {
        Strategy::KeepHi(n) | Strategy::KeepLo(n) | Strategy::DropHi(n) | Strategy::DropLo(n) => {
            Some(n)
        },
        _ => None,
    }
}

/// The first and the one after the last position, in a rising list of `len`
/// values, of those that the strategy counts. Meaningful where the strategy
/// keeps or drops no more than `len`.
pub open spec fn selection(strategy: Strategy, len: int) -> (int, int) {
    match strategy {
        Strategy::KeepHi(n) => (len - n, len),
        Strategy::KeepLo(n) => (0, n as int),
        Strategy::DropHi(n) => (0, len - n),
        Strategy::DropLo(n) => (n as int, len),
        _ => (0, len),
    }
}

/// The total of the rising list `sorted` under `strategy`, or the fault
/// where the strategy keeps or drops more values than there are.
pub open spec fn strategy_total(strategy: Strategy, sorted: Seq<i64>) -> Result<int, Fault> {
    if kept_or_dropped(strategy) matches Some(n) && n > sorted.len() {
        Err(Fault::NotEnoughDice)
    } else {
        let (from, to) = selection(strategy, sorted.len() as int);
        Ok(total_points(strategy, sorted.subrange(from, to)))
    }
}

/// Whether `x` is among `list`.
pub fn is_listed(list: &Vec<u64>, x: u64) -> (b: bool)
    ensures
        b == list@.contains(x),
{
    let mut i: usize = 0;
    while i < list.len()
        invariant
            i <= list.len(),
            forall|k: int| 0 <= k < i ==> list@[k] != x,
        decreases list.len() - i,
    {
        if list[i] == x {
            return true;
        }
        i = i + 1;
    }
    false
}

/// What `x` adds to the total under `modifier`.
pub fn points_of(modifier: &TotalModifier, x: i64) -> (p: i64)
    ensures
        p == points(modifier@, x),
{
    match modifier {
        TotalModifier::TargetFailureDouble(t, f, d) => {
            let u = x as u64;
            if d.is_some() && u >= d.unwrap() {
                2
            } else if t.is_some() && u >= t.unwrap() {
                1
            } else if f.is_some() && u <= f.unwrap() {
                -1
            } else {
                0
            }
        },
        TotalModifier::TargetEnum(list) => {
            if is_listed(list, x as u64) {
                1
            } else {
                0
            }
        },
        TotalModifier::Fudge => {
            if x <= 2 {
                -1
            } else if x <= 4 {
                0
            } else {
                1
            }
        },
        _ => x,
    }
}

/// The points of `values[from..to]` together.
pub fn sum_points(modifier: &TotalModifier, values: &Vec<i64>, from: usize, to: usize) -> (total:
    i128)
    requires
        from <= to <= values@.len(),
    ensures
        total == total_points(modifier@, values@.subrange(from as int, to as int)),
{
    let mut acc: i128 = 0;
    let mut i: usize = from;
    assert(values@.subrange(from as int, from as int) =~= Seq::<i64>::empty());
    while i < to
        invariant
            from <= i <= to <= values@.len(),
            acc == total_points(modifier@, values@.subrange(from as int, i as int)),
            -(i - from) * 0x8000_0000_0000_0000 <= acc <= (i - from) * 0x8000_0000_0000_0000,
        decreases to - i,
    {
        let p = points_of(modifier, values[i]);
        proof {
            let next = values@.subrange(from as int, i + 1);
            assert(next.drop_last() =~= values@.subrange(from as int, i as int));
            assert(next.last() == values@[i as int]);
        }
        acc = acc + p as i128;
        i = i + 1;
    }
    acc
}

} // verus!
