//! How results are shown.

use crate::diceresult::DiceResult;
use crate::number::{magnitude, pow10, ten_to, Decimal};
use crate::repeatedrollresult::Repeated;
use crate::rollhistory::{Step, Value};
use crate::rollresult::{Outcome, Rolled};
use crate::singlerollresult::Single;
use crate::text::{
    digit_char, integer_text, natural_text, push_char, push_integer, push_natural, push_text,
};
use vstd::prelude::*;
use vstd::string::*;

verus! {

/// The units and the scale of a decimal literal without the zeros at its
/// end.
pub open spec fn without_zeros(units: nat, scale: nat) -> (nat, nat)
    decreases scale,
{
    if scale > 0 && units % 10 == 0 {
        without_zeros(units / 10, (scale - 1) as nat)
    } else {
        (units, scale)
    }
}

/// The last `scale` digits of `fraction`, with zeros before them if need be.
pub open spec fn fraction_text(fraction: nat, scale: nat) -> Seq<char>
    decreases scale,
{
    if scale == 0 {
        Seq::empty()
    } else {
        fraction_text(fraction / 10, (scale - 1) as nat).push(digit_char(fraction % 10))
    }
}

/// How a decimal literal is shown: its digits before the point, and, if
/// there are digits other than zeros behind the point, the point and the
/// digits up to the last that is not zero. A `-` stands before a negative
/// literal.
pub open spec fn decimal_text(d: Decimal) -> Seq<char> {
    let (units, scale) = without_zeros(
        magnitude(d.spec_units() as int) as nat,
        d.spec_scale() as nat,
    );
    let whole = natural_text((units / pow10(scale) as nat) as nat);
    let signed = if d.spec_units() < 0 {
        seq!['-'] + whole
    } else {
        whole
    };
    if scale > 0 {
        signed + seq!['.'] + fraction_text((units % pow10(scale) as nat) as nat, scale)
    } else {
        signed
    }
}

/// How a constant is shown.
pub open spec fn value_text(v: Value) -> Seq<char> {
    match v {
        Value::Int(i) => integer_text(i as int),
        Value::Decimal(d) => decimal_text(d),
    }
}

/// The numbers `faces`, with `, ` between them.
pub open spec fn faces_text(faces: Seq<u64>) -> Seq<char>
    decreases faces.len(),
{
    if faces.len() == 0 {
        Seq::empty()
    } else if faces.len() == 1 {
        natural_text(faces[0] as nat)
    } else {
        faces_text(faces.drop_last()) + ", "@ + natural_text(faces.last() as nat)
    }
}

/// The faces of `dice`.
pub open spec fn faces_of(dice: Seq<DiceResult>) -> Seq<u64> {
    dice.map_values(|d: DiceResult| d.res)
}

/// How a fudge die is shown: `-` for the faces up to 2, a square for the
/// faces up to 4, `+` for the others.
pub open spec fn fudge_sign(face: u64) -> Seq<char> {
    if face <= 2 {
        "-"@
    } else if face <= 4 {
        "▢"@
    } else {
        "+"@
    }
}

/// The signs of the fudge dice `faces`, with `, ` between them.
pub open spec fn fudge_text(faces: Seq<u64>) -> Seq<char>
    decreases faces.len(),
{
    if faces.len() == 0 {
        Seq::empty()
    } else if faces.len() == 1 {
        fudge_sign(faces[0])
    } else {
        fudge_text(faces.drop_last()) + ", "@ + fudge_sign(faces.last())
    }
}

/// The faces that one die showed in turn, with ` -> ` between them.
pub open spec fn chain_text(chain: Seq<u64>) -> Seq<char>
    decreases chain.len(),
{
    if chain.len() == 0 {
        Seq::empty()
    } else if chain.len() == 1 {
        natural_text(chain[0] as nat)
    } else {
        chain_text(chain.drop_last()) + " -> "@ + natural_text(chain.last() as nat)
    }
}

/// The chains of a reroll, with `, ` between them.
pub open spec fn chains_text(chains: Seq<Seq<DiceResult>>) -> Seq<char>
    decreases chains.len(),
{
    if chains.len() == 0 {
        Seq::empty()
    } else if chains.len() == 1 {
        chain_text(faces_of(chains[0]))
    } else {
        chains_text(chains.drop_last()) + ", "@ + chain_text(faces_of(chains.last()))
    }
}

/// How one step of a history is shown.
pub open spec fn step_text(step: Step) -> Seq<char> {
    match step {
        Step::ReRolls(chains) => "["@ + chains_text(chains) + "] -> "@,
        Step::Roll(dice) => "["@ + faces_text(faces_of(dice)) + "]"@,
        Step::Fudge(faces) => "["@ + fudge_text(faces) + "]"@,
        Step::Value(v) => value_text(v),
        Step::Separator(s) => s,
        Step::OpenParenthesis => "("@,
        Step::CloseParenthesis => ")"@,
    }
}

/// How a history is shown: its steps one after the other.
pub open spec fn history_text(history: Seq<Step>) -> Seq<char>
    decreases history.len(),
{
    if history.len() == 0 {
        Seq::empty()
    } else {
        history_text(history.drop_last()) + step_text(history.last())
    }
}

/// The sign that stands on both sides of a history where results are shown
/// with emphasis.
pub open spec fn tick(md: bool) -> Seq<char> {
    if md {
        "`"@
    } else {
        ""@
    }
}

/// The sign that stands on both sides of a total where results are shown
/// with emphasis.
pub open spec fn bold(md: bool) -> Seq<char> {
    if md {
        "**"@
    } else {
        ""@
    }
}

/// How the result of one expression is shown: the history, ` = ` and the
/// total. With `md` the history stands between backquotes and the total
/// between pairs of asterisks. A result without a history is shown as its
/// total alone, between backquotes with `md`.
pub open spec fn single_text(r: Single, md: bool) -> Seq<char> {
    if r.history.len() == 0 {
        tick(md) + integer_text(r.total as int) + tick(md)
    } else {
        tick(md) + history_text(r.history) + tick(md) + " = "@ + bold(md) + integer_text(
            r.total as int,
        ) + bold(md)
    }
}

/// The reason as it is shown behind a result, after `lead`.
pub open spec fn reason_text(lead: Seq<char>, reason: Option<Seq<char>>, md: bool) -> Seq<char> {
    match reason {
        Some(r) => lead + tick(md) + r + tick(md),
        None => Seq::empty(),
    }
}

/// One line for each result: its history.
pub open spec fn history_lines(rolls: Seq<Single>, md: bool) -> Seq<char>
    decreases rolls.len(),
{
    if rolls.len() == 0 {
        Seq::empty()
    } else {
        history_lines(rolls.drop_last(), md) + tick(md) + history_text(rolls.last().history)
            + tick(md) + "\n"@
    }
}

/// One line for each result.
pub open spec fn result_lines(rolls: Seq<Single>, md: bool) -> Seq<char>
    decreases rolls.len(),
{
    if rolls.len() == 0 {
        Seq::empty()
    } else {
        result_lines(rolls.drop_last(), md) + single_text(rolls.last(), md) + "\n"@
    }
}

/// How an outcome is shown, with emphasis where `md` says so.
///
/// A single result is shown on one line, the reason behind it. The results
/// of a repetition stand one on a line; with a sum, each as its history
/// alone, and the sum on a line of its own.
pub open spec fn outcome_text(o: Outcome, md: bool) -> Seq<char> {
    match o.result {
        Rolled::Single(r) => single_text(r, md) + reason_text(", Reason: "@, o.reason, md),
        Rolled::Repeated(rep) => match rep.total {
            Some(total) => history_lines(rep.rolls, md) + "Sum: "@ + bold(md) + integer_text(
                total as int,
            ) + bold(md) + reason_text(", Reason: "@, o.reason, md),
            None => result_lines(rep.rolls, md) + reason_text("Reason: "@, o.reason, md),
        },
    }
}

/// Appends the faces of `dice` to `s`, with ` -> ` between them where they
/// are `chained` and with `, ` where they are not.
fn push_dice(s: &mut String, dice: &Vec<DiceResult>, chained: bool)
    ensures
        final(s)@ == old(s)@ + if chained {
            chain_text(faces_of(dice@))
        } else {
            faces_text(faces_of(dice@))
        },
{
    let mut i: usize = 0;
    let ghost faces = faces_of(dice@);
    assert(faces.take(0) =~= Seq::empty());
    assert(s@ =~= old(s)@ + faces_text(faces.take(0)));
    assert(s@ =~= old(s)@ + chain_text(faces.take(0)));
    while i < dice.len()
        invariant
            i <= dice@.len(),
            faces == faces_of(dice@),
            s@ == old(s)@ + if chained {
                chain_text(faces.take(i as int))
            } else {
                faces_text(faces.take(i as int))
            },
        decreases dice.len() - i,
    {
        if i > 0 {
            if chained {
                push_text(s, " -> ");
            } else {
                push_text(s, ", ");
            }
        }
        push_natural(s, dice[i].res);
        proof {
            let next = faces.take(i + 1);
            assert(next.drop_last() =~= faces.take(i as int));
            assert(next.last() == dice@[i as int].res);
            if chained {
                assert(s@ =~= old(s)@ + chain_text(next));
            } else {
                assert(s@ =~= old(s)@ + faces_text(next));
            }
        }
        i = i + 1;
    }
    assert(faces.take(faces.len() as int) =~= faces);
}

/// Appends a batch of dice to `s`, as it is shown in a history.
pub fn push_roll(s: &mut String, dice: &Vec<DiceResult>)
    ensures
        final(s)@ == old(s)@ + step_text(Step::Roll(dice@)),
{
    push_text(s, "[");
    push_dice(s, dice, false);
    push_text(s, "]");
    assert(s@ =~= old(s)@ + step_text(Step::Roll(dice@)));
}

/// Appends a batch of fudge dice to `s`, as it is shown in a history.
pub fn push_fudge(s: &mut String, faces: &Vec<u64>)
    ensures
        final(s)@ == old(s)@ + step_text(Step::Fudge(faces@)),
{
    push_text(s, "[");
    let ghost opened = s@;
    let mut i: usize = 0;
    assert(faces@.take(0) =~= Seq::empty());
    assert(s@ =~= opened + fudge_text(faces@.take(0)));
    while i < faces.len()
        invariant
            i <= faces@.len(),
            s@ == opened + fudge_text(faces@.take(i as int)),
        decreases faces.len() - i,
    {
        if i > 0 {
            push_text(s, ", ");
        }
        let face = faces[i];
        if face <= 2 {
            push_text(s, "-");
        } else if face <= 4 {
            push_text(s, "▢");
        } else {
            push_text(s, "+");
        }
        proof {
            let next = faces@.take(i + 1);
            assert(next.drop_last() =~= faces@.take(i as int));
            assert(next.last() == faces@[i as int]);
            assert(s@ =~= opened + fudge_text(next));
        }
        i = i + 1;
    }
    assert(faces@.take(faces@.len() as int) =~= faces@);
    push_text(s, "]");
    assert(s@ =~= old(s)@ + step_text(Step::Fudge(faces@)));
}

/// Appends a reroll to `s`, as it is shown in a history.
pub fn push_rerolls(s: &mut String, chains: &Vec<Vec<DiceResult>>)
    ensures
        final(s)@ == old(s)@ + step_text(Step::ReRolls(crate::rollhistory::chains_of(chains@))),
{
    push_text(s, "[");
    let ghost opened = s@;
    let ghost all = crate::rollhistory::chains_of(chains@);
    let mut i: usize = 0;
    assert(all.take(0) =~= Seq::empty());
    assert(s@ =~= opened + chains_text(all.take(0)));
    while i < chains.len()
        invariant
            i <= chains@.len(),
            all == crate::rollhistory::chains_of(chains@),
            s@ == opened + chains_text(all.take(i as int)),
        decreases chains.len() - i,
    {
        if i > 0 {
            push_text(s, ", ");
        }
        push_dice(s, &chains[i], true);
        proof {
            let next = all.take(i + 1);
            assert(next.drop_last() =~= all.take(i as int));
            assert(next.last() == chains@[i as int]@);
            assert(s@ =~= opened + chains_text(next));
        }
        i = i + 1;
    }
    assert(all.take(all.len() as int) =~= all);
    push_text(s, "] -> ");
    assert(s@ =~= old(s)@ + step_text(Step::ReRolls(all)));
}

/// Appends the last `scale` digits of `fraction` to `s`.
fn push_fraction(s: &mut String, fraction: u64, scale: u8)
    ensures
        final(s)@ == old(s)@ + fraction_text(fraction as nat, scale as nat),
    decreases scale,
{
    if scale > 0 {
        push_fraction(s, fraction / 10, scale - 1);
        let d = (fraction % 10) as u8;
        push_char(s, (48u8 + d) as char);
        assert(s@ =~= old(s)@ + fraction_text(fraction as nat, scale as nat));
    } else {
        assert(s@ =~= old(s)@ + fraction_text(fraction as nat, scale as nat));
    }
}

/// Appends a decimal literal to `s`, as it is shown.
pub fn push_decimal(s: &mut String, d: Decimal)
    ensures
        final(s)@ == old(s)@ + decimal_text(d),
{
    let signed = d.units();
    let mut units: u64 = if signed < 0 {
        (-(signed as i128)) as u64
    } else {
        signed as u64
    };
    let mut scale: u8 = d.scale();
    while scale > 0 && units % 10 == 0
        invariant
            scale <= 18,
            without_zeros(magnitude(signed as int) as nat, d.spec_scale() as nat) == without_zeros(
                units as nat,
                scale as nat,
            ),
        decreases scale,
    {
        units = units / 10;
        scale = scale - 1;
    }
    let power = ten_to(scale) as u64;
    if signed < 0 {
        push_char(s, '-');
    }
    push_natural(s, units / power);
    if scale > 0 {
        push_char(s, '.');
        push_fraction(s, units % power, scale);
    }
    assert(s@ =~= old(s)@ + decimal_text(d));
}

/// Appends a constant to `s`, as it is shown.
pub fn push_value(s: &mut String, v: &Value)
    ensures
        final(s)@ == old(s)@ + value_text(*v),
{
    match v {
        Value::Int(i) => push_integer(s, *i),
        Value::Decimal(d) => push_decimal(s, *d),
    }
}

} // verus!
