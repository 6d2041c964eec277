//! The notation: how a text is read into a syntax tree.
//!
//! ```text
//! command  = (repeated | expr) reason?
//! repeated = "(" expr ")" "^" ("+" | "#")? number
//! expr     = operand (("+" | "-" | "*" | "/") operand)*
//! operand  = dice | decimal | integer | "(" expr ")"
//! dice     = number? ("d" | "D") (("F" | "f") | number modifier*)
//! modifier = "e" number? | "ie" number? | "!" number?
//!          | "r" number | "ir" number
//!          | "K" number | "k" number | "D" number | "d" number
//!          | "tt" number | "t" number | "t" "[" number ("," number)* "]"
//!          | "f" number
//! decimal  = "-"? digits "." digits
//! integer  = "-"? number
//! reason   = ":" anything
//! ```
//!
//! Spaces may stand before every part that is named or quoted above, but
//! not inside a decimal behind its sign. Of alternatives the first that fits
//! is taken, and a repetition takes as much as fits. A number is one or more
//! digits that spell a value of at most 64 bits.

use crate::error::{RollError, SyntaxError};
use crate::lexer::{
    digit, digit_value, digits, expect, is_digit, number, optional_number, read_digits, read_number,
    read_optional_number, sign, skip_spaces, spaces,
};
use crate::number::{Decimal, Operator, MAX_SCALE};
use crate::syntax::{
    Command, CommandView, Dice, DiceView, Expression, ExpressionView, Modifier, ModifierView,
    Operand, OperandView, Repetition, Roll, RollView, Sides,
};
use crate::text::{chars_of, string_of};
use vstd::prelude::*;
use vstd::string::*;

verus! {

/// Whether the character at `pos` is `c`.
pub open spec fn char_at(s: Seq<char>, pos: nat, c: char) -> bool {
    pos < s.len() && s[pos as int] == c
}

/// The rest of a list of targets, behind a number: more numbers after
/// commas, up to the closing bracket.
pub open spec fn target_list(s: Seq<char>, pos: nat, acc: Seq<u64>) -> Option<(Seq<u64>, nat)>
    decreases s.len() - pos,
{
    match sign(s, pos, ',') {
        Some(p) => match number(s, p) {
            Some((n, e)) => if pos < e <= s.len() {
                target_list(s, e, acc.push(n))
            } else {
                None
            },
            None => None,
        },
        None => match sign(s, pos, ']') {
            Some(p) => Some((acc, p)),
            None => None,
        },
    }
}

/// A list of targets: `[2, 4, 6]`.
pub open spec fn target_enum(s: Seq<char>, pos: nat) -> Option<(Seq<u64>, nat)> {
    match sign(s, pos, '[') {
        Some(p) => match number(s, p) {
            Some((n, e)) => target_list(s, e, seq![n]),
            None => None,
        },
        None => None,
    }
}

/// A modifier of a dice term.
pub open spec fn modifier(s: Seq<char>, pos: nat) -> Option<(ModifierView, nat)> {
    let start = skip_spaces(s, pos);
    let after = start + 1;
    if char_at(s, start, 'e') {
        let (n, e) = optional_number(s, after);
        Some((ModifierView::Explode(n), e))
    } else if char_at(s, start, '!') {
        let (n, e) = optional_number(s, after);
        Some((ModifierView::IndefiniteExplode(n), e))
    } else if char_at(s, start, 'i') && char_at(s, after, 'e') {
        let (n, e) = optional_number(s, after + 1);
        Some((ModifierView::IndefiniteExplode(n), e))
    } else if char_at(s, start, 'i') && char_at(s, after, 'r') {
        match number(s, after + 1) {
            Some((n, e)) => Some((ModifierView::IndefiniteReroll(n), e)),
            None => None,
        }
    } else if char_at(s, start, 't') && char_at(s, after, 't') {
        match number(s, after + 1) {
            Some((n, e)) => Some((ModifierView::DoubleTarget(n), e)),
            None => None,
        }
    } else if char_at(s, start, 't') {
        match number(s, after) {
            Some((n, e)) => Some((ModifierView::Target(n), e)),
            None => match target_enum(s, after) {
                Some((list, e)) => Some((ModifierView::TargetEnum(list), e)),
                None => None,
            },
        }
    } else {
        match number(s, after) {
            Some((n, e)) => if char_at(s, start, 'r') {
                Some((ModifierView::Reroll(n), e))
            } else if char_at(s, start, 'K') {
                Some((ModifierView::KeepHi(n), e))
            } else if char_at(s, start, 'k') {
                Some((ModifierView::KeepLo(n), e))
            } else if char_at(s, start, 'D') {
                Some((ModifierView::DropHi(n), e))
            } else if char_at(s, start, 'd') {
                Some((ModifierView::DropLo(n), e))
            } else if char_at(s, start, 'f') {
                Some((ModifierView::Failure(n), e))
            } else {
                None
            },
            None => None,
        }
    }
}

/// As many modifiers as follow each other from `pos` on, after `acc`.
pub open spec fn modifiers(s: Seq<char>, pos: nat, acc: Seq<ModifierView>) -> (
    Seq<ModifierView>,
    nat,
)
    decreases s.len() - pos,
{
    match modifier(s, pos) {
        Some((m, e)) => if pos < e <= s.len() {
            modifiers(s, e, acc.push(m))
        } else {
            (acc, pos)
        },
        None => (acc, pos),
    }
}

/// A dice term.
pub open spec fn dice(s: Seq<char>, pos: nat) -> Option<(DiceView, nat)> {
    let start = skip_spaces(s, pos);
    let (count, after_count) = optional_number(s, start);
    let roll = match sign(s, after_count, 'd') {
        Some(p) => Some(p),
        None => sign(s, after_count, 'D'),
    };
    match roll {
        Some(p) => {
            let fudge = match sign(s, p, 'F') {
                Some(q) => Some(q),
                None => sign(s, p, 'f'),
            };
            match fudge {
                Some(q) => Some(
                    (
                        DiceView {
                            count,
                            sides: Sides::Fudge,
                            modifiers: Seq::empty(),
                            start: start as usize,
                            end: q as usize,
                        },
                        q,
                    ),
                ),
                None => match number(s, p) {
                    Some((sides, q)) => {
                        let (found, end) = modifiers(s, q, Seq::empty());
                        Some(
                            (
                                DiceView {
                                    count,
                                    sides: Sides::Number(sides),
                                    modifiers: found,
                                    start: start as usize,
                                    end: end as usize,
                                },
                                end,
                            ),
                        )
                    },
                    None => None,
                },
            }
        },
        None => None,
    }
}

/// What is kept of the digits behind the point of a decimal literal: the
/// digits from `pos` on are taken one after the other behind those that
/// spell `units`, as long as fewer than [`MAX_SCALE`] are taken and the value
/// still fits 63 bits. With the number of digits taken behind the `scale`
/// that were.
pub open spec fn kept(s: Seq<char>, pos: nat, units: nat, scale: nat) -> (nat, nat)
    decreases s.len() - pos,
{
    if pos < s.len() && is_digit(s[pos as int]) && scale < MAX_SCALE && units * 10
        + digit_value(s[pos as int]) <= i64::MAX {
        kept(s, pos + 1, units * 10 + digit_value(s[pos as int]), scale + 1)
    } else {
        (units, scale)
    }
}

/// A decimal literal: digits, a point and digits, after a `-` or not. All of
/// its digits are read. Its value is cut off: of the digits behind the point
/// it keeps the first [`MAX_SCALE`], or fewer where without its point it
/// would spell a value of more than 63 bits. A part before the point of more
/// than 63 bits counts as the greatest value of 63 bits.
pub open spec fn decimal(s: Seq<char>, pos: nat) -> Option<(Decimal, nat)> {
    let start = skip_spaces(s, pos);
    let negative = char_at(s, start, '-');
    let whole_at = if negative {
        skip_spaces(s, start + 1)
    } else {
        start
    };
    let (whole, point) = digits(s, whole_at, 0);
    let end = digits(s, point + 1, 0).1;
    let (units, scale) = if whole > i64::MAX {
        (i64::MAX as nat, 0nat)
    } else {
        kept(s, point + 1, whole, 0)
    };
    if whole_at < point && char_at(s, point, '.') && point + 1 < end {
        Some(
            (
                Decimal::of(
                    if negative {
                        (-units) as i64
                    } else {
                        units as i64
                    },
                    scale as u8,
                ),
                end as nat,
            ),
        )
    } else {
        None
    }
}

/// An integer: a number, after a `-` or not, of at most 63 bits and a sign.
pub open spec fn integer(s: Seq<char>, pos: nat) -> Option<(i64, nat)> {
    let start = skip_spaces(s, pos);
    if char_at(s, start, '-') {
        match number(s, start + 1) {
            Some((n, e)) => if n <= 0x8000_0000_0000_0000 {
                Some(((-(n as int)) as i64, e))
            } else {
                None
            },
            None => None,
        }
    } else {
        match number(s, start) {
            Some((n, e)) => if n <= i64::MAX {
                Some((n as i64, e))
            } else {
                None
            },
            None => None,
        }
    }
}

/// One of the four operators.
pub open spec fn operator(s: Seq<char>, pos: nat) -> Option<(Operator, nat)> {
    let start = skip_spaces(s, pos);
    if char_at(s, start, '+') {
        Some((Operator::Add, start + 1))
    } else if char_at(s, start, '-') {
        Some((Operator::Sub, start + 1))
    } else if char_at(s, start, '*') {
        Some((Operator::Mul, start + 1))
    } else if char_at(s, start, '/') {
        Some((Operator::Div, start + 1))
    } else {
        None
    }
}

/// An expression in parentheses.
pub open spec fn block(s: Seq<char>, pos: nat) -> Option<(ExpressionView, nat)>
    decreases s.len() - pos, 0nat,
{
    match sign(s, pos, '(') {
        Some(p) => if pos < p <= s.len() {
            match expr(s, p) {
                Some((e, q)) => match sign(s, q, ')') {
                    Some(r) => Some((e, r)),
                    None => None,
                },
                None => None,
            }
        } else {
            None
        },
        None => None,
    }
}

/// An operand: a dice term, else a decimal literal, else an integer, else
/// an expression in parentheses.
pub open spec fn operand(s: Seq<char>, pos: nat) -> Option<(OperandView, nat)>
    decreases s.len() - pos, 1nat,
{
    match dice(s, pos) {
        Some((d, e)) => Some((OperandView::Dice(d), e)),
        None => match decimal(s, pos) {
            Some((d, e)) => Some((OperandView::Decimal(d), e)),
            None => match integer(s, pos) {
                Some((i, e)) => Some((OperandView::Integer(i), e)),
                None => match block(s, pos) {
                    Some((inner, e)) => Some((OperandView::Block(Box::new(inner)), e)),
                    None => None,
                },
            },
        },
    }
}

/// As many operators, each with its operand, as follow each other from `pos`
/// on, after `acc`.
pub open spec fn operands(s: Seq<char>, pos: nat, acc: Seq<(Operator, OperandView)>) -> (
    Seq<(Operator, OperandView)>,
    nat,
)
    decreases s.len() - pos, 2nat,
{
    match operator(s, pos) {
        Some((op, p)) => if pos < p <= s.len() {
            match operand(s, p) {
                Some((o, q)) => if p < q <= s.len() {
                    operands(s, q, acc.push((op, o)))
                } else {
                    (acc, pos)
                },
                None => (acc, pos),
            }
        } else {
            (acc, pos)
        },
        None => (acc, pos),
    }
}

/// An expression.
pub open spec fn expr(s: Seq<char>, pos: nat) -> Option<(ExpressionView, nat)>
    decreases s.len() - pos, 3nat,
{
    match operand(s, pos) {
        Some((first, p)) => if pos < p <= s.len() {
            let (rest, end) = operands(s, p, Seq::empty());
            Some((ExpressionView { first, rest }, end))
        } else {
            None
        },
        None => None,
    }
}

/// What is to become of the results of a repetition: `+` for their sum,
/// `#` for their order, nothing else.
pub open spec fn repetition(s: Seq<char>, pos: nat) -> (Repetition, nat) {
    match sign(s, pos, '+') {
        Some(p) => (Repetition::Sum, p),
        None => match sign(s, pos, '#') {
            Some(p) => (Repetition::Sort, p),
            None => (Repetition::Plain, pos),
        },
    }
}

/// A repeated expression: `(2d6 + 6) ^ 8`. The number of times is at most 63
/// bits.
pub open spec fn repeated(s: Seq<char>, pos: nat) -> Option<(RollView, nat)> {
    match block(s, pos) {
        Some((expression, p)) => match sign(s, p, '^') {
            Some(q) => {
                let (how, r) = repetition(s, q);
                match number(s, r) {
                    Some((n, end)) => if n <= i64::MAX {
                        Some((RollView::Repeated { expression, how, times: n as i64 }, end))
                    } else {
                        None
                    },
                    None => None,
                }
            },
            None => None,
        },
        None => None,
    }
}

/// What is to be rolled: a repeated expression, else an expression.
pub open spec fn roll(s: Seq<char>) -> Option<(RollView, nat)> {
    match repeated(s, 0) {
        Some(found) => Some(found),
        None => match expr(s, 0) {
            Some((e, end)) => Some((RollView::Single(e), end)),
            None => None,
        },
    }
}

/// Whether `c` is white space, as Unicode has it.
pub open spec fn is_blank(c: char) -> bool {
    let u = c as u32;
    (0x9 <= u <= 0xd) || u == 0x20 || u == 0x85 || u == 0xa0 || u == 0x1680 || (0x2000 <= u
        <= 0x200a) || u == 0x2028 || u == 0x2029 || u == 0x202f || u == 0x205f || u == 0x3000
}

/// `s` without the white space at its start.
pub open spec fn trim_start(s: Seq<char>) -> Seq<char>
    decreases s.len(),
{
    if s.len() > 0 && is_blank(s[0]) {
        trim_start(s.skip(1))
    } else {
        s
    }
}

/// `s` without the white space at its end.
pub open spec fn trim_end(s: Seq<char>) -> Seq<char>
    decreases s.len(),
{
    if s.len() > 0 && is_blank(s.last()) {
        trim_end(s.drop_last())
    } else {
        s
    }
}

/// `s` without the white space at its start and at its end.
pub open spec fn trimmed(s: Seq<char>) -> Seq<char> {
    trim_end(trim_start(s))
}

/// What the text could not be read for.
pub open spec fn no_expression() -> Seq<char> {
    "expected an expression"@
}

/// What the text could not be read for.
pub open spec fn no_end() -> Seq<char> {
    "expected an operator, a reason or the end"@
}

/// A text that could not be read, as a mathematical value.
pub ghost struct Misread {
    pub position: nat,
    pub description: Seq<char>,
}

/// The command that a text spells.
///
/// The text is a roll, then a reason or nothing. The reason is what stands
/// behind the `:`, without the white space around it. A text that starts
/// with no roll is misread at its start; one that goes on behind the roll
/// with something else than a reason is misread there.
pub open spec fn command(s: Seq<char>) -> Result<CommandView, Misread> {
    match roll(s) {
        Some((found, end)) => {
            let stop = skip_spaces(s, end);
            if stop >= s.len() {
                Ok(CommandView { roll: found, reason: None })
            } else if s[stop as int] == ':' {
                Ok(CommandView { roll: found, reason: Some(trimmed(s.skip(stop + 1 as int))) })
            } else {
                Err(Misread { position: stop, description: no_end() })
            }
        },
        None => Err(Misread { position: 0, description: no_expression() }),
    }
}

/// Whether the character at `pos` is `c`.
fn is_at(text: &Vec<char>, pos: usize, c: char) -> (b: bool)
    ensures
        b == char_at(text@, pos as nat, c),
        b ==> pos < text@.len() <= usize::MAX,
{
    pos < text.len() && text[pos] == c
}

/// Reads a list of targets at `pos`.
fn read_target_enum(text: &Vec<char>, pos: usize) -> (out: Option<(Vec<u64>, usize)>)
    requires
        pos <= text@.len(),
    ensures
        match out {
            Some((list, end)) => target_enum(text@, pos as nat) == Some((list@, end as nat)) && pos
                < end <= text@.len(),
            None => target_enum(text@, pos as nat) is None,
        },
{
    let open = match expect(text, pos, '[') {
        Some(p) => p,
        None => {
            return None;
        },
    };
    let (first, mut at) = match read_number(text, open) {
        Some(found) => found,
        None => {
            return None;
        },
    };
    let mut list: Vec<u64> = Vec::new();
    list.push(first);
    let ghost behind_first = at as nat;
    assert(list@ =~= seq![first]);
    loop
        invariant
            pos < at <= text@.len(),
            target_enum(text@, pos as nat) == target_list(text@, behind_first, seq![first]),
            target_list(text@, behind_first, seq![first]) == target_list(
                text@,
                at as nat,
                list@,
            ),
        decreases text@.len() - at,
    {
        match expect(text, at, ',') {
            Some(p) => match read_number(text, p) {
                Some((n, end)) => {
                    list.push(n);
                    at = end;
                },
                None => {
                    return None;
                },
            },
            None => {
                return match expect(text, at, ']') {
                    Some(p) => Some((list, p)),
                    None => None,
                };
            },
        }
    }
}

/// Reads a modifier at `pos`.
fn read_modifier(text: &Vec<char>, pos: usize) -> (out: Option<(Modifier, usize)>)
    requires
        pos <= text@.len(),
    ensures
        match out {
            Some((m, end)) => modifier(text@, pos as nat) == Some((m@, end as nat)) && pos < end
                <= text@.len(),
            None => modifier(text@, pos as nat) is None,
        },
{
    let start = spaces(text, pos);
    if start >= text.len() {
        return None;
    }
    let after = start + 1;
    if is_at(text, start, 'e') {
        let (n, end) = read_optional_number(text, after);
        Some((Modifier::Explode(n), end))
    } else if is_at(text, start, '!') {
        let (n, end) = read_optional_number(text, after);
        Some((Modifier::IndefiniteExplode(n), end))
    } else if is_at(text, start, 'i') && is_at(text, after, 'e') {
        let (n, end) = read_optional_number(text, after + 1);
        Some((Modifier::IndefiniteExplode(n), end))
    } else if is_at(text, start, 'i') && is_at(text, after, 'r') {
        match read_number(text, after + 1) {
            Some((n, end)) => Some((Modifier::IndefiniteReroll(n), end)),
            None => None,
        }
    } else if is_at(text, start, 't') && is_at(text, after, 't') {
        match read_number(text, after + 1) {
            Some((n, end)) => Some((Modifier::DoubleTarget(n), end)),
            None => None,
        }
    } else if is_at(text, start, 't') {
        match read_number(text, after) {
            Some((n, end)) => Some((Modifier::Target(n), end)),
            None => match read_target_enum(text, after) {
                Some((list, end)) => Some((Modifier::TargetEnum(list), end)),
                None => None,
            },
        }
    } else {
        match read_number(text, after) {
            Some((n, end)) => if is_at(text, start, 'r') {
                Some((Modifier::Reroll(n), end))
            } else if is_at(text, start, 'K') {
                Some((Modifier::KeepHi(n), end))
            } else if is_at(text, start, 'k') {
                Some((Modifier::KeepLo(n), end))
            } else if is_at(text, start, 'D') {
                Some((Modifier::DropHi(n), end))
            } else if is_at(text, start, 'd') {
                Some((Modifier::DropLo(n), end))
            } else if is_at(text, start, 'f') {
                Some((Modifier::Failure(n), end))
            } else {
                None
            },
            None => None,
        }
    }
}

/// Reads the modifiers from `pos` on.
fn read_modifiers(text: &Vec<char>, pos: usize) -> (out: (Vec<Modifier>, usize))
    requires
        pos <= text@.len(),
    ensures
        modifiers(text@, pos as nat, Seq::empty()) == (
            crate::syntax::modifier_views(out.0@),
            out.1 as nat,
        ),
        pos <= out.1 <= text@.len(),
{
    let mut found: Vec<Modifier> = Vec::new();
    let mut at = pos;
    assert(crate::syntax::modifier_views(found@) =~= Seq::empty());
    loop
        invariant
            pos <= at <= text@.len(),
            modifiers(text@, pos as nat, Seq::empty()) == modifiers(
                text@,
                at as nat,
                crate::syntax::modifier_views(found@),
            ),
        decreases text@.len() - at,
    {
        match read_modifier(text, at) {
            Some((m, end)) => {
                assert(crate::syntax::modifier_views(found@.push(m))
                    =~= crate::syntax::modifier_views(found@).push(m@));
                found.push(m);
                at = end;
            },
            None => {
                return (found, at);
            },
        }
    }
}

/// Reads a dice term at `pos`.
fn read_dice(text: &Vec<char>, pos: usize) -> (out: Option<(Dice, usize)>)
    requires
        pos <= text@.len(),
    ensures
        match out {
            Some((d, end)) => dice(text@, pos as nat) == Some((d@, end as nat)) && pos < end
                <= text@.len(),
            None => dice(text@, pos as nat) is None,
        },
{
    let start = spaces(text, pos);
    let (count, after_count) = read_optional_number(text, start);
    let roll = match expect(text, after_count, 'd') {
        Some(p) => Some(p),
        None => expect(text, after_count, 'D'),
    };
    let p = match roll {
        Some(p) => p,
        None => {
            return None;
        },
    };
    let fudge = match expect(text, p, 'F') {
        Some(q) => Some(q),
        None => expect(text, p, 'f'),
    };
    match fudge {
        Some(q) => {
            let modifiers: Vec<Modifier> = Vec::new();
            assert(crate::syntax::modifier_views(modifiers@) =~= Seq::empty());
            Some((Dice { count, sides: Sides::Fudge, modifiers, start, end: q }, q))
        },
        None => match read_number(text, p) {
            Some((sides, q)) => {
                let (modifiers, end) = read_modifiers(text, q);
                Some((Dice { count, sides: Sides::Number(sides), modifiers, start, end }, end))
            },
            None => None,
        },
    }
}

/// Reads what is kept of the digits behind the point of a decimal literal,
/// behind the digits that spell `whole`.
fn read_kept(text: &Vec<char>, pos: usize, whole: u64) -> (out: (u64, u8))
    requires
        pos <= text@.len(),
        whole <= i64::MAX,
    ensures
        (out.0 as nat, out.1 as nat) == kept(text@, pos as nat, whole as nat, 0),
        out.0 <= i64::MAX,
        out.1 <= MAX_SCALE,
{
    let mut units = whole;
    let mut scale: u8 = 0;
    let mut next = pos;
    while next < text.len() && digit(text[next]) && scale < MAX_SCALE
        invariant
            pos <= next <= text@.len(),
            units <= i64::MAX,
            scale <= MAX_SCALE,
            kept(text@, pos as nat, whole as nat, 0) == kept(
                text@,
                next as nat,
                units as nat,
                scale as nat,
            ),
        decreases text.len() - next,
    {
        let d = (text[next] as u32 - '0' as u32) as u64;
        assert(d == digit_value(text@[next as int]));
        assert(d <= 9);
        let more: u128 = units as u128 * 10 + d as u128;
        if more > 0x7fff_ffff_ffff_ffff {
            return (units, scale);
        }
        units = more as u64;
        scale = scale + 1;
        next = next + 1;
    }
    (units, scale)
}

/// Reads a decimal literal at `pos`.
fn read_decimal(text: &Vec<char>, pos: usize) -> (out: Option<(Decimal, usize)>)
    requires
        pos <= text@.len(),
    ensures
        match out {
            Some((d, end)) => decimal(text@, pos as nat) == Some((d, end as nat)) && pos < end
                <= text@.len(),
            None => decimal(text@, pos as nat) is None,
        },
{
    let start = spaces(text, pos);
    let negative = is_at(text, start, '-');
    let whole_at = if negative {
        spaces(text, start + 1)
    } else {
        start
    };
    let (whole, point) = read_digits(text, whole_at);
    if !(whole_at < point) || !is_at(text, point, '.') {
        return None;
    }
    let (_, end) = read_digits(text, point + 1);
    if !(point + 1 < end) {
        return None;
    }
    let (units, scale): (u64, u8) = match whole {
        Some(w) => if w <= 0x7fff_ffff_ffff_ffff {
            read_kept(text, point + 1, w)
        } else {
            (0x7fff_ffff_ffff_ffff, 0)
        },
        None => (0x7fff_ffff_ffff_ffff, 0),
    };
    let signed: i64 = if negative {
        -(units as i64)
    } else {
        units as i64
    };
    match Decimal::new(signed, scale) {
        Some(d) => Some((d, end)),
        None => None,
    }
}

/// Reads an integer at `pos`.
fn read_integer(text: &Vec<char>, pos: usize) -> (out: Option<(i64, usize)>)
    requires
        pos <= text@.len(),
    ensures
        match out {
            Some((i, end)) => integer(text@, pos as nat) == Some((i, end as nat)) && pos < end
                <= text@.len(),
            None => integer(text@, pos as nat) is None,
        },
{
    let start = spaces(text, pos);
    if is_at(text, start, '-') {
        match read_number(text, start + 1) {
            Some((n, end)) => if n < 0x8000_0000_0000_0000 {
                Some((-(n as i64), end))
            } else if n == 0x8000_0000_0000_0000 {
                Some((-0x8000_0000_0000_0000, end))
            } else {
                None
            },
            None => None,
        }
    } else {
        match read_number(text, start) {
            Some((n, end)) => if n <= 0x7fff_ffff_ffff_ffff {
                Some((n as i64, end))
            } else {
                None
            },
            None => None,
        }
    }
}

/// Reads an operator at `pos`.
fn read_operator(text: &Vec<char>, pos: usize) -> (out: Option<(Operator, usize)>)
    requires
        pos <= text@.len(),
    ensures
        match out {
            Some((op, end)) => operator(text@, pos as nat) == Some((op, end as nat)) && pos < end
                <= text@.len(),
            None => operator(text@, pos as nat) is None,
        },
{
    let start = spaces(text, pos);
    if is_at(text, start, '+') {
        Some((Operator::Add, start + 1))
    } else if is_at(text, start, '-') {
        Some((Operator::Sub, start + 1))
    } else if is_at(text, start, '*') {
        Some((Operator::Mul, start + 1))
    } else if is_at(text, start, '/') {
        Some((Operator::Div, start + 1))
    } else {
        None
    }
}

/// Reads an expression in parentheses at `pos`.
fn read_block(text: &Vec<char>, pos: usize) -> (out: Option<(Expression, usize)>)
    requires
        pos <= text@.len(),
    ensures
        match out {
            Some((e, end)) => block(text@, pos as nat) == Some((e@, end as nat)) && pos < end
                <= text@.len(),
            None => block(text@, pos as nat) is None,
        },
    decreases text@.len() - pos, 0nat,
{
    match expect(text, pos, '(') {
        Some(p) => match read_expr(text, p) {
            Some((e, q)) => match expect(text, q, ')') {
                Some(r) => Some((e, r)),
                None => None,
            },
            None => None,
        },
        None => None,
    }
}

/// Reads an operand at `pos`.
fn read_operand(text: &Vec<char>, pos: usize) -> (out: Option<(Operand, usize)>)
    requires
        pos <= text@.len(),
    ensures
        match out {
            Some((o, end)) => operand(text@, pos as nat) == Some((o@, end as nat)) && pos < end
                <= text@.len(),
            None => operand(text@, pos as nat) is None,
        },
    decreases text@.len() - pos, 1nat,
{
    match read_dice(text, pos) {
        Some((d, end)) => {
            return Some((Operand::Dice(d), end));
        },
        None => {},
    }
    match read_decimal(text, pos) {
        Some((d, end)) => {
            return Some((Operand::Decimal(d), end));
        },
        None => {},
    }
    match read_integer(text, pos) {
        Some((i, end)) => {
            return Some((Operand::Integer(i), end));
        },
        None => {},
    }
    match read_block(text, pos) {
        Some((inner, end)) => Some((Operand::Block(Box::new(inner)), end)),
        None => None,
    }
}

/// Reads an expression at `pos`.
fn read_expr(text: &Vec<char>, pos: usize) -> (out: Option<(Expression, usize)>)
    requires
        pos <= text@.len(),
    ensures
        match out {
            Some((e, end)) => expr(text@, pos as nat) == Some((e@, end as nat)) && pos < end
                <= text@.len(),
            None => expr(text@, pos as nat) is None,
        },
    decreases text@.len() - pos, 3nat,
{
    let (first, behind_first) = match read_operand(text, pos) {
        Some(found) => found,
        None => {
            return None;
        },
    };
    let mut rest: Vec<(Operator, Operand)> = Vec::new();
    let mut at = behind_first;
    let ghost mut seen: Seq<(Operator, OperandView)> = Seq::empty();
    loop
        invariant
            pos < behind_first <= at <= text@.len(),
            operand(text@, pos as nat) == Some((first@, behind_first as nat)),
            seen.len() == rest@.len(),
            forall|i: int| 0 <= i < seen.len() ==> seen[i] == (rest@[i].0, rest@[i].1@),
            operands(text@, behind_first as nat, Seq::empty()) == operands(text@, at as nat, seen),
        decreases text@.len() - at,
    {
        let next = match read_operator(text, at) {
            Some((op, p)) => match read_operand(text, p) {
                Some((o, q)) => Some((op, o, q)),
                None => None,
            },
            None => None,
        };
        match next {
            Some((op, o, q)) => {
                proof {
                    seen = seen.push((op, o@));
                }
                rest.push((op, o));
                at = q;
            },
            None => {
                let e = Expression { first, rest };
                proof {
                    crate::syntax::lemma_expression_view(e);
                    assert(e@.rest =~= seen);
                }
                return Some((e, at));
            },
        }
    }
}

/// Reads what is to become of the results of a repetition.
fn read_repetition(text: &Vec<char>, pos: usize) -> (out: (Repetition, usize))
    requires
        pos <= text@.len(),
    ensures
        repetition(text@, pos as nat) == (out.0, out.1 as nat),
        pos <= out.1 <= text@.len(),
{
    match expect(text, pos, '+') {
        Some(p) => (Repetition::Sum, p),
        None => match expect(text, pos, '#') {
            Some(p) => (Repetition::Sort, p),
            None => (Repetition::Plain, pos),
        },
    }
}

/// Reads a repeated expression at `pos`.
fn read_repeated(text: &Vec<char>, pos: usize) -> (out: Option<(Roll, usize)>)
    requires
        pos <= text@.len(),
    ensures
        match out {
            Some((r, end)) => repeated(text@, pos as nat) == Some((r@, end as nat)) && pos < end
                <= text@.len(),
            None => repeated(text@, pos as nat) is None,
        },
{
    let (expression, p) = match read_block(text, pos) {
        Some(found) => found,
        None => {
            return None;
        },
    };
    let q = match expect(text, p, '^') {
        Some(q) => q,
        None => {
            return None;
        },
    };
    let (how, r) = read_repetition(text, q);
    match read_number(text, r) {
        Some((n, end)) => if n <= 0x7fff_ffff_ffff_ffff {
            Some((Roll::Repeated { expression, how, times: n as i64 }, end))
        } else {
            None
        },
        None => None,
    }
}

/// Reads what is to be rolled from the start of the text.
fn read_roll(text: &Vec<char>) -> (out: Option<(Roll, usize)>)
    ensures
        match out {
            Some((r, end)) => roll(text@) == Some((r@, end as nat)) && end <= text@.len(),
            None => roll(text@) is None,
        },
{
    match read_repeated(text, 0) {
        Some(found) => Some(found),
        None => match read_expr(text, 0) {
            Some((e, end)) => Some((Roll::Single(e), end)),
            None => None,
        },
    }
}

/// Whether `c` is white space.
pub fn blank(c: char) -> (b: bool)
    ensures
        b == is_blank(c),
{
    let u = c as u32;
    (0x9 <= u && u <= 0xd) || u == 0x20 || u == 0x85 || u == 0xa0 || u == 0x1680 || (0x2000 <= u
        && u <= 0x200a) || u == 0x2028 || u == 0x2029 || u == 0x202f || u == 0x205f || u
        == 0x3000
}

/// The text from `from` on, without the white space around it.
pub fn trim(text: &Vec<char>, from: usize) -> (out: String)
    requires
        from <= text@.len(),
    ensures
        out@ == trimmed(text@.skip(from as int)),
{
    let mut first = from;
    while first < text.len() && blank(text[first])
        invariant
            from <= first <= text@.len(),
            trim_start(text@.skip(from as int)) == trim_start(text@.skip(first as int)),
        decreases text.len() - first,
    {
        assert(text@.skip(first as int).skip(1) =~= text@.skip(first + 1));
        first = first + 1;
    }
    let mut last = text.len();
    assert(text@.skip(first as int) =~= text@.subrange(first as int, last as int));
    while last > first && blank(text[last - 1])
        invariant
            first <= last <= text@.len(),
            trimmed(text@.skip(from as int)) == trim_end(
                text@.subrange(first as int, last as int),
            ),
        decreases last,
    {
        assert(text@.subrange(first as int, last as int).drop_last() =~= text@.subrange(
            first as int,
            last - 1,
        ));
        last = last - 1;
    }
    string_of(text, first, last)
}

/// Reads a text as a command.
pub fn parse(input: &str) -> (out: Result<Command, RollError>)
    ensures
        match command(input@) {
            Ok(c) => out matches Ok(o) && o@ == c,
            Err(m) => out matches Err(e) && e@ == (crate::error::Failure::Parse {
                position: m.position,
                description: m.description,
            }),
        },
{
    let text = chars_of(input);
    match read_roll(&text) {
        Some((roll, end)) => {
            let stop = spaces(&text, end);
            if stop >= text.len() {
                Ok(Command { roll, reason: None })
            } else if text[stop] == ':' {
                Ok(Command { roll, reason: Some(trim(&text, stop + 1)) })
            } else {
                Err(
                    RollError::ParseError(
                        SyntaxError {
                            position: stop,
                            description: String::from_str(
                                "expected an operator, a reason or the end",
                            ),
                        },
                    ),
                )
            }
        },
        None => Err(
            RollError::ParseError(
                SyntaxError {
                    position: 0,
                    description: String::from_str("expected an expression"),
                },
            ),
        ),
    }
}

} // verus!
