//! The smallest parts of the notation: blanks, signs and numbers.

use vstd::prelude::*;

verus! {

/// The position of the first character from `pos` on that is no space; the
/// length of the text if there is none.
pub open spec fn skip_spaces(s: Seq<char>, pos: nat) -> nat
    decreases s.len() - pos,
{
    if pos < s.len() && s[pos as int] == ' ' {
        skip_spaces(s, pos + 1)
    } else {
        pos
    }
}

/// Whether `c` is one of the ten digits.
pub open spec fn is_digit(c: char) -> bool {
    '0' <= c <= '9'
}

/// The value of the digit `c`.
pub open spec fn digit_value(c: char) -> nat {
    (c as u32 - '0' as u32) as nat
}

/// The number that the digits from `pos` on spell after the digits that spell
/// `acc`, and the position behind them.
pub open spec fn digits(s: Seq<char>, pos: nat, acc: nat) -> (nat, nat)
    decreases s.len() - pos,
{
    if pos < s.len() && is_digit(s[pos as int]) {
        digits(s, pos + 1, acc * 10 + digit_value(s[pos as int]))
    } else {
        (acc, pos)
    }
}

/// The position behind the character `c`, if it is the first after the
/// spaces from `pos` on.
pub open spec fn sign(s: Seq<char>, pos: nat, c: char) -> Option<nat> {
    let start = skip_spaces(s, pos);
    if start < s.len() && s[start as int] == c {
        Some(start + 1)
    } else {
        None
    }
}

/// A number: after the spaces from `pos` on, one or more digits that spell
/// a value of at most 64 bits. With the position behind it.
pub open spec fn number(s: Seq<char>, pos: nat) -> Option<(u64, nat)> {
    let start = skip_spaces(s, pos);
    let (value, end) = digits(s, start, 0);
    if start < s.len() && is_digit(s[start as int]) && value <= u64::MAX {
        Some((value as u64, end))
    } else {
        None
    }
}

/// A number where there is one at `pos`, with the position behind it; nothing
/// and `pos` otherwise.
pub open spec fn optional_number(s: Seq<char>, pos: nat) -> (Option<u64>, nat) {
    match number(s, pos) {
        Some((n, end)) => (Some(n), end),
        None => (None, pos),
    }
}

pub proof fn lemma_digits(s: Seq<char>, pos: nat, acc: nat)
    ensures
        pos <= digits(s, pos, acc).1,
        pos <= s.len() ==> digits(s, pos, acc).1 <= s.len(),
        pos < s.len() && is_digit(s[pos as int]) ==> pos < digits(s, pos, acc).1,
    decreases s.len() - pos,
{
    if pos < s.len() && is_digit(s[pos as int]) {
        lemma_digits(s, pos + 1, acc * 10 + digit_value(s[pos as int]));
    }
}

/// The position of the first character from `pos` on that is no space.
pub fn spaces(text: &Vec<char>, pos: usize) -> (next: usize)
    requires
        pos <= text@.len(),
    ensures
        next == skip_spaces(text@, pos as nat),
        pos <= next <= text@.len(),
{
    let mut next = pos;
    while next < text.len() && text[next] == ' '
        invariant
            pos <= next <= text@.len(),
            skip_spaces(text@, pos as nat) == skip_spaces(text@, next as nat),
        decreases text.len() - next,
    {
        next = next + 1;
    }
    next
}

/// The position behind `c`, if it is the first after the spaces from `pos` on.
pub fn expect(text: &Vec<char>, pos: usize, c: char) -> (next: Option<usize>)
    requires
        pos <= text@.len(),
    ensures
        match next {
            Some(p) => sign(text@, pos as nat, c) == Some(p as nat) && pos < p <= text@.len(),
            None => sign(text@, pos as nat, c) is None,
        },
{
    let start = spaces(text, pos);
    if start < text.len() && text[start] == c {
        Some(start + 1)
    } else {
        None
    }
}

/// Whether `c` is a digit.
pub fn digit(c: char) -> (b: bool)
    ensures
        b == is_digit(c),
{
    '0' <= c && c <= '9'
}

/// Reads the digits from `pos` on: the value they spell, if it fits 64 bits,
/// and the position behind them.
pub fn read_digits(text: &Vec<char>, pos: usize) -> (out: (Option<u64>, usize))
    requires
        pos <= text@.len(),
    ensures
        out.1 == digits(text@, pos as nat, 0).1,
        pos <= out.1 <= text@.len(),
        match out.0 {
            Some(v) => v == digits(text@, pos as nat, 0).0,
            None => digits(text@, pos as nat, 0).0 > u64::MAX,
        },
{
    let mut value: u64 = 0;
    let mut fits = true;
    let mut next = pos;
    let ghost mut acc: nat = 0;
    while next < text.len() && digit(text[next])
        invariant
            pos <= next <= text@.len(),
            digits(text@, pos as nat, 0) == digits(text@, next as nat, acc),
            fits ==> value == acc,
            !fits ==> acc > u64::MAX,
        decreases text.len() - next,
    {
        let d = (text[next] as u32 - '0' as u32) as u64;
        proof {
            assert(d == digit_value(text@[next as int]));
            assert(d <= 9);
            if !fits {
                assert(acc * 10 + d > u64::MAX) by (nonlinear_arith)
                    requires
                        acc > u64::MAX,
                        d >= 0,
                ;
            }
            acc = acc * 10 + d as nat;
        }
        if fits {
            if value > (u64::MAX - d) / 10 {
                fits = false;
                assert(acc > u64::MAX) by (nonlinear_arith)
                    requires
                        acc == value * 10 + d,
                        value > (u64::MAX - d) / 10,
                        0 <= d <= 9,
                ;
            } else {
                assert(value * 10 + d <= u64::MAX) by (nonlinear_arith)
                    requires
                        value <= (u64::MAX - d) / 10,
                        0 <= d <= 9,
                ;
                value = value * 10 + d;
            }
        }
        next = next + 1;
    }
    if fits {
        (Some(value), next)
    } else {
        (None, next)
    }
}

/// Reads a number at `pos`.
pub fn read_number(text: &Vec<char>, pos: usize) -> (out: Option<(u64, usize)>)
    requires
        pos <= text@.len(),
    ensures
        match out {
            Some((n, end)) => number(text@, pos as nat) == Some((n, end as nat)) && pos < end
                <= text@.len(),
            None => number(text@, pos as nat) is None,
        },
{
    let start = spaces(text, pos);
    if start < text.len() && digit(text[start]) {
        proof {
            lemma_digits(text@, start as nat, 0);
        }
        match read_digits(text, start) {
            (Some(value), end) => Some((value, end)),
            (None, _) => None,
        }
    } else {
        None
    }
}

/// Reads a number at `pos` if there is one.
pub fn read_optional_number(text: &Vec<char>, pos: usize) -> (out: (Option<u64>, usize))
    requires
        pos <= text@.len(),
    ensures
        optional_number(text@, pos as nat) == (out.0, out.1 as nat),
        pos <= out.1 <= text@.len(),
{
    match read_number(text, pos) {
        Some((n, end)) => (Some(n), end),
        None => (None, pos),
    }
}

} // verus!
