//! Exact arithmetic on integer totals and decimal literals.
//!
//! A literal such as `1.5` is kept as the pair (15, 1): an integer count of
//! units and the number of digits after the point. Whenever such a literal
//! takes part in `+ - * /`, the operation is carried out on exact fractions
//! and the quotient is cut off toward zero once, at the end.

use vstd::prelude::*;

verus! {

/// The largest number of digits after the point that a [`Decimal`] keeps.
pub const MAX_SCALE: u8 = 18;

/// One of the four arithmetic operators of an expression.
#[derive(Debug, Clone, Copy, PartialEq, Eq, Structural)]
pub enum Operator {
    /// `+`
    Add,
    /// `-`
    Sub,
    /// `*`
    Mul,
    /// `/`
    Div,
}

/// A decimal literal, `units / 10^scale`.
#[derive(Debug, Clone, Copy, PartialEq, Eq, Structural)]
pub struct Decimal {
    units: i64,
    scale: u8,
}

/// Ten to the power `n`.
pub open spec fn pow10(n: nat) -> int
    decreases n,
{
    if n == 0 {
        1
    } else {
        10 * pow10((n - 1) as nat)
    }
}

/// The distance of `a` from zero.
pub open spec fn magnitude(a: int) -> int {
    if a < 0 {
        -a
    } else {
        a
    }
}

/// The quotient of `a` by `b`, cut off toward zero. Meaningful for `b != 0`.
pub open spec fn trunc_div(a: int, b: int) -> int {
    if (a < 0) == (b < 0) {
        magnitude(a) / magnitude(b)
    } else {
        -(magnitude(a) / magnitude(b))
    }
}

/// A fraction, numerator over denominator.
pub struct Ratio {
    pub num: int,
    pub den: int,
}

/// What an operand is worth in arithmetic: its decimal literal where it
/// carries one, else its integer total.
pub open spec fn operand(total: i64, constant: Option<Decimal>) -> Ratio {
    match constant {
        Some(d) => Ratio { num: d.spec_units() as int, den: pow10(d.spec_scale() as nat) },
        None => Ratio { num: total as int, den: 1 },
    }
}

/// The exact result of `l op r`, before it is cut off. For `Div` with a zero
/// `r` the denominator is zero.
pub open spec fn apply(op: Operator, l: Ratio, r: Ratio) -> Ratio {
    match op {
        Operator::Add => Ratio { num: l.num * r.den + r.num * l.den, den: l.den * r.den },
        Operator::Sub => Ratio { num: l.num * r.den - r.num * l.den, den: l.den * r.den },
        Operator::Mul => Ratio { num: l.num * r.num, den: l.den * r.den },
        Operator::Div => Ratio { num: l.num * r.den, den: l.den * r.num },
    }
}

/// `l op r` cut off toward zero.
pub open spec fn truncated(op: Operator, l: Ratio, r: Ratio) -> int {
    trunc_div(apply(op, l, r).num, apply(op, l, r).den)
}

/// Whether `v` can be held in an `i64`.
pub open spec fn fits_i64(v: int) -> bool {
    i64::MIN <= v <= i64::MAX
}

pub proof fn lemma_pow10_grows(i: nat, j: nat)
    requires
        i <= j,
    ensures
        1 <= pow10(i) <= pow10(j),
    decreases j,
{
    if j == 0 {
    } else if i == j {
        lemma_pow10_grows((i - 1) as nat, (j - 1) as nat);
    } else {
        lemma_pow10_grows(i, (j - 1) as nat);
    }
}

pub proof fn lemma_pow10_max()
    ensures
        pow10(18) == 1_000_000_000_000_000_000,
{
    reveal_with_fuel(pow10, 19);
}

impl Decimal {
    #[verifier::type_invariant]
    spec fn inv(self) -> bool {
        self.scale <= MAX_SCALE
    }

    /// The count of units, the literal with its point taken out.
    pub closed spec fn spec_units(self) -> i64 {
        self.units
    }

    /// The number of digits after the point.
    pub closed spec fn spec_scale(self) -> u8 {
        self.scale
    }

    /// The literal `units / 10^scale`.
    pub closed spec fn of(units: i64, scale: u8) -> Decimal {
        Decimal { units, scale }
    }

    /// What `Decimal::of` is made of.
    pub proof fn lemma_of(units: i64, scale: u8)
        ensures
            Self::of(units, scale).spec_units() == units,
            Self::of(units, scale).spec_scale() == scale,
    {
    }

    /// `units / 10^scale`, or `None` where `scale` is over [`MAX_SCALE`].
    pub fn new(units: i64, scale: u8) -> (d: Option<Self>)
        ensures
            d is Some <==> scale <= MAX_SCALE,
            d matches Some(x) ==> x == Self::of(units, scale) && x.spec_units() == units
                && x.spec_scale() == scale,
    {
        if scale <= MAX_SCALE {
            Some(Decimal { units, scale })
        } else {
            None
        }
    }

    /// The count of units.
    #[verifier::when_used_as_spec(spec_units)]
    pub fn units(self) -> (u: i64)
        ensures
            u == self.spec_units(),
    {
        self.units
    }

    /// The number of digits after the point, at most [`MAX_SCALE`].
    #[verifier::when_used_as_spec(spec_scale)]
    pub fn scale(self) -> (s: u8)
        ensures
            s == self.spec_scale(),
            s <= MAX_SCALE,
    {
        proof {
            use_type_invariant(&self);
        }
        self.scale
    }

    /// Whether the literal is zero.
    pub fn is_zero(self) -> (z: bool)
        ensures
            z == (self.spec_units() == 0),
    {
        self.units == 0
    }

    /// The literal cut off toward zero: its integer part.
    pub open spec fn spec_trunc(self) -> int {
        trunc_div(self.spec_units() as int, pow10(self.spec_scale() as nat))
    }

    /// The integer part of the literal.
    pub fn trunc(self) -> (t: i64)
        ensures
            t == self.spec_trunc(),
    {
        let p = ten_to(self.scale());
        let q = quotient(self.units as i128, p);
        q as i64
    }
}

/// Ten to the power `scale`.
pub fn ten_to(scale: u8) -> (p: i128)
    requires
        scale <= MAX_SCALE,
    ensures
        p == pow10(scale as nat),
        1 <= p <= 1_000_000_000_000_000_000,
{
    let mut p: i128 = 1;
    let mut i: u8 = 0;
    while i < scale
        invariant
            i <= scale <= MAX_SCALE,
            p == pow10(i as nat),
            1 <= p <= 1_000_000_000_000_000_000,
        decreases scale - i,
    {
        proof {
            lemma_pow10_grows((i + 1) as nat, 18);
            lemma_pow10_max();
        }
        p = p * 10;
        i = i + 1;
    }
    p
}

/// `a / b` cut off toward zero.
pub fn quotient(a: i128, b: i128) -> (q: i128)
    requires
        b != 0,
        i128::MIN < a,
        i128::MIN < b,
    ensures
        q == trunc_div(a as int, b as int),
        magnitude(q as int) <= magnitude(a as int),
        (a < 0) == (b < 0) ==> q >= 0,
        (a < 0) != (b < 0) ==> q <= 0,
{
    let ma: i128 = if a < 0 { -a } else { a };
    let mb: i128 = if b < 0 { -b } else { b };
    let m: i128 = ma / mb;
    assert(0 <= m <= ma) by (nonlinear_arith)
        requires
            0 <= ma,
            0 < mb,
            m == ma / mb,
    ;
    if (a < 0) == (b < 0) {
        m
    } else {
        -m
    }
}

/// `v` as an `i64` where it fits, else nothing.
pub open spec fn checked(v: int) -> Option<i64> {
    if fits_i64(v) {
        Some(v as i64)
    } else {
        None
    }
}

proof fn lemma_product_bound(a: int, b: int, x: int, y: int)
    requires
        -x <= a <= x,
        -y <= b <= y,
    ensures
        -(x * y) <= a * b <= x * y,
{
    assert(-(x * y) <= a * b <= x * y) by (nonlinear_arith)
        requires
            -x <= a <= x,
            -y <= b <= y,
    ;
}

/// Numerator and denominator of an operand.
fn parts(total: i64, constant: Option<Decimal>) -> (r: (i128, i128))
    ensures
        r.0 == operand(total, constant).num,
        r.1 == operand(total, constant).den,
        i64::MIN <= r.0 <= i64::MAX,
        1 <= r.1 <= 1_000_000_000_000_000_000,
{
    match constant {
        Some(d) => (d.units() as i128, ten_to(d.scale())),
        None => (total as i128, 1),
    }
}

/// Carries out `l op r` on two operands, each an integer total with the
/// decimal literal it may stand for, and cuts the result off toward zero.
/// Returns `None` where the result does not fit an `i64`.
pub fn compute(
    op: Operator,
    l_total: i64,
    l_constant: Option<Decimal>,
    r_total: i64,
    r_constant: Option<Decimal>,
) -> (out: Option<i64>)
    requires
        op == Operator::Div ==> operand(r_total, r_constant).num != 0,
    ensures
        out == checked(
            truncated(op, operand(l_total, l_constant), operand(r_total, r_constant)),
        ),
{
    let (ln, ld) = parts(l_total, l_constant);
    let (rn, rd) = parts(r_total, r_constant);
    let ghost b: int = 9_223_372_036_854_775_808;
    let ghost p: int = 1_000_000_000_000_000_000;
    proof {
        lemma_product_bound(ln as int, rd as int, b, p);
        lemma_product_bound(rn as int, ld as int, b, p);
        lemma_product_bound(ln as int, rn as int, b, b);
        lemma_product_bound(ld as int, rd as int, p, p);
        assert(ld * rd >= 1) by (nonlinear_arith)
            requires
                ld >= 1,
                rd >= 1,
        ;
        if rn != 0 {
            assert(ld * rn != 0) by (nonlinear_arith)
                requires
                    ld >= 1,
                    rn != 0,
            ;
        }
    }
    let (num, den): (i128, i128) = match op {
        Operator::Add => (ln * rd + rn * ld, ld * rd),
        Operator::Sub => (ln * rd - rn * ld, ld * rd),
        Operator::Mul => (ln * rn, ld * rd),
        Operator::Div => (ln * rd, ld * rn),
    };
    let q = quotient(num, den);
    if q < -9_223_372_036_854_775_808 || q > 9_223_372_036_854_775_807 {
        None
    } else {
        Some(q as i64)
    }
}

} // verus!
