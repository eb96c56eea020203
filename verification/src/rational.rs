//! Exact rational arithmetic: the number model the curve contracts speak of.
//!
//! `Rat` is the specification-level rational number, a numerator over a
//! denominator with no reduction; two `Rat`s denote the same number exactly
//! when `rat_eq` holds (cross multiplication).  `Frac` is the executable
//! counterpart, an `i128` fraction kept with a positive denominator.

use vstd::prelude::*;

verus! {

/// A rational number at the specification level.  The denominator is kept
/// nonzero (and positive wherever an order comparison is made) by the
/// functions that build these values.
pub struct Rat {
    pub n: int,
    pub d: int,
}

/// The integer `i` as a rational.
pub open spec fn rat_int(i: int) -> Rat {
    Rat { n: i, d: 1 }
}

pub open spec fn rat_add(a: Rat, b: Rat) -> Rat {
    Rat { n: a.n * b.d + b.n * a.d, d: a.d * b.d }
}

pub open spec fn rat_sub(a: Rat, b: Rat) -> Rat {
    Rat { n: a.n * b.d - b.n * a.d, d: a.d * b.d }
}

pub open spec fn rat_mul(a: Rat, b: Rat) -> Rat {
    Rat { n: a.n * b.n, d: a.d * b.d }
}

pub open spec fn rat_neg(a: Rat) -> Rat {
    Rat { n: -a.n, d: a.d }
}

/// Exact division.  The sign of the divisor's numerator moves into the
/// result's numerator, so denominators stay positive when they start so.
pub open spec fn rat_div(a: Rat, b: Rat) -> Rat {
    if b.n >= 0 {
        Rat { n: a.n * b.d, d: a.d * b.n }
    } else {
        Rat { n: -(a.n * b.d), d: -(a.d * b.n) }
    }
}

/// Twice `a`: the scaling used to normalize time against a half duration,
/// since `t / (d/2) == (2t) / d`.
pub open spec fn rat_dbl(a: Rat) -> Rat {
    Rat { n: a.n * 2, d: a.d }
}

/// Half of `a`: the scaling every two-sided ("in-out") curve applies to
/// its one-sided halves.
pub open spec fn rat_half(a: Rat) -> Rat {
    Rat { n: a.n, d: a.d * 2 }
}

/// `a` and `b` denote the same rational number.
pub open spec fn rat_eq(a: Rat, b: Rat) -> bool {
    a.n * b.d == b.n * a.d
}

/// `a <= b` as rational numbers; meaningful when both denominators are
/// positive.
pub open spec fn rat_le(a: Rat, b: Rat) -> bool {
    a.n * b.d <= b.n * a.d
}

/// `a < b` as rational numbers; meaningful when both denominators are
/// positive.
pub open spec fn rat_lt(a: Rat, b: Rat) -> bool {
    a.n * b.d < b.n * a.d
}

/// The magnitude the executable curve functions accept for each integer
/// input; with it, every intermediate product of every curve fits in
/// `i128`.
pub open spec fn in_range(x: int) -> bool {
    -100_000 <= x <= 100_000
}

/// An executable exact fraction.  The denominator is always positive.
#[derive(Clone, Copy, Debug, PartialEq, Eq, Structural)]
pub struct Frac {
    pub num: i128,
    pub den: i128,
}

impl View for Frac {
    type V = Rat;

    open spec fn view(&self) -> Rat {
        Rat { n: self.num as int, d: self.den as int }
    }
}

impl Frac {
    /// The denominator is positive, so the fraction denotes a rational
    /// number and order comparisons on it are meaningful.
    pub open spec fn wf(self) -> bool {
        self.den > 0
    }
}

/// A product of two values bounded by `bx` and `yb` stays within
/// `bx * yb` in magnitude.
pub proof fn lemma_mul_bound(x: int, bx: int, y: int, yb: int)
    requires
        -bx <= x <= bx,
        -yb <= y <= yb,
    ensures
        -(bx * yb) <= x * y <= bx * yb,
{
    assert(-(bx * yb) <= x * y <= bx * yb) by (nonlinear_arith)
        requires
            -bx <= x <= bx,
            -yb <= y <= yb;
}

/// A product of two positive values is positive.
pub proof fn lemma_mul_pos(x: int, y: int)
    requires
        x >= 1,
        y >= 1,
    ensures
        x * y >= 1,
{
    assert(x * y >= 1) by (nonlinear_arith)
        requires
            x >= 1,
            y >= 1;
}

/// Rational order is transitive over positive denominators.
pub proof fn lemma_rat_le_trans(a: Rat, b: Rat, c: Rat)
    requires
        a.d > 0,
        b.d > 0,
        c.d > 0,
        rat_le(a, b),
        rat_le(b, c),
    ensures
        rat_le(a, c),
{
    assert(a.n * c.d <= c.n * a.d) by (nonlinear_arith)
        requires
            a.d > 0,
            b.d > 0,
            c.d > 0,
            a.n * b.d <= b.n * a.d,
            b.n * c.d <= c.n * b.d;
}

} // verus!
