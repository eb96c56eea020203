//! Classical easing (interpolation) curves, computed exactly.
//!
//! Each curve family maps an elapsed time `t`, a start value `b`, a total
//! change `c` and a duration `d` to an interpolated value.  The families
//! whose formulas are piecewise polynomials with rational coefficients —
//! the polynomial curves of degree two to five, the overshoot ("back")
//! curve and the decaying-bounce curve — are computed here over exact
//! rational arithmetic, and their contracts state the curve formulas
//! precisely.  Inputs are integer time/value coordinates; results are
//! exact fractions, so the algebraic identities of the curves (boundary
//! values, the bounce time-reversal duality, midpoint continuity) are
//! proved, not approximated.

pub mod rational;
pub mod quad;
pub mod cubic;
pub mod quart;
pub mod quint;
pub mod back;
pub mod bounce;
