//! Quadratic easing: power curve of degree two.

use vstd::prelude::*;
use crate::rational::{Rat, Frac, rat_int, rat_add, rat_sub, rat_mul, rat_neg, rat_div, rat_dbl,
    rat_half, rat_eq, rat_le, rat_lt, in_range, lemma_mul_bound, lemma_mul_pos,
    lemma_rat_le_trans};

verus! {

/// `c * u * u + b` where `u = t / d`.
pub open spec fn ease_in_rat(t: Rat, b: Rat, c: Rat, d: Rat) -> Rat {
    let u = rat_div(t, d);
    rat_add(rat_mul(rat_mul(c, u), u), b)
}

/// `-c * u * (u - 2) + b` where `u = t / d`.
pub open spec fn ease_out_rat(t: Rat, b: Rat, c: Rat, d: Rat) -> Rat {
    let u = rat_div(t, d);
    rat_add(rat_mul(rat_mul(rat_neg(c), u), rat_sub(u, rat_int(2))), b)
}

/// First half: `c * u * u / 2 + b` where `u = t / (d/2)`, taken when
/// `u < 1`.
pub open spec fn ease_in_out_lo_rat(t: Rat, b: Rat, c: Rat, d: Rat) -> Rat {
    let u = rat_div(rat_dbl(t), d);
    rat_add(rat_half(rat_mul(rat_mul(c, u), u)), b)
}

/// Second half: `-c * (v * (v - 2) - 1) / 2 + b` where `v = u - 1`,
/// taken when `u >= 1` (the midpoint itself falls here).
pub open spec fn ease_in_out_hi_rat(t: Rat, b: Rat, c: Rat, d: Rat) -> Rat {
    let u = rat_div(rat_dbl(t), d);
    let v = rat_sub(u, rat_int(1));
    rat_add(rat_half(rat_mul(rat_neg(c),
        rat_sub(rat_mul(v, rat_sub(v, rat_int(2))), rat_int(1)))), b)
}

pub open spec fn ease_in_out_rat(t: Rat, b: Rat, c: Rat, d: Rat) -> Rat {
    let u = rat_div(rat_dbl(t), d);
    if rat_lt(u, rat_int(1)) {
        ease_in_out_lo_rat(t, b, c, d)
    } else {
        ease_in_out_hi_rat(t, b, c, d)
    }
}

/// The quadratic ease-in curve, exactly: `r = c * (t/d)^2 + b`.
pub fn ease_in(t: i64, b: i64, c: i64, d: i64) -> (r: Frac)
    requires
        in_range(t as int),
        in_range(b as int),
        in_range(c as int),
        in_range(d as int),
        d != 0,
    ensures
        r.wf(),
        r@ == ease_in_rat(rat_int(t as int), rat_int(b as int), rat_int(c as int),
            rat_int(d as int)),
        t == 0 ==> rat_eq(r@, rat_int(b as int)),
        t == d ==> rat_eq(r@, rat_add(rat_int(b as int), rat_int(c as int))),
{
    let tn: i128 = if d < 0 { -(t as i128) } else { t as i128 };
    let dn: i128 = if d < 0 { -(d as i128) } else { d as i128 };
    let b1: i128 = b as i128;
    let c1: i128 = c as i128;
    proof {
        lemma_mul_bound(c1 as int, 100_000, tn as int, 100_000);
        lemma_mul_bound((c1 as int) * (tn as int), 10_000_000_000, tn as int, 100_000);
        lemma_mul_bound(dn as int, 100_000, dn as int, 100_000);
        lemma_mul_bound(b1 as int, 100_000, (dn as int) * (dn as int), 10_000_000_000);
        lemma_mul_pos(dn as int, dn as int);
    }
    let ct: i128 = c1 * tn;
    let ctt: i128 = ct * tn;
    let dd: i128 = dn * dn;
    let num: i128 = ctt + b1 * dd;
    proof {
        let ghost ni: int = num as int;
        let ghost di: int = dd as int;
        let ghost ci: int = c1 as int;
        let ghost bi: int = b1 as int;
        let ghost ti: int = tn as int;
        let ghost dni: int = dn as int;
        if t == 0 {
            assert(ni * 1 == bi * di) by (nonlinear_arith)
                requires
                    ni == (ci * ti) * ti + bi * di,
                    ti == 0;
        }
        if t == d {
            assert(ni * (1 * 1) == ((bi * 1) + (ci * 1)) * di) by (nonlinear_arith)
                requires
                    ni == (ci * ti) * ti + bi * di,
                    di == dni * dni,
                    ti == dni;
        }
    }
    Frac { num, den: dd }
}

/// The quadratic ease-out curve, exactly: `r = -c * (t/d) * (t/d - 2) + b`.
pub fn ease_out(t: i64, b: i64, c: i64, d: i64) -> (r: Frac)
    requires
        in_range(t as int),
        in_range(b as int),
        in_range(c as int),
        in_range(d as int),
        d != 0,
    ensures
        r.wf(),
        r@ == ease_out_rat(rat_int(t as int), rat_int(b as int), rat_int(c as int),
            rat_int(d as int)),
        t == 0 ==> rat_eq(r@, rat_int(b as int)),
        t == d ==> rat_eq(r@, rat_add(rat_int(b as int), rat_int(c as int))),
{
    let tn: i128 = if d < 0 { -(t as i128) } else { t as i128 };
    let dn: i128 = if d < 0 { -(d as i128) } else { d as i128 };
    let b1: i128 = b as i128;
    let c1: i128 = c as i128;
    let nc: i128 = -c1;
    // u - 2 has numerator tn - 2*dn over denominator dn.
    let wn: i128 = tn - dn * 2;
    proof {
        lemma_mul_bound(nc as int, 100_000, tn as int, 100_000);
        lemma_mul_bound((nc as int) * (tn as int), 10_000_000_000, wn as int, 300_000);
        lemma_mul_bound(dn as int, 100_000, dn as int, 100_000);
        lemma_mul_bound(b1 as int, 100_000, (dn as int) * (dn as int), 10_000_000_000);
        lemma_mul_pos(dn as int, dn as int);
    }
    let nct: i128 = nc * tn;
    let nctw: i128 = nct * wn;
    let dd: i128 = dn * dn;
    let num: i128 = nctw + b1 * dd;
    proof {
        let ghost ni: int = num as int;
        let ghost di: int = dd as int;
        let ghost ci: int = c1 as int;
        let ghost bi: int = b1 as int;
        let ghost ti: int = tn as int;
        let ghost wi: int = wn as int;
        let ghost dni: int = dn as int;
        if t == 0 {
            assert(ni * 1 == bi * di) by (nonlinear_arith)
                requires
                    ni == ((-ci) * ti) * wi + bi * di,
                    ti == 0;
        }
        if t == d {
            assert(ni * (1 * 1) == ((bi * 1) + (ci * 1)) * di) by (nonlinear_arith)
                requires
                    ni == ((-ci) * ti) * wi + bi * di,
                    wi == ti - dni * 2,
                    di == dni * dni,
                    ti == dni;
        }
    }
    Frac { num, den: dd }
}

/// The quadratic ease-in-out curve, exactly; the midpoint `u == 1` takes
/// the second-half formula.
pub fn ease_in_out(t: i64, b: i64, c: i64, d: i64) -> (r: Frac)
    requires
        in_range(t as int),
        in_range(b as int),
        in_range(c as int),
        in_range(d as int),
        d != 0,
    ensures
        r.wf(),
        r@ == ease_in_out_rat(rat_int(t as int), rat_int(b as int), rat_int(c as int),
            rat_int(d as int)),
        t == 0 ==> rat_eq(r@, rat_int(b as int)),
        t == d ==> rat_eq(r@, rat_add(rat_int(b as int), rat_int(c as int))),
{
    let tn: i128 = if d < 0 { -(t as i128) } else { t as i128 };
    let dn: i128 = if d < 0 { -(d as i128) } else { d as i128 };
    let b1: i128 = b as i128;
    let c1: i128 = c as i128;
    let un: i128 = tn * 2;
    proof {
        lemma_mul_bound(dn as int, 100_000, dn as int, 100_000);
        lemma_mul_pos(dn as int, dn as int);
    }
    let dd: i128 = dn * dn;
    if un < dn {
        proof {
            lemma_mul_bound(c1 as int, 100_000, un as int, 200_000);
            lemma_mul_bound((c1 as int) * (un as int), 100_000_000_000, un as int, 200_000);
            lemma_mul_bound(b1 as int, 100_000, ((dn as int) * (dn as int)) * 2,
                20_000_000_000);
        }
        let cu: i128 = c1 * un;
        let cuu: i128 = cu * un;
        let den: i128 = dd * 2;
        let num: i128 = cuu + b1 * den;
        proof {
            if t == 0 {
                let ghost ni: int = num as int;
                let ghost di: int = den as int;
                let ghost ci: int = c1 as int;
                let ghost bi: int = b1 as int;
                let ghost ui: int = un as int;
                assert(ni * 1 == bi * di) by (nonlinear_arith)
                    requires
                        ni == (ci * ui) * ui + bi * di,
                        ui == 0;
            }
        }
        Frac { num, den }
    } else {
        // v = u - 1 = (2t - d)/d, and v - 2 = (2t - 3d)/d.
        let vn: i128 = un - dn;
        let wn: i128 = un - dn * 3;
        proof {
            lemma_mul_bound(vn as int, 300_000, wn as int, 500_000);
            lemma_mul_bound(-(c1 as int), 100_000,
                (vn as int) * (wn as int) - (dn as int) * (dn as int), 160_000_000_000);
            lemma_mul_bound(b1 as int, 100_000, ((dn as int) * (dn as int)) * 2,
                20_000_000_000);
        }
        let p: i128 = vn * wn;
        let yn: i128 = p - dd;
        let nc: i128 = -c1;
        let ncy: i128 = nc * yn;
        let den: i128 = dd * 2;
        let num: i128 = ncy + b1 * den;
        proof {
            if t == d {
                let ghost ni: int = num as int;
                let ghost di: int = den as int;
                let ghost ci: int = c1 as int;
                let ghost bi: int = b1 as int;
                let ghost vi: int = vn as int;
                let ghost wi: int = wn as int;
                let ghost dni: int = dn as int;
                assert(ni * (1 * 1) == ((bi * 1) + (ci * 1)) * di) by (nonlinear_arith)
                    requires
                        ni == (-ci) * (vi * wi - dni * dni) + bi * di,
                        di == (dni * dni) * 2,
                        vi == dni * 2 - dni,
                        wi == dni * 2 - dni * 3;
            }
        }
        Frac { num, den }
    }
}

/// Continuity and growth at the midpoint seam: the curve's two halves
/// agree at `t = d/2` (where the value is `b + c/2`), and for nonnegative
/// `c` the curve does not decrease across the seam.
pub proof fn lemma_ease_in_out_seam(t1: int, t2: int, b: int, c: int, d: int)
    requires
        0 <= t1,
        t1 * 2 <= d,
        d <= t2 * 2,
        t2 <= d,
        0 < d,
        0 <= c,
    ensures
        rat_eq(ease_in_out_rat(rat_div(rat_int(d), rat_int(2)), rat_int(b), rat_int(c),
            rat_int(d)), rat_add(rat_int(b), rat_half(rat_int(c)))),
        rat_le(ease_in_out_rat(rat_int(t1), rat_int(b), rat_int(c), rat_int(d)),
            rat_add(rat_int(b), rat_half(rat_int(c)))),
        rat_le(rat_add(rat_int(b), rat_half(rat_int(c))),
            ease_in_out_rat(rat_int(t2), rat_int(b), rat_int(c), rat_int(d))),
        rat_le(ease_in_out_rat(rat_int(t1), rat_int(b), rat_int(c), rat_int(d)),
            ease_in_out_rat(rat_int(t2), rat_int(b), rat_int(c), rat_int(d))),
{
    let mid = rat_add(rat_int(b), rat_half(rat_int(c)));
    assert(mid.n == b * 2 + c);
    assert(mid.d == 2);

    // The curve at the exact midpoint, from the second-half formula.
    let tm = rat_div(rat_int(d), rat_int(2));
    let um = rat_div(rat_dbl(tm), rat_int(d));
    assert(um.n == (d * 2) * 1);
    assert(um.d == tm.d * d);
    assert(um.d == d * 2) by (nonlinear_arith)
        requires
            um.d == tm.d * d,
            tm.d == 1 * 2;
    let vm = rat_sub(um, rat_int(1));
    let wm = rat_sub(vm, rat_int(2));
    assert(vm.n == 0 && vm.d == d * 2 && wm.d == d * 2);
    let ddm: int = (d * 2) * (d * 2);
    let xm = rat_mul(vm, wm);
    assert(xm.n == 0) by (nonlinear_arith)
        requires
            xm.n == vm.n * wm.n,
            vm.n == 0;
    assert(xm.d == ddm);
    let ym = rat_sub(xm, rat_int(1));
    assert(ym.n == 0 - ddm && ym.d == ddm);
    let nm = rat_mul(rat_neg(rat_int(c)), ym);
    assert(nm.n == c * ddm) by (nonlinear_arith)
        requires
            nm.n == (0 - c) * ym.n,
            ym.n == 0 - ddm;
    assert(nm.d == ddm);
    let fm = ease_in_out_rat(tm, rat_int(b), rat_int(c), rat_int(d));
    assert(fm == rat_add(rat_half(nm), rat_int(b)));
    assert(fm.n == c * ddm + b * (ddm * 2));
    assert(fm.d == ddm * 2);
    assert((c * ddm + b * (ddm * 2)) * 2 == (b * 2 + c) * (ddm * 2)) by (nonlinear_arith);
    assert(rat_eq(fm, mid));

    // Value at t1, in the first half (or exactly at the seam).
    let f1 = ease_in_out_rat(rat_int(t1), rat_int(b), rat_int(c), rat_int(d));
    let dd: int = d * d;
    if t1 * 2 < d {
        assert(f1.n == (c * (t1 * 2)) * (t1 * 2) + b * (dd * 2));
        assert(f1.d == dd * 2);
        assert(((c * (t1 * 2)) * (t1 * 2) + b * (dd * 2)) * 2 <= (b * 2 + c) * (dd * 2))
            by (nonlinear_arith)
            requires
                dd == d * d,
                0 <= t1,
                t1 * 2 <= d,
                0 < d,
                0 <= c;
        assert(rat_le(f1, mid));
    } else {
        let p1: int = (t1 * 2 - d) * (t1 * 2 - d * 3);
        assert(f1.n == (-c) * (p1 - dd) + b * (dd * 2));
        assert(f1.d == dd * 2);
        assert(((-c) * (p1 - dd) + b * (dd * 2)) * 2 <= (b * 2 + c) * (dd * 2))
            by (nonlinear_arith)
            requires
                p1 == (t1 * 2 - d) * (t1 * 2 - d * 3),
                t1 * 2 == d,
                dd == d * d,
                0 < d,
                0 <= c;
        assert(rat_le(f1, mid));
    }
    assert(f1.d > 0) by (nonlinear_arith)
        requires
            f1.d == (d * d) * 2,
            0 < d;

    // Value at t2, in the second half.
    let f2 = ease_in_out_rat(rat_int(t2), rat_int(b), rat_int(c), rat_int(d));
    let p2: int = (t2 * 2 - d) * (t2 * 2 - d * 3);
    assert(f2.n == (-c) * (p2 - dd) + b * (dd * 2));
    assert(f2.d == dd * 2);
    assert((b * 2 + c) * (dd * 2) <= ((-c) * (p2 - dd) + b * (dd * 2)) * 2)
        by (nonlinear_arith)
        requires
            p2 == (t2 * 2 - d) * (t2 * 2 - d * 3),
            dd == d * d,
            d <= t2 * 2,
            t2 <= d,
            0 < d,
            0 <= c;
    assert(rat_le(mid, f2));
    assert(f2.d > 0) by (nonlinear_arith)
        requires
            f2.d == (d * d) * 2,
            0 < d;
    lemma_rat_le_trans(f1, mid, f2);
}

/// For nonnegative `c` the two-sided curve is monotonically
/// non-decreasing on the whole interval `[0, d]`.
pub proof fn lemma_ease_in_out_monotone(t1: int, t2: int, b: int, c: int, d: int)
    requires
        0 <= t1,
        t1 <= t2,
        t2 <= d,
        0 < d,
        0 <= c,
    ensures
        rat_le(ease_in_out_rat(rat_int(t1), rat_int(b), rat_int(c), rat_int(d)),
            ease_in_out_rat(rat_int(t2), rat_int(b), rat_int(c), rat_int(d))),
{
    let f1 = ease_in_out_rat(rat_int(t1), rat_int(b), rat_int(c), rat_int(d));
    let f2 = ease_in_out_rat(rat_int(t2), rat_int(b), rat_int(c), rat_int(d));
    let dd: int = d * d;
    if t2 * 2 < d {
        assert(f1.n == (c * (t1 * 2)) * (t1 * 2) + b * (dd * 2));
        assert(f2.n == (c * (t2 * 2)) * (t2 * 2) + b * (dd * 2));
        assert(f1.d == dd * 2 && f2.d == dd * 2);
        assert(((c * (t1 * 2)) * (t1 * 2) + b * (dd * 2)) * (dd * 2)
            <= ((c * (t2 * 2)) * (t2 * 2) + b * (dd * 2)) * (dd * 2))
            by (nonlinear_arith)
            requires
                dd == d * d,
                0 <= t1,
                t1 <= t2,
                0 < d,
                0 <= c;
        assert(rat_le(f1, f2));
    } else if d <= t1 * 2 {
        let p1: int = (t1 * 2 - d) * (t1 * 2 - d * 3);
        let p2: int = (t2 * 2 - d) * (t2 * 2 - d * 3);
        assert(f1.n == (-c) * (p1 - dd) + b * (dd * 2));
        assert(f2.n == (-c) * (p2 - dd) + b * (dd * 2));
        assert(f1.d == dd * 2 && f2.d == dd * 2);
        assert(((-c) * (p1 - dd) + b * (dd * 2)) * (dd * 2)
            <= ((-c) * (p2 - dd) + b * (dd * 2)) * (dd * 2)) by (nonlinear_arith)
            requires
                p1 == (t1 * 2 - d) * (t1 * 2 - d * 3),
                p2 == (t2 * 2 - d) * (t2 * 2 - d * 3),
                dd == d * d,
                d <= t1 * 2,
                t1 <= t2,
                t2 <= d,
                0 < d,
                0 <= c;
        assert(rat_le(f1, f2));
    } else {
        lemma_ease_in_out_seam(t1, t2, b, c, d);
    }
}

} // verus!
