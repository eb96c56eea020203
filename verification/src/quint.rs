//! Quintic easing: power curve of degree five.

use vstd::prelude::*;
use crate::rational::{Rat, Frac, rat_int, rat_add, rat_sub, rat_mul, rat_neg, rat_div, rat_dbl,
    rat_half, rat_eq, rat_le, rat_lt, in_range, lemma_mul_bound, lemma_mul_pos,
    lemma_rat_le_trans};

verus! {

/// `c * u^5 + b` where `u = t / d`.
pub open spec fn ease_in_rat(t: Rat, b: Rat, c: Rat, d: Rat) -> Rat {
    let u = rat_div(t, d);
    rat_add(rat_mul(rat_mul(rat_mul(rat_mul(rat_mul(c, u), u), u), u), u), b)
}

/// `c * (v^5 + 1) + b` where `v = t / d - 1`.
pub open spec fn ease_out_rat(t: Rat, b: Rat, c: Rat, d: Rat) -> Rat {
    let v = rat_sub(rat_div(t, d), rat_int(1));
    rat_add(rat_mul(c,
        rat_add(rat_mul(rat_mul(rat_mul(rat_mul(v, v), v), v), v), rat_int(1))), b)
}

/// First half: `c * u^5 / 2 + b` where `u = t / (d/2)`, taken when
/// `u < 1`.
pub open spec fn ease_in_out_lo_rat(t: Rat, b: Rat, c: Rat, d: Rat) -> Rat {
    let u = rat_div(rat_dbl(t), d);
    rat_add(rat_half(rat_mul(rat_mul(rat_mul(rat_mul(rat_mul(c, u), u), u), u), u)), b)
}

/// Second half: `c * (v^5 + 2) / 2 + b` where `v = u - 2`, taken when
/// `u >= 1` (the midpoint itself falls here).
pub open spec fn ease_in_out_hi_rat(t: Rat, b: Rat, c: Rat, d: Rat) -> Rat {
    let u = rat_div(rat_dbl(t), d);
    let v = rat_sub(u, rat_int(2));
    rat_add(rat_half(rat_mul(c,
        rat_add(rat_mul(rat_mul(rat_mul(rat_mul(v, v), v), v), v), rat_int(2)))), b)
}

pub open spec fn ease_in_out_rat(t: Rat, b: Rat, c: Rat, d: Rat) -> Rat {
    let u = rat_div(rat_dbl(t), d);
    if rat_lt(u, rat_int(1)) {
        ease_in_out_lo_rat(t, b, c, d)
    } else {
        ease_in_out_hi_rat(t, b, c, d)
    }
}

/// The quintic ease-in curve, exactly: `r = c * (t/d)^5 + b`.
pub fn ease_in(t: i64, b: i64, c: i64, d: i64) -> (r: Frac)
    requires
        in_range(t as int),
        in_range(b as int),
        in_range(c as int),
        in_range(d as int),
        d != 0,
    ensures
        r.wf(),
        r@ == ease_in_rat(rat_int(t as int), rat_int(b as int), rat_int(c as int),
            rat_int(d as int)),
        t == 0 ==> rat_eq(r@, rat_int(b as int)),
        t == d ==> rat_eq(r@, rat_add(rat_int(b as int), rat_int(c as int))),
{
    let tn: i128 = if d < 0 { -(t as i128) } else { t as i128 };
    let dn: i128 = if d < 0 { -(d as i128) } else { d as i128 };
    let b1: i128 = b as i128;
    let c1: i128 = c as i128;
    proof {
        lemma_mul_bound(c1 as int, 100_000, tn as int, 100_000);
        lemma_mul_bound((c1 as int) * (tn as int), 10_000_000_000, tn as int, 100_000);
        lemma_mul_bound(((c1 as int) * (tn as int)) * (tn as int), 1_000_000_000_000_000,
            tn as int, 100_000);
        lemma_mul_bound((((c1 as int) * (tn as int)) * (tn as int)) * (tn as int),
            100_000_000_000_000_000_000, tn as int, 100_000);
        lemma_mul_bound(((((c1 as int) * (tn as int)) * (tn as int)) * (tn as int))
            * (tn as int), 10_000_000_000_000_000_000_000_000, tn as int, 100_000);
        lemma_mul_bound(dn as int, 100_000, dn as int, 100_000);
        lemma_mul_bound((dn as int) * (dn as int), 10_000_000_000, dn as int, 100_000);
        lemma_mul_bound(((dn as int) * (dn as int)) * (dn as int), 1_000_000_000_000_000,
            dn as int, 100_000);
        lemma_mul_bound((((dn as int) * (dn as int)) * (dn as int)) * (dn as int),
            100_000_000_000_000_000_000, dn as int, 100_000);
        lemma_mul_bound(b1 as int, 100_000,
            ((((dn as int) * (dn as int)) * (dn as int)) * (dn as int)) * (dn as int),
            10_000_000_000_000_000_000_000_000);
        lemma_mul_pos(dn as int, dn as int);
        lemma_mul_pos((dn as int) * (dn as int), dn as int);
        lemma_mul_pos(((dn as int) * (dn as int)) * (dn as int), dn as int);
        lemma_mul_pos((((dn as int) * (dn as int)) * (dn as int)) * (dn as int), dn as int);
    }
    let ct: i128 = c1 * tn;
    let ct2: i128 = ct * tn;
    let ct3: i128 = ct2 * tn;
    let ct4: i128 = ct3 * tn;
    let ct5: i128 = ct4 * tn;
    let d2: i128 = dn * dn;
    let d3: i128 = d2 * dn;
    let d4: i128 = d3 * dn;
    let d5: i128 = d4 * dn;
    let num: i128 = ct5 + b1 * d5;
    proof {
        let ghost ni: int = num as int;
        let ghost di: int = d5 as int;
        let ghost ci: int = c1 as int;
        let ghost bi: int = b1 as int;
        let ghost ti: int = tn as int;
        let ghost dni: int = dn as int;
        if t == 0 {
            assert(ni * 1 == bi * di) by (nonlinear_arith)
                requires
                    ni == ((((ci * ti) * ti) * ti) * ti) * ti + bi * di,
                    ti == 0;
        }
        if t == d {
            assert(ni * (1 * 1) == ((bi * 1) + (ci * 1)) * di) by (nonlinear_arith)
                requires
                    ni == ((((ci * ti) * ti) * ti) * ti) * ti + bi * di,
                    di == (((dni * dni) * dni) * dni) * dni,
                    ti == dni;
        }
    }
    Frac { num, den: d5 }
}

/// The quintic ease-out curve, exactly: `r = c * ((t/d - 1)^5 + 1) + b`.
pub fn ease_out(t: i64, b: i64, c: i64, d: i64) -> (r: Frac)
    requires
        in_range(t as int),
        in_range(b as int),
        in_range(c as int),
        in_range(d as int),
        d != 0,
    ensures
        r.wf(),
        r@ == ease_out_rat(rat_int(t as int), rat_int(b as int), rat_int(c as int),
            rat_int(d as int)),
        t == 0 ==> rat_eq(r@, rat_int(b as int)),
        t == d ==> rat_eq(r@, rat_add(rat_int(b as int), rat_int(c as int))),
{
    let tn: i128 = if d < 0 { -(t as i128) } else { t as i128 };
    let dn: i128 = if d < 0 { -(d as i128) } else { d as i128 };
    let b1: i128 = b as i128;
    let c1: i128 = c as i128;
    let vn: i128 = tn - dn;
    proof {
        lemma_mul_bound(vn as int, 200_000, vn as int, 200_000);
        lemma_mul_bound((vn as int) * (vn as int), 40_000_000_000, vn as int, 200_000);
        lemma_mul_bound(((vn as int) * (vn as int)) * (vn as int), 8_000_000_000_000_000,
            vn as int, 200_000);
        lemma_mul_bound((((vn as int) * (vn as int)) * (vn as int)) * (vn as int),
            1_600_000_000_000_000_000_000, vn as int, 200_000);
        lemma_mul_bound(dn as int, 100_000, dn as int, 100_000);
        lemma_mul_bound((dn as int) * (dn as int), 10_000_000_000, dn as int, 100_000);
        lemma_mul_bound(((dn as int) * (dn as int)) * (dn as int), 1_000_000_000_000_000,
            dn as int, 100_000);
        lemma_mul_bound((((dn as int) * (dn as int)) * (dn as int)) * (dn as int),
            100_000_000_000_000_000_000, dn as int, 100_000);
        lemma_mul_bound(c1 as int, 100_000,
            ((((vn as int) * (vn as int)) * (vn as int)) * (vn as int)) * (vn as int)
                + ((((dn as int) * (dn as int)) * (dn as int)) * (dn as int)) * (dn as int),
            330_000_000_000_000_000_000_000_000);
        lemma_mul_bound(b1 as int, 100_000,
            ((((dn as int) * (dn as int)) * (dn as int)) * (dn as int)) * (dn as int),
            10_000_000_000_000_000_000_000_000);
        lemma_mul_pos(dn as int, dn as int);
        lemma_mul_pos((dn as int) * (dn as int), dn as int);
        lemma_mul_pos(((dn as int) * (dn as int)) * (dn as int), dn as int);
        lemma_mul_pos((((dn as int) * (dn as int)) * (dn as int)) * (dn as int), dn as int);
    }
    let v2: i128 = vn * vn;
    let v3: i128 = v2 * vn;
    let v4: i128 = v3 * vn;
    let v5: i128 = v4 * vn;
    let d2: i128 = dn * dn;
    let d3: i128 = d2 * dn;
    let d4: i128 = d3 * dn;
    let d5: i128 = d4 * dn;
    let sn: i128 = v5 + d5;
    let cs: i128 = c1 * sn;
    let num: i128 = cs + b1 * d5;
    proof {
        let ghost ni: int = num as int;
        let ghost di: int = d5 as int;
        let ghost ci: int = c1 as int;
        let ghost bi: int = b1 as int;
        let ghost vi: int = vn as int;
        let ghost dni: int = dn as int;
        if t == 0 {
            assert(ni * 1 == bi * di) by (nonlinear_arith)
                requires
                    ni == ci * ((((vi * vi) * vi) * vi) * vi + di) + bi * di,
                    di == (((dni * dni) * dni) * dni) * dni,
                    vi == 0 - dni;
        }
        if t == d {
            assert(ni * (1 * 1) == ((bi * 1) + (ci * 1)) * di) by (nonlinear_arith)
                requires
                    ni == ci * ((((vi * vi) * vi) * vi) * vi + di) + bi * di,
                    vi == 0;
        }
    }
    Frac { num, den: d5 }
}

/// The quintic ease-in-out curve, exactly; the midpoint `u == 1` takes
/// the second-half formula.
#[verifier::rlimit(50)]
pub fn ease_in_out(t: i64, b: i64, c: i64, d: i64) -> (r: Frac)
    requires
        in_range(t as int),
        in_range(b as int),
        in_range(c as int),
        in_range(d as int),
        d != 0,
    ensures
        r.wf(),
        r@ == ease_in_out_rat(rat_int(t as int), rat_int(b as int), rat_int(c as int),
            rat_int(d as int)),
        t == 0 ==> rat_eq(r@, rat_int(b as int)),
        t == d ==> rat_eq(r@, rat_add(rat_int(b as int), rat_int(c as int))),
{
    let tn: i128 = if d < 0 { -(t as i128) } else { t as i128 };
    let dn: i128 = if d < 0 { -(d as i128) } else { d as i128 };
    let b1: i128 = b as i128;
    let c1: i128 = c as i128;
    let un: i128 = tn * 2;
    proof {
        lemma_mul_bound(dn as int, 100_000, dn as int, 100_000);
        lemma_mul_bound((dn as int) * (dn as int), 10_000_000_000, dn as int, 100_000);
        lemma_mul_bound(((dn as int) * (dn as int)) * (dn as int), 1_000_000_000_000_000,
            dn as int, 100_000);
        lemma_mul_bound((((dn as int) * (dn as int)) * (dn as int)) * (dn as int),
            100_000_000_000_000_000_000, dn as int, 100_000);
        lemma_mul_pos(dn as int, dn as int);
        lemma_mul_pos((dn as int) * (dn as int), dn as int);
        lemma_mul_pos(((dn as int) * (dn as int)) * (dn as int), dn as int);
        lemma_mul_pos((((dn as int) * (dn as int)) * (dn as int)) * (dn as int), dn as int);
        lemma_mul_bound(b1 as int, 100_000,
            (((((dn as int) * (dn as int)) * (dn as int)) * (dn as int)) * (dn as int)) * 2,
            20_000_000_000_000_000_000_000_000);
    }
    let d2: i128 = dn * dn;
    let d3: i128 = d2 * dn;
    let d4: i128 = d3 * dn;
    let d5: i128 = d4 * dn;
    let den: i128 = d5 * 2;
    if un < dn {
        proof {
            lemma_mul_bound(c1 as int, 100_000, un as int, 200_000);
            lemma_mul_bound((c1 as int) * (un as int), 20_000_000_000, un as int, 200_000);
            lemma_mul_bound(((c1 as int) * (un as int)) * (un as int),
                4_000_000_000_000_000, un as int, 200_000);
            lemma_mul_bound((((c1 as int) * (un as int)) * (un as int)) * (un as int),
                800_000_000_000_000_000_000, un as int, 200_000);
            lemma_mul_bound(((((c1 as int) * (un as int)) * (un as int)) * (un as int))
                * (un as int), 160_000_000_000_000_000_000_000_000, un as int, 200_000);
        }
        let cu: i128 = c1 * un;
        let cu2: i128 = cu * un;
        let cu3: i128 = cu2 * un;
        let cu4: i128 = cu3 * un;
        let cu5: i128 = cu4 * un;
        let num: i128 = cu5 + b1 * den;
        proof {
            if t == 0 {
                let ghost ni: int = num as int;
                let ghost di: int = den as int;
                let ghost ci: int = c1 as int;
                let ghost bi: int = b1 as int;
                let ghost ui: int = un as int;
                assert(ni * 1 == bi * di) by (nonlinear_arith)
                    requires
                        ni == ((((ci * ui) * ui) * ui) * ui) * ui + bi * di,
                        ui == 0;
            }
        }
        let r = Frac { num, den };
        proof {
            assert(r@ == ease_in_out_rat(rat_int(t as int), rat_int(b as int),
                rat_int(c as int), rat_int(d as int)));
        }
        r
    } else {
        // v = u - 2 = (2t - 2d)/d.
        let vn: i128 = un - dn * 2;
        proof {
            lemma_mul_bound(vn as int, 400_000, vn as int, 400_000);
            lemma_mul_bound((vn as int) * (vn as int), 160_000_000_000, vn as int, 400_000);
            lemma_mul_bound(((vn as int) * (vn as int)) * (vn as int),
                64_000_000_000_000_000, vn as int, 400_000);
            lemma_mul_bound((((vn as int) * (vn as int)) * (vn as int)) * (vn as int),
                25_600_000_000_000_000_000_000, vn as int, 400_000);
            lemma_mul_bound(c1 as int, 100_000,
                ((((vn as int) * (vn as int)) * (vn as int)) * (vn as int)) * (vn as int)
                    + (((((dn as int) * (dn as int)) * (dn as int)) * (dn as int))
                        * (dn as int)) * 2,
                10_300_000_000_000_000_000_000_000_000);
        }
        let v2: i128 = vn * vn;
        let v3: i128 = v2 * vn;
        let v4: i128 = v3 * vn;
        let v5: i128 = v4 * vn;
        let sn: i128 = v5 + d5 * 2;
        let cs: i128 = c1 * sn;
        let num: i128 = cs + b1 * den;
        proof {
            let ghost ni: int = num as int;
            let ghost di: int = den as int;
            let ghost ci: int = c1 as int;
            let ghost bi: int = b1 as int;
            let ghost vi: int = vn as int;
            let ghost dni: int = dn as int;
            if t == d {
                assert(ni * (1 * 1) == ((bi * 1) + (ci * 1)) * di) by (nonlinear_arith)
                    requires
                        ni == ci * ((((vi * vi) * vi) * vi) * vi
                            + ((((dni * dni) * dni) * dni) * dni) * 2) + bi * di,
                        di == ((((dni * dni) * dni) * dni) * dni) * 2,
                        vi == 0;
            }
        }
        let r = Frac { num, den };
        proof {
            assert(r@ == ease_in_out_rat(rat_int(t as int), rat_int(b as int),
                rat_int(c as int), rat_int(d as int)));
        }
        r
    }
}

/// Continuity and growth at the midpoint seam: the curve's two halves
/// agree at `t = d/2` (where the value is `b + c/2`), and for nonnegative
/// `c` the curve does not decrease across the seam.
pub proof fn lemma_ease_in_out_seam(t1: int, t2: int, b: int, c: int, d: int)
    requires
        0 <= t1,
        t1 * 2 <= d,
        d <= t2 * 2,
        t2 <= d,
        0 < d,
        0 <= c,
    ensures
        rat_eq(ease_in_out_rat(rat_div(rat_int(d), rat_int(2)), rat_int(b), rat_int(c),
            rat_int(d)), rat_add(rat_int(b), rat_half(rat_int(c)))),
        rat_le(ease_in_out_rat(rat_int(t1), rat_int(b), rat_int(c), rat_int(d)),
            rat_add(rat_int(b), rat_half(rat_int(c)))),
        rat_le(rat_add(rat_int(b), rat_half(rat_int(c))),
            ease_in_out_rat(rat_int(t2), rat_int(b), rat_int(c), rat_int(d))),
        rat_le(ease_in_out_rat(rat_int(t1), rat_int(b), rat_int(c), rat_int(d)),
            ease_in_out_rat(rat_int(t2), rat_int(b), rat_int(c), rat_int(d))),
{
    let mid = rat_add(rat_int(b), rat_half(rat_int(c)));
    assert(mid.n == b * 2 + c);
    assert(mid.d == 2);
    let dd5: int = ((((d * d) * d) * d) * d);

    // The curve at the exact midpoint, from the second-half formula.
    let tm = rat_div(rat_int(d), rat_int(2));
    let um = rat_div(rat_dbl(tm), rat_int(d));
    assert(um.n == (d * 2) * 1);
    assert(um.d == tm.d * d);
    assert(um.d == d * 2) by (nonlinear_arith)
        requires
            um.d == tm.d * d,
            tm.d == 1 * 2;
    let vm = rat_sub(um, rat_int(2));
    assert(vm.n == 0 - d * 2 && vm.d == d * 2);
    let em: int = 0 - d * 2;
    let dm: int = d * 2;
    let qm: int = (((em * em) * em) * em) * em;
    let dm5: int = (((dm * dm) * dm) * dm) * dm;
    let xm = rat_mul(rat_mul(rat_mul(rat_mul(vm, vm), vm), vm), vm);
    assert(xm.n == qm && xm.d == dm5);
    let fm = ease_in_out_rat(tm, rat_int(b), rat_int(c), rat_int(d));
    assert(fm.n == c * (qm + dm5 * 2) + b * (dm5 * 2));
    assert(fm.d == dm5 * 2);
    assert((c * (qm + dm5 * 2) + b * (dm5 * 2)) * 2 == (b * 2 + c) * (dm5 * 2))
        by (nonlinear_arith)
        requires
            qm == (((em * em) * em) * em) * em,
            em == 0 - d * 2,
            dm5 == (((dm * dm) * dm) * dm) * dm,
            dm == d * 2;
    assert(rat_eq(fm, mid));

    // Value at t1, in the first half (or exactly at the seam).
    let f1 = ease_in_out_rat(rat_int(t1), rat_int(b), rat_int(c), rat_int(d));
    if t1 * 2 < d {
        assert(f1.n == ((((c * (t1 * 2)) * (t1 * 2)) * (t1 * 2)) * (t1 * 2)) * (t1 * 2)
            + b * (dd5 * 2));
        assert(f1.d == dd5 * 2);
        assert((((((c * (t1 * 2)) * (t1 * 2)) * (t1 * 2)) * (t1 * 2)) * (t1 * 2)
            + b * (dd5 * 2)) * 2 <= (b * 2 + c) * (dd5 * 2)) by (nonlinear_arith)
            requires
                dd5 == (((d * d) * d) * d) * d,
                0 <= t1,
                t1 * 2 <= d,
                0 < d,
                0 <= c;
        assert(rat_le(f1, mid));
    } else {
        let w1: int = t1 * 2 - d * 2;
        let q1: int = (((w1 * w1) * w1) * w1) * w1;
        assert(f1.n == c * (q1 + dd5 * 2) + b * (dd5 * 2));
        assert(f1.d == dd5 * 2);
        assert((c * (q1 + dd5 * 2) + b * (dd5 * 2)) * 2 <= (b * 2 + c) * (dd5 * 2))
            by (nonlinear_arith)
            requires
                q1 == (((w1 * w1) * w1) * w1) * w1,
                w1 == t1 * 2 - d * 2,
                t1 * 2 == d,
                dd5 == (((d * d) * d) * d) * d,
                0 < d,
                0 <= c;
        assert(rat_le(f1, mid));
    }
    assert(f1.d > 0) by (nonlinear_arith)
        requires
            f1.d == ((((d * d) * d) * d) * d) * 2,
            0 < d;

    // Value at t2, in the second half.
    let f2 = ease_in_out_rat(rat_int(t2), rat_int(b), rat_int(c), rat_int(d));
    let w2: int = t2 * 2 - d * 2;
    let q2: int = (((w2 * w2) * w2) * w2) * w2;
    assert(f2.n == c * (q2 + dd5 * 2) + b * (dd5 * 2));
    assert(f2.d == dd5 * 2);
    assert((b * 2 + c) * (dd5 * 2) <= (c * (q2 + dd5 * 2) + b * (dd5 * 2)) * 2)
        by (nonlinear_arith)
        requires
            q2 == (((w2 * w2) * w2) * w2) * w2,
            w2 == t2 * 2 - d * 2,
            d <= t2 * 2,
            t2 <= d,
            dd5 == (((d * d) * d) * d) * d,
            0 < d,
            0 <= c;
    assert(rat_le(mid, f2));
    assert(f2.d > 0) by (nonlinear_arith)
        requires
            f2.d == ((((d * d) * d) * d) * d) * 2,
            0 < d;
    lemma_rat_le_trans(f1, mid, f2);
}

/// For nonnegative `c` the two-sided curve is monotonically
/// non-decreasing on the whole interval `[0, d]`.
pub proof fn lemma_ease_in_out_monotone(t1: int, t2: int, b: int, c: int, d: int)
    requires
        0 <= t1,
        t1 <= t2,
        t2 <= d,
        0 < d,
        0 <= c,
    ensures
        rat_le(ease_in_out_rat(rat_int(t1), rat_int(b), rat_int(c), rat_int(d)),
            ease_in_out_rat(rat_int(t2), rat_int(b), rat_int(c), rat_int(d))),
{
    let f1 = ease_in_out_rat(rat_int(t1), rat_int(b), rat_int(c), rat_int(d));
    let f2 = ease_in_out_rat(rat_int(t2), rat_int(b), rat_int(c), rat_int(d));
    let ddn: int = (((d * d) * d) * d) * d;
    if t2 * 2 < d {
        assert(f1.n == ((((c * (t1 * 2)) * (t1 * 2)) * (t1 * 2)) * (t1 * 2)) * (t1 * 2) + b * (ddn * 2));
        assert(f2.n == ((((c * (t2 * 2)) * (t2 * 2)) * (t2 * 2)) * (t2 * 2)) * (t2 * 2) + b * (ddn * 2));
        assert(f1.d == ddn * 2 && f2.d == ddn * 2);
        assert((((((c * (t1 * 2)) * (t1 * 2)) * (t1 * 2)) * (t1 * 2)) * (t1 * 2) + b * (ddn * 2)) * (ddn * 2)
            <= (((((c * (t2 * 2)) * (t2 * 2)) * (t2 * 2)) * (t2 * 2)) * (t2 * 2) + b * (ddn * 2)) * (ddn * 2))
            by (nonlinear_arith)
            requires
                ddn == (((d * d) * d) * d) * d,
                0 <= t1,
                t1 <= t2,
                t2 * 2 < d,
                0 < d,
                0 <= c;
        assert(rat_le(f1, f2));
    } else if d <= t1 * 2 {
        let w1: int = t1 * 2 - d * 2;
        let w2: int = t2 * 2 - d * 2;
        let q1: int = (((w1 * w1) * w1) * w1) * w1;
        let q2: int = (((w2 * w2) * w2) * w2) * w2;
        assert(f1.n == c * (q1 + ddn * 2) + b * (ddn * 2));
        assert(f2.n == c * (q2 + ddn * 2) + b * (ddn * 2));
        assert(f1.d == ddn * 2 && f2.d == ddn * 2);
        assert(q1 <= q2) by (nonlinear_arith)
            requires
                q1 == (((w1 * w1) * w1) * w1) * w1,
                q2 == (((w2 * w2) * w2) * w2) * w2,
                w1 <= w2,
                w1 >= 0 - d,
                w2 <= 0,
                0 < d;
        assert((c * (q1 + ddn * 2) + b * (ddn * 2)) * (ddn * 2) <= (c * (q2 + ddn * 2) + b * (ddn * 2)) * (ddn * 2)) by (nonlinear_arith)
            requires
                q1 <= q2,
                ddn == (((d * d) * d) * d) * d,
                0 < d,
                0 <= c;
        assert(rat_le(f1, f2));
    } else {
        lemma_ease_in_out_seam(t1, t2, b, c, d);
    }
}

} // verus!
