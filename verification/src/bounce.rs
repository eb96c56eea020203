//! Bounce easing: four decaying parabolic segments; ease-in and
//! ease-in-out are defined from ease-out by time reversal and halving.

use vstd::prelude::*;
use crate::rational::{Rat, Frac, rat_int, rat_add, rat_sub, rat_mul, rat_div, rat_dbl,
    rat_half, rat_eq, rat_lt, in_range, lemma_mul_bound, lemma_mul_pos};

verus! {

/// The parabola coefficient `7.5625` (= 121/16) shared by every segment.
pub open spec fn bounce_k() -> Rat {
    Rat { n: 121, d: 16 }
}

/// The time magnitudes `ease_out` accepts: wide enough for the shifted
/// times the composed variants pass through.
pub open spec fn out_t_range(x: int) -> bool {
    -400_000 <= x <= 400_000
}

/// The time magnitudes `ease_in` accepts.
pub open spec fn in_t_range(x: int) -> bool {
    -300_000 <= x <= 300_000
}

/// The four-segment decaying bounce, on `u = t / d`: segment boundaries
/// at `u = 4/11, 8/11, 10/11`; each segment is `c * (121/16 * v * v +
/// offset) + b` with `v` the re-centered time and offsets `0, 3/4,
/// 15/16, 63/64`.
pub open spec fn ease_out_rat(t: Rat, b: Rat, c: Rat, d: Rat) -> Rat {
    let u = rat_div(t, d);
    if rat_lt(u, Rat { n: 4, d: 11 }) {
        rat_add(rat_mul(c, rat_mul(rat_mul(bounce_k(), u), u)), b)
    } else if rat_lt(u, Rat { n: 8, d: 11 }) {
        let v = rat_sub(u, Rat { n: 6, d: 11 });
        rat_add(rat_mul(c, rat_add(rat_mul(rat_mul(bounce_k(), v), v),
            Rat { n: 3, d: 4 })), b)
    } else if rat_lt(u, Rat { n: 10, d: 11 }) {
        let v = rat_sub(u, Rat { n: 9, d: 11 });
        rat_add(rat_mul(c, rat_add(rat_mul(rat_mul(bounce_k(), v), v),
            Rat { n: 15, d: 16 })), b)
    } else {
        let v = rat_sub(u, Rat { n: 21, d: 22 });
        rat_add(rat_mul(c, rat_add(rat_mul(rat_mul(bounce_k(), v), v),
            Rat { n: 63, d: 64 })), b)
    }
}

/// Time reversal of ease-out: `c - ease_out(d - t, 0, c, d) + b`.
pub open spec fn ease_in_rat(t: Rat, b: Rat, c: Rat, d: Rat) -> Rat {
    rat_add(rat_sub(c, ease_out_rat(rat_sub(d, t), rat_int(0), c, d)), b)
}

/// Halved composition: the first half is a squeezed ease-in, the second
/// a squeezed ease-out lifted by `c/2`; the midpoint `t == d/2` takes
/// the second branch.
pub open spec fn ease_in_out_rat(t: Rat, b: Rat, c: Rat, d: Rat) -> Rat {
    if rat_lt(t, rat_div(d, rat_int(2))) {
        rat_add(rat_half(ease_in_rat(rat_dbl(t), rat_int(0), c, d)), b)
    } else {
        rat_add(rat_add(rat_half(ease_out_rat(rat_sub(rat_dbl(t), d), rat_int(0), c, d)),
            rat_half(c)), b)
    }
}

/// The bounce ease-out curve, exactly.  The result's numerator and
/// denominator bounds let the composed variants stay within `i128`.
#[verifier::rlimit(50)]
pub fn ease_out(t: i64, b: i64, c: i64, d: i64) -> (r: Frac)
    requires
        out_t_range(t as int),
        in_range(b as int),
        in_range(c as int),
        in_range(d as int),
        d != 0,
    ensures
        r.wf(),
        r@ == ease_out_rat(rat_int(t as int), rat_int(b as int), rat_int(c as int),
            rat_int(d as int)),
        t == 0 ==> rat_eq(r@, rat_int(b as int)),
        t == d ==> rat_eq(r@, rat_add(rat_int(b as int), rat_int(c as int))),
        -2_000_000_000_000_000_000_000_000 <= r.num <= 2_000_000_000_000_000_000_000_000,
        0 < r.den <= 6_000_000_000_000_000,
{
    let tn: i128 = if d < 0 { -(t as i128) } else { t as i128 };
    let dn: i128 = if d < 0 { -(d as i128) } else { d as i128 };
    let b1: i128 = b as i128;
    let c1: i128 = c as i128;
    proof {
        lemma_mul_bound(dn as int, 100_000, dn as int, 100_000);
        lemma_mul_pos(dn as int, dn as int);
    }
    if tn * 11 < dn * 4 {
        let kun: i128 = tn * 121;
        let kud: i128 = dn * 16;
        proof {
            lemma_mul_bound(kun as int, 48_400_000, tn as int, 400_000);
            lemma_mul_bound(kud as int, 1_600_000, dn as int, 100_000);
            lemma_mul_bound(c1 as int, 100_000, (kun as int) * (tn as int),
                19_360_000_000_000);
            lemma_mul_bound(b1 as int, 100_000, (kud as int) * (dn as int),
                160_000_000_000);
            lemma_mul_pos(kud as int, dn as int);
        }
        let kuun: i128 = kun * tn;
        let kuud: i128 = kud * dn;
        let mn: i128 = c1 * kuun;
        let num: i128 = mn + b1 * kuud;
        proof {
            if t == 0 {
                let ghost ni: int = num as int;
                let ghost di: int = kuud as int;
                let ghost ci: int = c1 as int;
                let ghost bi: int = b1 as int;
                let ghost ti: int = tn as int;
                assert(ni * 1 == bi * di) by (nonlinear_arith)
                    requires
                        ni == ci * ((ti * 121) * ti) + bi * di,
                        ti == 0;
            }
        }
        let r = Frac { num, den: kuud };
        proof {
            assert(r@ == ease_out_rat(rat_int(t as int), rat_int(b as int),
                rat_int(c as int), rat_int(d as int)));
        }
        r
    } else if tn * 11 < dn * 8 {
        let vn: i128 = tn * 11 - dn * 6;
        let vd: i128 = dn * 11;
        let kvn: i128 = vn * 121;
        let kvd: i128 = vd * 16;
        proof {
            lemma_mul_bound(kvn as int, 605_000_000, vn as int, 5_000_000);
            lemma_mul_bound(kvd as int, 17_600_000, vd as int, 1_100_000);
            lemma_mul_bound((kvn as int) * (vn as int), 3_025_000_000_000_000, 4, 4);
            lemma_mul_bound((kvd as int) * (vd as int), 19_360_000_000_000, 4, 4);
            lemma_mul_bound(c1 as int, 100_000,
                ((kvn as int) * (vn as int)) * 4 + ((kvd as int) * (vd as int)) * 3,
                12_160_000_000_000_000);
            lemma_mul_bound(b1 as int, 100_000, ((kvd as int) * (vd as int)) * 4,
                77_440_000_000_000);
            lemma_mul_pos(kvd as int, vd as int);
        }
        let kvvn: i128 = kvn * vn;
        let kvvd: i128 = kvd * vd;
        let an: i128 = kvvn * 4 + kvvd * 3;
        let ad: i128 = kvvd * 4;
        let num: i128 = c1 * an + b1 * ad;
        let r = Frac { num, den: ad };
        proof {
            assert(r@ == ease_out_rat(rat_int(t as int), rat_int(b as int),
                rat_int(c as int), rat_int(d as int)));
        }
        r
    } else if tn * 11 < dn * 10 {
        let vn: i128 = tn * 11 - dn * 9;
        let vd: i128 = dn * 11;
        let kvn: i128 = vn * 121;
        let kvd: i128 = vd * 16;
        proof {
            lemma_mul_bound(kvn as int, 605_000_000, vn as int, 5_000_000);
            lemma_mul_bound(kvd as int, 17_600_000, vd as int, 1_100_000);
            lemma_mul_bound((kvn as int) * (vn as int), 3_025_000_000_000_000, 16, 16);
            lemma_mul_bound((kvd as int) * (vd as int), 19_360_000_000_000, 16, 16);
            lemma_mul_bound(c1 as int, 100_000,
                ((kvn as int) * (vn as int)) * 16 + ((kvd as int) * (vd as int)) * 15,
                48_690_400_000_000_000);
            lemma_mul_bound(b1 as int, 100_000, ((kvd as int) * (vd as int)) * 16,
                309_760_000_000_000);
            lemma_mul_pos(kvd as int, vd as int);
        }
        let kvvn: i128 = kvn * vn;
        let kvvd: i128 = kvd * vd;
        let an: i128 = kvvn * 16 + kvvd * 15;
        let ad: i128 = kvvd * 16;
        let num: i128 = c1 * an + b1 * ad;
        let r = Frac { num, den: ad };
        proof {
            assert(r@ == ease_out_rat(rat_int(t as int), rat_int(b as int),
                rat_int(c as int), rat_int(d as int)));
        }
        r
    } else {
        let vn: i128 = tn * 22 - dn * 21;
        let vd: i128 = dn * 22;
        let kvn: i128 = vn * 121;
        let kvd: i128 = vd * 16;
        proof {
            lemma_mul_bound(kvn as int, 1_210_000_000, vn as int, 11_000_000);
            lemma_mul_bound(kvd as int, 35_200_000, vd as int, 2_200_000);
            lemma_mul_bound((kvn as int) * (vn as int), 13_310_000_000_000_000, 64, 64);
            lemma_mul_bound((kvd as int) * (vd as int), 77_440_000_000_000, 64, 64);
            lemma_mul_bound(c1 as int, 100_000,
                ((kvn as int) * (vn as int)) * 64 + ((kvd as int) * (vd as int)) * 63,
                856_718_720_000_000_000);
            lemma_mul_bound(b1 as int, 100_000, ((kvd as int) * (vd as int)) * 64,
                4_956_160_000_000_000);
            lemma_mul_pos(kvd as int, vd as int);
        }
        let kvvn: i128 = kvn * vn;
        let kvvd: i128 = kvd * vd;
        let an: i128 = kvvn * 64 + kvvd * 63;
        let ad: i128 = kvvd * 64;
        let num: i128 = c1 * an + b1 * ad;
        proof {
            if t == d {
                let ghost ni: int = num as int;
                let ghost di: int = ad as int;
                let ghost ci: int = c1 as int;
                let ghost bi: int = b1 as int;
                let ghost ti: int = tn as int;
                let ghost dni: int = dn as int;
                let ghost vi: int = vn as int;
                assert(ni * (1 * 1) == ((bi * 1) + (ci * 1)) * di) by (nonlinear_arith)
                    requires
                        ni == ci * (((vi * 121) * vi) * 64
                            + ((((dni * 22) * 16) * (dni * 22))) * 63) + bi * di,
                        di == (((dni * 22) * 16) * (dni * 22)) * 64,
                        vi == ti * 22 - dni * 21,
                        ti == dni;
            }
        }
        let r = Frac { num, den: ad };
        proof {
            assert(r@ == ease_out_rat(rat_int(t as int), rat_int(b as int),
                rat_int(c as int), rat_int(d as int)));
        }
        r
    }
}

/// The bounce ease-in curve, exactly: `c - ease_out(d - t, 0, c, d) + b`.
pub fn ease_in(t: i64, b: i64, c: i64, d: i64) -> (r: Frac)
    requires
        in_t_range(t as int),
        in_range(b as int),
        in_range(c as int),
        in_range(d as int),
        d != 0,
    ensures
        r.wf(),
        r@ == ease_in_rat(rat_int(t as int), rat_int(b as int), rat_int(c as int),
            rat_int(d as int)),
        t == 0 ==> rat_eq(r@, rat_int(b as int)),
        t == d ==> rat_eq(r@, rat_add(rat_int(b as int), rat_int(c as int))),
        -3_000_000_000_000_000_000_000_000 <= r.num <= 3_000_000_000_000_000_000_000_000,
        0 < r.den <= 6_000_000_000_000_000,
{
    let x = ease_out(d - t, 0, c, d);
    proof {
        lemma_mul_bound(c as int, 100_000, x.den as int, 6_000_000_000_000_000);
        lemma_mul_bound(b as int, 100_000, x.den as int, 6_000_000_000_000_000);
    }
    let sn: i128 = (c as i128) * x.den - x.num;
    let num: i128 = sn + (b as i128) * x.den;
    proof {
        let ghost ni: int = num as int;
        let ghost ci: int = c as int;
        let ghost bi: int = b as int;
        let ghost xn: int = x.num as int;
        let ghost xd: int = x.den as int;
        if t == 0 {
            assert(ni * 1 == bi * xd) by (nonlinear_arith)
                requires
                    ni == (ci * xd - xn) + bi * xd,
                    xn * (1 * 1) == ((0 * 1) + (ci * 1)) * xd;
        }
        if t == d {
            assert(ni * (1 * 1) == ((bi * 1) + (ci * 1)) * xd) by (nonlinear_arith)
                requires
                    ni == (ci * xd - xn) + bi * xd,
                    xn * 1 == 0 * xd;
        }
    }
    Frac { num, den: x.den }
}

/// The bounce ease-in-out curve, exactly; the midpoint `t == d/2` takes
/// the lifted ease-out branch.
pub fn ease_in_out(t: i64, b: i64, c: i64, d: i64) -> (r: Frac)
    requires
        in_range(t as int),
        in_range(b as int),
        in_range(c as int),
        in_range(d as int),
        d != 0,
    ensures
        r.wf(),
        r@ == ease_in_out_rat(rat_int(t as int), rat_int(b as int), rat_int(c as int),
            rat_int(d as int)),
        t == 0 && d > 0 ==> rat_eq(r@, rat_int(b as int)),
        t == d && d > 0 ==> rat_eq(r@, rat_add(rat_int(b as int), rat_int(c as int))),
{
    let t2: i128 = (t as i128) * 2;
    if t2 < d as i128 {
        let x = ease_in(t * 2, 0, c, d);
        let xd2: i128 = x.den * 2;
        proof {
            lemma_mul_bound(b as int, 100_000, (x.den as int) * 2,
                12_000_000_000_000_000);
        }
        let num: i128 = x.num + (b as i128) * xd2;
        proof {
            let ghost ni: int = num as int;
            let ghost bi: int = b as int;
            let ghost xn: int = x.num as int;
            let ghost xd: int = x.den as int;
            if t == 0 && d > 0 {
                assert(ni * 1 == bi * (xd * 2)) by (nonlinear_arith)
                    requires
                        ni == xn + bi * (xd * 2),
                        xn * 1 == 0 * xd;
            }
        }
        Frac { num, den: xd2 }
    } else {
        let x = ease_out(t * 2 - d, 0, c, d);
        let xd2: i128 = x.den * 2;
        proof {
            lemma_mul_bound(c as int, 100_000, (x.den as int) * 2,
                12_000_000_000_000_000);
            lemma_mul_bound(b as int, 100_000, ((x.den as int) * 2) * 2,
                24_000_000_000_000_000);
        }
        let an: i128 = x.num * 2 + (c as i128) * xd2;
        let ad: i128 = xd2 * 2;
        let num: i128 = an + (b as i128) * ad;
        proof {
            let ghost ni: int = num as int;
            let ghost bi: int = b as int;
            let ghost ci: int = c as int;
            let ghost xn: int = x.num as int;
            let ghost xd: int = x.den as int;
            if t == d && d > 0 {
                assert(ni * (1 * 1) == ((bi * 1) + (ci * 1)) * ((xd * 2) * 2))
                    by (nonlinear_arith)
                    requires
                        ni == (xn * 2 + ci * (xd * 2)) + bi * ((xd * 2) * 2),
                        xn * (1 * 1) == ((0 * 1) + (ci * 1)) * xd;
            }
        }
        Frac { num, den: ad }
    }
}

/// Time-reversal duality: with no base offset, the ease-in curve is the
/// total change minus the ease-out curve run backwards.
pub proof fn lemma_bounce_duality(t: Rat, c: Rat, d: Rat)
    ensures
        rat_eq(ease_in_rat(t, rat_int(0), c, d),
            rat_sub(c, ease_out_rat(rat_sub(d, t), rat_int(0), c, d))),
{
    let s = rat_sub(c, ease_out_rat(rat_sub(d, t), rat_int(0), c, d));
    let f = ease_in_rat(t, rat_int(0), c, d);
    assert(f.n == s.n && f.d == s.d);
}

/// Continuity at the midpoint: the ease-in-out curve at `t = d/2` equals
/// `b + c/2` exactly.
pub proof fn lemma_bounce_midpoint(b: int, c: int, d: int)
    requires
        0 < d,
    ensures
        rat_eq(ease_in_out_rat(rat_div(rat_int(d), rat_int(2)), rat_int(b), rat_int(c),
            rat_int(d)), rat_add(rat_int(b), rat_half(rat_int(c)))),
{
    let mid = rat_add(rat_int(b), rat_half(rat_int(c)));
    assert(mid.n == b * 2 + c);
    assert(mid.d == 2);
    let tm = rat_div(rat_int(d), rat_int(2));
    assert(!rat_lt(tm, rat_div(rat_int(d), rat_int(2))));
    // The shifted time 2t - d is exactly zero at the midpoint.
    let am = rat_sub(rat_dbl(tm), rat_int(d));
    assert(am.n == 0 && am.d == 2);
    // ease_out at time zero falls in the first segment, whose value is 0.
    let um = rat_div(am, rat_int(d));
    assert(um.n == 0);
    assert(um.d == d * 2) by (nonlinear_arith)
        requires
            um.d == am.d * d,
            am.d == 2;
    assert(rat_lt(um, Rat { n: 4, d: 11 }));
    let ku = rat_mul(bounce_k(), um);
    let kuu = rat_mul(ku, um);
    let ghost kd: int = kuu.d;
    assert(kuu.n == 0) by (nonlinear_arith)
        requires
            kuu.n == ku.n * um.n,
            um.n == 0;
    let mm = rat_mul(rat_int(c), kuu);
    assert(mm.n == 0) by (nonlinear_arith)
        requires
            mm.n == c * kuu.n,
            kuu.n == 0;
    assert(mm.d == kd);
    let em = ease_out_rat(am, rat_int(0), rat_int(c), rat_int(d));
    assert(em.n == mm.n * 1 + 0 * mm.d);
    assert(em.d == mm.d * 1);
    assert(em.n == 0) by (nonlinear_arith)
        requires
            em.n == mm.n * 1 + 0 * mm.d,
            mm.n == 0;
    assert(em.d == kd) by (nonlinear_arith)
        requires
            em.d == mm.d * 1,
            mm.d == kd;
    // Halve, lift by c/2, and add b: the value is b + c/2.
    let fm = ease_in_out_rat(tm, rat_int(b), rat_int(c), rat_int(d));
    assert(fm.n == c * (kd * 2) + b * (kd * 4));
    assert(fm.d == kd * 4);
    assert((c * (kd * 2) + b * (kd * 4)) * 2 == (b * 2 + c) * (kd * 4))
        by (nonlinear_arith);
    assert(rat_eq(fm, mid));
}

} // verus!
