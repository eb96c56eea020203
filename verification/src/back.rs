//! Overshoot ("back") easing: a cubic that swings past the target by a
//! tunable coefficient `s` before settling.

use vstd::prelude::*;
use crate::rational::{Rat, Frac, rat_int, rat_add, rat_sub, rat_mul, rat_div, rat_dbl,
    rat_half, rat_eq, rat_lt, in_range, lemma_mul_bound, lemma_mul_pos};

verus! {

/// The default overshoot coefficient, `1.70158`: the value that makes the
/// curve overshoot by one tenth of the total change.
pub open spec fn default_s_rat() -> Rat {
    Rat { n: 170158, d: 100000 }
}

/// The coefficient magnitudes the executable functions accept.
pub open spec fn s_in_range(s: Frac) -> bool {
    &&& s.wf()
    &&& -200_000 <= s.num <= 200_000
    &&& s.den <= 100_000
}

/// `c * u * u * ((s+1) * u - s) + b` where `u = t / d`.
pub open spec fn ease_in_s_rat(t: Rat, b: Rat, c: Rat, d: Rat, s: Rat) -> Rat {
    let u = rat_div(t, d);
    rat_add(rat_mul(rat_mul(rat_mul(c, u), u),
        rat_sub(rat_mul(rat_add(s, rat_int(1)), u), s)), b)
}

/// `c * (v * v * ((s+1) * v + s) + 1) + b` where `v = t / d - 1`.
pub open spec fn ease_out_s_rat(t: Rat, b: Rat, c: Rat, d: Rat, s: Rat) -> Rat {
    let v = rat_sub(rat_div(t, d), rat_int(1));
    rat_add(rat_mul(c, rat_add(rat_mul(rat_mul(v, v),
        rat_add(rat_mul(rat_add(s, rat_int(1)), v), s)), rat_int(1))), b)
}

/// Both halves use the coefficient rescaled by `1.525` (= 61/40).
/// First half: `c * (u * u * ((s'+1) * u - s')) / 2 + b` where
/// `u = t / (d/2)`; second half: `c * (v * v * ((s'+1) * v + s') + 2) / 2
/// + b` where `v = u - 2`, the midpoint itself falling into the second.
pub open spec fn ease_in_out_s_rat(t: Rat, b: Rat, c: Rat, d: Rat, s: Rat) -> Rat {
    let sp = rat_mul(s, Rat { n: 61, d: 40 });
    let u = rat_div(rat_dbl(t), d);
    if rat_lt(u, rat_int(1)) {
        rat_add(rat_half(rat_mul(c, rat_mul(rat_mul(u, u),
            rat_sub(rat_mul(rat_add(sp, rat_int(1)), u), sp)))), b)
    } else {
        let v = rat_sub(u, rat_int(2));
        rat_add(rat_half(rat_mul(c, rat_add(rat_mul(rat_mul(v, v),
            rat_add(rat_mul(rat_add(sp, rat_int(1)), v), sp)), rat_int(2)))), b)
    }
}

pub open spec fn ease_in_rat(t: Rat, b: Rat, c: Rat, d: Rat) -> Rat {
    ease_in_s_rat(t, b, c, d, default_s_rat())
}

pub open spec fn ease_out_rat(t: Rat, b: Rat, c: Rat, d: Rat) -> Rat {
    ease_out_s_rat(t, b, c, d, default_s_rat())
}

pub open spec fn ease_in_out_rat(t: Rat, b: Rat, c: Rat, d: Rat) -> Rat {
    ease_in_out_s_rat(t, b, c, d, default_s_rat())
}

/// The default-coefficient curves are the explicit-coefficient curves at
/// `s = 1.70158`, by construction.
pub proof fn lemma_default_is_explicit(t: Rat, b: Rat, c: Rat, d: Rat)
    ensures
        ease_in_rat(t, b, c, d) == ease_in_s_rat(t, b, c, d, default_s_rat()),
        ease_out_rat(t, b, c, d) == ease_out_s_rat(t, b, c, d, default_s_rat()),
        ease_in_out_rat(t, b, c, d) == ease_in_out_s_rat(t, b, c, d, default_s_rat()),
{
}

fn default_s() -> (s: Frac)
    ensures
        s@ == default_s_rat(),
        s_in_range(s),
{
    Frac { num: 170158, den: 100000 }
}

/// The back ease-in curve with an explicit overshoot coefficient.
#[verifier::rlimit(50)]
pub fn ease_in_s(t: i64, b: i64, c: i64, d: i64, s: Frac) -> (r: Frac)
    requires
        in_range(t as int),
        in_range(b as int),
        in_range(c as int),
        in_range(d as int),
        d != 0,
        s_in_range(s),
    ensures
        r.wf(),
        r@ == ease_in_s_rat(rat_int(t as int), rat_int(b as int), rat_int(c as int),
            rat_int(d as int), s@),
        t == 0 ==> rat_eq(r@, rat_int(b as int)),
        t == d ==> rat_eq(r@, rat_add(rat_int(b as int), rat_int(c as int))),
{
    let tn: i128 = if d < 0 { -(t as i128) } else { t as i128 };
    let dn: i128 = if d < 0 { -(d as i128) } else { d as i128 };
    let b1: i128 = b as i128;
    let c1: i128 = c as i128;
    let sn: i128 = s.num;
    let sd: i128 = s.den;
    let sp1: i128 = sn + sd;
    proof {
        lemma_mul_bound(sp1 as int, 300_000, tn as int, 100_000);
        lemma_mul_bound(sd as int, 100_000, dn as int, 100_000);
        lemma_mul_bound((sp1 as int) * (tn as int), 30_000_000_000, sd as int, 100_000);
        lemma_mul_bound(sn as int, 200_000, (sd as int) * (dn as int), 10_000_000_000);
        lemma_mul_bound(c1 as int, 100_000, tn as int, 100_000);
        lemma_mul_bound((c1 as int) * (tn as int), 10_000_000_000, tn as int, 100_000);
        lemma_mul_bound(((c1 as int) * (tn as int)) * (tn as int), 1_000_000_000_000_000,
            ((sp1 as int) * (tn as int)) * (sd as int)
                - (sn as int) * ((sd as int) * (dn as int)), 5_000_000_000_000_000);
        lemma_mul_bound(dn as int, 100_000, dn as int, 100_000);
        lemma_mul_bound(((sd as int) * (dn as int)), 10_000_000_000, sd as int, 100_000);
        lemma_mul_bound((dn as int) * (dn as int), 10_000_000_000,
            ((sd as int) * (dn as int)) * (sd as int), 1_000_000_000_000_000);
        lemma_mul_bound(b1 as int, 100_000,
            ((dn as int) * (dn as int)) * (((sd as int) * (dn as int)) * (sd as int)),
            10_000_000_000_000_000_000_000_000);
        lemma_mul_pos(dn as int, dn as int);
        lemma_mul_pos(sd as int, dn as int);
        lemma_mul_pos((sd as int) * (dn as int), sd as int);
        lemma_mul_pos((dn as int) * (dn as int),
            ((sd as int) * (dn as int)) * (sd as int));
    }
    let an: i128 = sp1 * tn;
    let ad: i128 = sd * dn;
    let bn: i128 = an * sd - sn * ad;
    let bd: i128 = ad * sd;
    let ct: i128 = c1 * tn;
    let ctt: i128 = ct * tn;
    let mn: i128 = ctt * bn;
    let dd: i128 = dn * dn;
    let md: i128 = dd * bd;
    let num: i128 = mn + b1 * md;
    proof {
        let ghost ni: int = num as int;
        let ghost di: int = md as int;
        let ghost ci: int = c1 as int;
        let ghost bi: int = b1 as int;
        let ghost ti: int = tn as int;
        let ghost dni: int = dn as int;
        let ghost sni: int = sn as int;
        let ghost sdi: int = sd as int;
        let ghost bni: int = bn as int;
        if t == 0 {
            assert(ni * 1 == bi * di) by (nonlinear_arith)
                requires
                    ni == ((ci * ti) * ti) * bni + bi * di,
                    ti == 0;
        }
        if t == d {
            assert(bni == (sdi * dni) * sdi) by (nonlinear_arith)
                requires
                    bni == ((sni + sdi) * ti) * sdi - sni * (sdi * dni),
                    ti == dni;
            assert(ni * (1 * 1) == ((bi * 1) + (ci * 1)) * di) by (nonlinear_arith)
                requires
                    ni == ((ci * ti) * ti) * bni + bi * di,
                    bni == (sdi * dni) * sdi,
                    di == (dni * dni) * ((sdi * dni) * sdi),
                    ti == dni;
        }
    }
    Frac { num, den: md }
}

/// The back ease-in curve with the default coefficient.
pub fn ease_in(t: i64, b: i64, c: i64, d: i64) -> (r: Frac)
    requires
        in_range(t as int),
        in_range(b as int),
        in_range(c as int),
        in_range(d as int),
        d != 0,
    ensures
        r.wf(),
        r@ == ease_in_rat(rat_int(t as int), rat_int(b as int), rat_int(c as int),
            rat_int(d as int)),
        t == 0 ==> rat_eq(r@, rat_int(b as int)),
        t == d ==> rat_eq(r@, rat_add(rat_int(b as int), rat_int(c as int))),
{
    ease_in_s(t, b, c, d, default_s())
}

/// The back ease-out curve with an explicit overshoot coefficient.
#[verifier::rlimit(50)]
pub fn ease_out_s(t: i64, b: i64, c: i64, d: i64, s: Frac) -> (r: Frac)
    requires
        in_range(t as int),
        in_range(b as int),
        in_range(c as int),
        in_range(d as int),
        d != 0,
        s_in_range(s),
    ensures
        r.wf(),
        r@ == ease_out_s_rat(rat_int(t as int), rat_int(b as int), rat_int(c as int),
            rat_int(d as int), s@),
        t == 0 ==> rat_eq(r@, rat_int(b as int)),
        t == d ==> rat_eq(r@, rat_add(rat_int(b as int), rat_int(c as int))),
{
    let tn: i128 = if d < 0 { -(t as i128) } else { t as i128 };
    let dn: i128 = if d < 0 { -(d as i128) } else { d as i128 };
    let b1: i128 = b as i128;
    let c1: i128 = c as i128;
    let sn: i128 = s.num;
    let sd: i128 = s.den;
    let sp1: i128 = sn + sd;
    let vn: i128 = tn - dn;
    proof {
        lemma_mul_bound(sp1 as int, 300_000, vn as int, 200_000);
        lemma_mul_bound(sd as int, 100_000, dn as int, 100_000);
        lemma_mul_bound((sp1 as int) * (vn as int), 60_000_000_000, sd as int, 100_000);
        lemma_mul_bound(sn as int, 200_000, (sd as int) * (dn as int), 10_000_000_000);
        lemma_mul_bound(vn as int, 200_000, vn as int, 200_000);
        lemma_mul_bound((vn as int) * (vn as int), 40_000_000_000,
            ((sp1 as int) * (vn as int)) * (sd as int)
                + (sn as int) * ((sd as int) * (dn as int)), 8_000_000_000_000_000);
        lemma_mul_bound(dn as int, 100_000, dn as int, 100_000);
        lemma_mul_bound((sd as int) * (dn as int), 10_000_000_000, sd as int, 100_000);
        lemma_mul_bound((dn as int) * (dn as int), 10_000_000_000,
            ((sd as int) * (dn as int)) * (sd as int), 1_000_000_000_000_000);
        lemma_mul_bound(c1 as int, 100_000,
            ((vn as int) * (vn as int)) * (((sp1 as int) * (vn as int)) * (sd as int)
                + (sn as int) * ((sd as int) * (dn as int)))
                + ((dn as int) * (dn as int)) * (((sd as int) * (dn as int)) * (sd as int)),
            330_000_000_000_000_000_000_000_000);
        lemma_mul_bound(b1 as int, 100_000,
            ((dn as int) * (dn as int)) * (((sd as int) * (dn as int)) * (sd as int)),
            10_000_000_000_000_000_000_000_000);
        lemma_mul_pos(dn as int, dn as int);
        lemma_mul_pos(sd as int, dn as int);
        lemma_mul_pos((sd as int) * (dn as int), sd as int);
        lemma_mul_pos((dn as int) * (dn as int),
            ((sd as int) * (dn as int)) * (sd as int));
    }
    let an: i128 = sp1 * vn;
    let ad: i128 = sd * dn;
    let bn: i128 = an * sd + sn * ad;
    let bd: i128 = ad * sd;
    let v2: i128 = vn * vn;
    let xn: i128 = v2 * bn;
    let dd: i128 = dn * dn;
    let xd: i128 = dd * bd;
    let sn2: i128 = xn + xd;
    let cs: i128 = c1 * sn2;
    let num: i128 = cs + b1 * xd;
    proof {
        let ghost ni: int = num as int;
        let ghost di: int = xd as int;
        let ghost ci: int = c1 as int;
        let ghost bi: int = b1 as int;
        let ghost vi: int = vn as int;
        let ghost dni: int = dn as int;
        let ghost sni: int = sn as int;
        let ghost sdi: int = sd as int;
        let ghost bni: int = bn as int;
        if t == 0 {
            assert(ni * 1 == bi * di) by (nonlinear_arith)
                requires
                    ni == ci * ((vi * vi) * bni + di) + bi * di,
                    bni == (((sni + sdi) * vi) * sdi) + sni * (sdi * dni),
                    di == (dni * dni) * ((sdi * dni) * sdi),
                    vi == 0 - dni;
        }
        if t == d {
            assert(ni * (1 * 1) == ((bi * 1) + (ci * 1)) * di) by (nonlinear_arith)
                requires
                    ni == ci * ((vi * vi) * bni + di) + bi * di,
                    vi == 0;
        }
    }
    Frac { num, den: xd }
}

/// The back ease-out curve with the default coefficient.
pub fn ease_out(t: i64, b: i64, c: i64, d: i64) -> (r: Frac)
    requires
        in_range(t as int),
        in_range(b as int),
        in_range(c as int),
        in_range(d as int),
        d != 0,
    ensures
        r.wf(),
        r@ == ease_out_rat(rat_int(t as int), rat_int(b as int), rat_int(c as int),
            rat_int(d as int)),
        t == 0 ==> rat_eq(r@, rat_int(b as int)),
        t == d ==> rat_eq(r@, rat_add(rat_int(b as int), rat_int(c as int))),
{
    ease_out_s(t, b, c, d, default_s())
}

/// The back ease-in-out curve with an explicit overshoot coefficient; the
/// midpoint `u == 1` takes the second-half formula.
#[verifier::rlimit(50)]
pub fn ease_in_out_s(t: i64, b: i64, c: i64, d: i64, s: Frac) -> (r: Frac)
    requires
        in_range(t as int),
        in_range(b as int),
        in_range(c as int),
        in_range(d as int),
        d != 0,
        s_in_range(s),
    ensures
        r.wf(),
        r@ == ease_in_out_s_rat(rat_int(t as int), rat_int(b as int), rat_int(c as int),
            rat_int(d as int), s@),
        t == 0 ==> rat_eq(r@, rat_int(b as int)),
        t == d ==> rat_eq(r@, rat_add(rat_int(b as int), rat_int(c as int))),
{
    let tn: i128 = if d < 0 { -(t as i128) } else { t as i128 };
    let dn: i128 = if d < 0 { -(d as i128) } else { d as i128 };
    let b1: i128 = b as i128;
    let c1: i128 = c as i128;
    let spn: i128 = s.num * 61;
    let spd: i128 = s.den * 40;
    let sp1: i128 = spn + spd;
    let un: i128 = tn * 2;
    proof {
        lemma_mul_bound(dn as int, 100_000, dn as int, 100_000);
        lemma_mul_pos(dn as int, dn as int);
        lemma_mul_pos(spd as int, dn as int);
        lemma_mul_pos((spd as int) * (dn as int), spd as int);
        lemma_mul_pos((dn as int) * (dn as int),
            ((spd as int) * (dn as int)) * (spd as int));
        lemma_mul_bound(spd as int, 4_000_000, dn as int, 100_000);
        lemma_mul_bound((spd as int) * (dn as int), 400_000_000_000, spd as int,
            4_000_000);
        lemma_mul_bound((dn as int) * (dn as int), 10_000_000_000,
            ((spd as int) * (dn as int)) * (spd as int), 1_600_000_000_000_000_000);
        lemma_mul_bound(b1 as int, 100_000,
            (((dn as int) * (dn as int)) * (((spd as int) * (dn as int)) * (spd as int)))
                * 2, 3_200_000_000_000_000_000_000_000_000_000);
    }
    let ad: i128 = spd * dn;
    let bd: i128 = ad * spd;
    let dd: i128 = dn * dn;
    let xd: i128 = dd * bd;
    let den: i128 = xd * 2;
    if un < dn {
        proof {
            lemma_mul_bound(sp1 as int, 16_200_000, un as int, 200_000);
            lemma_mul_bound((sp1 as int) * (un as int), 3_240_000_000_000, spd as int,
                4_000_000);
            lemma_mul_bound(spn as int, 12_200_000, (spd as int) * (dn as int),
                400_000_000_000);
            lemma_mul_bound(un as int, 200_000, un as int, 200_000);
            lemma_mul_bound((un as int) * (un as int), 40_000_000_000,
                ((sp1 as int) * (un as int)) * (spd as int)
                    - (spn as int) * ((spd as int) * (dn as int)),
                18_000_000_000_000_000_000);
            lemma_mul_bound(c1 as int, 100_000,
                ((un as int) * (un as int)) * (((sp1 as int) * (un as int)) * (spd as int)
                    - (spn as int) * ((spd as int) * (dn as int))),
                720_000_000_000_000_000_000_000_000_000);
        }
        let an: i128 = sp1 * un;
        let bn: i128 = an * spd - spn * ad;
        let u2: i128 = un * un;
        let xn: i128 = u2 * bn;
        let mn: i128 = c1 * xn;
        let num: i128 = mn + b1 * den;
        proof {
            if t == 0 {
                let ghost ni: int = num as int;
                let ghost di: int = den as int;
                let ghost ci: int = c1 as int;
                let ghost bi: int = b1 as int;
                let ghost ui: int = un as int;
                let ghost bni: int = bn as int;
                assert(ni * 1 == bi * di) by (nonlinear_arith)
                    requires
                        ni == ci * ((ui * ui) * bni) + bi * di,
                        ui == 0;
            }
        }
        let r = Frac { num, den };
        proof {
            assert(r@ == ease_in_out_s_rat(rat_int(t as int), rat_int(b as int),
                rat_int(c as int), rat_int(d as int), s@));
        }
        r
    } else {
        // v = u - 2 = (2t - 2d)/d.
        let vn: i128 = un - dn * 2;
        proof {
            lemma_mul_bound(sp1 as int, 16_200_000, vn as int, 400_000);
            lemma_mul_bound((sp1 as int) * (vn as int), 6_480_000_000_000, spd as int,
                4_000_000);
            lemma_mul_bound(spn as int, 12_200_000, (spd as int) * (dn as int),
                400_000_000_000);
            lemma_mul_bound(vn as int, 400_000, vn as int, 400_000);
            lemma_mul_bound((vn as int) * (vn as int), 160_000_000_000,
                ((sp1 as int) * (vn as int)) * (spd as int)
                    + (spn as int) * ((spd as int) * (dn as int)),
                31_000_000_000_000_000_000,
            );
            lemma_mul_bound(c1 as int, 100_000,
                ((vn as int) * (vn as int)) * (((sp1 as int) * (vn as int)) * (spd as int)
                    + (spn as int) * ((spd as int) * (dn as int)))
                    + ((((dn as int) * (dn as int)) * (((spd as int) * (dn as int))
                        * (spd as int))) * 2),
                5_000_000_000_000_000_000_000_000_000_000);
        }
        let an: i128 = sp1 * vn;
        let bn: i128 = an * spd + spn * ad;
        let v2: i128 = vn * vn;
        let xn: i128 = v2 * bn;
        let sn2: i128 = xn + xd * 2;
        let mn: i128 = c1 * sn2;
        let num: i128 = mn + b1 * den;
        proof {
            if t == d {
                let ghost ni: int = num as int;
                let ghost di: int = den as int;
                let ghost ci: int = c1 as int;
                let ghost bi: int = b1 as int;
                let ghost vi: int = vn as int;
                let ghost bni: int = bn as int;
                let ghost xdi: int = xd as int;
                assert(ni * (1 * 1) == ((bi * 1) + (ci * 1)) * di) by (nonlinear_arith)
                    requires
                        ni == ci * ((vi * vi) * bni + xdi * 2) + bi * di,
                        di == xdi * 2,
                        vi == 0;
            }
        }
        let r = Frac { num, den };
        proof {
            assert(r@ == ease_in_out_s_rat(rat_int(t as int), rat_int(b as int),
                rat_int(c as int), rat_int(d as int), s@));
        }
        r
    }
}

/// The back ease-in-out curve with the default coefficient.
pub fn ease_in_out(t: i64, b: i64, c: i64, d: i64) -> (r: Frac)
    requires
        in_range(t as int),
        in_range(b as int),
        in_range(c as int),
        in_range(d as int),
        d != 0,
    ensures
        r.wf(),
        r@ == ease_in_out_rat(rat_int(t as int), rat_int(b as int), rat_int(c as int),
            rat_int(d as int)),
        t == 0 ==> rat_eq(r@, rat_int(b as int)),
        t == d ==> rat_eq(r@, rat_add(rat_int(b as int), rat_int(c as int))),
{
    ease_in_out_s(t, b, c, d, default_s())
}

} // verus!
