use easing::rational::Frac;
use easing::{back, bounce, cubic, quad, quart, quint};

/// The fraction `r` equals `num / den` as a rational number.
fn is_value(r: &Frac, num: i128, den: i128) -> bool {
    r.den > 0 && r.num * den == num * r.den
}

/// Two fractions denote the same rational number.
fn same_value(a: &Frac, b: &Frac) -> bool {
    a.num * b.den == b.num * a.den
}

#[test]
fn quad_ease_in_halfway() {
    let r = quad::ease_in(5, 0, 100, 10);
    assert!(is_value(&r, 25, 1));
}

#[test]
fn quad_ease_out_halfway() {
    let r = quad::ease_out(5, 0, 100, 10);
    assert!(is_value(&r, 75, 1));
}

#[test]
fn cubic_ease_in_halfway() {
    let r = cubic::ease_in(5, 0, 100, 10);
    assert!(is_value(&r, 25, 2));
}

#[test]
fn quart_ease_in_halfway() {
    let r = quart::ease_in(5, 0, 100, 10);
    assert!(is_value(&r, 25, 4));
}

#[test]
fn quint_ease_in_halfway() {
    let r = quint::ease_in(5, 0, 100, 10);
    assert!(is_value(&r, 25, 8));
}

#[test]
fn quad_boundaries() {
    assert!(is_value(&quad::ease_in(0, 7, 93, 13), 7, 1));
    assert!(is_value(&quad::ease_in(13, 7, 93, 13), 100, 1));
    assert!(is_value(&quad::ease_out(0, 7, 93, 13), 7, 1));
    assert!(is_value(&quad::ease_out(13, 7, 93, 13), 100, 1));
    assert!(is_value(&quad::ease_in_out(0, 7, 93, 13), 7, 1));
    assert!(is_value(&quad::ease_in_out(13, 7, 93, 13), 100, 1));
}

#[test]
fn cubic_boundaries() {
    assert!(is_value(&cubic::ease_in(0, 7, 93, 13), 7, 1));
    assert!(is_value(&cubic::ease_in(13, 7, 93, 13), 100, 1));
    assert!(is_value(&cubic::ease_out(0, 7, 93, 13), 7, 1));
    assert!(is_value(&cubic::ease_out(13, 7, 93, 13), 100, 1));
    assert!(is_value(&cubic::ease_in_out(0, 7, 93, 13), 7, 1));
    assert!(is_value(&cubic::ease_in_out(13, 7, 93, 13), 100, 1));
}

#[test]
fn quart_boundaries() {
    assert!(is_value(&quart::ease_in(0, 7, 93, 13), 7, 1));
    assert!(is_value(&quart::ease_in(13, 7, 93, 13), 100, 1));
    assert!(is_value(&quart::ease_out(0, 7, 93, 13), 7, 1));
    assert!(is_value(&quart::ease_out(13, 7, 93, 13), 100, 1));
    assert!(is_value(&quart::ease_in_out(0, 7, 93, 13), 7, 1));
    assert!(is_value(&quart::ease_in_out(13, 7, 93, 13), 100, 1));
}

#[test]
fn quint_boundaries() {
    assert!(is_value(&quint::ease_in(0, 7, 93, 13), 7, 1));
    assert!(is_value(&quint::ease_in(13, 7, 93, 13), 100, 1));
    assert!(is_value(&quint::ease_out(0, 7, 93, 13), 7, 1));
    assert!(is_value(&quint::ease_out(13, 7, 93, 13), 100, 1));
    assert!(is_value(&quint::ease_in_out(0, 7, 93, 13), 7, 1));
    assert!(is_value(&quint::ease_in_out(13, 7, 93, 13), 100, 1));
}

#[test]
fn back_boundaries() {
    assert!(is_value(&back::ease_in(0, 7, 93, 13), 7, 1));
    assert!(is_value(&back::ease_in(13, 7, 93, 13), 100, 1));
    assert!(is_value(&back::ease_out(0, 7, 93, 13), 7, 1));
    assert!(is_value(&back::ease_out(13, 7, 93, 13), 100, 1));
    assert!(is_value(&back::ease_in_out(0, 7, 93, 13), 7, 1));
    assert!(is_value(&back::ease_in_out(13, 7, 93, 13), 100, 1));
}

#[test]
fn bounce_boundaries() {
    assert!(is_value(&bounce::ease_in(0, 7, 93, 13), 7, 1));
    assert!(is_value(&bounce::ease_in(13, 7, 93, 13), 100, 1));
    assert!(is_value(&bounce::ease_out(0, 7, 93, 13), 7, 1));
    assert!(is_value(&bounce::ease_out(13, 7, 93, 13), 100, 1));
    assert!(is_value(&bounce::ease_in_out(0, 7, 93, 13), 7, 1));
    assert!(is_value(&bounce::ease_in_out(13, 7, 93, 13), 100, 1));
}

#[test]
fn bounce_ease_out_exact_at_end() {
    let r = bounce::ease_out(10, 0, 100, 10);
    assert!(is_value(&r, 100, 1));
}

#[test]
fn back_ease_in_exact_at_start() {
    let r = back::ease_in(0, 0, 100, 10);
    assert!(is_value(&r, 0, 1));
}

#[test]
fn bounce_second_segment_value() {
    // u = 1/2 lies in the second segment: 7.5625 * (1/2 - 6/11)^2 + 3/4
    // = 49/64, so the value is 100 * 49/64 = 1225/16.
    let r = bounce::ease_out(5, 0, 100, 10);
    assert!(is_value(&r, 1225, 16));
}

#[test]
fn bounce_time_reversal_duality() {
    for t in 0..=10 {
        let lhs = bounce::ease_in(t, 0, 100, 10);
        let out = bounce::ease_out(10 - t, 0, 100, 10);
        let rhs = Frac { num: 100 * out.den - out.num, den: out.den };
        assert!(same_value(&lhs, &rhs));
    }
}

#[test]
fn bounce_midpoint_is_half_change() {
    let r = bounce::ease_in_out(5, 3, 100, 10);
    assert!(is_value(&r, 53, 1));
}

#[test]
fn polynomial_midpoints_are_half_change() {
    assert!(is_value(&quad::ease_in_out(5, 0, 100, 10), 50, 1));
    assert!(is_value(&cubic::ease_in_out(5, 0, 100, 10), 50, 1));
    assert!(is_value(&quart::ease_in_out(5, 0, 100, 10), 50, 1));
    assert!(is_value(&quint::ease_in_out(5, 0, 100, 10), 50, 1));
}

#[test]
fn polynomial_in_out_monotone_across_seam() {
    let families = [
        quad::ease_in_out as fn(i64, i64, i64, i64) -> Frac,
        cubic::ease_in_out,
        quart::ease_in_out,
        quint::ease_in_out,
    ];
    for f in families {
        let lo = f(4, 0, 100, 10);
        let mid = f(5, 0, 100, 10);
        let hi = f(6, 0, 100, 10);
        assert!(lo.num * mid.den <= mid.num * lo.den);
        assert!(mid.num * hi.den <= hi.num * mid.den);
    }
}

#[test]
fn back_default_matches_explicit_coefficient() {
    let s = Frac { num: 170158, den: 100000 };
    assert!(same_value(&back::ease_in(3, 7, 93, 13), &back::ease_in_s(3, 7, 93, 13, s)));
    assert!(same_value(&back::ease_out(3, 7, 93, 13), &back::ease_out_s(3, 7, 93, 13, s)));
    assert!(same_value(
        &back::ease_in_out(3, 7, 93, 13),
        &back::ease_in_out_s(3, 7, 93, 13, s),
    ));
}

#[test]
fn back_zero_coefficient_is_pure_cubic() {
    let s = Frac { num: 0, den: 1 };
    let r = back::ease_in_s(5, 0, 100, 10, s);
    assert!(is_value(&r, 25, 2));
}

#[test]
fn back_overshoots_past_target() {
    // Shortly before the end the ease-out curve sits above b + c.
    let r = back::ease_out(9, 0, 100, 10);
    assert!(r.num > 100 * r.den);
}

#[test]
fn negative_duration_is_accepted() {
    // A negative duration simply runs the curve with u = t/d.
    let r = quad::ease_in(5, 0, 100, -10);
    assert!(is_value(&r, 25, 1));
}

#[test]
fn quad_ease_in_quarter_point() {
    // u = 1/4 gives c/16: 100/16 = 25/4.
    let r = quad::ease_in(1, 0, 100, 4);
    assert!(is_value(&r, 25, 4));
}

#[test]
fn results_keep_positive_denominators() {
    let samples = [
        quad::ease_out(3, -50, 100, 7),
        cubic::ease_in_out(6, 2, -80, 7),
        bounce::ease_in(2, 0, -100, 7),
        back::ease_in_out(4, -1, 9, 7),
    ];
    for r in samples {
        assert!(r.den > 0);
    }
}
