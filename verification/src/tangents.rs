//! The tangents of a curve are limited: none exceeds about three chords of an interval at its side.

use vstd::prelude::*;
use crate::curve::Point;
use crate::curve::{FLAT, GREATEST, NINE};
use crate::double::Double;
use crate::double::{HALF, ONE, THREE, ZERO};

verus! {

// ---------------------------------------------------------------------------
// Signs
// ---------------------------------------------------------------------------

/// A sum of values without a sign has none, and is a number where they are.
pub proof fn lemma_clear_plus(a: Double, b: Double)
    requires
        !a.negative(),
        !b.negative(),
    ensures
        !a.plus(b).negative(),
        !a.is_nan() && !b.is_nan() ==> !a.plus(b).is_nan(),
        a.is_nan() || b.is_nan() ==> a.plus(b).is_nan(),
        !a.is_nan() && !b.is_nan() ==> a.at_most(a.plus(b)) && b.at_most(a.plus(b)),
{
    reveal(Double::spec_plus);
    if a.finite() && b.finite() {
        let n = a.amount() + b.amount();
        crate::double::lemma_round_ratio(crate::double::size_of(n), 1);
        crate::measure::lemma_not_below_zero(a);
        crate::measure::lemma_not_below_zero(b);
        crate::measure::lemma_plus_at_least(a, b, a);
        crate::measure::lemma_plus_at_least(a, b, b);
    }
}

/// A product of values without a sign has none; it is a number but for zero times infinity.
pub proof fn lemma_clear_times(a: Double, b: Double)
    requires
        !a.negative(),
        !b.negative(),
    ensures
        !a.times(b).negative(),
        a.is_nan() || b.is_nan() ==> a.times(b).is_nan(),
        !a.is_nan() && !b.is_nan() && !(a.zero() && b.infinite()) && !(a.infinite() && b.zero())
            ==> !a.times(b).is_nan(),
        a.infinite() && !b.zero() && !b.is_nan() ==> a.times(b).infinite(),
        a.zero() && b.infinite() ==> a.times(b).is_nan(),
        a.zero() && b.finite() ==> a.times(b).zero(),
{
    reveal(Double::spec_times);
    vstd::arithmetic::power2::lemma_pow2_pos(1074);
    if a.finite() && b.finite() {
        crate::double::lemma_round_ratio(
            crate::double::units(a.magnitude()) * crate::double::units(b.magnitude()),
            crate::double::one_in_units(),
        );
        if a.zero() {
            assert(0 * crate::double::units(b.magnitude()) == 0) by (nonlinear_arith);
            crate::double::lemma_round_ratio_at_most(0, crate::double::one_in_units(), 0);
        }
    }
}

/// A quotient of values without a sign has none; by a divisor other than zero and infinity it is a
/// number where the dividend is.
pub proof fn lemma_clear_over(a: Double, b: Double)
    requires
        !a.negative(),
        !b.negative(),
    ensures
        !a.over(b).negative(),
        a.is_nan() ==> a.over(b).is_nan(),
        !a.is_nan() && b.finite() && !b.zero() ==> !a.over(b).is_nan(),
        a.infinite() && b.finite() ==> a.over(b).infinite(),
        a.finite() && b.infinite() ==> a.over(b).zero(),
        a.infinite() && b.infinite() ==> a.over(b).is_nan(),
{
    reveal(Double::spec_over);
    if a.finite() && b.finite() && !b.zero() {
        crate::double::lemma_units_order(b.magnitude(), 0);
        crate::double::lemma_round_ratio(
            crate::double::units(a.magnitude()) * crate::double::one_in_units(),
            crate::double::units(b.magnitude()),
        );
    }
}

/// The squares of two numbers and their sum.
pub proof fn lemma_squares(a: Double, b: Double)
    requires
        !a.negative(),
        !b.negative(),
    ensures
        ({
            let s = a.times(a);
            let t = b.times(b);
            let dist = s.plus(t);
            &&& !dist.negative()
            &&& a.is_nan() || b.is_nan() ==> dist.is_nan()
            &&& !a.is_nan() && !b.is_nan() ==> !dist.is_nan() && s.at_most(dist) && t.at_most(dist)
            &&& a.infinite() ==> s.infinite()
            &&& b.infinite() ==> t.infinite()
            &&& a.zero() && b.zero() ==> dist.zero()
            &&& !s.negative()
            &&& !t.negative()
        }),
{
    lemma_clear_times(a, a);
    lemma_clear_times(b, b);
    lemma_clear_plus(a.times(a), b.times(b));
    if a.zero() && b.zero() {
        reveal(Double::spec_plus);
        let s = a.times(a);
        let t = b.times(b);
        assert(s.amount() == 0 && t.amount() == 0);
    }
}

// ---------------------------------------------------------------------------
// Chords
// ---------------------------------------------------------------------------

/// Two neighbours at different lights between zero and one, with levels in order.
pub open spec fn neighbours(p: Point, q: Point) -> bool {
    &&& crate::curve_laws::in_unit(p.x)
    &&& crate::curve_laws::in_unit(q.x)
    &&& p.x.less(q.x)
    &&& crate::lesson_laws::proper_level(p.y)
    &&& crate::lesson_laws::proper_level(q.y)
    &&& p.y.at_most(q.y)
}

/// The width of the interval between two neighbours.
pub open spec fn width(p: Point, q: Point) -> real {
    crate::measure::value(q.x.minus(p.x))
}

/// How far the level rises between two neighbours.
pub open spec fn step(p: Point, q: Point) -> real {
    crate::measure::value(q.y) - crate::measure::value(p.y)
}

pub proof fn lemma_width(p: Point, q: Point)
    requires
        neighbours(p, q),
    ensures
        ({
            let h = q.x.minus(p.x);
            &&& h.finite()
            &&& !h.negative()
            &&& !h.zero()
            &&& (0 as real) < width(p, q) <= 1 as real
            &&& Double::from_bits(ZERO).less(h)
        }),
        0 as real <= step(p, q) <= 1 as real,
{
    let zero = Double::from_bits(ZERO);
    let one = Double::from_bits(ONE);
    let h = q.x.minus(p.x);
    crate::measure::lemma_constants();
    crate::measure::lemma_value_order(zero, p.x);
    crate::measure::lemma_value_order(q.x, one);
    crate::measure::lemma_value_order(p.x, q.x);
    crate::measure::lemma_minus_at_most(q.x, p.x, one);
    crate::measure::lemma_minus_at_least(q.x, p.x, zero);
    crate::curve_laws::lemma_distance(q.x, p.x);
    crate::measure::lemma_value_order(h, one);
    crate::measure::lemma_value_order(zero, h);
    crate::lesson_laws::lemma_proper(p.y);
    crate::lesson_laws::lemma_proper(q.y);
    crate::measure::lemma_value_order(p.y, q.y);
}

/// The chord between two neighbours: where it is finite, over the width it is the rise; where it is
/// not, the interval is so narrow that every finite tangent is limited.
pub proof fn lemma_chord(p: Point, q: Point)
    requires
        neighbours(p, q),
    ensures
        ({
            let d = crate::curve::chord(p, q);
            let e = crate::measure::epsilon();
            &&& !d.is_nan()
            &&& !d.negative()
            &&& d.finite() ==> crate::measure::value(d) * width(p, q) <= step(p, q) + 4 as real * e
            &&& d.infinite() ==> crate::measure::value(Double::from_bits(GREATEST)) * width(p, q) <= step(p, q) + e
        }),
{
    let h = q.x.minus(p.x);
    let w = width(p, q);
    let r = q.y.minus(p.y);
    let d = crate::curve::chord(p, q);
    let e = crate::measure::epsilon();
    let zero = Double::from_bits(ZERO);
    lemma_width(p, q);
    lemma_step(p, q);
    lemma_clear_over(r, h);
    let x = crate::measure::value(r);
    if d.finite() {
        crate::measure::lemma_finite_quotient(r, h);
        lemma_chord_bound(crate::measure::value(d), x, w, e, crate::measure::smallest());
    } else {
        let g = Double::from_bits(GREATEST);
        if crate::measure::value(g) * w > x {
            crate::measure::lemma_over_at_most(r, h, g);
        }
    }
}

/// The difference of the levels of two neighbours.
pub proof fn lemma_step(p: Point, q: Point)
    requires
        neighbours(p, q),
    ensures
        ({
            let r = q.y.minus(p.y);
            let e = crate::measure::epsilon();
            &&& r.finite()
            &&& !r.negative()
            &&& 0 as real <= crate::measure::value(r) <= step(p, q) + e
            &&& crate::measure::value(r) <= 1 as real
            &&& (0 as real) < e <= 1 as real / 0x100_0000_0000 as real
            &&& 0 as real <= crate::measure::smallest() <= e
            &&& Double::from_bits(GREATEST).finite()
        }),
{
    let zero = Double::from_bits(ZERO);
    let one = Double::from_bits(ONE);
    let r = q.y.minus(p.y);
    let e = crate::measure::epsilon();
    crate::measure::lemma_constants();
    crate::measure::lemma_small();
    crate::lesson_laws::lemma_proper(p.y);
    crate::lesson_laws::lemma_proper(q.y);
    crate::measure::lemma_value_order(p.y, q.y);
    crate::measure::lemma_minus(q.y, p.y);
    crate::measure::lemma_part_of_error(e, step(p, q), 1 as real);
    crate::measure::lemma_minus_at_least(q.y, p.y, zero);
    crate::measure::lemma_minus_at_most(q.y, p.y, one);
    crate::measure::lemma_value_order(zero, r);
    crate::measure::lemma_value_order(r, one);
    reveal(Double::spec_plus);
    crate::measure::lemma_negated(p.y);
    let n = q.y.amount() + p.y.negated().amount();
    if n < 0 {
        crate::double::lemma_round_ratio(crate::double::size_of(n), 1);
        crate::double::lemma_round_ratio_at_least(crate::double::size_of(n), 1, 1);
    }
}

/// A rounded quotient over the width, in real numbers.
proof fn lemma_chord_bound(d: real, x: real, w: real, e: real, s: real)
    requires
        (0 as real) < w <= 1 as real,
        0 as real <= x <= 1 as real,
        (0 as real) < e,
        0 as real <= s <= e,
        crate::measure::abs(d - x / w) <= e * crate::measure::abs(x / w) + s,
    ensures
        d * w <= x + 2 as real * e,
{
    let q = x / w;
    crate::limits::lemma_quotient(x, w);
    assert(d <= q + e * q + s);
    crate::algebra::lemma_scaled_up(d, q + e * q + s, w);
    crate::algebra::lemma_swap(w, d);
    crate::algebra::lemma_swap(w, q + e * q + s);
    crate::algebra::lemma_sum(q + e * q, s, w);
    crate::algebra::lemma_sum(q, e * q, w);
    crate::algebra::lemma_regroup(e, q, w);
    crate::algebra::lemma_scaled_up(x, 1 as real, e);
    crate::algebra::lemma_scaled_up(w, 1 as real, s);
}

// ---------------------------------------------------------------------------
// One tangent of an interval
// ---------------------------------------------------------------------------

/// The bound on a tangent over the width of an interval.
pub open spec fn bounded(x: Double, p: Point, q: Point, k: real) -> bool {
    width(p, q) * crate::measure::value(x) <= 3 as real * step(p, q) + k * crate::measure::epsilon()
}

/// The errors of single operations.
pub proof fn lemma_errors()
    ensures
        crate::limits::tiny(crate::measure::epsilon()),
        0 as real <= crate::measure::smallest() <= crate::measure::epsilon(),
        crate::measure::huge() >= 1024 as real,
{
    crate::measure::lemma_small();
}

/// A tangent that is left as it is.
proof fn lemma_left(x: Double, d: Double, p: Point, q: Point)
    requires
        neighbours(p, q),
        d == crate::curve::chord(p, q),
        d.finite(),
        !d.zero(),
        x.finite(),
        !x.negative(),
        ({
            let a = x.over(d);
            let s = a.times(a);
            a.finite() && s.finite() && crate::measure::value(s) <= 9 as real
        }),
    ensures
        bounded(x, p, q, 60 as real),
{
    let e = crate::measure::epsilon();
    let small = crate::measure::smallest();
    let a = x.over(d);
    lemma_errors();
    lemma_width(p, q);
    lemma_chord(p, q);
    lemma_clear_over(x, d);
    crate::measure::lemma_not_below_zero(x);
    crate::measure::lemma_not_below_zero(d);
    crate::measure::lemma_not_below_zero(a);
    lemma_above_zero(d);
    crate::measure::lemma_finite_quotient(x, d);
    crate::measure::lemma_finite_product(a, a);
    let r = crate::measure::value(x) / crate::measure::value(d);
    crate::limits::lemma_quotient(crate::measure::value(x), crate::measure::value(d));
    crate::limits::lemma_alpha_limit(crate::measure::value(a), crate::measure::value(a.times(a)), e, small);
    crate::limits::lemma_ratio_limit(r, crate::measure::value(a), e, small);
    crate::limits::lemma_slope_limit(r, crate::measure::value(d), width(p, q), step(p, q), e);
}

/// A value other than zero without a sign is above zero.
proof fn lemma_above_zero(d: Double)
    requires
        d.finite(),
        !d.zero(),
        !d.negative(),
    ensures
        crate::measure::value(d) > 0 as real,
{
    crate::measure::lemma_constants();
    crate::measure::lemma_value_order(Double::from_bits(ZERO), d);
}

/// The root of the sum of squares and what three is divided by it.
pub proof fn lemma_tau(dist: Double)
    requires
        dist.finite(),
        crate::measure::value(dist) > 9 as real,
        !dist.negative(),
    ensures
        ({
            let root = dist.square_root();
            let r = crate::measure::value(root);
            let tau = Double::from_bits(THREE).over(root);
            let g = 3 as real / r;
            &&& r >= 1 as real
            &&& crate::measure::value(dist) <= r * r * (1 as real + 2 as real * crate::measure::epsilon())
            &&& g * r == 3 as real
            &&& 0 as real <= g <= 3 as real
            &&& tau.finite()
            &&& !tau.negative()
            &&& crate::measure::value(tau) >= 0 as real
            &&& crate::limits::rounds(
                crate::measure::value(tau),
                g,
                crate::measure::epsilon(),
                crate::measure::smallest(),
            )
        }),
{
    let root = dist.square_root();
    let r = crate::measure::value(root);
    let three = Double::from_bits(THREE);
    crate::measure::lemma_root(dist);
    crate::measure::lemma_constants();
    lemma_errors();
    let g = 3 as real / r;
    crate::limits::lemma_quotient(3 as real, r);
    assert(g <= 3 as real) by {
        crate::algebra::lemma_scaled_up(1 as real, r, g);
    }
    crate::measure::lemma_positive(root);
    crate::measure::lemma_over(three, root);
    lemma_clear_over(three, root);
    crate::measure::lemma_not_below_zero(three.over(root));
}

/// A tangent that is brought into the circle.
proof fn lemma_brought_in(x: Double, d: Double, dist: Double, p: Point, q: Point)
    requires
        neighbours(p, q),
        d == crate::curve::chord(p, q),
        d.finite(),
        !d.zero(),
        !x.negative(),
        dist.finite(),
        !dist.negative(),
        crate::measure::value(dist) > 9 as real,
        ({
            let a = x.over(d);
            let s = a.times(a);
            a.finite() && s.finite() && s.at_most(dist)
        }),
        Double::from_bits(THREE).over(dist.square_root()).times(x.over(d)).times(d).finite(),
    ensures
        bounded(Double::from_bits(THREE).over(dist.square_root()).times(x.over(d)).times(d), p, q, 60 as real),
{
    let e = crate::measure::epsilon();
    let small = crate::measure::smallest();
    let a = x.over(d);
    let s = a.times(a);
    let root = dist.square_root();
    let tau = Double::from_bits(THREE).over(root);
    let r = crate::measure::value(root);
    let g = 3 as real / r;
    let alpha = crate::measure::value(a);
    lemma_errors();
    lemma_width(p, q);
    lemma_chord(p, q);
    lemma_clear_over(x, d);
    crate::measure::lemma_not_below_zero(a);
    crate::measure::lemma_not_below_zero(d);
    lemma_tau(dist);
    crate::measure::lemma_finite_product(a, a);
    crate::measure::lemma_value_order(s, dist);
    crate::limits::lemma_alpha_root(
        alpha,
        crate::measure::value(s),
        crate::measure::value(dist),
        r,
        e,
        small,
    );
    crate::measure::lemma_smallest(a);
    crate::limits::lemma_tau_alpha(alpha, r, g, crate::measure::value(tau), e, small);
    crate::measure::lemma_times(tau, a);
    let t = tau.times(a);
    lemma_clear_times(tau, a);
    crate::measure::lemma_not_below_zero(t);
    crate::measure::lemma_finite_product(t, d);
    crate::limits::lemma_scaled_tangent(
        alpha,
        r,
        g,
        crate::measure::value(tau),
        crate::measure::value(t),
        crate::measure::value(t.times(d)),
        crate::measure::value(d),
        width(p, q),
        step(p, q),
        e,
        small,
    );
}

/// A tangent whose interval is so narrow that its chord is not finite.
proof fn lemma_narrow(x: Double, p: Point, q: Point)
    requires
        neighbours(p, q),
        crate::curve::chord(p, q).infinite(),
        x.finite(),
        !x.negative(),
    ensures
        bounded(x, p, q, 60 as real),
{
    let e = crate::measure::epsilon();
    lemma_errors();
    lemma_width(p, q);
    lemma_chord(p, q);
    lemma_under_greatest(x);
    let g = crate::measure::value(Double::from_bits(GREATEST));
    let w = width(p, q);
    crate::algebra::lemma_scaled_up(crate::measure::value(x), g, w);
    crate::algebra::lemma_swap(w, g);
}

proof fn lemma_under_greatest(x: Double)
    requires
        x.finite(),
    ensures
        crate::measure::value(x) <= crate::measure::value(Double::from_bits(GREATEST)),
{
    crate::measure::lemma_value_order(x, Double::from_bits(GREATEST));
}

/// A tangent of zero.
proof fn lemma_level_tangent(x: Double, p: Point, q: Point)
    requires
        neighbours(p, q),
        x.zero(),
    ensures
        bounded(x, p, q, 60 as real),
{
    lemma_errors();
    lemma_width(p, q);
    crate::measure::lemma_constants();
    crate::measure::lemma_value_order(x, Double::from_bits(ZERO));
    assert(width(p, q) * (0 as real) == 0 as real);
}

// ---------------------------------------------------------------------------
// The tangents of an interval
// ---------------------------------------------------------------------------

/// A chord that is not flat is not zero.
pub proof fn lemma_steep(d: Double)
    requires
        !d.negative(),
        !d.is_nan(),
        !d.absolute().less(Double::from_bits(FLAT)),
    ensures
        !d.zero(),
{
}

/// Where a chord is not finite, the two tangents are left as they are.
proof fn lemma_pair_narrow(a: Double, b: Double, d: Double)
    requires
        !a.negative(),
        !b.negative(),
        d.infinite(),
        !d.negative(),
    ensures
        crate::curve::limited_pair(a, b, d) == (a, b),
{
    let alpha = a.over(d);
    let beta = b.over(d);
    lemma_clear_over(a, d);
    lemma_clear_over(b, d);
    lemma_squares(alpha, beta);
    let dist = alpha.times(alpha).plus(beta.times(beta));
    assert(!Double::from_bits(NINE).less(dist));
}

/// What becomes of one of two tangents, `dist` being the sum of the squares of both in chords.
spec fn one_limited(x: Double, d: Double, dist: Double) -> Double {
    if Double::from_bits(NINE).less(dist) {
        Double::from_bits(THREE).over(dist.square_root()).times(x.over(d)).times(d)
    } else {
        x
    }
}

/// One of two tangents whose chord is finite and not flat.
proof fn lemma_one(x: Double, d: Double, dist: Double, p: Point, q: Point)
    requires
        neighbours(p, q),
        d == crate::curve::chord(p, q),
        d.finite(),
        !d.zero(),
        !d.negative(),
        !x.negative(),
        !dist.negative(),
        !dist.is_nan(),
        x.over(d).times(x.over(d)).at_most(dist),
        x.over(d).infinite() ==> x.over(d).times(x.over(d)).infinite(),
        one_limited(x, d, dist).finite(),
    ensures
        bounded(one_limited(x, d, dist), p, q, 60 as real),
{
    let nine = Double::from_bits(NINE);
    let a = x.over(d);
    let s = a.times(a);
    lemma_clear_over(x, d);
    lemma_clear_times(a, a);
    crate::measure::lemma_constants();
    if nine.less(dist) {
        if dist.finite() {
            crate::measure::lemma_value_order(nine, dist);
            lemma_brought_in(x, d, dist, p, q);
        } else {
            lemma_far_out(x, d, dist);
            lemma_level_tangent(one_limited(x, d, dist), p, q);
        }
    } else {
        assert(dist.at_most(nine));
        crate::measure::lemma_value_order(s, nine);
        lemma_left(x, d, p, q);
    }
}

/// Where the sum of squares is not finite, a tangent becomes zero or is not a number.
proof fn lemma_far_out(x: Double, d: Double, dist: Double)
    requires
        !x.negative(),
        d.finite(),
        !d.negative(),
        dist.infinite(),
        !dist.negative(),
        one_limited(x, d, dist).finite(),
    ensures
        one_limited(x, d, dist).zero(),
{
    reveal(Double::spec_square_root);
    let a = x.over(d);
    let tau = Double::from_bits(THREE).over(dist.square_root());
    lemma_clear_over(x, d);
    lemma_clear_over(Double::from_bits(THREE), dist.square_root());
    assert(dist.square_root() == dist);
    assert(tau.zero());
    lemma_clear_times(tau, a);
    lemma_clear_times(tau.times(a), d);
}

/// The two tangents of an interval: neither has a sign; where the first comes out finite it is limited,
/// and so is the second where it is finite too.
proof fn lemma_pair(a: Double, b: Double, p: Point, q: Point)
    requires
        neighbours(p, q),
        !a.negative(),
        !b.negative(),
        !b.is_nan(),
    ensures
        ({
            let (x, y) = crate::curve::limited_pair(a, b, crate::curve::chord(p, q));
            &&& x.finite() ==> bounded(x, p, q, 60 as real)
            &&& x.finite() && y.finite() ==> bounded(y, p, q, 60 as real)
        }),
{
    let d = crate::curve::chord(p, q);
    let (x, y) = crate::curve::limited_pair(a, b, d);
    lemma_chord(p, q);
    if d.absolute().less(Double::from_bits(FLAT)) {
        lemma_level_tangent(x, p, q);
        lemma_level_tangent(y, p, q);
    } else if d.infinite() {
        lemma_pair_narrow(a, b, d);
        if x.finite() {
            lemma_narrow(x, p, q);
        }
        if y.finite() {
            lemma_narrow(y, p, q);
        }
    } else {
        lemma_steep(d);
        let alpha = a.over(d);
        let beta = b.over(d);
        lemma_clear_over(a, d);
        lemma_clear_over(b, d);
        lemma_squares(alpha, beta);
        let dist = alpha.times(alpha).plus(beta.times(beta));
        assert(x == one_limited(a, d, dist));
        assert(y == one_limited(b, d, dist));
        if x.finite() {
            assert(!dist.is_nan());
            lemma_one(a, d, dist, p, q);
            if y.finite() {
                lemma_one(b, d, dist, p, q);
            }
        }
    }
}

/// The tangents of an interval have no sign, whatever its chord.
proof fn lemma_pair_clear(a: Double, b: Double, d: Double)
    requires
        !a.negative(),
        !b.negative(),
        !d.negative(),
    ensures
        !crate::curve::limited_pair(a, b, d).0.negative(),
        !crate::curve::limited_pair(a, b, d).1.negative(),
{
    let alpha = a.over(d);
    let beta = b.over(d);
    lemma_clear_over(a, d);
    lemma_clear_over(b, d);
    lemma_squares(alpha, beta);
    let dist = alpha.times(alpha).plus(beta.times(beta));
    if Double::from_bits(NINE).less(dist) {
        lemma_root_clear(dist);
        let root = dist.square_root();
        let tau = Double::from_bits(THREE).over(root);
        lemma_clear_over(Double::from_bits(THREE), root);
        lemma_clear_times(tau, alpha);
        lemma_clear_times(tau, beta);
        lemma_clear_times(tau.times(alpha), d);
        lemma_clear_times(tau.times(beta), d);
    }
}

proof fn lemma_root_clear(d: Double)
    requires
        !d.negative(),
    ensures
        !d.square_root().negative(),
{
    reveal(Double::spec_square_root);
    crate::double::lemma_round_root(crate::double::units(d.magnitude()) * crate::double::one_in_units());
}

// ---------------------------------------------------------------------------
// A tangent between two intervals
// ---------------------------------------------------------------------------

/// A tangent that was limited for the interval before it stays so when it is limited for the one after
/// it, whose chord is `d`.
proof fn lemma_second(b: Double, c: Double, d: Double, p: Point, q: Point)
    requires
        neighbours(p, q),
        !b.negative(),
        !c.negative(),
        !d.negative(),
        !d.is_nan(),
        b.finite() ==> bounded(b, p, q, 60 as real),
        crate::curve::limited_pair(b, c, d).0.finite(),
    ensures
        bounded(crate::curve::limited_pair(b, c, d).0, p, q, 160 as real),
{
    let x = crate::curve::limited_pair(b, c, d).0;
    lemma_errors();
    lemma_width(p, q);
    let e = crate::measure::epsilon();
    if d.absolute().less(Double::from_bits(FLAT)) {
        lemma_level_tangent(x, p, q);
    } else if d.infinite() {
        lemma_pair_narrow(b, c, d);
    } else {
        lemma_steep(d);
        let alpha = b.over(d);
        let beta = c.over(d);
        lemma_clear_over(b, d);
        lemma_clear_over(c, d);
        lemma_squares(alpha, beta);
        let dist = alpha.times(alpha).plus(beta.times(beta));
        assert(x == one_limited(b, d, dist));
        if Double::from_bits(NINE).less(dist) {
            if dist.finite() {
                assert(alpha.finite());
                lemma_again(b, d, dist, p, q);
            } else {
                lemma_far_out(b, d, dist);
                lemma_level_tangent(x, p, q);
            }
        }
    }
}

/// The last case: the tangent is brought into the circle of the interval after it.
proof fn lemma_again(b: Double, d: Double, dist: Double, p: Point, q: Point)
    requires
        neighbours(p, q),
        !b.negative(),
        d.finite(),
        !d.zero(),
        !d.negative(),
        b.over(d).finite(),
        b.finite() ==> bounded(b, p, q, 60 as real),
        dist.finite(),
        !dist.negative(),
        Double::from_bits(NINE).less(dist),
        b.over(d).times(b.over(d)).finite(),
        b.over(d).times(b.over(d)).at_most(dist),
        one_limited(b, d, dist).finite(),
    ensures
        bounded(one_limited(b, d, dist), p, q, 160 as real),
{
    let e = crate::measure::epsilon();
    let small = crate::measure::smallest();
    let a = b.over(d);
    let s = a.times(a);
    let root = dist.square_root();
    let tau = Double::from_bits(THREE).over(root);
    let r = crate::measure::value(root);
    let g = 3 as real / r;
    let beta = crate::measure::value(a);
    lemma_errors();
    lemma_width(p, q);
    lemma_clear_over(b, d);
    crate::measure::lemma_constants();
    crate::measure::lemma_value_order(Double::from_bits(NINE), dist);
    assert(b.finite());
    crate::measure::lemma_not_below_zero(a);
    crate::measure::lemma_not_below_zero(b);
    lemma_above_zero(d);
    lemma_tau(dist);
    crate::measure::lemma_finite_product(a, a);
    crate::measure::lemma_value_order(s, dist);
    crate::limits::lemma_alpha_root(beta, crate::measure::value(s), crate::measure::value(dist), r, e, small);
    crate::measure::lemma_smallest(a);
    crate::measure::lemma_smallest(d);
    crate::limits::lemma_tau_alpha(beta, r, g, crate::measure::value(tau), e, small);
    crate::measure::lemma_times(tau, a);
    let t = tau.times(a);
    lemma_clear_times(tau, a);
    crate::measure::lemma_not_below_zero(t);
    crate::measure::lemma_finite_product(t, d);
    crate::measure::lemma_finite_quotient(b, d);
    crate::limits::lemma_rescaled_tangent(
        crate::measure::value(b),
        beta,
        crate::measure::value(d),
        r,
        g,
        crate::measure::value(tau),
        crate::measure::value(t),
        crate::measure::value(t.times(d)),
        width(p, q),
        crate::measure::value(dist),
        e,
        small,
    );
}

// ---------------------------------------------------------------------------
// The tangents of a curve
// ---------------------------------------------------------------------------

/// Points between zero and one in the order of the light, with levels that are numbers in the range of
/// the curve and in order.
pub open spec fn tame(points: Seq<Point>) -> bool {
    &&& crate::curve::ascending(points)
    &&& forall|i: int| 0 <= i < points.len() ==> crate::curve_laws::in_unit((#[trigger] points[i]).x)
    &&& crate::lesson_laws::proper(crate::curve::levels(points))
    &&& crate::lesson_laws::rising(crate::curve::levels(points))
}

/// Two points of a curve that follow each other, at different lights, are neighbours.
pub proof fn lemma_neighbours(points: Seq<Point>, i: int)
    requires
        tame(points),
        0 <= i,
        i + 1 < points.len(),
        points[i].x.less(points[i + 1].x),
    ensures
        neighbours(points[i], points[i + 1]),
{
    let ys = crate::curve::levels(points);
    assert(crate::lesson_laws::proper_level(ys[i]));
    assert(crate::lesson_laws::proper_level(ys[i + 1]));
    assert(ys[i].at_most(ys[i + 1]));
}

/// A chord of a curve is a number without a sign.
pub proof fn lemma_chord_clear(points: Seq<Point>, i: int)
    requires
        tame(points),
        0 <= i,
        i + 1 < points.len(),
    ensures
        !crate::curve::chord(points[i], points[i + 1]).negative(),
        !crate::curve::chord(points[i], points[i + 1]).is_nan(),
{
    let p = points[i];
    let q = points[i + 1];
    if p.x.less(q.x) {
        lemma_neighbours(points, i);
        lemma_chord(p, q);
    } else {
        assert(points[i].x.at_most(points[i + 1].x));
        assert(crate::curve_laws::in_unit(p.x) && crate::curve_laws::in_unit(q.x));
        crate::measure::lemma_constants();
        crate::curve_laws::lemma_distance(q.x, p.x);
        assert(q.x.minus(p.x).zero());
    }
}

/// A tangent before it is limited is a number without a sign.
pub proof fn lemma_mean_slope(points: Seq<Point>, i: int)
    requires
        tame(points),
        0 <= i < points.len(),
        points.len() >= 2,
    ensures
        !crate::curve::mean_slope(points, i).negative(),
        !crate::curve::mean_slope(points, i).is_nan(),
{
    let n = points.len();
    if i == 0 {
        lemma_chord_clear(points, 0);
    } else if i == n - 1 {
        lemma_chord_clear(points, n - 2);
    } else {
        lemma_chord_clear(points, i - 1);
        lemma_chord_clear(points, i);
        let a = crate::curve::chord(points[i - 1], points[i]);
        let b = crate::curve::chord(points[i], points[i + 1]);
        lemma_clear_plus(a, b);
        lemma_clear_times(a.plus(b), Double::from_bits(HALF));
    }
}

/// The tangents while they are limited: none has a sign, and those further to the right are as they
/// were.
pub proof fn lemma_limited(points: Seq<Point>, k: nat)
    requires
        tame(points),
        k < points.len(),
        points.len() >= 2,
    ensures
        ({
            let s = crate::curve::limited(points, k);
            &&& s.len() == points.len()
            &&& forall|i: int| 0 <= i < s.len() ==> !(#[trigger] s[i]).negative()
            &&& forall|i: int| k < i < s.len() ==> #[trigger] s[i] == crate::curve::mean_slope(points, i)
        }),
    decreases k,
{
    let s = crate::curve::limited(points, k);
    if k == 0 {
        assert forall|i: int| 0 <= i < s.len() implies !(#[trigger] s[i]).negative() by {
            lemma_mean_slope(points, i);
        }
    } else {
        lemma_limited(points, (k - 1) as nat);
        let before = crate::curve::limited(points, (k - 1) as nat);
        lemma_chord_clear(points, k - 1);
        assert(!before[k - 1].negative() && !before[k as int].negative());
        lemma_pair_clear(
            before[k - 1],
            before[k as int],
            crate::curve::chord(points[k - 1], points[k as int]),
        );
        assert forall|i: int| 0 <= i < s.len() implies !(#[trigger] s[i]).negative() by {
            if i != k - 1 && i != k {
                assert(s[i] == before[i]);
            }
        }
        assert forall|i: int| k < i < s.len() implies #[trigger] s[i] == crate::curve::mean_slope(points, i) by {
            assert(s[i] == before[i]);
        }
    }
}

/// A tangent does not change once the intervals at both its sides are done.
pub proof fn lemma_limited_stays(points: Seq<Point>, j: nat, k: nat, i: int)
    requires
        tame(points),
        0 <= i < j <= k < points.len(),
        points.len() >= 2,
    ensures
        crate::curve::limited(points, k)[i] == crate::curve::limited(points, j)[i],
    decreases k,
{
    if j < k {
        lemma_limited_stays(points, j, (k - 1) as nat, i);
        lemma_limited(points, (k - 1) as nat);
    }
}

/// The tangents of a curve, where they are finite, are limited for both intervals at their sides.
pub proof fn lemma_tangents(points: Seq<Point>, k: int)
    requires
        tame(points),
        0 <= k,
        k + 1 < points.len(),
        points[k].x.less(points[k + 1].x),
        forall|i: int|
            0 <= i < points.len() ==> (#[trigger] crate::curve::tangents(points)[i]).finite(),
    ensures
        ({
            let s = crate::curve::tangents(points);
            &&& !s[k].negative()
            &&& !s[k + 1].negative()
            &&& bounded(s[k], points[k], points[k + 1], 160 as real)
            &&& bounded(s[k + 1], points[k], points[k + 1], 160 as real)
        }),
{
    let n = points.len();
    let s = crate::curve::tangents(points);
    let p = points[k];
    let q = points[k + 1];
    let m = (n - 1) as nat;
    let before = crate::curve::limited(points, k as nat);
    let after = crate::curve::limited(points, (k + 1) as nat);
    lemma_neighbours(points, k);
    lemma_limited(points, k as nat);
    lemma_limited(points, (k + 1) as nat);
    lemma_limited(points, m);
    lemma_mean_slope(points, k + 1);
    lemma_errors();
    lemma_width(p, q);
    assert(!before[k].negative());
    assert(before[k + 1] == crate::curve::mean_slope(points, k + 1));
    let (a, b) = crate::curve::limited_pair(before[k], before[k + 1], crate::curve::chord(p, q));
    lemma_pair(before[k], before[k + 1], p, q);
    assert(after[k] == a);
    assert(after[k + 1] == b);
    lemma_limited_stays(points, (k + 1) as nat, m, k);
    assert(s[k] == a);
    assert(s[k].finite());
    assert(s[k + 1].finite());
    lemma_wider(a, p, q);
    if k + 2 < n {
        let last = crate::curve::limited(points, (k + 2) as nat);
        lemma_limited(points, (k + 2) as nat);
        let d = crate::curve::chord(points[k + 1], points[k + 2]);
        lemma_chord_clear(points, k + 1);
        lemma_limited_stays(points, (k + 2) as nat, m, k + 1);
        assert(!after[k + 2].negative());
        let (x, y) = crate::curve::limited_pair(after[k + 1], after[k + 2], d);
        assert(last[k + 1] == x);
        assert(s[k + 1] == x);
        lemma_second(b, after[k + 2], d, p, q);
    } else {
        lemma_wider(b, p, q);
    }
}

proof fn lemma_wider(x: Double, p: Point, q: Point)
    requires
        x.finite() ==> bounded(x, p, q, 60 as real),
    ensures
        x.finite() ==> bounded(x, p, q, 160 as real),
{
    lemma_errors();
}

} // verus!
