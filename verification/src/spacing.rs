//! Points that are not too near each other have finite tangents.

use vstd::prelude::*;
use crate::curve::{ClightCurve, Point};
use crate::curve::{FLAT, NINE};
use crate::double::Double;
use crate::double::{HALF, THREE, ZERO};

verus! {

/// The points are at the same light or `2^-60` of the range apart, less than a millionth of a
/// millionth of a millionth, each from the next.
pub open spec fn spaced(points: Seq<Point>) -> bool {
    forall|i: int, j: int|
        #![trigger points[i], points[j]]
        0 <= i && i + 1 == j && j < points.len() && points[i].x.less(points[j].x) ==> 1 as real
            <= 0x1000_0000_0000_0000 as real * (crate::measure::value(points[j].x) - crate::measure::value(points[i].x))
}

/// A number from zero up to `2^k`.
pub open spec fn within(x: Double, k: nat) -> bool {
    &&& x.finite()
    &&& !x.negative()
    &&& 0 as real <= crate::measure::value(x) <= crate::measure::scale(k)
}

pub proof fn lemma_within(x: Double, m: nat, n: nat)
    requires
        within(x, m),
        m <= n,
    ensures
        within(x, n),
{
    crate::measure::lemma_scale(m, n);
}

/// A rounded result of a real number up to `2^k`.
proof fn lemma_rounded_within(r: real, x: real, k: nat)
    requires
        0 as real <= x <= crate::measure::scale(k),
        crate::measure::abs(r - x) <= crate::measure::epsilon() * crate::measure::abs(x) + crate::measure::smallest(),
    ensures
        r <= crate::measure::scale(k + 1),
{
    let e = crate::measure::epsilon();
    crate::measure::lemma_small();
    crate::measure::lemma_scale(k, k);
    crate::algebra::lemma_scaled_up(x, crate::measure::scale(k), e);
    crate::algebra::lemma_scaled_up(e, 1 as real / 4 as real, crate::measure::scale(k));
    crate::algebra::lemma_swap(e, crate::measure::scale(k));
    crate::algebra::lemma_swap(1 as real / 4 as real, crate::measure::scale(k));
}

pub proof fn lemma_times_within(a: Double, b: Double, m: nat, n: nat)
    requires
        within(a, m),
        within(b, n),
        m + n < 1000,
    ensures
        within(a.times(b), m + n + 1),
{
    let x = crate::measure::value(a);
    let y = crate::measure::value(b);
    crate::measure::lemma_scale(m, n);
    crate::measure::lemma_scale(m, m + n);
    crate::algebra::lemma_product_bound(x, y, crate::measure::scale(m), crate::measure::scale(n));
    crate::measure::lemma_times(a, b);
    crate::tangents::lemma_clear_times(a, b);
    lemma_rounded_within(crate::measure::value(a.times(b)), x * y, m + n);
}

pub proof fn lemma_plus_within(a: Double, b: Double, m: nat)
    requires
        within(a, m),
        within(b, m),
        m < 999,
    ensures
        within(a.plus(b), m + 2),
{
    let x = crate::measure::value(a) + crate::measure::value(b);
    crate::measure::lemma_scale(m, m);
    crate::measure::lemma_scale(m, m + 1);
    crate::measure::lemma_plus(a, b);
    crate::measure::lemma_small();
    crate::tangents::lemma_clear_plus(a, b);
    crate::measure::lemma_not_below_zero(a.plus(b));
    lemma_rounded_within(crate::measure::value(a.plus(b)), x, m + 1);
}

/// A quotient by a number from `2^-n` up.
pub proof fn lemma_over_within(a: Double, b: Double, m: nat, n: nat)
    requires
        within(a, m),
        b.finite(),
        !b.negative(),
        1 as real <= crate::measure::scale(n) * crate::measure::value(b),
        m + n < 1000,
    ensures
        within(a.over(b), m + n + 1),
{
    let x = crate::measure::value(a);
    let y = crate::measure::value(b);
    let s = crate::measure::scale(n);
    crate::measure::lemma_scale(m, n);
    crate::measure::lemma_scale(m, m + n);
    crate::measure::lemma_scale(n, n);
    crate::measure::lemma_not_below_zero(b);
    if y == 0 as real {
        assert(s * (0 as real) == 0 as real);
    }
    crate::measure::lemma_positive(b);
    let q = x / y;
    crate::limits::lemma_quotient(x, y);
    // q <= q * (s * y) == x * s
    crate::algebra::lemma_scaled_up(1 as real, s * y, q);
    crate::algebra::lemma_swap(s, y);
    crate::algebra::lemma_regroup(q, y, s);
    crate::algebra::lemma_product_bound(x, s, crate::measure::scale(m), s);
    crate::measure::lemma_over(a, b);
    crate::tangents::lemma_clear_over(a, b);
    lemma_rounded_within(crate::measure::value(a.over(b)), q, m + n);
}

/// The slope between two neighbours, and its bound.
pub proof fn lemma_chord_within(points: Seq<Point>, i: int)
    requires
        crate::tangents::tame(points),
        spaced(points),
        0 <= i,
        i + 1 < points.len(),
    ensures
        within(crate::curve::chord(points[i], points[i + 1]), 62),
{
    let p = points[i];
    let q = points[i + 1];
    let h = q.x.minus(p.x);
    let e = crate::measure::epsilon();
    crate::measure::lemma_constants();
    crate::measure::lemma_scale(61, 61);
    crate::tangents::lemma_chord_clear(points, i);
    if p.x.less(q.x) {
        crate::tangents::lemma_neighbours(points, i);
        crate::tangents::lemma_width(p, q);
        crate::tangents::lemma_step(p, q);
        let w = crate::measure::value(q.x) - crate::measure::value(p.x);
        crate::measure::lemma_value_order(Double::from_bits(ZERO), p.x);
        crate::measure::lemma_value_order(q.x, Double::from_bits(crate::double::ONE));
        crate::measure::lemma_value_order(p.x, q.x);
        crate::measure::lemma_small();
        crate::measure::lemma_minus(q.x, p.x);
        crate::algebra::lemma_scaled_up(e, 1 as real / 2 as real, w);
        crate::algebra::lemma_swap(w, e);
        crate::algebra::lemma_swap(w, 1 as real / 2 as real);
        crate::measure::lemma_scale_digits();
        assert(1 as real <= 0x2000_0000_0000_0000 as real * crate::measure::value(h));
        let r = q.y.minus(p.y);
        crate::measure::lemma_scale(0, 0);
        assert(within(r, 0));
        lemma_over_within(r, h, 0, 61);
    } else {
        assert(points[i].x.at_most(points[i + 1].x));
        assert(crate::curve_laws::in_unit(p.x) && crate::curve_laws::in_unit(q.x));
        crate::curve_laws::lemma_distance(q.x, p.x);
        assert(h.zero());
        crate::measure::lemma_scale(62, 62);
    }
}

/// A tangent before it is limited.
pub proof fn lemma_mean_within(points: Seq<Point>, i: int)
    requires
        crate::tangents::tame(points),
        spaced(points),
        0 <= i < points.len(),
        points.len() >= 2,
    ensures
        within(crate::curve::mean_slope(points, i), 65),
{
    let n = points.len();
    if i == 0 {
        lemma_chord_within(points, 0);
        lemma_within(crate::curve::mean_slope(points, i), 62, 65);
    } else if i == n - 1 {
        lemma_chord_within(points, n - 2);
        lemma_within(crate::curve::mean_slope(points, i), 62, 65);
    } else {
        lemma_chord_within(points, i - 1);
        lemma_chord_within(points, i);
        let a = crate::curve::chord(points[i - 1], points[i]);
        let b = crate::curve::chord(points[i], points[i + 1]);
        lemma_plus_within(a, b, 62);
        crate::measure::lemma_constants();
        crate::measure::lemma_scale(0, 0);
        lemma_times_within(a.plus(b), Double::from_bits(HALF), 64, 0);
    }
}

/// The factor by which tangents are brought in.
pub proof fn lemma_tau_within(dist: Double)
    requires
        dist.finite(),
        !dist.negative(),
        crate::measure::value(dist) > 9 as real,
    ensures
        within(Double::from_bits(THREE).over(dist.square_root()), 3),
{
    let e = crate::measure::epsilon();
    let g = 3 as real / crate::measure::value(dist.square_root());
    crate::tangents::lemma_tau(dist);
    crate::measure::lemma_small();
    crate::algebra::lemma_scaled_up(g, 3 as real, e);
    crate::measure::lemma_scale(1, 1);
    crate::measure::lemma_scale(2, 2);
}

/// The two tangents of an interval come out finite, the second one within a bound of its own.
pub proof fn lemma_pair_within(a: Double, b: Double, d: Double, m: nat, n: nat)
    requires
        within(a, m),
        within(b, n),
        within(d, 62),
        n <= m <= 300,
    ensures
        crate::curve::limited_pair(a, b, d).0.finite(),
        within(crate::curve::limited_pair(a, b, d).1, n + 100),
{
    let flat = Double::from_bits(FLAT);
    let nine = Double::from_bits(NINE);
    let alpha = a.over(d);
    let beta = b.over(d);
    let dist = alpha.times(alpha).plus(beta.times(beta));
    let (x, y) = crate::curve::limited_pair(a, b, d);
    crate::measure::lemma_constants();
    crate::measure::lemma_scale(n + 100, n + 100);
    if !d.absolute().less(flat) {
        crate::tangents::lemma_steep(d);
        crate::measure::lemma_flat();
        crate::measure::lemma_value_order(d, flat);
        crate::measure::lemma_scale(30, 30);
        crate::algebra::lemma_scaled_up(crate::measure::value(flat), crate::measure::value(d), crate::measure::scale(30));
        lemma_over_within(a, d, m, 30);
        lemma_over_within(b, d, n, 30);
        lemma_within(beta, n + 31, m + 31);
        lemma_times_within(alpha, alpha, m + 31, m + 31);
        lemma_times_within(beta, beta, m + 31, m + 31);
        lemma_plus_within(alpha.times(alpha), beta.times(beta), 2 * m + 63);
        if nine.less(dist) {
            crate::measure::lemma_value_order(nine, dist);
            crate::tangents::lemma_tau(dist);
            let tau = Double::from_bits(THREE).over(dist.square_root());
            lemma_tau_within(dist);
            lemma_times_within(tau, alpha, 3, m + 31);
            lemma_times_within(tau.times(alpha), d, m + 35, 62);
            lemma_times_within(tau, beta, 3, n + 31);
            lemma_times_within(tau.times(beta), d, n + 35, 62);
            lemma_within(y, n + 98, n + 100);
        } else {
            lemma_within(y, n, n + 100);
        }
    }
}

/// The tangents while they are limited, and the bound on the one between the intervals that are done
/// and those that are not.
pub proof fn lemma_limited_within(points: Seq<Point>, k: nat)
    requires
        crate::tangents::tame(points),
        spaced(points),
        points.len() >= 2,
        k < points.len(),
    ensures
        forall|i: int| 0 <= i < points.len() ==> (#[trigger] crate::curve::limited(points, k)[i]).finite(),
        within(crate::curve::limited(points, k)[k as int], 165),
    decreases k,
{
    let s = crate::curve::limited(points, k);
    if k == 0 {
        assert forall|i: int| 0 <= i < points.len() implies (#[trigger] s[i]).finite() by {
            lemma_mean_within(points, i);
        }
        lemma_mean_within(points, 0);
        lemma_within(s[0], 65, 165);
    } else {
        let before = crate::curve::limited(points, (k - 1) as nat);
        lemma_limited_within(points, (k - 1) as nat);
        crate::tangents::lemma_limited(points, (k - 1) as nat);
        lemma_mean_within(points, k as int);
        lemma_chord_within(points, k - 1);
        assert(before[k as int] == crate::curve::mean_slope(points, k as int));
        lemma_pair_within(
            before[k - 1],
            before[k as int],
            crate::curve::chord(points[k - 1], points[k as int]),
            165,
            65,
        );
        assert forall|i: int| 0 <= i < points.len() implies (#[trigger] s[i]).finite() by {
            if i != k - 1 && i != k {
                assert(s[i] == before[i]);
                assert(before[i].finite());
            }
        }
    }
}

/// Points that are not too near each other make a smooth curve.
pub proof fn law_spaced_points_are_smooth(points: Seq<Point>)
    requires
        points.len() >= 2,
        crate::tangents::tame(points),
        spaced(points),
    ensures
        crate::monotone::smooth(points),
{
    lemma_limited_within(points, (points.len() - 1) as nat);
}

/// The points of a new curve through levels that are numbers are tame.
pub proof fn law_new_curve_is_tame(c: &ClightCurve, lux: Seq<Double>, y: Seq<Double>, max_lux: Double)
    requires
        lux.len() == y.len(),
        forall|i: int| 0 <= i < y.len() ==> !(#[trigger] y[i]).is_nan(),
        crate::curve::all_on_axis(crate::curve::all_placed(lux, y, crate::curve::safe_range(max_lux))),
        c.points@ == crate::curve::levelled(
            crate::curve::sorted(crate::curve::all_placed(lux, y, crate::curve::safe_range(max_lux))),
        ),
        c.well_formed(),
    ensures
        crate::tangents::tame(c.points@),
{
    broadcast use vstd::seq_lib::group_to_multiset_ensures;

    let all = crate::curve::all_placed(lux, y, crate::curve::safe_range(max_lux));
    let s = crate::curve::sorted(all);
    crate::curve_laws::law_new_curve_is_sound(c, lux, y, max_lux);
    crate::curve_laws::law_sorting_keeps_the_points(all);
    crate::curve::lemma_levelled(s);
    crate::measure::lemma_constants();
    assert forall|i: int| 0 <= i < c.points@.len() implies crate::curve_laws::in_unit((#[trigger] c.points@[i]).x) by {
        assert(c.points@[i].x == s[i].x);
        assert(s.to_multiset().count(s[i]) > 0);
        assert(all.to_multiset().count(s[i]) > 0);
        assert(all.contains(s[i]));
        let k = choose|k: int| 0 <= k < all.len() && all[k] == s[i];
        assert(!all[k].x.is_nan());
    }
}

/// After a lesson the points are still tame and not too near each other, and the curve is smooth.
pub proof fn law_learning_keeps_the_curve_smooth(c: &ClightCurve, lux: Double, user_br: Double, logs: Seq<Double>)
    requires
        c.points@.len() >= 2,
        crate::tangents::tame(c.points@),
        spaced(c.points@),
        c.slopes@ == crate::curve::tangents(c.points@),
        c.well_formed(),
        c.max_lux.finite(),
        Double::from_bits(ZERO).less(c.max_lux),
        c.learns_from(lux, user_br),
        logs.len() == c.points@.len() + 1,
    ensures
        crate::tangents::tame(c.lesson(lux, user_br, logs)),
        spaced(c.lesson(lux, user_br, logs)),
        crate::monotone::smooth(c.lesson(lux, user_br, logs)),
{
    let points = c.points@;
    let after = c.lesson(lux, user_br, logs);
    let x = crate::curve::normalized(lux, c.max_lux);
    law_spaced_points_are_smooth(points);
    crate::curve_laws::law_light_is_held_to_the_range(lux, c.max_lux);
    crate::monotone::law_levels_are_proper(points, x);
    crate::curve_laws::law_learning_keeps_the_curve_sound(c, lux, user_br, logs);
    assert forall|i: int| 0 <= i < after.len() implies crate::curve_laws::in_unit((#[trigger] after[i]).x) by {
        assert(after[i].x == points[i].x);
        assert(crate::curve_laws::in_unit(points[i].x));
    }
    assert forall|i: int, j: int|
        #![trigger after[i], after[j]]
        0 <= i && i + 1 == j && j < after.len() && after[i].x.less(after[j].x) implies 1 as real
        <= 0x1000_0000_0000_0000 as real * (crate::measure::value(after[j].x) - crate::measure::value(after[i].x)) by {
        assert(after[i].x == points[i].x && after[j].x == points[j].x);
    }
    law_spaced_points_are_smooth(after);
}

} // verus!
