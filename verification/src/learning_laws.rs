//! Where points are placed, what teaches the curve, and in what proportion the levels give way.

use vstd::prelude::*;
use crate::curve::{ClightCurve, Point};
use crate::curve::{LOWEST_LEVEL, REACH, TINY};
use crate::double::Double;
use crate::double::{ONE, TWO, ZERO};

verus! {

// ---------------------------------------------------------------------------
// Points
// ---------------------------------------------------------------------------

/// A level held to the range of the curve is the nearest one there.
pub proof fn lemma_held_level(y: Double)
    requires
        y.finite(),
    ensures
        crate::lesson_laws::proper_level(crate::curve::held(y)),
        crate::measure::value(crate::curve::held(y)) == crate::lesson_laws::held_real(crate::measure::value(y)),
{
    let low = Double::from_bits(LOWEST_LEVEL);
    let one = Double::from_bits(ONE);
    crate::measure::lemma_constants();
    crate::lesson_laws::lemma_lowest();
    crate::measure::lemma_value_order(y, low);
    crate::measure::lemma_value_order(one, y);
    crate::measure::lemma_value_order(low, one);
}

/// A point of a new curve lies at the part of the range that its light is, and at its level, both held to
/// what the curve allows.
pub proof fn law_points_lie_where_they_belong(lux: Double, y: Double, range: Double)
    requires
        lux.finite(),
        y.finite(),
        range.finite(),
        Double::from_bits(ZERO).less(range),
    ensures
        ({
            let p = crate::curve::placed(lux, y, range);
            &&& crate::measure::abs(crate::measure::value(p.x) - crate::choice_laws::place_of(lux, range)) <= 2 as real
                * crate::measure::epsilon()
            &&& crate::measure::value(p.y) == crate::lesson_laws::held_real(crate::measure::value(y))
        }),
{
    crate::choice_laws::lemma_place(lux, range);
    lemma_held_level(y);
}

/// A curve reaches as far as it is told to; where that is no range, to 1000 lux.
pub proof fn law_range_is_the_one_given(max_lux: Double)
    requires
        max_lux.finite(),
    ensures
        crate::measure::value(max_lux) > 0 as real ==> crate::curve::safe_range(max_lux) == max_lux,
        crate::measure::value(max_lux) <= 0 as real ==> crate::measure::value(crate::curve::safe_range(max_lux))
            == 1000 as real,
{
    crate::measure::lemma_constants();
    crate::measure::lemma_value_order(Double::from_bits(ZERO), max_lux);
}

/// The points at the light `x`, in their order.
pub open spec fn at_light(points: Seq<Point>, x: Double) -> Seq<Point>
    decreases points.len(),
{
    if points.len() == 0 {
        points
    } else if points.last().x.same(x) {
        at_light(points.drop_last(), x).push(points.last())
    } else {
        at_light(points.drop_last(), x)
    }
}

proof fn lemma_at_light_push(points: Seq<Point>, p: Point, x: Double)
    ensures
        at_light(points.push(p), x) == (if p.x.same(x) {
            at_light(points, x).push(p)
        } else {
            at_light(points, x)
        }),
{
    assert(points.push(p).drop_last() =~= points);
}

proof fn lemma_inserted_at_light(points: Seq<Point>, p: Point, x: Double)
    ensures
        at_light(crate::curve::inserted(points, p), x) == (if p.x.same(x) {
            at_light(points, x).push(p)
        } else {
            at_light(points, x)
        }),
    decreases points.len(),
{
    if points.len() == 0 || !p.x.less(points.last().x) {
        lemma_at_light_push(points, p, x);
    } else {
        lemma_inserted_at_light(points.drop_last(), p, x);
        lemma_at_light_push(crate::curve::inserted(points.drop_last(), p), points.last(), x);
    }
}

/// Points at the same light stay in the order they were given in.
pub proof fn law_equal_lights_keep_their_order(points: Seq<Point>, x: Double)
    ensures
        at_light(crate::curve::sorted(points), x) == at_light(points, x),
    decreases points.len(),
{
    if points.len() > 0 {
        law_equal_lights_keep_their_order(points.drop_last(), x);
        lemma_inserted_at_light(crate::curve::sorted(points.drop_last()), points.last(), x);
    }
}

/// After levelling each point has the highest of the levels up to its own, and its light.
pub proof fn law_levelling_raises_to_the_highest(points: Seq<Point>, i: int)
    requires
        crate::lesson_laws::proper(crate::curve::levels(points)),
        0 <= i < points.len(),
    ensures
        crate::curve::levelled(points).len() == points.len(),
        crate::curve::levelled(points)[i].x == points[i].x,
        forall|j: int| 0 <= j <= i ==> (#[trigger] points[j]).y.at_most(crate::curve::levelled(points)[i].y),
        exists|j: int| 0 <= j <= i && (#[trigger] points[j]).y == crate::curve::levelled(points)[i].y,
    decreases points.len(),
{
    let shorter = points.drop_last();
    let n = points.len() - 1;
    let ys = crate::curve::levels(points);
    let zs = crate::curve::levels(shorter);
    let r = crate::curve::levelled(points);
    let before = crate::curve::levelled(shorter);
    crate::curve::lemma_levelled(points);
    crate::curve::lemma_levelled(shorter);
    assert forall|k: int| 0 <= k < zs.len() implies crate::lesson_laws::proper_level(#[trigger] zs[k]) by {
        assert(zs[k] == ys[k]);
    }
    assert(crate::lesson_laws::proper_level(ys[n]));
    if i < n {
        law_levelling_raises_to_the_highest(shorter, i);
        let k = choose|j: int| 0 <= j <= i && (#[trigger] shorter[j]).y == before[i].y;
        assert(points[k].y == r[i].y);
        assert forall|j: int| 0 <= j <= i implies (#[trigger] points[j]).y.at_most(r[i].y) by {
            assert(shorter[j] == points[j]);
        }
    } else if n > 0 {
        law_levelling_raises_to_the_highest(shorter, n - 1);
        let k = choose|j: int| 0 <= j <= n - 1 && (#[trigger] shorter[j]).y == before[n - 1].y;
        assert(before.last() == before[n - 1]);
        assert(points[k].y == before[n - 1].y);
        assert(crate::lesson_laws::proper_level(ys[k]));
        assert(points[n].y == points.last().y);
        assert forall|j: int| 0 <= j <= i implies (#[trigger] points[j]).y.at_most(r[i].y) by {
            assert(crate::lesson_laws::proper_level(ys[j]));
            if j < n {
                assert(shorter[j] == points[j]);
            }
        }
    } else {
        assert(points[0].y == r[0].y);
        assert(crate::lesson_laws::proper_level(ys[0]));
    }
}

/// At a light that several points share the level is that of the last of them, but for the light of the first
/// point of all.
pub proof fn law_curve_at_a_shared_light(points: Seq<Point>, slopes: Seq<Double>, i: int, x: Double)
    requires
        crate::curve::ascending(points),
        0 <= i < points.len(),
        points[i].x.same(x),
        points[0].x.less(x),
        i + 1 < points.len() ==> x.less(points[i + 1].x),
    ensures
        crate::curve::level(points, slopes, x) == points[i].y,
{
    let n = points.len();
    if i < n - 1 {
        assert(points[i + 1].x.at_most(points[n - 1].x));
        crate::curve::lemma_segment_is(points, x, i);
    }
}

// ---------------------------------------------------------------------------
// What teaches the curve
// ---------------------------------------------------------------------------

/// A brightness teaches the curve where it is off it by the shutter threshold or more, and the light is no more
/// than one and a half times the range, but for rounding; and else it does not.
pub proof fn law_deviations_teach(c: &ClightCurve, lux: Double, user_br: Double)
    requires
        c.points@.len() >= 2,
        lux.finite(),
        user_br.finite(),
        c.max_lux.finite(),
        Double::from_bits(ZERO).less(c.max_lux),
        c.shutter_threshold.finite(),
        crate::lesson_laws::proper_level(
            crate::curve::level(c.points@, c.slopes@, crate::curve::normalized(lux, c.max_lux)),
        ),
    ensures
        ({
            let level = crate::measure::value(
                crate::curve::level(c.points@, c.slopes@, crate::curve::normalized(lux, c.max_lux)),
            );
            let off = crate::measure::abs(crate::lesson_laws::held_real(crate::measure::value(user_br)) - level);
            let least = crate::measure::value(c.shutter_threshold);
            let l = crate::measure::value(lux);
            let m = crate::measure::value(c.max_lux);
            let e = crate::measure::epsilon();
            &&& off >= least + 2 as real * e && 2 as real * l <= 3 as real * m ==> c.learns_from(lux, user_br)
            &&& off <= least - 2 as real * e ==> !c.learns_from(lux, user_br)
            &&& l >= (3 as real / 2 as real + 4 as real * e) * m ==> !c.learns_from(lux, user_br)
        }),
{
    let e = crate::measure::epsilon();
    let zero = Double::from_bits(ZERO);
    let reach = Double::from_bits(REACH);
    let two = Double::from_bits(TWO);
    let h = crate::curve::held(user_br);
    let y = crate::curve::level(c.points@, c.slopes@, crate::curve::normalized(lux, c.max_lux));
    crate::measure::lemma_constants();
    crate::measure::lemma_small();
    lemma_held_level(user_br);
    crate::lesson_laws::lemma_proper(h);
    crate::lesson_laws::lemma_proper(y);
    crate::measure::lemma_minus(h, y);
    let x = crate::measure::value(h) - crate::measure::value(y);
    crate::measure::lemma_part_of_error(e, x, 1 as real);
    let d = h.minus(y);
    crate::measure::lemma_absolute(d);
    crate::measure::lemma_value_order(d.absolute(), c.shutter_threshold);
    // the light
    let l = crate::measure::value(lux);
    let m = crate::measure::value(c.max_lux);
    crate::measure::lemma_value_order(zero, c.max_lux);
    crate::measure::lemma_positive(c.max_lux);
    let q = lux.over(c.max_lux);
    assert(!c.max_lux.zero());
    if 2 as real * l <= 3 as real * m {
        crate::algebra::lemma_swap(3 as real / 2 as real, m);
        assert(l <= (3 as real / 2 as real) * m);
        crate::measure::lemma_over_at_most(lux, c.max_lux, reach);
    }
    let b = 3 as real / 2 as real + 4 as real * e;
    if l >= b * m {
        if l >= 2 as real * m {
            crate::measure::lemma_over_at_least(lux, c.max_lux, two);
            assert(reach.less(q));
        } else {
            let r = l / m;
            crate::algebra::lemma_nonnegative_product(b, m);
            crate::limits::lemma_quotient(l, m);
            assert(b <= r <= 2 as real) by (nonlinear_arith)
                requires
                    r * m == l,
                    b * m <= l,
                    l <= 2 as real * m,
                    m > 0 as real,
            ;
            crate::measure::lemma_over(lux, c.max_lux);
            crate::measure::lemma_part_of_error(e, r, 2 as real);
            crate::measure::lemma_value_order(reach, q);
        }
    }
}

/// What is not a number teaches nothing, and a curve of less than two points learns nothing.
pub proof fn law_what_is_no_number_teaches_nothing(c: &ClightCurve, lux: Double, user_br: Double)
    requires
        lux.is_nan() || user_br.is_nan() || c.points@.len() < 2,
    ensures
        !c.learns_from(lux, user_br),
{
}

// ---------------------------------------------------------------------------
// Proportions
// ---------------------------------------------------------------------------

/// A level that gives way downwards keeps its proportion to the next one, as far as the range allows.
proof fn lemma_pulled_in_proportion(y: Double, next: Double, was: Double, next_was: Double)
    requires
        crate::lesson_laws::proper_level(y),
        crate::lesson_laws::proper_level(next),
        crate::lesson_laws::proper_level(was),
        crate::lesson_laws::proper_level(next_was),
        was.at_most(next_was),
        next.less(y),
    ensures
        ({
            let x = crate::measure::value(next) * (crate::measure::value(was) / crate::measure::value(next_was));
            crate::measure::abs(
                crate::measure::value(crate::lesson::pulled(y, next, was, next_was)) - crate::lesson_laws::held_real(x),
            ) <= 8 as real * crate::measure::epsilon()
        }),
{
    let e = crate::measure::epsilon();
    let one = Double::from_bits(ONE);
    let zero = Double::from_bits(ZERO);
    let low = Double::from_bits(LOWEST_LEVEL);
    crate::measure::lemma_constants();
    crate::measure::lemma_small();
    crate::lesson_laws::lemma_lowest();
    crate::lesson_laws::lemma_proper(next);
    crate::lesson_laws::lemma_proper(was);
    crate::lesson_laws::lemma_proper(next_was);
    crate::measure::lemma_value_order(was, next_was);
    assert(Double::from_bits(TINY).less(low));
    let a = crate::measure::value(was);
    let b = crate::measure::value(next_was);
    let v = crate::measure::value(next);
    let q = a / b;
    crate::limits::lemma_quotient(a, b);
    assert(q <= 1 as real) by (nonlinear_arith)
        requires
            q * b == a,
            a <= b,
            b > 0 as real,
    ;
    crate::measure::lemma_over(was, next_was);
    crate::measure::lemma_part_of_error(e, q, 1 as real);
    let ratio = was.over(next_was);
    let r = crate::measure::value(ratio);
    crate::measure::lemma_value_order(ratio, one);
    crate::lesson_laws::lemma_factor_error(v, r, q, 2 as real * e);
    let x = v * q;
    crate::algebra::lemma_product_bound(v, q, 1 as real, 1 as real);
    crate::algebra::lemma_scaled_up(q, 1 as real, v);
    if ratio.less(one) {
        assert(0 as real * b == 0 as real);
        crate::measure::lemma_over_at_least(was, next_was, zero);
        crate::measure::lemma_value_order(zero, ratio);
        crate::algebra::lemma_product_bound(v, r, 1 as real, 1 as real);
        crate::measure::lemma_times(next, ratio);
        crate::measure::lemma_part_of_error(e, v * r, 1 as real);
        let p = next.times(ratio);
        crate::measure::lemma_value_order(p, low);
        crate::measure::lemma_value_order(next, p);
        crate::measure::lemma_value_order(low, next);
    } else {
        assert(v * (1 as real) == v);
        crate::lesson_laws::lemma_factor_error(v, 1 as real, q, 2 as real * e);
    }
}

/// A level that gives way upwards keeps its proportion of headroom to the one before.
proof fn lemma_lifted_in_proportion(y: Double, last: Double, was: Double, last_was: Double)
    requires
        crate::lesson_laws::proper_level(y),
        crate::lesson_laws::proper_level(last),
        crate::lesson_laws::proper_level(was),
        crate::lesson_laws::proper_level(last_was),
        last_was.at_most(was),
        y.less(last),
        1 as real - crate::measure::value(last_was) >= 1 as real / 400_000 as real,
    ensures
        ({
            let x = 1 as real - (1 as real - crate::measure::value(last)) * ((1 as real - crate::measure::value(was)) / (1 as real
                - crate::measure::value(last_was)));
            crate::measure::abs(crate::measure::value(crate::lesson::lifted(y, last, was, last_was)) - x) <= 32 as real
                * crate::measure::epsilon()
        }),
{
    let e = crate::measure::epsilon();
    let one = Double::from_bits(ONE);
    let zero = Double::from_bits(ZERO);
    let tiny = Double::from_bits(TINY);
    crate::measure::lemma_constants();
    crate::measure::lemma_small();
    crate::measure::lemma_millionth();
    crate::lesson_laws::lemma_lowest();
    crate::lesson_laws::lemma_proper(last);
    crate::lesson_laws::lemma_proper(was);
    crate::lesson_laws::lemma_proper(last_was);
    crate::measure::lemma_value_order(last_was, was);
    let aa = 1 as real - crate::measure::value(last);
    let bb = 1 as real - crate::measure::value(was);
    let cc = 1 as real - crate::measure::value(last_was);
    let room = one.minus(last);
    let less = one.minus(was);
    let headroom = one.minus(last_was);
    crate::lesson_laws::lemma_headroom(last);
    crate::lesson_laws::lemma_headroom(was);
    crate::lesson_laws::lemma_headroom(last_was);
    crate::measure::lemma_minus(one, last);
    crate::measure::lemma_minus(one, was);
    crate::measure::lemma_minus(one, last_was);
    crate::measure::lemma_value_order(zero, headroom);
    crate::measure::lemma_value_order(zero, less);
    crate::measure::lemma_value_order(zero, room);
    let a = crate::measure::value(room);
    let b = crate::measure::value(less);
    let c = crate::measure::value(headroom);
    assert(e * cc <= cc / 1024 as real) by (nonlinear_arith)
        requires
            cc > 0 as real,
            e <= 1 as real / 1024 as real,
    ;
    crate::measure::lemma_value_order(tiny, headroom);
    assert(tiny.less(headroom));
    crate::measure::lemma_positive(headroom);
    let q = bb / cc;
    crate::spline_laws::lemma_quotient_near(bb, cc, b, c, e);
    crate::limits::lemma_quotient(bb, cc);
    assert(q <= 1 as real) by (nonlinear_arith)
        requires
            q * cc == bb,
            bb <= cc,
            cc > 0 as real,
    ;
    let z = b / c;
    crate::algebra::lemma_scaled_up(q, 1 as real, 4 as real * e);
    assert(crate::measure::abs(z - q) <= 4 as real * e);
    crate::measure::lemma_over(less, headroom);
    crate::measure::lemma_part_of_error(e, z, 2 as real);
    let ratio = less.over(headroom);
    let r = crate::measure::value(ratio);
    assert(crate::measure::abs(r - q) <= 7 as real * e);
    crate::measure::lemma_value_order(ratio, one);
    crate::lesson_laws::lemma_factor_error(aa, r, q, 7 as real * e);
    let x = 1 as real - aa * q;
    crate::algebra::lemma_product_bound(aa, q, 1 as real, 1 as real);
    crate::algebra::lemma_scaled_up(q, 1 as real, aa);
    if ratio.less(one) {
        crate::algebra::lemma_nonnegative_product(c, 0 as real);
        assert(0 as real * c == 0 as real);
        crate::measure::lemma_over_at_least(less, headroom, zero);
        crate::measure::lemma_value_order(zero, ratio);
        crate::measure::lemma_part_of_error(e, aa, 1 as real);
        let f = a - aa;
        crate::algebra::lemma_scaled(f, r, e);
        crate::algebra::lemma_scaled_up(r, 1 as real, e);
        crate::algebra::lemma_distribute(a, aa, r);
        crate::algebra::lemma_product_bound(a, r, 2 as real, 1 as real);
        crate::measure::lemma_times(room, ratio);
        crate::measure::lemma_part_of_error(e, a * r, 2 as real);
        let p = room.times(ratio);
        let pv = crate::measure::value(p);
        assert(crate::measure::abs(pv - aa * q) <= 12 as real * e);
        crate::measure::lemma_minus(one, p);
        crate::measure::lemma_part_of_error(e, 1 as real - pv, 2 as real);
        let s = one.minus(p);
        crate::measure::lemma_value_order(s, last);
        crate::measure::lemma_value_order(one, s);
        crate::measure::lemma_value_order(last, one);
    } else {
        crate::lesson_laws::lemma_factor_error(aa, 1 as real, q, 7 as real * e);
        assert(aa * (1 as real) == aa);
    }
}

/// A lesson that lowers its point lowers the points before it in proportion: where the level of one is above the
/// new level of the next, it becomes the same part of that as it was before. Those after it that would be below
/// it are raised to it.
pub proof fn law_lowering_keeps_proportions(
    ys: Seq<Double>,
    pivot: nat,
    target: Double,
    delta: Double,
    logs: Seq<Double>,
    j: int,
)
    requires
        crate::lesson_laws::teachable(ys, pivot, target, delta, logs),
        crate::lesson_laws::rising(ys),
        crate::measure::value(delta) < 0 as real,
        0 <= j < ys.len(),
        j != pivot,
    ensures
        ({
            let r = crate::lesson::taught(ys, pivot, target, delta, logs);
            let weighted = crate::lesson::warp(ys[j], delta, crate::lesson_laws::reach_of(logs, j));
            &&& j < pivot && !r[j + 1].less(weighted) ==> r[j] == weighted
            &&& j < pivot && r[j + 1].less(weighted) ==> crate::measure::abs(
                crate::measure::value(r[j]) - crate::lesson_laws::held_real(
                    crate::measure::value(r[j + 1]) * (crate::measure::value(ys[j]) / crate::measure::value(ys[j + 1])),
                ),
            ) <= 8 as real * crate::measure::epsilon()
            &&& j > pivot && !weighted.less(r[j - 1]) ==> r[j] == weighted
            &&& j > pivot && weighted.less(r[j - 1]) ==> r[j] == r[j - 1]
        }),
{
    crate::lesson_laws::lemma_taught(ys, pivot, target, delta, logs);
    crate::lesson_laws::lemma_moved(ys, pivot, target, delta, logs);
    let r = crate::lesson::taught(ys, pivot, target, delta, logs);
    let m = crate::lesson_laws::moved(ys, pivot, target, delta, logs);
    assert(m[j] == crate::lesson::warp(ys[j], delta, crate::lesson_laws::reach_of(logs, j)));
    assert(crate::lesson_laws::proper_level(m[j]) && crate::lesson_laws::proper_level(ys[j]));
    assert(r[j] == r[j]);
    if j < pivot {
        assert(crate::lesson_laws::proper_level(r[j + 1]) && crate::lesson_laws::proper_level(ys[j + 1]));
        assert(ys[j].at_most(ys[j + 1]));
        if r[j + 1].less(m[j]) {
            lemma_pulled_in_proportion(m[j], r[j + 1], ys[j], ys[j + 1]);
        }
    }
}

/// A lesson that raises its point raises the points after it in proportion: where the level of one is below the
/// new level of the one before, its headroom becomes the same part of that one's as it was before. Those before it
/// that would be above it are lowered to it.
pub proof fn law_raising_keeps_proportions(
    ys: Seq<Double>,
    pivot: nat,
    target: Double,
    delta: Double,
    logs: Seq<Double>,
    j: int,
)
    requires
        crate::lesson_laws::teachable(ys, pivot, target, delta, logs),
        crate::lesson_laws::rising(ys),
        crate::measure::value(delta) >= 0 as real,
        0 <= j < ys.len(),
        j != pivot,
    ensures
        ({
            let r = crate::lesson::taught(ys, pivot, target, delta, logs);
            let weighted = crate::lesson::warp(ys[j], delta, crate::lesson_laws::reach_of(logs, j));
            &&& j > pivot && !weighted.less(r[j - 1]) ==> r[j] == weighted
            &&& j > pivot && weighted.less(r[j - 1]) && 1 as real - crate::measure::value(ys[j - 1]) >= 1 as real
                / 400_000 as real ==> crate::measure::abs(
                crate::measure::value(r[j]) - (1 as real - (1 as real - crate::measure::value(r[j - 1])) * ((1 as real
                    - crate::measure::value(ys[j])) / (1 as real - crate::measure::value(ys[j - 1])))),
            ) <= 32 as real * crate::measure::epsilon()
            &&& j < pivot && !r[j + 1].less(weighted) ==> r[j] == weighted
            &&& j < pivot && r[j + 1].less(weighted) ==> r[j] == r[j + 1]
        }),
{
    crate::lesson_laws::lemma_taught(ys, pivot, target, delta, logs);
    crate::lesson_laws::lemma_moved(ys, pivot, target, delta, logs);
    let r = crate::lesson::taught(ys, pivot, target, delta, logs);
    let m = crate::lesson_laws::moved(ys, pivot, target, delta, logs);
    assert(m[j] == crate::lesson::warp(ys[j], delta, crate::lesson_laws::reach_of(logs, j)));
    assert(crate::lesson_laws::proper_level(m[j]) && crate::lesson_laws::proper_level(ys[j]));
    assert(r[j] == r[j]);
    if j > pivot {
        assert(crate::lesson_laws::proper_level(r[j - 1]) && crate::lesson_laws::proper_level(ys[j - 1]));
        assert(ys[j - 1].at_most(ys[j]));
        if m[j].less(r[j - 1]) && 1 as real - crate::measure::value(ys[j - 1]) >= 1 as real / 400_000 as real {
            lemma_lifted_in_proportion(m[j], r[j - 1], ys[j], ys[j - 1]);
        }
    }
}

} // verus!
