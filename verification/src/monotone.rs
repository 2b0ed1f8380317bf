//! The curve rises: more light never makes the level lower, but for the rounding of its computation.

use vstd::prelude::*;
use crate::curve::{ClightCurve, Point};
use crate::curve::LOWEST_LEVEL;
use crate::double::Double;
use crate::double::{ONE, ZERO};

verus! {

/// How far rounding may move a level: `2^-40`, less than a millionth of a millionth.
pub open spec fn tolerance() -> real {
    1 as real / 0x100_0000_0000 as real
}

/// Points whose tangents are finite. They are unless two points are so near each other, or to a third,
/// that the slope between them has no finite value.
pub open spec fn smooth(points: Seq<Point>) -> bool {
    &&& points.len() >= 2
    &&& crate::tangents::tame(points)
    &&& forall|i: int| 0 <= i < points.len() ==> (#[trigger] crate::curve::tangents(points)[i]).finite()
}

/// A finite level that is held to the range of the curve.
pub proof fn lemma_held(g: Double)
    requires
        g.finite(),
    ensures
        crate::lesson_laws::proper_level(crate::curve::held(g)),
        ({
            let low = crate::measure::value(Double::from_bits(LOWEST_LEVEL));
            let v = crate::measure::value(g);
            crate::measure::value(crate::curve::held(g)) == (if v < low {
                low
            } else if v > 1 as real {
                1 as real
            } else {
                v
            })
        }),
        crate::measure::value(Double::from_bits(LOWEST_LEVEL)) <= 1 as real,
{
    let low = Double::from_bits(LOWEST_LEVEL);
    let one = Double::from_bits(ONE);
    crate::measure::lemma_constants();
    crate::lesson_laws::lemma_proper(low);
    crate::measure::lemma_value_order(g, low);
    crate::measure::lemma_value_order(one, g);
}

/// The part of the way from `p` to `q`.
pub open spec fn part(p: Point, q: Point, x: Double) -> Double {
    x.minus(p.x).over(q.x.minus(p.x))
}

/// The part of the way lies between zero and one and grows with the light.
pub proof fn lemma_part(p: Point, q: Point, x: Double, z: Double)
    requires
        crate::tangents::neighbours(p, q),
        p.x.at_most(x),
        x.at_most(z),
        z.less(q.x),
    ensures
        part(p, q, x).finite(),
        part(p, q, z).finite(),
        0 as real <= crate::measure::value(part(p, q, x)) <= crate::measure::value(part(p, q, z)) <= 1 as real,
{
    let zero = Double::from_bits(ZERO);
    let one = Double::from_bits(ONE);
    let h = q.x.minus(p.x);
    crate::measure::lemma_constants();
    crate::tangents::lemma_width(p, q);
    let a = x.minus(p.x);
    let b = z.minus(p.x);
    crate::measure::lemma_value_order(p.x, x);
    crate::measure::lemma_minus_at_least(x, p.x, zero);
    crate::measure::lemma_minus_order(x, z, p.x);
    crate::measure::lemma_minus_order(z, q.x, p.x);
    assert(zero.at_most(a) && a.at_most(b) && b.at_most(h));
    crate::measure::lemma_value_order(zero, a);
    crate::measure::lemma_value_order(b, h);
    let w = crate::measure::value(h);
    assert(0 as real * w == 0 as real && 1 as real * w == w);
    crate::measure::lemma_over_at_least(a, h, zero);
    crate::measure::lemma_over_at_most(b, h, one);
    crate::measure::lemma_over_order(a, b, h);
    let s = part(p, q, x);
    let t = part(p, q, z);
    assert(zero.at_most(s) && s.at_most(t) && t.at_most(one));
    crate::measure::lemma_value_order(zero, s);
    crate::measure::lemma_value_order(s, t);
    crate::measure::lemma_value_order(t, one);
}

/// The cubic of an interval of a smooth curve.
pub proof fn lemma_cubic(points: Seq<Point>, k: int)
    requires
        smooth(points),
        0 <= k,
        k + 1 < points.len(),
        points[k].x.less(points[k + 1].x),
    ensures
        ({
            let s = crate::curve::tangents(points);
            crate::between::limited_cubic(
                points[k],
                points[k + 1],
                s[k],
                s[k + 1],
                160 as real * crate::measure::epsilon(),
            )
        }),
        crate::tangents::neighbours(points[k], points[k + 1]),
{
    let s = crate::curve::tangents(points);
    crate::tangents::lemma_neighbours(points, k);
    crate::tangents::lemma_width(points[k], points[k + 1]);
    crate::tangents::lemma_tangents(points, k);
    crate::lesson_laws::lemma_proper(points[k].y);
    crate::lesson_laws::lemma_proper(points[k + 1].y);
    assert(s[k].finite() && s[k + 1].finite());
    crate::measure::lemma_not_below_zero(s[k]);
    crate::measure::lemma_not_below_zero(s[k + 1]);
    crate::measure::lemma_small();
}

/// The computed cubic at two places of an interval.
proof fn lemma_computed(points: Seq<Point>, k: int, x: Double, z: Double)
    requires
        smooth(points),
        0 <= k,
        k + 1 < points.len(),
        points[k].x.at_most(x),
        x.at_most(z),
        z.less(points[k + 1].x),
    ensures
        ({
            let s = crate::curve::tangents(points);
            let p = points[k];
            let q = points[k + 1];
            let e = crate::measure::epsilon();
            let f = crate::curve::hermite(p, q, s[k], s[k + 1], x);
            let g = crate::curve::hermite(p, q, s[k], s[k + 1], z);
            &&& f.finite()
            &&& g.finite()
            &&& crate::measure::value(f) <= crate::measure::value(g) + 2400 as real * e
            &&& crate::measure::value(p.y) - 1400 as real * e <= crate::measure::value(f)
            &&& crate::measure::value(g) <= crate::measure::value(q.y) + 1400 as real * e
        }),
{
    let s = crate::curve::tangents(points);
    let p = points[k];
    let q = points[k + 1];
    let e = crate::measure::epsilon();
    let a = s[k];
    let b = s[k + 1];
    lemma_cubic(points, k);
    lemma_part(p, q, x, z);
    let t = crate::measure::value(part(p, q, x));
    let u = crate::measure::value(part(p, q, z));
    let c = 160 as real * e;
    crate::between::lemma_hermite(p, q, a, b, x, c);
    crate::between::lemma_hermite(p, q, a, b, z, c);
    let w = crate::tangents::width(p, q);
    let d = crate::tangents::step(p, q);
    let va = w * crate::measure::value(a);
    let vb = w * crate::measure::value(b);
    crate::algebra::lemma_nonnegative_product(w, crate::measure::value(a));
    crate::algebra::lemma_nonnegative_product(w, crate::measure::value(b));
    crate::cubic::lemma_rise_nearly(t, u, d, va, vb, c);
    crate::cubic::lemma_rise_nearly(t, t, d, va, vb, c);
    crate::measure::lemma_small();
}

/// A level within an interval.
pub proof fn lemma_level_between(points: Seq<Point>, k: int, x: Double)
    requires
        smooth(points),
        0 <= k,
        k + 1 < points.len(),
        points[k].x.at_most(x),
        x.less(points[k + 1].x),
        !x.at_most(points[0].x),
    ensures
        ({
            let s = crate::curve::tangents(points);
            let l = crate::curve::level(points, s, x);
            let e = crate::measure::epsilon();
            &&& l == (if points[k].x.same(x) {
                points[k].y
            } else {
                crate::curve::held(crate::curve::hermite(points[k], points[k + 1], s[k], s[k + 1], x))
            })
            &&& crate::lesson_laws::proper_level(l)
            &&& crate::measure::value(points[k].y) - 1400 as real * e <= crate::measure::value(l)
            &&& crate::measure::value(l) <= crate::measure::value(points[k + 1].y) + 1400 as real * e
        }),
{
    let n = points.len();
    let s = crate::curve::tangents(points);
    let p = points[k];
    let q = points[k + 1];
    assert(points[k + 1].x.at_most(points[n - 1].x));
    crate::curve::lemma_segment_is(points, x, k);
    crate::tangents::lemma_neighbours(points, k);
    crate::tangents::lemma_width(p, q);
    crate::lesson_laws::lemma_proper(p.y);
    crate::lesson_laws::lemma_proper(q.y);
    crate::measure::lemma_value_order(p.y, q.y);
    crate::measure::lemma_small();
    if !p.x.same(x) {
        lemma_computed(points, k, x, x);
        lemma_held(crate::curve::hermite(p, q, s[k], s[k + 1], x));
    }
}

/// Where a light lies: before the first point, beyond the last one, or in an interval.
pub proof fn lemma_place(points: Seq<Point>, x: Double) -> (k: int)
    requires
        points.len() >= 2,
        crate::curve::ascending(points),
        !x.is_nan(),
        !x.at_most(points[0].x),
        !points.last().x.at_most(x),
    ensures
        0 <= k,
        k + 1 < points.len(),
        points[k].x.at_most(x),
        x.less(points[k + 1].x),
    decreases points.len(),
{
    let n = points.len();
    assert(points[0].x.at_most(points[n - 1].x));
    if points[n - 2].x.at_most(x) {
        n - 2
    } else {
        let shorter = points.drop_last();
        assert(crate::curve::ascending(shorter)) by {
            assert forall|a: int, b: int|
                #![trigger shorter[a], shorter[b]]
                0 <= a <= b < shorter.len() implies shorter[a].x.at_most(shorter[b].x) by {
                assert(points[a].x.at_most(points[b].x));
            }
        }
        assert(shorter.last() == points[n - 2]);
        assert(points[n - 2].x.at_most(points[n - 1].x));
        if n == 2 {
            assert(points[0].x.at_most(points[0].x));
            assert(n - 2 == 0);
        }
        lemma_place(shorter, x)
    }
}

/// The level of a smooth curve is a number in its range, wherever the light lies.
pub proof fn law_levels_are_proper(points: Seq<Point>, x: Double)
    requires
        smooth(points),
        !x.is_nan(),
    ensures
        crate::lesson_laws::proper_level(crate::curve::level(points, crate::curve::tangents(points), x)),
{
    let ys = crate::curve::levels(points);
    let n = points.len();
    assert(crate::lesson_laws::proper_level(ys[0]));
    assert(crate::lesson_laws::proper_level(ys[n - 1]));
    if !x.at_most(points[0].x) && !points.last().x.at_most(x) {
        let k = lemma_place(points, x);
        lemma_level_between(points, k, x);
    }
}

/// More light never makes the level of a smooth curve lower, but for rounding.
pub proof fn law_curve_rises(points: Seq<Point>, x: Double, z: Double)
    requires
        smooth(points),
        x.at_most(z),
    ensures
        ({
            let s = crate::curve::tangents(points);
            let low = crate::curve::level(points, s, x);
            let high = crate::curve::level(points, s, z);
            &&& crate::lesson_laws::proper_level(low)
            &&& crate::lesson_laws::proper_level(high)
            &&& crate::measure::value(low) <= crate::measure::value(high) + tolerance()
        }),
{
    let n = points.len();
    let s = crate::curve::tangents(points);
    let ys = crate::curve::levels(points);
    let e = crate::measure::epsilon();
    crate::measure::lemma_small();
    assert(3000 as real * e <= tolerance());
    law_levels_are_proper(points, x);
    law_levels_are_proper(points, z);
    let low = crate::curve::level(points, s, x);
    let high = crate::curve::level(points, s, z);
    assert(ys[0] == points[0].y && ys[n - 1] == points.last().y);
    if x.at_most(points[0].x) {
        if z.at_most(points[0].x) {
        } else if points.last().x.at_most(z) {
            lemma_levels_in_order(points, 0, n - 1);
        } else {
            let j = lemma_place(points, z);
            lemma_level_between(points, j, z);
            lemma_levels_in_order(points, 0, j);
        }
    } else if points.last().x.at_most(x) {
        assert(points.last().x.at_most(z));
        assert(points[0].x.at_most(points[n - 1].x));
    } else {
        let i = lemma_place(points, x);
        lemma_level_between(points, i, x);
        assert(points[0].x.at_most(points[n - 1].x));
        if points.last().x.at_most(z) {
            lemma_levels_in_order(points, i + 1, n - 1);
        } else {
            let j = lemma_place(points, z);
            lemma_level_between(points, j, z);
            if i < j {
                lemma_levels_in_order(points, i + 1, j);
            } else {
                if j < i {
                    assert(points[j + 1].x.at_most(points[i].x));
                }
                assert(i == j);
                lemma_same_interval(points, i, x, z);
            }
        }
    }
}

proof fn lemma_levels_in_order(points: Seq<Point>, i: int, j: int)
    requires
        crate::tangents::tame(points),
        0 <= i <= j < points.len(),
    ensures
        crate::measure::value(points[i].y) <= crate::measure::value(points[j].y),
{
    let ys = crate::curve::levels(points);
    assert(crate::lesson_laws::proper_level(ys[i]));
    assert(crate::lesson_laws::proper_level(ys[j]));
    assert(ys[i].at_most(ys[j]));
    crate::lesson_laws::lemma_proper(points[i].y);
    crate::lesson_laws::lemma_proper(points[j].y);
    crate::measure::lemma_value_order(points[i].y, points[j].y);
}

/// Two lights in one interval.
proof fn lemma_same_interval(points: Seq<Point>, k: int, x: Double, z: Double)
    requires
        smooth(points),
        0 <= k,
        k + 1 < points.len(),
        points[k].x.at_most(x),
        x.at_most(z),
        z.less(points[k + 1].x),
        !x.at_most(points[0].x),
    ensures
        ({
            let s = crate::curve::tangents(points);
            crate::measure::value(crate::curve::level(points, s, x)) <= crate::measure::value(
                crate::curve::level(points, s, z),
            ) + 2400 as real * crate::measure::epsilon()
        }),
{
    let s = crate::curve::tangents(points);
    let p = points[k];
    let q = points[k + 1];
    lemma_level_between(points, k, x);
    lemma_level_between(points, k, z);
    crate::measure::lemma_small();
    if !p.x.same(x) {
        assert(!p.x.same(z));
        lemma_computed(points, k, x, z);
        lemma_held(crate::curve::hermite(p, q, s[k], s[k + 1], x));
        lemma_held(crate::curve::hermite(p, q, s[k], s[k + 1], z));
    }
}

/// More light is no lesser part of the range.
proof fn lemma_normalized_order(lux: Double, brighter: Double, max_lux: Double)
    requires
        lux.at_most(brighter),
        max_lux.finite(),
        Double::from_bits(ZERO).less(max_lux),
    ensures
        crate::curve::normalized(lux, max_lux).at_most(crate::curve::normalized(brighter, max_lux)),
{
    crate::curve_laws::law_light_is_held_to_the_range(lux, max_lux);
    crate::curve_laws::law_light_is_held_to_the_range(brighter, max_lux);
    if lux.finite() && brighter.finite() {
        crate::measure::lemma_over_order(lux, brighter, max_lux);
    } else if !brighter.finite() {
        assert(brighter.infinite());
        if brighter.negative() {
            assert(lux == brighter);
        } else {
            assert(max_lux.at_most(brighter));
        }
    } else {
        assert(lux.infinite() && lux.negative());
        assert(lux.less(Double::from_bits(ZERO)));
    }
}

/// The brightness that a smooth curve says for more light is never lower, but for rounding, and is a
/// number in the range of the curve.
pub proof fn law_more_light_is_never_darker(c: &ClightCurve, lux: Double, brighter: Double)
    requires
        smooth(c.points@),
        c.slopes@ == crate::curve::tangents(c.points@),
        c.max_lux.finite(),
        Double::from_bits(ZERO).less(c.max_lux),
        lux.at_most(brighter),
    ensures
        ({
            let low = crate::curve::level(c.points@, c.slopes@, crate::curve::normalized(lux, c.max_lux));
            let high = crate::curve::level(c.points@, c.slopes@, crate::curve::normalized(brighter, c.max_lux));
            &&& crate::lesson_laws::proper_level(low)
            &&& crate::lesson_laws::proper_level(high)
            &&& crate::measure::value(low) <= crate::measure::value(high) + tolerance()
        }),
{
    lemma_normalized_order(lux, brighter, c.max_lux);
    law_curve_rises(
        c.points@,
        crate::curve::normalized(lux, c.max_lux),
        crate::curve::normalized(brighter, c.max_lux),
    );
}

} // verus!
