//! What holds of the curve, whatever it is made of and whatever it learns.

use vstd::prelude::*;
use crate::curve::{ClightCurve, Point};
use crate::double::Double;
use crate::double::{ONE, ZERO};

verus! {

/// The curve's points stand in order, with a tangent each, and their levels are numbers in the range of
/// the curve of which none is below one before it.
pub open spec fn sound(c: &ClightCurve) -> bool {
    &&& c.well_formed()
    &&& crate::lesson_laws::proper(crate::curve::levels(c.points@))
    &&& crate::lesson_laws::rising(crate::curve::levels(c.points@))
}

// ---------------------------------------------------------------------------
// Levels
// ---------------------------------------------------------------------------

/// After levelling no level is below one before it, and levels in the range of the curve stay there.
pub proof fn law_levelling_brings_order(points: Seq<Point>)
    requires
        crate::lesson_laws::proper(crate::curve::levels(points)),
    ensures
        crate::lesson_laws::proper(crate::curve::levels(crate::curve::levelled(points))),
        crate::lesson_laws::rising(crate::curve::levels(crate::curve::levelled(points))),
    decreases points.len(),
{
    crate::curve::lemma_levelled(points);
    if points.len() > 0 {
        let shorter = points.drop_last();
        let n = points.len() - 1;
        let ys = crate::curve::levels(points);
        assert forall|i: int| 0 <= i < shorter.len() implies crate::lesson_laws::proper_level(
            #[trigger] crate::curve::levels(shorter)[i],
        ) by {
            assert(crate::curve::levels(shorter)[i] == ys[i]);
        }
        law_levelling_brings_order(shorter);
        crate::curve::lemma_levelled(shorter);
        let before = crate::curve::levelled(shorter);
        let r = crate::curve::levelled(points);
        let b = crate::curve::levels(before);
        let z = crate::curve::levels(r);
        assert(ys[n] == points.last().y);
        if n > 0 {
            assert(b[n - 1] == before.last().y);
        }
        assert forall|i: int| 0 <= i < z.len() implies crate::lesson_laws::proper_level(#[trigger] z[i]) by {
            if i < n {
                assert(z[i] == b[i]);
            }
        }
        assert forall|i: int, j: int| #![trigger z[i], z[j]] 0 <= i <= j <= z.len() - 1 implies z[i].at_most(z[j]) by {
            assert(crate::lesson_laws::proper_level(z[j]));
            if j < n {
                assert(b[i].at_most(b[j]));
            } else if i < n {
                assert(b[i].at_most(b[n - 1]));
            }
        }
    }
}

/// Levels that are in order already are left as they are, so that levelling twice is levelling once.
pub proof fn law_levelling_is_idempotent(points: Seq<Point>)
    requires
        crate::lesson_laws::rising(crate::curve::levels(points)),
    ensures
        crate::curve::levelled(points) == points,
    decreases points.len(),
{
    if points.len() > 0 {
        let shorter = points.drop_last();
        let n = points.len() - 1;
        let ys = crate::curve::levels(points);
        let zs = crate::curve::levels(shorter);
        assert forall|i: int, j: int| #![trigger zs[i], zs[j]] 0 <= i <= j <= zs.len() - 1 implies zs[i].at_most(zs[j]) by {
            assert(ys[i].at_most(ys[j]));
        }
        law_levelling_is_idempotent(shorter);
        if n > 0 {
            assert(ys[n - 1].at_most(ys[n]));
        }
        assert(shorter.push(points.last()) =~= points);
    }
}

/// Sorting leaves the points what they are: each comes out as often as it went in.
pub proof fn law_sorting_keeps_the_points(points: Seq<Point>)
    ensures
        crate::curve::sorted(points).to_multiset() == points.to_multiset(),
    decreases points.len(),
{
    broadcast use vstd::seq_lib::group_to_multiset_ensures;

    if points.len() > 0 {
        let shorter = points.drop_last();
        law_sorting_keeps_the_points(shorter);
        lemma_inserted_multiset(crate::curve::sorted(shorter), points.last());
        assert(shorter.push(points.last()) =~= points);
    }
}

proof fn lemma_inserted_multiset(points: Seq<Point>, p: Point)
    ensures
        crate::curve::inserted(points, p).to_multiset() == points.to_multiset().insert(p),
    decreases points.len(),
{
    broadcast use vstd::seq_lib::group_to_multiset_ensures;

    if points.len() > 0 && p.x.less(points.last().x) {
        let shorter = points.drop_last();
        lemma_inserted_multiset(shorter, p);
        assert(shorter.push(points.last()) =~= points);
        let a = shorter.to_multiset();
        assert(a.insert(p).insert(points.last()) =~= a.insert(points.last()).insert(p));
    }
}

/// Points at finite light levels have a place on the axis of every range.
pub proof fn law_finite_points_are_on_the_axis(lux: Seq<Double>, y: Seq<Double>, max_lux: Double)
    requires
        forall|i: int| 0 <= i < lux.len() ==> (#[trigger] lux[i]).finite(),
    ensures
        crate::curve::all_on_axis(crate::curve::all_placed(lux, y, crate::curve::safe_range(max_lux))),
{
    let range = crate::curve::safe_range(max_lux);
    let points = crate::curve::all_placed(lux, y, range);
    assert forall|i: int| 0 <= i < points.len() implies !(#[trigger] points[i]).x.is_nan() by {
        reveal(Double::spec_over);
        assert(lux[i].finite());
        crate::double::lemma_units_order(range.magnitude(), 0);
        if range.finite() {
            crate::double::lemma_round_ratio(
                crate::double::units(lux[i].magnitude()) * crate::double::one_in_units(),
                crate::double::units(range.magnitude()),
            );
        }
    }
}

/// A new curve through levels that are numbers is sound.
pub proof fn law_new_curve_is_sound(c: &ClightCurve, lux: Seq<Double>, y: Seq<Double>, max_lux: Double)
    requires
        lux.len() == y.len(),
        forall|i: int| 0 <= i < y.len() ==> !(#[trigger] y[i]).is_nan(),
        c.points@ == crate::curve::levelled(
            crate::curve::sorted(crate::curve::all_placed(lux, y, crate::curve::safe_range(max_lux))),
        ),
        c.well_formed(),
    ensures
        sound(c),
{
    let all = crate::curve::all_placed(lux, y, crate::curve::safe_range(max_lux));
    assert forall|i: int| 0 <= i < all.len() implies crate::lesson_laws::proper_level((#[trigger] all[i]).y) by {
        assert(!y[i].is_nan());
    }
    lemma_sorted_proper(all);
    law_levelling_brings_order(crate::curve::sorted(all));
}

proof fn lemma_sorted_proper(points: Seq<Point>)
    requires
        forall|i: int| 0 <= i < points.len() ==> crate::lesson_laws::proper_level((#[trigger] points[i]).y),
    ensures
        crate::lesson_laws::proper(crate::curve::levels(crate::curve::sorted(points))),
{
    broadcast use vstd::seq_lib::group_to_multiset_ensures;

    law_sorting_keeps_the_points(points);
    let s = crate::curve::sorted(points);
    let z = crate::curve::levels(s);
    assert forall|i: int| 0 <= i < z.len() implies crate::lesson_laws::proper_level(#[trigger] z[i]) by {
        assert(s.contains(s[i]));
        assert(s.to_multiset().count(s[i]) > 0);
        assert(points.to_multiset().count(s[i]) > 0);
        assert(points.contains(s[i]));
    }
}

// ---------------------------------------------------------------------------
// Values of the curve
// ---------------------------------------------------------------------------

/// The point `i` has a light of its own.
pub open spec fn stands_alone(points: Seq<Point>, i: int) -> bool {
    &&& 0 <= i < points.len()
    &&& forall|j: int| 0 <= j < points.len() && j != i ==> !(#[trigger] points[j]).x.same(points[i].x)
}

/// The curve runs through its points.
pub proof fn law_curve_runs_through_its_points(points: Seq<Point>, slopes: Seq<Double>, i: int, x: Double)
    requires
        crate::curve::ascending(points),
        stands_alone(points, i),
        x.same(points[i].x),
    ensures
        crate::curve::level(points, slopes, x) == points[i].y,
{
    let n = points.len();
    if i > 0 {
        assert(points[0].x.at_most(points[i].x));
        assert(!points[0].x.same(points[i].x));
    }
    if i < n - 1 {
        assert(points[i].x.at_most(points[n - 1].x));
        assert(!points[n - 1].x.same(points[i].x));
        assert(points[i].x.at_most(points[i + 1].x));
        assert(!points[i + 1].x.same(points[i].x));
        crate::curve::lemma_segment_is(points, x, i);
    }
}

/// Beyond its ends the curve goes on level.
pub proof fn law_curve_is_level_beyond_its_ends(points: Seq<Point>, slopes: Seq<Double>, x: Double)
    requires
        points.len() > 0,
        crate::curve::ascending(points),
    ensures
        x.at_most(points[0].x) ==> crate::curve::level(points, slopes, x) == points[0].y,
        points.last().x.at_most(x) && !x.at_most(points[0].x) ==> crate::curve::level(points, slopes, x)
            == points.last().y,
{
}

/// The light does not count beyond the range: a light below zero is zero, one beyond the range its end.
pub proof fn law_light_is_held_to_the_range(lux: Double, max_lux: Double)
    requires
        max_lux.finite(),
        Double::from_bits(ZERO).less(max_lux),
        !lux.is_nan(),
    ensures
        lux.less(Double::from_bits(ZERO)) ==> crate::curve::normalized(lux, max_lux).same(Double::from_bits(ZERO)),
        max_lux.at_most(lux) ==> crate::curve::normalized(lux, max_lux).same(Double::from_bits(ONE)),
        Double::from_bits(ZERO).at_most(crate::curve::normalized(lux, max_lux)),
        crate::curve::normalized(lux, max_lux).at_most(Double::from_bits(ONE)),
{
    let zero = Double::from_bits(ZERO);
    let one = Double::from_bits(ONE);
    crate::measure::lemma_constants();
    crate::measure::lemma_value_order(zero, max_lux);
    let m = crate::measure::value(max_lux);
    assert(0 as real * m == 0 as real && 1 as real * m == m) by (nonlinear_arith);
    if lux.finite() {
        crate::measure::lemma_value_order(lux, zero);
        crate::measure::lemma_value_order(max_lux, lux);
        if crate::measure::value(lux) <= 0 as real {
            crate::measure::lemma_over_at_most(lux, max_lux, zero);
        }
        if crate::measure::value(lux) >= 0 as real {
            crate::measure::lemma_over_at_least(lux, max_lux, zero);
        }
        if crate::measure::value(lux) >= m {
            crate::measure::lemma_over_at_least(lux, max_lux, one);
        }
    } else {
        reveal(Double::spec_over);
        assert(lux.infinite());
    }
}

/// Every level of the curve lies in its range, or is not a number.
pub proof fn law_levels_lie_in_range(points: Seq<Point>, slopes: Seq<Double>, x: Double)
    requires
        crate::curve::ascending(points),
        crate::lesson::all_in_range(crate::curve::levels(points)),
    ensures
        crate::lesson::in_range(crate::curve::level(points, slopes, x)),
{
    let ys = crate::curve::levels(points);
    let n = points.len();
    if n > 0 {
        assert(crate::lesson::in_range(ys[0]));
        assert(crate::lesson::in_range(ys[n - 1]));
        if !x.at_most(points[0].x) && !points.last().x.at_most(x) && !x.is_nan() {
            let i = crate::curve::segment(points, x);
            lemma_segment_bounds(points, x);
            assert(crate::lesson::in_range(ys[i]));
        }
    }
}

proof fn lemma_segment_bounds(points: Seq<Point>, x: Double)
    requires
        points.len() > 0,
        points[0].x.at_most(x),
    ensures
        0 <= crate::curve::segment(points, x) < points.len(),
    decreases points.len(),
{
    if !points.last().x.at_most(x) {
        assert(points.len() > 1);
        lemma_segment_bounds(points.drop_last(), x);
    }
}

// ---------------------------------------------------------------------------
// Learning
// ---------------------------------------------------------------------------

/// The deviation of a brightness from a sound curve is a finite number no greater than one.
proof fn lemma_deviation(c: &ClightCurve, lux: Double, user_br: Double)
    requires
        sound(c),
        c.learns_from(lux, user_br),
        !crate::curve::level(
            c.points@,
            c.slopes@,
            crate::curve::normalized(lux, c.max_lux),
        ).is_nan(),
    ensures
        c.deviation(lux, user_br).finite(),
        -1 as real <= crate::measure::value(c.deviation(lux, user_br)) <= 1 as real,
        crate::lesson_laws::proper_level(crate::curve::held(user_br)),
{
    let x = crate::curve::normalized(lux, c.max_lux);
    let l = crate::curve::level(c.points@, c.slopes@, x);
    let ys = crate::curve::levels(c.points@);
    assert(crate::lesson::all_in_range(ys)) by {
        assert forall|i: int| 0 <= i < ys.len() implies crate::lesson::in_range(#[trigger] ys[i]) by {
            assert(crate::lesson_laws::proper_level(ys[i]));
        }
    }
    law_levels_lie_in_range(c.points@, c.slopes@, x);
    let h = crate::curve::held(user_br);
    let one = Double::from_bits(ONE);
    crate::lesson_laws::lemma_proper(h);
    crate::lesson_laws::lemma_proper(l);
    crate::measure::lemma_constants();
    crate::measure::lemma_small();
    crate::measure::lemma_negated(one);
    crate::measure::lemma_minus_at_most(h, l, one);
    crate::measure::lemma_minus_at_least(h, l, one.negated());
    crate::measure::lemma_minus(h, l);
    crate::measure::lemma_value_order(h.minus(l), one);
    crate::measure::lemma_value_order(one.negated(), h.minus(l));
}

/// The point that a lesson is about is one of the curve's.
proof fn lemma_pivot(points: Seq<Point>, x: Double)
    requires
        points.len() > 0,
    ensures
        0 <= crate::lesson::closest(points, x).0 < points.len(),
    decreases points.len(),
{
    if points.len() > 1 {
        lemma_pivot(points.drop_last(), x);
    } else {
        reveal_with_fuel(crate::lesson::closest, 2);
        assert(points.drop_last().len() == 0);
    }
}

/// The points after a lesson on a sound curve: where they were, with levels that are in order, and with
/// the level that was taught at the point that the lesson is about.
pub proof fn law_learning_keeps_the_curve_sound(
    c: &ClightCurve,
    lux: Double,
    user_br: Double,
    logs: Seq<Double>,
)
    requires
        sound(c),
        c.learns_from(lux, user_br),
        !crate::curve::level(
            c.points@,
            c.slopes@,
            crate::curve::normalized(lux, c.max_lux),
        ).is_nan(),
        logs.len() == c.points@.len() + 1,
    ensures
        ({
            let points = c.lesson(lux, user_br, logs);
            &&& points.len() == c.points@.len()
            &&& forall|i: int| 0 <= i < points.len() ==> #[trigger] points[i].x == c.points@[i].x
            &&& crate::curve::ascending(points)
            &&& crate::lesson_laws::proper(crate::curve::levels(points))
            &&& crate::lesson_laws::rising(crate::curve::levels(points))
            &&& 0 <= c.pivot(lux) < points.len()
            &&& points[c.pivot(lux)].y == crate::curve::held(user_br)
            &&& crate::curve::levels(points) == crate::lesson::taught(
                crate::curve::levels(c.points@),
                c.pivot(lux) as nat,
                crate::curve::held(user_br),
                c.deviation(lux, user_br),
                logs,
            )
        }),
{
    let ys = crate::curve::levels(c.points@);
    let target = crate::curve::held(user_br);
    let delta = c.deviation(lux, user_br);
    lemma_deviation(c, lux, user_br);
    let x = crate::curve::position(lux, c.max_lux).clamp(Double::from_bits(ZERO), Double::from_bits(ONE));
    lemma_pivot(c.points@, x);
    let p = c.pivot(lux) as nat;
    crate::lesson_laws::law_lesson_keeps_order(ys, p, target, delta, logs);
    let r = crate::lesson::taught(ys, p, target, delta, logs);
    let next = crate::curve::with_levels(c.points@, r);
    assert(crate::curve::levels(next) =~= r);
    law_levelling_is_idempotent(next);
    crate::curve::lemma_levelled(next);
    assert(crate::curve::ascending(next)) by {
        assert forall|i: int, j: int|
            #![trigger next[i], next[j]]
            0 <= i <= j < next.len() implies next[i].x.at_most(next[j].x) by {
            assert(c.points@[i].x.at_most(c.points@[j].x));
        }
    }
}

/// Two finite values that differ have a distance above zero.
pub proof fn lemma_distance(a: Double, b: Double)
    requires
        a.finite(),
        b.finite(),
    ensures
        !a.minus(b).absolute().is_nan(),
        a.same(b) ==> a.minus(b).absolute().zero(),
        !a.same(b) ==> !a.minus(b).absolute().zero(),
{
    reveal(Double::spec_plus);
    crate::measure::lemma_value_order(a, b);
    crate::measure::lemma_negated(b);
    let n = a.amount() + b.negated().amount();
    crate::double::lemma_round_ratio(crate::double::size_of(n), 1);
    crate::double::lemma_units_order(a.magnitude(), b.magnitude());
    crate::double::lemma_units_order(a.magnitude(), 0);
    crate::double::lemma_units_order(b.magnitude(), 0);
    if n != 0 {
        crate::double::lemma_round_ratio_at_least(crate::double::size_of(n), 1, 1);
    }
}

/// The nearest point to the light of a point that stands alone is that point.
proof fn lemma_closest_is(points: Seq<Point>, k: int, x: Double, m: nat)
    requires
        stands_alone(points, k),
        forall|j: int| 0 <= j < points.len() ==> (#[trigger] points[j]).x.finite() && in_unit(points[j].x),
        x.same(points[k].x),
        m <= points.len(),
    ensures
        ({
            let (i, d) = crate::lesson::closest(points.take(m as int), x);
            &&& !d.is_nan()
            &&& !d.negative()
            &&& m > k ==> i == k && d.zero()
            &&& m <= k ==> !d.zero()
        }),
    decreases m,
{
    if m > 0 {
        let t = points.take(m as int);
        let j = m - 1;
        lemma_closest_is(points, k, x, j as nat);
        assert(t.drop_last() =~= points.take(j as int));
        assert(t.last() == points[j as int]);
        assert(points[k].x.finite());
        assert(points[j as int].x.finite());
        lemma_distance(points[j as int].x, x);
        if j != k {
            assert(!points[j as int].x.same(points[k].x));
        }
    }
}

/// A place on the axis.
pub open spec fn in_unit(x: Double) -> bool {
    Double::from_bits(ZERO).at_most(x) && x.at_most(Double::from_bits(ONE))
}

/// What was taught at the light of a point that stands alone is what the curve then says there.
pub proof fn law_curve_says_what_it_was_taught(
    c: &ClightCurve,
    after: &ClightCurve,
    lux: Double,
    user_br: Double,
    logs: Seq<Double>,
    k: int,
)
    requires
        sound(c),
        forall|j: int| 0 <= j < c.points@.len() ==> in_unit((#[trigger] c.points@[j]).x),
        Double::from_bits(ZERO).less(c.max_lux),
        c.learns_from(lux, user_br),
        logs.len() == c.points@.len() + 1,
        stands_alone(c.points@, k),
        crate::curve::normalized(lux, c.max_lux).same(c.points@[k].x),
        after.points@ == c.lesson(lux, user_br, logs),
        after.max_lux == c.max_lux,
    ensures
        c.pivot(lux) == k,
        crate::curve::level(
            after.points@,
            after.slopes@,
            crate::curve::normalized(lux, after.max_lux),
        ) == crate::curve::held(user_br),
{
    let points = c.points@;
    let x = crate::curve::normalized(lux, c.max_lux);
    crate::measure::lemma_constants();
    assert forall|j: int| 0 <= j < points.len() implies (#[trigger] points[j]).x.finite() && in_unit(points[j].x) by {}
    lemma_closest_is(points, k, x, points.len());
    assert(points.take(points.len() as int) =~= points);
    law_curve_runs_through_its_points(points, c.slopes@, k, x);
    let ys = crate::curve::levels(points);
    assert(crate::lesson_laws::proper_level(ys[k]));
    law_learning_keeps_the_curve_sound(c, lux, user_br, logs);
    let next = after.points@;
    assert(stands_alone(next, k)) by {
        assert forall|j: int| 0 <= j < next.len() && j != k implies !(#[trigger] next[j]).x.same(next[k].x) by {
            assert(!points[j].x.same(points[k].x));
        }
    }
    law_curve_runs_through_its_points(next, after.slopes@, k, x);
}

} // verus!
