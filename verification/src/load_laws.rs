//! A load gives a level for each reference point, in the range of the curve.

use vstd::prelude::*;
use crate::curve::{BARE_LEVEL, LOWEST_LEVEL};
use crate::double::Double;
use crate::double::{ONE, THOUSAND, ZERO};
use crate::state::{LoadPlan, Reading};

verus! {

/// A level between the lowest one and a little more than one, in thousandths, is one of the curve.
proof fn lemma_thousandths(y: Double)
    requires
        y.finite(),
        crate::measure::value(Double::from_bits(LOWEST_LEVEL)) <= crate::measure::value(y),
        crate::measure::value(y) <= 1 as real + 1 as real / 10_000 as real,
    ensures
        crate::lesson_laws::proper_level(crate::state::to_thousandths(y)),
{
    let thousand = Double::from_bits(THOUSAND);
    let one = Double::from_bits(ONE);
    let ten = Double::of_int(10);
    let e = crate::measure::epsilon();
    let v = crate::measure::value(y);
    crate::measure::lemma_constants();
    crate::measure::lemma_small();
    crate::measure::lemma_hundredth();
    crate::measure::lemma_of_int(10);
    let m = y.times(thousand);
    assert(v * (1000 as real) == 1000 as real * v);
    crate::measure::lemma_times(y, thousand);
    crate::measure::lemma_part_of_error(e, v * (1000 as real), 1001 as real);
    crate::measure::lemma_times_at_least(y, thousand, ten);
    crate::measure::lemma_value_order(ten, m);
    let w = crate::measure::lemma_rounded(m);
    assert(crate::measure::whole(10) == 10 as real);
    assert(w >= 10);
    assert(w as real <= 1000 as real + 9 as real / 10 as real);
    assert(w <= 1000);
    let n = m.rounded();
    crate::measure::lemma_positive(thousand);
    crate::measure::lemma_value_order(ten, n);
    crate::measure::lemma_over_order(ten, n, thousand);
    assert(1 as real * (1000 as real) == 1000 as real);
    crate::measure::lemma_over_at_most(n, thousand, one);
}

/// A default level lies in the range of the curve.
proof fn lemma_default_level(p: Double)
    requires
        crate::curve_laws::in_unit(p),
    ensures
        crate::lesson_laws::proper_level(crate::state::default_level(p)),
{
    let low = Double::from_bits(BARE_LEVEL);
    let least = Double::from_bits(LOWEST_LEVEL);
    let one = Double::from_bits(ONE);
    let zero = Double::from_bits(ZERO);
    let e = crate::measure::epsilon();
    crate::measure::lemma_constants();
    crate::measure::lemma_small();
    crate::measure::lemma_hundredth();
    crate::measure::lemma_value_order(least, low);
    crate::measure::lemma_value_order(low, one);
    crate::measure::lemma_value_order(zero, p);
    crate::measure::lemma_value_order(p, one);
    let l = crate::measure::value(low);
    let v = crate::measure::value(p);
    let c = one.minus(low);
    crate::measure::lemma_minus(one, low);
    crate::measure::lemma_part_of_error(e, 1 as real - l, 1 as real);
    let k = crate::measure::value(c);
    assert(0 as real <= k <= 1 as real - l + e) by {
        crate::measure::lemma_minus_at_least(one, low, zero);
        crate::measure::lemma_value_order(zero, c);
    }
    crate::algebra::lemma_product_bound(k, v, 1 as real - l + e, 1 as real);
    let m = c.times(p);
    crate::measure::lemma_times(c, p);
    crate::measure::lemma_part_of_error(e, k * v, 2 as real);
    crate::measure::lemma_times_at_least(c, p, zero);
    crate::measure::lemma_value_order(zero, m);
    let y = low.plus(m);
    let mv = crate::measure::value(m);
    crate::measure::lemma_plus(low, m);
    crate::measure::lemma_part_of_error(e, l + mv, 2 as real);
    crate::measure::lemma_plus_at_least(low, m, low);
    crate::measure::lemma_value_order(low, y);
    lemma_thousandths(y);
}

/// The levels of pairs are numbers in the range of the curve.
proof fn lemma_pair_levels(readings: Seq<Reading>)
    ensures
        crate::lesson_laws::proper(crate::state::y_of(crate::state::pairs_of(readings))),
    decreases readings.len(),
{
    let pairs = crate::state::pairs_of(readings);
    if readings.len() > 0 {
        let shorter = readings.drop_last();
        lemma_pair_levels(shorter);
        let before = crate::state::y_of(crate::state::pairs_of(shorter));
        let ys = crate::state::y_of(pairs);
        assert forall|i: int| 0 <= i < ys.len() implies crate::lesson_laws::proper_level(#[trigger] ys[i]) by {
            if i < before.len() {
                assert(ys[i] == before[i]);
            }
        }
    }
}

/// The levels of records with a level alone are numbers in the range of the curve.
proof fn lemma_single_levels(readings: Seq<Reading>)
    ensures
        crate::lesson_laws::proper(crate::state::singles_of(readings)),
    decreases readings.len(),
{
    let ys = crate::state::singles_of(readings);
    if readings.len() > 0 {
        let shorter = readings.drop_last();
        lemma_single_levels(shorter);
        let before = crate::state::singles_of(shorter);
        assert forall|i: int| 0 <= i < ys.len() implies crate::lesson_laws::proper_level(#[trigger] ys[i]) by {
            if i < before.len() {
                assert(ys[i] == before[i]);
            }
        }
    }
}

/// The levels of a smooth curve at reference points, in thousandths, are numbers in its range.
proof fn lemma_resampled(lux: Seq<Double>, y: Seq<Double>, lux_points: Seq<Double>)
    requires
        forall|i: int| 0 <= i < lux_points.len() ==> (#[trigger] lux_points[i]).finite(),
        crate::monotone::smooth(crate::state::stored_points(lux, y, lux_points)),
    ensures
        crate::state::resampled(lux, y, lux_points).len() == lux_points.len(),
        crate::lesson_laws::proper(crate::state::resampled(lux, y, lux_points)),
{
    let far = crate::state::stored_range(lux, lux_points);
    let range = crate::curve::safe_range(far);
    let points = crate::state::stored_points(lux, y, lux_points);
    let r = crate::state::resampled(lux, y, lux_points);
    crate::measure::lemma_constants();
    crate::curve_laws::law_finite_points_are_on_the_axis(lux_points, lux_points, far);
    let places = crate::curve::all_placed(lux_points, lux_points, range);
    assert forall|i: int| 0 <= i < r.len() implies crate::lesson_laws::proper_level(#[trigger] r[i]) by {
        assert(lux_points[i].finite());
        assert(!places[i].x.is_nan());
        let x = crate::curve::normalized(lux_points[i], range);
        crate::monotone::law_levels_are_proper(points, x);
        let level = crate::curve::level(points, crate::curve::tangents(points), x);
        crate::lesson_laws::lemma_proper(level);
        lemma_thousandths(level);
    }
}

/// What the plan goes by is sound: the powers for default levels lie between zero and one, and a curve that
/// is resampled is smooth.
pub open spec fn sound_load(plan: &LoadPlan, powers: Seq<Double>, lux_points: Seq<Double>) -> bool {
    match plan {
        LoadPlan::Keep(_) => true,
        LoadPlan::Adopt(_) => true,
        LoadPlan::Resample { lux, y } => crate::monotone::smooth(
            crate::state::stored_points(lux@, y@, lux_points),
        ),
        LoadPlan::ResampleLegacy { y } => crate::monotone::smooth(
            crate::state::stored_points(crate::state::legacy_lights(powers, lux_points), y@, lux_points),
        ),
        LoadPlan::Defaults { count } => powers.len() == count && forall|i: int|
            0 <= i < powers.len() ==> crate::curve_laws::in_unit(#[trigger] powers[i]),
    }
}

/// A load gives as many levels as there are reference points, each a number in the range of the curve.
pub proof fn law_load_gives_a_level_for_each_point(
    plan: &LoadPlan,
    readings: Seq<Reading>,
    powers: Seq<Double>,
    lux_points: Seq<Double>,
)
    requires
        plan.is_for(crate::state::pairs_of(readings), crate::state::singles_of(readings), lux_points),
        lux_points.len() >= 2,
        forall|i: int| 0 <= i < lux_points.len() ==> (#[trigger] lux_points[i]).finite(),
        sound_load(plan, powers, lux_points),
    ensures
        plan.levels(powers, lux_points).len() == lux_points.len(),
        crate::lesson_laws::proper(plan.levels(powers, lux_points)),
{
    lemma_pair_levels(readings);
    lemma_single_levels(readings);
    match plan {
        LoadPlan::Keep(_) => {},
        LoadPlan::Adopt(_) => {},
        LoadPlan::Resample { lux, y } => {
            lemma_resampled(lux@, y@, lux_points);
        },
        LoadPlan::ResampleLegacy { y } => {
            lemma_resampled(crate::state::legacy_lights(powers, lux_points), y@, lux_points);
        },
        LoadPlan::Defaults { count } => {
            let r = plan.levels(powers, lux_points);
            assert forall|i: int| 0 <= i < r.len() implies crate::lesson_laws::proper_level(#[trigger] r[i]) by {
                assert(crate::curve_laws::in_unit(powers[i]));
                lemma_default_level(powers[i]);
            }
        },
    }
}

} // verus!
