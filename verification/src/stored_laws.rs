//! What a start makes of the file with the calibrated levels, in numbers.

use vstd::prelude::*;
use crate::curve::{BARE_LEVEL, LOWEST_LEVEL};
use crate::double::Double;
use crate::double::{ONE, THOUSAND, ZERO};
use crate::state::{LoadPlan, Reading};

verus! {

// ---------------------------------------------------------------------------
// Records
// ---------------------------------------------------------------------------

/// A pair of numbers is taken with its light held to zero and its level to the range of the curve; so is a level
/// alone. What is not a number, or missing, is passed over.
pub proof fn law_records_are_held_to_the_curve(lux: Double, y: Double)
    requires
        lux.finite(),
        y.finite(),
    ensures
        crate::state::pair_of(Reading::Pair(Some(lux), Some(y))) matches Some((l, v)) && crate::measure::value(l) == (
        if crate::measure::value(lux) < 0 as real {
            0 as real
        } else {
            crate::measure::value(lux)
        }) && crate::measure::value(v) == crate::lesson_laws::held_real(crate::measure::value(y)),
        crate::state::single_of(Reading::Single(Some(y))) matches Some(v) && crate::measure::value(v)
            == crate::lesson_laws::held_real(crate::measure::value(y)),
        crate::state::pair_of(Reading::Single(Some(y))) is None,
        crate::state::single_of(Reading::Pair(Some(lux), Some(y))) is None,
{
    let zero = Double::from_bits(ZERO);
    crate::measure::lemma_constants();
    crate::measure::lemma_value_order(lux, zero);
    crate::measure::lemma_value_order(zero, lux);
    crate::learning_laws::lemma_held_level(y);
}

/// What is not a number, or missing, gives no point and no level.
pub proof fn law_what_is_no_number_is_passed_over(lux: Option<Double>, y: Option<Double>)
    ensures
        y is None || y->0.is_nan() ==> crate::state::pair_of(Reading::Pair(lux, y)) is None,
        lux is None || lux->0.is_nan() ==> crate::state::pair_of(Reading::Pair(lux, y)) is None,
        y is None || y->0.is_nan() ==> crate::state::single_of(Reading::Single(y)) is None,
        lux matches Some(l) && !l.is_nan() && (y matches Some(v) && !v.is_nan()) ==> crate::state::pair_of(
            Reading::Pair(lux, y),
        ) is Some,
        y matches Some(v) && !v.is_nan() ==> crate::state::single_of(Reading::Single(y)) is Some,
{
}

/// Records are read one by one: those of two parts of a file are those of the first, and then those of the second.
pub proof fn law_records_are_read_in_turn(a: Seq<Reading>, b: Seq<Reading>)
    ensures
        crate::state::pairs_of(a + b) == crate::state::pairs_of(a) + crate::state::pairs_of(b),
        crate::state::singles_of(a + b) == crate::state::singles_of(a) + crate::state::singles_of(b),
    decreases b.len(),
{
    if b.len() == 0 {
        assert(a + b =~= a);
        assert(crate::state::pairs_of(a) + crate::state::pairs_of(b) =~= crate::state::pairs_of(a));
        assert(crate::state::singles_of(a) + crate::state::singles_of(b) =~= crate::state::singles_of(a));
    } else {
        let c = b.drop_last();
        let x = b.last();
        law_records_are_read_in_turn(a, c);
        assert((a + b).drop_last() =~= a + c);
        assert((a + b).last() == x);
        if let Some(p) = crate::state::pair_of(x) {
            assert((crate::state::pairs_of(a) + crate::state::pairs_of(c)).push(p) =~= crate::state::pairs_of(a)
                + crate::state::pairs_of(c).push(p));
        }
        if let Some(y) = crate::state::single_of(x) {
            assert((crate::state::singles_of(a) + crate::state::singles_of(c)).push(y) =~= crate::state::singles_of(a)
                + crate::state::singles_of(c).push(y));
        }
    }
}

/// A record alone gives its point or its level, and nothing else.
pub proof fn law_one_record_gives_one_value(r: Reading)
    ensures
        crate::state::pairs_of(seq![r]) == (match crate::state::pair_of(r) {
            Some(p) => seq![p],
            None => seq![],
        }),
        crate::state::singles_of(seq![r]) == (match crate::state::single_of(r) {
            Some(y) => seq![y],
            None => seq![],
        }),
{
    let all = seq![r];
    reveal_with_fuel(crate::state::pairs_of, 2);
    reveal_with_fuel(crate::state::singles_of, 2);
    assert(all.drop_last() =~= seq![]);
    assert(all.last() == r);
    if let Some(p) = crate::state::pair_of(r) {
        assert(Seq::empty().push(p) =~= seq![p]);
    }
    if let Some(y) = crate::state::single_of(r) {
        assert(Seq::empty().push(y) =~= seq![y]);
    }
}

// ---------------------------------------------------------------------------
// Reference points
// ---------------------------------------------------------------------------

/// The distance of two light levels is computed to within a millionth of a lux.
proof fn lemma_lights_apart(a: Double, b: Double)
    requires
        a.finite(),
        b.finite(),
        crate::measure::abs(crate::measure::value(a)) <= 0x1_0000_0000 as real,
        crate::measure::abs(crate::measure::value(b)) <= 0x1_0000_0000 as real,
    ensures
        ({
            let gap = crate::measure::abs(crate::measure::value(a) - crate::measure::value(b));
            let near = a.minus(b).absolute().less(Double::from_bits(LOWEST_LEVEL));
            &&& gap <= 99 as real / 10_000 as real ==> near
            &&& gap >= 101 as real / 10_000 as real ==> !near
        }),
{
    let x = crate::measure::value(a) - crate::measure::value(b);
    crate::measure::lemma_small();
    crate::measure::lemma_lowest_level();
    crate::measure::lemma_minus(a, b);
    crate::measure::lemma_part_of_error(crate::measure::epsilon(), x, 0x2_0000_0000 as real);
    let d = a.minus(b);
    crate::measure::lemma_absolute(d);
    crate::measure::lemma_value_order(d.absolute(), Double::from_bits(LOWEST_LEVEL));
}

/// Points that the file has at other lights than the reference points, by a hundredth of a lux or more, or in
/// another number, are resampled.
pub proof fn law_moved_points_are_resampled(
    plan: LoadPlan,
    pairs: Seq<(Double, Double)>,
    singles: Seq<Double>,
    lux_points: Seq<Double>,
    k: int,
)
    requires
        plan.is_for(pairs, singles, lux_points),
        pairs.len() > 0,
        pairs.len() != lux_points.len() || ({
            &&& 0 <= k < pairs.len()
            &&& pairs[k].0.finite()
            &&& lux_points[k].finite()
            &&& crate::measure::abs(crate::measure::value(pairs[k].0)) <= 0x1_0000_0000 as real
            &&& crate::measure::abs(crate::measure::value(lux_points[k])) <= 0x1_0000_0000 as real
            &&& crate::measure::abs(crate::measure::value(pairs[k].0) - crate::measure::value(lux_points[k])) >= 101 as real
                / 10_000 as real
        }),
    ensures
        plan is Resample,
        plan->lux@.len() == pairs.len(),
        plan->Resample_y@.len() == pairs.len(),
        forall|i: int|
            0 <= i < pairs.len() ==> plan->lux@[i] == (#[trigger] pairs[i]).0 && plan->Resample_y@[i] == pairs[i].1,
{
    if pairs.len() == lux_points.len() {
        lemma_lights_apart(pairs[k].0, lux_points[k]);
        assert(!pairs[k].0.minus(lux_points[k]).absolute().less(Double::from_bits(LOWEST_LEVEL)));
    }
}

/// Points that the file has at the reference points, to less than a hundredth of a lux, are kept.
pub proof fn law_points_in_place_are_kept(
    plan: LoadPlan,
    pairs: Seq<(Double, Double)>,
    singles: Seq<Double>,
    lux_points: Seq<Double>,
)
    requires
        plan.is_for(pairs, singles, lux_points),
        pairs.len() > 0,
        pairs.len() == lux_points.len(),
        forall|i: int|
            0 <= i < pairs.len() ==> {
                &&& (#[trigger] pairs[i]).0.finite()
                &&& lux_points[i].finite()
                &&& crate::measure::abs(crate::measure::value(pairs[i].0)) <= 0x1_0000_0000 as real
                &&& crate::measure::abs(crate::measure::value(lux_points[i])) <= 0x1_0000_0000 as real
                &&& crate::measure::abs(crate::measure::value(pairs[i].0) - crate::measure::value(lux_points[i]))
                    <= 99 as real / 10_000 as real
            },
    ensures
        plan is Keep,
        plan->Keep_0@.len() == pairs.len(),
        forall|i: int| 0 <= i < pairs.len() ==> plan->Keep_0@[i] == (#[trigger] pairs[i]).1,
{
    assert forall|i: int| 0 <= i < pairs.len() implies (#[trigger] pairs[i]).0.minus(
        lux_points[i],
    ).absolute().less(Double::from_bits(LOWEST_LEVEL)) by {
        lemma_lights_apart(pairs[i].0, lux_points[i]);
    }
}

/// Without pairs, levels alone are adopted where they are as many as the curve has points, two at least, and else
/// spread over the range; without those either, there are as many default levels.
pub proof fn law_levels_alone_are_spread(plan: LoadPlan, singles: Seq<Double>, lux_points: Seq<Double>)
    requires
        plan.is_for(seq![], singles, lux_points),
    ensures
        ({
            let n = if lux_points.len() < 2 {
                2
            } else {
                lux_points.len()
            };
            &&& singles.len() == 0 ==> plan is Defaults && plan->count == n
            &&& singles.len() > 0 && singles.len() == n ==> plan is Adopt && plan->Adopt_0@ == singles
            &&& singles.len() > 0 && singles.len() != n ==> plan is ResampleLegacy && plan->ResampleLegacy_y@ == singles
        }),
{
}

// ---------------------------------------------------------------------------
// Resampling
// ---------------------------------------------------------------------------

/// The range of the stored curve is that of its points or the last reference point, whichever is further.
pub proof fn law_stored_range_takes_everything_in(lux: Seq<Double>, lux_points: Seq<Double>, i: int)
    requires
        lux_points.len() > 0,
        !lux_points.last().is_nan(),
        0 <= i < lux.len(),
        lux[i].finite(),
    ensures
        lux[i].at_most(crate::state::stored_range(lux, lux_points)),
        lux_points.last().at_most(crate::state::stored_range(lux, lux_points)),
        crate::state::stored_range(lux, lux_points) == lux_points.last() || lux.contains(
            crate::state::stored_range(lux, lux_points),
        ),
{
    crate::state_laws::lemma_furthest(lux, lux_points.last(), i);
    lemma_furthest_is_one(lux, lux_points.last());
}

proof fn lemma_furthest_is_one(lux: Seq<Double>, least: Double)
    ensures
        crate::state::furthest(lux, least) == least || lux.contains(crate::state::furthest(lux, least)),
    decreases lux.len(),
{
    if lux.len() > 0 {
        let shorter = lux.drop_last();
        let f = crate::state::furthest(lux, least);
        lemma_furthest_is_one(shorter, least);
        assert(lux[lux.len() - 1] == lux.last());
        if shorter.contains(f) {
            let k = choose|k: int| 0 <= k < shorter.len() && shorter[k] == f;
            assert(lux[k] == f);
        }
    }
}

/// A level in thousandths is the nearest of them, but for rounding.
pub proof fn law_levels_are_rounded_to_thousandths(y: Double) -> (w: int)
    requires
        crate::lesson_laws::proper_level(y),
    ensures
        crate::state::to_thousandths(y).finite(),
        0 <= w <= 1000,
        crate::measure::abs(1000 as real * crate::measure::value(y) - w as real) <= 1 as real / 2 as real + 1 as real
            / 0x100_0000_0000 as real,
        crate::measure::abs(1000 as real * crate::measure::value(crate::state::to_thousandths(y)) - w as real) <= 1 as real
            / 0x100_0000_0000 as real,
{
    let thousand = Double::from_bits(THOUSAND);
    let e = crate::measure::epsilon();
    let v = crate::measure::value(y);
    crate::measure::lemma_constants();
    crate::measure::lemma_small();
    crate::lesson_laws::lemma_proper(y);
    let m = y.times(thousand);
    assert(v * (1000 as real) == 1000 as real * v);
    crate::measure::lemma_times(y, thousand);
    crate::measure::lemma_part_of_error(e, v * (1000 as real), 1000 as real);
    crate::measure::lemma_times_at_most(y, thousand, thousand);
    crate::measure::lemma_value_order(m, thousand);
    crate::measure::lemma_times_at_least(y, thousand, Double::from_bits(ZERO));
    crate::measure::lemma_value_order(Double::from_bits(ZERO), m);
    let w = crate::measure::lemma_rounded(m);
    assert(crate::measure::whole(0) == 0 as real);
    assert(crate::measure::whole(1000) == 1000 as real);
    let n = m.rounded();
    let q = crate::measure::value(n) / 1000 as real;
    crate::measure::lemma_over(n, thousand);
    crate::measure::lemma_part_of_error(e, q, 2 as real);
    w
}

/// A resampled level is that of the stored curve at its reference point, to a thousandth.
pub proof fn law_resampled_levels_are_those_of_the_curve(
    lux: Seq<Double>,
    y: Seq<Double>,
    lux_points: Seq<Double>,
    k: int,
)
    requires
        0 <= k < lux_points.len(),
        ({
            let range = crate::curve::safe_range(crate::state::stored_range(lux, lux_points));
            let points = crate::curve::levelled(crate::curve::sorted(crate::curve::all_placed(lux, y, range)));
            crate::lesson_laws::proper_level(
                crate::curve::level(
                    points,
                    crate::curve::tangents(points),
                    crate::curve::normalized(lux_points[k], range),
                ),
            )
        }),
    ensures
        ({
            let range = crate::curve::safe_range(crate::state::stored_range(lux, lux_points));
            let points = crate::curve::levelled(crate::curve::sorted(crate::curve::all_placed(lux, y, range)));
            let level = crate::curve::level(
                points,
                crate::curve::tangents(points),
                crate::curve::normalized(lux_points[k], range),
            );
            let r = crate::state::resampled(lux, y, lux_points);
            &&& r.len() == lux_points.len()
            &&& crate::measure::abs(crate::measure::value(r[k]) - crate::measure::value(level)) <= 1 as real / 1999 as real
        }),
{
    let range = crate::curve::safe_range(crate::state::stored_range(lux, lux_points));
    let points = crate::curve::levelled(crate::curve::sorted(crate::curve::all_placed(lux, y, range)));
    let level = crate::curve::level(
        points,
        crate::curve::tangents(points),
        crate::curve::normalized(lux_points[k], range),
    );
    let w = law_levels_are_rounded_to_thousandths(level);
}

/// An older level lies at the light that its exponential gives, less one, but at the last reference point at most.
pub proof fn law_older_levels_lie_at_their_exponentials(powers: Seq<Double>, lux_points: Seq<Double>, i: int)
    requires
        0 <= i < powers.len(),
        powers[i].finite(),
        1 as real <= crate::measure::value(powers[i]) <= 0x1_0000_0000 as real,
        lux_points.len() > 0,
        lux_points.last().finite(),
    ensures
        ({
            let l = crate::measure::value(crate::state::legacy_lights(powers, lux_points)[i]);
            let exact = crate::measure::value(powers[i]) - 1 as real;
            let most = crate::measure::value(lux_points.last());
            &&& crate::state::legacy_lights(powers, lux_points).len() == powers.len()
            &&& l <= most
            &&& exact <= most ==> crate::measure::abs(l - exact) <= 1 as real / 0x10_0000 as real
            &&& exact >= most + 1 as real / 0x10_0000 as real ==> l == most
        }),
{
    let one = Double::from_bits(ONE);
    let most = lux_points.last();
    crate::measure::lemma_constants();
    crate::measure::lemma_small();
    crate::measure::lemma_minus(powers[i], one);
    crate::measure::lemma_part_of_error(
        crate::measure::epsilon(),
        crate::measure::value(powers[i]) - 1 as real,
        0x1_0000_0000 as real,
    );
    crate::measure::lemma_value_order(most, powers[i].minus(one));
}

// ---------------------------------------------------------------------------
// Default levels
// ---------------------------------------------------------------------------

/// The places of `count` points are spread evenly from zero to one.
pub proof fn law_places_are_even(i: int, count: nat)
    requires
        2 <= count <= 0x1_0000_0000,
        0 <= i < count,
    ensures
        crate::state::place(i, count).finite(),
        0 as real <= crate::measure::value(crate::state::place(i, count)) <= 1 as real,
        crate::measure::abs(
            crate::measure::value(crate::state::place(i, count)) * ((count - 1) as real) - i as real,
        ) <= 2 as real * crate::measure::epsilon() * ((count - 1) as real),
{
    let e = crate::measure::epsilon();
    let zero = Double::from_bits(ZERO);
    let one = Double::from_bits(ONE);
    crate::measure::lemma_constants();
    crate::measure::lemma_small();
    crate::measure::lemma_of_int(i);
    crate::measure::lemma_of_int(count - 1);
    let a = Double::of_int(i);
    let b = Double::of_int(count - 1);
    crate::measure::lemma_positive(b);
    let x = i as real;
    let y = (count - 1) as real;
    let q = x / y;
    assert(0 as real <= q <= 1 as real && q * y == x) by (nonlinear_arith)
        requires
            0 as real <= x <= y,
            y >= 1 as real,
            q == x / y,
    ;
    assert(0 as real * y == 0 as real && 1 as real * y == y);
    crate::measure::lemma_over(a, b);
    crate::measure::lemma_part_of_error(e, q, 1 as real);
    crate::measure::lemma_over_at_least(a, b, zero);
    crate::measure::lemma_over_at_most(a, b, one);
    crate::measure::lemma_value_order(zero, a.over(b));
    crate::measure::lemma_value_order(a.over(b), one);
    let v = crate::measure::value(a.over(b));
    let d = v - q;
    crate::algebra::lemma_scaled(d, y, 2 as real * e);
    crate::algebra::lemma_distribute(v, q, y);
}

/// A default level rises with the power of its place from a twentieth to one.
pub proof fn law_default_levels_follow_the_power(p: Double)
    requires
        crate::curve_laws::in_unit(p),
    ensures
        crate::measure::abs(
            crate::measure::value(crate::state::default_level(p)) - (1 as real / 20 as real + 19 as real
                * crate::measure::value(p) / 20 as real),
        ) <= 1 as real / 1999 as real,
{
    let low = Double::from_bits(BARE_LEVEL);
    let one = Double::from_bits(ONE);
    let zero = Double::from_bits(ZERO);
    let thousand = Double::from_bits(THOUSAND);
    let e = crate::measure::epsilon();
    crate::measure::lemma_constants();
    crate::measure::lemma_small();
    crate::measure::lemma_twentieth();
    crate::measure::lemma_value_order(zero, p);
    crate::measure::lemma_value_order(p, one);
    let l = crate::measure::value(low);
    let v = crate::measure::value(p);
    crate::measure::lemma_minus(one, low);
    crate::measure::lemma_part_of_error(e, 1 as real - l, 1 as real);
    let c = one.minus(low);
    let k = crate::measure::value(c);
    crate::algebra::lemma_product_bound(k, v, 1 as real, 1 as real);
    crate::measure::lemma_times(c, p);
    crate::measure::lemma_part_of_error(e, k * v, 1 as real);
    let m = c.times(p);
    let mv = crate::measure::value(m);
    let f = k - 19 as real / 20 as real;
    crate::algebra::lemma_scaled(f, v, 2 as real * e);
    crate::algebra::lemma_scaled_up(v, 1 as real, 2 as real * e);
    crate::algebra::lemma_distribute(k, 19 as real / 20 as real, v);
    assert((19 as real / 20 as real) * v == 19 as real * v / 20 as real);
    crate::measure::lemma_plus(low, m);
    crate::measure::lemma_part_of_error(e, l + mv, 2 as real);
    let y = low.plus(m);
    let exact = 1 as real / 20 as real + 19 as real * v / 20 as real;
    let yv = crate::measure::value(y);
    assert(crate::measure::abs(yv - exact) <= 10 as real * e);
    assert(yv * (1000 as real) == 1000 as real * yv);
    crate::measure::lemma_times(y, thousand);
    crate::measure::lemma_part_of_error(e, yv * (1000 as real), 2000 as real);
    let t = y.times(thousand);
    let w = crate::measure::lemma_rounded(t);
    let n = t.rounded();
    let q = crate::measure::value(n) / 1000 as real;
    crate::measure::lemma_over(n, thousand);
    crate::measure::lemma_part_of_error(e, q, 2 as real);
}

/// There is a default level for each power; a single point has a half, and without points the curve has two levels.
pub proof fn law_default_levels_are_as_many(count: nat, powers: Seq<Double>)
    ensures
        count >= 2 ==> crate::state::default_levels(count, powers).len() == powers.len(),
        count == 1 ==> crate::state::default_levels(count, powers).len() == 1 && crate::measure::value(
            crate::state::default_levels(count, powers)[0],
        ) == 1 as real / 2 as real,
        count == 0 ==> crate::state::default_levels(count, powers).len() == 2 && crate::measure::abs(
            crate::measure::value(crate::state::default_levels(count, powers)[0]) - 1 as real / 20 as real,
        ) <= crate::measure::epsilon() && crate::measure::value(crate::state::default_levels(count, powers)[1]) == 1 as real,
{
    crate::measure::lemma_constants();
    crate::measure::lemma_small();
    crate::measure::lemma_twentieth();
}

} // verus!
