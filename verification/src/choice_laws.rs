//! Which point a lesson is about, when the light counts as changed, and what counts as a manual change.

use vstd::prelude::*;
use crate::curve::{ClightCurve, Point};
use crate::double::Double;
use crate::double::{ONE, ZERO};
use crate::engine::{Engine, HoldChange};

verus! {

// ---------------------------------------------------------------------------
// The point of a lesson
// ---------------------------------------------------------------------------

/// The distance of two places on the light axis.
pub open spec fn apart(a: Double, b: Double) -> real {
    crate::measure::abs(crate::measure::value(a) - crate::measure::value(b))
}

/// The computed distance of two places is a finite number and near the exact one.
proof fn lemma_apart(a: Double, b: Double)
    requires
        crate::curve_laws::in_unit(a),
        crate::curve_laws::in_unit(b),
    ensures
        ({
            let d = a.minus(b).absolute();
            &&& d.finite()
            &&& d.less(Double::from_bits(crate::curve::GREATEST))
            &&& 0 as real <= crate::measure::value(d) <= 1 as real
            &&& crate::measure::abs(crate::measure::value(d) - apart(a, b)) <= crate::measure::epsilon()
        }),
{
    let zero = Double::from_bits(ZERO);
    let one = Double::from_bits(ONE);
    let e = crate::measure::epsilon();
    crate::measure::lemma_constants();
    crate::measure::lemma_small();
    crate::measure::lemma_value_order(zero, a);
    crate::measure::lemma_value_order(a, one);
    crate::measure::lemma_value_order(zero, b);
    crate::measure::lemma_value_order(b, one);
    crate::measure::lemma_minus(a, b);
    crate::measure::lemma_negated(one);
    crate::measure::lemma_part_of_error(e, crate::measure::value(a) - crate::measure::value(b), 1 as real);
    crate::measure::lemma_minus_at_most(a, b, one);
    crate::measure::lemma_minus_at_least(a, b, one.negated());
    let m = a.minus(b);
    crate::measure::lemma_value_order(m, one);
    crate::measure::lemma_value_order(one.negated(), m);
    crate::measure::lemma_absolute(m);
    let d = m.absolute();
    crate::measure::lemma_value_order(d, one);
    assert(one.less(Double::from_bits(crate::curve::GREATEST)));
}

/// Of the points the one that a lesson at the place `x` is about is the nearest, whatever `x` is: none is
/// nearer, and none before it is as near.
pub proof fn law_nearest_point_is_found(points: Seq<Point>, x: Double)
    requires
        points.len() > 0,
        forall|i: int| 0 <= i < points.len() ==> crate::curve_laws::in_unit((#[trigger] points[i]).x),
        crate::curve_laws::in_unit(x),
    ensures
        ({
            let p = crate::lesson::closest(points, x).0;
            let d = points[p].x.minus(x).absolute();
            &&& 0 <= p < points.len()
            &&& crate::lesson::closest(points, x).1 == d
            &&& forall|j: int|
                0 <= j < points.len() ==> {
                    &&& d.at_most((#[trigger] points[j]).x.minus(x).absolute())
                    &&& j < p ==> d.less(points[j].x.minus(x).absolute())
                    &&& apart(points[p].x, x) <= apart(points[j].x, x) + 2 as real * crate::measure::epsilon()
                }
        }),
    decreases points.len(),
{
    let n = points.len() - 1;
    let shorter = points.drop_last();
    let e = points[n].x.minus(x).absolute();
    assert(points.last() == points[n]);
    lemma_apart(points[n].x, x);
    let (p, d) = crate::lesson::closest(points, x);
    if n > 0 {
        assert forall|i: int| 0 <= i < shorter.len() implies crate::curve_laws::in_unit((#[trigger] shorter[i]).x) by {
            assert(shorter[i] == points[i]);
        }
        law_nearest_point_is_found(shorter, x);
        let (q, f) = crate::lesson::closest(shorter, x);
        assert(shorter[q] == points[q]);
        lemma_apart(points[q].x, x);
        crate::measure::lemma_value_order(e, f);
        crate::measure::lemma_value_order(f, e);
        assert forall|j: int| 0 <= j < points.len() implies {
            &&& d.at_most((#[trigger] points[j]).x.minus(x).absolute())
            &&& j < p ==> d.less(points[j].x.minus(x).absolute())
            &&& apart(points[p].x, x) <= apart(points[j].x, x) + 2 as real * crate::measure::epsilon()
        } by {
            lemma_apart(points[j].x, x);
            lemma_apart(points[p].x, x);
            let g = points[j].x.minus(x).absolute();
            if j < n {
                assert(shorter[j] == points[j]);
                crate::measure::lemma_value_order(f, g);
            }
            crate::measure::lemma_value_order(d, g);
        }
    } else {
        assert(shorter.len() == 0);
        reveal_with_fuel(crate::lesson::closest, 2);
        assert forall|j: int| 0 <= j < points.len() implies {
            &&& d.at_most((#[trigger] points[j]).x.minus(x).absolute())
            &&& apart(points[p].x, x) <= apart(points[j].x, x) + 2 as real * crate::measure::epsilon()
        } by {
            assert(j == 0);
            crate::measure::lemma_small();
        }
    }
}

/// A light as a part of the range, held to it, as a real number.
pub open spec fn place_of(lux: Double, max_lux: Double) -> real {
    let l = crate::measure::value(lux);
    let m = crate::measure::value(max_lux);
    if l <= 0 as real {
        0 as real
    } else if m <= l {
        1 as real
    } else {
        l / m
    }
}

/// The place of a finite light in a finite range is computed to within rounding.
pub proof fn lemma_place(lux: Double, max_lux: Double)
    requires
        lux.finite(),
        max_lux.finite(),
        Double::from_bits(ZERO).less(max_lux),
    ensures
        ({
            let x = lux.over(max_lux).clamp(Double::from_bits(ZERO), Double::from_bits(ONE));
            &&& crate::curve_laws::in_unit(x)
            &&& x.finite()
            &&& crate::measure::abs(crate::measure::value(x) - place_of(lux, max_lux)) <= 2 as real
                * crate::measure::epsilon()
        }),
{
    let zero = Double::from_bits(ZERO);
    let one = Double::from_bits(ONE);
    let l = crate::measure::value(lux);
    let m = crate::measure::value(max_lux);
    crate::measure::lemma_constants();
    crate::measure::lemma_small();
    crate::measure::lemma_value_order(zero, max_lux);
    crate::measure::lemma_positive(max_lux);
    let q = lux.over(max_lux);
    assert(0 as real * m == 0 as real && 1 as real * m == m);
    assert(!q.is_nan()) by {
        reveal(Double::spec_over);
        crate::double::lemma_units_order(max_lux.magnitude(), 0);
        crate::double::lemma_round_ratio(
            crate::double::units(lux.magnitude()) * crate::double::one_in_units(),
            crate::double::units(max_lux.magnitude()),
        );
    }
    if l <= 0 as real {
        crate::measure::lemma_over_at_most(lux, max_lux, zero);
    } else if m <= l {
        crate::measure::lemma_over_at_least(lux, max_lux, one);
    } else {
        crate::limits::lemma_quotient(l, m);
        crate::measure::lemma_over_at_least(lux, max_lux, zero);
        crate::measure::lemma_over_at_most(lux, max_lux, one);
        crate::measure::lemma_value_order(zero, q);
        crate::measure::lemma_value_order(q, one);
        crate::measure::lemma_finite_quotient(lux, max_lux);
        let r = l / m;
        if r > 1 as real {
            assert(r * m > m) by (nonlinear_arith)
                requires
                    r > 1 as real,
                    m > 0 as real,
            ;
        }
        crate::measure::lemma_part_of_error(crate::measure::epsilon(), r, 1 as real);
    }
    let x = q.clamp(zero, one);
    crate::measure::lemma_value_order(x, zero);
    crate::measure::lemma_value_order(x, one);
}

/// The light counts as the part of the range that it is, held to the range.
pub proof fn law_light_is_a_part_of_the_range(lux: Double, max_lux: Double)
    requires
        lux.finite(),
        max_lux.finite(),
        Double::from_bits(ZERO).less(max_lux),
    ensures
        crate::curve_laws::in_unit(crate::curve::normalized(lux, max_lux)),
        crate::measure::abs(
            crate::measure::value(crate::curve::normalized(lux, max_lux)) - place_of(lux, max_lux),
        ) <= 2 as real * crate::measure::epsilon(),
{
    crate::measure::lemma_constants();
    crate::measure::lemma_value_order(Double::from_bits(ZERO), max_lux);
    lemma_place(lux, max_lux);
}

/// The point that a lesson at any light is about is the one nearest to it: no other is nearer by more than
/// rounding.
pub proof fn law_lesson_is_about_the_nearest_point(c: &ClightCurve, lux: Double, j: int)
    requires
        c.points@.len() > 0,
        forall|i: int| 0 <= i < c.points@.len() ==> crate::curve_laws::in_unit((#[trigger] c.points@[i]).x),
        lux.finite(),
        c.max_lux.finite(),
        Double::from_bits(ZERO).less(c.max_lux),
        0 <= j < c.points@.len(),
    ensures
        0 <= c.pivot(lux) < c.points@.len(),
        ({
            let at = place_of(lux, c.max_lux);
            crate::measure::abs(crate::measure::value(c.points@[c.pivot(lux)].x) - at) <= crate::measure::abs(
                crate::measure::value(c.points@[j].x) - at,
            ) + 8 as real * crate::measure::epsilon()
        }),
{
    lemma_place(lux, c.max_lux);
    let x = lux.over(c.max_lux).clamp(Double::from_bits(ZERO), Double::from_bits(ONE));
    law_nearest_point_is_found(c.points@, x);
    assert(crate::curve_laws::in_unit(c.points@[j].x));
}

// ---------------------------------------------------------------------------
// Changes of the light
// ---------------------------------------------------------------------------

/// Every light, zero too, that differs from the active target's by both thresholds starts a hold where the
/// daemon watches and none runs; where one runs, it goes on, and starts anew exactly where the light also
/// differs from the one it began with.
pub proof fn law_light_beyond_the_band_is_held(e: &Engine, lux: Double, now: u64)
    requires
        !e.is_suspended,
        e.adjust_enabled,
        now - e.last_user_action >= 2_000_000_000,
        ({
            let delta = lux.minus(e.active_target_lux).absolute();
            &&& e.config.lux_hysteresis_abs.less(delta)
            &&& e.config.lux_hysteresis_ratio.at_most(
                delta.over(e.active_target_lux.greater_of(Double::from_bits(ONE))),
            )
        }),
    ensures
        e.hold_timer is None ==> e.hold_change(lux, now) == HoldChange::Started,
        e.hold_timer is Some ==> e.hold_change(lux, now) == ({
            let drift = lux.minus(e.hold_lux).absolute();
            if e.config.lux_hysteresis_abs.less(drift) && e.config.lux_hysteresis_ratio.at_most(
                drift.over(e.hold_lux.greater_of(Double::from_bits(ONE))),
            ) {
                HoldChange::Started
            } else {
                HoldChange::Kept
            }
        }),
{
}

/// A light that is back in the band ends a hold, where the daemon watches; and nothing else changes one.
pub proof fn law_light_in_the_band_ends_a_hold(e: &Engine, lux: Double, now: u64)
    requires
        !e.is_suspended,
        e.adjust_enabled,
        now - e.last_user_action >= 2_000_000_000,
        ({
            let delta = lux.minus(e.active_target_lux).absolute();
            ||| !e.config.lux_hysteresis_abs.less(delta)
            ||| !e.config.lux_hysteresis_ratio.at_most(
                delta.over(e.active_target_lux.greater_of(Double::from_bits(ONE))),
            )
        }),
    ensures
        e.hold_change(lux, now) == (if e.hold_timer is Some {
            HoldChange::Cancelled
        } else {
            HoldChange::Kept
        }),
{
}

/// The same in lux: with thresholds of `abs` lux and the part `ratio`, a light that is further from the
/// active target's than both, but for rounding, starts a hold.
pub proof fn law_change_in_lux_starts_a_hold(e: &Engine, lux: Double, now: u64)
    requires
        !e.is_suspended,
        e.adjust_enabled,
        now - e.last_user_action >= 2_000_000_000,
        e.hold_timer is None,
        lux.finite(),
        e.active_target_lux.finite(),
        e.config.lux_hysteresis_abs.finite(),
        e.config.lux_hysteresis_ratio.finite(),
        0 as real <= crate::measure::value(lux) <= 0x1_0000_0000 as real,
        0 as real <= crate::measure::value(e.active_target_lux) <= 0x1_0000_0000 as real,
        0 as real <= crate::measure::value(e.config.lux_hysteresis_abs),
        0 as real <= crate::measure::value(e.config.lux_hysteresis_ratio) <= 1 as real,
        ({
            let gap = crate::measure::abs(
                crate::measure::value(lux) - crate::measure::value(e.active_target_lux),
            );
            let center = crate::measure::value(e.active_target_lux);
            let base = if center < 1 as real {
                1 as real
            } else {
                center
            };
            &&& crate::measure::value(e.config.lux_hysteresis_abs) < gap - 1 as real / 1_000_000 as real
            &&& (crate::measure::value(e.config.lux_hysteresis_ratio) + 1 as real / 1_000_000 as real) * base <= gap
        }),
    ensures
        e.hold_change(lux, now) == HoldChange::Started,
{
    let ep = crate::measure::epsilon();
    let one = Double::from_bits(ONE);
    let c = e.active_target_lux;
    let m = lux.minus(c);
    let x = crate::measure::value(lux) - crate::measure::value(c);
    let gap = crate::measure::abs(x);
    crate::measure::lemma_constants();
    crate::measure::lemma_small();
    crate::measure::lemma_minus(lux, c);
    crate::measure::lemma_part_of_error(ep, x, 0x1_0000_0000 as real);
    crate::measure::lemma_absolute(m);
    let d = m.absolute();
    let dv = crate::measure::value(d);
    assert(crate::measure::abs(dv - gap) <= 1 as real / 0x10_0000 as real);
    crate::measure::lemma_value_order(e.config.lux_hysteresis_abs, d);
    let base = c.greater_of(one);
    crate::measure::lemma_value_order(c, one);
    crate::measure::lemma_value_order(one, c);
    let b = crate::measure::value(base);
    assert(base.finite() && b >= 1 as real);
    let r = crate::measure::value(e.config.lux_hysteresis_ratio);
    crate::algebra::lemma_sum(r, 1 as real / 1_000_000 as real, b);
    assert(r * b <= dv);
    crate::measure::lemma_positive(base);
    crate::measure::lemma_over_at_least(d, base, e.config.lux_hysteresis_ratio);
}

/// A hold is over as soon as its delay in milliseconds has passed, and no sooner.
pub proof fn law_hold_lasts_its_delay(e: &Engine, now: u64)
    requires
        !e.is_suspended,
    ensures
        e.hold_timer is None ==> !e.hold_is_over(now),
        e.hold_timer matches Some(start) ==> start <= now ==> (e.hold_is_over(now) <==> now - start
            >= e.config.auto_adjust_delay_ms * 1_000_000),
{
}

/// The curve is saved as soon as the user has left it alone for a second and a half, and no sooner.
pub proof fn law_save_waits_for_the_user(e: &Engine, now: u64)
    requires
        e.last_user_action <= now,
    ensures
        e.save_is_due(now) <==> e.pending_save && now - e.last_user_action >= 1_500_000_000,
{
}

/// The daemon waits for a tenth of a second where nothing is under way, and otherwise until what is due
/// first: the next frame, 25 milliseconds after the last, the end of the hold, or the time to save.
pub proof fn law_wait_lasts_until_what_is_due(e: &Engine, now: u64)
    requires
        e.last_anim_frame <= now,
        e.last_user_action <= now,
        e.hold_timer matches Some(start) ==> start <= now,
    ensures
        ({
            let w = e.patience(now);
            let frame = if e.is_animating {
                e.last_anim_frame + 25_000_000 - now
            } else {
                100_000_000int
            };
            let hold = match e.hold_timer {
                Some(start) => start + e.config.auto_adjust_delay_ms * 1_000_000 - now,
                None => 100_000_000int,
            };
            let save = if e.pending_save {
                e.last_user_action + 1_500_000_000 - now
            } else {
                100_000_000int
            };
            &&& w == 0 || w == frame || w == hold || w == save
            &&& w <= 100_000_000
            &&& w == 0 <==> frame <= 0 || hold <= 0 || save <= 0
            &&& w > 0 ==> w <= frame && w <= hold && w <= save
        }),
{
    assert(e.config.auto_adjust_delay_ms * 1_000_000 >= 0) by (nonlinear_arith);
}

// ---------------------------------------------------------------------------
// Manual changes
// ---------------------------------------------------------------------------

/// The threshold for manual changes is two percent of the raw range, to the nearest raw value, and one for
/// the small ranges.
pub proof fn law_manual_threshold_is_two_percent(hw_max: int)
    requires
        1 <= hw_max <= 0x1000_0000_0000,
    ensures
        ({
            let t = crate::engine::manual_threshold(Double::of_int(hw_max));
            &&& hw_max < 75 ==> t == 1
            &&& hw_max >= 75 ==> -25 <= 50 * t - hw_max <= 25
        }),
{
    let h = Double::of_int(hw_max);
    let c = Double::from_bits(crate::engine::MANUAL_DELTA_THRESHOLD_RATIO);
    let e = crate::measure::epsilon();
    crate::measure::lemma_small();
    crate::measure::lemma_of_int(hw_max);
    crate::measure::lemma_fiftieth();
    let v = crate::measure::value(c);
    let n = hw_max as real;
    let p = n * v;
    assert(crate::measure::abs(p - n / 50 as real) <= 1 as real / 1024 as real) by (nonlinear_arith)
        requires
            1 as real <= n <= 0x1000_0000_0000 as real,
            crate::measure::abs(v - 1 as real / 50 as real) <= 1 as real / 0x40_0000_0000_0000 as real,
            p == n * v,
    {
        let d = v - 1 as real / 50 as real;
        assert(p - n / 50 as real == n * d);
        assert(n * d <= n * (1 as real / 0x40_0000_0000_0000 as real));
        assert(n * d >= 0 as real - n * (1 as real / 0x40_0000_0000_0000 as real));
    }
    crate::measure::lemma_times(h, c);
    crate::measure::lemma_part_of_error(e, p, 0x1000_0000_0000 as real);
    let m = h.times(c);
    assert(crate::measure::abs(crate::measure::value(m) - n / 50 as real) <= 1 as real / 100 as real);
    let w = crate::measure::lemma_rounded(m);
    assert(crate::measure::abs(w as real - n / 50 as real) <= 1 as real / 2 as real + 1 as real / 100 as real);
    assert(50 as real * (w as real) == (50 * w) as real);
    assert((50 * w - hw_max) as real <= 25 as real + 1 as real / 2 as real);
    assert((50 * w - hw_max) as real >= 0 as real - 25 as real - 1 as real / 2 as real);
    assert(-25 <= 50 * w - hw_max <= 25);
}

/// What the user does is noticed: a raw value counts as the user's where it is three percent of the range
/// or more, and one raw value at least, away from what was written last; one that is less than one percent
/// away, or not away at all, does not.
pub proof fn law_manual_changes_are_noticed(e: &Engine, hw_max: int, hw: i64)
    requires
        1 <= hw_max <= 0x1000_0000_0000,
        e.manual_delta_threshold == crate::engine::manual_threshold(Double::of_int(hw_max)),
    ensures
        ({
            let change = if hw < e.last_written_br {
                e.last_written_br - hw
            } else {
                hw - e.last_written_br
            };
            &&& change >= 1 && 100 * change >= 3 * hw_max ==> e.is_users(hw)
            &&& change == 0 || (hw_max >= 75 && 100 * change < hw_max) ==> !e.is_users(hw)
            &&& e.is_users(hw) <==> change >= e.manual_delta_threshold
        }),
{
    law_manual_threshold_is_two_percent(hw_max);
}

} // verus!
