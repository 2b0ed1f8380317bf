//! How the backlight moves: where a transition starts, how long it takes, and where it is on its way.

use vstd::prelude::*;
use crate::config::DaemonConfig;
use crate::double::Double;
use crate::double::{ONE, THREE, TWO, ZERO};
use crate::engine::Engine;

verus! {

/// The smoothstep is `3t^2 - 2t^3`, but for rounding.
pub proof fn law_smoothstep_is_cubic(t: Double)
    requires
        t.finite(),
        0 as real <= crate::measure::value(t) <= 1 as real,
    ensures
        ({
            let x = crate::measure::value(t);
            crate::between::near(
                crate::engine::smoothstep(t),
                3 as real * (x * x) - 2 as real * (x * x * x),
                64 as real,
            )
        }),
{
    let x = crate::measure::value(t);
    let two = Double::from_bits(TWO);
    let three = Double::from_bits(THREE);
    let zero = 0 as real;
    let one = 1 as real;
    crate::measure::lemma_constants();
    crate::cubic::lemma_basis_bounds(x);
    crate::between::lemma_near_itself(t);
    crate::between::lemma_near_itself(two);
    crate::between::lemma_near_itself(three);
    let s = x * x;
    let t2 = t.times(t);
    crate::between::lemma_near_times(t, x, zero, t, x, zero, one, one);
    crate::between::lemma_near_wider(t2, s, zero * one + zero * one + one * one + 4 as real, 5 as real);
    let m = two.times(t);
    crate::between::lemma_near_times(two, 2 as real, zero, t, x, zero, 2 as real, one);
    crate::between::lemma_near_wider(m, 2 as real * x, zero * one + zero * (2 as real) + 2 as real * one + 4 as real, 6 as real);
    crate::between::lemma_near_minus(three, 3 as real, zero, m, 2 as real * x, 6 as real, 3 as real);
    let f = three.minus(m);
    crate::between::lemma_near_wider(f, 3 as real - 2 as real * x, zero + 6 as real + 3 as real + one, 10 as real);
    crate::between::lemma_near_times(t2, s, 5 as real, f, 3 as real - 2 as real * x, 10 as real, one, 3 as real);
    crate::between::lemma_near_wider(
        crate::engine::smoothstep(t),
        s * (3 as real - 2 as real * x),
        5 as real * (3 as real) + 10 as real * one + one * (3 as real) + 4 as real,
        64 as real,
    );
    assert(s * (3 as real - 2 as real * x) == 3 as real * (x * x) - 2 as real * (x * x * x)) by (nonlinear_arith)
        requires
            s == x * x,
    ;
}

/// A frame at the part `t` of a transition is the raw value nearest to the smoothstep's between start and
/// target, but for rounding.
pub proof fn law_frame_is_on_the_smoothstep(start: i64, target: i64, t: Double)
    requires
        -0x100_0000_0000 <= start <= 0x100_0000_0000,
        -0x100_0000_0000 <= target <= 0x100_0000_0000,
        t.finite(),
        0 as real <= crate::measure::value(t) <= 1 as real,
    ensures
        ({
            let x = crate::measure::value(t);
            let next = crate::engine::on_the_way(start, target, crate::engine::smoothstep(t));
            let exact = start as real + (target - start) as real * (3 as real * (x * x) - 2 as real * (x * x * x));
            crate::measure::abs(next as real - exact) <= 1 as real / 2 as real + 1 as real / 8 as real
        }),
{
    let e = crate::measure::epsilon();
    let x = crate::measure::value(t);
    let s = crate::engine::smoothstep(t);
    let y = 3 as real * (x * x) - 2 as real * (x * x * x);
    let n = (target - start) as int;
    crate::measure::lemma_small();
    law_smoothstep_is_cubic(t);
    crate::cubic::lemma_basis_bounds(x);
    crate::between::lemma_few(64 as real);
    crate::measure::lemma_of_int(start as int);
    crate::measure::lemma_of_int(n);
    let from = Double::of_int(start as int);
    let step = Double::of_int(n);
    let d = n as real;
    let v = crate::measure::value(s);
    let bound = 0x200_0000_0000 as real;
    assert(0 as real - bound <= d <= bound);
    assert(-2 as real <= v <= 2 as real);
    let dv = d * v;
    let dy = d * y;
    assert(0 as real - 2 as real * bound <= dv <= 2 as real * bound) by (nonlinear_arith)
        requires
            0 as real - bound <= d <= bound,
            -2 as real <= v <= 2 as real,
            dv == d * v,
            bound > 0 as real,
    ;
    assert(crate::measure::abs(dv - dy) <= 1 as real / 16 as real) by (nonlinear_arith)
        requires
            0 as real - bound <= d <= bound,
            bound == 0x200_0000_0000 as real,
            crate::measure::abs(v - y) <= 64 as real * (1 as real / 0x10_0000_0000_0000 as real),
            dv == d * v,
            dy == d * y,
    {
        let g = v - y;
        let k = 64 as real * (1 as real / 0x10_0000_0000_0000 as real);
        assert(dv - dy == d * g);
        assert(d * g <= bound * k);
        assert(d * g >= 0 as real - bound * k);
    }
    crate::measure::lemma_times(step, s);
    crate::measure::lemma_part_of_error(e, dv, 2 as real * bound);
    let m = crate::measure::value(step.times(s));
    let z = start as real + m;
    crate::measure::lemma_plus(from, step.times(s));
    crate::measure::lemma_part_of_error(e, z, 4 as real * bound);
    let w = crate::measure::lemma_rounded(from.plus(step.times(s)));
}

/// Before any of a transition is over, its frame is its start.
pub proof fn law_first_frame_is_the_start(start: i64, target: i64, t: Double)
    requires
        crate::engine_laws::moderate(start),
        crate::engine_laws::moderate(target),
        t.same(Double::from_bits(ZERO)),
    ensures
        crate::engine::on_the_way(start, target, crate::engine::smoothstep(t)) == start,
{
    let zero = Double::from_bits(ZERO);
    let two = Double::from_bits(TWO);
    let three = Double::from_bits(THREE);
    let n = (target - start) as int;
    crate::measure::lemma_constants();
    crate::measure::lemma_value_order(t, zero);
    crate::measure::lemma_exact_product(t, t, zero);
    crate::measure::lemma_exact_product(two, t, zero);
    crate::measure::lemma_exact_difference(three, two.times(t), three);
    assert(0 as real * (3 as real) == 0 as real);
    crate::measure::lemma_exact_product(t.times(t), three.minus(two.times(t)), zero);
    let s = crate::engine::smoothstep(t);
    crate::measure::lemma_of_int(start as int);
    crate::measure::lemma_of_int(n);
    let from = Double::of_int(start as int);
    let step = Double::of_int(n);
    assert(n as real * (0 as real) == 0 as real);
    crate::measure::lemma_exact_product(step, s, zero);
    crate::measure::lemma_exact_sum(from, step.times(s), from);
    let w = crate::measure::lemma_rounded(from.plus(step.times(s)));
    assert(crate::measure::whole(start as int) == start as real);
}

/// The part of a transition that is over is the part of its duration that has passed, in whole
/// milliseconds, and all of it where that has passed.
pub proof fn law_progress_is_the_part_of_the_time(nanoseconds: u64, total: Double)
    requires
        total.finite(),
        crate::measure::value(total) > 0 as real,
    ensures
        ({
            let ms = (nanoseconds as int / 1_000_000) as real;
            let v = crate::measure::value(total);
            let done = crate::engine::progress(nanoseconds, total);
            &&& done.finite()
            &&& 0 as real <= crate::measure::value(done) <= 1 as real
            &&& v <= ms ==> crate::measure::value(done) == 1 as real
            &&& ms < v ==> crate::measure::abs(crate::measure::value(done) - ms / v) <= 2 as real
                * crate::measure::epsilon()
            &&& nanoseconds < 1_000_000 ==> crate::measure::value(done) == 0 as real
        }),
{
    let zero = Double::from_bits(ZERO);
    let one = Double::from_bits(ONE);
    let ms = nanoseconds as int / 1_000_000;
    let n = Double::of_int(ms);
    let v = crate::measure::value(total);
    crate::measure::lemma_constants();
    crate::measure::lemma_small();
    crate::measure::lemma_of_int(ms);
    crate::measure::lemma_positive(total);
    crate::measure::lemma_value_order(zero, total);
    crate::engine_laws::law_transition_ends(nanoseconds, total);
    let done = crate::engine::progress(nanoseconds, total);
    crate::measure::lemma_value_order(zero, done);
    crate::measure::lemma_value_order(done, one);
    if (ms as real) < v {
        let q = ms as real / v;
        assert(0 as real * v == 0 as real && 1 as real * v == v);
        crate::limits::lemma_quotient(ms as real, v);
        crate::measure::lemma_over_at_least(n, total, zero);
        crate::measure::lemma_over_at_most(n, total, one);
        let p = n.over(total);
        crate::measure::lemma_value_order(zero, p);
        crate::measure::lemma_value_order(p, one);
        crate::measure::lemma_finite_quotient(n, total);
        if q > 1 as real {
            assert(q * v > v) by (nonlinear_arith)
                requires
                    q > 1 as real,
                    v > 0 as real,
            ;
        }
        crate::measure::lemma_part_of_error(crate::measure::epsilon(), q, 1 as real);
        if ms == 0 {
            crate::measure::lemma_over_at_most(n, total, zero);
            crate::measure::lemma_value_order(p, zero);
        }
    }
}

/// The durations of a configuration, and the range that a step is a part of, are such that a duration is
/// computed without a visible error.
pub open spec fn plain_durations(config: &DaemonConfig, span: Double) -> bool {
    &&& config.min_transition_duration_ms <= 0x1_0000_0000
    &&& config.transition_duration_ms <= 0x1_0000_0000
    &&& span.finite()
    &&& 1 as real <= crate::measure::value(span)
}

/// A transition takes, to the nearest millisecond, its shortest duration and the part of what is left to
/// the longest whose square is the part of the range that the step is; but for rounding. Neither duration
/// is less than 50 milliseconds, and the longest is no less than the shortest. One that is not adaptive
/// always takes the longest.
pub proof fn law_duration_grows_with_the_root_of_the_step(config: &DaemonConfig, span: Double, step: int) -> (root: real)
    requires
        plain_durations(config, span),
        0 <= step <= 0x1000_0000_0000,
    ensures
        ({
            let least = if config.min_transition_duration_ms < 50 {
                50
            } else {
                config.min_transition_duration_ms as int
            };
            let most = if config.transition_duration_ms < least {
                least
            } else {
                config.transition_duration_ms as int
            };
            let total = crate::engine::transition_ms(config, span, step);
            let share = step as real / crate::measure::value(span);
            let part = if share > 1 as real {
                1 as real
            } else {
                share
            };
            &&& total.finite()
            &&& config.adaptive_transition ==> {
                &&& 0 as real <= root <= 1 as real
                &&& crate::measure::abs(root * root - part) <= 4 as real * crate::measure::epsilon()
                &&& crate::measure::abs(
                    crate::measure::value(total) - (least as real + (most - least) as real * root),
                ) <= 1 as real / 2 as real + 1 as real / 1000 as real
            }
            &&& !config.adaptive_transition ==> crate::measure::value(total) == (if config.transition_duration_ms < 50 {
                50 as real
            } else {
                config.transition_duration_ms as real
            })
        }),
{
    let least = if config.min_transition_duration_ms < 50 {
        50u64
    } else {
        config.min_transition_duration_ms
    };
    let most = if config.transition_duration_ms < least {
        least
    } else {
        config.transition_duration_ms
    };
    let e = crate::measure::epsilon();
    let zero = Double::from_bits(ZERO);
    let one = Double::from_bits(ONE);
    crate::measure::lemma_small();
    crate::measure::lemma_constants();
    crate::measure::lemma_of_int(least as int);
    crate::measure::lemma_of_int(most as int);
    crate::measure::lemma_of_int(config.transition_duration_ms as int);
    crate::measure::lemma_of_int(50);
    if config.adaptive_transition {
        let shortest = Double::of_int(least as int);
        let longest = Double::of_int(most as int);
        assert(shortest.to_u64() == least) by {
            vstd::arithmetic::power2::lemma_pow2_pos(1074);
            vstd::arithmetic::div_mod::lemma_div_by_multiple(least as int, crate::double::one_in_units() as int);
        }
        let v = crate::measure::value(span);
        let n = Double::of_int(step);
        crate::measure::lemma_of_int(step);
        crate::measure::lemma_positive(span);
        crate::measure::lemma_value_order(one, span);
        let p = n.over(span).clamp(zero, one);
        lemma_share(step, span);
        crate::measure::lemma_root_below_one(p);
        let r = p.square_root();
        let x = crate::measure::value(r);
        let k = most - least;
        crate::measure::lemma_of_int(k);
        crate::measure::lemma_exact_difference(longest, shortest, Double::of_int(k));
        let range = longest.minus(shortest);
        let kx = k as real * x;
        assert(0 as real <= kx <= 0x1_0000_0000 as real) by (nonlinear_arith)
            requires
                0 as real <= x <= 1 as real,
                0 as real <= k as real <= 0x1_0000_0000 as real,
                kx == k as real * x,
        ;
        crate::measure::lemma_times(range, r);
        crate::measure::lemma_part_of_error(e, kx, 0x1_0000_0000 as real);
        let m = range.times(r);
        let y = least as real + crate::measure::value(m);
        crate::measure::lemma_plus(shortest, m);
        crate::measure::lemma_part_of_error(e, y, 0x4_0000_0000 as real);
        let w = crate::measure::lemma_rounded(shortest.plus(m));
        x
    } else {
        0 as real
    }
}

/// The part of the range that a step is, at most all of it.
proof fn lemma_share(step: int, span: Double)
    requires
        0 <= step <= 0x1000_0000_0000,
        span.finite(),
        1 as real <= crate::measure::value(span),
    ensures
        ({
            let p = Double::of_int(step).over(span).clamp(Double::from_bits(ZERO), Double::from_bits(ONE));
            let share = step as real / crate::measure::value(span);
            &&& p.finite()
            &&& !p.negative()
            &&& 0 as real <= crate::measure::value(p) <= 1 as real
            &&& crate::measure::abs(crate::measure::value(p) - (if share > 1 as real {
                1 as real
            } else {
                share
            })) <= 2 as real * crate::measure::epsilon()
        }),
{
    let zero = Double::from_bits(ZERO);
    let one = Double::from_bits(ONE);
    let v = crate::measure::value(span);
    let n = Double::of_int(step);
    crate::measure::lemma_constants();
    crate::measure::lemma_small();
    crate::measure::lemma_of_int(step);
    crate::measure::lemma_positive(span);
    let q = step as real / v;
    crate::limits::lemma_quotient(step as real, v);
    assert(0 as real * v == 0 as real && 1 as real * v == v);
    crate::measure::lemma_over_at_least(n, span, zero);
    crate::tangents::lemma_clear_over(n, span);
    let p = n.over(span);
    if q > 1 as real {
        assert(q * v > v) by (nonlinear_arith)
            requires
                q > 1 as real,
                v > 0 as real,
        ;
        crate::measure::lemma_over_at_least(n, span, one);
    } else {
        assert(q * v <= v) by (nonlinear_arith)
            requires
                q <= 1 as real,
                v > 0 as real,
        ;
        crate::measure::lemma_over_at_most(n, span, one);
        crate::measure::lemma_value_order(zero, p);
        crate::measure::lemma_value_order(p, one);
        crate::measure::lemma_finite_quotient(n, span);
        crate::measure::lemma_part_of_error(crate::measure::epsilon(), q, 1 as real);
    }
    let c = p.clamp(zero, one);
    crate::measure::lemma_value_order(c, one);
    crate::measure::lemma_value_order(c, zero);
}

/// Where the raw value of the target is another one than that of the transition under way, a transition
/// starts at what the backlight shows: its first frame is that value, every frame lies between it and the
/// new target, and the last is the target.
pub proof fn law_transition_starts_where_the_backlight_is(e: &Engine, now: u64, later: u64)
    requires
        !e.is_suspended,
        e.backlight.raw_for(e.current_target_br) != e.anim_target_br,
        crate::engine_laws::moderate(e.current_hw_br),
        crate::engine_laws::moderate(e.backlight.raw_for(e.current_target_br)),
        crate::engine_laws::exact_durations(&e.config),
        e.backlight.min_allowed_raw.finite(),
        e.backlight.max_allowed_raw.finite(),
        crate::backlight::span(e.backlight.min_allowed_raw, e.backlight.max_allowed_raw).finite(),
        now <= later,
    ensures
        ({
            let target = e.backlight.raw_for(e.current_target_br);
            let h = e.headed(now);
            &&& h.is_animating
            &&& h.anim_start_time == now
            &&& h.anim_start_br == e.current_hw_br
            &&& h.anim_target_br == target
            &&& h.current_hw_br == e.current_hw_br
            &&& h.next_value(now) == e.current_hw_br
            &&& (e.current_hw_br <= h.next_value(later) <= target) || (target <= h.next_value(later)
                <= e.current_hw_br)
            &&& Double::from_bits(ONE).at_most(h.transition_progress(later)) ==> h.next_value(later) == target
        }),
{
    let h = e.headed(now);
    lemma_frames(&h, now);
    lemma_frames(&h, later);
    let span = crate::backlight::span(h.backlight.min_allowed_raw, h.backlight.max_allowed_raw);
    let step = crate::engine::distance(h.anim_target_br as int, h.anim_start_br as int);
    crate::engine_laws::law_transition_duration(&h.config, span, step);
    law_progress_is_the_part_of_the_time(0, crate::engine::transition_ms(&h.config, span, step));
    crate::measure::lemma_constants();
    crate::measure::lemma_value_order(h.transition_progress(now), Double::from_bits(ZERO));
    law_first_frame_is_the_start(h.anim_start_br, h.anim_target_br, h.transition_progress(now));
}

/// The frames of a transition.
proof fn lemma_frames(h: &Engine, now: u64)
    requires
        crate::engine_laws::exact_motion(h),
    ensures
        (h.anim_start_br <= h.next_value(now) <= h.anim_target_br) || (h.anim_target_br <= h.next_value(now)
            <= h.anim_start_br),
        Double::from_bits(ONE).at_most(h.transition_progress(now)) ==> h.next_value(now) == h.anim_target_br,
{
    let span = crate::backlight::span(h.backlight.min_allowed_raw, h.backlight.max_allowed_raw);
    let step = crate::engine::distance(h.anim_target_br as int, h.anim_start_br as int);
    crate::engine_laws::law_transition_duration(&h.config, span, step);
    crate::engine_laws::law_transition_ends(
        crate::engine::elapsed(h.anim_start_time, now),
        crate::engine::transition_ms(&h.config, span, step),
    );
    let t = h.transition_progress(now);
    crate::engine_laws::law_frames_stay_between(h.anim_start_br, h.anim_target_br, t);
    if Double::from_bits(ONE).at_most(t) {
        crate::engine_laws::law_last_frame_is_the_target(h.anim_start_br, h.anim_target_br, t);
    }
}

/// Where the target is that of the transition under way, nothing changes: it goes on, or the backlight
/// rests.
pub proof fn law_target_under_way_is_kept(e: &Engine, now: u64)
    requires
        e.backlight.raw_for(e.current_target_br) == e.anim_target_br,
    ensures
        e.headed(now) == *e,
{
}

/// A frame of a transition is due 25 milliseconds after the last one, and no sooner unless the transition
/// is over.
pub proof fn law_frames_come_every_25_ms(e: &Engine, now: u64)
    requires
        !e.is_suspended,
        e.last_anim_frame <= now,
    ensures
        e.frame_is_due(now) <==> e.is_animating && (now - e.last_anim_frame >= 25_000_000 || Double::from_bits(
            ONE,
        ).at_most(e.transition_progress(now))),
{
}

/// A wake takes the backlight and the light as they are: the transition starts at what the backlight shows,
/// and the daemon rests where that is the target already.
pub proof fn law_wake_starts_where_the_backlight_is(
    before: &Engine,
    after: &Engine,
    resume_lux: Option<Double>,
    hw: i64,
    now: u64,
)
    requires
        after.resumed_from(before, resume_lux, Some(hw), now),
    ensures
        after.current_hw_br == hw,
        after.last_written_br == hw,
        after.anim_start_br == hw,
        after.anim_start_time == now,
        after.is_animating <==> hw != after.backlight.raw_for(after.current_target_br),
        after.headed(now) == *after,
        !after.is_users(hw) || before.manual_delta_threshold <= 0,
        resume_lux is None ==> after.current_lux == before.current_lux,
{
}

} // verus!
