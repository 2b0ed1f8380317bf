//! What every lesson keeps, and what it changes.

use vstd::prelude::*;
use crate::curve::{LOWEST_LEVEL, REACH};
use crate::double::Double;
use crate::double::{ONE, ZERO};

verus! {

/// Every level is a number in the range of the curve.
pub open spec fn proper(ys: Seq<Double>) -> bool {
    forall|i: int| 0 <= i < ys.len() ==> proper_level(#[trigger] ys[i])
}

/// A number in the range of the curve.
pub open spec fn proper_level(y: Double) -> bool {
    Double::from_bits(LOWEST_LEVEL).at_most(y) && y.at_most(Double::from_bits(ONE))
}

/// No level from `a` to `b` is below one before it.
pub open spec fn rises(ys: Seq<Double>, a: int, b: int) -> bool {
    forall|i: int, j: int| #![trigger ys[i], ys[j]] a <= i <= j <= b ==> ys[i].at_most(ys[j])
}

/// No level is below one before it.
pub open spec fn rising(ys: Seq<Double>) -> bool {
    rises(ys, 0, ys.len() - 1)
}

/// The lowest level is above zero.
pub proof fn lemma_lowest()
    ensures
        Double::from_bits(LOWEST_LEVEL).finite(),
        crate::measure::value(Double::from_bits(LOWEST_LEVEL)) > 0 as real,
{
    crate::measure::lemma_constants();
    crate::measure::lemma_value_order(Double::from_bits(ZERO), Double::from_bits(LOWEST_LEVEL));
}

/// A level in the range of the curve lies between zero and one.
pub proof fn lemma_proper(y: Double)
    requires
        proper_level(y),
    ensures
        y.finite(),
        !y.negative(),
        !y.zero(),
        (0 as real) < crate::measure::value(y) <= 1 as real,
        crate::measure::value(Double::from_bits(LOWEST_LEVEL)) <= crate::measure::value(y),
{
    lemma_lowest();
    crate::measure::lemma_constants();
    crate::measure::lemma_value_order(Double::from_bits(LOWEST_LEVEL), y);
    crate::measure::lemma_value_order(y, Double::from_bits(ONE));
}

/// A level moved by a lesson stays in the range of the curve; it does not move against the direction
/// of the lesson.
pub proof fn lemma_warp(y: Double, delta: Double, d: Double)
    requires
        proper_level(y),
        delta.finite(),
        -1 as real <= crate::measure::value(delta) <= 1 as real,
        !d.negative(),
    ensures
        proper_level(crate::lesson::warp(y, delta, d)),
        crate::measure::value(delta) <= 0 as real ==> crate::lesson::warp(y, delta, d).at_most(y),
        crate::measure::value(delta) >= 0 as real ==> y.at_most(crate::lesson::warp(y, delta, d)),
{
    let reach = Double::from_bits(REACH);
    let one = Double::from_bits(ONE);
    let zero = Double::from_bits(ZERO);
    if d.less(reach) {
        crate::measure::lemma_constants();
        crate::measure::lemma_small();
        lemma_proper(y);
        crate::measure::lemma_value_order(zero, d);
        crate::measure::lemma_value_order(d, reach);
        let x = crate::measure::value(d);
        let r = 3 as real / 2 as real;
        assert(0 as real * r == 0 as real && 1 as real * r == r) by (nonlinear_arith);
        crate::measure::lemma_over_at_least(d, reach, zero);
        crate::measure::lemma_over_at_most(d, reach, one);
        let u = d.over(reach);
        lemma_unit(u);
        crate::measure::lemma_minus_at_least(one, u, zero);
        crate::measure::lemma_minus_at_most(one, u, one);
        let w = one.minus(u);
        lemma_unit(w);
        let dv = crate::measure::value(delta);
        let wv = crate::measure::value(w);
        assert(-1 as real <= dv * wv <= 1 as real) by (nonlinear_arith)
            requires
                -1 as real <= dv <= 1 as real,
                0 as real <= wv <= 1 as real,
        ;
        assert(dv <= 0 as real ==> dv * wv <= 0 as real) by (nonlinear_arith)
            requires
                0 as real <= wv,
        ;
        assert(dv >= 0 as real ==> dv * wv >= 0 as real) by (nonlinear_arith)
            requires
                0 as real <= wv,
        ;
        crate::measure::lemma_times(delta, w);
        crate::measure::lemma_part_of_error(crate::measure::epsilon(), dv * wv, 1 as real);
        let m = delta.times(w);
        if dv <= 0 as real {
            crate::measure::lemma_times_at_most(delta, w, zero);
            crate::measure::lemma_value_order(m, zero);
            crate::measure::lemma_plus_at_most(y, m, y);
        }
        if dv >= 0 as real {
            crate::measure::lemma_times_at_least(delta, w, zero);
            crate::measure::lemma_value_order(zero, m);
            crate::measure::lemma_plus_at_least(y, m, y);
        }
        crate::measure::lemma_plus(y, m);
    }
}

/// A value between zero and one, as a real number.
pub proof fn lemma_unit(u: Double)
    requires
        Double::from_bits(ZERO).at_most(u),
        u.at_most(Double::from_bits(ONE)),
    ensures
        u.finite(),
        0 as real <= crate::measure::value(u) <= 1 as real,
{
    crate::measure::lemma_constants();
    crate::measure::lemma_value_order(Double::from_bits(ZERO), u);
    crate::measure::lemma_value_order(u, Double::from_bits(ONE));
}

/// The product of a number with a finite one other than zero is a number.
proof fn lemma_product_is_number(a: Double, b: Double)
    requires
        a.finite(),
        !a.zero(),
        !b.is_nan(),
    ensures
        !a.times(b).is_nan(),
{
    reveal(Double::spec_times);
    vstd::arithmetic::power2::lemma_pow2_pos(1074);
    if b.finite() {
        crate::double::lemma_round_ratio(
            crate::double::units(a.magnitude()) * crate::double::units(b.magnitude()),
            crate::double::one_in_units(),
        );
    }
}

/// A difference of a finite value and a number is a number.
proof fn lemma_difference_is_number(a: Double, b: Double)
    requires
        a.finite(),
        !b.is_nan(),
    ensures
        !a.minus(b).is_nan(),
{
    reveal(Double::spec_plus);
    if b.finite() {
        let n = a.amount() + b.negated().amount();
        crate::double::lemma_round_ratio(crate::double::size_of(n), 1);
    }
}

/// A level that is brought down stays in the range of the curve, and is then not above the next one.
pub proof fn lemma_pulled(y: Double, next: Double, was: Double, next_was: Double)
    requires
        proper_level(y),
        proper_level(next),
    ensures
        proper_level(crate::lesson::pulled(y, next, was, next_was)),
        crate::lesson::pulled(y, next, was, next_was).at_most(next),
        crate::lesson::pulled(y, next, was, next_was).at_most(y),
{
    if next.less(y) {
        let one = Double::from_bits(ONE);
        let ratio = if Double::from_bits(crate::curve::TINY).less(next_was) {
            was.over(next_was)
        } else {
            one
        };
        if ratio.less(one) {
            lemma_proper(next);
            lemma_product_is_number(next, ratio);
        }
    }
}

/// A level that is brought up stays in the range of the curve, and is then not below the one before.
pub proof fn lemma_lifted(y: Double, last: Double, was: Double, last_was: Double)
    requires
        proper_level(y),
        proper_level(last),
        proper_level(was),
        proper_level(last_was),
    ensures
        proper_level(crate::lesson::lifted(y, last, was, last_was)),
        last.at_most(crate::lesson::lifted(y, last, was, last_was)),
        y.at_most(crate::lesson::lifted(y, last, was, last_was)),
{
    if y.less(last) {
        let one = Double::from_bits(ONE);
        let zero = Double::from_bits(ZERO);
        let headroom = one.minus(last_was);
        let ratio = if Double::from_bits(crate::curve::TINY).less(headroom) {
            one.minus(was).over(headroom)
        } else {
            one
        };
        if ratio.less(one) {
            crate::measure::lemma_constants();
            lemma_headroom(last);
            lemma_headroom(was);
            lemma_headroom(last_was);
            crate::measure::lemma_value_order(zero, headroom);
            crate::measure::lemma_value_order(Double::from_bits(crate::curve::TINY), headroom);
            crate::measure::lemma_value_order(zero, Double::from_bits(crate::curve::TINY));
            let h = crate::measure::value(headroom);
            assert(0 as real * h == 0 as real) by (nonlinear_arith);
            crate::measure::lemma_over_at_least(one.minus(was), headroom, zero);
            lemma_unit(ratio);
            let room = one.minus(last);
            let x = crate::measure::value(room);
            let r = crate::measure::value(ratio);
            assert(0 as real <= x * r <= 1 as real) by (nonlinear_arith)
                requires
                    0 as real <= x <= 1 as real,
                    0 as real <= r <= 1 as real,
            ;
            crate::measure::lemma_times_at_least(room, ratio, zero);
            crate::measure::lemma_times_at_most(room, ratio, one);
            lemma_unit(room.times(ratio));
            lemma_difference_is_number(one, room.times(ratio));
        }
    }
}

/// What is left above a level lies between zero and one.
pub proof fn lemma_headroom(y: Double)
    requires
        proper_level(y),
    ensures
        Double::from_bits(ONE).minus(y).finite(),
        0 as real <= crate::measure::value(Double::from_bits(ONE).minus(y)) <= 1 as real,
        Double::from_bits(ZERO).at_most(Double::from_bits(ONE).minus(y)),
{
    let one = Double::from_bits(ONE);
    let zero = Double::from_bits(ZERO);
    crate::measure::lemma_constants();
    lemma_proper(y);
    crate::measure::lemma_minus_at_least(one, y, zero);
    crate::measure::lemma_minus_at_most(one, y, one);
    lemma_unit(one.minus(y));
}

// ---------------------------------------------------------------------------
// Passes over the levels
// ---------------------------------------------------------------------------

proof fn lemma_pulled_down(ys: Seq<Double>, was: Seq<Double>, i: nat, p: int)
    requires
        i <= p < ys.len(),
        proper(ys),
        rises(ys, i as int, p),
    ensures
        ({
            let r = crate::lesson::pulled_down(ys, was, i);
            &&& r.len() == ys.len()
            &&& proper(r)
            &&& rises(r, 0, p)
            &&& forall|j: int| i <= j < ys.len() ==> #[trigger] r[j] == ys[j]
            &&& forall|j: int|
                0 <= j < i ==> #[trigger] r[j] == crate::lesson::pulled(ys[j], r[j + 1], was[j], was[j + 1])
            &&& forall|j: int| 0 <= j < ys.len() ==> (#[trigger] r[j]).at_most(ys[j])
        }),
    decreases i,
{
    if i > 0 {
        let y = crate::lesson::pulled(ys[i - 1], ys[i as int], was[i - 1], was[i as int]);
        lemma_pulled(ys[i - 1], ys[i as int], was[i - 1], was[i as int]);
        let next = ys.update(i - 1, y);
        assert forall|j: int| 0 <= j < next.len() implies proper_level(#[trigger] next[j]) by {
            if j != i - 1 {
                assert(next[j] == ys[j]);
            }
        }
        assert forall|a: int, b: int| #![trigger next[a], next[b]] i - 1 <= a <= b <= p implies next[a].at_most(
            next[b],
        ) by {
            if a == i - 1 {
                if b > a {
                    assert(ys[i as int].at_most(ys[b]));
                    assert(next[b] == ys[b]);
                }
            } else {
                assert(ys[a].at_most(ys[b]));
            }
        }
        lemma_pulled_down(next, was, (i - 1) as nat, p);
        let r = crate::lesson::pulled_down(ys, was, i);
        assert(r == crate::lesson::pulled_down(next, was, (i - 1) as nat));
        assert forall|j: int| i <= j < ys.len() implies #[trigger] r[j] == ys[j] by {
            assert(next[j] == ys[j]);
        }
        assert forall|j: int| 0 <= j < i implies #[trigger] r[j] == crate::lesson::pulled(
            ys[j],
            r[j + 1],
            was[j],
            was[j + 1],
        ) by {
            if j == i - 1 {
                assert(r[i as int] == next[i as int]);
                assert(r[j] == next[j]);
            } else {
                assert(next[j] == ys[j]);
            }
        }
        assert forall|j: int| 0 <= j < ys.len() implies (#[trigger] r[j]).at_most(ys[j]) by {
            assert(r[j].at_most(next[j]));
        }
    } else {
        assert forall|j: int| 0 <= j < ys.len() implies (#[trigger] ys[j]).at_most(ys[j]) by {
            assert(proper_level(ys[j]));
        }
    }
}

proof fn lemma_lowered_before(ys: Seq<Double>, i: nat)
    requires
        i < ys.len(),
        proper(ys),
        rises(ys, i as int, ys.len() - 1),
    ensures
        ({
            let r = crate::lesson::lowered_before(ys, i);
            &&& r.len() == ys.len()
            &&& proper(r)
            &&& rising(r)
            &&& forall|j: int| i <= j < ys.len() ==> #[trigger] r[j] == ys[j]
            &&& forall|j: int|
                0 <= j < i ==> #[trigger] r[j] == (if r[j + 1].less(ys[j]) { r[j + 1] } else { ys[j] })
        }),
    decreases i,
{
    if i > 0 {
        let y = if ys[i as int].less(ys[i - 1]) {
            ys[i as int]
        } else {
            ys[i - 1]
        };
        let next = ys.update(i - 1, y);
        assert(proper_level(ys[i as int]) && proper_level(ys[i - 1]));
        assert forall|j: int| 0 <= j < next.len() implies proper_level(#[trigger] next[j]) by {
            if j != i - 1 {
                assert(next[j] == ys[j]);
            }
        }
        assert forall|a: int, b: int|
            #![trigger next[a], next[b]]
            i - 1 <= a <= b <= next.len() - 1 implies next[a].at_most(next[b]) by {
            if a == i - 1 {
                if b > a {
                    assert(ys[i as int].at_most(ys[b]));
                    assert(next[b] == ys[b]);
                }
            } else {
                assert(ys[a].at_most(ys[b]));
            }
        }
        lemma_lowered_before(next, (i - 1) as nat);
        let r = crate::lesson::lowered_before(ys, i);
        assert(r == crate::lesson::lowered_before(next, (i - 1) as nat)) by {
            if !ys[i as int].less(ys[i - 1]) {
                assert(next =~= ys);
            }
        }
        assert forall|j: int| i <= j < ys.len() implies #[trigger] r[j] == ys[j] by {
            assert(next[j] == ys[j]);
        }
        assert forall|j: int| 0 <= j < i implies #[trigger] r[j] == (if r[j + 1].less(ys[j]) {
            r[j + 1]
        } else {
            ys[j]
        }) by {
            if j == i - 1 {
                assert(r[i as int] == next[i as int]);
                assert(r[j] == next[j]);
            } else {
                assert(next[j] == ys[j]);
            }
        }
    }
}

proof fn lemma_lifted_up(ys: Seq<Double>, was: Seq<Double>, i: nat, p: int)
    requires
        0 <= p < i <= ys.len(),
        was.len() == ys.len(),
        proper(ys),
        proper(was),
        rises(ys, p, i - 1),
    ensures
        ({
            let r = crate::lesson::lifted_up(ys, was, i);
            &&& r.len() == ys.len()
            &&& proper(r)
            &&& rises(r, p, r.len() - 1)
            &&& forall|j: int| 0 <= j < i ==> #[trigger] r[j] == ys[j]
            &&& forall|j: int|
                i <= j < ys.len() ==> #[trigger] r[j] == crate::lesson::lifted(ys[j], r[j - 1], was[j], was[j - 1])
            &&& forall|j: int| 0 <= j < ys.len() ==> ys[j].at_most(#[trigger] r[j])
        }),
    decreases ys.len() - i,
{
    if i < ys.len() {
        let k = i as int;
        assert(proper_level(was[k]) && proper_level(was[k - 1]) && proper_level(ys[k]) && proper_level(ys[k - 1]));
        let y = crate::lesson::lifted(ys[k], ys[k - 1], was[k], was[k - 1]);
        lemma_lifted(ys[k], ys[k - 1], was[k], was[k - 1]);
        let next = ys.update(k, y);
        assert forall|j: int| 0 <= j < next.len() implies proper_level(#[trigger] next[j]) by {
            if j != k {
                assert(next[j] == ys[j]);
            }
        }
        assert forall|a: int, b: int| #![trigger next[a], next[b]] p <= a <= b <= k implies next[a].at_most(next[b]) by {
            if b == k {
                if a < b {
                    assert(ys[a].at_most(ys[k - 1]));
                    assert(next[a] == ys[a]);
                }
            } else {
                assert(ys[a].at_most(ys[b]));
            }
        }
        lemma_lifted_up(next, was, i + 1, p);
        let r = crate::lesson::lifted_up(ys, was, i);
        assert(r == crate::lesson::lifted_up(next, was, i + 1));
        assert forall|j: int| 0 <= j < i implies #[trigger] r[j] == ys[j] by {
            assert(next[j] == ys[j]);
        }
        assert forall|j: int| i <= j < ys.len() implies #[trigger] r[j] == crate::lesson::lifted(
            ys[j],
            r[j - 1],
            was[j],
            was[j - 1],
        ) by {
            if j == k {
                assert(r[k - 1] == next[k - 1]);
                assert(r[j] == next[j]);
            } else {
                assert(next[j] == ys[j]);
            }
        }
        assert forall|j: int| 0 <= j < ys.len() implies ys[j].at_most(#[trigger] r[j]) by {
            assert(next[j].at_most(r[j]));
            if j != k {
                assert(next[j] == ys[j]);
            }
        }
    } else {
        assert forall|j: int| 0 <= j < ys.len() implies (#[trigger] ys[j]).at_most(ys[j]) by {
            assert(proper_level(ys[j]));
        }
    }
}

proof fn lemma_raised_after(ys: Seq<Double>, i: nat)
    requires
        0 < i <= ys.len(),
        proper(ys),
        rises(ys, 0, i - 1),
    ensures
        ({
            let r = crate::lesson::raised_after(ys, i);
            &&& r.len() == ys.len()
            &&& proper(r)
            &&& rising(r)
            &&& forall|j: int| 0 <= j < i ==> #[trigger] r[j] == ys[j]
            &&& forall|j: int|
                i <= j < ys.len() ==> #[trigger] r[j] == (if ys[j].less(r[j - 1]) { r[j - 1] } else { ys[j] })
        }),
    decreases ys.len() - i,
{
    if i < ys.len() {
        let k = i as int;
        let y = if ys[k].less(ys[k - 1]) {
            ys[k - 1]
        } else {
            ys[k]
        };
        assert(proper_level(ys[k]) && proper_level(ys[k - 1]));
        let next = ys.update(k, y);
        assert forall|j: int| 0 <= j < next.len() implies proper_level(#[trigger] next[j]) by {
            if j != k {
                assert(next[j] == ys[j]);
            }
        }
        assert forall|a: int, b: int| #![trigger next[a], next[b]] 0 <= a <= b <= k implies next[a].at_most(next[b]) by {
            if b == k {
                if a < b {
                    assert(ys[a].at_most(ys[k - 1]));
                    assert(next[a] == ys[a]);
                }
            } else {
                assert(ys[a].at_most(ys[b]));
            }
        }
        lemma_raised_after(next, i + 1);
        let r = crate::lesson::raised_after(ys, i);
        assert(r == crate::lesson::raised_after(next, i + 1)) by {
            if !ys[k].less(ys[k - 1]) {
                assert(next =~= ys);
            }
        }
        assert forall|j: int| 0 <= j < i implies #[trigger] r[j] == ys[j] by {
            assert(next[j] == ys[j]);
        }
        assert forall|j: int| i <= j < ys.len() implies #[trigger] r[j] == (if ys[j].less(r[j - 1]) {
            r[j - 1]
        } else {
            ys[j]
        }) by {
            if j == k {
                assert(r[k - 1] == next[k - 1]);
                assert(r[j] == next[j]);
            } else {
                assert(next[j] == ys[j]);
            }
        }
    }
}

// ---------------------------------------------------------------------------
// Lessons
// ---------------------------------------------------------------------------

/// A lesson on levels that are numbers in the range of the curve.
pub open spec fn teachable(ys: Seq<Double>, pivot: nat, target: Double, delta: Double, logs: Seq<Double>) -> bool {
    &&& proper(ys)
    &&& pivot < ys.len()
    &&& proper_level(target)
    &&& delta.finite()
    &&& -1 as real <= crate::measure::value(delta) <= 1 as real
    &&& logs.len() == ys.len() + 1
}

/// The distance of the point `i` from the present light in logarithmic light.
pub open spec fn reach_of(logs: Seq<Double>, i: int) -> Double {
    logs[i + 1].minus(logs[0]).absolute()
}

/// The levels with those within reach moved and that of the point `pivot` set.
pub open spec fn moved(ys: Seq<Double>, pivot: nat, target: Double, delta: Double, logs: Seq<Double>) -> Seq<Double> {
    crate::lesson::warped(ys, delta, logs).update(pivot as int, target)
}

pub proof fn lemma_moved(ys: Seq<Double>, pivot: nat, target: Double, delta: Double, logs: Seq<Double>)
    requires
        teachable(ys, pivot, target, delta, logs),
    ensures
        ({
            let m = moved(ys, pivot, target, delta, logs);
            &&& m.len() == ys.len()
            &&& proper(m)
            &&& m[pivot as int] == target
            &&& forall|j: int|
                0 <= j < ys.len() && j != pivot ==> {
                    &&& #[trigger] m[j] == crate::lesson::warp(ys[j], delta, reach_of(logs, j))
                    &&& crate::measure::value(delta) <= 0 as real ==> m[j].at_most(ys[j])
                    &&& crate::measure::value(delta) >= 0 as real ==> ys[j].at_most(m[j])
                }
        }),
{
    let m = moved(ys, pivot, target, delta, logs);
    assert forall|j: int| 0 <= j < m.len() implies proper_level(#[trigger] m[j]) by {
        if j != pivot {
            assert(proper_level(ys[j]));
            lemma_warp(ys[j], delta, reach_of(logs, j));
        }
    }
    assert forall|j: int| 0 <= j < ys.len() && j != pivot implies {
        &&& #[trigger] m[j] == crate::lesson::warp(ys[j], delta, reach_of(logs, j))
        &&& crate::measure::value(delta) <= 0 as real ==> m[j].at_most(ys[j])
        &&& crate::measure::value(delta) >= 0 as real ==> ys[j].at_most(m[j])
    } by {
        assert(proper_level(ys[j]));
        lemma_warp(ys[j], delta, reach_of(logs, j));
    }
}

/// What a lesson makes of the levels, one by one.
pub proof fn lemma_taught(ys: Seq<Double>, pivot: nat, target: Double, delta: Double, logs: Seq<Double>)
    requires
        teachable(ys, pivot, target, delta, logs),
    ensures
        ({
            let r = crate::lesson::taught(ys, pivot, target, delta, logs);
            let m = moved(ys, pivot, target, delta, logs);
            let p = pivot as int;
            &&& r.len() == ys.len()
            &&& proper(r)
            &&& rising(r)
            &&& r[p] == target
            &&& crate::measure::value(delta) < 0 as real ==> {
                &&& forall|j: int|
                    0 <= j < p ==> #[trigger] r[j] == crate::lesson::pulled(m[j], r[j + 1], ys[j], ys[j + 1])
                &&& forall|j: int|
                    p < j < ys.len() ==> #[trigger] r[j] == (if m[j].less(r[j - 1]) { r[j - 1] } else { m[j] })
            }
            &&& crate::measure::value(delta) >= 0 as real ==> {
                &&& forall|j: int|
                    p < j < ys.len() ==> #[trigger] r[j] == crate::lesson::lifted(m[j], r[j - 1], ys[j], ys[j - 1])
                &&& forall|j: int|
                    0 <= j < p ==> #[trigger] r[j] == (if r[j + 1].less(m[j]) { r[j + 1] } else { m[j] })
            }
        }),
{
    let m = moved(ys, pivot, target, delta, logs);
    let p = pivot as int;
    lemma_moved(ys, pivot, target, delta, logs);
    crate::measure::lemma_constants();
    crate::measure::lemma_value_order(delta, Double::from_bits(ZERO));
    assert(rises(m, p, p)) by {
        assert(proper_level(m[p]));
    }
    let r = crate::lesson::taught(ys, pivot, target, delta, logs);
    if delta.less(Double::from_bits(ZERO)) {
        lemma_pulled_down(m, ys, pivot, p);
        let a = crate::lesson::pulled_down(m, ys, pivot);
        lemma_raised_after(a, pivot + 1);
        assert forall|j: int| 0 <= j < p implies #[trigger] r[j] == crate::lesson::pulled(
            m[j],
            r[j + 1],
            ys[j],
            ys[j + 1],
        ) by {
            assert(r[j] == a[j] && r[j + 1] == a[j + 1]);
        }
        assert forall|j: int| p < j < ys.len() implies #[trigger] r[j] == (if m[j].less(r[j - 1]) {
            r[j - 1]
        } else {
            m[j]
        }) by {
            assert(a[j] == m[j]);
        }
        assert(r[p] == a[p]);
        assert(a[p] == m[p]);
    } else {
        lemma_lifted_up(m, ys, pivot + 1, p);
        let a = crate::lesson::lifted_up(m, ys, pivot + 1);
        lemma_lowered_before(a, pivot);
        assert forall|j: int| p < j < ys.len() implies #[trigger] r[j] == crate::lesson::lifted(
            m[j],
            r[j - 1],
            ys[j],
            ys[j - 1],
        ) by {
            assert(r[j] == a[j] && r[j - 1] == a[j - 1]);
        }
        assert forall|j: int| 0 <= j < p implies #[trigger] r[j] == (if r[j + 1].less(m[j]) {
            r[j + 1]
        } else {
            m[j]
        }) by {
            assert(a[j] == m[j]);
        }
        assert(r[p] == a[p]);
        assert(a[p] == m[p]);
    }
}

/// After a lesson the levels are numbers in the range of the curve, none is below one before it, and
/// the point that the lesson is about has the level that was taught.
pub proof fn law_lesson_keeps_order(ys: Seq<Double>, pivot: nat, target: Double, delta: Double, logs: Seq<Double>)
    requires
        teachable(ys, pivot, target, delta, logs),
    ensures
        ({
            let r = crate::lesson::taught(ys, pivot, target, delta, logs);
            &&& r.len() == ys.len()
            &&& proper(r)
            &&& rising(r)
            &&& r[pivot as int] == target
        }),
{
    lemma_taught(ys, pivot, target, delta, logs);
}

/// A lesson is local: a level out of its reach changes only where the new level next to it, on the side
/// of the lesson, would otherwise be out of order with it.
pub proof fn law_lesson_is_local(
    ys: Seq<Double>,
    pivot: nat,
    target: Double,
    delta: Double,
    logs: Seq<Double>,
    j: int,
)
    requires
        teachable(ys, pivot, target, delta, logs),
        0 <= j < ys.len(),
        j != pivot,
        !reach_of(logs, j).less(Double::from_bits(REACH)),
    ensures
        ({
            let r = crate::lesson::taught(ys, pivot, target, delta, logs);
            ||| r[j] == ys[j]
            ||| j < pivot && r[j + 1].less(ys[j])
            ||| j > pivot && ys[j].less(r[j - 1])
        }),
{
    lemma_taught(ys, pivot, target, delta, logs);
    lemma_moved(ys, pivot, target, delta, logs);
    let m = moved(ys, pivot, target, delta, logs);
    assert(m[j] == ys[j]);
    let r = crate::lesson::taught(ys, pivot, target, delta, logs);
    assert(r[j] == r[j]);
}

/// A real number held to the range of the curve.
pub open spec fn held_real(x: real) -> real {
    let low = crate::measure::value(Double::from_bits(LOWEST_LEVEL));
    if x < low {
        low
    } else if x > 1 as real {
        1 as real
    } else {
        x
    }
}

/// The weight at a distance within reach, but for rounding.
proof fn lemma_weight(d: Double)
    requires
        !d.negative(),
        d.less(Double::from_bits(REACH)),
    ensures
        ({
            let w = Double::from_bits(ONE).minus(d.over(Double::from_bits(REACH)));
            let x = 1 as real - 2 as real * crate::measure::value(d) / 3 as real;
            &&& w.finite()
            &&& 0 as real <= crate::measure::value(w) <= 1 as real
            &&& crate::measure::abs(crate::measure::value(w) - x) <= 3 as real * crate::measure::epsilon()
        }),
{
    let reach = Double::from_bits(REACH);
    let one = Double::from_bits(ONE);
    let zero = Double::from_bits(ZERO);
    let e = crate::measure::epsilon();
    crate::measure::lemma_constants();
    crate::measure::lemma_small();
    crate::measure::lemma_value_order(zero, d);
    crate::measure::lemma_value_order(d, reach);
    let v = crate::measure::value(d);
    let r = 3 as real / 2 as real;
    crate::measure::lemma_over_at_least(d, reach, zero);
    crate::measure::lemma_over_at_most(d, reach, one);
    let u = d.over(reach);
    lemma_unit(u);
    let q = v / r;
    assert(q == 2 as real * v / 3 as real);
    crate::measure::lemma_finite_quotient(d, reach);
    crate::measure::lemma_part_of_error(e, q, 1 as real);
    crate::measure::lemma_minus_at_least(one, u, zero);
    crate::measure::lemma_minus_at_most(one, u, one);
    lemma_unit(one.minus(u));
    crate::measure::lemma_minus(one, u);
    crate::measure::lemma_part_of_error(e, 1 as real - crate::measure::value(u), 1 as real);
}

/// An error of a factor in a product with one up to one.
pub proof fn lemma_factor_error(x: real, a: real, b: real, t: real)
    requires
        -1 as real <= x <= 1 as real,
        crate::measure::abs(a - b) <= t,
    ensures
        crate::measure::abs(x * a - x * b) <= t,
{
    let g = crate::measure::abs(a - b);
    crate::algebra::lemma_scaled(x, g, 1 as real);
    crate::algebra::lemma_distribute(a, b, x);
    crate::algebra::lemma_swap(a, x);
    crate::algebra::lemma_swap(b, x);
    crate::algebra::lemma_swap(a - b, x);
    assert(x * (0 as real - (a - b)) == 0 as real - x * (a - b)) by (nonlinear_arith);
}

/// The weight of a lesson is triangular: but for `2^-49` of rounding, a level at the distance `d` within
/// reach moves by the part `1 - d / 1.5` of the deviation and is held to the range of the curve.
pub proof fn law_weight_is_triangular(y: Double, delta: Double, d: Double)
    requires
        proper_level(y),
        delta.finite(),
        -1 as real <= crate::measure::value(delta) <= 1 as real,
        !d.negative(),
        d.less(Double::from_bits(REACH)),
    ensures
        ({
            let weight = 1 as real - 2 as real * crate::measure::value(d) / 3 as real;
            let x = crate::measure::value(y) + crate::measure::value(delta) * weight;
            crate::measure::abs(crate::measure::value(crate::lesson::warp(y, delta, d)) - held_real(x))
                <= 8 as real * crate::measure::epsilon()
        }),
{
    let one = Double::from_bits(ONE);
    let low = Double::from_bits(LOWEST_LEVEL);
    let e = crate::measure::epsilon();
    let w = one.minus(d.over(Double::from_bits(REACH)));
    let weight = 1 as real - 2 as real * crate::measure::value(d) / 3 as real;
    let yv = crate::measure::value(y);
    let dv = crate::measure::value(delta);
    let wv = crate::measure::value(w);
    crate::measure::lemma_constants();
    crate::measure::lemma_small();
    lemma_proper(y);
    lemma_lowest();
    lemma_weight(d);
    lemma_factor_error(dv, wv, weight, 3 as real * e);
    crate::algebra::lemma_scaled(dv, wv, 1 as real);
    let p = dv * wv;
    crate::measure::lemma_times(delta, w);
    crate::measure::lemma_part_of_error(e, p, 1 as real);
    let m = delta.times(w);
    let mv = crate::measure::value(m);
    crate::measure::lemma_plus(y, m);
    crate::measure::lemma_part_of_error(e, yv + mv, 3 as real);
    let sum = y.plus(m);
    crate::measure::lemma_value_order(sum, low);
    crate::measure::lemma_value_order(one, sum);
    crate::measure::lemma_value_order(low, one);
    let x = yv + dv * weight;
    assert(crate::measure::abs(crate::measure::value(sum) - x) <= 8 as real * e);
    assert(crate::measure::value(crate::lesson::warp(y, delta, d)) == held_real(crate::measure::value(sum)));
}

/// A level within the reach of a lesson moves by its weight, or is brought into order with the new level
/// next to it, on the side of the lesson.
pub proof fn law_lesson_moves_by_weight(
    ys: Seq<Double>,
    pivot: nat,
    target: Double,
    delta: Double,
    logs: Seq<Double>,
    j: int,
)
    requires
        teachable(ys, pivot, target, delta, logs),
        0 <= j < ys.len(),
        j != pivot,
        reach_of(logs, j).less(Double::from_bits(REACH)),
    ensures
        ({
            let r = crate::lesson::taught(ys, pivot, target, delta, logs);
            let weighted = crate::lesson::warp(ys[j], delta, reach_of(logs, j));
            ||| r[j] == weighted
            ||| j < pivot && r[j + 1].less(weighted)
            ||| j > pivot && weighted.less(r[j - 1])
        }),
{
    lemma_taught(ys, pivot, target, delta, logs);
    lemma_moved(ys, pivot, target, delta, logs);
    let m = moved(ys, pivot, target, delta, logs);
    let r = crate::lesson::taught(ys, pivot, target, delta, logs);
    assert(m[j] == crate::lesson::warp(ys[j], delta, reach_of(logs, j)));
    assert(r[j] == r[j]);
}

/// A lesson that lowers the level of its point raises no level, where none was below one before it.
pub proof fn law_lowering_raises_nothing(
    ys: Seq<Double>,
    pivot: nat,
    target: Double,
    delta: Double,
    logs: Seq<Double>,
    j: int,
)
    requires
        teachable(ys, pivot, target, delta, logs),
        rising(ys),
        crate::measure::value(delta) < 0 as real,
        target.at_most(ys[pivot as int]),
        0 <= j < ys.len(),
    ensures
        crate::lesson::taught(ys, pivot, target, delta, logs)[j].at_most(ys[j]),
    decreases j,
{
    lemma_taught(ys, pivot, target, delta, logs);
    lemma_moved(ys, pivot, target, delta, logs);
    let m = moved(ys, pivot, target, delta, logs);
    let r = crate::lesson::taught(ys, pivot, target, delta, logs);
    assert(proper_level(m[j]) && proper_level(r[j]));
    if j < pivot {
        assert(r[j] == crate::lesson::pulled(m[j], r[j + 1], ys[j], ys[j + 1]));
        assert(proper_level(r[j + 1]));
        lemma_pulled(m[j], r[j + 1], ys[j], ys[j + 1]);
        assert(m[j].at_most(ys[j]));
    } else if j > pivot {
        law_lowering_raises_nothing(ys, pivot, target, delta, logs, j - 1);
        assert(ys[j - 1].at_most(ys[j]));
        assert(m[j].at_most(ys[j]));
        assert(r[j] == (if m[j].less(r[j - 1]) { r[j - 1] } else { m[j] }));
    }
}

/// A lesson that raises the level of its point lowers no level, where none was below one before it.
pub proof fn law_raising_lowers_nothing(
    ys: Seq<Double>,
    pivot: nat,
    target: Double,
    delta: Double,
    logs: Seq<Double>,
    j: int,
)
    requires
        teachable(ys, pivot, target, delta, logs),
        rising(ys),
        crate::measure::value(delta) >= 0 as real,
        ys[pivot as int].at_most(target),
        0 <= j < ys.len(),
    ensures
        ys[j].at_most(crate::lesson::taught(ys, pivot, target, delta, logs)[j]),
    decreases ys.len() - j,
{
    lemma_taught(ys, pivot, target, delta, logs);
    lemma_moved(ys, pivot, target, delta, logs);
    let m = moved(ys, pivot, target, delta, logs);
    let r = crate::lesson::taught(ys, pivot, target, delta, logs);
    assert(proper_level(m[j]) && proper_level(r[j]) && proper_level(ys[j]));
    if j > pivot {
        assert(r[j] == crate::lesson::lifted(m[j], r[j - 1], ys[j], ys[j - 1]));
        assert(proper_level(r[j - 1]) && proper_level(ys[j - 1]));
        lemma_lifted(m[j], r[j - 1], ys[j], ys[j - 1]);
        assert(ys[j].at_most(m[j]));
    } else if j < pivot {
        law_raising_lowers_nothing(ys, pivot, target, delta, logs, j + 1);
        assert(ys[j].at_most(ys[j + 1]));
        assert(ys[j].at_most(m[j]));
        assert(r[j] == (if r[j + 1].less(m[j]) { r[j + 1] } else { m[j] }));
    }
}

} // verus!
