//! What a manual change of the brightness teaches the levels of a curve.

use vstd::prelude::*;
use crate::curve::Point;
use crate::curve::{GREATEST, LOWEST_LEVEL, REACH, TINY};
use crate::double::Double;
use crate::double::{ONE, ZERO};

verus! {

/// The first of the points that are nearest to `x`, and its distance. Distances that are not
/// numbers are passed over; where there are no others, the first point is taken.
pub open spec fn closest(points: Seq<Point>, x: Double) -> (int, Double)
    decreases points.len(),
{
    if points.len() == 0 {
        (0, Double::from_bits(GREATEST))
    } else {
        let (i, d) = closest(points.drop_last(), x);
        let e = points.last().x.minus(x).absolute();
        if e.less(d) {
            (points.len() - 1, e)
        } else {
            (i, d)
        }
    }
}

/// A level that is not a number, or lies in the range of the curve.
pub open spec fn in_range(y: Double) -> bool {
    y.is_nan() || (Double::from_bits(LOWEST_LEVEL).at_most(y) && y.at_most(Double::from_bits(ONE)))
}

/// Every level is in range.
pub open spec fn all_in_range(ys: Seq<Double>) -> bool {
    forall|i: int| 0 <= i < ys.len() ==> in_range(#[trigger] ys[i])
}

/// A level moved by `delta`, weighted by the triangle `1 - d / 1.5`, where the distance `d` is within
/// reach: by all of it at no distance, and linearly less down to nothing at the end of the reach.
pub open spec fn warp(y: Double, delta: Double, d: Double) -> Double {
    let reach = Double::from_bits(REACH);
    let one = Double::from_bits(ONE);
    if d.less(reach) {
        y.plus(delta.times(one.minus(d.over(reach)))).clamp(Double::from_bits(LOWEST_LEVEL), one)
    } else {
        y
    }
}

/// The levels moved by `delta`, each by its distance in logarithmic light. `logs[0]` is the
/// logarithm for the present light, `logs[i + 1]` that for the point `i`.
pub open spec fn warped(ys: Seq<Double>, delta: Double, logs: Seq<Double>) -> Seq<Double> {
    Seq::new(ys.len(), |i: int| warp(ys[i], delta, logs[i + 1].minus(logs[0]).absolute()))
}

/// A level brought down to the next one, in the proportion that the two had before.
pub open spec fn pulled(y: Double, next: Double, was: Double, next_was: Double) -> Double {
    if next.less(y) {
        let one = Double::from_bits(ONE);
        let ratio = if Double::from_bits(TINY).less(next_was) { was.over(next_was) } else { one };
        if ratio.less(one) {
            next.times(ratio).clamp(Double::from_bits(LOWEST_LEVEL), next)
        } else {
            next
        }
    } else {
        y
    }
}

/// The levels before `i` brought down, from the right to the left.
pub open spec fn pulled_down(ys: Seq<Double>, was: Seq<Double>, i: nat) -> Seq<Double>
    decreases i,
{
    if i == 0 {
        ys
    } else {
        pulled_down(
            ys.update(i - 1, pulled(ys[i - 1], ys[i as int], was[i - 1], was[i as int])),
            was,
            (i - 1) as nat,
        )
    }
}

/// A level brought up to the one before, in the proportion that their headrooms had before.
pub open spec fn lifted(y: Double, last: Double, was: Double, last_was: Double) -> Double {
    if y.less(last) {
        let one = Double::from_bits(ONE);
        let headroom = one.minus(last_was);
        let ratio = if Double::from_bits(TINY).less(headroom) {
            one.minus(was).over(headroom)
        } else {
            one
        };
        if ratio.less(one) {
            one.minus(one.minus(last).times(ratio)).clamp(last, one)
        } else {
            last
        }
    } else {
        y
    }
}

/// The levels from `i` on brought up, from the left to the right.
pub open spec fn lifted_up(ys: Seq<Double>, was: Seq<Double>, i: nat) -> Seq<Double>
    decreases ys.len() - i,
{
    if i == 0 || i >= ys.len() {
        ys
    } else {
        lifted_up(
            ys.update(i as int, lifted(ys[i as int], ys[i - 1], was[i as int], was[i - 1])),
            was,
            i + 1,
        )
    }
}

/// The levels from `i` on raised to the one before, from the left to the right.
pub open spec fn raised_after(ys: Seq<Double>, i: nat) -> Seq<Double>
    decreases ys.len() - i,
{
    if i == 0 || i >= ys.len() {
        ys
    } else if ys[i as int].less(ys[i - 1]) {
        raised_after(ys.update(i as int, ys[i - 1]), i + 1)
    } else {
        raised_after(ys, i + 1)
    }
}

/// The levels before `i` lowered to the next one, from the right to the left.
pub open spec fn lowered_before(ys: Seq<Double>, i: nat) -> Seq<Double>
    decreases i,
{
    if i == 0 {
        ys
    } else if ys[i as int].less(ys[i - 1]) {
        lowered_before(ys.update(i - 1, ys[i as int]), (i - 1) as nat)
    } else {
        lowered_before(ys, (i - 1) as nat)
    }
}

/// The levels after a lesson: those within reach moved, that of the point `pivot` set to `target`,
/// and the others brought into order outwards from it.
pub open spec fn taught(
    ys: Seq<Double>,
    pivot: nat,
    target: Double,
    delta: Double,
    logs: Seq<Double>,
) -> Seq<Double> {
    let moved = warped(ys, delta, logs).update(pivot as int, target);
    if delta.less(Double::from_bits(ZERO)) {
        raised_after(pulled_down(moved, ys, pivot), pivot + 1)
    } else {
        lowered_before(lifted_up(moved, ys, pivot + 1), pivot)
    }
}

/// The first of the points that are nearest to `x`.
pub fn find_closest(points: &Vec<Point>, x: Double) -> (r: usize)
    requires
        points@.len() > 0,
    ensures
        r == closest(points@, x).0,
        r < points@.len(),
{
    let mut pivot: usize = 0;
    let mut least: Double = Double::from_bits(GREATEST);
    let mut i: usize = 0;
    while i < points.len()
        invariant
            i <= points@.len(),
            pivot == 0 || pivot < i,
            (pivot as int, least) == closest(points@.take(i as int), x),
        decreases points@.len() - i,
    {
        proof {
            assert(points@.take(i + 1).drop_last() =~= points@.take(i as int));
            assert(points@.take(i + 1).last() == points@[i as int]);
        }
        let d: Double = points[i].x.minus(x).absolute();
        if d.less(least) {
            least = d;
            pivot = i;
        }
        i = i + 1;
    }
    assert(points@.take(points@.len() as int) =~= points@);
    pivot
}

fn pull(y: Double, next: Double, was: Double, next_was: Double) -> (r: Double)
    requires
        in_range(next),
        in_range(y),
    ensures
        r == pulled(y, next, was, next_was),
        in_range(r),
{
    let one: Double = Double::from_bits(ONE);
    if !next.less(y) {
        return y;
    }
    let ratio: Double = if Double::from_bits(TINY).less(next_was) {
        was.over(next_was)
    } else {
        one
    };
    if ratio.less(one) {
        next.times(ratio).clamp(Double::from_bits(LOWEST_LEVEL), next)
    } else {
        next
    }
}

fn lift(y: Double, last: Double, was: Double, last_was: Double) -> (r: Double)
    requires
        in_range(last),
        in_range(y),
    ensures
        r == lifted(y, last, was, last_was),
        in_range(r),
{
    let one: Double = Double::from_bits(ONE);
    if !y.less(last) {
        return y;
    }
    let headroom: Double = one.minus(last_was);
    let ratio: Double = if Double::from_bits(TINY).less(headroom) {
        one.minus(was).over(headroom)
    } else {
        one
    };
    if ratio.less(one) {
        one.minus(one.minus(last).times(ratio)).clamp(last, one)
    } else {
        last
    }
}

/// The levels after a lesson.
pub fn teach(ys: &Vec<Double>, pivot: usize, target: Double, delta: Double, logs: &Vec<Double>) -> (r: Vec<Double>)
    requires
        pivot < ys@.len(),
        logs@.len() == ys@.len() + 1,
        all_in_range(ys@),
        in_range(target),
    ensures
        r@ == taught(ys@, pivot as nat, target, delta, logs@),
        r@.len() == ys@.len(),
        all_in_range(r@),
{
    let n: usize = ys.len();
    let reach: Double = Double::from_bits(REACH);
    let one: Double = Double::from_bits(ONE);
    let mut r: Vec<Double> = Vec::new();
    let mut i: usize = 0;
    while i < n
        invariant
            i <= n == ys@.len(),
            logs@.len() == n + 1,
            reach == Double::from_bits(REACH),
            one == Double::from_bits(ONE),
            all_in_range(ys@),
            r@ =~= warped(ys@, delta, logs@).take(i as int),
            all_in_range(r@),
        decreases n - i,
    {
        let d: Double = logs[i + 1].minus(logs[0]).absolute();
        if d.less(reach) {
            let weight: Double = one.minus(d.over(reach));
            r.push(ys[i].plus(delta.times(weight)).clamp(Double::from_bits(LOWEST_LEVEL), one));
        } else {
            r.push(ys[i]);
        }
        i = i + 1;
    }
    assert(warped(ys@, delta, logs@).take(n as int) =~= warped(ys@, delta, logs@));
    r.set(pivot, target);
    if delta.less(Double::from_bits(ZERO)) {
        let ghost goal = pulled_down(r@, ys@, pivot as nat);
        i = pivot;
        while i > 0
            invariant
                i <= pivot < n == ys@.len() == r@.len(),
                all_in_range(r@),
                goal == pulled_down(r@, ys@, i as nat),
            decreases i,
        {
            let y: Double = pull(r[i - 1], r[i], ys[i - 1], ys[i]);
            r.set(i - 1, y);
            i = i - 1;
        }
        let ghost goal = raised_after(r@, (pivot + 1) as nat);
        i = pivot + 1;
        while i < n
            invariant
                0 < i <= n == r@.len(),
                all_in_range(r@),
                goal == raised_after(r@, i as nat),
            decreases n - i,
        {
            if r[i].less(r[i - 1]) {
                let y: Double = r[i - 1];
                r.set(i, y);
            }
            i = i + 1;
        }
    } else {
        let ghost goal = lifted_up(r@, ys@, (pivot + 1) as nat);
        i = pivot + 1;
        while i < n
            invariant
                0 < i <= n == ys@.len() == r@.len(),
                all_in_range(r@),
                goal == lifted_up(r@, ys@, i as nat),
            decreases n - i,
        {
            let y: Double = lift(r[i], r[i - 1], ys[i], ys[i - 1]);
            r.set(i, y);
            i = i + 1;
        }
        let ghost goal = lowered_before(r@, pivot as nat);
        i = pivot;
        while i > 0
            invariant
                i <= pivot < n == r@.len(),
                all_in_range(r@),
                goal == lowered_before(r@, i as nat),
            decreases i,
        {
            if r[i].less(r[i - 1]) {
                let y: Double = r[i];
                r.set(i - 1, y);
            }
            i = i - 1;
        }
    }
    r
}

} // verus!
