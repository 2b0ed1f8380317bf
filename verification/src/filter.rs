//! Suppression of single-sample spikes in the sensor readings.

use vstd::prelude::*;
use crate::double::Double;

verus! {

/// A rolling median over three samples. It drops a spike of one sample and follows a step of the
/// ambient light after two.
#[derive(Debug, Clone, Copy)]
pub struct MedianFilter3 {
    pub buf: [Double; 3],
}

/// The pair in ascending order. A pair that has no order stays as it is.
pub open spec fn ordered(a: Double, b: Double) -> (Double, Double) {
    if b.less(a) {
        (b, a)
    } else {
        (a, b)
    }
}

/// The middle one of three samples after the exchanges first-second, second-third, first-second.
pub open spec fn median(a: Double, b: Double, c: Double) -> Double {
    let (low, high) = ordered(a, b);
    let (middle, _) = ordered(high, c);
    ordered(low, middle).1
}

impl MedianFilter3 {
    /// A filter that has seen nothing but `initial`.
    pub fn new(initial: Double) -> (r: Self)
        ensures
            r.buf@ == seq![initial, initial, initial],
    {
        MedianFilter3 { buf: [initial, initial, initial] }
    }

    /// Forgets every sample but `val`.
    pub fn reset(&mut self, val: Double)
        ensures
            final(self).buf@ == seq![val, val, val],
    {
        self.buf = [val, val, val];
    }

    /// Takes a sample in, drops the oldest one and returns the median of the three held.
    pub fn update(&mut self, sample: Double) -> (r: Double)
        ensures
            final(self).buf@ == seq![old(self).buf@[1], old(self).buf@[2], sample],
            r == median(old(self).buf@[1], old(self).buf@[2], sample),
    {
        let a: Double = self.buf[1];
        let b: Double = self.buf[2];
        self.buf = [a, b, sample];
        let (low, high) = if b.less(a) { (b, a) } else { (a, b) };
        let middle: Double = if sample.less(high) { sample } else { high };
        if middle.less(low) {
            low
        } else {
            middle
        }
    }
}

/// Of three numbers the filter returns one that is no less than two of them, itself counted, and
/// no greater than two of them.
pub proof fn law_median_is_between(a: Double, b: Double, c: Double)
    requires
        !a.is_nan(),
        !b.is_nan(),
        !c.is_nan(),
    ensures
        median(a, b, c) == a || median(a, b, c) == b || median(a, b, c) == c,
        ({
            let m = median(a, b, c);
            ||| a.at_most(m) && m.at_most(b)
            ||| b.at_most(m) && m.at_most(a)
            ||| a.at_most(m) && m.at_most(c)
            ||| c.at_most(m) && m.at_most(a)
            ||| b.at_most(m) && m.at_most(c)
            ||| c.at_most(m) && m.at_most(b)
        }),
{
}

/// A single stray sample, wherever it stands among the three, does not get through.
pub proof fn law_spike_is_rejected(level: Double, spike: Double)
    requires
        !level.is_nan(),
        !spike.is_nan(),
    ensures
        median(level, level, spike).same(level),
        median(level, spike, level).same(level),
        median(spike, level, level).same(level),
{
}

/// A step of the light is followed at its second sample.
pub proof fn law_step_is_followed(before: Double, after: Double)
    requires
        !before.is_nan(),
        !after.is_nan(),
    ensures
        median(before, before, after).same(before),
        median(before, after, after).same(after),
        median(after, after, after) == after,
{
}

} // verus!
