//! Backlight controllers: their choice, their range and their scale.

use vstd::prelude::*;
use crate::double::Double;
use crate::double::{HUNDRED, ONE, ZERO};
use crate::text::{characters, contains_text, parse_integer, same_text, trim, trim_bounds};

verus! {

/// A backlight controller with the range of raw values that it is used in.
#[derive(Debug)]
pub struct BacklightDevice {
    pub name: String,
    pub path: String,
    pub hw_max_brightness: Double,
    pub min_allowed_raw: Double,
    pub max_allowed_raw: Double,
}

/// A controller that was found: its name, its directory, what its file `max_brightness` holds, where
/// that is a number, and what its file `type` holds.
#[derive(Debug)]
pub struct Candidate {
    pub name: String,
    pub path: String,
    pub max_brightness: Option<i64>,
    pub kind: String,
}

/// How much a controller is wanted. With a preferred name only that one is; without one, native GPU
/// backlights come before platform ones and those before the firmware's.
pub open spec fn priority(preferred: Option<Seq<char>>, name: Seq<char>, kind: Seq<char>) -> int {
    match preferred {
        Some(wanted) => if name == wanted { 100 } else { 0 },
        None => {
            let kind = crate::text::trimmed(kind);
            if kind == "raw"@ || crate::text::holds(name, "intel"@) || crate::text::holds(name, "amdgpu"@)
                || crate::text::holds(name, "nvidia"@) {
                30
            } else if kind == "platform"@ {
                20
            } else {
                10
            }
        },
    }
}

/// How much a controller is wanted.
pub fn find_priority(preferred: Option<&str>, name: &str, kind: &str) -> (r: i32)
    ensures
        r == priority(crate::config::content(preferred), name@, kind@),
{
    match preferred {
        Some(wanted) => if same_text(name, wanted) {
            100
        } else {
            0
        },
        None => {
            let kind: String = trim(kind);
            if same_text(kind.as_str(), "raw") || contains_text(name, "intel") || contains_text(name, "amdgpu")
                || contains_text(name, "nvidia") {
                30
            } else if same_text(kind.as_str(), "platform") {
                20
            } else {
                10
            }
        },
    }
}

impl Candidate {
    /// Its range is known and not empty.
    pub open spec fn usable(&self) -> bool {
        self.max_brightness matches Some(n) && n > 0
    }

    /// How much it is wanted.
    pub open spec fn rating(&self, preferred: Option<Seq<char>>) -> int {
        priority(preferred, self.name@, self.kind@)
    }
}

/// `i` is the first of the usable candidates that are wanted most.
pub open spec fn chosen(candidates: Seq<Candidate>, preferred: Option<Seq<char>>, i: int) -> bool {
    &&& 0 <= i < candidates.len()
    &&& candidates[i].usable()
    &&& forall|j: int|
        #![trigger candidates[j]]
        0 <= j < candidates.len() && candidates[j].usable() ==> {
            &&& candidates[j].rating(preferred) <= candidates[i].rating(preferred)
            &&& j < i ==> candidates[j].rating(preferred) < candidates[i].rating(preferred)
        }
}

/// The raw value of the lowest brightness: a percentage of the range, but one at least.
pub open spec fn lowest_raw(hw_max: Double, percent: Double) -> Double {
    hw_max.times(percent.over(Double::from_bits(HUNDRED))).rounded().greater_of(Double::from_bits(ONE))
}

/// The raw value of the highest brightness: a percentage of the range, but all of it at most.
pub open spec fn highest_raw(hw_max: Double, percent: Double) -> Double {
    hw_max.times(percent.over(Double::from_bits(HUNDRED))).rounded().lesser_of(hw_max)
}

/// What is left between the lowest and the highest raw value, one at least.
pub open spec fn span(low: Double, high: Double) -> Double {
    high.minus(low).greater_of(Double::from_bits(ONE))
}

impl BacklightDevice {
    /// The first of the usable candidates that are wanted most, to be used between `min_percent`
    /// and `max_percent` of its range. `None` where no candidate is usable.
    pub fn discover(
        candidates: &Vec<Candidate>,
        preferred_name: Option<&str>,
        min_percent: Double,
        max_percent: Double,
    ) -> (r: Option<Self>)
        ensures
            r is None <==> forall|j: int| 0 <= j < candidates@.len() ==> !(#[trigger] candidates@[j]).usable(),
            r matches Some(dev) ==> exists|i: int| {
                &&& #[trigger] chosen(candidates@, crate::config::content(preferred_name), i)
                &&& dev.name@ == candidates@[i].name@
                &&& dev.path@ == candidates@[i].path@
                &&& dev.hw_max_brightness == Double::of_int(candidates@[i].max_brightness->0 as int)
                &&& dev.min_allowed_raw == lowest_raw(dev.hw_max_brightness, min_percent)
                &&& dev.max_allowed_raw == highest_raw(dev.hw_max_brightness, max_percent)
            },
    {
        let ghost preferred = crate::config::content(preferred_name);
        let mut best: Option<(usize, i32, i64)> = None;
        let mut i: usize = 0;
        while i < candidates.len()
            invariant
                i <= candidates@.len(),
                preferred == crate::config::content(preferred_name),
                match best {
                    None => forall|j: int| 0 <= j < i ==> !(#[trigger] candidates@[j]).usable(),
                    Some((b, rating, max)) => {
                        &&& chosen(candidates@.take(i as int), preferred, b as int)
                        &&& rating == candidates@[b as int].rating(preferred)
                        &&& candidates@[b as int].max_brightness == Some(max)
                    },
                },
            decreases candidates@.len() - i,
        {
            let ghost before = candidates@.take(i as int);
            let ghost after = candidates@.take(i + 1);
            assert forall|j: int| 0 <= j < i implies #[trigger] after[j] == before[j] by {}
            assert(after[i as int] == candidates@[i as int]);
            if let Some(max) = candidates[i].max_brightness {
                if max > 0 {
                    let rating: i32 = find_priority(
                        preferred_name,
                        candidates[i].name.as_str(),
                        candidates[i].kind.as_str(),
                    );
                    match best {
                        None => {
                            best = Some((i, rating, max));
                        },
                        Some((b, best_rating, _)) => {
                            if rating > best_rating {
                                best = Some((i, rating, max));
                            }
                        },
                    }
                }
            }
            i = i + 1;
        }
        assert(candidates@.take(candidates@.len() as int) =~= candidates@);
        match best {
            None => None,
            Some((b, _, max)) => {
                let hw_max: Double = Double::from_i64(max);
                let r: BacklightDevice = BacklightDevice {
                    name: candidates[b].name.clone(),
                    path: candidates[b].path.clone(),
                    hw_max_brightness: hw_max,
                    min_allowed_raw: find_lowest_raw(hw_max, min_percent),
                    max_allowed_raw: find_highest_raw(hw_max, max_percent),
                };
                assert(chosen(candidates@, preferred, b as int));
                Some(r)
            },
        }
    }

    /// Moves the range to other percentages.
    pub fn set_range(&mut self, min_percent: Double, max_percent: Double)
        ensures
            final(self).min_allowed_raw == lowest_raw(old(self).hw_max_brightness, min_percent),
            final(self).max_allowed_raw == highest_raw(old(self).hw_max_brightness, max_percent),
            final(self).hw_max_brightness == old(self).hw_max_brightness,
            final(self).name == old(self).name,
            final(self).path == old(self).path,
    {
        self.min_allowed_raw = find_lowest_raw(self.hw_max_brightness, min_percent);
        self.max_allowed_raw = find_highest_raw(self.hw_max_brightness, max_percent);
    }

    /// Whether the range holds a raw value.
    pub fn has_range(&self) -> (r: bool)
        ensures
            r == (self.min_allowed_raw.at_most(self.max_allowed_raw) && self.min_allowed_raw.to_i64()
                <= self.max_allowed_raw.to_i64()),
    {
        self.min_allowed_raw.at_most(self.max_allowed_raw) && self.min_allowed_raw.to_i64()
            <= self.max_allowed_raw.to_i64()
    }

    /// The raw value that is written for `val`: the nearest one in the range.
    pub open spec fn written_for(&self, val: u32) -> u32 {
        Double::of_int(val as int).clamp(self.min_allowed_raw, self.max_allowed_raw).rounded().to_u32()
    }

    /// The raw value that is written for `val`: the nearest one in the range.
    pub fn set_brightness(&self, val: u32) -> (r: u32)
        requires
            self.min_allowed_raw.at_most(self.max_allowed_raw),
        ensures
            r == Double::of_int(val as int).clamp(
                self.min_allowed_raw,
                self.max_allowed_raw,
            ).rounded().to_u32(),
            r == self.written_for(val),
    {
        Double::from_u64(val as u64).clamp(self.min_allowed_raw, self.max_allowed_raw).rounded().to_u32()
    }

    /// What is said where nobody took the raw value.
    pub fn sending_error(&self) -> (r: String)
        ensures
            r@ == "Failed to set brightness for "@ + self.name@,
    {
        let mut r: String = "Failed to set brightness for ".to_owned();
        r.append(self.name.as_str());
        r
    }

    /// The raw value for a brightness on the curve.
    pub open spec fn raw_for(&self, curve_br: Double) -> i64 {
        let zero = Double::from_bits(ZERO);
        let one = Double::from_bits(ONE);
        let span = span(self.min_allowed_raw, self.max_allowed_raw);
        let raw = self.min_allowed_raw.plus(curve_br.clamp(zero, one).times(span)).rounded().to_i64();
        let low = self.min_allowed_raw.to_i64();
        let high = self.max_allowed_raw.to_i64();
        if raw < low {
            low
        } else if raw > high {
            high
        } else {
            raw
        }
    }

    /// The raw value for a brightness on the curve, a fraction of the allowed range.
    pub fn curve_to_hw(&self, curve_br: Double) -> (r: i64)
        requires
            self.min_allowed_raw.to_i64() <= self.max_allowed_raw.to_i64(),
        ensures
            r == self.raw_for(curve_br),
    {
        let zero: Double = Double::from_bits(ZERO);
        let one: Double = Double::from_bits(ONE);
        let span: Double = self.max_allowed_raw.minus(self.min_allowed_raw).greater_of(one);
        let raw: i64 = self.min_allowed_raw.plus(curve_br.clamp(zero, one).times(span)).rounded().to_i64();
        let low: i64 = self.min_allowed_raw.to_i64();
        let high: i64 = self.max_allowed_raw.to_i64();
        if raw < low {
            low
        } else if raw > high {
            high
        } else {
            raw
        }
    }

    /// The brightness on the curve for a raw value.
    pub open spec fn fraction_of(&self, hw_br: i64) -> Double {
        Double::of_int(hw_br as int).minus(self.min_allowed_raw).over(
            span(self.min_allowed_raw, self.max_allowed_raw),
        ).clamp(Double::from_bits(ZERO), Double::from_bits(ONE))
    }

    /// The brightness on the curve, a fraction of the allowed range, for a raw value.
    pub fn hw_to_curve(&self, hw_br: i64) -> (r: Double)
        ensures
            r == self.fraction_of(hw_br),
    {
        let one: Double = Double::from_bits(ONE);
        let span: Double = self.max_allowed_raw.minus(self.min_allowed_raw).greater_of(one);
        Double::from_i64(hw_br).minus(self.min_allowed_raw).over(span).clamp(Double::from_bits(ZERO), one)
    }

    /// A raw value in percent of the whole range.
    pub open spec fn percent_of(&self, hw_val: i64) -> Double {
        let zero = Double::from_bits(ZERO);
        let hundred = Double::from_bits(HUNDRED);
        if zero.less(self.hw_max_brightness) {
            Double::of_int(if hw_val < 0 { 0 } else { hw_val as int }).over(
                self.hw_max_brightness,
            ).times(hundred).rounded().clamp(zero, hundred)
        } else {
            zero
        }
    }

    /// A raw value in percent of the whole range.
    pub fn hw_to_percent(&self, hw_val: i64) -> (r: Double)
        ensures
            r == self.percent_of(hw_val),
    {
        let zero: Double = Double::from_bits(ZERO);
        let hundred: Double = Double::from_bits(HUNDRED);
        if zero.less(self.hw_max_brightness) {
            let val: i64 = if hw_val < 0 {
                0
            } else {
                hw_val
            };
            Double::from_i64(val).over(self.hw_max_brightness).times(hundred).rounded().clamp(zero, hundred)
        } else {
            zero
        }
    }
}

// ---------------------------------------------------------------------------
// Sending
// ---------------------------------------------------------------------------

/// The next step of sending a raw value to a controller.
#[derive(Debug, Clone, Copy, PartialEq, Eq, Structural)]
pub enum Sending {
    /// Hand it to logind.
    Logind,
    /// Write it to the file of the controller.
    File,
    /// It is sent.
    Sent,
    /// Nobody took it.
    Failed,
}

/// The first step: logind, where the message bus is there.
pub open spec fn first_sending(has_bus: bool) -> Sending {
    if has_bus {
        Sending::Logind
    } else {
        Sending::File
    }
}

/// The step after one that was `done` or not. Where logind does not take the value, it goes to the file.
pub open spec fn next_sending(step: Sending, done: bool) -> Sending {
    match step {
        Sending::Logind => if done {
            Sending::Sent
        } else {
            Sending::File
        },
        Sending::File => if done {
            Sending::Sent
        } else {
            Sending::Failed
        },
        _ => step,
    }
}

impl Sending {
    /// Starts to send.
    pub fn start(has_bus: bool) -> (r: Self)
        ensures
            r == first_sending(has_bus),
    {
        if has_bus {
            Sending::Logind
        } else {
            Sending::File
        }
    }

    /// Goes on after a step that was `done` or not.
    pub fn next(self, done: bool) -> (r: Self)
        ensures
            r == next_sending(self, done),
    {
        match self {
            Sending::Logind => if done {
                Sending::Sent
            } else {
                Sending::File
            },
            Sending::File => if done {
                Sending::Sent
            } else {
                Sending::Failed
            },
            _ => self,
        }
    }
}

/// The raw value of the lowest brightness.
pub fn find_lowest_raw(hw_max: Double, percent: Double) -> (r: Double)
    ensures
        r == lowest_raw(hw_max, percent),
{
    hw_max.times(percent.over(Double::from_bits(HUNDRED))).rounded().greater_of(Double::from_bits(ONE))
}

/// The raw value of the highest brightness.
pub fn find_highest_raw(hw_max: Double, percent: Double) -> (r: Double)
    ensures
        r == highest_raw(hw_max, percent),
{
    hw_max.times(percent.over(Double::from_bits(HUNDRED))).rounded().lesser_of(hw_max)
}

/// Calls `std::str::from_utf8`: the text that the bytes encode, where they are valid UTF-8.
#[verifier::external_body]
fn decode(bytes: &[u8]) -> (r: Option<&str>)
    ensures
        r is Some <==> vstd::utf8::valid_utf8(bytes@),
        r matches Some(s) ==> s@ == vstd::utf8::decode_utf8(bytes@),
{
    std::str::from_utf8(bytes).ok()
}

/// The number that the bytes of a sysfs file write: an `i64` with white space round it, as UTF-8.
pub open spec fn sysfs_number(bytes: Seq<u8>) -> Option<i64> {
    if bytes.len() > 0 && vstd::utf8::valid_utf8(bytes) {
        crate::text::integer(crate::text::trimmed(vstd::utf8::decode_utf8(bytes)))
    } else {
        None
    }
}

/// The number that the bytes read from a sysfs file write.
pub fn read_sysfs_buffer(bytes: &[u8]) -> (r: Option<i64>)
    ensures
        r == sysfs_number(bytes@),
{
    if bytes.len() == 0 {
        return None;
    }
    match decode(bytes) {
        Some(s) => {
            let chars: Vec<char> = characters(s);
            let (from, to) = trim_bounds(&chars);
            parse_integer(&chars, from, to)
        },
        None => None,
    }
}

} // verus!
