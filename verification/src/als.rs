//! The ambient light sensor: its values, its events and the protocol with the service that owns it.

use vstd::prelude::*;
use crate::double::Double;
use crate::text::same_text;

verus! {

/// How a light level came in: by a signal of the sensor or by polling.
#[derive(Debug, Clone, Copy, PartialEq, Eq, Structural)]
pub enum LuxSource {
    Signal,
    Poll,
}

/// What the listener reports to the daemon.
#[derive(Debug, Clone, Copy, PartialEq, Eq, Structural)]
pub enum DaemonEvent {
    LuxChanged { lux: Double, source: LuxSource },
    PrepareForSleep { going_to_sleep: bool, resume_lux: Option<Double> },
}

/// A value of the message bus, as far as it can hold a light level.
#[derive(Debug)]
pub enum SensorValue {
    F64(Double),
    U64(u64),
    I64(i64),
    U32(u32),
    I32(i32),
    /// A value in a value.
    Value(Box<SensorValue>),
    /// A value of any other type.
    Other,
}

/// The number that a value holds, where it holds one.
pub open spec fn number_in(val: SensorValue) -> Option<Double>
    decreases val,
{
    match val {
        SensorValue::F64(v) => Some(v),
        SensorValue::U64(v) => Some(Double::of_int(v as int)),
        SensorValue::I64(v) => Some(Double::of_int(v as int)),
        SensorValue::U32(v) => Some(Double::of_int(v as int)),
        SensorValue::I32(v) => Some(Double::of_int(v as int)),
        SensorValue::Value(inner) => number_in(*inner),
        SensorValue::Other => None,
    }
}

/// The number that a value holds, where it holds one.
pub fn extract_f64_from_value(val: &SensorValue) -> (r: Option<Double>)
    ensures
        r == number_in(*val),
    decreases *val,
{
    match val {
        SensorValue::F64(v) => Some(*v),
        SensorValue::U64(v) => Some(Double::from_u64(*v)),
        SensorValue::I64(v) => Some(Double::from_i64(*v)),
        SensorValue::U32(v) => Some(Double::from_u64(*v as u64)),
        SensorValue::I32(v) => Some(Double::from_i64(*v as i64)),
        SensorValue::Value(inner) => extract_f64_from_value(inner),
        SensorValue::Other => None,
    }
}

/// The first of the changed properties that is called `LightLevel`.
pub open spec fn light_level(changed: Seq<(String, SensorValue)>) -> Option<Double>
    decreases changed.len(),
{
    if changed.len() == 0 {
        None
    } else if changed[0].0@ == "LightLevel"@ {
        number_in(changed[0].1)
    } else {
        light_level(changed.drop_first())
    }
}

/// The light level among the changed properties of a signal.
pub fn extract_light_level_from_signal(changed: &Vec<(String, SensorValue)>) -> (r: Option<Double>)
    ensures
        r == light_level(changed@),
{
    let mut i: usize = 0;
    assert(changed@.skip(0) =~= changed@);
    while i < changed.len()
        invariant
            i <= changed@.len(),
            light_level(changed@) == light_level(changed@.skip(i as int)),
        decreases changed@.len() - i,
    {
        assert(changed@.skip(i as int).drop_first() =~= changed@.skip(i + 1));
        if same_text(changed[i].0.as_str(), "LightLevel") {
            return extract_f64_from_value(&changed[i].1);
        }
        i = i + 1;
    }
    None
}

// ---------------------------------------------------------------------------
// A single reading
// ---------------------------------------------------------------------------

/// The next step of a single reading of the sensor. `ours` says whether the sensor was claimed for
/// this reading.
#[derive(Debug, Clone, Copy, PartialEq, Eq, Structural)]
pub enum LiveReading {
    /// Claim the sensor.
    Claim,
    /// Wait until the sensor has woken up and measured.
    Settle { ours: bool },
    /// Ask for the light level.
    Ask { ours: bool },
    /// Release the sensor.
    Release { lux: Option<Double> },
    /// The reading is over.
    Done { lux: Option<Double> },
}

/// What came of a step of a single reading.
#[derive(Debug, Clone, Copy, PartialEq, Eq, Structural)]
pub enum ReadingOutcome {
    Claimed(bool),
    Settled,
    Answered(Option<Double>),
    Released,
}

/// How long the sensor is given to wake up and measure, in milliseconds.
pub const SETTLE_MS: u64 = 150;

/// The first step of a reading.
pub open spec fn first_step(claimed_before: bool) -> LiveReading {
    if claimed_before {
        LiveReading::Settle { ours: false }
    } else {
        LiveReading::Claim
    }
}

/// The step after one with the given outcome. An outcome that does not belong to the step leaves it.
pub open spec fn next_step(step: LiveReading, outcome: ReadingOutcome) -> LiveReading {
    match (step, outcome) {
        (LiveReading::Claim, ReadingOutcome::Claimed(done)) => if done {
            LiveReading::Settle { ours: true }
        } else {
            LiveReading::Done { lux: None }
        },
        (LiveReading::Settle { ours }, ReadingOutcome::Settled) => LiveReading::Ask { ours },
        (LiveReading::Ask { ours }, ReadingOutcome::Answered(lux)) => if ours {
            LiveReading::Release { lux }
        } else {
            LiveReading::Done { lux }
        },
        (LiveReading::Release { lux }, ReadingOutcome::Released) => LiveReading::Done { lux },
        _ => step,
    }
}

impl LiveReading {
    /// Starts a reading.
    pub fn start(claimed_before: bool) -> (r: Self)
        ensures
            r == first_step(claimed_before),
    {
        if claimed_before {
            LiveReading::Settle { ours: false }
        } else {
            LiveReading::Claim
        }
    }

    /// Goes on after a step.
    pub fn next(self, outcome: ReadingOutcome) -> (r: Self)
        ensures
            r == next_step(self, outcome),
    {
        match (self, outcome) {
            (LiveReading::Claim, ReadingOutcome::Claimed(done)) => if done {
                LiveReading::Settle { ours: true }
            } else {
                LiveReading::Done { lux: None }
            },
            (LiveReading::Settle { ours }, ReadingOutcome::Settled) => LiveReading::Ask { ours },
            (LiveReading::Ask { ours }, ReadingOutcome::Answered(lux)) => if ours {
                LiveReading::Release { lux }
            } else {
                LiveReading::Done { lux }
            },
            (LiveReading::Release { lux }, ReadingOutcome::Released) => LiveReading::Done { lux },
            _ => self,
        }
    }
}

/// A reading that claims the sensor releases it before it is over, and returns the answer; one that
/// cannot claim it returns nothing; one that finds it claimed leaves it so.
pub proof fn law_reading_releases_its_claim(answer: Option<Double>)
    ensures
        ({
            let claimed = next_step(first_step(false), ReadingOutcome::Claimed(true));
            let asked = next_step(claimed, ReadingOutcome::Settled);
            let answered = next_step(asked, ReadingOutcome::Answered(answer));
            &&& answered == LiveReading::Release { lux: answer }
            &&& next_step(answered, ReadingOutcome::Released) == LiveReading::Done { lux: answer }
        }),
        next_step(first_step(false), ReadingOutcome::Claimed(false)) == (LiveReading::Done { lux: None }),
        ({
            let asked = next_step(first_step(true), ReadingOutcome::Settled);
            next_step(asked, ReadingOutcome::Answered(answer)) == LiveReading::Done { lux: answer }
        }),
{
}

// ---------------------------------------------------------------------------
// The listener
// ---------------------------------------------------------------------------

/// Why the listener has asked the sensor for the light level.
#[derive(Debug, Clone, Copy, PartialEq, Eq, Structural)]
pub enum Asking {
    Nothing,
    ForStart,
    ForResume,
    ForPoll,
}

/// The listener between the message bus and the daemon.
#[derive(Debug, Clone, Copy, PartialEq, Eq, Structural)]
pub struct Listener {
    pub is_sleeping: bool,
    pub asking: Asking,
}

/// What reaches the listener.
#[derive(Debug)]
pub enum ListenerEvent {
    /// The daemon shuts down.
    Shutdown,
    /// A message of the power manager, with its member and its argument as far as it has them.
    SleepMessage { member: Option<String>, going_to_sleep: Option<bool> },
    /// A message of the sensor, with its member and the light level as far as it has them.
    SensorMessage { member: Option<String>, lux: Option<Double> },
    /// A message of either stream could not be read.
    StreamError,
    /// Either stream has ended.
    StreamEnded,
    /// The wait for messages has run out. `poll_ms` is the interval that it was computed from.
    Timer { poll_ms: i64 },
    /// The answer of the sensor, where it gave a number.
    Answer { lux: Option<Double> },
}

/// What the listener does next.
#[derive(Debug, Clone, Copy, PartialEq, Eq, Structural)]
pub enum ListenerAction {
    /// Wait for the next message.
    Wait,
    /// Release the sensor and stop.
    Stop,
    /// Ask the sensor for the light level.
    Ask,
    /// Report an event, and stop where nobody takes it, if `needed` says so.
    Report { event: DaemonEvent, needed: bool },
}

/// The content of an optional text.
pub open spec fn is_text(s: Option<String>, text: Seq<char>) -> bool {
    s matches Some(s) && s@ == text
}

/// What the listener does on an event, and what it is then.
pub open spec fn reaction(l: Listener, event: ListenerEvent) -> (Listener, ListenerAction) {
    match event {
        ListenerEvent::Shutdown => (l, ListenerAction::Stop),
        ListenerEvent::StreamEnded => (l, ListenerAction::Stop),
        ListenerEvent::StreamError => (l, ListenerAction::Wait),
        ListenerEvent::SleepMessage { member, going_to_sleep } => match going_to_sleep {
            Some(sleep) => if !is_text(member, "PrepareForSleep"@) {
                (l, ListenerAction::Wait)
            } else if sleep {
                (
                    Listener { is_sleeping: true, ..l },
                    ListenerAction::Report {
                        event: DaemonEvent::PrepareForSleep { going_to_sleep: true, resume_lux: None },
                        needed: true,
                    },
                )
            } else {
                (Listener { is_sleeping: false, asking: Asking::ForResume }, ListenerAction::Ask)
            },
            None => (l, ListenerAction::Wait),
        },
        ListenerEvent::SensorMessage { member, lux } => match lux {
            Some(lux) => if l.is_sleeping || !is_text(member, "PropertiesChanged"@) {
                (l, ListenerAction::Wait)
            } else {
                (
                    l,
                    ListenerAction::Report {
                        event: DaemonEvent::LuxChanged { lux, source: LuxSource::Signal },
                        needed: true,
                    },
                )
            },
            None => (l, ListenerAction::Wait),
        },
        ListenerEvent::Timer { poll_ms } => if poll_ms > 0 && !l.is_sleeping {
            (Listener { asking: Asking::ForPoll, ..l }, ListenerAction::Ask)
        } else {
            (l, ListenerAction::Wait)
        },
        ListenerEvent::Answer { lux } => (
            Listener { asking: Asking::Nothing, ..l },
            match (l.asking, lux) {
                (Asking::ForResume, lux) => ListenerAction::Report {
                    event: DaemonEvent::PrepareForSleep { going_to_sleep: false, resume_lux: lux },
                    needed: true,
                },
                (Asking::ForPoll, Some(lux)) => ListenerAction::Report {
                    event: DaemonEvent::LuxChanged { lux, source: LuxSource::Poll },
                    needed: true,
                },
                (Asking::ForStart, Some(lux)) => ListenerAction::Report {
                    event: DaemonEvent::LuxChanged { lux, source: LuxSource::Poll },
                    needed: false,
                },
                _ => ListenerAction::Wait,
            },
        ),
    }
}

/// How long the listener waits for messages, in milliseconds: the polling interval, or an hour where
/// it does not poll.
pub open spec fn patience(l: Listener, poll_ms: i64) -> u64 {
    if poll_ms > 0 && !l.is_sleeping {
        poll_ms as u64
    } else {
        3_600_000
    }
}

fn is_member(member: &Option<String>, text: &str) -> (r: bool)
    ensures
        r == is_text(*member, text@),
{
    match member {
        Some(member) => same_text(member.as_str(), text),
        None => false,
    }
}

impl Listener {
    /// A listener that has asked for the first light level.
    pub fn new() -> (r: Self)
        ensures
            r == (Listener { is_sleeping: false, asking: Asking::ForStart }),
    {
        Listener { is_sleeping: false, asking: Asking::ForStart }
    }

    /// How long to wait for messages, in milliseconds.
    pub fn wait_ms(&self, poll_ms: i64) -> (r: u64)
        ensures
            r == patience(*self, poll_ms),
    {
        if poll_ms > 0 && !self.is_sleeping {
            poll_ms as u64
        } else {
            3_600_000
        }
    }

    /// Takes an event in and says what to do.
    pub fn react(&mut self, event: ListenerEvent) -> (r: ListenerAction)
        ensures
            (*final(self), r) == reaction(*old(self), event),
    {
        match event {
            ListenerEvent::Shutdown => ListenerAction::Stop,
            ListenerEvent::StreamEnded => ListenerAction::Stop,
            ListenerEvent::StreamError => ListenerAction::Wait,
            ListenerEvent::SleepMessage { member, going_to_sleep } => match going_to_sleep {
                Some(sleep) => {
                    if !is_member(&member, "PrepareForSleep") {
                        ListenerAction::Wait
                    } else if sleep {
                        self.is_sleeping = true;
                        ListenerAction::Report {
                            event: DaemonEvent::PrepareForSleep { going_to_sleep: true, resume_lux: None },
                            needed: true,
                        }
                    } else {
                        self.is_sleeping = false;
                        self.asking = Asking::ForResume;
                        ListenerAction::Ask
                    }
                },
                None => ListenerAction::Wait,
            },
            ListenerEvent::SensorMessage { member, lux } => match lux {
                Some(lux) => {
                    if self.is_sleeping || !is_member(&member, "PropertiesChanged") {
                        ListenerAction::Wait
                    } else {
                        ListenerAction::Report {
                            event: DaemonEvent::LuxChanged { lux, source: LuxSource::Signal },
                            needed: true,
                        }
                    }
                },
                None => ListenerAction::Wait,
            },
            ListenerEvent::Timer { poll_ms } => {
                if poll_ms > 0 && !self.is_sleeping {
                    self.asking = Asking::ForPoll;
                    ListenerAction::Ask
                } else {
                    ListenerAction::Wait
                }
            },
            ListenerEvent::Answer { lux } => {
                let asking: Asking = self.asking;
                self.asking = Asking::Nothing;
                match (asking, lux) {
                    (Asking::ForResume, lux) => ListenerAction::Report {
                        event: DaemonEvent::PrepareForSleep { going_to_sleep: false, resume_lux: lux },
                        needed: true,
                    },
                    (Asking::ForPoll, Some(lux)) => ListenerAction::Report {
                        event: DaemonEvent::LuxChanged { lux, source: LuxSource::Poll },
                        needed: true,
                    },
                    (Asking::ForStart, Some(lux)) => ListenerAction::Report {
                        event: DaemonEvent::LuxChanged { lux, source: LuxSource::Poll },
                        needed: false,
                    },
                    _ => ListenerAction::Wait,
                }
            },
        }
    }
}

/// While the system sleeps neither a signal of the sensor nor the timer is reported, and the sensor
/// is not asked.
pub proof fn law_nothing_is_reported_asleep(l: Listener, event: ListenerEvent)
    requires
        l.is_sleeping,
        event is SensorMessage || event is Timer,
    ensures
        reaction(l, event) == (l, ListenerAction::Wait),
{
}

/// On wake the sensor is asked before anything is reported, and the wake is then reported with its
/// answer.
pub proof fn law_wake_samples_first(l: Listener, message: ListenerEvent, answer: Option<Double>)
    requires
        message matches ListenerEvent::SleepMessage { member, going_to_sleep } && is_text(
            member,
            "PrepareForSleep"@,
        ) && going_to_sleep == Some(false),
    ensures
        reaction(l, message).1 == ListenerAction::Ask,
        ({
            let (after, action) = reaction(reaction(l, message).0, ListenerEvent::Answer { lux: answer });
            &&& !after.is_sleeping
            &&& action == ListenerAction::Report {
                event: DaemonEvent::PrepareForSleep { going_to_sleep: false, resume_lux: answer },
                needed: true,
            }
        }),
{
}

/// An interval that is not positive turns polling off: the listener waits an hour, and at the end of
/// the wait does not ask.
pub proof fn law_polling_can_be_turned_off(l: Listener, poll_ms: i64)
    requires
        poll_ms <= 0,
    ensures
        patience(l, poll_ms) == 3_600_000,
        reaction(l, ListenerEvent::Timer { poll_ms }) == (l, ListenerAction::Wait),
{
}

} // verus!
