//! What holds of the listener over its whole run.

use vstd::prelude::*;
use crate::als::{Asking, DaemonEvent, Listener, ListenerAction, ListenerEvent, LuxSource, SensorValue};
use crate::double::Double;

verus! {

/// `states` are what the listener goes through on `events`, and `actions` what it does on each. It starts
/// with a question to the sensor; an answer follows each question, and nothing else is an answer.
pub open spec fn listened(
    states: Seq<Listener>,
    events: Seq<ListenerEvent>,
    actions: Seq<ListenerAction>,
) -> bool {
    &&& states.len() == events.len() + 1
    &&& actions.len() == events.len()
    &&& states[0] == (Listener { is_sleeping: false, asking: Asking::ForStart })
    &&& forall|i: int|
        #![trigger events[i]]
        0 <= i < events.len() ==> (states[i + 1], actions[i]) == crate::als::reaction(states[i], events[i])
    &&& forall|i: int|
        0 <= i < events.len() ==> ((#[trigger] events[i] is Answer) <==> i == 0 || actions[i - 1] == ListenerAction::Ask)
}

/// The action reports that the system goes to sleep, or that it wakes.
pub open spec fn reports_sleep(action: ListenerAction, going_to_sleep: bool) -> bool {
    action matches ListenerAction::Report { event, needed: _ } && event matches DaemonEvent::PrepareForSleep {
        going_to_sleep: g,
        resume_lux: _,
    } && g == going_to_sleep
}

/// The action reports the light `lux`.
pub open spec fn reports_light(action: ListenerAction, lux: Double, source: LuxSource) -> bool {
    action matches ListenerAction::Report { event, needed: _ } && event == DaemonEvent::LuxChanged { lux, source }
}

/// The listener knows why it has asked exactly while a question is open; only the first was for the start.
proof fn lemma_asking(states: Seq<Listener>, events: Seq<ListenerEvent>, actions: Seq<ListenerAction>, i: int)
    requires
        listened(states, events, actions),
        1 <= i < states.len(),
    ensures
        actions[i - 1] == ListenerAction::Ask <==> states[i].asking != Asking::Nothing,
        states[i].asking != Asking::ForStart,
    decreases i,
{
    assert((states[i], actions[i - 1]) == crate::als::reaction(states[i - 1], events[i - 1]));
    if i > 1 {
        lemma_asking(states, events, actions, i - 1);
    }
}

/// After a reported sleep, and until the wake is reported, the listener sleeps, or is asking for the light
/// of the wake.
proof fn lemma_asleep(
    states: Seq<Listener>,
    events: Seq<ListenerEvent>,
    actions: Seq<ListenerAction>,
    a: int,
    i: int,
)
    requires
        listened(states, events, actions),
        0 <= a < i < states.len(),
        reports_sleep(actions[a], true),
        forall|k: int| a < k < i ==> !reports_sleep(#[trigger] actions[k], false),
    ensures
        (states[i].is_sleeping && states[i].asking == Asking::Nothing) || states[i].asking == Asking::ForResume,
    decreases i,
{
    assert((states[i], actions[i - 1]) == crate::als::reaction(states[i - 1], events[i - 1]));
    if i - 1 == a {
        if a > 0 {
            lemma_asking(states, events, actions, a);
            assert(!(events[a] is Answer));
        } else {
            assert(events[0] is Answer);
        }
    } else {
        lemma_asleep(states, events, actions, a, i - 1);
        lemma_asking(states, events, actions, i - 1);
        assert((events[i - 1] is Answer) <==> actions[i - 2] == ListenerAction::Ask);
        assert(!reports_sleep(actions[i - 1], false));
    }
}

/// Between a reported sleep and the next reported wake no light is reported, neither by a signal nor by a
/// poll.
pub proof fn law_no_light_is_reported_asleep(
    states: Seq<Listener>,
    events: Seq<ListenerEvent>,
    actions: Seq<ListenerAction>,
    a: int,
    b: int,
)
    requires
        listened(states, events, actions),
        0 <= a < b < actions.len(),
        reports_sleep(actions[a], true),
        forall|k: int| a < k < b ==> !reports_sleep(#[trigger] actions[k], false),
    ensures
        forall|lux: Double, source: LuxSource| !reports_light(actions[b], lux, source),
{
    assert((states[b + 1], actions[b]) == crate::als::reaction(states[b], events[b]));
    lemma_asleep(states, events, actions, a, b);
    lemma_asking(states, events, actions, b);
    assert((events[b] is Answer) <==> actions[b - 1] == ListenerAction::Ask);
}

/// With polling turned off the listener never asks for a poll.
proof fn lemma_no_poll(states: Seq<Listener>, events: Seq<ListenerEvent>, actions: Seq<ListenerAction>, i: int)
    requires
        listened(states, events, actions),
        forall|k: int|
            0 <= k < events.len() ==> ((#[trigger] events[k]) matches ListenerEvent::Timer { poll_ms } ==> poll_ms <= 0),
        0 <= i < states.len(),
    ensures
        states[i].asking != Asking::ForPoll,
    decreases i,
{
    if i > 0 {
        assert((states[i], actions[i - 1]) == crate::als::reaction(states[i - 1], events[i - 1]));
        lemma_no_poll(states, events, actions, i - 1);
    }
}

/// With polling turned off all along, the only light that may be reported as polled is that of the first
/// answer. Every later one comes from a signal, and is the light of a message that properties have changed.
pub proof fn law_only_signals_are_reported_without_polling(
    states: Seq<Listener>,
    events: Seq<ListenerEvent>,
    actions: Seq<ListenerAction>,
    i: int,
    lux: Double,
    source: LuxSource,
)
    requires
        listened(states, events, actions),
        forall|k: int|
            0 <= k < events.len() ==> ((#[trigger] events[k]) matches ListenerEvent::Timer { poll_ms } ==> poll_ms <= 0),
        0 <= i < actions.len(),
        reports_light(actions[i], lux, source),
    ensures
        source == LuxSource::Poll ==> i == 0,
        i > 0 ==> {
            &&& source == LuxSource::Signal
            &&& events[i] matches ListenerEvent::SensorMessage { member, lux: level } && crate::als::is_text(
                member,
                "PropertiesChanged"@,
            ) && level == Some(lux)
        },
{
    assert((states[i + 1], actions[i]) == crate::als::reaction(states[i], events[i]));
    lemma_no_poll(states, events, actions, i);
    if i > 0 {
        lemma_asking(states, events, actions, i);
    } else {
        assert(events[0] is Answer);
    }
}

// ---------------------------------------------------------------------------
// What is reported
// ---------------------------------------------------------------------------

/// Awake, the listener reports every light that a signal brings, as that of a signal; other messages and messages
/// without a light it passes over.
pub proof fn law_signals_are_reported_awake(l: Listener, message: ListenerEvent)
    requires
        !l.is_sleeping,
        message is SensorMessage,
    ensures
        crate::als::reaction(l, message).0 == l,
        message matches ListenerEvent::SensorMessage { member: Some(m), lux: Some(lux) } ==> m@ == "PropertiesChanged"@
            ==> crate::als::reaction(l, message).1 == (ListenerAction::Report {
            event: DaemonEvent::LuxChanged { lux, source: LuxSource::Signal },
            needed: true,
        }),
        message matches ListenerEvent::SensorMessage { member: Some(m), lux } ==> m@ != "PropertiesChanged"@
            ==> crate::als::reaction(l, message).1 == ListenerAction::Wait,
        message matches ListenerEvent::SensorMessage { member: None, lux } ==> crate::als::reaction(l, message).1
            == ListenerAction::Wait,
        message matches ListenerEvent::SensorMessage { member, lux: None } ==> crate::als::reaction(l, message).1
            == ListenerAction::Wait,
{
}

/// Awake and with an interval, the listener waits for the interval, asks the sensor at its end, and reports the
/// answer as polled; where there is no answer, it waits on.
pub proof fn law_polls_are_reported_awake(l: Listener, poll_ms: i64, lux: Option<Double>)
    requires
        !l.is_sleeping,
        poll_ms > 0,
    ensures
        crate::als::patience(l, poll_ms) == poll_ms,
        ({
            let (asking, action) = crate::als::reaction(l, ListenerEvent::Timer { poll_ms });
            let (after, report) = crate::als::reaction(asking, ListenerEvent::Answer { lux });
            &&& action == ListenerAction::Ask
            &&& !asking.is_sleeping
            &&& !after.is_sleeping
            &&& after.asking == Asking::Nothing
            &&& report == (match lux {
                Some(lux) => ListenerAction::Report {
                    event: DaemonEvent::LuxChanged { lux, source: LuxSource::Poll },
                    needed: true,
                },
                None => ListenerAction::Wait,
            })
        }),
{
}

/// The first light is reported where the sensor answers, whether or not somebody takes it.
pub proof fn law_first_light_is_reported(lux: Double)
    ensures
        ({
            let start = Listener { is_sleeping: false, asking: Asking::ForStart };
            &&& crate::als::reaction(start, ListenerEvent::Answer { lux: Some(lux) }).1 == (ListenerAction::Report {
                event: DaemonEvent::LuxChanged { lux, source: LuxSource::Poll },
                needed: false,
            })
            &&& crate::als::reaction(start, ListenerEvent::Answer { lux: None }).1 == ListenerAction::Wait
        }),
{
}

/// A sleep is reported at once, from whatever state, and the listener then waits without polling.
pub proof fn law_sleep_is_reported(l: Listener, message: ListenerEvent, poll_ms: i64)
    requires
        message matches ListenerEvent::SleepMessage { member: Some(m), going_to_sleep: Some(true) } && m@
            == "PrepareForSleep"@,
    ensures
        ({
            let (after, action) = crate::als::reaction(l, message);
            &&& after.is_sleeping
            &&& after.asking == l.asking
            &&& action == (ListenerAction::Report {
                event: DaemonEvent::PrepareForSleep { going_to_sleep: true, resume_lux: None },
                needed: true,
            })
            &&& crate::als::patience(after, poll_ms) == 3_600_000
        }),
{
}

/// Messages of the power manager about something else, or that do not say what, change nothing; nor does a
/// message that cannot be read. The listener stops when the daemon does, and when a stream ends, and never else.
pub proof fn law_listener_stops_only_when_told(l: Listener, event: ListenerEvent)
    ensures
        crate::als::reaction(l, event).1 == ListenerAction::Stop <==> event is Shutdown || event is StreamEnded,
        event is StreamError ==> crate::als::reaction(l, event) == (l, ListenerAction::Wait),
        event matches ListenerEvent::SleepMessage { member, going_to_sleep: None } ==> crate::als::reaction(l, event) == (
            l,
            ListenerAction::Wait,
        ),
        event matches ListenerEvent::SleepMessage { member: Some(m), going_to_sleep } ==> m@ != "PrepareForSleep"@
            ==> crate::als::reaction(l, event) == (l, ListenerAction::Wait),
        event matches ListenerEvent::SleepMessage { member: None, going_to_sleep } ==> crate::als::reaction(l, event) == (
            l,
            ListenerAction::Wait,
        ),
{
}

// ---------------------------------------------------------------------------
// Values
// ---------------------------------------------------------------------------

/// A whole number of the message bus is the light it says, exactly up to `2^53`; wrapping a value does not change
/// it; what is no number is none.
pub proof fn law_numbers_are_what_they_say(n: u32, i: i32, u: u64, s: i64, inner: SensorValue)
    ensures
        crate::als::number_in(SensorValue::U32(n)) matches Some(d) && crate::measure::value(d) == n as real,
        crate::als::number_in(SensorValue::I32(i)) matches Some(d) && crate::measure::value(d) == i as real,
        u <= 0x20_0000_0000_0000 ==> (crate::als::number_in(SensorValue::U64(u)) matches Some(d)
            && crate::measure::value(d) == u as real),
        -0x20_0000_0000_0000 <= s <= 0x20_0000_0000_0000 ==> (crate::als::number_in(SensorValue::I64(s)) matches Some(d)
            && crate::measure::value(d) == s as real),
        crate::als::number_in(SensorValue::Value(Box::new(inner))) == crate::als::number_in(inner),
        crate::als::number_in(SensorValue::Other) is None,
{
    crate::measure::lemma_of_int(n as int);
    crate::measure::lemma_of_int(i as int);
    if u <= 0x20_0000_0000_0000 {
        crate::measure::lemma_of_int(u as int);
    }
    if -0x20_0000_0000_0000 <= s <= 0x20_0000_0000_0000 {
        crate::measure::lemma_of_int(s as int);
    }
}

/// The light among changed properties is the first that is called so, wherever it stands; without one there is none.
pub proof fn law_first_light_level_counts(changed: Seq<(String, SensorValue)>, k: int)
    requires
        0 <= k <= changed.len(),
        forall|i: int| 0 <= i < k ==> (#[trigger] changed[i]).0@ != "LightLevel"@,
    ensures
        k == changed.len() ==> crate::als::light_level(changed) is None,
        k < changed.len() && changed[k].0@ == "LightLevel"@ ==> crate::als::light_level(changed)
            == crate::als::number_in(changed[k].1),
    decreases k,
{
    if k > 0 {
        let rest = changed.drop_first();
        assert(changed[0].0@ != "LightLevel"@);
        assert forall|i: int| 0 <= i < k - 1 implies (#[trigger] rest[i]).0@ != "LightLevel"@ by {
            assert(rest[i] == changed[i + 1]);
        }
        law_first_light_level_counts(rest, k - 1);
        if k < changed.len() {
            assert(rest[k - 1] == changed[k]);
        }
    }
}

} // verus!
