use kirialsd::als::{
    extract_f64_from_value, extract_light_level_from_signal, Asking, DaemonEvent, Listener, ListenerAction,
    ListenerEvent, LiveReading, LuxSource, ReadingOutcome, SensorValue, SETTLE_MS,
};
use kirialsd::double::Double;

fn d(x: f64) -> Double {
    Double::from_bits(x.to_bits())
}

#[test]
fn test_als_value_extraction() {
    let val_f64 = SensorValue::F64(d(42.5));
    assert_eq!(extract_f64_from_value(&val_f64), Some(d(42.5)));

    let val_u32 = SensorValue::U32(100);
    assert_eq!(extract_f64_from_value(&val_u32), Some(d(100.0)));

    let val_i64 = SensorValue::I64(-15);
    assert_eq!(extract_f64_from_value(&val_i64), Some(d(-15.0)));

    let val_str = SensorValue::Other;
    assert_eq!(extract_f64_from_value(&val_str), None);
}

#[test]
fn values_of_every_number_type() {
    assert_eq!(extract_f64_from_value(&SensorValue::U64(u64::MAX)), Some(d(u64::MAX as f64)));
    assert_eq!(extract_f64_from_value(&SensorValue::I32(-7)), Some(d(-7.0)));
    let nested = SensorValue::Value(Box::new(SensorValue::Value(Box::new(SensorValue::U32(3)))));
    assert_eq!(extract_f64_from_value(&nested), Some(d(3.0)));
    assert_eq!(extract_f64_from_value(&SensorValue::Value(Box::new(SensorValue::Other))), None);
}

#[test]
fn the_light_level_of_a_signal() {
    let changed = vec![
        ("HasAccelerometer".to_string(), SensorValue::U32(1)),
        ("LightLevel".to_string(), SensorValue::F64(d(12.5))),
    ];
    assert_eq!(extract_light_level_from_signal(&changed), Some(d(12.5)));
    let other = vec![("LightLevelUnit".to_string(), SensorValue::Other)];
    assert_eq!(extract_light_level_from_signal(&other), None);
    let unreadable = vec![("LightLevel".to_string(), SensorValue::Other)];
    assert_eq!(extract_light_level_from_signal(&unreadable), None);
    assert_eq!(extract_light_level_from_signal(&vec![]), None);
}

#[test]
fn a_reading_releases_what_it_claims() {
    assert_eq!(SETTLE_MS, 150);
    let step = LiveReading::start(false);
    assert_eq!(step, LiveReading::Claim);
    let step = step.next(ReadingOutcome::Claimed(true));
    assert_eq!(step, LiveReading::Settle { ours: true });
    let step = step.next(ReadingOutcome::Settled);
    assert_eq!(step, LiveReading::Ask { ours: true });
    let step = step.next(ReadingOutcome::Answered(Some(d(80.0))));
    assert_eq!(step, LiveReading::Release { lux: Some(d(80.0)) });
    let step = step.next(ReadingOutcome::Released);
    assert_eq!(step, LiveReading::Done { lux: Some(d(80.0)) });
}

#[test]
fn a_reading_of_a_claimed_sensor_leaves_it_claimed() {
    let step = LiveReading::start(true).next(ReadingOutcome::Settled).next(ReadingOutcome::Answered(None));
    assert_eq!(step, LiveReading::Done { lux: None });
}

#[test]
fn a_reading_that_cannot_claim_is_over() {
    let step = LiveReading::start(false).next(ReadingOutcome::Claimed(false));
    assert_eq!(step, LiveReading::Done { lux: None });
}

fn sleep_message(going_to_sleep: bool) -> ListenerEvent {
    ListenerEvent::SleepMessage {
        member: Some("PrepareForSleep".to_string()),
        going_to_sleep: Some(going_to_sleep),
    }
}

fn sensor_message(lux: f64) -> ListenerEvent {
    ListenerEvent::SensorMessage { member: Some("PropertiesChanged".to_string()), lux: Some(d(lux)) }
}

#[test]
fn the_first_answer_is_reported_but_not_needed() {
    let mut l = Listener::new();
    assert_eq!(
        l.react(ListenerEvent::Answer { lux: Some(d(5.0)) }),
        ListenerAction::Report {
            event: DaemonEvent::LuxChanged { lux: d(5.0), source: LuxSource::Poll },
            needed: false,
        }
    );
    assert_eq!(l.asking, Asking::Nothing);
    let mut l = Listener::new();
    assert_eq!(l.react(ListenerEvent::Answer { lux: None }), ListenerAction::Wait);
}

#[test]
fn signals_and_polls_are_reported_awake_only() {
    let mut l = Listener::new();
    l.react(ListenerEvent::Answer { lux: None });
    assert_eq!(
        l.react(sensor_message(7.0)),
        ListenerAction::Report {
            event: DaemonEvent::LuxChanged { lux: d(7.0), source: LuxSource::Signal },
            needed: true,
        }
    );
    assert_eq!(l.wait_ms(1000), 1000);
    assert_eq!(l.wait_ms(-1), 3_600_000);
    assert_eq!(l.wait_ms(0), 3_600_000);
    assert_eq!(l.react(ListenerEvent::Timer { poll_ms: 1000 }), ListenerAction::Ask);
    assert_eq!(
        l.react(ListenerEvent::Answer { lux: Some(d(9.0)) }),
        ListenerAction::Report {
            event: DaemonEvent::LuxChanged { lux: d(9.0), source: LuxSource::Poll },
            needed: true,
        }
    );
    assert_eq!(l.react(ListenerEvent::Timer { poll_ms: -1 }), ListenerAction::Wait);
    assert_eq!(
        l.react(sleep_message(true)),
        ListenerAction::Report {
            event: DaemonEvent::PrepareForSleep { going_to_sleep: true, resume_lux: None },
            needed: true,
        }
    );
    assert!(l.is_sleeping);
    assert_eq!(l.react(sensor_message(7.0)), ListenerAction::Wait);
    assert_eq!(l.react(ListenerEvent::Timer { poll_ms: 1000 }), ListenerAction::Wait);
    assert_eq!(l.wait_ms(1000), 3_600_000);
}

#[test]
fn a_wake_samples_before_it_is_reported() {
    let mut l = Listener::new();
    l.react(ListenerEvent::Answer { lux: None });
    l.react(sleep_message(true));
    assert_eq!(l.react(sleep_message(false)), ListenerAction::Ask);
    assert_eq!(
        l.react(ListenerEvent::Answer { lux: Some(d(300.0)) }),
        ListenerAction::Report {
            event: DaemonEvent::PrepareForSleep { going_to_sleep: false, resume_lux: Some(d(300.0)) },
            needed: true,
        }
    );
    assert!(!l.is_sleeping);
}

#[test]
fn other_messages_are_passed_over_and_ends_stop() {
    let mut l = Listener::new();
    l.react(ListenerEvent::Answer { lux: None });
    let other = ListenerEvent::SensorMessage { member: Some("PropertiesGone".to_string()), lux: Some(d(1.0)) };
    assert_eq!(l.react(other), ListenerAction::Wait);
    let bare = ListenerEvent::SleepMessage { member: None, going_to_sleep: Some(true) };
    assert_eq!(l.react(bare), ListenerAction::Wait);
    let empty = ListenerEvent::SleepMessage { member: Some("PrepareForSleep".to_string()), going_to_sleep: None };
    assert_eq!(l.react(empty), ListenerAction::Wait);
    assert_eq!(l.react(ListenerEvent::StreamError), ListenerAction::Wait);
    assert_eq!(l.react(ListenerEvent::StreamEnded), ListenerAction::Stop);
    assert_eq!(l.react(ListenerEvent::Shutdown), ListenerAction::Stop);
    assert!(!l.is_sleeping);
}

/// Runs a listener: each question is answered with the next of the answers, and the actions that report
/// something come back.
fn run(events: Vec<ListenerEvent>, answers: &[Option<f64>]) -> Vec<DaemonEvent> {
    let mut l = Listener::new();
    let mut answers = answers.iter();
    let mut reported = Vec::new();
    let mut action = l.react(ListenerEvent::Answer { lux: answers.next().unwrap().map(d) });
    let mut events = events.into_iter();
    loop {
        match action {
            ListenerAction::Ask => {
                action = l.react(ListenerEvent::Answer { lux: answers.next().unwrap().map(d) });
                continue;
            }
            ListenerAction::Report { event, .. } => reported.push(event),
            ListenerAction::Stop => return reported,
            ListenerAction::Wait => {}
        }
        match events.next() {
            Some(event) => action = l.react(event),
            None => return reported,
        }
    }
}

#[test]
fn a_run_reports_no_light_between_sleep_and_wake() {
    let events = vec![
        sensor_message(5.0),
        sleep_message(true),
        sensor_message(6.0),
        ListenerEvent::Timer { poll_ms: 1000 },
        ListenerEvent::StreamError,
        sleep_message(true),
        sensor_message(7.0),
        sleep_message(false),
        ListenerEvent::Timer { poll_ms: 1000 },
    ];
    let reported = run(events, &[Some(4.0), Some(8.0), Some(9.0)]);
    assert_eq!(
        reported,
        vec![
            DaemonEvent::LuxChanged { lux: d(4.0), source: LuxSource::Poll },
            DaemonEvent::LuxChanged { lux: d(5.0), source: LuxSource::Signal },
            DaemonEvent::PrepareForSleep { going_to_sleep: true, resume_lux: None },
            DaemonEvent::PrepareForSleep { going_to_sleep: true, resume_lux: None },
            DaemonEvent::PrepareForSleep { going_to_sleep: false, resume_lux: Some(d(8.0)) },
            DaemonEvent::LuxChanged { lux: d(9.0), source: LuxSource::Poll },
        ]
    );
}

#[test]
fn a_run_without_polling_reports_signals_alone() {
    let events = vec![
        ListenerEvent::Timer { poll_ms: -1 },
        sensor_message(5.0),
        sleep_message(true),
        sleep_message(false),
        ListenerEvent::Timer { poll_ms: 0 },
        sensor_message(6.0),
    ];
    let reported = run(events, &[Some(4.0), None]);
    assert_eq!(
        reported,
        vec![
            DaemonEvent::LuxChanged { lux: d(4.0), source: LuxSource::Poll },
            DaemonEvent::LuxChanged { lux: d(5.0), source: LuxSource::Signal },
            DaemonEvent::PrepareForSleep { going_to_sleep: true, resume_lux: None },
            DaemonEvent::PrepareForSleep { going_to_sleep: false, resume_lux: None },
            DaemonEvent::LuxChanged { lux: d(6.0), source: LuxSource::Signal },
        ]
    );
}
