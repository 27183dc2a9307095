use state::backend::{File, LoadOutcome, PersistErr};
use state::commands::{channel, initial_record, on_message, CmdErr, Event, Monitor, MonitorStep,
    Msg, Step, Worker};
use state::json::Json;
use state::state::StateFile;
use state::timestamp::Timestamp;

fn at(millis: i64) -> Timestamp {
    Timestamp::from_millis(millis)
}

// ---------------------------------------------------------------------------
// The worker's decode loop
// ---------------------------------------------------------------------------

#[test]
fn three_values_then_silence() {
    // The application writes three complete values, spaced 50 ms apart,
    // then stops. The loop must decode exactly three and conclude
    // termination once the silence passes the 300 ms threshold.
    let mut w = Worker::new(at(0));
    let mut decoded = 0;
    for (t, chunk) in [(50i64, &b"{\"n\":1}"[..]), (100, b"{\"n\":2}"), (150, b"{\"n\":3}")] {
        match w.step(at(t), chunk, false) {
            Step::Decoded(_, sleep) => {
                decoded += 1;
                assert_eq!(sleep, 0);
            }
            r => panic!("unexpected: {:?}", r),
        }
    }
    assert_eq!(decoded, 3);
    // Silence: polls keep the loop alive up to the threshold...
    assert!(matches!(w.step(at(350), b"", false), Step::NoValue(_)));
    assert!(matches!(w.step(at(450), b"", false), Step::NoValue(_)));
    // ...and just past it, the application is taken to be done. The last
    // value arrived at 150, so termination is concluded at 451: within
    // 300 to 400 ms of the last value.
    match w.step(at(451), b"", false) {
        Step::Idle => {}
        r => panic!("unexpected: {:?}", r),
    }
}

#[test]
fn backoff_grows_with_idle_time() {
    let mut w = Worker::new(at(0));
    match w.step(at(100), b"", false) {
        Step::NoValue(s) => assert_eq!(s, 5),
        r => panic!("unexpected: {:?}", r),
    }
    match w.step(at(300), b"", false) {
        Step::NoValue(s) => assert_eq!(s, 15),
        r => panic!("unexpected: {:?}", r),
    }
}

#[test]
fn a_value_split_across_reads_is_buffered() {
    let mut w = Worker::new(at(0));
    assert!(matches!(w.step(at(10), b"{\"a\"", false), Step::NoValue(_)));
    match w.step(at(20), b":5}", false) {
        Step::Decoded(v, _) => {
            assert_eq!(v, Json::Obj(vec![(b"a".to_vec(), Json::Num(b"5".to_vec()))]));
        }
        r => panic!("unexpected: {:?}", r),
    }
}

#[test]
fn malformed_chunk_is_reported_and_the_loop_goes_on() {
    // One malformed chunk, then the application exits silently: exactly
    // one malformed report, then termination by idle timeout.
    let mut w = Worker::new(at(0));
    match w.step(at(50), b"]oops", false) {
        Step::Malformed(_) => {}
        r => panic!("unexpected: {:?}", r),
    }
    // The bad bytes were dropped; nothing lingers.
    assert!(matches!(w.step(at(150), b"", false), Step::NoValue(_)));
    // A later valid value would still be decoded: the loop survived.
    match w.step(at(200), b"7 ", false) {
        Step::Decoded(v, _) => assert_eq!(v, Json::Num(b"7".to_vec())),
        r => panic!("unexpected: {:?}", r),
    }
    // And with nothing more, it terminates.
    match w.step(at(501), b"", false) {
        Step::Idle => {}
        r => panic!("unexpected: {:?}", r),
    }
}

#[test]
fn kill_ends_the_loop_before_the_idle_timeout() {
    let mut w = Worker::new(at(0));
    // Well before the 300 ms threshold, with data still pending, a kill
    // wins at the very next check.
    match w.step(at(100), b"{\"n\":1}", true) {
        Step::Killed => {}
        r => panic!("unexpected: {:?}", r),
    }
}

#[test]
fn persistence_failure_does_not_stop_the_loop() {
    // The backend reports an IO failure for a record; the worker's next
    // turns still decode. The failure itself surfaces as an event.
    let backend = File { filename: ".state.json".to_owned() };
    let failed = backend.record(Err(PersistErr::IO), Json::Num(b"1".to_vec()));
    assert_eq!(failed, Err(PersistErr::IO));
    let report = Event::Error(CmdErr::PersistError(PersistErr::IO));
    assert_eq!(report.message(), "failed to record state");
    let mut w = Worker::new(at(0));
    assert!(matches!(w.step(at(10), b"1 ", false), Step::Decoded(..)));
    assert!(matches!(w.step(at(20), b"2 ", false), Step::Decoded(..)));
}

// ---------------------------------------------------------------------------
// The starting state
// ---------------------------------------------------------------------------

#[test]
fn initial_record_takes_the_newest() {
    let mut sf = StateFile::new();
    for millis in [2000i64, 5000, 1000] {
        sf.states.push(state::state::StateRecord {
            recorded_at: at(millis),
            state: Json::Num(millis.to_string().into_bytes()),
        });
    }
    let rec = initial_record(Ok(sf)).expect("records exist");
    assert_eq!(rec.recorded_at.millis, 5000);
}

#[test]
fn initial_record_falls_back_to_empty() {
    let rec = initial_record(Ok(StateFile::new())).expect("fresh");
    assert_eq!(rec.state, Json::Obj(vec![]));
    let rec2 = initial_record(Err(PersistErr::IO)).expect("io falls back");
    assert_eq!(rec2.state, Json::Obj(vec![]));
}

#[test]
fn initial_record_keeps_a_decode_error() {
    assert_eq!(initial_record(Err(PersistErr::EncodeError)), Err(PersistErr::EncodeError));
}

// ---------------------------------------------------------------------------
// The monitor and the signal channel
// ---------------------------------------------------------------------------

#[test]
fn on_message_gathers_and_finishes() {
    let mut events: Vec<Event> = Vec::new();
    assert_eq!(on_message(None, &mut events), MonitorStep::Continue);
    assert_eq!(on_message(Some(Msg::StillActive), &mut events), MonitorStep::Continue);
    assert!(events.is_empty());
    assert_eq!(
        on_message(Some(Msg::Event(Event::StateRecorded)), &mut events),
        MonitorStep::Continue,
    );
    assert_eq!(events, vec![Event::StateRecorded]);
    assert_eq!(
        on_message(Some(Msg::Event(Event::ApplicationTerminated)), &mut events),
        MonitorStep::Finished,
    );
    assert_eq!(events, vec![Event::StateRecorded, Event::ApplicationTerminated]);
}

#[test]
fn on_message_kill_finishes_without_appending() {
    let mut events: Vec<Event> = Vec::new();
    assert_eq!(on_message(Some(Msg::Kill), &mut events), MonitorStep::Finished);
    assert!(events.is_empty());
}

#[test]
fn monitor_gathers_over_a_real_channel() {
    let (monitor_half, supervisor_half) = channel();
    let monitor = Monitor::new(monitor_half);
    supervisor_half.send(Msg::Event(Event::StateRecorded)).expect("send");
    supervisor_half.send(Msg::StillActive).expect("send");
    supervisor_half.send(Msg::Event(Event::ApplicationTerminated)).expect("send");
    let mut events: Vec<Event> = Vec::new();
    loop {
        match monitor.wait_round(&mut events).expect("worker lives") {
            MonitorStep::Finished => break,
            MonitorStep::Continue => {}
        }
    }
    assert_eq!(events, vec![Event::StateRecorded, Event::ApplicationTerminated]);
}

#[test]
fn a_gone_worker_surfaces_as_a_crash() {
    let (monitor_half, supervisor_half) = channel();
    let monitor = Monitor::new(monitor_half);
    drop(supervisor_half);
    let mut events: Vec<Event> = Vec::new();
    assert_eq!(monitor.wait_round(&mut events), Err(CmdErr::SupervisorCrashed));
    assert!(events.is_empty());
}

#[test]
fn kill_reaches_the_worker_side() {
    let (monitor_half, supervisor_half) = channel();
    assert!(supervisor_half.poll().is_none());
    monitor_half.send(Msg::Kill).expect("send");
    let pending = supervisor_half.poll().expect("kill waits");
    assert!(pending.is_kill());
    assert!(!Msg::StillActive.is_kill());
}

#[test]
fn messages_for_the_operator() {
    assert_eq!(Event::ApplicationTerminated.message(), "application terminated");
    assert_eq!(Event::StateRecorded.message(), "state recorded");
    assert_eq!(
        Event::Error(CmdErr::PersistError(PersistErr::IO)).message(),
        "failed to record state",
    );
    assert_eq!(CmdErr::UnknownCommand.message(), "unknown command");
    assert_eq!(PersistErr::IO.message(), "IO error");
    assert_eq!(PersistErr::EncodeError.message(), "invalid encoding");
}

#[test]
fn events_snapshot_is_not_offered() {
    let (monitor_half, _supervisor_half) = channel();
    let monitor = Monitor::new(monitor_half);
    assert!(monitor.events().is_none());
}
