//! The supervision engine: the signal channel between the worker and the
//! caller, the monitor that waits for the outcome, and the worker's decode
//! loop.
//!
//! The worker's part that can be decided without input or output — what one
//! turn of the decode loop does to the buffered bytes, when the idle
//! timeout fires, how long to back off — is the verified [`Worker::step`].
//! The caller runs the loop around it: it reads the application's output,
//! performs the persisting and the sleeping, and feeds the outcomes back.

use std::sync::mpsc::{Receiver, Sender};
use vstd::prelude::*;

use crate::backend::PersistErr;
use crate::json::{copy_range, parse_value, sp_value, Json, JVal, Parsed, ValRes};
use crate::state::{StateFile, StateRecord};
use crate::timestamp::{Timestamp, MAX_TIMESTAMP_MILLIS};

verus! {

/// Why a command could not run, or what went wrong while it ran.
#[derive(Debug, Clone, Copy, PartialEq, Eq, Structural)]
pub enum CmdErr {
    /// No such command.
    UnknownCommand,
    /// The application could not be started.
    FailToRun,
    /// The application wrote bytes that can never complete into a value.
    UnexpectedOutput,
    /// The worker's execution context ended without signing off.
    SupervisorCrashed,
    /// The persistence backend failed.
    PersistError(PersistErr),
}

/// What happened while supervising, as reported over the signal channel.
#[derive(Debug, Clone, Copy, PartialEq, Eq, Structural)]
pub enum Event {
    ApplicationTerminated,
    ApplicationRestarted,
    StateRecorded,
    LogRecorded,
    Error(CmdErr),
}

/// The operator's text for a failure.
pub open spec fn cmd_err_text(e: CmdErr) -> Seq<char> {
    match e {
        CmdErr::UnknownCommand => "unknown command"@,
        CmdErr::FailToRun => "failed to run the application specified"@,
        CmdErr::UnexpectedOutput => "unexpected output received from application"@,
        CmdErr::SupervisorCrashed => "supervisor managing application crashed"@,
        CmdErr::PersistError(_) => "failed to record state"@,
    }
}

/// The operator's text for a report.
pub open spec fn event_text(ev: Event) -> Seq<char> {
    match ev {
        Event::ApplicationTerminated => "application terminated"@,
        Event::ApplicationRestarted => "application restarted"@,
        Event::StateRecorded => "state recorded"@,
        Event::LogRecorded => "log recorded"@,
        Event::Error(e) => cmd_err_text(e),
    }
}

impl CmdErr {
    /// A short account of the failure, for the operator.
    pub fn message(&self) -> (r: String)
        ensures
            r@ == cmd_err_text(*self),
    {
        match self {
            CmdErr::UnknownCommand => "unknown command".to_owned(),
            CmdErr::FailToRun => "failed to run the application specified".to_owned(),
            CmdErr::UnexpectedOutput => {
                "unexpected output received from application".to_owned()
            },
            CmdErr::SupervisorCrashed => "supervisor managing application crashed".to_owned(),
            CmdErr::PersistError(_) => "failed to record state".to_owned(),
        }
    }
}

impl Event {
    /// A short account of the report, for the operator.
    pub fn message(&self) -> (r: String)
        ensures
            r@ == event_text(*self),
    {
        match self {
            Event::ApplicationTerminated => "application terminated".to_owned(),
            Event::ApplicationRestarted => "application restarted".to_owned(),
            Event::StateRecorded => "state recorded".to_owned(),
            Event::LogRecorded => "log recorded".to_owned(),
            Event::Error(e) => e.message(),
        }
    }
}

/// One message on the signal channel.
#[derive(Debug, Clone, Copy, PartialEq, Eq, Structural)]
pub enum Msg {
    /// A request to the worker: stop promptly, without waiting for the
    /// idle timeout.
    Kill,
    /// A heartbeat: the worker lives, nothing else to report.
    StillActive,
    /// A lifecycle report.
    Event(Event),
}

impl Msg {
    /// Whether this message asks the worker to stop.
    pub fn is_kill(&self) -> (r: bool)
        ensures
            r == (*self == Msg::Kill),
    {
        matches!(self, Msg::Kill)
    }
}

// ---------------------------------------------------------------------------
// The signal channel
// ---------------------------------------------------------------------------

#[verifier::external_type_specification]
#[verifier::external_body]
#[verifier::reject_recursive_types(T)]
pub struct ExSender<T>(Sender<T>);

#[verifier::external_type_specification]
#[verifier::external_body]
#[verifier::reject_recursive_types(T)]
pub struct ExReceiver<T>(Receiver<T>);

/// Relies on `std::sync::mpsc::channel`: a connected sending and receiving
/// half. What is sent into one comes out of the other, in order; nothing
/// of that order is assumed here.
#[verifier::external_body]
fn msg_channel() -> (Sender<Msg>, Receiver<Msg>) {
    std::sync::mpsc::channel()
}

/// Relies on `Sender::send`: the message is handed over, or the receiving
/// half is gone. Either outcome may come back.
#[verifier::external_body]
fn send_msg(s: &Sender<Msg>, m: Msg) -> (r: Result<(), ()>) {
    match s.send(m) {
        Ok(()) => Ok(()),
        Err(_) => Err(()),
    }
}

/// Relies on `Receiver::recv_timeout` with a one-second bound: a message
/// if one arrived in time, nothing on the timeout, or the sending half
/// gone. Any of the three may come back.
#[verifier::external_body]
fn recv_msg_bounded(r: &Receiver<Msg>) -> (res: Result<Option<Msg>, ()>) {
    match r.recv_timeout(std::time::Duration::from_secs(1)) {
        Ok(m) => Ok(Some(m)),
        Err(std::sync::mpsc::RecvTimeoutError::Timeout) => Ok(None),
        Err(_) => Err(()),
    }
}

/// Relies on `Receiver::try_recv`: a pending message, if one waits. An
/// empty and a disconnected channel both yield none.
#[verifier::external_body]
fn try_recv_msg(r: &Receiver<Msg>) -> (res: Option<Msg>) {
    match r.try_recv() {
        Ok(m) => Some(m),
        Err(_) => None,
    }
}

/// One end of the duplex signal channel between the monitor and the
/// worker.
pub struct Channel {
    send_msg: Sender<Msg>,
    recv_msg: Receiver<Msg>,
}

/// The two connected ends: the monitor's and the worker's.
pub fn channel() -> (Channel, Channel) {
    let (s1, r1) = msg_channel();
    let (s2, r2) = msg_channel();
    let monitor_half = Channel { send_msg: s1, recv_msg: r2 };
    let supervisor_half = Channel { send_msg: s2, recv_msg: r1 };
    (monitor_half, supervisor_half)
}

impl Channel {
    /// Hand a message to the other end. Fails when the other end is gone.
    pub fn send(&self, msg: Msg) -> (r: Result<(), ()>) {
        send_msg(&self.send_msg, msg)
    }

    /// Wait up to a second for a message: a timed-out wait is "nothing
    /// yet", not an error; an error means the other end is gone.
    pub fn recv(&self) -> (r: Result<Option<Msg>, ()>) {
        recv_msg_bounded(&self.recv_msg)
    }

    /// A pending message, without waiting.
    pub fn poll(&self) -> (r: Option<Msg>) {
        try_recv_msg(&self.recv_msg)
    }
}

// ---------------------------------------------------------------------------
// The monitor
// ---------------------------------------------------------------------------

/// What one received signal means for the waiting monitor.
#[derive(Debug, Clone, Copy, PartialEq, Eq, Structural)]
pub enum MonitorStep {
    /// The wait is over; the gathered events are the result.
    Finished,
    /// Keep waiting.
    Continue,
}

/// What one received signal does to the monitor's gathered events, and
/// whether the wait is over. A terminal `ApplicationTerminated` event ends
/// the wait with that event included; a `Kill` ends it as it stands; every
/// other event is appended and the wait goes on; a heartbeat or a timed-out
/// wait changes nothing.
pub fn on_message(m: Option<Msg>, events: &mut Vec<Event>) -> (r: MonitorStep)
    ensures
        m == Some(Msg::Event(Event::ApplicationTerminated)) ==> r == MonitorStep::Finished
            && final(events)@ == old(events)@.push(Event::ApplicationTerminated),
        m == Some(Msg::Kill) ==> r == MonitorStep::Finished && final(events)@ == old(events)@,
        m matches Some(Msg::Event(e)) ==> (e != Event::ApplicationTerminated ==> (r
            == MonitorStep::Continue && final(events)@ == old(events)@.push(e))),
        m == Some(Msg::StillActive) ==> r == MonitorStep::Continue && final(events)@ == old(
            events,
        )@,
        m is None ==> r == MonitorStep::Continue && final(events)@ == old(events)@,
{
    match m {
        Some(Msg::Event(Event::ApplicationTerminated)) => {
            events.push(Event::ApplicationTerminated);
            MonitorStep::Finished
        },
        Some(Msg::Kill) => MonitorStep::Finished,
        Some(Msg::Event(e)) => {
            events.push(e);
            MonitorStep::Continue
        },
        Some(Msg::StillActive) => MonitorStep::Continue,
        None => MonitorStep::Continue,
    }
}

/// The caller-facing handle: holds one end of the signal channel and
/// gathers what the worker reports.
pub struct Monitor {
    to_supervisor: Channel,
}

impl Monitor {
    /// A monitor over the given channel end.
    pub fn new(chan: Channel) -> (r: Monitor) {
        Monitor { to_supervisor: chan }
    }

    /// A non-blocking snapshot of gathered events. Gathering lives inside
    /// `wait_for_termination` alone, so there is nothing to hand out here:
    /// callers that poll rather than block get none.
    pub fn events(&self) -> (r: Option<Vec<Event>>)
        ensures
            r is None,
    {
        None
    }

    /// One bounded round of the wait for termination: receive from the
    /// signal channel for up to a second and fold what came — or did not
    /// come — into the gathered events. A timed-out round is "nothing
    /// yet": the wait goes on. A broken channel means the worker's
    /// execution context ended without signing off; the caller never gets
    /// a partial history out of this, only the error. The caller repeats
    /// rounds until one yields `Finished` (termination or a kill) or the
    /// error; the history only ever grows, one event at a time. A round
    /// that finishes the wait appends exactly the terminal
    /// `ApplicationTerminated` event or (for a kill) nothing; a round that
    /// keeps it going never appends that terminal event.
    pub fn wait_round(&self, events: &mut Vec<Event>) -> (r: Result<MonitorStep, CmdErr>)
        ensures
            r matches Err(e) ==> e == CmdErr::SupervisorCrashed && final(events)@ == old(
                events,
            )@,
            r == Ok::<MonitorStep, CmdErr>(MonitorStep::Finished) ==> (final(events)@ == old(
                events,
            )@ || final(events)@ == old(events)@.push(Event::ApplicationTerminated)),
            r == Ok::<MonitorStep, CmdErr>(MonitorStep::Continue) ==> (final(events)@ == old(
                events,
            )@ || (final(events)@.len() == old(events)@.len() + 1 && final(events)@.last()
                != Event::ApplicationTerminated && final(events)@.drop_last() == old(
                events,
            )@)),
            final(events)@.len() >= old(events)@.len(),
            final(events)@.len() <= old(events)@.len() + 1,
            final(events)@.take(old(events)@.len() as int) == old(events)@,
    {
        let ghost evs0 = events@;
        match self.to_supervisor.recv() {
            Err(_) => Err(CmdErr::SupervisorCrashed),
            Ok(m) => {
                let step = on_message(m, events);
                proof {
                    assert(events@.take(evs0.len() as int) =~= evs0);
                    if events@.len() == evs0.len() + 1 {
                        assert(events@.drop_last() =~= evs0);
                    }
                }
                Ok(step)
            },
        }
    }
}

// ---------------------------------------------------------------------------
// The worker's decode loop
// ---------------------------------------------------------------------------

/// How long the application may stay silent before it is taken to be done,
/// in milliseconds.
pub const IDLE_TIMEOUT_MILLIS: i64 = 300;

/// How much of the idle time one backoff sleep spans: the sleep is the
/// idle time divided by this.
pub const BACKOFF_DIVISOR: i64 = 20;

/// The worker's decode-loop state: the application's output bytes not yet
/// decoded, and the moment of the last successful decode.
pub struct Worker {
    /// Output read from the application but not consumed by a decode.
    /// Partial input is buffered here across turns, never discarded by an
    /// incomplete value.
    pub buffer: Vec<u8>,
    /// When a value was last decoded, or the worker started.
    pub last_progress: Timestamp,
}

/// What one turn of the decode loop decided.
#[derive(Debug)]
pub enum Step {
    /// Stop now: a kill was requested. Kill wins over everything else, so
    /// a killed worker stops at its next turn, before the idle timeout
    /// could ever fire.
    Killed,
    /// Stop: nothing was decoded for longer than the idle threshold; the
    /// application is taken to be done producing state.
    Idle,
    /// One complete value was decoded and consumed from the buffer. The
    /// caller persists it; the next turn follows at once (the idle clock
    /// was just reset, so the backoff is zero).
    Decoded(Json, i64),
    /// No complete value yet: the buffered bytes may still grow into one.
    /// Not an error. Back off for the given milliseconds.
    NoValue(i64),
    /// The buffered bytes can never complete into a value; they were
    /// dropped. The caller reports it and the loop goes on: one malformed
    /// chunk does not end supervision. Back off for the given
    /// milliseconds.
    Malformed(i64),
}

impl Worker {
    pub open spec fn wf(self) -> bool {
        self.last_progress.wf()
    }

    /// The idle time at `now`: how long since the last decoded value,
    /// never negative.
    pub open spec fn spec_idle(self, now: int) -> int {
        if now >= self.last_progress.millis {
            now - self.last_progress.millis
        } else {
            0
        }
    }

    /// A worker that has just started: nothing buffered, the idle clock at
    /// the start moment.
    pub fn new(start: Timestamp) -> (r: Worker)
        requires
            start.wf(),
        ensures
            r.wf(),
            r.buffer@.len() == 0,
            r.last_progress == start,
    {
        Worker { buffer: Vec::new(), last_progress: start }
    }

    fn idle_millis(&self, now: &Timestamp) -> (r: i64)
        requires
            self.wf(),
            now.wf(),
        ensures
            r as int == self.spec_idle(now.millis as int),
            0 <= r <= MAX_TIMESTAMP_MILLIS,
    {
        if now.millis >= self.last_progress.millis {
            now.millis - self.last_progress.millis
        } else {
            0
        }
    }

    /// One turn of the decode loop. In order: a pending kill stops the
    /// loop at once; an idle time beyond the threshold stops it; otherwise
    /// the newly read bytes join the buffer and one decode is attempted.
    /// A decoded value resets the idle clock and is handed out to be
    /// persisted; insufficient bytes are kept for the next turn; malformed
    /// bytes are dropped and reported. The backoff handed back is the idle
    /// time divided by the backoff divisor, so a lively stream is polled
    /// tightly and an idle one with growing restraint.
    pub fn step(&mut self, now: Timestamp, input: &[u8], kill: bool) -> (r: Step)
        requires
            old(self).wf(),
            now.wf(),
        ensures
            final(self).wf(),
            kill ==> r is Killed && *final(self) == *old(self),
            !kill && old(self).spec_idle(now.millis as int) > IDLE_TIMEOUT_MILLIS as int ==> r
                is Idle && *final(self) == *old(self),
            (!kill && old(self).spec_idle(now.millis as int) <= IDLE_TIMEOUT_MILLIS as int)
                ==> ({
                let grown = old(self).buffer@ + input@;
                let idle = old(self).spec_idle(now.millis as int);
                let fbuf = final(self).buffer@;
                let flp = final(self).last_progress;
                &&& sp_value(grown) matches ValRes::Found(jv, n) ==> (r matches Step::Decoded(
                    v,
                    s,
                ) && v.model() == jv && s == 0 && fbuf == grown.skip(n) && flp == now)
                &&& sp_value(grown) is More ==> (r matches Step::NoValue(s) && s as int == idle
                    / (BACKOFF_DIVISOR as int) && fbuf == grown && flp == old(self).last_progress)
                &&& sp_value(grown) is Bad ==> (r matches Step::Malformed(s) && s as int
                    == idle / (BACKOFF_DIVISOR as int) && fbuf == Seq::<u8>::empty() && flp
                    == old(self).last_progress)
            }),
    {
        if kill {
            return Step::Killed;
        }
        let idle = self.idle_millis(&now);
        if idle > IDLE_TIMEOUT_MILLIS {
            return Step::Idle;
        }
        let ghost buf0 = self.buffer@;
        let ghost lp0 = self.last_progress;
        let mut k: usize = 0;
        while k < input.len()
            invariant
                k <= input@.len(),
                self.buffer@ == buf0 + input@.take(k as int),
                self.last_progress == lp0,
            decreases input@.len() - k,
        {
            proof {
                assert((buf0 + input@.take(k as int)).push(input@[k as int]) =~= buf0
                    + input@.take(k as int + 1));
            }
            self.buffer.push(input[k]);
            k = k + 1;
        }
        proof {
            assert(buf0 + input@.take(input@.len() as int) =~= buf0 + input@);
        }
        match parse_value(self.buffer.as_slice()) {
            Parsed::Value(v, n) => {
                let rest = copy_range(self.buffer.as_slice(), n, self.buffer.len());
                proof {
                    assert(rest@ =~= (buf0 + input@).skip(n as int));
                }
                self.buffer = rest;
                self.last_progress = now;
                Step::Decoded(v, 0)
            },
            Parsed::Incomplete => Step::NoValue(idle / BACKOFF_DIVISOR),
            Parsed::Malformed => {
                self.buffer = Vec::new();
                proof {
                    assert(self.buffer@ =~= Seq::<u8>::empty());
                }
                Step::Malformed(idle / BACKOFF_DIVISOR)
            },
        }
    }
}

/// Law: the idle timeout is detected promptly. A turn that keeps the loop
/// going backs off by at most a twentieth of the threshold, so the moment
/// the worker next looks falls no later than the threshold plus that
/// largest backoff past the last progress: termination is concluded within
/// the threshold plus its twentieth, apart from the time the reads
/// themselves take.
pub proof fn lemma_idle_detection_bound(idle: int, sleep: int)
    requires
        0 <= idle <= IDLE_TIMEOUT_MILLIS as int,
        sleep == idle / (BACKOFF_DIVISOR as int),
    ensures
        idle + sleep <= IDLE_TIMEOUT_MILLIS as int + IDLE_TIMEOUT_MILLIS as int / (
        BACKOFF_DIVISOR as int),
{
}

/// The state the application is restarted from: the newest recorded one,
/// or a fresh empty state when none was ever recorded or the file was
/// missing or unreadable — those are recoverable. Content that exists but
/// does not decode is not: it is handed back as the error it is, so a
/// damaged history is never silently replaced by an empty one.
pub fn initial_record(loaded: Result<StateFile, PersistErr>) -> (r: Result<
    StateRecord,
    PersistErr,
>)
    ensures
        loaded matches Ok(sf) ==> ({
            &&& sf@.states.len() > 0 ==> (r matches Ok(rec)
                && sf@.states.to_multiset().contains(rec@) && (forall|i: int|
                0 <= i < sf@.states.len() ==> (#[trigger] sf@.states[i]).at_millis
                    <= rec@.at_millis))
            &&& sf@.states.len() == 0 ==> (r matches Ok(rec) && rec@.state == JVal::Obj(
                Seq::<(Seq<u8>, JVal)>::empty(),
            ))
        }),
        loaded == Err::<StateFile, PersistErr>(PersistErr::IO) ==> (r matches Ok(rec)
            && rec@.state == JVal::Obj(Seq::<(Seq<u8>, JVal)>::empty())),
        loaded == Err::<StateFile, PersistErr>(PersistErr::EncodeError) ==> r == Err::<
            StateRecord,
            PersistErr,
        >(PersistErr::EncodeError),
{
    broadcast use vstd::seq_lib::group_to_multiset_ensures;

    match loaded {
        Err(PersistErr::IO) => Ok(StateRecord::empty()),
        Err(e) => Err(e),
        Ok(mut sf) => {
            let ghost s0 = sf@.states;
            match sf.latest_record() {
                Some(rec) => {
                    proof {
                        let fs = sf@.states;
                        assert forall|i: int|
                            0 <= i < s0.len() implies (#[trigger] s0[i]).at_millis
                            <= rec@.at_millis by {
                            assert(s0.contains(s0[i]));
                            assert(s0.to_multiset().count(s0[i]) > 0);
                            assert(fs.to_multiset().count(s0[i]) > 0);
                            assert(fs.contains(s0[i]));
                            let j = choose|j: int| 0 <= j < fs.len() && fs[j] == s0[i];
                            assert(fs[j].at_millis <= rec@.at_millis);
                        }
                    }
                    Ok(rec)
                },
                None => Ok(StateRecord::empty()),
            }
        },
    }
}

} // verus!
