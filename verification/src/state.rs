//! The data model: state records, log records, and the state file that
//! holds them.

use vstd::multiset::Multiset;
use vstd::prelude::*;

use crate::json::{clone_bytes, Json, JVal};
use crate::timestamp::{millis_of, Timestamp, MAX_TIMESTAMP_MILLIS};

verus! {

broadcast use
    vstd::seq_lib::group_to_multiset_ensures,
    vstd::multiset::group_multiset_axioms;

/// One snapshot of the supervised application's state: an opaque structured
/// value.
pub type State = Json;

/// Marks input handed to the supervised application as coming from the
/// supervisor.
#[derive(Debug, Clone, Copy, PartialEq, Eq, Structural)]
pub enum Supervisor {
    State,
}

/// What the supervised application is invoked with: the last known state.
#[derive(Debug)]
pub struct ApplicationInput {
    pub state: State,
    pub supervisor: Supervisor,
}

/// The tag a persisted log record may carry.
#[derive(Debug, Clone, Copy, PartialEq, Eq, Structural)]
pub enum Event {
    ApplicationTerminated,
    SignalReceived(u8),
}

/// One captured snapshot, with the moment it was recorded.
#[derive(Debug, PartialEq, Eq)]
pub struct StateRecord {
    pub recorded_at: Timestamp,
    pub state: State,
}

/// One free-form log entry, with an optional event tag.
#[derive(Debug, PartialEq, Eq)]
pub struct LogRecord {
    pub recorded_at: Timestamp,
    pub event: Option<Event>,
    pub message: Vec<u8>,
}

/// The whole persisted document: every state record and every log record.
#[derive(Debug, PartialEq, Eq)]
pub struct StateFile {
    pub states: Vec<StateRecord>,
    pub logs: Vec<LogRecord>,
}

// ---------------------------------------------------------------------------
// Views
// ---------------------------------------------------------------------------

/// What a state record says: a moment (in both of its forms) and a value.
#[verifier::ext_equal]
pub struct RecView {
    pub at_millis: i64,
    pub at_text: Seq<u8>,
    pub state: JVal,
}

/// What a log record says.
#[verifier::ext_equal]
pub struct LogView {
    pub at_millis: i64,
    pub at_text: Seq<u8>,
    pub event: Option<Event>,
    pub message: Seq<u8>,
}

/// What a state file says.
#[verifier::ext_equal]
pub struct SFView {
    pub states: Seq<RecView>,
    pub logs: Seq<LogView>,
}

impl View for StateRecord {
    type V = RecView;

    open spec fn view(&self) -> RecView {
        RecView {
            at_millis: self.recorded_at.millis,
            at_text: self.recorded_at.text@,
            state: self.state.model(),
        }
    }
}

impl View for LogRecord {
    type V = LogView;

    open spec fn view(&self) -> LogView {
        LogView {
            at_millis: self.recorded_at.millis,
            at_text: self.recorded_at.text@,
            event: self.event,
            message: self.message@,
        }
    }
}

pub open spec fn rec_views(s: Seq<StateRecord>) -> Seq<RecView> {
    Seq::new(s.len(), |i: int| s[i]@)
}

pub open spec fn log_views(s: Seq<LogRecord>) -> Seq<LogView> {
    Seq::new(s.len(), |i: int| s[i]@)
}

impl View for StateFile {
    type V = SFView;

    open spec fn view(&self) -> SFView {
        SFView { states: rec_views(self.states@), logs: log_views(self.logs@) }
    }
}

/// Every moment parses back to its milliseconds, and every held value can
/// be written out.
pub open spec fn wf_rec(r: RecView) -> bool {
    &&& 0 <= r.at_millis <= MAX_TIMESTAMP_MILLIS
    &&& millis_of(r.at_text) == Some(r.at_millis)
    &&& crate::json::wf_jval(r.state)
}

pub open spec fn wf_log(l: LogView) -> bool {
    &&& 0 <= l.at_millis <= MAX_TIMESTAMP_MILLIS
    &&& millis_of(l.at_text) == Some(l.at_millis)
}

pub open spec fn wf_sf(v: SFView) -> bool {
    &&& forall|i: int| 0 <= i < v.states.len() ==> wf_rec(#[trigger] v.states[i])
    &&& forall|i: int| 0 <= i < v.logs.len() ==> wf_log(#[trigger] v.logs[i])
}

// ---------------------------------------------------------------------------
// Construction and copies
// ---------------------------------------------------------------------------

impl Clone for StateRecord {
    fn clone(&self) -> (r: StateRecord)
        ensures
            r@ == self@,
    {
        StateRecord { recorded_at: self.recorded_at.clone(), state: self.state.clone() }
    }
}

impl Clone for LogRecord {
    fn clone(&self) -> (r: LogRecord)
        ensures
            r@ == self@,
    {
        LogRecord {
            recorded_at: self.recorded_at.clone(),
            event: self.event,
            message: clone_bytes(&self.message),
        }
    }
}

impl StateFile {
    /// A fresh document: no states, no logs.
    pub fn new() -> (r: StateFile)
        ensures
            r@.states.len() == 0,
            r@.logs.len() == 0,
    {
        StateFile { states: Vec::new(), logs: Vec::new() }
    }
}

impl StateRecord {
    /// A record of an empty state, made at the moment of the call.
    pub fn empty() -> (r: StateRecord)
        ensures
            r@.state == JVal::Obj(Seq::<(Seq<u8>, JVal)>::empty()),
            wf_rec(r@),
    {
        let state = Json::Obj(Vec::new());
        proof {
            assert(crate::json::model_members(Seq::<(Vec<u8>, Json)>::empty()) =~= Seq::<
                (Seq<u8>, JVal),
            >::empty());
        }
        StateRecord { recorded_at: Timestamp::now(), state }
    }
}

// ---------------------------------------------------------------------------
// Ordering by the recorded moment
// ---------------------------------------------------------------------------

/// Records stand oldest first.
pub open spec fn sorted_by_time(s: Seq<RecView>) -> bool {
    forall|i: int, j: int| 0 <= i < j < s.len() ==> s[i].at_millis <= s[j].at_millis
}

proof fn lemma_rec_views_push(s: Seq<StateRecord>, x: StateRecord)
    ensures
        rec_views(s.push(x)) =~= rec_views(s).push(x@),
{
}

proof fn lemma_rec_views_remove(s: Seq<StateRecord>, i: int)
    requires
        0 <= i < s.len(),
    ensures
        rec_views(s.remove(i)) =~= rec_views(s).remove(i),
{
}

/// Sort state records by the moment they were recorded, oldest first. The
/// records themselves are kept: only their order changes — and records
/// that already stand in order are not moved at all, so a sorted vector
/// comes back exactly as it was.
#[verifier::rlimit(100)]
fn sort_recs(v: &mut Vec<StateRecord>)
    ensures
        final(v)@.len() == old(v)@.len(),
        rec_views(final(v)@).to_multiset() == rec_views(old(v)@).to_multiset(),
        sorted_by_time(rec_views(final(v)@)),
        sorted_by_time(rec_views(old(v)@)) ==> final(v)@ == old(v)@,
{
    let ghost orig_seq = old(v)@;
    let ghost orig = rec_views(old(v)@).to_multiset();
    let ghost n0 = old(v)@.len();
    let mut out: Vec<StateRecord> = Vec::new();
    proof {
        assert(rec_views(out@) =~= Seq::<RecView>::empty());
        assert(rec_views(out@).to_multiset() =~= Multiset::<RecView>::empty());
        assert(Multiset::<RecView>::empty().add(rec_views(v@).to_multiset()) =~= rec_views(
            v@,
        ).to_multiset());
        assert(out@ =~= orig_seq.take(0));
        assert(v@ =~= orig_seq.skip(0));
    }
    while v.len() > 0
        invariant
            orig_seq.len() == n0,
            out@.len() + v@.len() == n0,
            rec_views(out@).to_multiset().add(rec_views(v@).to_multiset()) == orig,
            sorted_by_time(rec_views(out@)),
            forall|x: int, y: int|
                0 <= x < out@.len() && 0 <= y < v@.len() ==> rec_views(out@)[x].at_millis
                    <= rec_views(v@)[y].at_millis,
            sorted_by_time(rec_views(orig_seq)) ==> (out@ == orig_seq.take(out@.len() as int)
                && v@ == orig_seq.skip(out@.len() as int)),
        decreases v@.len(),
    {
        proof {
            if sorted_by_time(rec_views(orig_seq)) {
                let n = out@.len() as int;
                assert forall|a: int, b: int|
                    0 <= a < b < v@.len() implies rec_views(v@)[a].at_millis <= rec_views(
                    v@,
                )[b].at_millis by {
                    assert(v@ == orig_seq.skip(n));
                    assert(v@[a] == orig_seq.skip(n)[a]);
                    assert(v@[b] == orig_seq.skip(n)[b]);
                    assert(orig_seq.skip(n)[a] == orig_seq[n + a]);
                    assert(orig_seq.skip(n)[b] == orig_seq[n + b]);
                    assert(rec_views(v@)[a] == v@[a]@);
                    assert(rec_views(v@)[b] == v@[b]@);
                    assert(rec_views(orig_seq)[n + a] == orig_seq[n + a]@);
                    assert(rec_views(orig_seq)[n + b] == orig_seq[n + b]@);
                    assert(rec_views(orig_seq)[n + a].at_millis <= rec_views(orig_seq)[n
                        + b].at_millis);
                }
                assert(sorted_by_time(rec_views(v@)));
            }
        }
        let mut mi: usize = 0;
        let mut k: usize = 1;
        while k < v.len()
            invariant
                v@.len() > 0,
                (mi as int) < (k as int),
                k <= v@.len(),
                forall|t: int|
                    0 <= t < k ==> v@[mi as int]@.at_millis <= #[trigger] v@[t]@.at_millis,
                sorted_by_time(rec_views(v@)) ==> mi == 0,
            decreases v@.len() - k,
        {
            proof {
                if sorted_by_time(rec_views(v@)) {
                    assert(rec_views(v@)[0].at_millis <= rec_views(v@)[k as int].at_millis);
                }
            }
            if v[k].recorded_at.millis < v[mi].recorded_at.millis {
                mi = k;
            }
            k = k + 1;
        }
        let ghost old_v = v@;
        let ghost old_out = out@;
        let ghost e = v@[mi as int]@;
        let x = v.remove(mi);
        proof {
            lemma_rec_views_remove(old_v, mi as int);
            assert(rec_views(v@) == rec_views(old_v).remove(mi as int));
            assert(rec_views(old_v)[mi as int] == e);
            assert(rec_views(old_v).contains(e));
            assert(rec_views(v@).to_multiset() =~= rec_views(old_v).to_multiset().remove(e));
        }
        out.push(x);
        proof {
            lemma_rec_views_push(old_out, x);
            assert(rec_views(out@) == rec_views(old_out).push(e));
            assert(rec_views(out@).to_multiset() =~= rec_views(old_out).to_multiset().insert(
                e,
            ));
            assert(rec_views(old_out).to_multiset().insert(e).add(
                rec_views(old_v).to_multiset().remove(e),
            ) =~= rec_views(old_out).to_multiset().add(rec_views(old_v).to_multiset()));
            assert forall|x1: int, y1: int|
                0 <= x1 < out@.len() && 0 <= y1 < v@.len() implies rec_views(out@)[x1].at_millis
                <= rec_views(v@)[y1].at_millis by {
                assert(rec_views(v@)[y1] == if y1 < mi as int {
                    rec_views(old_v)[y1]
                } else {
                    rec_views(old_v)[y1 + 1]
                });
            }
            if sorted_by_time(rec_views(orig_seq)) {
                let n = old_out.len() as int;
                assert(mi == 0);
                assert(x == old_v[0]);
                assert(old_v[0] == orig_seq.skip(n)[0]);
                assert(out@ =~= orig_seq.take(n + 1));
                assert(v@ =~= orig_seq.skip(n + 1));
            }
        }
    }
    proof {
        assert(rec_views(v@) =~= Seq::<RecView>::empty());
        assert(rec_views(v@).to_multiset() =~= Multiset::<RecView>::empty());
        assert(rec_views(out@).to_multiset().add(Multiset::<RecView>::empty()) =~= rec_views(
            out@,
        ).to_multiset());
        if sorted_by_time(rec_views(orig_seq)) {
            assert(orig_seq.take(n0 as int) =~= orig_seq);
        }
    }
    *v = out;
}

impl StateFile {
    /// Sort the state records by the moment they were recorded, oldest
    /// first, and hand back a copy of the newest, if any: the record with
    /// the greatest recorded moment, whatever order they were inserted in.
    /// A document with no state records has no newest one. Records that
    /// already stand in order are not moved, so calling this twice changes
    /// nothing the second time and yields the same record again, ties
    /// included.
    pub fn latest_record(&mut self) -> (r: Option<StateRecord>)
        ensures
            final(self)@.logs == old(self)@.logs,
            final(self)@.states.len() == old(self)@.states.len(),
            final(self)@.states.to_multiset() == old(self)@.states.to_multiset(),
            sorted_by_time(final(self)@.states),
            sorted_by_time(old(self)@.states) ==> final(self)@.states == old(self)@.states,
            (r is Some) <==> old(self)@.states.len() > 0,
            r matches Some(rec) ==> ({
                let fs = final(self)@.states;
                &&& rec@ == fs.last()
                &&& old(self)@.states.to_multiset().contains(rec@)
                &&& forall|i: int| 0 <= i < fs.len() ==> (#[trigger] fs[i]).at_millis <= rec@.at_millis
            }),
    {
        sort_recs(&mut self.states);
        if self.states.len() == 0 {
            None
        } else {
            let n = self.states.len();
            let rec = self.states[n - 1].clone();
            proof {
                let s = rec_views(self.states@);
                assert(rec@ == s[s.len() - 1]);
                assert(s.contains(rec@));
            }
            Some(rec)
        }
    }
}

// ---------------------------------------------------------------------------
// The file form of the document
// ---------------------------------------------------------------------------
//
// The persisted file holds one object with two arrays:
//   { "states": [ { "recorded_at": "...", "state": ... }, ... ],
//     "logs":   [ { "recorded_at": "...", "event": ..., "message": "..." }, ... ] }
// A log's event is `null`, the string "applicationTerminated", or
// { "signalReceived": <code> }.

pub open spec fn k_states() -> Seq<u8> {
    seq![115u8, 116u8, 97u8, 116u8, 101u8, 115u8]
}

pub open spec fn k_logs() -> Seq<u8> {
    seq![108u8, 111u8, 103u8, 115u8]
}

pub open spec fn k_recorded_at() -> Seq<u8> {
    seq![114u8, 101u8, 99u8, 111u8, 114u8, 100u8, 101u8, 100u8, 95u8, 97u8, 116u8]
}

pub open spec fn k_state() -> Seq<u8> {
    seq![115u8, 116u8, 97u8, 116u8, 101u8]
}

pub open spec fn k_event() -> Seq<u8> {
    seq![101u8, 118u8, 101u8, 110u8, 116u8]
}

pub open spec fn k_message() -> Seq<u8> {
    seq![109u8, 101u8, 115u8, 115u8, 97u8, 103u8, 101u8]
}

pub open spec fn k_app_terminated() -> Seq<u8> {
    seq![
        97u8, 112u8, 112u8, 108u8, 105u8, 99u8, 97u8, 116u8, 105u8, 111u8, 110u8, 84u8, 101u8,
        114u8, 109u8, 105u8, 110u8, 97u8, 116u8, 101u8, 100u8,
    ]
}

pub open spec fn k_signal_received() -> Seq<u8> {
    seq![115u8, 105u8, 103u8, 110u8, 97u8, 108u8, 82u8, 101u8, 99u8, 101u8, 105u8, 118u8, 101u8, 100u8]
}

/// The decimal spelling of a small count.
pub open spec fn dec_of(n: int) -> Seq<u8> {
    if n < 10 {
        seq![(48 + n) as u8]
    } else if n < 100 {
        seq![(48 + n / 10) as u8, (48 + n % 10) as u8]
    } else {
        seq![(48 + n / 100) as u8, (48 + (n / 10) % 10) as u8, (48 + n % 10) as u8]
    }
}

/// The count a spelling of up to three digits denotes, if it fits a byte
/// and carries no superfluous leading zero.
pub open spec fn dec_val(s: Seq<u8>) -> Option<u8> {
    if s.len() == 1 && crate::json::is_digit(s[0]) {
        Some((s[0] - 48) as u8)
    } else if s.len() == 2 && crate::json::is_digit(s[0]) && crate::json::is_digit(s[1]) && s[0]
        != 48 {
        Some(((s[0] - 48) * 10 + (s[1] - 48)) as u8)
    } else if s.len() == 3 && crate::json::is_digit(s[0]) && crate::json::is_digit(s[1])
        && crate::json::is_digit(s[2]) && s[0] != 48 {
        let vv = (s[0] - 48) * 100 + (s[1] - 48) * 10 + (s[2] - 48);
        if vv <= 255 {
            Some(vv as u8)
        } else {
            None
        }
    } else {
        None
    }
}

/// A code's spelling is a well-formed number, and reads back to the code.
pub proof fn lemma_dec_round(c: u8)
    ensures
        crate::json::is_number(dec_of(c as int)),
        dec_val(dec_of(c as int)) == Some(c),
{
    let s = dec_of(c as int);
    if c < 10 {
        assert(s[0] == (48 + c as int) as u8);
        assert(crate::json::is_digit(s[0]));
        assert(s.drop_first() =~= Seq::<u8>::empty());
        assert(crate::json::digit_run(s.drop_first()) == 0);
        assert(crate::json::digit_run(s) == 1);
        assert(s.skip(1) =~= Seq::<u8>::empty());
    } else if c < 100 {
        assert(s[0] == (48 + c as int / 10) as u8);
        assert(1 <= c as int / 10 <= 9);
        assert(crate::json::is_digit(s[0]));
        assert(s.drop_first() =~= seq![(48 + c as int % 10) as u8]);
        assert(crate::json::is_digit(s.drop_first()[0]));
        assert(s.drop_first().drop_first() =~= Seq::<u8>::empty());
        assert(crate::json::digit_run(s.drop_first().drop_first()) == 0);
        assert(crate::json::digit_run(s.drop_first()) == 1);
        assert(crate::json::digit_run(s) == 2);
        assert(s.skip(2) =~= Seq::<u8>::empty());
        assert(c as int / 10 * 10 + c as int % 10 == c as int);
    } else {
        assert(s[0] == (48 + c as int / 100) as u8);
        assert(1 <= c as int / 100 <= 2);
        assert(crate::json::is_digit(s[0]));
        assert(s.drop_first() =~= seq![
            (48 + (c as int / 10) % 10) as u8,
            (48 + c as int % 10) as u8,
        ]);
        assert(crate::json::is_digit(s.drop_first()[0]));
        assert(s.drop_first().drop_first() =~= seq![(48 + c as int % 10) as u8]);
        assert(crate::json::is_digit(s.drop_first().drop_first()[0]));
        assert(s.drop_first().drop_first().drop_first() =~= Seq::<u8>::empty());
        assert(crate::json::digit_run(s.drop_first().drop_first().drop_first()) == 0);
        assert(crate::json::digit_run(s.drop_first().drop_first()) == 1);
        assert(crate::json::digit_run(s.drop_first()) == 2);
        assert(crate::json::digit_run(s) == 3);
        assert(s.skip(3) =~= Seq::<u8>::empty());
        assert(c as int / 10 * 10 + c as int % 10 == c as int);
        assert(c as int / 10 / 10 == c as int / 100) by (nonlinear_arith)
            requires c >= 100
        ;
        assert(c as int / 10 * 10 + c as int % 10 == c as int);
        assert(c as int / 10 == c as int / 100 * 10 + (c as int / 10) % 10);
    }
}

/// How an optional event tag stands in the file.
pub open spec fn event_jval(e: Option<Event>) -> JVal {
    match e {
        None => JVal::Null,
        Some(Event::ApplicationTerminated) => JVal::Str(k_app_terminated()),
        Some(Event::SignalReceived(c)) => JVal::Obj(
            seq![(k_signal_received(), JVal::Num(dec_of(c as int)))],
        ),
    }
}

/// How one state record stands in the file.
pub open spec fn rec_jval(r: RecView) -> JVal {
    JVal::Obj(seq![(k_recorded_at(), JVal::Str(r.at_text)), (k_state(), r.state)])
}

/// How one log record stands in the file.
pub open spec fn log_jval(l: LogView) -> JVal {
    JVal::Obj(
        seq![
            (k_recorded_at(), JVal::Str(l.at_text)),
            (k_event(), event_jval(l.event)),
            (k_message(), JVal::Str(l.message)),
        ],
    )
}

pub open spec fn recs_jvals(s: Seq<RecView>) -> Seq<JVal>
    decreases s,
{
    if s.len() == 0 {
        Seq::empty()
    } else {
        seq![rec_jval(s[0])] + recs_jvals(s.drop_first())
    }
}

pub open spec fn logs_jvals(s: Seq<LogView>) -> Seq<JVal>
    decreases s,
{
    if s.len() == 0 {
        Seq::empty()
    } else {
        seq![log_jval(s[0])] + logs_jvals(s.drop_first())
    }
}

/// How the whole document stands in the file.
pub open spec fn doc_jval(v: SFView) -> JVal {
    JVal::Obj(
        seq![
            (k_states(), JVal::Arr(recs_jvals(v.states))),
            (k_logs(), JVal::Arr(logs_jvals(v.logs))),
        ],
    )
}

// ---------------------------------------------------------------------------
// Reading the document back out of a value
// ---------------------------------------------------------------------------

/// The value under the first occurrence of a key.
pub open spec fn jobj_get(ps: Seq<(Seq<u8>, JVal)>, k: Seq<u8>) -> Option<JVal>
    decreases ps,
{
    if ps.len() == 0 {
        None
    } else if ps[0].0 == k {
        Some(ps[0].1)
    } else {
        jobj_get(ps.drop_first(), k)
    }
}

pub open spec fn event_of_jval(j: JVal) -> Option<Option<Event>> {
    match j {
        JVal::Null => Some(None),
        JVal::Str(b) => if b == k_app_terminated() {
            Some(Some(Event::ApplicationTerminated))
        } else {
            None
        },
        JVal::Obj(ps) => if ps.len() == 1 {
            match jobj_get(ps, k_signal_received()) {
                Some(JVal::Num(l)) => match dec_val(l) {
                    Some(c) => Some(Some(Event::SignalReceived(c))),
                    None => None,
                },
                _ => None,
            }
        } else {
            None
        },
        _ => None,
    }
}

pub open spec fn rec_of_jval(j: JVal) -> Option<RecView> {
    match j {
        JVal::Obj(ps) => if ps.len() == 2 {
            match (jobj_get(ps, k_recorded_at()), jobj_get(ps, k_state())) {
                (Some(JVal::Str(b)), Some(st)) => match millis_of(b) {
                    Some(m) => if 0 <= m <= MAX_TIMESTAMP_MILLIS {
                        Some(RecView { at_millis: m, at_text: b, state: st })
                    } else {
                        None
                    },
                    None => None,
                },
                _ => None,
            }
        } else {
            None
        },
        _ => None,
    }
}

pub open spec fn log_of_jval(j: JVal) -> Option<LogView> {
    match j {
        JVal::Obj(ps) => if ps.len() == 3 {
            match (jobj_get(ps, k_recorded_at()), jobj_get(ps, k_event()), jobj_get(
                ps,
                k_message(),
            )) {
                (Some(JVal::Str(b)), Some(ej), Some(JVal::Str(msg))) => match (millis_of(b),
                event_of_jval(ej)) {
                    (Some(m), Some(e)) => if 0 <= m <= MAX_TIMESTAMP_MILLIS {
                        Some(LogView { at_millis: m, at_text: b, event: e, message: msg })
                    } else {
                        None
                    },
                    _ => None,
                },
                _ => None,
            }
        } else {
            None
        },
        _ => None,
    }
}

pub open spec fn recs_of_jvals(l: Seq<JVal>) -> Option<Seq<RecView>>
    decreases l,
{
    if l.len() == 0 {
        Some(Seq::empty())
    } else {
        match rec_of_jval(l[0]) {
            None => None,
            Some(r) => match recs_of_jvals(l.drop_first()) {
                None => None,
                Some(rs) => Some(seq![r] + rs),
            },
        }
    }
}

pub open spec fn logs_of_jvals(l: Seq<JVal>) -> Option<Seq<LogView>>
    decreases l,
{
    if l.len() == 0 {
        Some(Seq::empty())
    } else {
        match log_of_jval(l[0]) {
            None => None,
            Some(r) => match logs_of_jvals(l.drop_first()) {
                None => None,
                Some(rs) => Some(seq![r] + rs),
            },
        }
    }
}

/// The document a value carries, if it has the expected shape.
pub open spec fn sf_of_jval(j: JVal) -> Option<SFView> {
    match j {
        JVal::Obj(ps) => if ps.len() == 2 {
            match (jobj_get(ps, k_states()), jobj_get(ps, k_logs())) {
                (Some(JVal::Arr(sl)), Some(JVal::Arr(ll))) => match (recs_of_jvals(sl),
                logs_of_jvals(ll)) {
                    (Some(rs), Some(ls)) => Some(SFView { states: rs, logs: ls }),
                    _ => None,
                },
                _ => None,
            }
        } else {
            None
        },
        _ => None,
    }
}

// ---------------------------------------------------------------------------
// Writing and reading the document invert each other
// ---------------------------------------------------------------------------

proof fn lemma_event_round(e: Option<Event>)
    ensures
        event_of_jval(event_jval(e)) == Some(e),
{
    broadcast use vstd::seq_lib::group_seq_properties;

    match e {
        None => {},
        Some(Event::ApplicationTerminated) => {},
        Some(Event::SignalReceived(c)) => {
            let ps = seq![(k_signal_received(), JVal::Num(dec_of(c as int)))];
            assert(ps[0].0 == k_signal_received());
            lemma_dec_round(c);
        },
    }
}

proof fn lemma_rec_round(r: RecView)
    requires
        0 <= r.at_millis <= MAX_TIMESTAMP_MILLIS,
        millis_of(r.at_text) == Some(r.at_millis),
    ensures
        rec_of_jval(rec_jval(r)) == Some(r),
{
    broadcast use vstd::seq_lib::group_seq_properties;

    reveal_with_fuel(jobj_get, 3);

    let ps = seq![(k_recorded_at(), JVal::Str(r.at_text)), (k_state(), r.state)];
    assert(k_recorded_at().len() == 11);
    assert(k_state().len() == 5);
    assert(ps.drop_first() =~= seq![(k_state(), r.state)]);
    assert(jobj_get(ps, k_recorded_at()) == Some(JVal::Str(r.at_text)));
    assert(jobj_get(ps, k_state()) == Some(r.state));
}

proof fn lemma_log_round(l: LogView)
    requires
        0 <= l.at_millis <= MAX_TIMESTAMP_MILLIS,
        millis_of(l.at_text) == Some(l.at_millis),
    ensures
        log_of_jval(log_jval(l)) == Some(l),
{
    broadcast use vstd::seq_lib::group_seq_properties;

    reveal_with_fuel(jobj_get, 4);

    let ps = seq![
        (k_recorded_at(), JVal::Str(l.at_text)),
        (k_event(), event_jval(l.event)),
        (k_message(), JVal::Str(l.message)),
    ];
    assert(k_recorded_at().len() == 11);
    assert(k_event().len() == 5);
    assert(k_message().len() == 7);
    assert(ps.drop_first() =~= seq![
        (k_event(), event_jval(l.event)),
        (k_message(), JVal::Str(l.message)),
    ]);
    assert(ps.drop_first().drop_first() =~= seq![(k_message(), JVal::Str(l.message))]);
    assert(jobj_get(ps, k_recorded_at()) == Some(JVal::Str(l.at_text)));
    assert(jobj_get(ps, k_event()) == Some(event_jval(l.event)));
    assert(jobj_get(ps, k_message()) == Some(JVal::Str(l.message)));
    lemma_event_round(l.event);
}

proof fn lemma_recs_round(s: Seq<RecView>)
    requires
        forall|i: int| 0 <= i < s.len() ==> wf_rec(#[trigger] s[i]),
    ensures
        recs_of_jvals(recs_jvals(s)) == Some(s),
    decreases s,
{
    broadcast use vstd::seq_lib::group_seq_properties;

    if s.len() == 0 {
        assert(Seq::<RecView>::empty() =~= s);
    } else {
        lemma_rec_round(s[0]);
        lemma_recs_round(s.drop_first());
        let l = recs_jvals(s);
        assert(l[0] == rec_jval(s[0]));
        assert(l.drop_first() =~= recs_jvals(s.drop_first()));
        assert(seq![s[0]] + s.drop_first() =~= s);
    }
}

proof fn lemma_logs_round(s: Seq<LogView>)
    requires
        forall|i: int| 0 <= i < s.len() ==> wf_log(#[trigger] s[i]),
    ensures
        logs_of_jvals(logs_jvals(s)) == Some(s),
    decreases s,
{
    broadcast use vstd::seq_lib::group_seq_properties;

    if s.len() == 0 {
        assert(Seq::<LogView>::empty() =~= s);
    } else {
        lemma_log_round(s[0]);
        lemma_logs_round(s.drop_first());
        let l = logs_jvals(s);
        assert(l[0] == log_jval(s[0]));
        assert(l.drop_first() =~= logs_jvals(s.drop_first()));
        assert(seq![s[0]] + s.drop_first() =~= s);
    }
}

/// Reading the file form of a well-formed document yields the document.
pub proof fn lemma_doc_round(v: SFView)
    requires
        wf_sf(v),
    ensures
        sf_of_jval(doc_jval(v)) == Some(v),
{
    broadcast use vstd::seq_lib::group_seq_properties;

    reveal_with_fuel(jobj_get, 3);

    let ps = seq![
        (k_states(), JVal::Arr(recs_jvals(v.states))),
        (k_logs(), JVal::Arr(logs_jvals(v.logs))),
    ];
    assert(k_states().len() == 6);
    assert(k_logs().len() == 4);
    assert(ps.drop_first() =~= seq![(k_logs(), JVal::Arr(logs_jvals(v.logs)))]);
    assert(jobj_get(ps, k_states()) == Some(JVal::Arr(recs_jvals(v.states))));
    assert(jobj_get(ps, k_logs()) == Some(JVal::Arr(logs_jvals(v.logs))));
    lemma_recs_round(v.states);
    lemma_logs_round(v.logs);
    assert(SFView { states: v.states, logs: v.logs } =~= v);
}

// ---------------------------------------------------------------------------
// The file form of a well-formed document can be written out
// ---------------------------------------------------------------------------

proof fn lemma_event_jval_wf(e: Option<Event>)
    ensures
        crate::json::wf_jval(event_jval(e)),
{
    broadcast use vstd::seq_lib::group_seq_properties;

    reveal_with_fuel(crate::json::wf_jmembers, 3);

    match e {
        Some(Event::SignalReceived(c)) => {
            lemma_dec_round(c);
            let ps = seq![(k_signal_received(), JVal::Num(dec_of(c as int)))];
            assert(ps.drop_first() =~= Seq::<(Seq<u8>, JVal)>::empty());
            assert(crate::json::wf_jmembers(ps));
        },
        _ => {},
    }
}

proof fn lemma_rec_jval_wf(r: RecView)
    requires
        crate::json::wf_jval(r.state),
    ensures
        crate::json::wf_jval(rec_jval(r)),
{
    broadcast use vstd::seq_lib::group_seq_properties;

    reveal_with_fuel(jobj_get, 3);
    reveal_with_fuel(crate::json::wf_jmembers, 3);

    let ps = seq![(k_recorded_at(), JVal::Str(r.at_text)), (k_state(), r.state)];
    assert(ps.drop_first() =~= seq![(k_state(), r.state)]);
    assert(ps.drop_first().drop_first() =~= Seq::<(Seq<u8>, JVal)>::empty());
    assert(crate::json::wf_jmembers(ps));
}

proof fn lemma_log_jval_wf(l: LogView)
    ensures
        crate::json::wf_jval(log_jval(l)),
{
    broadcast use vstd::seq_lib::group_seq_properties;

    reveal_with_fuel(crate::json::wf_jmembers, 4);

    lemma_event_jval_wf(l.event);
    let ps = seq![
        (k_recorded_at(), JVal::Str(l.at_text)),
        (k_event(), event_jval(l.event)),
        (k_message(), JVal::Str(l.message)),
    ];
    assert(ps.drop_first() =~= seq![
        (k_event(), event_jval(l.event)),
        (k_message(), JVal::Str(l.message)),
    ]);
    assert(ps.drop_first().drop_first() =~= seq![(k_message(), JVal::Str(l.message))]);
    assert(ps.drop_first().drop_first().drop_first() =~= Seq::<(Seq<u8>, JVal)>::empty());
    assert(crate::json::wf_jmembers(ps));
}

proof fn lemma_recs_wf(s: Seq<RecView>)
    requires
        forall|i: int| 0 <= i < s.len() ==> wf_rec(#[trigger] s[i]),
    ensures
        crate::json::wf_jlist(recs_jvals(s)),
    decreases s,
{
    broadcast use vstd::seq_lib::group_seq_properties;

    if s.len() > 0 {
        lemma_rec_jval_wf(s[0]);
        lemma_recs_wf(s.drop_first());
        let l = recs_jvals(s);
        assert(l[0] == rec_jval(s[0]));
        assert(l.drop_first() =~= recs_jvals(s.drop_first()));
    }
}

proof fn lemma_logs_wf(s: Seq<LogView>)
    ensures
        crate::json::wf_jlist(logs_jvals(s)),
    decreases s,
{
    broadcast use vstd::seq_lib::group_seq_properties;

    if s.len() > 0 {
        lemma_log_jval_wf(s[0]);
        lemma_logs_wf(s.drop_first());
        let l = logs_jvals(s);
        assert(l[0] == log_jval(s[0]));
        assert(l.drop_first() =~= logs_jvals(s.drop_first()));
    }
}

/// The file form of a well-formed document is itself well formed, so the
/// encoder's guarantees apply to it.
pub proof fn lemma_doc_wf(v: SFView)
    requires
        wf_sf(v),
    ensures
        crate::json::wf_jval(doc_jval(v)),
{
    broadcast use vstd::seq_lib::group_seq_properties;

    reveal_with_fuel(crate::json::wf_jmembers, 3);

    lemma_recs_wf(v.states);
    lemma_logs_wf(v.logs);
    let ps = seq![
        (k_states(), JVal::Arr(recs_jvals(v.states))),
        (k_logs(), JVal::Arr(logs_jvals(v.logs))),
    ];
    assert(ps.drop_first() =~= seq![(k_logs(), JVal::Arr(logs_jvals(v.logs)))]);
    assert(ps.drop_first().drop_first() =~= Seq::<(Seq<u8>, JVal)>::empty());
    assert(crate::json::wf_jmembers(ps));
}


// ---------------------------------------------------------------------------
// Whatever reads back out of a well-formed value is well formed
// ---------------------------------------------------------------------------

proof fn lemma_jobj_get_wf(ps: Seq<(Seq<u8>, JVal)>, k: Seq<u8>)
    requires
        crate::json::wf_jmembers(ps),
    ensures
        jobj_get(ps, k) matches Some(v) ==> crate::json::wf_jval(v),
    decreases ps,
{
    if ps.len() > 0 && ps[0].0 != k {
        lemma_jobj_get_wf(ps.drop_first(), k);
    }
}

proof fn lemma_rec_of_wf(j: JVal)
    requires
        crate::json::wf_jval(j),
    ensures
        rec_of_jval(j) matches Some(r) ==> wf_rec(r),
{
    match j {
        JVal::Obj(ps) => {
            lemma_jobj_get_wf(ps, k_state());
        },
        _ => {},
    }
}

proof fn lemma_log_of_wf(j: JVal)
    ensures
        log_of_jval(j) matches Some(l) ==> wf_log(l),
{
}

proof fn lemma_recs_of_wf(l: Seq<JVal>)
    requires
        crate::json::wf_jlist(l),
    ensures
        recs_of_jvals(l) matches Some(rs) ==> forall|i: int|
            0 <= i < rs.len() ==> wf_rec(#[trigger] rs[i]),
    decreases l,
{
    broadcast use vstd::seq_lib::group_seq_properties;

    if l.len() > 0 {
        lemma_rec_of_wf(l[0]);
        lemma_recs_of_wf(l.drop_first());
        match (rec_of_jval(l[0]), recs_of_jvals(l.drop_first())) {
            (Some(r), Some(rs)) => {
                assert forall|i: int| 0 <= i < (seq![r] + rs).len() implies wf_rec(
                    #[trigger] (seq![r] + rs)[i],
                ) by {
                    if i > 0 {
                        assert((seq![r] + rs)[i] == rs[i - 1]);
                    }
                }
            },
            _ => {},
        }
    }
}

proof fn lemma_logs_of_wf(l: Seq<JVal>)
    ensures
        logs_of_jvals(l) matches Some(ls) ==> forall|i: int|
            0 <= i < ls.len() ==> wf_log(#[trigger] ls[i]),
    decreases l,
{
    broadcast use vstd::seq_lib::group_seq_properties;

    if l.len() > 0 {
        lemma_log_of_wf(l[0]);
        lemma_logs_of_wf(l.drop_first());
        match (log_of_jval(l[0]), logs_of_jvals(l.drop_first())) {
            (Some(r), Some(ls)) => {
                assert forall|i: int| 0 <= i < (seq![r] + ls).len() implies wf_log(
                    #[trigger] (seq![r] + ls)[i],
                ) by {
                    if i > 0 {
                        assert((seq![r] + ls)[i] == ls[i - 1]);
                    }
                }
            },
            _ => {},
        }
    }
}

/// A document read out of a well-formed value is itself well formed, so
/// the save-and-load round trip applies to it in turn.
pub proof fn lemma_sf_of_wf(j: JVal)
    requires
        crate::json::wf_jval(j),
    ensures
        sf_of_jval(j) matches Some(v) ==> wf_sf(v),
{
    match j {
        JVal::Obj(ps) => {
            lemma_jobj_get_wf(ps, k_states());
            lemma_jobj_get_wf(ps, k_logs());
            match (jobj_get(ps, k_states()), jobj_get(ps, k_logs())) {
                (Some(JVal::Arr(sl)), Some(JVal::Arr(ll))) => {
                    lemma_recs_of_wf(sl);
                    lemma_logs_of_wf(ll);
                },
                _ => {},
            }
        },
        _ => {},
    }
}

} // verus!
