//! The persistence backend: turning a state document into the bytes of the
//! state file and back.
//!
//! The library performs no input or output itself: the caller reads and
//! writes the file and hands the bytes over. Everything between the bytes
//! and the document — encoding, decoding, interpreting a missing or
//! unreadable file, appending a record — is verified here.

use vstd::prelude::*;

use crate::json::{clone_bytes, enc, parse_document, sp_doc, Json, JVal};
use crate::state::{
    dec_of, dec_val, doc_jval, event_jval, event_of_jval, jobj_get, k_app_terminated, k_event,
    k_logs, k_message, k_recorded_at, k_signal_received, k_state, k_states, log_jval,
    log_of_jval, log_views, logs_jvals, logs_of_jvals, rec_jval, rec_of_jval, rec_views,
    recs_jvals, recs_of_jvals, sf_of_jval, wf_rec, wf_sf, Event, LogRecord, LogView, RecView,
    SFView, State, StateFile, StateRecord,
};
use crate::timestamp::Timestamp;

verus! {

/// Why loading or saving the state file failed.
#[derive(Debug, Clone, Copy, PartialEq, Eq, Structural)]
pub enum PersistErr {
    /// The file exists but its content cannot be read as a state document,
    /// or a document could not be written out.
    EncodeError,
    /// The storage could not be read or written.
    IO,
}

impl PersistErr {
    /// A short account of the failure, for the operator.
    pub fn message(&self) -> (r: String)
        ensures
            *self == PersistErr::EncodeError ==> r@ == "invalid encoding"@,
            *self == PersistErr::IO ==> r@ == "IO error"@,
    {
        match self {
            PersistErr::EncodeError => "invalid encoding".to_owned(),
            PersistErr::IO => "IO error".to_owned(),
        }
    }
}

/// What the caller found when it tried to read the state file.
pub enum LoadOutcome {
    /// No file at the path: a fresh document begins.
    Missing,
    /// The file exists but could not be read.
    Unreadable,
    /// The file's bytes.
    Content(Vec<u8>),
}

/// The persistence backend: the state file at a path. The caller moves
/// bytes between this backend and the storage.
pub struct File {
    pub filename: String,
}

// ---------------------------------------------------------------------------
// The document's bytes
// ---------------------------------------------------------------------------

/// The bytes a document is saved as.
pub open spec fn enc_doc(v: SFView) -> Seq<u8> {
    enc(doc_jval(v))
}

/// The document some bytes hold, if they hold one.
pub open spec fn dec_doc(b: Seq<u8>) -> Option<SFView> {
    match sp_doc(b) {
        Some(j) => sf_of_jval(j),
        None => None,
    }
}

/// Law: a state file round-trips through saving and loading. Decoding the
/// bytes that a well-formed document was encoded to yields that document,
/// equal in every record and every field.
pub proof fn lemma_save_load_round_trip(v: SFView)
    requires
        wf_sf(v),
    ensures
        dec_doc(enc_doc(v)) == Some(v),
{
    crate::state::lemma_doc_wf(v);
    crate::json::lemma_enc_doc(doc_jval(v));
    crate::state::lemma_doc_round(v);
}

/// Law: the round trip also closes over loading. Any bytes that load at
/// all yield a well-formed document, and that document, saved and loaded
/// again, is itself unchanged — so repeated load-save cycles are stable.
pub proof fn lemma_loaded_document_round_trips(b: Seq<u8>)
    ensures
        dec_doc(b) matches Some(v) ==> wf_sf(v) && dec_doc(enc_doc(v)) == Some(v),
{
    match sp_doc(b) {
        Some(j) => {
            crate::json::lemma_sp_doc_wf(b);
            crate::state::lemma_sf_of_wf(j);
            match sf_of_jval(j) {
                Some(v) => {
                    lemma_save_load_round_trip(v);
                },
                None => {},
            }
        },
        None => {},
    }
}

// ---------------------------------------------------------------------------
// Small helpers
// ---------------------------------------------------------------------------

fn bytes_eq(a: &Vec<u8>, b: &Vec<u8>) -> (r: bool)
    ensures
        r == (a@ == b@),
{
    if a.len() != b.len() {
        proof {
            assert(a@ != b@);
        }
        return false;
    }
    let mut i: usize = 0;
    while i < a.len()
        invariant
            i <= a@.len(),
            a@.len() == b@.len(),
            forall|t: int| 0 <= t < i ==> a@[t] == b@[t],
        decreases a@.len() - i,
    {
        if a[i] != b[i] {
            proof {
                assert(a@[i as int] != b@[i as int]);
            }
            return false;
        }
        i = i + 1;
    }
    proof {
        assert(a@ =~= b@);
    }
    true
}

fn key_states() -> (r: Vec<u8>)
    ensures
        r@ == k_states(),
{
    let r = vec![115u8, 116u8, 97u8, 116u8, 101u8, 115u8];
    proof {
        assert(r@ =~= k_states());
    }
    r
}

fn key_logs() -> (r: Vec<u8>)
    ensures
        r@ == k_logs(),
{
    let r = vec![108u8, 111u8, 103u8, 115u8];
    proof {
        assert(r@ =~= k_logs());
    }
    r
}

fn key_recorded_at() -> (r: Vec<u8>)
    ensures
        r@ == k_recorded_at(),
{
    let r = vec![114u8, 101u8, 99u8, 111u8, 114u8, 100u8, 101u8, 100u8, 95u8, 97u8, 116u8];
    proof {
        assert(r@ =~= k_recorded_at());
    }
    r
}

fn key_state() -> (r: Vec<u8>)
    ensures
        r@ == k_state(),
{
    let r = vec![115u8, 116u8, 97u8, 116u8, 101u8];
    proof {
        assert(r@ =~= k_state());
    }
    r
}

fn key_event() -> (r: Vec<u8>)
    ensures
        r@ == k_event(),
{
    let r = vec![101u8, 118u8, 101u8, 110u8, 116u8];
    proof {
        assert(r@ =~= k_event());
    }
    r
}

fn key_message() -> (r: Vec<u8>)
    ensures
        r@ == k_message(),
{
    let r = vec![109u8, 101u8, 115u8, 115u8, 97u8, 103u8, 101u8];
    proof {
        assert(r@ =~= k_message());
    }
    r
}

fn key_app_terminated() -> (r: Vec<u8>)
    ensures
        r@ == k_app_terminated(),
{
    let r = vec![
        97u8, 112u8, 112u8, 108u8, 105u8, 99u8, 97u8, 116u8, 105u8, 111u8, 110u8, 84u8, 101u8,
        114u8, 109u8, 105u8, 110u8, 97u8, 116u8, 101u8, 100u8,
    ];
    proof {
        assert(r@ =~= k_app_terminated());
    }
    r
}

fn key_signal_received() -> (r: Vec<u8>)
    ensures
        r@ == k_signal_received(),
{
    let r = vec![
        115u8, 105u8, 103u8, 110u8, 97u8, 108u8, 82u8, 101u8, 99u8, 101u8, 105u8, 118u8, 101u8,
        100u8,
    ];
    proof {
        assert(r@ =~= k_signal_received());
    }
    r
}

/// The decimal spelling of a signal code.
fn dec_bytes(c: u8) -> (r: Vec<u8>)
    ensures
        r@ == dec_of(c as int),
{
    let mut out: Vec<u8> = Vec::new();
    if c < 10 {
        out.push(48 + c);
        proof {
            assert(out@ =~= dec_of(c as int));
        }
    } else if c < 100 {
        out.push(48 + c / 10);
        out.push(48 + c % 10);
        proof {
            assert(out@ =~= dec_of(c as int));
        }
    } else {
        out.push(48 + c / 100);
        out.push(48 + (c / 10) % 10);
        out.push(48 + c % 10);
        proof {
            assert(out@ =~= dec_of(c as int));
        }
    }
    out
}

/// The signal code a spelling denotes, if any.
fn dec_parse(l: &Vec<u8>) -> (r: Option<u8>)
    ensures
        r == dec_val(l@),
{
    if l.len() == 1 {
        let b0 = l[0];
        if 48 <= b0 && b0 <= 57 {
            Some(b0 - 48)
        } else {
            None
        }
    } else if l.len() == 2 {
        let b0 = l[0];
        let b1 = l[1];
        if 48 <= b0 && b0 <= 57 && 48 <= b1 && b1 <= 57 && b0 != 48 {
            Some((b0 - 48) * 10 + (b1 - 48))
        } else {
            None
        }
    } else if l.len() == 3 {
        let b0 = l[0];
        let b1 = l[1];
        let b2 = l[2];
        if 48 <= b0 && b0 <= 57 && 48 <= b1 && b1 <= 57 && 48 <= b2 && b2 <= 57 && b0 != 48 {
            let vv: u32 = (b0 - 48) as u32 * 100 + (b1 - 48) as u32 * 10 + (b2 - 48) as u32;
            if vv <= 255 {
                Some(vv as u8)
            } else {
                None
            }
        } else {
            None
        }
    } else {
        None
    }
}

/// Index of the first pair under a key, if the key occurs.
pub(crate) fn obj_find(ps: &Vec<(Vec<u8>, Json)>, k: &Vec<u8>) -> (r: Option<usize>)
    ensures
        r matches Some(i) ==> i < ps@.len() && ps@[i as int].0@ == k@ && jobj_get(
            crate::json::model_members(ps@),
            k@,
        ) == Some(ps@[i as int].1.model()),
        r is None ==> jobj_get(crate::json::model_members(ps@), k@) is None,
{
    let ghost mm = crate::json::model_members(ps@);
    proof {
        crate::json::lemma_model_members(ps@);
        assert(mm.skip(0) =~= mm);
    }
    let mut i: usize = 0;
    while i < ps.len()
        invariant
            i <= ps@.len(),
            mm == crate::json::model_members(ps@),
            mm.len() == ps@.len(),
            forall|t: int| 0 <= t < mm.len() ==> #[trigger] mm[t] == (ps@[t].0@, ps@[t].1.model()),
            jobj_get(mm, k@) == jobj_get(mm.skip(i as int), k@),
        decreases ps@.len() - i,
    {
        if bytes_eq(&ps[i].0, k) {
            proof {
                assert(mm.skip(i as int)[0] == mm[i as int]);
            }
            return Some(i);
        }
        proof {
            assert(mm.skip(i as int)[0] == mm[i as int]);
            assert(mm.skip(i as int).drop_first() =~= mm.skip(i as int + 1));
        }
        i = i + 1;
    }
    proof {
        assert(mm.skip(i as int) =~= Seq::<(Seq<u8>, JVal)>::empty());
    }
    None
}

// ---------------------------------------------------------------------------
// Writing the document out
// ---------------------------------------------------------------------------

proof fn lemma_recs_jvals_index(s: Seq<RecView>)
    ensures
        recs_jvals(s).len() == s.len(),
        forall|i: int| 0 <= i < s.len() ==> recs_jvals(s)[i] == rec_jval(s[i]),
    decreases s,
{
    broadcast use vstd::seq_lib::group_seq_properties;

    if s.len() > 0 {
        lemma_recs_jvals_index(s.drop_first());
    }
}

proof fn lemma_logs_jvals_index(s: Seq<LogView>)
    ensures
        logs_jvals(s).len() == s.len(),
        forall|i: int| 0 <= i < s.len() ==> logs_jvals(s)[i] == log_jval(s[i]),
    decreases s,
{
    broadcast use vstd::seq_lib::group_seq_properties;

    if s.len() > 0 {
        lemma_logs_jvals_index(s.drop_first());
    }
}

fn event_json(e: Option<Event>) -> (r: Json)
    ensures
        r.model() == event_jval(e),
{
    match e {
        None => Json::Null,
        Some(Event::ApplicationTerminated) => Json::Str(key_app_terminated()),
        Some(Event::SignalReceived(c)) => {
            let mut ps: Vec<(Vec<u8>, Json)> = Vec::new();
            ps.push((key_signal_received(), Json::Num(dec_bytes(c))));
            proof {
                crate::json::lemma_model_members(ps@);
                assert(crate::json::model_members(ps@) =~= seq![
                    (k_signal_received(), JVal::Num(dec_of(c as int))),
                ]);
            }
            Json::Obj(ps)
        },
    }
}

fn rec_json(r: &StateRecord) -> (out: Json)
    ensures
        out.model() == rec_jval(r@),
{
    let mut ps: Vec<(Vec<u8>, Json)> = Vec::new();
    ps.push((key_recorded_at(), Json::Str(clone_bytes(&r.recorded_at.text))));
    ps.push((key_state(), r.state.clone()));
    proof {
        crate::json::lemma_model_members(ps@);
        assert(crate::json::model_members(ps@) =~= seq![
            (k_recorded_at(), JVal::Str(r@.at_text)),
            (k_state(), r@.state),
        ]);
    }
    Json::Obj(ps)
}

fn log_json(l: &LogRecord) -> (out: Json)
    ensures
        out.model() == log_jval(l@),
{
    let mut ps: Vec<(Vec<u8>, Json)> = Vec::new();
    ps.push((key_recorded_at(), Json::Str(clone_bytes(&l.recorded_at.text))));
    ps.push((key_event(), event_json(l.event)));
    ps.push((key_message(), Json::Str(clone_bytes(&l.message))));
    proof {
        crate::json::lemma_model_members(ps@);
        assert(crate::json::model_members(ps@) =~= seq![
            (k_recorded_at(), JVal::Str(l@.at_text)),
            (k_event(), event_jval(l@.event)),
            (k_message(), JVal::Str(l@.message)),
        ]);
    }
    Json::Obj(ps)
}

fn states_json(v: &Vec<StateRecord>) -> (r: Json)
    ensures
        r.model() == JVal::Arr(recs_jvals(rec_views(v@))),
{
    let ghost target = recs_jvals(rec_views(v@));
    proof {
        lemma_recs_jvals_index(rec_views(v@));
    }
    let mut arr: Vec<Json> = Vec::new();
    let mut i: usize = 0;
    proof {
        crate::json::lemma_model_list(arr@);
        assert(crate::json::model_list(arr@) =~= target.take(0));
    }
    while i < v.len()
        invariant
            i <= v@.len(),
            target == recs_jvals(rec_views(v@)),
            target.len() == v@.len(),
            forall|t: int| 0 <= t < v@.len() ==> target[t] == rec_jval(v@[t]@),
            arr@.len() == i,
            crate::json::model_list(arr@) == target.take(i as int),
        decreases v@.len() - i,
    {
        let x = rec_json(&v[i]);
        proof {
            crate::json::lemma_model_list(arr@.push(x));
            crate::json::lemma_model_list(arr@);
            assert(crate::json::model_list(arr@.push(x)) =~= target.take(i as int + 1));
        }
        arr.push(x);
        i = i + 1;
    }
    proof {
        assert(target.take(v@.len() as int) =~= target);
    }
    Json::Arr(arr)
}

fn logs_json(v: &Vec<LogRecord>) -> (r: Json)
    ensures
        r.model() == JVal::Arr(logs_jvals(log_views(v@))),
{
    let ghost target = logs_jvals(log_views(v@));
    proof {
        lemma_logs_jvals_index(log_views(v@));
    }
    let mut arr: Vec<Json> = Vec::new();
    let mut i: usize = 0;
    proof {
        crate::json::lemma_model_list(arr@);
        assert(crate::json::model_list(arr@) =~= target.take(0));
    }
    while i < v.len()
        invariant
            i <= v@.len(),
            target == logs_jvals(log_views(v@)),
            target.len() == v@.len(),
            forall|t: int| 0 <= t < v@.len() ==> target[t] == log_jval(v@[t]@),
            arr@.len() == i,
            crate::json::model_list(arr@) == target.take(i as int),
        decreases v@.len() - i,
    {
        let x = log_json(&v[i]);
        proof {
            crate::json::lemma_model_list(arr@.push(x));
            crate::json::lemma_model_list(arr@);
            assert(crate::json::model_list(arr@.push(x)) =~= target.take(i as int + 1));
        }
        arr.push(x);
        i = i + 1;
    }
    proof {
        assert(target.take(v@.len() as int) =~= target);
    }
    Json::Arr(arr)
}

/// The whole document as one value, ready to be written out.
fn document_json(sf: &StateFile) -> (r: Json)
    ensures
        r.model() == doc_jval(sf@),
{
    let sj = states_json(&sf.states);
    let lj = logs_json(&sf.logs);
    let mut ps: Vec<(Vec<u8>, Json)> = Vec::new();
    ps.push((key_states(), sj));
    ps.push((key_logs(), lj));
    proof {
        crate::json::lemma_model_members(ps@);
        assert(crate::json::model_members(ps@) =~= seq![
            (k_states(), JVal::Arr(recs_jvals(rec_views(sf.states@)))),
            (k_logs(), JVal::Arr(logs_jvals(log_views(sf.logs@)))),
        ]);
    }
    Json::Obj(ps)
}

/// The bytes the supervised application is handed as its invocation
/// argument: the last known record, written alone.
pub fn encode_state_record(r: &StateRecord) -> (out: Vec<u8>)
    ensures
        out@ == enc(rec_jval(r@)),
{
    let j = rec_json(r);
    crate::json::encode_value(&j)
}

/// The bytes a document is saved as.
pub fn encode_document(sf: &StateFile) -> (r: Vec<u8>)
    ensures
        r@ == enc_doc(sf@),
{
    let j = document_json(sf);
    crate::json::encode_value(&j)
}

// ---------------------------------------------------------------------------
// Reading the document back in
// ---------------------------------------------------------------------------

fn event_of_json(j: &Json) -> (r: Option<Option<Event>>)
    ensures
        r == event_of_jval(j.model()),
{
    match j {
        Json::Null => Some(None),
        Json::Str(b) => {
            let ka = key_app_terminated();
            if bytes_eq(b, &ka) {
                Some(Some(Event::ApplicationTerminated))
            } else {
                None
            }
        },
        Json::Obj(ps) => {
            proof {
                crate::json::lemma_model_members(ps@);
            }
            if ps.len() != 1 {
                return None;
            }
            let ksr = key_signal_received();
            match obj_find(ps, &ksr) {
                Some(i) => match &ps[i].1 {
                    Json::Num(l) => match dec_parse(l) {
                        Some(c) => Some(Some(Event::SignalReceived(c))),
                        None => None,
                    },
                    _ => None,
                },
                None => None,
            }
        },
        _ => None,
    }
}

fn rec_of_json(j: &Json) -> (r: Option<StateRecord>)
    ensures
        r matches Some(sr) ==> rec_of_jval(j.model()) == Some(sr@),
        r is None ==> rec_of_jval(j.model()) is None,
{
    match j {
        Json::Obj(ps) => {
            proof {
                crate::json::lemma_model_members(ps@);
            }
            if ps.len() != 2 {
                return None;
            }
            let kra = key_recorded_at();
            let kst = key_state();
            let fa = obj_find(ps, &kra);
            let fb = obj_find(ps, &kst);
            match (fa, fb) {
                (Some(a), Some(b)) => match &ps[a].1 {
                    Json::Str(tb) => match Timestamp::from_text(clone_bytes(tb)) {
                        Some(ts) => {
                            let st = ps[b].1.clone();
                            Some(StateRecord { recorded_at: ts, state: st })
                        },
                        None => None,
                    },
                    _ => None,
                },
                _ => None,
            }
        },
        _ => None,
    }
}

fn log_of_json(j: &Json) -> (r: Option<LogRecord>)
    ensures
        r matches Some(lr) ==> log_of_jval(j.model()) == Some(lr@),
        r is None ==> log_of_jval(j.model()) is None,
{
    match j {
        Json::Obj(ps) => {
            proof {
                crate::json::lemma_model_members(ps@);
            }
            if ps.len() != 3 {
                return None;
            }
            let kra = key_recorded_at();
            let kev = key_event();
            let kms = key_message();
            let fa = obj_find(ps, &kra);
            let fe = obj_find(ps, &kev);
            let fm = obj_find(ps, &kms);
            match (fa, fe, fm) {
                (Some(a), Some(e), Some(m)) => match (&ps[a].1, &ps[m].1) {
                    (Json::Str(tb), Json::Str(mb)) => match event_of_json(&ps[e].1) {
                        Some(ev) => match Timestamp::from_text(clone_bytes(tb)) {
                            Some(ts) => Some(
                                LogRecord {
                                    recorded_at: ts,
                                    event: ev,
                                    message: clone_bytes(mb),
                                },
                            ),
                            None => None,
                        },
                        None => None,
                    },
                    _ => None,
                },
                _ => None,
            }
        },
        _ => None,
    }
}

spec fn recs_cont(acc: Seq<RecView>, r: Option<Seq<RecView>>) -> Option<Seq<RecView>> {
    match r {
        Some(rs) => Some(acc + rs),
        None => None,
    }
}

spec fn logs_cont(acc: Seq<LogView>, r: Option<Seq<LogView>>) -> Option<Seq<LogView>> {
    match r {
        Some(rs) => Some(acc + rs),
        None => None,
    }
}

fn recs_of_json(v: &Vec<Json>) -> (r: Option<Vec<StateRecord>>)
    ensures
        r matches Some(out) ==> recs_of_jvals(crate::json::model_list(v@)) == Some(
            rec_views(out@),
        ),
        r is None ==> recs_of_jvals(crate::json::model_list(v@)) is None,
{
    let ghost ml = crate::json::model_list(v@);
    proof {
        crate::json::lemma_model_list(v@);
        assert(ml.skip(0) =~= ml);
        assert(rec_views(Seq::<StateRecord>::empty()) =~= Seq::<RecView>::empty());
    }
    let mut out: Vec<StateRecord> = Vec::new();
    let mut i: usize = 0;
    while i < v.len()
        invariant
            i <= v@.len(),
            ml == crate::json::model_list(v@),
            ml.len() == v@.len(),
            forall|t: int| 0 <= t < v@.len() ==> ml[t] == v@[t].model(),
            out@.len() == i,
            recs_of_jvals(ml) == recs_cont(rec_views(out@), recs_of_jvals(ml.skip(i as int))),
        decreases v@.len() - i,
    {
        proof {
            assert(ml.skip(i as int)[0] == ml[i as int]);
            assert(ml.skip(i as int).drop_first() =~= ml.skip(i as int + 1));
        }
        match rec_of_json(&v[i]) {
            None => {
                return None;
            },
            Some(sr) => {
                proof {
                    let ghost old_out = out@;
                    assert(rec_views(old_out.push(sr)) =~= rec_views(old_out).push(sr@));
                    match recs_of_jvals(ml.skip(i as int + 1)) {
                        Some(rs) => {
                            assert(rec_views(old_out) + (seq![sr@] + rs) =~= (rec_views(
                                old_out,
                            ).push(sr@)) + rs);
                        },
                        None => {},
                    }
                }
                out.push(sr);
                i = i + 1;
            },
        }
    }
    proof {
        assert(ml.skip(i as int) =~= Seq::<JVal>::empty());
        assert(rec_views(out@) + Seq::<RecView>::empty() =~= rec_views(out@));
    }
    Some(out)
}

fn logs_of_json(v: &Vec<Json>) -> (r: Option<Vec<LogRecord>>)
    ensures
        r matches Some(out) ==> logs_of_jvals(crate::json::model_list(v@)) == Some(
            log_views(out@),
        ),
        r is None ==> logs_of_jvals(crate::json::model_list(v@)) is None,
{
    let ghost ml = crate::json::model_list(v@);
    proof {
        crate::json::lemma_model_list(v@);
        assert(ml.skip(0) =~= ml);
        assert(log_views(Seq::<LogRecord>::empty()) =~= Seq::<LogView>::empty());
    }
    let mut out: Vec<LogRecord> = Vec::new();
    let mut i: usize = 0;
    while i < v.len()
        invariant
            i <= v@.len(),
            ml == crate::json::model_list(v@),
            ml.len() == v@.len(),
            forall|t: int| 0 <= t < v@.len() ==> ml[t] == v@[t].model(),
            out@.len() == i,
            logs_of_jvals(ml) == logs_cont(log_views(out@), logs_of_jvals(ml.skip(i as int))),
        decreases v@.len() - i,
    {
        proof {
            assert(ml.skip(i as int)[0] == ml[i as int]);
            assert(ml.skip(i as int).drop_first() =~= ml.skip(i as int + 1));
        }
        match log_of_json(&v[i]) {
            None => {
                return None;
            },
            Some(lr) => {
                proof {
                    let ghost old_out = out@;
                    assert(log_views(old_out.push(lr)) =~= log_views(old_out).push(lr@));
                    match logs_of_jvals(ml.skip(i as int + 1)) {
                        Some(rs) => {
                            assert(log_views(old_out) + (seq![lr@] + rs) =~= (log_views(
                                old_out,
                            ).push(lr@)) + rs);
                        },
                        None => {},
                    }
                }
                out.push(lr);
                i = i + 1;
            },
        }
    }
    proof {
        assert(ml.skip(i as int) =~= Seq::<JVal>::empty());
        assert(log_views(out@) + Seq::<LogView>::empty() =~= log_views(out@));
    }
    Some(out)
}

fn statefile_of_json(j: &Json) -> (r: Option<StateFile>)
    ensures
        r matches Some(sf) ==> sf_of_jval(j.model()) == Some(sf@),
        r is None ==> sf_of_jval(j.model()) is None,
{
    match j {
        Json::Obj(ps) => {
            proof {
                crate::json::lemma_model_members(ps@);
            }
            if ps.len() != 2 {
                return None;
            }
            let kst = key_states();
            let klg = key_logs();
            let fs = obj_find(ps, &kst);
            let fl = obj_find(ps, &klg);
            match (fs, fl) {
                (Some(a), Some(b)) => match (&ps[a].1, &ps[b].1) {
                    (Json::Arr(sl), Json::Arr(ll)) => match recs_of_json(sl) {
                        Some(states) => match logs_of_json(ll) {
                            Some(logs) => Some(StateFile { states, logs }),
                            None => None,
                        },
                        None => None,
                    },
                    _ => None,
                },
                _ => None,
            }
        },
        _ => None,
    }
}

/// The document some bytes hold, or the error that they hold none.
pub fn decode_document(b: &[u8]) -> (r: Result<StateFile, PersistErr>)
    ensures
        r matches Ok(sf) ==> dec_doc(b@) == Some(sf@),
        r is Err ==> dec_doc(b@) is None && r == Err::<StateFile, PersistErr>(
            PersistErr::EncodeError,
        ),
{
    match parse_document(b) {
        Some(j) => match statefile_of_json(&j) {
            Some(sf) => Ok(sf),
            None => Err(PersistErr::EncodeError),
        },
        None => Err(PersistErr::EncodeError),
    }
}

// ---------------------------------------------------------------------------
// The backend's operations
// ---------------------------------------------------------------------------

/// A successful `record`: bytes that encode the loaded document with one
/// appended record carrying the given state.
pub open spec fn record_result_ok(r: Result<Vec<u8>, PersistErr>, sfv: SFView, s: JVal) -> bool {
    &&& r is Ok
    &&& exists|rec: RecView| recorded_with((r->Ok_0)@, sfv, s, rec)
}

/// A successful `record_log`: bytes that encode the loaded document with
/// one appended log record carrying the given message and tag.
pub open spec fn log_result_ok(
    r: Result<Vec<u8>, PersistErr>,
    sfv: SFView,
    message: Seq<u8>,
    event: Option<Event>,
) -> bool {
    &&& r is Ok
    &&& exists|rec: LogView| logged_with((r->Ok_0)@, sfv, message, event, rec)
}

/// One appended log record: what `record_log` adds to a loaded document
/// before writing it back out.
pub open spec fn logged_with(
    b: Seq<u8>,
    sf: SFView,
    message: Seq<u8>,
    event: Option<Event>,
    rec: LogView,
) -> bool {
    &&& rec.message == message
    &&& rec.event == event
    &&& 0 <= rec.at_millis <= crate::timestamp::MAX_TIMESTAMP_MILLIS
    &&& crate::timestamp::millis_of(rec.at_text) == Some(rec.at_millis)
    &&& b == enc_doc(SFView { states: sf.states, logs: sf.logs.push(rec) })
}

/// One appended record: what `record` adds to a loaded document before
/// writing it back out.
pub open spec fn recorded_with(b: Seq<u8>, sf: SFView, s: JVal, rec: RecView) -> bool {
    &&& rec.state == s
    &&& 0 <= rec.at_millis <= crate::timestamp::MAX_TIMESTAMP_MILLIS
    &&& crate::timestamp::millis_of(rec.at_text) == Some(rec.at_millis)
    &&& b == enc_doc(SFView { states: sf.states.push(rec), logs: sf.logs })
}

impl StateFile {
    /// Append a state record carrying `s`, stamped with the moment of the
    /// call.
    pub fn record_state(&mut self, s: State)
        ensures
            final(self)@.logs == old(self)@.logs,
            final(self)@.states.len() == old(self)@.states.len() + 1,
            final(self)@.states.drop_last() == old(self)@.states,
            ({
                let rec = final(self)@.states.last();
                &&& rec.state == s.model()
                &&& 0 <= rec.at_millis <= crate::timestamp::MAX_TIMESTAMP_MILLIS
                &&& crate::timestamp::millis_of(rec.at_text) == Some(rec.at_millis)
            }),
    {
        let ghost old_states = self.states@;
        let ghost old_logs = self.logs@;
        let ts = Timestamp::now();
        self.states.push(StateRecord { recorded_at: ts, state: s });
        proof {
            assert(rec_views(self.states@).drop_last() =~= rec_views(old_states));
            assert(log_views(self.logs@) =~= log_views(old_logs));
        }
    }

    /// Append a log record carrying a message and an optional event tag,
    /// stamped with the moment of the call.
    pub fn record_log(&mut self, message: Vec<u8>, event: Option<Event>)
        ensures
            final(self)@.states == old(self)@.states,
            final(self)@.logs.len() == old(self)@.logs.len() + 1,
            final(self)@.logs.drop_last() == old(self)@.logs,
            ({
                let rec = final(self)@.logs.last();
                &&& rec.message == message@
                &&& rec.event == event
                &&& 0 <= rec.at_millis <= crate::timestamp::MAX_TIMESTAMP_MILLIS
                &&& crate::timestamp::millis_of(rec.at_text) == Some(rec.at_millis)
            }),
    {
        let ghost old_states = self.states@;
        let ghost old_logs = self.logs@;
        let ts = Timestamp::now();
        self.logs.push(LogRecord { recorded_at: ts, event, message });
        proof {
            assert(log_views(self.logs@).drop_last() =~= log_views(old_logs));
            assert(rec_views(self.states@) =~= rec_views(old_states));
        }
    }
}

impl File {
    /// What loading the state file yields. A missing file is a fresh,
    /// empty document — a recoverable condition, not an error. Unreadable
    /// storage is an IO error. Content must decode to a document exactly;
    /// content that does not is an encoding error, never silently an empty
    /// document.
    pub fn load(&self, outcome: LoadOutcome) -> (r: Result<StateFile, PersistErr>)
        ensures
            outcome is Missing ==> (r matches Ok(sf) && sf@.states.len() == 0 && sf@.logs.len()
                == 0),
            outcome is Unreadable ==> r == Err::<StateFile, PersistErr>(PersistErr::IO),
            outcome matches LoadOutcome::Content(b) ==> ({
                &&& dec_doc(b@) is Some ==> (r matches Ok(sf) && Some(sf@) == dec_doc(b@))
                &&& dec_doc(b@) is None ==> r == Err::<StateFile, PersistErr>(
                    PersistErr::EncodeError,
                )
            }),
    {
        match outcome {
            LoadOutcome::Missing => Ok(StateFile::new()),
            LoadOutcome::Unreadable => Err(PersistErr::IO),
            LoadOutcome::Content(b) => decode_document(b.as_slice()),
        }
    }

    /// The bytes to write back after recording one more state snapshot in
    /// a loaded document: the whole document is rewritten, never patched.
    /// A failed load is reported as it stands; nothing is written for it.
    pub fn record(&self, loaded: Result<StateFile, PersistErr>, s: State) -> (r: Result<
        Vec<u8>,
        PersistErr,
    >)
        ensures
            loaded matches Err(e) ==> r == Err::<Vec<u8>, PersistErr>(e),
            loaded matches Ok(sf) ==> record_result_ok(r, sf@, s.model()),
    {
        let ghost s0 = s.model();
        match loaded {
            Err(e) => Err(e),
            Ok(mut sf) => {
                let ghost sf0 = sf@;
                sf.record_state(s);
                let b = encode_document(&sf);
                proof {
                    let rec = sf@.states.last();
                    assert(sf@.states =~= sf0.states.push(rec));
                    assert(sf@ =~= SFView { states: sf0.states.push(rec), logs: sf0.logs });
                    assert(recorded_with(b@, sf0, s0, rec));
                    let rr: Result<Vec<u8>, PersistErr> = Ok(b);
                    assert(rr->Ok_0 == b);
                    assert(recorded_with((rr->Ok_0)@, sf0, s0, rec));
                    assert(record_result_ok(rr, sf0, s0));
                }
                Ok(b)
            },
        }
    }

    /// The bytes to write back after recording one log entry in a loaded
    /// document, stamped with the moment of the call. As with `record`,
    /// the whole document is rewritten, and a failed load is reported as
    /// it stands.
    pub fn record_log(
        &self,
        loaded: Result<StateFile, PersistErr>,
        message: Vec<u8>,
        event: Option<Event>,
    ) -> (r: Result<Vec<u8>, PersistErr>)
        ensures
            loaded matches Err(e) ==> r == Err::<Vec<u8>, PersistErr>(e),
            loaded matches Ok(sf) ==> log_result_ok(r, sf@, message@, event),
    {
        let ghost m0 = message@;
        match loaded {
            Err(e) => Err(e),
            Ok(mut sf) => {
                let ghost sf0 = sf@;
                sf.record_log(message, event);
                let b = encode_document(&sf);
                proof {
                    let rec = sf@.logs.last();
                    assert(sf@.logs =~= sf0.logs.push(rec));
                    assert(sf@ =~= SFView { states: sf0.states, logs: sf0.logs.push(rec) });
                    assert(logged_with(b@, sf0, m0, event, rec));
                    let rr: Result<Vec<u8>, PersistErr> = Ok(b);
                    assert(rr->Ok_0 == b);
                    assert(logged_with((rr->Ok_0)@, sf0, m0, event, rec));
                    assert(log_result_ok(rr, sf0, m0, event));
                }
                Ok(b)
            },
        }
    }
}

} // verus!
