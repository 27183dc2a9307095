use state::backend::{decode_document, encode_document, encode_state_record, File, LoadOutcome,
    PersistErr};
use state::config::{CfgErr, Config};
use state::json::{parse_value, Json, Parsed};
use state::state::{Event, LogRecord, StateFile, StateRecord};
use state::timestamp::Timestamp;

fn bytes(b: &[u8]) -> Vec<u8> {
    b.to_vec()
}

fn rec(millis: i64, state: Json) -> StateRecord {
    StateRecord { recorded_at: Timestamp::from_millis(millis), state }
}

fn log(millis: i64, event: Option<Event>, message: &[u8]) -> LogRecord {
    LogRecord { recorded_at: Timestamp::from_millis(millis), event, message: message.to_vec() }
}

fn sample_file() -> StateFile {
    StateFile {
        states: vec![
            rec(2000, Json::Obj(vec![(bytes(b"count"), Json::Num(bytes(b"2")))])),
            rec(1000, Json::Obj(vec![(bytes(b"count"), Json::Num(bytes(b"1")))])),
            rec(3000, Json::Obj(vec![(bytes(b"count"), Json::Num(bytes(b"3")))])),
        ],
        logs: vec![
            log(1500, None, b"plain note"),
            log(1600, Some(Event::ApplicationTerminated), b"done"),
            log(1700, Some(Event::SignalReceived(137)), b"killed hard"),
        ],
    }
}

#[test]
fn timestamp_spelling_is_rfc3339() {
    let t = Timestamp::from_millis(0);
    assert_eq!(t.text, bytes(b"1970-01-01T00:00:00.000Z"));
    let t2 = Timestamp::from_millis(1234567890123);
    assert_eq!(t2.text, bytes(b"2009-02-13T23:31:30.123Z"));
}

#[test]
fn timestamp_reads_back_from_its_spelling() {
    let t = Timestamp::from_millis(1234567890123);
    let back = Timestamp::from_text(t.text.clone()).expect("own spelling must parse");
    assert_eq!(back.millis, 1234567890123);
}

#[test]
fn save_then_load_round_trips_the_document() {
    let sf = sample_file();
    let encoded = encode_document(&sf);
    let back = decode_document(&encoded).expect("own encoding must decode");
    assert_eq!(back, sf);
}

#[test]
fn empty_document_round_trips() {
    let sf = StateFile::new();
    let back = decode_document(&encode_document(&sf)).expect("decode");
    assert!(back.states.is_empty());
    assert!(back.logs.is_empty());
}

#[test]
fn loaded_document_saves_and_loads_back() {
    // Keys in the other order, extra whitespace: it still loads, and what
    // loaded round-trips through its own save.
    let text = br#"{ "logs": [],
        "states": [ { "state": {"a": 1},
                      "recorded_at": "2009-02-13T23:31:30.123Z" } ] }"#;
    let sf = decode_document(text).expect("decodes");
    assert_eq!(sf.states[0].recorded_at.millis, 1234567890123);
    let sf2 = decode_document(&encode_document(&sf)).expect("own encoding decodes");
    assert_eq!(sf2, sf);
}

#[test]
fn foreign_timestamp_spelling_is_kept() {
    // An offset spelling instead of Z: accepted, and kept as written.
    let text = br#"{"states": [{"recorded_at": "2009-02-13T23:31:30.123+00:00",
        "state": null}], "logs": []}"#;
    let sf = decode_document(text).expect("decodes");
    assert_eq!(sf.states[0].recorded_at.millis, 1234567890123);
    assert_eq!(
        sf.states[0].recorded_at.text,
        bytes(b"2009-02-13T23:31:30.123+00:00"),
    );
    let sf2 = decode_document(&encode_document(&sf)).expect("own encoding decodes");
    assert_eq!(sf2, sf);
}

#[test]
fn latest_record_returns_the_maximum() {
    let mut sf = sample_file();
    let latest = sf.latest_record().expect("three records");
    assert_eq!(latest.recorded_at.millis, 3000);
    // Sorted on read, oldest first.
    let millis: Vec<i64> = sf.states.iter().map(|r| r.recorded_at.millis).collect();
    assert_eq!(millis, vec![1000, 2000, 3000]);
}

#[test]
fn latest_record_ignores_insertion_order() {
    for order in [[0usize, 1, 2], [2, 1, 0], [1, 2, 0]] {
        let base = sample_file();
        let mut sf = StateFile::new();
        for i in order {
            sf.states.push(base.states[i].clone());
        }
        assert_eq!(sf.latest_record().expect("records").recorded_at.millis, 3000);
    }
}

#[test]
fn latest_record_twice_returns_the_same_tied_record() {
    // Two records share the newest moment. After one call the states
    // stand sorted; a second call moves nothing and yields the same
    // record again.
    let mut sf = StateFile::new();
    for (m, tag) in [(1000i64, &b"a"[..]), (3000, b"b"), (3000, b"c")] {
        sf.states.push(StateRecord {
            recorded_at: Timestamp::from_millis(m),
            state: Json::Str(tag.to_vec()),
        });
    }
    let r1 = sf.latest_record().expect("records");
    let snapshot = sf.states.clone();
    let r2 = sf.latest_record().expect("records");
    assert_eq!(r1, r2);
    assert_eq!(sf.states, snapshot);
}

#[test]
fn latest_record_on_fresh_document_is_none() {
    let mut sf = StateFile::new();
    assert!(sf.latest_record().is_none());
}

#[test]
fn record_state_appends_a_stamped_record() {
    let mut sf = StateFile::new();
    sf.record_state(Json::Bool(true));
    assert_eq!(sf.states.len(), 1);
    assert_eq!(sf.states[0].state, Json::Bool(true));
    assert!(sf.logs.is_empty());
}

#[test]
fn record_log_appends_a_tagged_entry() {
    let mut sf = StateFile::new();
    sf.record_log(bytes(b"hello"), Some(Event::SignalReceived(2)));
    assert_eq!(sf.logs.len(), 1);
    assert_eq!(sf.logs[0].message, bytes(b"hello"));
    assert_eq!(sf.logs[0].event, Some(Event::SignalReceived(2)));
}

#[test]
fn load_missing_file_is_a_fresh_document() {
    let backend = File { filename: ".state.json".to_owned() };
    let sf = backend.load(LoadOutcome::Missing).expect("fresh");
    assert!(sf.states.is_empty());
    assert!(sf.logs.is_empty());
}

#[test]
fn load_unreadable_storage_is_an_io_error() {
    let backend = File { filename: ".state.json".to_owned() };
    assert_eq!(backend.load(LoadOutcome::Unreadable), Err(PersistErr::IO));
}

#[test]
fn load_corrupt_content_is_an_encoding_error_not_empty() {
    let backend = File { filename: ".state.json".to_owned() };
    for garbage in [&b"not a document"[..], b"{\"states\": []}", b"[1,2,3]", b"{"] {
        assert_eq!(
            backend.load(LoadOutcome::Content(garbage.to_vec())),
            Err(PersistErr::EncodeError),
        );
    }
}

#[test]
fn load_reads_back_what_record_wrote() {
    let backend = File { filename: ".state.json".to_owned() };
    let loaded = backend.load(LoadOutcome::Missing);
    let written = backend
        .record(loaded, Json::Obj(vec![(bytes(b"step"), Json::Num(bytes(b"7")))]))
        .expect("record on fresh document");
    let sf = backend.load(LoadOutcome::Content(written)).expect("written bytes decode");
    assert_eq!(sf.states.len(), 1);
    assert_eq!(
        sf.states[0].state,
        Json::Obj(vec![(bytes(b"step"), Json::Num(bytes(b"7")))]),
    );
}

#[test]
fn load_reads_back_what_record_log_wrote() {
    let backend = File { filename: ".state.json".to_owned() };
    let loaded = backend.load(LoadOutcome::Missing);
    let written = backend
        .record_log(loaded, bytes(b"note"), Some(Event::SignalReceived(9)))
        .expect("log on fresh document");
    let sf = backend.load(LoadOutcome::Content(written)).expect("written bytes decode");
    assert_eq!(sf.logs.len(), 1);
    assert_eq!(sf.logs[0].message, bytes(b"note"));
    assert_eq!(sf.logs[0].event, Some(Event::SignalReceived(9)));
    assert!(sf.states.is_empty());
}

#[test]
fn record_passes_a_failed_load_through() {
    let backend = File { filename: ".state.json".to_owned() };
    assert_eq!(backend.record(Err(PersistErr::IO), Json::Null), Err(PersistErr::IO));
    assert_eq!(
        backend.record(Err(PersistErr::EncodeError), Json::Null),
        Err(PersistErr::EncodeError),
    );
}

#[test]
fn state_record_encodes_alone_for_the_application() {
    let r = rec(1000, Json::Obj(vec![(bytes(b"x"), Json::Num(bytes(b"1")))]));
    let enc = encode_state_record(&r);
    match parse_value(&enc) {
        Parsed::Value(Json::Obj(ps), n) => {
            assert_eq!(n, enc.len());
            assert_eq!(ps.len(), 2);
            assert_eq!(ps[0].0, bytes(b"recorded_at"));
            assert_eq!(ps[1].0, bytes(b"state"));
        }
        r => panic!("unexpected: {:?}", r),
    }
}

#[test]
fn empty_state_record_has_an_empty_object() {
    let r = StateRecord::empty();
    assert_eq!(r.state, Json::Obj(vec![]));
}

#[test]
fn config_round_trips() {
    let cfg = Config { state_file: "here/.state.json".to_owned() };
    let saved = cfg.save();
    let back = Config::load(Some(saved)).expect("own encoding must load");
    assert_eq!(back.state_file, "here/.state.json");
}

#[test]
fn config_default_path() {
    let cfg = Config::default();
    assert_eq!(cfg.state_file, ".state.json");
}

#[test]
fn config_errors() {
    assert_eq!(Config::load(None), Err(CfgErr::FailToLoad));
    assert_eq!(Config::load(Some(bytes(b"nonsense"))), Err(CfgErr::Invalid));
    assert_eq!(Config::load(Some(bytes(b"{\"other\": 1}"))), Err(CfgErr::Invalid));
}
