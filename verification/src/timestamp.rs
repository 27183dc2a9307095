//! Moments in time, as the records of the state file carry them.
//!
//! A moment is held twice over: as milliseconds since the Unix epoch, which
//! ordering and the idle arithmetic work on, and as its textual date-time
//! spelling, which the persisted file stores. The two are tied together by
//! the outside date library, reached only through the trusted items below.

use chrono::TimeZone;
use vstd::prelude::*;

verus! {

/// The last moment the textual form can carry: the end of year 9999 at
/// millisecond precision.
pub const MAX_TIMESTAMP_MILLIS: i64 = 253402300799999;

/// The textual date-time spelling of a moment: what the outside formatter
/// returns for it. RFC 3339 with milliseconds, in UTC.
pub uninterp spec fn rfc3339_of(millis: int) -> Seq<u8>;

/// The moment an arbitrary spelling denotes: what the outside parser
/// returns for it, in milliseconds.
pub uninterp spec fn millis_of(text: Seq<u8>) -> Option<i64>;

/// One moment: when a state or log record was made.
#[derive(Debug, PartialEq, Eq)]
pub struct Timestamp {
    /// Milliseconds since the Unix epoch.
    pub millis: i64,
    /// The spelling the persisted file stores for this moment.
    pub text: Vec<u8>,
}

impl Timestamp {
    /// The spelling denotes the milliseconds, and the milliseconds lie in
    /// the representable window.
    pub open spec fn wf(self) -> bool {
        &&& 0 <= self.millis <= MAX_TIMESTAMP_MILLIS
        &&& millis_of(self.text@) == Some(self.millis)
    }

    /// The moment of the call, clamped into the representable window.
    pub fn now() -> (r: Timestamp)
        ensures
            r.wf(),
    {
        let m = now_millis();
        let c: i64 = if m < 0 {
            0
        } else if m > MAX_TIMESTAMP_MILLIS {
            MAX_TIMESTAMP_MILLIS
        } else {
            m
        };
        Timestamp::from_millis(c)
    }

    /// The moment `millis` past the epoch, with its spelling.
    pub fn from_millis(millis: i64) -> (r: Timestamp)
        requires
            0 <= millis <= MAX_TIMESTAMP_MILLIS,
        ensures
            r.wf(),
            r.millis == millis,
            r.text@ == rfc3339_of(millis as int),
    {
        let text = format_rfc3339(millis);
        Timestamp { millis, text }
    }

    /// A moment read back from a spelling, if the spelling denotes one in
    /// the representable window.
    pub fn from_text(text: Vec<u8>) -> (r: Option<Timestamp>)
        ensures
            r matches Some(t) ==> t.wf() && t.text@ == text@ && millis_of(text@) == Some(
                t.millis,
            ),
            r is None ==> !ts_parseable(text@),
    {
        match parse_rfc3339(text.as_slice()) {
            Some(m) => {
                if 0 <= m && m <= MAX_TIMESTAMP_MILLIS {
                    Some(Timestamp { millis: m, text })
                } else {
                    None
                }
            },
            None => None,
        }
    }
}

/// The spelling denotes a moment in the representable window.
pub open spec fn ts_parseable(text: Seq<u8>) -> bool {
    match millis_of(text) {
        Some(m) => 0 <= m <= MAX_TIMESTAMP_MILLIS,
        None => false,
    }
}

impl Clone for Timestamp {
    fn clone(&self) -> (r: Timestamp)
        ensures
            r.millis == self.millis,
            r.text@ == self.text@,
    {
        Timestamp { millis: self.millis, text: crate::json::clone_bytes(&self.text) }
    }
}

/// Relies on chrono's `From<SystemTime>` conversion and
/// `DateTime::timestamp_millis`: the clock's reading at the call, of which
/// nothing is assumed. The conversion is taken instead of `Utc::now`
/// because it carries a clock that reads before the Unix epoch through as
/// a negative count instead of panicking; the caller clamps such a
/// reading.
#[verifier::external_body]
fn now_millis() -> i64 {
    chrono::DateTime::<chrono::Utc>::from(std::time::SystemTime::now()).timestamp_millis()
}

/// Relies on chrono's `TimeZone::timestamp_millis_opt` and
/// `DateTime::to_rfc3339_opts`: a moment within the representable window
/// has exactly one spelling at millisecond precision, and chrono's
/// `DateTime::parse_from_rfc3339` reads that spelling back to the same
/// moment.
#[verifier::external_body]
fn format_rfc3339(ms: i64) -> (r: Vec<u8>)
    requires
        0 <= ms <= MAX_TIMESTAMP_MILLIS,
    ensures
        r@ == rfc3339_of(ms as int),
        millis_of(r@) == Some(ms),
{
    match chrono::Utc.timestamp_millis_opt(ms) {
        chrono::LocalResult::Single(dt) => dt.to_rfc3339_opts(
            chrono::SecondsFormat::Millis,
            true,
        ).into_bytes(),
        _ => Vec::new(),
    }
}

/// Relies on chrono's `DateTime::parse_from_rfc3339` and
/// `DateTime::timestamp_millis` for the moment a spelling denotes, and on
/// `core::str::from_utf8` to view the bytes as text.
#[verifier::external_body]
fn parse_rfc3339(b: &[u8]) -> (r: Option<i64>)
    ensures
        r == millis_of(b@),
{
    match core::str::from_utf8(b) {
        Ok(s) => match chrono::DateTime::parse_from_rfc3339(s) {
            Ok(dt) => Some(dt.timestamp_millis()),
            Err(_) => None,
        },
        Err(_) => None,
    }
}

} // verus!
