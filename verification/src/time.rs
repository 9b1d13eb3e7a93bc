//! Points in time, as a count of seconds and nanoseconds since the Unix epoch.

use vstd::prelude::*;

verus! {

/// A point in time (UTC): whole seconds since 1970-01-01T00:00:00Z and the
/// nanoseconds past that second.
#[derive(Clone, Copy, PartialEq, Eq, Structural, Debug)]
pub struct Timestamp {
    pub seconds: i64,
    pub nanos: u32,
}

/// Nanoseconds from `start` to `end` (negative when `end` comes first).
pub open spec fn nanos_between(end: Timestamp, start: Timestamp) -> int {
    (end.seconds - start.seconds) * 1_000_000_000 + end.nanos - start.nanos
}

/// Whole seconds from `start` to `end`, rounded toward zero.
pub open spec fn seconds_between(end: Timestamp, start: Timestamp) -> int {
    let d = nanos_between(end, start);
    if d >= 0 {
        d / 1_000_000_000
    } else {
        -((-d) / 1_000_000_000)
    }
}

/// `a` comes no later than `b`: by seconds, then by nanoseconds.
pub open spec fn not_after(a: Timestamp, b: Timestamp) -> bool {
    a.seconds < b.seconds || (a.seconds == b.seconds && a.nanos <= b.nanos)
}

/// The text that chrono's serde form of a `DateTime<Utc>` holds for the time
/// `seconds` and `nanos` after the epoch: its RFC 3339 form with `Z` and as
/// many fraction digits as the nanoseconds need. `None` where chrono holds no
/// such time.
pub uninterp spec fn rfc3339_text(seconds: i64, nanos: u32) -> Option<Seq<u8>>;

/// Builds the time with `chrono::DateTime::<Utc>::from_timestamp` and writes it
/// with `to_rfc3339_opts(SecondsFormat::AutoSi, true)`, the call that chrono's
/// `Serialize` for `DateTime` makes. `None` where `from_timestamp` refuses the
/// time. The text is named, not stated.
#[verifier::external_body]
pub(crate) fn rfc3339(seconds: i64, nanos: u32) -> (r: Option<Vec<u8>>)
    ensures
        match r {
            Some(v) => rfc3339_text(seconds, nanos) == Some(v@),
            None => rfc3339_text(seconds, nanos) is None,
        },
{
    match chrono::DateTime::<chrono::Utc>::from_timestamp(seconds, nanos) {
        Some(t) => Some(t.to_rfc3339_opts(chrono::SecondsFormat::AutoSi, true).into_bytes()),
        None => None,
    }
}

/// Reads the clock with `chrono::Utc::now`. What it returns depends on the
/// time, so nothing is stated of it.
#[verifier::external_body]
pub(crate) fn now() -> Timestamp {
    let t = chrono::Utc::now();
    Timestamp { seconds: t.timestamp(), nanos: t.timestamp_subsec_nanos() }
}

impl Timestamp {
    /// Whether `self` comes no later than `other`.
    pub fn not_after(&self, other: &Timestamp) -> (r: bool)
        ensures
            r == not_after(*self, *other),
    {
        self.seconds < other.seconds || (self.seconds == other.seconds && self.nanos <= other.nanos)
    }

    /// Nanoseconds from `start` to `self`.
    pub fn nanos_since(&self, start: &Timestamp) -> (r: i128)
        ensures
            r == nanos_between(*self, *start),
    {
        (self.seconds as i128 - start.seconds as i128) * 1_000_000_000 + self.nanos as i128
            - start.nanos as i128
    }

    /// Whole seconds from `start` to `self`, rounded toward zero.
    pub fn seconds_since(&self, start: &Timestamp) -> (r: i128)
        ensures
            r == seconds_between(*self, *start),
    {
        let d = self.nanos_since(start);
        if d >= 0 {
            d / 1_000_000_000
        } else {
            -((-d) / 1_000_000_000)
        }
    }
}

} // verus!
