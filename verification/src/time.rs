//! The moment of a commit, held as plain numbers, and its RFC 3339 text.

use chrono::{DateTime, Utc};
use std::time::SystemTime;
use vstd::prelude::*;

verus! {

/// A moment in UTC: whole seconds since the start of 1970, and the
/// nanoseconds into that second.
#[derive(Clone, Copy, Debug, PartialEq, Eq, Structural)]
pub struct Timestamp {
    pub secs: i64,
    pub nanos: u32,
}

/// The RFC 3339 text of a moment, such as `2015-05-15T00:00:00+00:00`;
/// `None` for numbers that stand for no moment the calendar can hold.
pub uninterp spec fn rfc3339_text(secs: i64, nanos: u32) -> Option<Seq<char>>;

/// Calls `chrono::DateTime::from_timestamp` and, where that gives a moment,
/// `chrono::DateTime::to_rfc3339` on it. Trusted: the text, or its absence,
/// is a function of the two numbers alone.
#[verifier::external_body]
fn rfc3339_of(secs: i64, nanos: u32) -> (text: Option<String>)
    ensures
        match text {
            Some(t) => rfc3339_text(secs, nanos) == Some(t@),
            None => rfc3339_text(secs, nanos).is_none(),
        },
{
    match DateTime::<Utc>::from_timestamp(secs, nanos) {
        Some(moment) => Some(moment.to_rfc3339()),
        None => None,
    }
}

/// Reads the clock with `std::time::SystemTime::now` and hands the moment to
/// chrono's `DateTime::<Utc>::from`, which takes moments before 1970 as well
/// as after; `timestamp` and `timestamp_subsec_nanos` take the result apart.
/// Trusted: the numbers are those of a moment that chrono holds, so they
/// have an RFC 3339 text. Which moment it is, the clock decides.
#[verifier::external_body]
pub(crate) fn utc_now() -> (now: Timestamp)
    ensures
        rfc3339_text(now.secs, now.nanos).is_some(),
{
    let now = DateTime::<Utc>::from(SystemTime::now());
    Timestamp { secs: now.timestamp(), nanos: now.timestamp_subsec_nanos() }
}

impl Timestamp {
    /// The RFC 3339 text of this moment in UTC.
    pub open spec fn text(self) -> Option<Seq<char>> {
        rfc3339_text(self.secs, self.nanos)
    }

    /// Writes this moment as RFC 3339 text, if it is one the calendar holds.
    pub fn to_rfc3339(&self) -> (text: Option<String>)
        ensures
            match text {
                Some(t) => self.text() == Some(t@),
                None => self.text().is_none(),
            },
    {
        rfc3339_of(self.secs, self.nanos)
    }
}

} // verus!
