//! Calendar text of instants.

use chrono::{DateTime, SecondsFormat, Utc};
use vstd::prelude::*;

use crate::types::Timestamp;

verus! {

/// The RFC 3339 text of an instant: what `DateTime::to_rfc3339_opts` writes
/// with the fewest of zero, three, six or nine decimals, in UTC. `None` outside
/// the calendar.
pub uninterp spec fn instant_chars(secs: i64, nanos: u32) -> Option<Seq<char>>;

/// The instant that a text denotes, if it denotes one: what parsing it as a
/// `DateTime<Utc>` gives.
pub uninterp spec fn parsed_instant(text: Seq<char>) -> Option<(i64, u32)>;

/// The first second of the calendar.
pub const FIRST_SECOND: i64 = -8334601228800;

/// The last second of the calendar.
pub const LAST_SECOND: i64 = 8210266876799;

/// Whether `chrono` represents an instant: in the years -262143 to 262142, with
/// less than a second of nanoseconds, or less than two in the last second of a
/// minute, which is then a leap second.
pub open spec fn in_calendar(at: Timestamp) -> bool {
    FIRST_SECOND <= at.secs <= LAST_SECOND && (at.nanos < 1_000_000_000 || (at.nanos
        < 2_000_000_000 && at.secs as int % 60 == 59))
}

/// `DateTime::from_timestamp` and `DateTime::to_rfc3339_opts`. There is a text
/// exactly within the calendar; it parses back to the instant and holds no NUL
/// character.
#[verifier::external_body]
pub(crate) fn instant_text(at: Timestamp) -> (text: Option<String>)
    ensures
        match text {
            Some(t) => instant_chars(at.secs, at.nanos) == Some(t@) && parsed_instant(t@) == Some(
                (at.secs, at.nanos),
            ) && !t@.contains('\0'),
            None => instant_chars(at.secs, at.nanos) is None,
        },
        text is Some <==> in_calendar(at),
{
    DateTime::<Utc>::from_timestamp(at.secs, at.nanos).map(
        |t| t.to_rfc3339_opts(SecondsFormat::AutoSi, true),
    )
}

/// `str::parse` as a `DateTime<Utc>`, its error dropped.
#[verifier::external_body]
pub(crate) fn instant_parse(text: &str) -> (at: Option<Timestamp>)
    ensures
        match at {
            Some(t) => parsed_instant(text@) == Some((t.secs, t.nanos)),
            None => parsed_instant(text@) is None,
        },
{
    text.parse::<DateTime<Utc>>().ok().map(
        |t| Timestamp { secs: t.timestamp(), nanos: t.timestamp_subsec_nanos() },
    )
}

} // verus!
