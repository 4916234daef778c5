use crate::attachment::Timestamp;
use crate::error::SnipError;
use chrono::{DateTime, FixedOffset};
use vstd::prelude::*;
use vstd::string::*;

verus! {

/// The error that `chrono` reports for a text that is no date and time.
#[verifier::external_type_specification]
#[verifier::external_body]
pub struct ExParseError(chrono::ParseError);

/// The point in time that a text denotes under RFC 3339, where it denotes
/// one: the seconds since the Unix epoch, the nanoseconds of the second,
/// and the offset from UTC in seconds, as `DateTime::parse_from_rfc3339`
/// reads them.
pub uninterp spec fn rfc3339_instant(text: Seq<char>) -> Option<(i64, u32, i32)>;

/// The RFC 3339 text of a point in time under an offset, where `chrono` can
/// represent both: what `DateTime::to_rfc3339` writes for them.
pub uninterp spec fn rfc3339_text(seconds: i64, nanos: u32, offset: i32) -> Option<Seq<char>>;

impl Timestamp {
    /// The timestamp as seconds, nanoseconds and offset.
    pub open spec fn parts(&self) -> (i64, u32, i32) {
        (self.seconds, self.nanos, self.offset)
    }

    /// The same point in time, shown in UTC.
    pub fn to_utc(&self) -> (out: Timestamp)
        ensures
            out == (Timestamp { seconds: self.seconds, nanos: self.nanos, offset: 0 }),
    {
        Timestamp { seconds: self.seconds, nanos: self.nanos, offset: 0 }
    }
}

/// Calls `DateTime::parse_from_rfc3339` and reads the result's
/// `timestamp`, `timestamp_subsec_nanos` and offset. Trusted: whether the
/// text is read as a point in time, and as which, depends on the text alone.
#[verifier::external_body]
pub(crate) fn try_parse_rfc3339(text: &str) -> (out: Result<Timestamp, chrono::ParseError>)
    ensures
        match rfc3339_instant(text@) {
            Some(parts) => out matches Ok(t) && t.parts() == parts,
            None => out is Err,
        },
{
    DateTime::parse_from_rfc3339(text).map(
        |t|
            Timestamp {
                seconds: t.timestamp(),
                nanos: t.timestamp_subsec_nanos(),
                offset: t.offset().local_minus_utc(),
            },
    )
}

/// Renders the error of `DateTime::parse_from_rfc3339` with its `Display`.
#[verifier::external_body]
pub(crate) fn parse_error_text(error: &chrono::ParseError) -> (out: String) {
    format!("{}", error)
}

/// Calls `DateTime::from_timestamp`, `FixedOffset::east_opt`,
/// `DateTime::with_timezone` and `DateTime::to_rfc3339`. Trusted: whether
/// there is a text, and which, depends on the three numbers alone.
#[verifier::external_body]
pub(crate) fn try_format_rfc3339(timestamp: &Timestamp) -> (out: Option<String>)
    ensures
        match rfc3339_text(timestamp.seconds, timestamp.nanos, timestamp.offset) {
            Some(text) => out matches Some(s) && s@ == text,
            None => out is None,
        },
{
    let instant = DateTime::from_timestamp(timestamp.seconds, timestamp.nanos)?;
    let offset = FixedOffset::east_opt(timestamp.offset)?;
    Some(instant.with_timezone(&offset).to_rfc3339())
}

/// Reads a point in time from its RFC 3339 text. Fails where the text is
/// none.
pub fn parse_timestamp(text: &str) -> (out: Result<Timestamp, SnipError>)
    ensures
        match rfc3339_instant(text@) {
            Some(parts) => out matches Ok(t) && t.parts() == parts,
            None => out matches Err(e) && e is General,
        },
{
    match try_parse_rfc3339(text) {
        Ok(t) => Ok(t),
        Err(e) => Err(SnipError::General(parse_error_text(&e))),
    }
}

/// Writes a point in time as RFC 3339 text. Fails where the calendar
/// cannot represent it.
pub fn format_timestamp(timestamp: &Timestamp) -> (out: Result<String, SnipError>)
    ensures
        match rfc3339_text(timestamp.seconds, timestamp.nanos, timestamp.offset) {
            Some(text) => out matches Ok(s) && s@ == text,
            None => out matches Err(e) && e is General && e.detail()
                == "the time is out of the calendar's range"@,
        },
{
    match try_format_rfc3339(timestamp) {
        Some(text) => Ok(text),
        None => Err(SnipError::General("the time is out of the calendar's range".to_owned())),
    }
}

} // verus!
