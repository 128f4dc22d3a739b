//! Calendar time, as far as the library relies on the `chrono` crate for it.

use vstd::prelude::*;

verus! {

/// The time that a text denotes under a format: the whole seconds since the
/// start of 1970 in UTC, and the nanoseconds since the last whole second;
/// `None` where the text does not fit the format.
pub uninterp spec fn parsed_time(text: Seq<char>, format: Seq<char>) -> Option<(int, int)>;

/// A time in whole seconds since the start of 1970 in UTC, written under a
/// format; `None` where the calendar does not reach that far.
pub uninterp spec fn formatted_time(seconds: int, format: Seq<char>) -> Option<Seq<char>>;

/// The format in which the times of a query are written and read.
pub open spec fn query_time_format() -> Seq<char> {
    "%Y-%m-%dT%H:%M:%SZ"@
}

/// The format in which the times of a query are written and read.
pub fn time_format() -> (format: &'static str)
    ensures
        format@ == query_time_format(),
{
    "%Y-%m-%dT%H:%M:%SZ"
}

/// `NaiveDateTime::parse_from_str` reads a date and a time of day from a
/// text under a format; the result is taken as UTC and handed out as whole
/// seconds since the start of 1970 and nanoseconds since the last whole
/// second (`and_utc`, `timestamp`, `timestamp_subsec_nanos`). Not proved.
/// Assumed: the result depends on the text and the format alone.
#[verifier::external_body]
pub(crate) fn parse_time(text: &str, format: &str) -> (r: Option<(i64, u32)>)
    ensures
        match r {
            Some(time) => parsed_time(text@, format@) == Some((time.0 as int, time.1 as int)),
            None => parsed_time(text@, format@) is None,
        },
{
    let time = chrono::NaiveDateTime::parse_from_str(text, format).ok()?.and_utc();
    Some((time.timestamp(), time.timestamp_subsec_nanos()))
}

/// `DateTime::from_timestamp` makes a UTC time of whole seconds since the
/// start of 1970, and `DateTime::format` writes it under a format. Not
/// proved. Assumed: the result depends on the seconds and the format alone.
/// The format is held to the one of the queries, which `chrono` accepts:
/// writing under a format that it does not accept panics.
#[verifier::external_body]
pub(crate) fn format_time(seconds: i64, format: &str) -> (r: Option<String>)
    requires
        format@ == query_time_format(),
    ensures
        match r {
            Some(text) => formatted_time(seconds as int, format@) == Some(text@),
            None => formatted_time(seconds as int, format@) is None,
        },
{
    chrono::DateTime::from_timestamp(seconds, 0).map(|time| time.format(format).to_string())
}

/// `Utc::now` reads the system clock; the time is handed out as whole
/// seconds since the start of 1970. Nothing is claimed of it. `chrono`
/// gives up on a clock that stands before 1970.
#[verifier::external_body]
pub(crate) fn now_seconds() -> i64 {
    chrono::Utc::now().timestamp()
}

} // verus!
