//! Time filters for a search request.
//!
//! A request may carry `after` and `before` bounds written as
//! `YYYY-MM-DD` or `YYYY-MM-DD HH:MM`; both are read as UTC and turned
//! into millisecond timestamps.  The calendar arithmetic itself is
//! chrono's; the two parsers' results are named and everything around
//! them is verified.

use vstd::prelude::*;

use crate::error::SearchError;
use crate::types::TimeRange;

verus! {

/// The millisecond timestamp that the text denotes in the minute format
/// (`YYYY-MM-DD HH:MM`, UTC), if it is valid in that format.
pub uninterp spec fn minute_stamp_of(s: Seq<char>) -> Option<i64>;

/// The millisecond timestamp of midnight starting the day the text
/// denotes in the day format (`YYYY-MM-DD`, UTC), if it is valid in that
/// format.
pub uninterp spec fn day_stamp_of(s: Seq<char>) -> Option<i64>;

/// Relies on chrono's `NaiveDateTime::parse_from_str` with the
/// `%Y-%m-%d %H:%M` format, and on `DateTime::timestamp_millis` for the
/// conversion of the parsed value: the answer depends on the text alone.
#[verifier::external_body]
fn parse_minute_stamp(s: &str) -> (r: Option<i64>)
    ensures
        r == minute_stamp_of(s@),
{
    chrono::NaiveDateTime::parse_from_str(s, "%Y-%m-%d %H:%M").ok().map(
        |dt| dt.and_utc().timestamp_millis(),
    )
}

/// Relies on chrono's `NaiveDate::parse_from_str` with the `%Y-%m-%d`
/// format, `NaiveDate::and_hms_opt(0, 0, 0)` for midnight, and
/// `DateTime::timestamp_millis` for the conversion: the answer depends on
/// the text alone.
#[verifier::external_body]
fn parse_day_stamp(s: &str) -> (r: Option<i64>)
    ensures
        r == day_stamp_of(s@),
{
    chrono::NaiveDate::parse_from_str(s, "%Y-%m-%d").ok().and_then(|d| d.and_hms_opt(0, 0, 0)).map(
        |dt| dt.and_utc().timestamp_millis(),
    )
}

/// The timestamp a filter text denotes: the minute format wins, the day
/// format is the fallback.
pub open spec fn stamp_of(s: Seq<char>) -> Option<i64> {
    match minute_stamp_of(s) {
        Some(ms) => Some(ms),
        None => day_stamp_of(s),
    }
}

/// Read one time-filter text as a millisecond timestamp, trying the
/// minute format first and the day format second.
pub fn parse_datetime(input: &str) -> (r: Result<i64, SearchError>)
    ensures
        match r {
            Ok(ms) => stamp_of(input@) == Some(ms),
            Err(e) => e == SearchError::InvalidDateFormat && stamp_of(input@) is None,
        },
{
    match parse_minute_stamp(input) {
        Some(ms) => Ok(ms),
        None => match parse_day_stamp(input) {
            Some(ms) => Ok(ms),
            None => Err(SearchError::InvalidDateFormat),
        },
    }
}

/// Build the request's time filter from the two optional bound texts.
/// No bound at all means no filter; a bound that parses in neither
/// format rejects the request, and so does a pair of bounds that leaves
/// the range empty: the answered range always satisfies its invariant,
/// `after <= before` when both are present.
pub fn build_time_range(after: Option<&str>, before: Option<&str>) -> (r: Result<
    Option<TimeRange>,
    SearchError,
>)
    ensures
        match r {
            Ok(tr) => {
                &&& (after is None && before is None) <==> tr is None
                &&& tr matches Some(t) ==> {
                    &&& t.after == (match after {
                        Some(a) => stamp_of(a@),
                        None => None,
                    })
                    &&& t.before == (match before {
                        Some(b) => stamp_of(b@),
                        None => None,
                    })
                    &&& t.wf()
                }
                &&& after matches Some(a) ==> stamp_of(a@) is Some
                &&& before matches Some(b) ==> stamp_of(b@) is Some
            },
            Err(e) => {
                ||| (e == SearchError::InvalidDateFormat && ((after matches Some(a) && stamp_of(
                    a@,
                ) is None) || (before matches Some(b) && stamp_of(b@) is None)))
                ||| (e == SearchError::EmptyTimeRange && (after matches Some(a) && (before
                    matches Some(b) && (stamp_of(a@) matches Some(at) && (stamp_of(b@) matches
                    Some(bt) && at > bt)))))
            },
        },
{
    if after.is_none() && before.is_none() {
        return Ok(None);
    }
    let after_ts = match after {
        Some(a) => match parse_datetime(a) {
            Ok(ms) => Some(ms),
            Err(e) => {
                return Err(e);
            },
        },
        None => None,
    };
    let before_ts = match before {
        Some(b) => match parse_datetime(b) {
            Ok(ms) => Some(ms),
            Err(e) => {
                return Err(e);
            },
        },
        None => None,
    };
    if let (Some(a), Some(b)) = (after_ts, before_ts) {
        if a > b {
            return Err(SearchError::EmptyTimeRange);
        }
    }
    Ok(Some(TimeRange { after: after_ts, before: before_ts }))
}

} // verus!
