//! Times: the time of day by the system's clock, the day on which a time
//! falls, and the span of time that a list of finished tasks covers.

use vstd::prelude::*;

verus! {

/// The second, counted from 1 January 1970, 0:00 UTC, at which the day
/// `date` starts in UTC, where `date` is a day of the calendar written as
/// year, month and day with `-` between them; `None` where it is not.
///
/// This names what `chrono::NaiveDate::parse_from_str` makes of `date` under
/// the format `"%Y-%m-%d"`.
pub uninterp spec fn day_start(date: Seq<char>) -> Option<i64>;

/// The second at which the day `date` starts in UTC.
///
/// Calls `chrono::NaiveDate::parse_from_str` with the format `"%Y-%m-%d"`,
/// and on the day it returns `and_time` with midnight, `and_utc` and
/// `timestamp`; where it returns an error, this is `None`. The result
/// depends on `date` alone, and is what `day_start` names.
#[verifier::external_body]
pub(crate) fn parse_day(date: &str) -> (start: Option<i64>)
    ensures
        start == day_start(date@),
{
    match chrono::NaiveDate::parse_from_str(date, "%Y-%m-%d") {
        Ok(day) => Some(day.and_time(chrono::NaiveTime::MIN).and_utc().timestamp()),
        Err(_) => None,
    }
}

/// The seconds that have passed since 1 January 1970, 0:00 UTC, by the
/// system's clock.
///
/// Calls `chrono::Utc::now` and `chrono::DateTime::timestamp`. Nothing is
/// claimed of the result: two calls may return anything. `Utc::now` panics
/// where the system's clock stands before 1970.
#[verifier::external_body]
pub(crate) fn unix_now() -> i64 {
    chrono::Utc::now().timestamp()
}

/// The day on which the second `timestamp` after 1 January 1970, 0:00 UTC,
/// falls in the time zone of this machine, as year, month and day with `-`
/// between them.
///
/// Calls `chrono::DateTime::from_timestamp`, which has a date for every
/// `i32`, then `with_timezone` with `chrono::Local` and `format` with
/// `"%Y-%m-%d"`. Nothing is claimed of the result: the time zone is the
/// machine's. `with_timezone` panics where the time zone data of the machine
/// has no rule for the time.
#[verifier::external_body]
pub(crate) fn local_date(timestamp: i32) -> String {
    match chrono::DateTime::from_timestamp(i64::from(timestamp), 0) {
        Some(utc) => utc.with_timezone(&chrono::Local).format("%Y-%m-%d").to_string(),
        None => String::new(),
    }
}

/// `time`, or the nearest time that is not negative and fits 32 bits.
pub open spec fn within_u32(time: int) -> int {
    if time < 0 {
        0
    } else if time > u32::MAX {
        u32::MAX as int
    } else {
        time
    }
}

/// The second at which a span of time starts that is asked for from the
/// day that starts at `start` on: 0 where no day is given.
pub open spec fn span_start(start: Option<i64>) -> int {
    match start {
        Some(s) => within_u32(s as int),
        None => 0,
    }
}

/// The second at which a span of time ends that is asked for up to the day
/// that starts at `end`: `now` where no day is given.
pub open spec fn span_end(end: Option<i64>, now: i64) -> int {
    match end {
        Some(e) => within_u32(e as int),
        None => within_u32(now as int),
    }
}

/// `time`, or the nearest time that is not negative and fits 32 bits.
fn clamp(time: i64) -> (near: u32)
    ensures
        near == within_u32(time as int),
{
    if time < 0 {
        0
    } else if time > u32::MAX as i64 {
        u32::MAX
    } else {
        time as u32
    }
}

/// The span of time that a list of finished tasks covers, given the seconds
/// at which the first day and the day after the last start, and the time
/// `now`: from the start of the first day, or from 0 where none is given,
/// up to the start of the day after the last, or up to `now` where none is
/// given.
pub fn finished_span_at(start: Option<i64>, end: Option<i64>, now: i64) -> (span: (u32, u32))
    ensures
        span.0 == span_start(start),
        span.1 == span_end(end, now),
{
    let from: u32 = match start {
        Some(s) => clamp(s),
        None => 0,
    };
    let to: u32 = match end {
        Some(e) => clamp(e),
        None => clamp(now),
    };
    (from, to)
}

/// The second at which the day `date` starts in UTC, where a day is given.
/// `Err` where one is given that is no day of the calendar, written as
/// year, month and day with `-` between them.
fn day_of(date: &Option<String>) -> (start: Result<Option<i64>, ()>)
    ensures
        match *date {
            Some(d) => match day_start(d@) {
                Some(s) => start == Ok::<Option<i64>, ()>(Some(s)),
                None => start is Err,
            },
            None => start == Ok::<Option<i64>, ()>(None),
        },
{
    match date {
        Some(d) => match parse_day(d.as_str()) {
            Some(s) => Ok(Some(s)),
            None => Err(()),
        },
        None => Ok(None),
    }
}

/// The span of time that a list of finished tasks covers, given the first
/// day and the day after the last, each written as year, month and day with
/// `-` between them: from the start of the first day in UTC, or from 0
/// where none is given, up to the start of the day after the last, or up to
/// now, by the system's clock, where none is given.
///
/// `None` where a day is given that is no day of the calendar.
pub fn finished_span(start_date: &Option<String>, end_date: &Option<String>) -> (span: Option<
    (u32, u32),
>)
    ensures
        span is Some <==> (start_date matches Some(d) ==> day_start(d@) is Some) && (
        end_date matches Some(d) ==> day_start(d@) is Some),
        span matches Some(s) ==> {
            &&& s.0 == match *start_date {
                Some(d) => span_start(day_start(d@)),
                None => 0,
            }
            &&& end_date matches Some(d) ==> s.1 == within_u32(day_start(d@).unwrap() as int)
        },
{
    let start = match day_of(start_date) {
        Ok(s) => s,
        Err(_) => {
            return None;
        },
    };
    let end = match day_of(end_date) {
        Ok(e) => e,
        Err(_) => {
            return None;
        },
    };
    let now: i64 = unix_now();
    Some(finished_span_at(start, end, now))
}

} // verus!
