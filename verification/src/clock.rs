use vstd::prelude::*;
use crate::HealthTrackerError;
use crate::date::{Date, parse_date, spec_parse_date};
use chrono::Datelike;

verus! {

/// Relies on chrono: `DateTime::from_timestamp` builds the UTC time of a
/// Unix timestamp, `with_timezone(&Local)` moves it to the local time zone,
/// and `Datelike::year`, `Datelike::month` and `Datelike::day` return the
/// date's components, the month ranging over 1..=12 and the day over 1..=31.
/// The result is `None` when the system clock stands before the Unix epoch
/// or past chrono's largest representable time, so those clocks surface as
/// an error instead of aborting. The local-offset lookup inside chrono can
/// still abort on pathological time-zone data; no caller of `chrono::Local`
/// can avoid that.
#[verifier::external_body]
fn today_ymd() -> (r: Option<(i64, u32, u32)>)
    ensures
        r matches Some(t) ==> 1 <= t.1 <= 12 && 1 <= t.2 <= 31,
{
    let since_epoch = std::time::SystemTime::now()
        .duration_since(std::time::UNIX_EPOCH)
        .ok()?;
    let secs = i64::try_from(since_epoch.as_secs()).ok()?;
    let utc = chrono::DateTime::from_timestamp(secs, since_epoch.subsec_nanos())?;
    let d = utc.with_timezone(&chrono::Local).date_naive();
    Some((d.year() as i64, d.month(), d.day()))
}

/// Turns a clock reading into the target date: succeeds exactly when the
/// year fits the store's four-digit `YYYY-MM-DD` format and the components
/// form a well-formed calendar date; every failure is `DateParse`.
pub fn date_from_clock(y: i64, m: u32, d: u32) -> (r: Result<Date, HealthTrackerError>)
    ensures
        match r {
            Ok(date) => 0 <= y <= 9999 && date == (Date { year: y as u32, month: m, day: d })
                && date.wf(),
            Err(e) => e == HealthTrackerError::DateParse && (y < 0 || y > 9999 || !(Date {
                year: y as u32,
                month: m,
                day: d,
            }).wf()),
        },
{
    if y < 0 || y > 9999 {
        return Err(HealthTrackerError::DateParse);
    }
    match Date::new(y as u32, m, d) {
        Some(date) => Ok(date),
        None => Err(HealthTrackerError::DateParse),
    }
}

/// Today's date in the local time zone; `DateParse` in the edge cases of a
/// clock that chrono cannot represent or whose reading names no date of the
/// store's four-digit `YYYY-MM-DD` format.
pub fn today_date() -> (r: Result<Date, HealthTrackerError>)
    ensures
        r matches Ok(d) ==> d.wf(),
        r matches Err(e) ==> e == HealthTrackerError::DateParse,
{
    match today_ymd() {
        Some((y, m, d)) => date_from_clock(y, m, d),
        None => Err(HealthTrackerError::DateParse),
    }
}

/// The target date of a command: the given `YYYY-MM-DD` string, or today in
/// local time when none is given.
pub fn get_date(date_str: Option<&[u8]>) -> (r: Result<Date, HealthTrackerError>)
    ensures
        match date_str {
            Some(s) => match r {
                Ok(d) => spec_parse_date(s@) == Some(d),
                Err(e) => spec_parse_date(s@) is None && e == HealthTrackerError::DateParse,
            },
            None => match r {
                Ok(d) => d.wf(),
                Err(e) => e == HealthTrackerError::DateParse,
            },
        },
{
    match date_str {
        Some(s) => parse_date(s),
        None => today_date(),
    }
}

} // verus!
