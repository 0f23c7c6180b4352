use vstd::prelude::*;

pub mod clock;
pub mod codec;
pub mod date;
pub mod day;
pub mod history;
pub mod laws;

verus! {

use crate::date::Date;
use crate::day::Day;
use crate::history::{History, spec_streak};

/// Errors surfaced by the tracker's core operations.
///
/// `Storage` stands for a file that could not be located, created, read or
/// written; `Format` for persisted data that does not decode into the store's
/// schema; `DateParse` for an input date string that does not match the
/// `YYYY-MM-DD` format.
#[derive(Clone, Copy, Debug, PartialEq, Eq)]
pub enum HealthTrackerError {
    Storage,
    Format,
    DateParse,
}

/// The analysis at a given reference date: every record as a sorted row, and
/// the activity streak ending at that date.
pub fn analyze_at(h: &History, today: Date) -> (r: (Vec<(Date, Day)>, u32))
    requires
        h.wf(),
        today.wf(),
    ensures
        r.0@ == h@,
        r.1 as nat == spec_streak(h@, today),
{
    (h.get_days_table(), h.get_sport_streak(today))
}

/// The analysis at today's local date: the sorted rows and the current
/// activity streak. The streak's reference date comes from the system
/// clock, so the contract names it only as some well-formed date.
pub fn analyze(h: &History) -> (r: Result<(Vec<(Date, Day)>, u32), HealthTrackerError>)
    requires
        h.wf(),
    ensures
        match r {
            Ok(p) => p.0@ == h@ && (exists|d: Date|
                d.wf() && p.1 as nat == spec_streak(h@, d)),
            Err(e) => e == HealthTrackerError::DateParse,
        },
{
    let today = match crate::clock::today_date() {
        Ok(d) => d,
        Err(e) => {
            return Err(e);
        },
    };
    let (rows, streak) = analyze_at(h, today);
    proof {
        assert(today.wf() && streak as nat == spec_streak(h@, today));
    }
    Ok((rows, streak))
}

} // verus!
