use vstd::prelude::*;

verus! {

/// Measurements are carried as hundredths of their unit (a fixed-point
/// value): a weight of 70.5 kilograms is 7050, a biking distance of 10
/// kilometers is 1000. This is the largest magnitude the store's text format
/// carries (fifteen decimal digits).
pub const CENTI_LIMIT: i64 = 1_000_000_000_000_000;

/// A day counts as active when it saw biking of at least this distance
/// (10 kilometers), if neither workout nor training is set.
pub const BIKING_DISTANCE: i64 = 1000;

pub open spec fn centi_ok(v: int) -> bool {
    -CENTI_LIMIT < v < CENTI_LIMIT
}

pub open spec fn opt_centi_ok(v: Option<i64>) -> bool {
    match v {
        Some(x) => centi_ok(x as int),
        None => true,
    }
}

/// One calendar date's observations. `weight` and `biking` are absent when
/// nothing was measured or logged; the booleans default to false.
#[derive(Clone, Copy, Debug, PartialEq, Eq)]
pub struct Day {
    /// Body weight, in hundredths of a kilogram; absent means not measured.
    pub weight: Option<i64>,
    /// Did a short workout happen this day?
    pub workout: bool,
    /// Did a full training session happen this day?
    pub training: bool,
    /// Biking distance, in hundredths of a kilometer; absent means none logged.
    pub biking: Option<i64>,
    /// Was the day marked as a dietary exception?
    pub cheatday: bool,
}

impl Day {
    pub open spec fn wf(self) -> bool {
        opt_centi_ok(self.weight) && opt_centi_ok(self.biking)
    }

    /// An active day: workout, training, or biking at or above the threshold.
    pub open spec fn spec_active(self) -> bool {
        self.workout || self.training || match self.biking {
            Some(b) => b >= BIKING_DISTANCE,
            None => false,
        }
    }

    pub fn new(weight: Option<i64>, workout: bool, training: bool, biking: Option<i64>, cheatday: bool) -> (r: Day)
        ensures
            r == (Day { weight, workout, training, biking, cheatday }),
    {
        Day { weight, workout, training, biking, cheatday }
    }

    pub fn is_active(&self) -> (r: bool)
        ensures
            r == self.spec_active(),
    {
        self.workout || self.training || match self.biking {
            Some(b) => b >= BIKING_DISTANCE,
            None => false,
        }
    }
}

/// The record a weight log leaves for a date: only the weight field of an
/// existing record is replaced; a fresh record has every other field unset.
pub open spec fn merged_weight(prev: Option<Day>, weight: i64) -> Day {
    match prev {
        Some(day) => Day {
            weight: Some(weight),
            workout: day.workout,
            training: day.training,
            biking: day.biking,
            cheatday: day.cheatday,
        },
        None => Day {
            weight: Some(weight),
            workout: false,
            training: false,
            biking: None,
            cheatday: false,
        },
    }
}

/// The record an activity log leaves for a date: booleans merge by logical
/// or (once set, never cleared), a supplied biking value overwrites the
/// stored one while an absent one retains it, and the weight is untouched.
/// A log that supplies no values at all still creates the date's record,
/// with every field unset.
pub open spec fn merged_sport(
    prev: Option<Day>,
    workout: bool,
    training: bool,
    biking: Option<i64>,
    cheatday: bool,
) -> Day {
    match prev {
        Some(day) => Day {
            weight: day.weight,
            workout: day.workout || workout,
            training: day.training || training,
            biking: match biking {
                Some(b) => Some(b),
                None => day.biking,
            },
            cheatday: day.cheatday || cheatday,
        },
        None => Day { weight: None, workout, training, biking, cheatday },
    }
}

} // verus!
