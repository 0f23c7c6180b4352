use vstd::prelude::*;
use crate::HealthTrackerError;

verus! {

/// Largest year the fixed `YYYY-MM-DD` format can carry.
pub const MAX_YEAR: u32 = 9999;

/// A calendar date of the proleptic Gregorian calendar, with no time-of-day
/// component. Well-formed values (see [`Date::wf`]) range from 0000-01-01 to
/// 9999-12-31.
#[derive(Clone, Copy, Debug, PartialEq, Eq, Structural)]
pub struct Date {
    pub year: u32,
    pub month: u32,
    pub day: u32,
}

pub open spec fn is_leap_year(y: int) -> bool {
    y % 4 == 0 && (y % 100 != 0 || y % 400 == 0)
}

pub open spec fn spec_days_in_month(y: int, m: int) -> int {
    if m == 2 {
        if is_leap_year(y) {
            29
        } else {
            28
        }
    } else if m == 4 || m == 6 || m == 9 || m == 11 {
        30
    } else {
        31
    }
}

pub fn days_in_month(year: u32, month: u32) -> (n: u32)
    ensures
        n == spec_days_in_month(year as int, month as int),
{
    if month == 2 {
        if year % 4 == 0 && (year % 100 != 0 || year % 400 == 0) {
            29
        } else {
            28
        }
    } else if month == 4 || month == 6 || month == 9 || month == 11 {
        30
    } else {
        31
    }
}

impl Date {
    pub open spec fn wf(self) -> bool {
        self.year <= MAX_YEAR && 1 <= self.month <= 12 && 1 <= self.day
            && self.day <= spec_days_in_month(self.year as int, self.month as int)
    }

    /// An order-preserving integer key: two well-formed dates compare exactly
    /// as their keys do, and equal keys mean equal dates.
    pub open spec fn key(self) -> int {
        self.year as int * 416 + self.month as int * 32 + self.day as int
    }

    /// The earliest well-formed date, which has no predecessor.
    pub open spec fn is_min(self) -> bool {
        self.year == 0 && self.month == 1 && self.day == 1
    }

    /// Builds a date from its components; `None` exactly when they do not
    /// form a well-formed calendar date.
    pub fn new(year: u32, month: u32, day: u32) -> (r: Option<Date>)
        ensures
            ({
                let d = Date { year, month, day };
                if d.wf() {
                    r == Some(d)
                } else {
                    r is None
                }
            }),
    {
        let d = Date { year, month, day };
        if year <= MAX_YEAR && 1 <= month && month <= 12 && 1 <= day && day <= days_in_month(
            year,
            month,
        ) {
            Some(d)
        } else {
            None
        }
    }

    pub fn key_val(&self) -> (k: u64)
        requires
            self.wf(),
        ensures
            k as int == self.key(),
    {
        (self.year as u64) * 416 + (self.month as u64) * 32 + (self.day as u64)
    }

    /// The previous calendar day.
    pub open spec fn pred_spec(self) -> Date {
        if self.day > 1 {
            Date { year: self.year, month: self.month, day: (self.day - 1) as u32 }
        } else if self.month > 1 {
            Date {
                year: self.year,
                month: (self.month - 1) as u32,
                day: spec_days_in_month(self.year as int, self.month as int - 1) as u32,
            }
        } else {
            Date { year: (self.year - 1) as u32, month: 12, day: 31 }
        }
    }

    pub fn pred(&self) -> (r: Date)
        requires
            self.wf(),
            !self.is_min(),
        ensures
            r == self.pred_spec(),
            r.wf(),
            r.key() < self.key(),
    {
        proof {
            lemma_pred_wf(*self);
        }
        if self.day > 1 {
            Date { year: self.year, month: self.month, day: self.day - 1 }
        } else if self.month > 1 {
            Date {
                year: self.year,
                month: self.month - 1,
                day: days_in_month(self.year, self.month - 1),
            }
        } else {
            Date { year: self.year - 1, month: 12, day: 31 }
        }
    }
}

/// The previous calendar day of a well-formed, non-minimal date is itself
/// well-formed and has a strictly smaller key.
pub proof fn lemma_pred_wf(d: Date)
    requires
        d.wf(),
        !d.is_min(),
    ensures
        d.pred_spec().wf(),
        d.pred_spec().key() < d.key(),
{
}

/// Keys identify well-formed dates: equal keys mean equal dates.
pub proof fn lemma_key_injective(a: Date, b: Date)
    requires
        a.wf(),
        b.wf(),
        a.key() == b.key(),
    ensures
        a == b,
{
}

/// Byte values of the format's characters.
pub const D0: u8 = 48;

pub const D1: u8 = 49;

pub const D9: u8 = 57;

pub const DASH: u8 = 45;

pub const COMMA: u8 = 44;

pub const NEWLINE: u8 = 10;

pub open spec fn is_digit(b: u8) -> bool {
    D0 <= b <= D9
}

pub open spec fn dval(b: u8) -> int {
    b as int - 48
}

pub open spec fn digit_byte(v: int) -> u8 {
    (48 + v) as u8
}

/// The shape of a date token: exactly `YYYY-MM-DD`.
pub open spec fn date_bytes_ok(s: Seq<u8>) -> bool {
    s.len() == 10 && is_digit(s[0]) && is_digit(s[1]) && is_digit(s[2]) && is_digit(s[3]) && s[4]
        == DASH && is_digit(s[5]) && is_digit(s[6]) && s[7] == DASH && is_digit(s[8]) && is_digit(
        s[9],
    )
}

pub open spec fn date_of_bytes(s: Seq<u8>) -> Date {
    Date {
        year: (dval(s[0]) * 1000 + dval(s[1]) * 100 + dval(s[2]) * 10 + dval(s[3])) as u32,
        month: (dval(s[5]) * 10 + dval(s[6])) as u32,
        day: (dval(s[8]) * 10 + dval(s[9])) as u32,
    }
}

/// What a date string means: `Some` exactly on the well-shaped tokens that
/// name a well-formed calendar date.
pub open spec fn spec_parse_date(s: Seq<u8>) -> Option<Date> {
    if date_bytes_ok(s) && date_of_bytes(s).wf() {
        Some(date_of_bytes(s))
    } else {
        None
    }
}

/// Parses a `YYYY-MM-DD` token. Succeeds if and only if the input has that
/// exact shape and names a well-formed date; every failure is `DateParse`.
pub fn parse_date(s: &[u8]) -> (r: Result<Date, HealthTrackerError>)
    ensures
        match r {
            Ok(d) => spec_parse_date(s@) == Some(d),
            Err(e) => spec_parse_date(s@) is None && e == HealthTrackerError::DateParse,
        },
{
    if s.len() != 10 {
        return Err(HealthTrackerError::DateParse);
    }
    let ok = digit(s[0]) && digit(s[1]) && digit(s[2]) && digit(s[3]) && s[4] == DASH && digit(
        s[5],
    ) && digit(s[6]) && s[7] == DASH && digit(s[8]) && digit(s[9]);
    if !ok {
        return Err(HealthTrackerError::DateParse);
    }
    let year: u32 = (s[0] - D0) as u32 * 1000 + (s[1] - D0) as u32 * 100 + (s[2] - D0) as u32
        * 10 + (s[3] - D0) as u32;
    let month: u32 = (s[5] - D0) as u32 * 10 + (s[6] - D0) as u32;
    let day: u32 = (s[8] - D0) as u32 * 10 + (s[9] - D0) as u32;
    match Date::new(year, month, day) {
        Some(d) => Ok(d),
        None => Err(HealthTrackerError::DateParse),
    }
}

fn digit(b: u8) -> (r: bool)
    ensures
        r == is_digit(b),
{
    D0 <= b && b <= D9
}

/// The canonical, zero-padded text of a well-formed date.
pub open spec fn spec_format_date(d: Date) -> Seq<u8> {
    seq![
        digit_byte(d.year as int / 1000),
        digit_byte((d.year as int / 100) % 10),
        digit_byte((d.year as int / 10) % 10),
        digit_byte(d.year as int % 10),
        DASH,
        digit_byte(d.month as int / 10),
        digit_byte(d.month as int % 10),
        DASH,
        digit_byte(d.day as int / 10),
        digit_byte(d.day as int % 10),
    ]
}

pub fn format_date(d: &Date) -> (v: Vec<u8>)
    requires
        d.wf(),
    ensures
        v@ == spec_format_date(*d),
{
    let mut v: Vec<u8> = Vec::new();
    v.push(D0 + (d.year / 1000) as u8);
    v.push(D0 + ((d.year / 100) % 10) as u8);
    v.push(D0 + ((d.year / 10) % 10) as u8);
    v.push(D0 + (d.year % 10) as u8);
    v.push(DASH);
    v.push(D0 + (d.month / 10) as u8);
    v.push(D0 + (d.month % 10) as u8);
    v.push(DASH);
    v.push(D0 + (d.day / 10) as u8);
    v.push(D0 + (d.day % 10) as u8);
    proof {
        assert(v@ =~= spec_format_date(*d));
    }
    v
}

/// Formatting a well-formed date and parsing the text back returns the date.
pub proof fn lemma_format_parse_date(d: Date)
    requires
        d.wf(),
    ensures
        spec_parse_date(spec_format_date(d)) == Some(d),
        date_bytes_ok(spec_format_date(d)),
{
    let s = spec_format_date(d);
    let y = d.year as int;
    let m = d.month as int;
    let dd = d.day as int;
    assert(date_bytes_ok(s));
    assert(y == (y / 1000) * 1000 + ((y / 100) % 10) * 100 + ((y / 10) % 10) * 10 + y % 10) by {
        assert(y / 100 == (y / 1000) * 10 + (y / 100) % 10);
        assert(y / 10 == (y / 100) * 10 + (y / 10) % 10);
        assert(y == (y / 10) * 10 + y % 10);
    }
    assert(m == (m / 10) * 10 + m % 10);
    assert(dd == (dd / 10) * 10 + dd % 10);
    assert(date_of_bytes(s) == d);
}

/// A well-formed date's text never holds a field or record separator.
pub proof fn lemma_date_bytes_clean(s: Seq<u8>)
    requires
        date_bytes_ok(s),
    ensures
        !s.contains(COMMA),
        !s.contains(NEWLINE),
{
    assert forall|i: int| 0 <= i < s.len() implies s[i] != COMMA && s[i] != NEWLINE by {}
}

} // verus!
