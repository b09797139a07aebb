//! The calendar: dates, times of day, and their combination, with
//! parsing, a total order, and day arithmetic.

use vstd::prelude::*;
use vstd::string::*;
use crate::data::digits::{
    find_char_str, first_ix, uint_from_text, parse_uint_str,
};

verus! {

#[derive(Debug, Clone, Copy, PartialEq, Eq, Structural)]
pub struct Date {
    pub year: u16,
    pub month: u8,
    pub day: u8,
}

#[derive(Debug, Clone, Copy, PartialEq, Eq, Structural)]
pub struct Time {
    pub hour: u8,
    pub minute: u8,
}

/// A date with an optional time of day; a missing time sorts before any
/// present time on the same date.
#[derive(Debug, Clone, Copy, PartialEq, Eq)]
pub struct DateTime {
    pub date: Date,
    pub time: Option<Time>,
}

// ---------------------------------------------------------------------------
// Validity
// ---------------------------------------------------------------------------

pub open spec fn spec_year_is_leap(year: u16) -> bool {
    year % 400 == 0 || (year % 4 == 0 && year % 100 != 0)
}

pub fn year_is_leap(year: u16) -> (r: bool)
    ensures
        r == spec_year_is_leap(year),
{
    year % 400 == 0 || (year % 4 == 0 && year % 100 != 0)
}

pub open spec fn days_in_month(year: u16, month: u8) -> int {
    if month == 2 {
        if spec_year_is_leap(year) {
            29
        } else {
            28
        }
    } else if month == 4 || month == 6 || month == 9 || month == 11 {
        30
    } else {
        31
    }
}

fn days_in_month_exec(year: u16, month: u8) -> (r: u8)
    requires
        1 <= month <= 12,
    ensures
        r == days_in_month(year, month),
{
    if month == 2 {
        if year_is_leap(year) {
            29
        } else {
            28
        }
    } else if month == 4 || month == 6 || month == 9 || month == 11 {
        30
    } else {
        31
    }
}

/// A calendar-valid date.
pub open spec fn date_valid(d: Date) -> bool {
    &&& 1 <= d.month <= 12
    &&& 1 <= d.day <= days_in_month(d.year, d.month)
}

pub open spec fn time_valid(t: Time) -> bool {
    t.hour < 24 && t.minute < 60
}

pub open spec fn datetime_valid(dt: DateTime) -> bool {
    &&& date_valid(dt.date)
    &&& match dt.time {
        Some(t) => time_valid(t),
        None => true,
    }
}

// ---------------------------------------------------------------------------
// Ordering
// ---------------------------------------------------------------------------

pub open spec fn date_le(a: Date, b: Date) -> bool {
    ||| a.year < b.year
    ||| (a.year == b.year && a.month < b.month)
    ||| (a.year == b.year && a.month == b.month && a.day <= b.day)
}

pub open spec fn time_le(a: Time, b: Time) -> bool {
    ||| a.hour < b.hour
    ||| (a.hour == b.hour && a.minute <= b.minute)
}

/// Dates first; on the same date a missing time comes before any present
/// time.
pub open spec fn datetime_le(a: DateTime, b: DateTime) -> bool {
    ||| (date_le(a.date, b.date) && a.date != b.date)
    ||| (a.date == b.date && match (a.time, b.time) {
        (Option::None, _) => true,
        (Option::Some(_), Option::None) => false,
        (Option::Some(x), Option::Some(y)) => time_le(x, y),
    })
}

impl DateTime {
    /// Chronological comparison, the order balance queries filter by.
    pub fn le(&self, other: &DateTime) -> (r: bool)
        ensures
            r == datetime_le(*self, *other),
    {
        let a = &self.date;
        let b = &other.date;
        if a.year != b.year || a.month != b.month || a.day != b.day {
            if a.year != b.year {
                a.year < b.year
            } else if a.month != b.month {
                a.month < b.month
            } else {
                a.day < b.day
            }
        } else {
            match (&self.time, &other.time) {
                (Option::None, _) => true,
                (Option::Some(_), Option::None) => false,
                (Option::Some(x), Option::Some(y)) => {
                    x.hour < y.hour || (x.hour == y.hour && x.minute <= y.minute)
                },
            }
        }
    }
}

/// The chronological order is total: reflexive, antisymmetric,
/// transitive, and any two values are comparable.
pub proof fn lemma_datetime_total_order(a: DateTime, b: DateTime, c: DateTime)
    ensures
        datetime_le(a, a),
        datetime_le(a, b) && datetime_le(b, a) ==> a == b,
        datetime_le(a, b) && datetime_le(b, c) ==> datetime_le(a, c),
        datetime_le(a, b) || datetime_le(b, a),
{
}

impl PartialOrd for Date {
    fn partial_cmp(&self, other: &Date) -> (r: Option<core::cmp::Ordering>) {
        if self.year != other.year {
            if self.year < other.year {
                Some(core::cmp::Ordering::Less)
            } else {
                Some(core::cmp::Ordering::Greater)
            }
        } else if self.month != other.month {
            if self.month < other.month {
                Some(core::cmp::Ordering::Less)
            } else {
                Some(core::cmp::Ordering::Greater)
            }
        } else if self.day != other.day {
            if self.day < other.day {
                Some(core::cmp::Ordering::Less)
            } else {
                Some(core::cmp::Ordering::Greater)
            }
        } else {
            Some(core::cmp::Ordering::Equal)
        }
    }
}

impl vstd::std_specs::cmp::PartialOrdSpecImpl for Date {
    open spec fn obeys_partial_cmp_spec() -> bool {
        true
    }

    open spec fn partial_cmp_spec(&self, other: &Date) -> Option<core::cmp::Ordering> {
        if *self == *other {
            Some(core::cmp::Ordering::Equal)
        } else if date_le(*self, *other) {
            Some(core::cmp::Ordering::Less)
        } else {
            Some(core::cmp::Ordering::Greater)
        }
    }
}

impl PartialOrd for Time {
    fn partial_cmp(&self, other: &Time) -> (r: Option<core::cmp::Ordering>) {
        if self.hour != other.hour {
            if self.hour < other.hour {
                Some(core::cmp::Ordering::Less)
            } else {
                Some(core::cmp::Ordering::Greater)
            }
        } else if self.minute != other.minute {
            if self.minute < other.minute {
                Some(core::cmp::Ordering::Less)
            } else {
                Some(core::cmp::Ordering::Greater)
            }
        } else {
            Some(core::cmp::Ordering::Equal)
        }
    }
}

impl vstd::std_specs::cmp::PartialOrdSpecImpl for Time {
    open spec fn obeys_partial_cmp_spec() -> bool {
        true
    }

    open spec fn partial_cmp_spec(&self, other: &Time) -> Option<core::cmp::Ordering> {
        if *self == *other {
            Some(core::cmp::Ordering::Equal)
        } else if time_le(*self, *other) {
            Some(core::cmp::Ordering::Less)
        } else {
            Some(core::cmp::Ordering::Greater)
        }
    }
}

impl PartialOrd for DateTime {
    fn partial_cmp(&self, other: &DateTime) -> (r: Option<core::cmp::Ordering>) {
        if self.le(other) {
            if other.le(self) {
                Some(core::cmp::Ordering::Equal)
            } else {
                Some(core::cmp::Ordering::Less)
            }
        } else {
            Some(core::cmp::Ordering::Greater)
        }
    }
}

impl vstd::std_specs::cmp::PartialOrdSpecImpl for DateTime {
    open spec fn obeys_partial_cmp_spec() -> bool {
        true
    }

    open spec fn partial_cmp_spec(&self, other: &DateTime) -> Option<core::cmp::Ordering> {
        if *self == *other {
            Some(core::cmp::Ordering::Equal)
        } else if datetime_le(*self, *other) {
            Some(core::cmp::Ordering::Less)
        } else {
            Some(core::cmp::Ordering::Greater)
        }
    }
}

// ---------------------------------------------------------------------------
// Construction and access
// ---------------------------------------------------------------------------

impl DateTime {
    /// Builds a date-time from plain components.
    pub fn simple(date: (u16, u8, u8), time: Option<(u8, u8)>) -> (r: DateTime)
        requires
            date_valid(Date { year: date.0, month: date.1, day: date.2 }),
            match time {
                Some(t) => time_valid(Time { hour: t.0, minute: t.1 }),
                None => true,
            },
        ensures
            r.date == (Date { year: date.0, month: date.1, day: date.2 }),
            r.time == match time {
                Some(t) => Some(Time { hour: t.0, minute: t.1 }),
                None => None::<Time>,
            },
            datetime_valid(r),
    {
        DateTime {
            date: Date { year: date.0, month: date.1, day: date.2 },
            time: match time {
                Some(t) => Some(Time { hour: t.0, minute: t.1 }),
                None => None,
            },
        }
    }

    pub fn get_date(&self) -> (r: &Date)
        ensures
            *r == self.date,
    {
        &self.date
    }

    pub fn get_time(&self) -> (r: &Option<Time>)
        ensures
            *r == self.time,
    {
        &self.time
    }
}

// ---------------------------------------------------------------------------
// Day arithmetic
// ---------------------------------------------------------------------------

/// The day after, rolling over month and year ends.
pub open spec fn spec_next_day(d: Date) -> Date {
    if d.day < days_in_month(d.year, d.month) {
        Date { year: d.year, month: d.month, day: (d.day + 1) as u8 }
    } else if d.month < 12 {
        Date { year: d.year, month: (d.month + 1) as u8, day: 1 }
    } else {
        Date { year: (d.year + 1) as u16, month: 1, day: 1 }
    }
}

/// The day before, rolling back over month and year starts.
pub open spec fn spec_prev_day(d: Date) -> Date {
    if d.day > 1 {
        Date { year: d.year, month: d.month, day: (d.day - 1) as u8 }
    } else if d.month > 1 {
        Date {
            year: d.year,
            month: (d.month - 1) as u8,
            day: days_in_month(d.year, (d.month - 1) as u8) as u8,
        }
    } else {
        Date { year: (d.year - 1) as u16, month: 12, day: 31 }
    }
}

/// The last representable day, past which the calendar cannot advance.
pub open spec fn date_at_max(d: Date) -> bool {
    d.year == u16::MAX && d.month == 12 && d.day == 31
}

/// The first representable day, before which the calendar cannot go.
pub open spec fn date_at_min(d: Date) -> bool {
    d.year == 0 && d.month == 1 && d.day == 1
}

impl Date {
    pub fn next_day(self) -> (r: Date)
        requires
            date_valid(self),
            !date_at_max(self),
        ensures
            r == spec_next_day(self),
            date_valid(r),
    {
        let month_days = days_in_month_exec(self.year, self.month);
        if self.day < month_days {
            Date { year: self.year, month: self.month, day: self.day + 1 }
        } else if self.month < 12 {
            Date { year: self.year, month: self.month + 1, day: 1 }
        } else {
            Date { year: self.year + 1, month: 1, day: 1 }
        }
    }

    pub fn prev_day(self) -> (r: Date)
        requires
            date_valid(self),
            !date_at_min(self),
        ensures
            r == spec_prev_day(self),
            date_valid(r),
    {
        if self.day > 1 {
            Date { year: self.year, month: self.month, day: self.day - 1 }
        } else if self.month > 1 {
            Date {
                year: self.year,
                month: self.month - 1,
                day: days_in_month_exec(self.year, self.month - 1),
            }
        } else {
            Date { year: self.year - 1, month: 12, day: 31 }
        }
    }
}

/// Whether `days` single-day steps from `d` stay within the calendar.
pub open spec fn date_plus_ok(d: Date, days: int) -> bool
    decreases
            if days >= 0 {
                days
            } else {
                -days
            },
{
    if days == 0 {
        true
    } else if days > 0 {
        !date_at_max(d) && date_plus_ok(spec_next_day(d), days - 1)
    } else {
        !date_at_min(d) && date_plus_ok(spec_prev_day(d), days + 1)
    }
}

/// The date `days` single-day steps away.
pub open spec fn date_plus(d: Date, days: int) -> Date
    decreases
            if days >= 0 {
                days
            } else {
                -days
            },
{
    if days == 0 {
        d
    } else if days > 0 {
        date_plus(spec_next_day(d), days - 1)
    } else {
        date_plus(spec_prev_day(d), days + 1)
    }
}

impl Date {
    /// Steps the date by a signed number of days.
    pub fn add_days(self, days: i64) -> (r: Date)
        requires
            date_valid(self),
            days != i64::MIN,
            date_plus_ok(self, days as int),
        ensures
            r == date_plus(self, days as int),
            date_valid(r),
    {
        let mut cur = self;
        if days >= 0 {
            let mut i: i64 = 0;
            while i < days
                invariant
                    0 <= i <= days,
                    date_valid(cur),
                    date_plus_ok(cur, days - i),
                    date_plus(cur, days - i) == date_plus(self, days as int),
                decreases days - i,
            {
                cur = cur.next_day();
                i += 1;
            }
        } else {
            let mut i: i64 = 0;
            while i > days
                invariant
                    days <= i <= 0,
                    date_valid(cur),
                    date_plus_ok(cur, days - i),
                    date_plus(cur, days - i) == date_plus(self, days as int),
                decreases i - days,
            {
                cur = cur.prev_day();
                i -= 1;
            }
        }
        cur
    }
}

// ---------------------------------------------------------------------------
// Parsing
// ---------------------------------------------------------------------------

/// What parsing `YYYY-MM-DD` yields: three dash-separated unsigned
/// numbers, read as year, month and day; text after a third dash is
/// ignored; the result must be calendar-valid.
pub open spec fn date_from_text(s: Seq<char>) -> Result<Date, Seq<char>> {
    let y_txt = if s.contains('-') {
        s.take(first_ix(s, '-'))
    } else {
        s
    };
    match uint_from_text(y_txt, u16::MAX as int) {
        None => Err("Unparsable"@),
        Some(y) => {
            if !s.contains('-') {
                Err("What"@)
            } else {
                let rest = s.skip(first_ix(s, '-') + 1);
                let m_txt = if rest.contains('-') {
                    rest.take(first_ix(rest, '-'))
                } else {
                    rest
                };
                match uint_from_text(m_txt, u8::MAX as int) {
                    None => Err("Unparsable"@),
                    Some(m) => {
                        if !rest.contains('-') {
                            Err("What"@)
                        } else {
                            let rest2 = rest.skip(first_ix(rest, '-') + 1);
                            let d_txt = if rest2.contains('-') {
                                rest2.take(first_ix(rest2, '-'))
                            } else {
                                rest2
                            };
                            match uint_from_text(d_txt, u8::MAX as int) {
                                None => Err("Unparsable"@),
                                Some(d) => {
                                    let date = Date {
                                        year: y as u16,
                                        month: m as u8,
                                        day: d as u8,
                                    };
                                    if date_valid(date) {
                                        Ok(date)
                                    } else {
                                        Err("Unparsable"@)
                                    }
                                },
                            }
                        }
                    },
                }
            }
        },
    }
}

/// What parsing `HH:MM` yields: two colon-separated unsigned numbers,
/// read as hour and minute; text after a second colon is ignored; the
/// result must be a valid time of day.
pub open spec fn time_from_text(s: Seq<char>) -> Result<Time, Seq<char>> {
    let h_txt = if s.contains(':') {
        s.take(first_ix(s, ':'))
    } else {
        s
    };
    match uint_from_text(h_txt, u8::MAX as int) {
        None => Err("Unparsable"@),
        Some(h) => {
            if !s.contains(':') {
                Err("What"@)
            } else {
                let rest = s.skip(first_ix(s, ':') + 1);
                let m_txt = if rest.contains(':') {
                    rest.take(first_ix(rest, ':'))
                } else {
                    rest
                };
                match uint_from_text(m_txt, u8::MAX as int) {
                    None => Err("Unparsable"@),
                    Some(m) => {
                        let t = Time { hour: h as u8, minute: m as u8 };
                        if time_valid(t) {
                            Ok(t)
                        } else {
                            Err("Unparsable"@)
                        }
                    },
                }
            }
        },
    }
}

/// What parsing a date-time yields: with a `T` (preferred) or a blank as
/// the separator, a date before it and a time after it; with neither, a
/// bare date.
pub open spec fn datetime_from_text(s: Seq<char>) -> Result<DateTime, Seq<char>> {
    if s.contains('T') || s.contains(' ') {
        let sep: char = if s.contains('T') {
            'T'
        } else {
            ' '
        };
        let d_txt = s.take(first_ix(s, sep));
        let rest = s.skip(first_ix(s, sep) + 1);
        let t_txt = if rest.contains(sep) {
            rest.take(first_ix(rest, sep))
        } else {
            rest
        };
        match date_from_text(d_txt) {
            Err(m) => Err(m),
            Ok(d) => match time_from_text(t_txt) {
                Err(m) => Err(m),
                Ok(t) => Ok(DateTime { date: d, time: Some(t) }),
            },
        }
    } else {
        match date_from_text(s) {
            Err(m) => Err(m),
            Ok(d) => Ok(DateTime { date: d, time: None }),
        }
    }
}

impl Date {
    /// Reads a `YYYY-MM-DD` date; see [`date_from_text`].
    pub fn parse_str(s: &str) -> (r: Result<Date, &'static str>)
        ensures
            match date_from_text(s@) {
                Ok(d) => r matches Ok(x) && x == d && date_valid(d),
                Err(msg) => r matches Err(m) && m@ == msg,
            },
    {
        let n = s.unicode_len();
        let dash1 = find_char_str(s, '-');
        let y_str = match dash1 {
            Some(i) => s.substring_char(0, i),
            None => s,
        };
        proof {
            if s@.contains('-') {
                assert(y_str@ =~= s@.take(first_ix(s@, '-')));
            }
        }
        let y = match parse_uint_str(y_str, 65535) {
            Some(v) => v as u16,
            None => {
                return Err("Unparsable");
            },
        };
        let i = match dash1 {
            Some(i) => i,
            None => {
                return Err("What");
            },
        };
        let rest = s.substring_char(i + 1, n);
        proof {
            assert(rest@ =~= s@.skip(first_ix(s@, '-') + 1));
        }
        let rest_len = rest.unicode_len();
        let dash2 = find_char_str(rest, '-');
        let m_str = match dash2 {
            Some(j) => rest.substring_char(0, j),
            None => rest,
        };
        proof {
            if rest@.contains('-') {
                assert(m_str@ =~= rest@.take(first_ix(rest@, '-')));
            }
        }
        let m = match parse_uint_str(m_str, 255) {
            Some(v) => v as u8,
            None => {
                return Err("Unparsable");
            },
        };
        let j = match dash2 {
            Some(j) => j,
            None => {
                return Err("What");
            },
        };
        let rest2 = rest.substring_char(j + 1, rest_len);
        proof {
            assert(rest2@ =~= rest@.skip(first_ix(rest@, '-') + 1));
        }
        let d_str = match find_char_str(rest2, '-') {
            Some(k) => rest2.substring_char(0, k),
            None => rest2,
        };
        proof {
            if rest2@.contains('-') {
                assert(d_str@ =~= rest2@.take(first_ix(rest2@, '-')));
            }
        }
        let d = match parse_uint_str(d_str, 255) {
            Some(v) => v as u8,
            None => {
                return Err("Unparsable");
            },
        };
        let date = Date { year: y, month: m, day: d };
        if 1 <= date.month && date.month <= 12 && 1 <= date.day && date.day
            <= days_in_month_exec(date.year, date.month) {
            Ok(date)
        } else {
            Err("Unparsable")
        }
    }
}

impl Time {
    /// Reads an `HH:MM` time of day; see [`time_from_text`].
    pub fn parse_str(s: &str) -> (r: Result<Time, &'static str>)
        ensures
            match time_from_text(s@) {
                Ok(t) => r matches Ok(x) && x == t && time_valid(t),
                Err(msg) => r matches Err(m) && m@ == msg,
            },
    {
        let n = s.unicode_len();
        let colon1 = find_char_str(s, ':');
        let h_str = match colon1 {
            Some(i) => s.substring_char(0, i),
            None => s,
        };
        proof {
            if s@.contains(':') {
                assert(h_str@ =~= s@.take(first_ix(s@, ':')));
            }
        }
        let h = match parse_uint_str(h_str, 255) {
            Some(v) => v as u8,
            None => {
                return Err("Unparsable");
            },
        };
        let i = match colon1 {
            Some(i) => i,
            None => {
                return Err("What");
            },
        };
        let rest = s.substring_char(i + 1, n);
        proof {
            assert(rest@ =~= s@.skip(first_ix(s@, ':') + 1));
        }
        let m_str = match find_char_str(rest, ':') {
            Some(j) => rest.substring_char(0, j),
            None => rest,
        };
        proof {
            if rest@.contains(':') {
                assert(m_str@ =~= rest@.take(first_ix(rest@, ':')));
            }
        }
        let m = match parse_uint_str(m_str, 255) {
            Some(v) => v as u8,
            None => {
                return Err("Unparsable");
            },
        };
        let t = Time { hour: h, minute: m };
        if t.hour < 24 && t.minute < 60 {
            Ok(t)
        } else {
            Err("Unparsable")
        }
    }
}

impl DateTime {
    /// Reads a `YYYY-MM-DD`, `YYYY-MM-DD HH:MM` or `YYYY-MM-DDTHH:MM`
    /// date-time; see [`datetime_from_text`].
    pub fn parse_str(s: &str) -> (r: Result<DateTime, &'static str>)
        ensures
            match datetime_from_text(s@) {
                Ok(dt) => r matches Ok(x) && x == dt && datetime_valid(dt),
                Err(msg) => r matches Err(m) && m@ == msg,
            },
    {
        let n = s.unicode_len();
        let sep: char;
        let i: usize;
        match find_char_str(s, 'T') {
            Some(ti) => {
                sep = 'T';
                i = ti;
            },
            None => {
                match find_char_str(s, ' ') {
                    Some(si) => {
                        sep = ' ';
                        i = si;
                    },
                    None => {
                        return match Date::parse_str(s) {
                            Ok(d) => Ok(DateTime { date: d, time: None }),
                            Err(m) => Err(m),
                        };
                    },
                }
            },
        }
        let d_str = s.substring_char(0, i);
        let rest = s.substring_char(i + 1, n);
        proof {
            assert(d_str@ =~= s@.take(first_ix(s@, sep)));
            assert(rest@ =~= s@.skip(first_ix(s@, sep) + 1));
        }
        let t_str = match find_char_str(rest, sep) {
            Some(j) => rest.substring_char(0, j),
            None => rest,
        };
        proof {
            if rest@.contains(sep) {
                assert(t_str@ =~= rest@.take(first_ix(rest@, sep)));
            }
        }
        let d = match Date::parse_str(d_str) {
            Ok(d) => d,
            Err(m) => {
                return Err(m);
            },
        };
        match Time::parse_str(t_str) {
            Ok(t) => Ok(DateTime { date: d, time: Some(t) }),
            Err(m) => Err(m),
        }
    }
}

impl core::str::FromStr for Date {
    type Err = &'static str;

    fn from_str(s: &str) -> Result<Date, &'static str> {
        Date::parse_str(s)
    }
}

impl core::str::FromStr for Time {
    type Err = &'static str;

    fn from_str(s: &str) -> Result<Time, &'static str> {
        Time::parse_str(s)
    }
}

impl core::str::FromStr for DateTime {
    type Err = &'static str;

    fn from_str(s: &str) -> Result<DateTime, &'static str> {
        DateTime::parse_str(s)
    }
}

} // verus!
