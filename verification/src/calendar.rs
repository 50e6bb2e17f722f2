//! Calendar arithmetic: leap years, month lengths, weekdays, and dates.

use vstd::prelude::*;

verus! {

/// Years with a four-digit decimal form, as the file format stores them.
pub open spec fn valid_year(y: int) -> bool {
    1 <= y <= 9999
}

pub open spec fn valid_month(m: int) -> bool {
    1 <= m <= 12
}

pub open spec fn valid_ym(y: int, m: int) -> bool {
    valid_year(y) && valid_month(m)
}

pub open spec fn is_leap_year(y: int) -> bool {
    (y % 4 == 0 && y % 100 != 0) || y % 400 == 0
}

pub open spec fn days_in_month_spec(y: int, m: int) -> int {
    if m == 2 {
        if is_leap_year(y) {
            29
        } else {
            28
        }
    } else if m == 4 || m == 6 || m == 9 || m == 11 {
        30
    } else {
        31
    }
}

/// The number of calendar days in month `m` of year `y`.
pub fn days_in_month(y: u32, m: u32) -> (d: u32)
    requires
        valid_ym(y as int, m as int),
    ensures
        d == days_in_month_spec(y as int, m as int),
        28 <= d <= 31,
{
    if m == 2 {
        if (y % 4 == 0 && y % 100 != 0) || y % 400 == 0 {
            29
        } else {
            28
        }
    } else if m == 4 || m == 6 || m == 9 || m == 11 {
        30
    } else {
        31
    }
}

#[derive(Clone, Copy, PartialEq, Eq, Structural, Debug)]
pub enum Weekday {
    Monday,
    Tuesday,
    Wednesday,
    Thursday,
    Friday,
    Saturday,
    Sunday,
}

/// Month term of Sakamoto's day-of-week formula.
pub open spec fn month_offset(m: int) -> int {
    if m == 1 {
        0
    } else if m == 2 {
        3
    } else if m == 3 {
        2
    } else if m == 4 {
        5
    } else if m == 5 {
        0
    } else if m == 6 {
        3
    } else if m == 7 {
        5
    } else if m == 8 {
        1
    } else if m == 9 {
        4
    } else if m == 10 {
        6
    } else if m == 11 {
        2
    } else {
        4
    }
}

/// Sakamoto's formula: 0 is Sunday, 1 is Monday, ..., 6 is Saturday.
pub open spec fn weekday_number(y: int, m: int, d: int) -> int {
    let yy = if m < 3 {
        y - 1
    } else {
        y
    };
    (yy + yy / 4 - yy / 100 + yy / 400 + month_offset(m) + d) % 7
}

pub open spec fn weekday_from_number(n: int) -> Weekday {
    if n == 0 {
        Weekday::Sunday
    } else if n == 1 {
        Weekday::Monday
    } else if n == 2 {
        Weekday::Tuesday
    } else if n == 3 {
        Weekday::Wednesday
    } else if n == 4 {
        Weekday::Thursday
    } else if n == 5 {
        Weekday::Friday
    } else {
        Weekday::Saturday
    }
}

pub open spec fn weekday_spec(y: int, m: int, d: int) -> Weekday {
    weekday_from_number(weekday_number(y, m, d))
}

pub open spec fn is_weekend(w: Weekday) -> bool {
    w == Weekday::Saturday || w == Weekday::Sunday
}

fn month_offset_exec(m: u32) -> (t: u32)
    requires
        valid_month(m as int),
    ensures
        t == month_offset(m as int),
{
    if m == 1 {
        0
    } else if m == 2 {
        3
    } else if m == 3 {
        2
    } else if m == 4 {
        5
    } else if m == 5 {
        0
    } else if m == 6 {
        3
    } else if m == 7 {
        5
    } else if m == 8 {
        1
    } else if m == 9 {
        4
    } else if m == 10 {
        6
    } else if m == 11 {
        2
    } else {
        4
    }
}

/// The day of the week of `y`-`m`-`d` in the proleptic Gregorian calendar.
pub fn weekday_of(y: u32, m: u32, d: u32) -> (w: Weekday)
    requires
        valid_ym(y as int, m as int),
        1 <= d <= days_in_month_spec(y as int, m as int),
    ensures
        w == weekday_spec(y as int, m as int, d as int),
{
    let yy: u32 = if m < 3 {
        y - 1
    } else {
        y
    };
    let t: u32 = month_offset_exec(m);
    let n: u32 = (yy + yy / 4 + yy / 400 + t + d - yy / 100) % 7;
    assert(n == weekday_number(y as int, m as int, d as int));
    if n == 0 {
        Weekday::Sunday
    } else if n == 1 {
        Weekday::Monday
    } else if n == 2 {
        Weekday::Tuesday
    } else if n == 3 {
        Weekday::Wednesday
    } else if n == 4 {
        Weekday::Thursday
    } else if n == 5 {
        Weekday::Friday
    } else {
        Weekday::Saturday
    }
}

/// A calendar date held as plain year, month, and day numbers.
#[derive(Clone, Copy, PartialEq, Eq, Structural, Debug)]
pub struct Date {
    pub year: u32,
    pub month: u32,
    pub day: u32,
}

impl Date {
    pub open spec fn valid(self) -> bool {
        valid_ym(self.year as int, self.month as int) && 1 <= self.day <= days_in_month_spec(
            self.year as int,
            self.month as int,
        )
    }

    /// Builds a date after checking that it names a real calendar day.
    pub fn new(year: u32, month: u32, day: u32) -> (r: Option<Date>)
        ensures
            match r {
                Some(date) => date.valid() && date.year == year && date.month == month && date.day
                    == day,
                None => !(Date { year, month, day }).valid(),
            },
    {
        if 1 <= year && year <= 9999 && 1 <= month && month <= 12 {
            let days = days_in_month(year, month);
            if 1 <= day && day <= days {
                Some(Date { year, month, day })
            } else {
                None
            }
        } else {
            None
        }
    }
}

} // verus!
