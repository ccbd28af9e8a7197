use chrono::Month;
use chrono::NaiveDate;
use std::str::FromStr;
use crate::text::decimal;
use crate::text::push_decimal;
use vstd::prelude::*;
use vstd::string::StringExecFns;

verus! {

/// Largest year that the calendar arithmetic accepts.
pub const MAX_YEAR: u32 = 262142;

/// A calendar month of a year.
#[derive(Clone, Copy, Debug, PartialEq, Eq, Structural)]
pub struct Date {
    pub year: u32,
    pub month: u32,
}

impl Date {
    /// The month is a calendar month and the year is within the calendar's range.
    pub open spec fn wf(self) -> bool {
        1 <= self.month <= 12 && self.year <= MAX_YEAR
    }

    /// `self` is strictly earlier than `other`.
    pub open spec fn before(self, other: Date) -> bool {
        self.year < other.year || (self.year == other.year && self.month < other.month)
    }

    /// Builds a date; fails unless the month is in 1..=12 and the year is in range.
    pub fn new(year: u32, month: u32) -> (r: Option<Date>)
        ensures
            r is Some <==> (1 <= month <= 12 && year <= MAX_YEAR),
            r is Some ==> r->0 == (Date { year, month }),
    {
        if 1 <= month && month <= 12 && year <= MAX_YEAR {
            Some(Date { year, month })
        } else {
            None
        }
    }

    /// The `YYYY-MM` form of the date.
    pub fn to_text(&self) -> (r: String)
        ensures
            r@ == date_text(*self),
    {
        let mut s = String::new();
        if self.year < 10 {
            s.append("000");
        } else if self.year < 100 {
            s.append("00");
        } else if self.year < 1000 {
            s.append("0");
        }
        push_decimal(&mut s, self.year as usize);
        s.append("-");
        if self.month < 10 {
            s.append("0");
        }
        push_decimal(&mut s, self.month as usize);
        assert(s@ =~= date_text(*self));
        s
    }

    /// Whole 30-day periods from the first day of `other` to the first day of `self`;
    /// `None` when `other` is a later month than `self`.
    pub fn months_since(self, other: Date) -> (r: Option<u32>)
        requires
            self.wf(),
            other.wf(),
        ensures
            r is None <==> self.before(other),
            r is Some ==> day_number(self) - day_number(other) >= 0,
            r is Some ==> r->0 as int == months_between(self, other),
    {
        if self.year < other.year || (self.year == other.year && self.month < other.month) {
            return None;
        }
        let gap = days_between(self.year, self.month, other.year, other.month);
        proof {
            lemma_day_number_monotone(other, self);
            lemma_day_number_bounds(self);
            lemma_day_number_bounds(other);
        }
        let g: u64 = gap as u64;
        Some((g / 30) as u32)
    }
}

/// A year written with at least four digits, zero-padded.
pub open spec fn year_text(y: nat) -> Seq<char> {
    if y < 10 {
        "000"@ + decimal(y)
    } else if y < 100 {
        "00"@ + decimal(y)
    } else if y < 1000 {
        "0"@ + decimal(y)
    } else {
        decimal(y)
    }
}

/// A month written with at least two digits, zero-padded.
pub open spec fn month_text(m: nat) -> Seq<char> {
    if m < 10 {
        "0"@ + decimal(m)
    } else {
        decimal(m)
    }
}

/// The `YYYY-MM` form of a date.
pub open spec fn date_text(d: Date) -> Seq<char> {
    year_text(d.year as nat) + "-"@ + month_text(d.month as nat)
}

/// Leap years of the Gregorian calendar.
pub open spec fn is_leap(y: int) -> bool {
    (y % 4 == 0 && y % 100 != 0) || y % 400 == 0
}

/// Days in the years before year `y` of the proleptic Gregorian calendar, counted from year 1.
pub open spec fn days_before_year(y: int) -> int {
    let p = y - 1;
    365 * p + p / 4 - p / 100 + p / 400
}

/// Days in the months of year `y` before month `m`.
pub open spec fn days_before_month(y: int, m: int) -> int {
    let base: int = if m == 1 {
        0
    } else if m == 2 {
        31
    } else if m == 3 {
        59
    } else if m == 4 {
        90
    } else if m == 5 {
        120
    } else if m == 6 {
        151
    } else if m == 7 {
        181
    } else if m == 8 {
        212
    } else if m == 9 {
        243
    } else if m == 10 {
        273
    } else if m == 11 {
        304
    } else {
        334
    };
    base + if m > 2 && is_leap(y) {
        1int
    } else {
        0int
    }
}

/// Day index of the first day of the month `d`.
pub open spec fn day_number(d: Date) -> int {
    days_before_year(d.year as int) + days_before_month(d.year as int, d.month as int)
}

/// Days from the first of `b` to the first of `a`, divided by 30 and truncated toward zero.
pub open spec fn months_between(a: Date, b: Date) -> int {
    let gap = day_number(a) - day_number(b);
    if gap >= 0 {
        gap / 30
    } else {
        -((-gap) / 30)
    }
}

/// A year holds 365 days, or 366 in a leap year.
proof fn lemma_year_step(y: int)
    ensures
        days_before_year(y + 1) - days_before_year(y) == if is_leap(y) {
            366int
        } else {
            365int
        },
{
}

/// Each year between `a` and `b` adds 365 days at least.
proof fn lemma_years_monotone(a: int, b: int)
    requires
        a <= b,
    ensures
        days_before_year(a) + 365 * (b - a) <= days_before_year(b),
    decreases b - a,
{
    if a < b {
        lemma_years_monotone(a, b - 1);
        lemma_year_step(b - 1);
    }
}

/// A month that is not earlier than another starts on a day that is not earlier.
pub proof fn lemma_day_number_monotone(a: Date, b: Date)
    requires
        a.wf(),
        b.wf(),
        !b.before(a),
    ensures
        day_number(a) <= day_number(b),
{
    if a.year < b.year {
        lemma_years_monotone(a.year as int + 1, b.year as int);
        lemma_year_step(a.year as int);
    }
}

/// Day numbers of valid dates stay within the range that `u32` months can count.
proof fn lemma_day_number_bounds(d: Date)
    requires
        d.wf(),
    ensures
        -366 <= day_number(d) <= 366 * (MAX_YEAR as int + 1),
{
    lemma_years_monotone(0, d.year as int);
    let p = d.year as int - 1;
    assert(p / 4 <= p + 1 && p / 100 >= -1 && p / 400 <= p + 1);
}

/// Relies on chrono's `NaiveDate::from_ymd_opt`, `signed_duration_since` and `num_days`:
/// the number of days from the first day of one month to the first day of another
/// in the proleptic Gregorian calendar.
#[verifier::external_body]
fn days_between(a_year: u32, a_month: u32, b_year: u32, b_month: u32) -> (r: i64)
    requires
        1 <= a_month <= 12,
        1 <= b_month <= 12,
        a_year <= MAX_YEAR,
        b_year <= MAX_YEAR,
    ensures
        r as int == day_number(Date { year: a_year, month: a_month }) - day_number(
            Date { year: b_year, month: b_month },
        ),
{
    let a = NaiveDate::from_ymd_opt(a_year as i32, a_month, 1).unwrap();
    let b = NaiveDate::from_ymd_opt(b_year as i32, b_month, 1).unwrap();
    a.signed_duration_since(b).num_days()
}

} // verus!
