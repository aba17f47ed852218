//! Calendar dates: which triples of year, month and day name a day, how a
//! date is written in a log, and how long a month is. The calendar itself
//! is chrono's; what this crate relies on is stated here.

use vstd::prelude::*;
use vstd::utf8::*;
use chrono::NaiveDate;
use crate::entry::{date_ymd, stands_before};
use crate::text::{
    is_digit, lemma_bytes_before_irreflexive, lemma_first_index_is, lemma_padded_decimal,
    lemma_padded_width, padded_decimal, pow10, DASH, PLUS,
};

verus! {

/// The first year of the calendar.
pub const MIN_YEAR: i32 = -262143;

/// The last year of the calendar.
pub const MAX_YEAR: i32 = 262142;

/// A day of the calendar, by year, month and day of the month.
#[derive(Clone, Copy, Debug)]
pub struct Date {
    pub year: i32,
    pub month: u32,
    pub day: u32,
}

/// Every fourth year, but of the hundreds only every fourth.
pub open spec fn is_leap_year(year: int) -> bool {
    year % 4 == 0 && (year % 100 != 0 || year % 400 == 0)
}

/// The number of days that a month has.
pub open spec fn days_in_month(year: int, month: int) -> int {
    if month == 2 {
        if is_leap_year(year) {
            29
        } else {
            28
        }
    } else if month == 4 || month == 6 || month == 9 || month == 11 {
        30
    } else {
        31
    }
}

/// Whether year, month and day name a day of the calendar.
pub open spec fn is_calendar_date(year: int, month: int, day: int) -> bool {
    &&& MIN_YEAR <= year <= MAX_YEAR
    &&& 1 <= month <= 12
    &&& 1 <= day <= days_in_month(year, month)
}

/// A year as a date writes it: four digits or more, and a sign in front of
/// a year before 0 or after 9999.
pub open spec fn year_text(year: int) -> Seq<u8> {
    if 0 <= year <= 9999 {
        padded_decimal(year as nat, 4)
    } else if year < 0 {
        seq![DASH] + padded_decimal((-year) as nat, 4)
    } else {
        seq![PLUS] + padded_decimal(year as nat, 4)
    }
}

/// A date as a log holds it: year, month and day with dashes between, the
/// month and the day with two digits each.
pub open spec fn date_text(year: int, month: int, day: int) -> Seq<u8> {
    year_text(year).push(DASH) + padded_decimal(month as nat, 2).push(DASH) + padded_decimal(
        day as nat,
        2,
    )
}

/// The days from the first date to the second, as chrono counts them.
pub uninterp spec fn days_from_to(
    from_year: int,
    from_month: int,
    from_day: int,
    to_year: int,
    to_month: int,
    to_day: int,
) -> int;

/// Makes the date with chrono's `NaiveDate::from_ymd_opt` and writes it
/// with `NaiveDate::format` and the pattern "%Y-%m-%d". Taken from chrono
/// unproved: there is a text exactly where the three numbers name a day of
/// the calendar, and it holds the year, the month and the day in that form.
#[verifier::external_body]
fn format_ymd(year: i32, month: u32, day: u32) -> (text: Option<String>)
    ensures
        text is Some <==> is_calendar_date(year as int, month as int, day as int),
        text matches Some(s) ==> encode_utf8(s@) == date_text(
            year as int,
            month as int,
            day as int,
        ),
{
    match NaiveDate::from_ymd_opt(year, month, day) {
        Some(date) => Some(date.format("%Y-%m-%d").to_string()),
        None => None,
    }
}

/// Counts the days between two dates with chrono's
/// `NaiveDate::signed_duration_since` and `TimeDelta::num_days`. Taken from
/// chrono unproved: the count depends on the two dates alone, and from the
/// first day of a month to the first day of the next it is the number of
/// days that the month has.
#[verifier::external_body]
fn days_between(
    from_year: i32,
    from_month: u32,
    from_day: u32,
    to_year: i32,
    to_month: u32,
    to_day: u32,
) -> (days: i64)
    requires
        is_calendar_date(from_year as int, from_month as int, from_day as int),
        is_calendar_date(to_year as int, to_month as int, to_day as int),
    ensures
        days == days_from_to(
            from_year as int,
            from_month as int,
            from_day as int,
            to_year as int,
            to_month as int,
            to_day as int,
        ),
        from_day == 1 && to_day == 1 && (to_year as int, to_month as int) == next_month(
            from_year as int,
            from_month as int,
        ) ==> days == days_in_month(from_year as int, from_month as int),
{
    let from = NaiveDate::from_ymd_opt(from_year, from_month, from_day).unwrap();
    let to = NaiveDate::from_ymd_opt(to_year, to_month, to_day).unwrap();
    to.signed_duration_since(from).num_days()
}

impl Date {
    /// Year, month and day as they are given, whether they name a day or not.
    pub fn new(year: i32, month: u32, day: u32) -> (date: Date)
        ensures
            date.year == year,
            date.month == month,
            date.day == day,
    {
        Date { year, month, day }
    }

    /// Whether this is a day of the calendar.
    pub open spec fn is_valid(&self) -> bool {
        is_calendar_date(self.year as int, self.month as int, self.day as int)
    }

    /// The date as a log holds it, such as "2024-06-01"; `None` where it
    /// names no day of the calendar.
    pub fn to_text(&self) -> (text: Option<String>)
        ensures
            text is Some <==> self.is_valid(),
            text matches Some(s) ==> encode_utf8(s@) == date_text(
                self.year as int,
                self.month as int,
                self.day as int,
            ),
    {
        format_ymd(self.year, self.month, self.day)
    }
}

/// Whether the first of two days comes after the second.
pub open spec fn is_later(a: Date, b: Date) -> bool {
    ||| a.year > b.year
    ||| a.year == b.year && a.month > b.month
    ||| a.year == b.year && a.month == b.month && a.day > b.day
}

/// The text of a day of the years 0 to 9999 reads back as its year, its
/// month and its day.
pub proof fn lemma_date_text_ymd(year: int, month: int, day: int)
    requires
        0 <= year <= 9999,
        0 <= month <= 99,
        0 <= day <= 99,
    ensures
        date_ymd(date_text(year, month, day)) == (year as nat, month as nat, day as nat),
{
    reveal_with_fuel(pow10, 5);
    let y = padded_decimal(year as nat, 4);
    let m = padded_decimal(month as nat, 2);
    let d = padded_decimal(day as nat, 2);
    let text = date_text(year, month, day);
    lemma_padded_decimal(year as nat, 4);
    lemma_padded_decimal(month as nat, 2);
    lemma_padded_decimal(day as nat, 2);
    lemma_padded_width(year as nat, 4);
    lemma_padded_width(month as nat, 2);
    lemma_padded_width(day as nat, 2);
    assert forall|i: int| 0 <= i < 4 implies #[trigger] text[i] != DASH by {
        assert(text[i] == y[i]);
    }
    assert forall|i: int| 5 <= i < 7 implies #[trigger] text[i] != DASH by {
        assert(text[i] == m[i - 5]);
    }
    assert forall|i: int| 8 <= i < 10 implies #[trigger] text[i] != DASH by {
        assert(text[i] == d[i - 8]);
    }
    lemma_first_index_is(text, DASH, 0, 4);
    lemma_first_index_is(text, DASH, 5, 7);
    lemma_first_index_is(text, DASH, 8, 10);
    assert(text.subrange(0, 4) =~= y);
    assert(text.subrange(5, 7) =~= m);
    assert(text.subrange(8, 10) =~= d);
    assert(is_digit(y[0]) && is_digit(m[0]) && is_digit(d[0]));
}

/// The order of a log agrees with the calendar: of two days of the years 0
/// to 9999 the date of the later stands before the date of the earlier,
/// and two days have one date text only where they are the same day.
pub proof fn lemma_later_day_stands_first(a: Date, b: Date)
    requires
        a.is_valid(),
        b.is_valid(),
        0 <= a.year <= 9999,
        0 <= b.year <= 9999,
    ensures
        stands_before(
            date_text(a.year as int, a.month as int, a.day as int),
            date_text(b.year as int, b.month as int, b.day as int),
        ) <==> is_later(a, b),
        date_text(a.year as int, a.month as int, a.day as int) == date_text(
            b.year as int,
            b.month as int,
            b.day as int,
        ) <==> a.year == b.year && a.month == b.month && a.day == b.day,
{
    let one = date_text(a.year as int, a.month as int, a.day as int);
    let other = date_text(b.year as int, b.month as int, b.day as int);
    lemma_date_text_ymd(a.year as int, a.month as int, a.day as int);
    lemma_date_text_ymd(b.year as int, b.month as int, b.day as int);
    lemma_bytes_before_irreflexive(one, 0);
}

/// The year and the month that follow a month.
pub open spec fn next_month(year: int, month: int) -> (int, int) {
    if month == 12 {
        (year + 1, 1)
    } else {
        (year, month + 1)
    }
}

/// The length of a month in days: from its first day to the first day of
/// the month that follows.
pub fn get_days_from_month(year: i32, month: u32) -> (days: i64)
    requires
        1 <= month <= 12,
        MIN_YEAR <= year <= MAX_YEAR,
        month == 12 ==> year < MAX_YEAR,
    ensures
        days == days_in_month(year as int, month as int),
        days == days_from_to(
            year as int,
            month as int,
            1,
            next_month(year as int, month as int).0,
            next_month(year as int, month as int).1,
            1,
        ),
{
    let next_year: i32 = if month == 12 {
        year + 1
    } else {
        year
    };
    let next: u32 = if month == 12 {
        1
    } else {
        month + 1
    };
    days_between(year, month, 1, next_year, next, 1)
}

/// The English name of a month.
pub open spec fn month_name(n: int) -> Seq<char> {
    if n == 1 {
        "January"@
    } else if n == 2 {
        "February"@
    } else if n == 3 {
        "March"@
    } else if n == 4 {
        "April"@
    } else if n == 5 {
        "May"@
    } else if n == 6 {
        "June"@
    } else if n == 7 {
        "July"@
    } else if n == 8 {
        "August"@
    } else if n == 9 {
        "September"@
    } else if n == 10 {
        "October"@
    } else if n == 11 {
        "November"@
    } else {
        "December"@
    }
}

/// The English name of a month, counted from 1.
pub fn month_to_string(n: u32) -> (name: &'static str)
    requires
        1 <= n <= 12,
    ensures
        name@ == month_name(n as int),
{
    match n {
        1 => "January",
        2 => "February",
        3 => "March",
        4 => "April",
        5 => "May",
        6 => "June",
        7 => "July",
        8 => "August",
        9 => "September",
        10 => "October",
        11 => "November",
        _ => "December",
    }
}

} // verus!
