//! The proleptic Gregorian calendar: which dates exist, how many days lie
//! between them, and month arithmetic that keeps the day of the month.

use vstd::prelude::*;

verus! {

/// The earliest year a date may have.
pub const MIN_YEAR: i32 = -9999;

/// The latest year a date may have.
pub const MAX_YEAR: i32 = 9999;

/// Seconds in one day.
pub const SECONDS_PER_DAY: i64 = 86_400;

/// Whether `year` (astronomical numbering, so year 0 exists) has a 29 February.
pub open spec fn is_leap_year(year: int) -> bool {
    year % 4 == 0 && (year % 100 != 0 || year % 400 == 0)
}

/// The length of `month` (1 to 12) in `year`.
pub open spec fn days_in_month(year: int, month: int) -> int {
    if month == 2 {
        if is_leap_year(year) {
            29
        } else {
            28
        }
    } else if month == 4 || month == 6 || month == 9 || month == 11 {
        30
    } else {
        31
    }
}

/// The length of `year` in days.
pub open spec fn days_in_year(year: int) -> int {
    if is_leap_year(year) {
        366
    } else {
        365
    }
}

/// Whether the triple names a day of the calendar within the supported years.
pub open spec fn is_calendar_date(year: int, month: int, day: int) -> bool {
    &&& MIN_YEAR <= year <= MAX_YEAR
    &&& 1 <= month <= 12
    &&& 1 <= day <= days_in_month(year, month)
}

/// Days from 1 January of year 1 to 1 January of `year` (negative before year 1).
pub open spec fn days_before_year(year: int) -> int {
    let y = year - 1;
    365 * y + y / 4 - y / 100 + y / 400
}

/// Days from 1 January of `year` to the first of `month` in that year.
pub open spec fn days_before_month(year: int, month: int) -> int
    decreases month,
{
    if month <= 1 {
        0
    } else {
        days_before_month(year, month - 1) + days_in_month(year, month - 1)
    }
}

/// Days from 1 January of year 1 to the given date.
pub open spec fn day_number(year: int, month: int, day: int) -> int {
    days_before_year(year) + days_before_month(year, month) + day - 1
}

/// Days from 1 January 1970 to the given date.
pub open spec fn days_from_epoch(year: int, month: int, day: int) -> int {
    day_number(year, month, day) - day_number(1970, 1, 1)
}

/// The Unix timestamp of the given date at midnight UTC.
pub open spec fn unix_midnight(year: int, month: int, day: int) -> int {
    SECONDS_PER_DAY * days_from_epoch(year, month, day)
}

/// A day of the calendar.
#[derive(Clone, Copy, Debug, PartialEq, Eq, Structural)]
pub struct CalendarDate {
    pub year: i32,
    pub month: u8,
    pub day: u8,
}

/// Whether `time` has a month with this number. `time::Month::try_from` takes
/// a `u8` and succeeds for 1 to 12 only.
#[verifier::external_body]
pub(crate) fn month_exists(month: u8) -> (ok: bool)
    ensures
        ok == (1 <= month <= 12),
{
    time::Month::try_from(month).is_ok()
}

/// Whether `time` can build the date. `time::Date::from_calendar_date` succeeds
/// when the year lies within `MIN_YEAR..=MAX_YEAR` and the day within the
/// month's length; the month number is turned into a `time::Month` first.
#[verifier::external_body]
fn date_exists(year: i32, month: u8, day: u8) -> (ok: bool)
    ensures
        ok == is_calendar_date(year as int, month as int, day as int),
{
    match time::Month::try_from(month) {
        Ok(m) => time::Date::from_calendar_date(year, m, day).is_ok(),
        Err(_) => false,
    }
}

/// The Unix timestamp that `time` gives the date at 00:00:00 UTC: the date
/// goes through `Date::with_hms(0, 0, 0)`, `assume_utc` and
/// `OffsetDateTime::unix_timestamp`, which counts 86 400 seconds for each day
/// since 1 January 1970.
#[verifier::external_body]
fn midnight_timestamp(year: i32, month: u8, day: u8) -> (ts: i64)
    requires
        is_calendar_date(year as int, month as int, day as int),
    ensures
        ts == unix_midnight(year as int, month as int, day as int),
{
    let month = time::Month::try_from(month).unwrap();
    let date = time::Date::from_calendar_date(year, month, day).unwrap();
    date.with_hms(0, 0, 0).unwrap().assume_utc().unix_timestamp()
}

/// Tells whether `year` has a 29 February.
pub fn leap_year(year: i32) -> (leap: bool)
    ensures
        leap == is_leap_year(year as int),
{
    // Lifted by a multiple of 400 the year is positive, where the machine's
    // remainder is the mathematical one.
    let lifted: i64 = year as i64 + 4_000_000_000;
    lifted % 4 == 0 && (lifted % 100 != 0 || lifted % 400 == 0)
}

/// Gives the length of `month` in `year`.
pub fn month_length(year: i32, month: u8) -> (days: u8)
    requires
        1 <= month <= 12,
    ensures
        days == days_in_month(year as int, month as int),
{
    if month == 2 {
        if leap_year(year) {
            29
        } else {
            28
        }
    } else if month == 4 || month == 6 || month == 9 || month == 11 {
        30
    } else {
        31
    }
}

impl CalendarDate {
    /// The date names a day that exists.
    pub open spec fn wf(self) -> bool {
        is_calendar_date(self.year as int, self.month as int, self.day as int)
    }

    /// The date with these components, if there is such a day.
    pub fn new(year: i32, month: u8, day: u8) -> (r: Option<CalendarDate>)
        ensures
            r == if is_calendar_date(year as int, month as int, day as int) {
                Some((CalendarDate { year, month, day }))
            } else {
                None
            },
    {
        if date_exists(year, month, day) {
            Some(CalendarDate { year, month, day })
        } else {
            None
        }
    }

    /// Days from 1 January 1970 to this date, counted by the calendar's own
    /// rules: negative before 1970.
    pub fn days_since_epoch(self) -> (days: i64)
        requires
            self.wf(),
        ensures
            days == days_from_epoch(self.year as int, self.month as int, self.day as int),
    {
        // Years are counted from a year 1 lifted by a multiple of 400, which
        // keeps every division on positive numbers; 400 years are 146 097 days.
        let lift: i64 = 10_000;
        let y: i64 = self.year as i64 - 1 + 400 * lift;
        let before_year: i64 = 365 * y + y / 4 - y / 100 + y / 400 - 146_097 * lift;
        assert(before_year == days_before_year(self.year as int));
        let mut before_month: i64 = 0;
        let mut month: u8 = 1;
        while month < self.month
            invariant
                1 <= month <= self.month <= 12,
                before_month == days_before_month(self.year as int, month as int),
                0 <= before_month <= 31 * (month - 1),
            decreases self.month - month,
        {
            before_month = before_month + month_length(self.year, month) as i64;
            month = month + 1;
        }
        assert(day_number(1970, 1, 1) == 719_162) by {
            reveal_with_fuel(days_before_month, 2);
        }
        before_year + before_month + self.day as i64 - 1 - 719_162
    }

    /// Seconds from 1970-01-01T00:00:00Z to this date's midnight UTC.
    pub fn unix_timestamp(self) -> (ts: i64)
        requires
            self.wf(),
        ensures
            ts == unix_midnight(self.year as int, self.month as int, self.day as int),
    {
        midnight_timestamp(self.year, self.month, self.day)
    }
}

/// The position of a month on the line of all months: year 0's January is 0.
pub open spec fn month_index(year: int, month: int) -> int {
    year * 12 + (month - 1)
}

/// The date `months` whole months after `base` with the same day of the
/// month, or `None` where the calendar has no such day.
///
/// The month index is split by floor division, so the rule is the same on
/// both sides of year 0 and for offsets of either sign.
pub open spec fn months_later(base: CalendarDate, months: int) -> Option<CalendarDate> {
    let total = month_index(base.year as int, base.month as int) + months;
    let year = total / 12;
    let month = total % 12 + 1;
    if is_calendar_date(year, month, base.day as int) {
        Some((CalendarDate { year: year as i32, month: month as u8, day: base.day }))
    } else {
        None
    }
}

/// Moves `base` by `months` whole months and keeps its day of the month. A day
/// that the target month lacks (31 in a month of 30, 29 February in a common
/// year) gives `None`: the day is neither clamped nor carried over.
pub fn add_months(base: CalendarDate, months: i32) -> (r: Option<CalendarDate>)
    ensures
        r == months_later(base, months as int),
        r matches Some(d) ==> d.wf(),
{
    // Twelve times this many months lifts every reachable index above zero,
    // where the machine's division and floor division agree.
    let lift: i64 = 3_000_000_000;
    let total: i64 = base.year as i64 * 12 + (base.month as i64 - 1) + months as i64;
    let lifted: i64 = total + lift * 12;
    let year: i64 = lifted / 12 - lift;
    let month: i64 = lifted % 12 + 1;
    assert(year == total as int / 12 && month == total as int % 12 + 1);
    if year < MIN_YEAR as i64 || year > MAX_YEAR as i64 {
        None
    } else {
        CalendarDate::new(year as i32, month as u8, base.day)
    }
}

/// The closed form of `days_before_year` counts each year at its length: a
/// year's successor starts `days_in_year` days after it.
pub proof fn lemma_year_length(year: int)
    ensures
        days_before_year(year + 1) == days_before_year(year) + days_in_year(year),
{
    let y = year - 1;
    assert((y + 1) / 4 == y / 4 + if year % 4 == 0 { 1int } else { 0int });
    assert((y + 1) / 100 == y / 100 + if year % 100 == 0 { 1int } else { 0int });
    assert((y + 1) / 400 == y / 400 + if year % 400 == 0 { 1int } else { 0int });
    assert(year % 400 == 0 ==> year % 100 == 0);
    assert(year % 100 == 0 ==> year % 4 == 0);
}

/// Later years start later, by at least 365 days for each year between.
pub proof fn lemma_years_increase(earlier: int, later: int)
    requires
        earlier <= later,
    ensures
        days_before_year(later) >= days_before_year(earlier) + 365 * (later - earlier),
    decreases later - earlier,
{
    if earlier < later {
        lemma_years_increase(earlier, later - 1);
        lemma_year_length(later - 1);
    }
}

/// The months of a year lie end to end and fill it: each month starts where
/// the one before ends, and December ends with the year.
pub proof fn lemma_months_fill_year(year: int, month: int)
    requires
        1 <= month <= 12,
    ensures
        0 <= days_before_month(year, month),
        days_before_month(year, month) + days_in_month(year, month) <= days_in_year(year),
        month == 12 ==> days_before_month(year, month) + days_in_month(year, month)
            == days_in_year(year),
        month < 12 ==> days_before_month(year, month + 1) == days_before_month(year, month)
            + days_in_month(year, month),
{
    reveal_with_fuel(days_before_month, 13);
}

/// Within one year, a later month starts no earlier than the earlier month ends.
pub proof fn lemma_months_increase(year: int, earlier: int, later: int)
    requires
        1 <= earlier < later <= 12,
    ensures
        days_before_month(year, later) >= days_before_month(year, earlier) + days_in_month(
            year,
            earlier,
        ),
    decreases later - earlier,
{
    lemma_months_fill_year(year, later - 1);
    if earlier < later - 1 {
        lemma_months_increase(year, earlier, later - 1);
    }
}

/// Whether the first date comes before the second in the calendar.
pub open spec fn date_before(a: CalendarDate, b: CalendarDate) -> bool {
    a.year < b.year || (a.year == b.year && (a.month < b.month || (a.month == b.month && a.day
        < b.day)))
}

/// The calendar's order is the order of time: of two existing dates the
/// earlier has the smaller day number, and so the smaller timestamp.
pub proof fn lemma_earlier_date_earlier_time(a: CalendarDate, b: CalendarDate)
    requires
        a.wf(),
        b.wf(),
        date_before(a, b),
    ensures
        day_number(a.year as int, a.month as int, a.day as int) < day_number(
            b.year as int,
            b.month as int,
            b.day as int,
        ),
        unix_midnight(a.year as int, a.month as int, a.day as int) < unix_midnight(
            b.year as int,
            b.month as int,
            b.day as int,
        ),
{
    lemma_months_fill_year(a.year as int, a.month as int);
    lemma_months_fill_year(b.year as int, b.month as int);
    if a.year < b.year {
        lemma_year_length(a.year as int);
        lemma_years_increase(a.year + 1, b.year as int);
    } else if a.month < b.month {
        lemma_months_increase(a.year as int, a.month as int, b.month as int);
    }
}

/// Moving a date by no months leaves it where it is.
pub proof fn lemma_zero_months(base: CalendarDate)
    requires
        base.wf(),
    ensures
        months_later(base, 0) == Some(base),
{
}

/// A date reached by moving `months` months keeps the day of the month and
/// lies exactly `months` places along the line of months.
pub proof fn lemma_months_later_index(base: CalendarDate, months: int)
    requires
        1 <= base.month <= 12,
        months_later(base, months) is Some,
    ensures
        months_later(base, months)->0.wf(),
        months_later(base, months)->0.day == base.day,
        month_index(
            months_later(base, months)->0.year as int,
            months_later(base, months)->0.month as int,
        ) == month_index(base.year as int, base.month as int) + months,
{
}

/// Of two dates reached from one base, the one further along in months is the
/// later in time: offsets that grow give timestamps that grow, strictly.
pub proof fn lemma_more_months_later_time(base: CalendarDate, fewer: int, more: int)
    requires
        1 <= base.month <= 12,
        fewer < more,
        months_later(base, fewer) is Some,
        months_later(base, more) is Some,
    ensures
        ({
            let a = months_later(base, fewer)->0;
            let b = months_later(base, more)->0;
            unix_midnight(a.year as int, a.month as int, a.day as int) < unix_midnight(
                b.year as int,
                b.month as int,
                b.day as int,
            )
        }),
{
    lemma_months_later_index(base, fewer);
    lemma_months_later_index(base, more);
    lemma_earlier_date_earlier_time(months_later(base, fewer)->0, months_later(base, more)->0);
}

} // verus!
