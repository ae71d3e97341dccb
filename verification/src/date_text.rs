//! Dates as they are written in the first field of a record: `MM/DD/YYYY`.

use crate::calendar::{is_calendar_date, month_exists, CalendarDate};
use crate::text::{find_byte, lemma_split_nonempty, parse_signed, parse_unsigned};
use crate::text::{signed_decimal, split, unsigned_decimal, SLASH};
use vstd::prelude::*;
use vstd::slice::slice_subrange;
use vstd::string::StringSliceAdditionalSpecFns;

verus! {

/// Why a text is not a date.
#[derive(Clone, Copy, Debug, PartialEq, Eq, Structural)]
pub enum DateError {
    /// The text is not three numbers with a `/` between them.
    Format,
    /// The month is not one of 1 to 12.
    InvalidMonth,
    /// The calendar has no such day, or the year lies outside the supported
    /// range.
    InvalidDate,
}

/// The date that the bytes of a text write, or why they write none.
///
/// The text must consist of exactly three pieces separated by `/`: month and
/// day, each an optional `+` and digits, and the year, an optional sign and
/// digits. Any number of digits is read, so a month of 300 is a month out of
/// range and not a fault of form. The form is judged first, then the month,
/// then the day and year together.
pub open spec fn date_of_text(s: Seq<u8>) -> Result<CalendarDate, DateError> {
    let parts = split(s, SLASH);
    if parts.len() != 3 {
        Err(DateError::Format)
    } else {
        match (unsigned_decimal(parts[0]), unsigned_decimal(parts[1]), signed_decimal(parts[2])) {
            (Some(month), Some(day), Some(year)) => {
                if !(1 <= month <= 12) {
                    Err(DateError::InvalidMonth)
                } else if !is_calendar_date(year, month, day) {
                    Err(DateError::InvalidDate)
                } else {
                    Ok((CalendarDate { year: year as i32, month: month as u8, day: day as u8 }))
                }
            },
            _ => Err(DateError::Format),
        }
    }
}

/// Reads a date written as `MM/DD/YYYY` from the bytes of a text.
pub fn parse_date_bytes(s: &[u8]) -> (r: Result<CalendarDate, DateError>)
    ensures
        r == date_of_text(s@),
        r matches Ok(d) ==> d.wf(),
{
    let first = find_byte(s, SLASH);
    if first == s.len() {
        return Err(DateError::Format);
    }
    let month_text = slice_subrange(s, 0, first);
    let after_month = slice_subrange(s, first + 1, s.len());
    let second = find_byte(after_month, SLASH);
    proof {
        assert(month_text@ == s@.take(first as int));
        assert(after_month@ == s@.skip(first + 1));
        lemma_split_nonempty(after_month@, SLASH);
    }
    if second == after_month.len() {
        return Err(DateError::Format);
    }
    let day_text = slice_subrange(after_month, 0, second);
    let year_text = slice_subrange(after_month, second + 1, after_month.len());
    let third = find_byte(year_text, SLASH);
    proof {
        assert(day_text@ == after_month@.take(second as int));
        assert(year_text@ == after_month@.skip(second + 1));
        lemma_split_nonempty(year_text@, SLASH);
        if third < year_text@.len() {
            lemma_split_nonempty(year_text@.skip(third + 1), SLASH);
        }
    }
    if third < year_text.len() {
        return Err(DateError::Format);
    }
    proof {
        let parts = split(s@, SLASH);
        assert(split(year_text@, SLASH) == seq![year_text@]);
        assert(split(after_month@, SLASH) == seq![day_text@] + seq![year_text@]);
        assert(parts == seq![month_text@] + (seq![day_text@] + seq![year_text@]));
        assert(parts.len() == 3);
        assert(parts[0] == month_text@ && parts[1] == day_text@ && parts[2] == year_text@);
    }
    let month = parse_unsigned(month_text);
    let day = parse_unsigned(day_text);
    let year = parse_signed(year_text);
    match (month, day, year) {
        (Some(month), Some(day), Some(year)) => {
            if month < 0 || month > 255 || !month_exists(month as u8) {
                Err(DateError::InvalidMonth)
            } else if day < 0 || day > 255 {
                Err(DateError::InvalidDate)
            } else {
                match CalendarDate::new(year as i32, month as u8, day as u8) {
                    Some(date) => Ok(date),
                    None => Err(DateError::InvalidDate),
                }
            }
        },
        _ => Err(DateError::Format),
    }
}

/// Reads a date written as `MM/DD/YYYY`.
pub fn parse_mm_dd_yyyy(s: &str) -> (r: Result<CalendarDate, DateError>)
    ensures
        r == date_of_text(s.spec_bytes()),
        r matches Ok(d) ==> d.wf(),
{
    parse_date_bytes(s.as_bytes())
}

} // verus!
