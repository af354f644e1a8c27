//! Calendar dates on which episodes air.

use vstd::prelude::*;
use crate::error::Error;

verus! {

/// A calendar date without a time of day. The dates of a catalog are
/// [valid](AirDate::valid): none of them lies before [`AirDate::earliest`].
#[derive(Clone, Copy, Debug, PartialEq, Eq, Structural)]
pub struct AirDate {
    /// Year of the proleptic Gregorian calendar; the year before year 1 is 0.
    pub year: i32,
    /// 1 for January up to 12 for December.
    pub month: u8,
    /// Day of the month, from 1.
    pub day: u8,
}

impl AirDate {
    /// Whether this date lies before `other`: by year, then month, then day.
    pub open spec fn before(self, other: AirDate) -> bool {
        self.year < other.year || (self.year == other.year && (self.month < other.month || (
        self.month == other.month && self.day < other.day)))
    }

    /// The first day of the year -9999, the earliest date that a catalog can
    /// name. It stands for an air date that is not on record.
    pub open spec fn earliest_date() -> AirDate {
        AirDate { year: -9999i32, month: 1, day: 1 }
    }

    /// Whether the value is a date that a catalog can name: the month is one
    /// of the twelve, the day one of at most 31, and the date does not lie
    /// before the earliest one.
    pub open spec fn valid(self) -> bool {
        1 <= self.month <= 12 && 1 <= self.day <= 31 && !self.before(AirDate::earliest_date())
    }

    /// The date with this year, month and day, where that is a
    /// [valid](AirDate::valid) one.
    pub fn new(year: i32, month: u8, day: u8) -> (r: Option<AirDate>)
        ensures
            match r {
                Some(date) => date == (AirDate { year, month, day }) && date.valid(),
                None => !(AirDate { year, month, day }).valid(),
            },
    {
        if 1 <= month && month <= 12 && 1 <= day && day <= 31 && year >= -9999 {
            Some(AirDate { year, month, day })
        } else {
            None
        }
    }

    /// The date that stands for an air date that is not on record.
    pub fn earliest() -> (date: AirDate)
        ensures
            date == AirDate::earliest_date(),
            date.valid(),
    {
        AirDate { year: -9999, month: 1, day: 1 }
    }

    /// Whether this date lies before `other`.
    pub fn is_before(&self, other: &AirDate) -> (before: bool)
        ensures
            before == self.before(*other),
    {
        self.year < other.year || (self.year == other.year && (self.month < other.month || (
        self.month == other.month && self.day < other.day)))
    }
}

/// What `time::Date::parse` makes of `text` under the format
/// `[year]-[month]-[day]`: year, month and day of the date that the text
/// writes, or nothing where the text is no date of that form.
pub uninterp spec fn calendar_date(text: Seq<char>) -> Option<(i32, u8, u8)>;

/// Calls `time::Date::parse` on `text` with the format `[year]-[month]-[day]`
/// and takes the date apart with `Date::year`, `Date::month` and `Date::day`.
/// The contract gives the outcome its name and claims nothing else of it; a
/// text that the crate refuses yields nothing.
#[verifier::external_body]
fn read_calendar_date(text: &str) -> (read: Option<(i32, u8, u8)>)
    ensures
        read == calendar_date(text@),
{
    let format = time::format_description::parse_borrowed::<2>("[year]-[month]-[day]").ok()?;
    match time::Date::parse(text, &format) {
        Ok(date) => Some((date.year(), u8::from(date.month()), date.day())),
        Err(_) => None,
    }
}

/// The air date that a catalog means by `text`, `read` being the calendar
/// date that the text writes, if it writes one. An empty text means that no
/// air date is on record, which counts as the earliest date there is. A text
/// that writes no date means none, nor does one whose date is not
/// [valid](AirDate::valid).
pub open spec fn air_date(text: Seq<char>, read: Option<(i32, u8, u8)>) -> Option<AirDate> {
    if text.len() == 0 {
        Some(AirDate::earliest_date())
    } else {
        match read {
            Some((year, month, day)) => if (AirDate { year, month, day }).valid() {
                Some(AirDate { year, month, day })
            } else {
                None
            },
            None => None,
        }
    }
}

/// Every air date that a catalog means by a text is valid.
pub proof fn lemma_air_date_is_valid(text: Seq<char>, read: Option<(i32, u8, u8)>)
    ensures
        air_date(text, read) is Some ==> air_date(text, read)->0.valid(),
{
}

/// The air date that a catalog means by `text`, given what was read from the
/// text as a calendar date: [`Error::Parse`] where the text is neither empty
/// nor a valid date.
pub fn air_date_from(text: &str, read: Option<(i32, u8, u8)>) -> (r: Result<AirDate, Error>)
    ensures
        match r {
            Ok(date) => air_date(text@, read) == Some(date) && date.valid(),
            Err(e) => air_date(text@, read) is None && e is Parse,
        },
{
    if text.is_empty() {
        return Ok(AirDate::earliest());
    }
    match read {
        Some((year, month, day)) => match AirDate::new(year, month, day) {
            Some(date) => Ok(date),
            None => Err(Error::Parse),
        },
        None => Err(Error::Parse),
    }
}

/// Reads an air date written as `YYYY-MM-DD`. An empty text stands for an
/// air date that is not on record and yields [`AirDate::earliest`]; a text
/// that is neither empty nor a valid date yields [`Error::Parse`].
pub fn deserialize_date(text: &str) -> (r: Result<AirDate, Error>)
    ensures
        match r {
            Ok(date) => air_date(text@, calendar_date(text@)) == Some(date) && date.valid(),
            Err(e) => air_date(text@, calendar_date(text@)) is None && e is Parse,
        },
{
    let read = read_calendar_date(text);
    air_date_from(text, read)
}

} // verus!
