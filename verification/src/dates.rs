//! Calendar dates as day numbers of the proleptic Gregorian calendar.
//!
//! A [`Date`] holds the number of its day, with 1 January of year 1 as day 1.
//! Order, distance and adjacency of dates are then integer arithmetic; the
//! calendar itself (reading and writing year, month and day) is left to
//! `chrono`.

use vstd::prelude::*;

verus! {

/// Day number of the earliest date that `chrono` represents.
pub const DATE_MIN_DAYS: i32 = -95_746_129;

/// Day number of the latest date that `chrono` represents.
pub const DATE_MAX_DAYS: i32 = 95_745_399;

/// What `NaiveDate::parse_from_str` reads from a text under a format: the
/// day number of the date, or `None` where it reports an error.
pub uninterp spec fn parsed_days(text: Seq<char>, format: Seq<char>) -> Option<int>;

/// The text of a date in the form year-month-day, as `NaiveDate` displays it.
pub uninterp spec fn date_text(days: int) -> Seq<char>;

/// The text of a date under a format, as `NaiveDate::format` writes it.
pub uninterp spec fn formatted_date(days: int, format: Seq<char>) -> Seq<char>;

/// The format of a month: the year and the month.
pub open spec fn month_format() -> Seq<char> {
    "%Y-%m"@
}

/// The text of a date's month in the form year-month.
pub open spec fn month_text(days: int) -> Seq<char> {
    formatted_date(days, month_format())
}

/// `chrono::NaiveDate::parse_from_str`, then `Datelike::num_days_from_ce` on
/// the date it read. The outcome depends on the two texts alone, and a date
/// that `chrono` holds lies between its `MIN` and `MAX`.
#[verifier::external_body]
pub(crate) fn chrono_parse_days(text: &str, format: &str) -> (r: Option<i32>)
    ensures
        match r {
            Some(d) => parsed_days(text@, format@) == Some(d as int) && DATE_MIN_DAYS <= d
                <= DATE_MAX_DAYS,
            None => parsed_days(text@, format@).is_none(),
        },
{
    match chrono::NaiveDate::parse_from_str(text, format) {
        Ok(d) => Some(chrono::Datelike::num_days_from_ce(&d)),
        Err(_) => None,
    }
}

/// `chrono::NaiveDate::from_num_days_from_ce_opt`, then `to_string` on the
/// date. Every day number in range names a date, so the text is that of the
/// date with this number.
#[verifier::external_body]
pub(crate) fn chrono_date_text(days: i32) -> (r: String)
    requires
        DATE_MIN_DAYS <= days <= DATE_MAX_DAYS,
    ensures
        r@ == date_text(days as int),
{
    match chrono::NaiveDate::from_num_days_from_ce_opt(days) {
        Some(d) => d.to_string(),
        None => String::new(),
    }
}

/// `chrono::NaiveDate::from_num_days_from_ce_opt`, then `format` on the
/// date, written out as a string. Writing out fails only for a format that
/// `chrono` does not know, so the contract is for the format of a month,
/// which it knows.
#[verifier::external_body]
pub(crate) fn chrono_format(days: i32, format: &str) -> (r: String)
    requires
        DATE_MIN_DAYS <= days <= DATE_MAX_DAYS,
        format@ == month_format(),
    ensures
        r@ == formatted_date(days as int, format@),
{
    match chrono::NaiveDate::from_num_days_from_ce_opt(days) {
        Some(d) => d.format(format).to_string(),
        None => String::new(),
    }
}

/// A calendar date.
#[derive(Clone, Copy, Debug, PartialEq, Eq)]
pub struct Date {
    days: i32,
}

impl Date {
    #[verifier::type_invariant]
    spec fn in_range(self) -> bool {
        DATE_MIN_DAYS <= self.days <= DATE_MAX_DAYS
    }

    /// The day number of the date.
    pub closed spec fn day(self) -> int {
        self.days as int
    }

    /// The date with day number `n`.
    pub closed spec fn at(n: int) -> Date {
        Date { days: n as i32 }
    }

    /// The date with the given day number, if there is one.
    pub fn from_days(days: i32) -> (r: Option<Date>)
        ensures
            r is Some <==> DATE_MIN_DAYS <= days <= DATE_MAX_DAYS,
            r matches Some(d) ==> d.day() == days && d == Date::at(days as int),
    {
        if DATE_MIN_DAYS <= days && days <= DATE_MAX_DAYS {
            Some(Date { days })
        } else {
            None
        }
    }

    pub fn days(&self) -> (r: i32)
        ensures
            r == self.day(),
            DATE_MIN_DAYS <= r <= DATE_MAX_DAYS,
    {
        proof {
            use_type_invariant(self);
        }
        self.days
    }

    /// The date `n` days before this one, if `chrono` represents it.
    pub fn minus_days(&self, n: u32) -> (r: Option<Date>)
        ensures
            r is Some <==> self.day() - n >= DATE_MIN_DAYS,
            r matches Some(d) ==> d.day() == self.day() - n && d == Date::at(self.day() - n),
    {
        proof {
            use_type_invariant(self);
        }
        if n <= 200_000_000 && self.days - (n as i32) >= DATE_MIN_DAYS {
            Some(Date { days: self.days - (n as i32) })
        } else {
            None
        }
    }

    pub fn same_day(&self, other: &Date) -> (r: bool)
        ensures
            r == (self.day() == other.day()),
            r == (*self == *other),
    {
        self.days == other.days
    }

    pub fn before(&self, other: &Date) -> (r: bool)
        ensures
            r == (self.day() < other.day()),
    {
        self.days < other.days
    }

    pub fn not_after(&self, other: &Date) -> (r: bool)
        ensures
            r == (self.day() <= other.day()),
    {
        self.days <= other.days
    }

    /// The later of two dates.
    pub fn latest(self, other: Date) -> (r: Date)
        ensures
            r == (if self.day() >= other.day() { self } else { other }),
    {
        if self.days >= other.days {
            self
        } else {
            other
        }
    }

    /// The earlier of two dates.
    pub fn earliest(self, other: Date) -> (r: Date)
        ensures
            r == (if self.day() <= other.day() { self } else { other }),
    {
        if self.days <= other.days {
            self
        } else {
            other
        }
    }

    /// The date as text, year-month-day.
    pub fn to_text(&self) -> (r: String)
        ensures
            r@ == date_text(self.day()),
    {
        chrono_date_text(self.days())
    }

    /// The date's month as text, year-month.
    pub fn month_label(&self) -> (r: String)
        ensures
            r@ == month_text(self.day()),
    {
        chrono_format(self.days(), "%Y-%m")
    }
}

/// Two dates with the same day number are the same date.
pub broadcast proof fn lemma_date_by_day(a: Date, b: Date)
    ensures
        (#[trigger] a.day() == #[trigger] b.day()) ==> a == b,
{
}

/// A date is the date at its day number, and the date at a day number in
/// range has that day number.
pub proof fn lemma_date_at(n: int)
    ensures
        DATE_MIN_DAYS <= n <= DATE_MAX_DAYS ==> Date::at(n).day() == n,
        forall|d: Date| #[trigger] d.day() == n ==> d == Date::at(n),
{
}

/// Reads a date under one format.
pub fn date_with_format(text: &str, format: &str) -> (r: Option<Date>)
    ensures
        r is Some <==> parsed_days(text@, format@) is Some,
        r matches Some(d) ==> Some(d.day()) == parsed_days(text@, format@),
{
    match chrono_parse_days(text, format) {
        Some(days) => Date::from_days(days),
        None => None,
    }
}

/// The order of optional dates in which an absent date comes first.
pub open spec fn opt_date_lt(a: Option<Date>, b: Option<Date>) -> bool {
    match (a, b) {
        (None, None) => false,
        (None, Some(_)) => true,
        (Some(_), None) => false,
        (Some(x), Some(y)) => x.day() < y.day(),
    }
}

pub fn opt_date_before(a: &Option<Date>, b: &Option<Date>) -> (r: bool)
    ensures
        r == opt_date_lt(*a, *b),
{
    match (a, b) {
        (None, None) => false,
        (None, Some(_)) => true,
        (Some(_), None) => false,
        (Some(x), Some(y)) => x.before(y),
    }
}

} // verus!
