//! Naive date-times: calendar fields without a time zone, ordered as the
//! moments they name.

use crate::ascending::Key;
use chrono::{Datelike, Timelike};
use core::cmp::Ordering;
use vstd::prelude::*;
use vstd::std_specs::cmp::PartialOrdSpecImpl;

verus! {

/// A date and a time of day without a zone. A leap second is written as second
/// 59 with a nanosecond of 1_000_000_000 or more. The fields are taken as they
/// are given: nothing holds them to the calendar.
#[derive(Debug, Clone, Copy, PartialEq, Eq, Hash, Ord, Structural)]
pub struct Timestamp {
    pub year: i32,
    pub month: u32,
    pub day: u32,
    pub hour: u32,
    pub minute: u32,
    pub second: u32,
    pub nanosecond: u32,
}

impl Timestamp {
    /// Strictly earlier: the fields are compared from the year down to the
    /// nanosecond, and the first that differs decides.
    #[verifier::opaque]
    pub open spec fn precedes(&self, other: &Timestamp) -> bool {
        self.year < other.year || (self.year == other.year && (self.month < other.month || (
        self.month == other.month && (self.day < other.day || (self.day == other.day && (self.hour
            < other.hour || (self.hour == other.hour && (self.minute < other.minute || (self.minute
            == other.minute && (self.second < other.second || (self.second == other.second
            && self.nanosecond < other.nanosecond)))))))))))
    }

    /// The later of two stamps.
    pub open spec fn spec_later(&self, other: &Timestamp) -> Timestamp {
        if self.precedes(other) {
            *other
        } else {
            *self
        }
    }

    /// The stamp that precedes every other.
    pub open spec fn spec_earliest() -> Timestamp {
        Timestamp {
            year: i32::MIN,
            month: 0,
            day: 0,
            hour: 0,
            minute: 0,
            second: 0,
            nanosecond: 0,
        }
    }

    pub fn new(
        year: i32,
        month: u32,
        day: u32,
        hour: u32,
        minute: u32,
        second: u32,
        nanosecond: u32,
    ) -> (t: Timestamp)
        ensures
            t == (Timestamp { year, month, day, hour, minute, second, nanosecond }),
    {
        Timestamp { year, month, day, hour, minute, second, nanosecond }
    }

    /// The first instant of a day.
    pub fn midnight(year: i32, month: u32, day: u32) -> (t: Timestamp)
        ensures
            t == (Timestamp { year, month, day, hour: 0, minute: 0, second: 0, nanosecond: 0 }),
    {
        Timestamp { year, month, day, hour: 0, minute: 0, second: 0, nanosecond: 0 }
    }

    /// The stamp that precedes every other.
    #[verifier::when_used_as_spec(spec_earliest)]
    pub fn earliest() -> (t: Timestamp)
        ensures
            t == Timestamp::spec_earliest(),
    {
        Timestamp {
            year: i32::MIN,
            month: 0,
            day: 0,
            hour: 0,
            minute: 0,
            second: 0,
            nanosecond: 0,
        }
    }

    /// Whether `self` is strictly earlier than `other`.
    pub fn is_before(&self, other: &Timestamp) -> (b: bool)
        ensures
            b == self.precedes(other),
    {
        proof {
            reveal(Timestamp::precedes);
        }
        if self.year != other.year {
            self.year < other.year
        } else if self.month != other.month {
            self.month < other.month
        } else if self.day != other.day {
            self.day < other.day
        } else if self.hour != other.hour {
            self.hour < other.hour
        } else if self.minute != other.minute {
            self.minute < other.minute
        } else if self.second != other.second {
            self.second < other.second
        } else {
            self.nanosecond < other.nanosecond
        }
    }

    /// The later of two stamps.
    #[verifier::when_used_as_spec(spec_later)]
    pub fn later(&self, other: &Timestamp) -> (t: Timestamp)
        ensures
            t == self.spec_later(other),
    {
        if self.is_before(other) {
            *other
        } else {
            *self
        }
    }

}

impl PartialOrdSpecImpl for Timestamp {
    open spec fn obeys_partial_cmp_spec() -> bool {
        true
    }

    open spec fn partial_cmp_spec(&self, other: &Timestamp) -> Option<Ordering> {
        if self.precedes(other) {
            Some(Ordering::Less)
        } else if *self == *other {
            Some(Ordering::Equal)
        } else {
            Some(Ordering::Greater)
        }
    }
}

impl PartialOrd for Timestamp {
    fn partial_cmp(&self, other: &Timestamp) -> (r: Option<Ordering>) {
        if self.is_before(other) {
            Some(Ordering::Less)
        } else if *self == *other {
            Some(Ordering::Equal)
        } else {
            Some(Ordering::Greater)
        }
    }
}

impl Key for Timestamp {
    open spec fn key_precedes(&self, other: &Timestamp) -> bool {
        self.precedes(other)
    }

    fn key_is_before(&self, other: &Timestamp) -> (b: bool) {
        self.is_before(other)
    }

    proof fn lemma_key_precedes_transitive(a: Timestamp, b: Timestamp, c: Timestamp) {
        lemma_precedes_transitive(a, b, c);
    }
}

/// No stamp precedes itself, and of two stamps that differ one precedes the
/// other.
pub proof fn lemma_precedes_total(a: Timestamp, b: Timestamp)
    ensures
        !a.precedes(&a),
        a.precedes(&b) || b.precedes(&a) || a == b,
        !(a.precedes(&b) && b.precedes(&a)),
{
    reveal(Timestamp::precedes);
}

/// Precedence carries over a stamp in between.
pub proof fn lemma_precedes_transitive(a: Timestamp, b: Timestamp, c: Timestamp)
    requires
        a.precedes(&b),
        b.precedes(&c),
    ensures
        a.precedes(&c),
{
    reveal(Timestamp::precedes);
}

/// The later of two stamps is one of them, and neither is later than it.
pub proof fn lemma_later_bounds(a: Timestamp, b: Timestamp)
    ensures
        a.spec_later(&b) == a || a.spec_later(&b) == b,
        !a.spec_later(&b).precedes(&a),
        !a.spec_later(&b).precedes(&b),
{
    lemma_precedes_total(a, b);
    lemma_precedes_total(a, a);
    lemma_precedes_total(b, b);
}

/// No stamp precedes the earliest.
pub proof fn lemma_earliest_is_first(t: Timestamp)
    ensures
        !t.precedes(&Timestamp::spec_earliest()),
{
    reveal(Timestamp::precedes);
}

/// Reads the system clock through `chrono::Utc::now` and hands back the fields
/// of its naive UTC date-time. Nothing is promised of the value: the clock may
/// stand still or step back between two calls. `chrono` panics if the clock
/// reads a moment before 1970, or one beyond the years it can name.
#[verifier::external_body]
pub(crate) fn utc_now() -> Timestamp {
    let t = chrono::Utc::now().naive_utc();
    Timestamp {
        year: t.year(),
        month: t.month(),
        day: t.day(),
        hour: t.hour(),
        minute: t.minute(),
        second: t.second(),
        nanosecond: t.nanosecond(),
    }
}

/// The date that `chrono::NaiveDate::parse_from_str` reads from `text`
/// under `format`, as year, month and day; `None` where it reads none.
pub uninterp spec fn date_of_text(text: Seq<char>, format: Seq<char>) -> Option<(i32, u32, u32)>;

/// The date-time that `chrono::NaiveDateTime::parse_from_str` reads from
/// `text` under `format`; `None` where it reads none.
pub uninterp spec fn date_time_of_text(text: Seq<char>, format: Seq<char>) -> Option<Timestamp>;

/// Calls `chrono::NaiveDate::parse_from_str` and hands back the year, month
/// and day of the date it read. The contract claims that the outcome
/// depends on the two texts alone.
#[verifier::external_body]
pub(crate) fn parse_date(text: &str, format: &str) -> (date: Option<(i32, u32, u32)>)
    ensures
        date == date_of_text(text@, format@),
{
    match chrono::NaiveDate::parse_from_str(text, format) {
        Ok(d) => Some((d.year(), d.month(), d.day())),
        Err(_) => None,
    }
}

/// Calls `chrono::NaiveDateTime::parse_from_str` and hands back the fields
/// of the date-time it read. The contract claims that the outcome depends
/// on the two texts alone.
#[verifier::external_body]
pub(crate) fn parse_date_time(text: &str, format: &str) -> (stamp: Option<Timestamp>)
    ensures
        stamp == date_time_of_text(text@, format@),
{
    match chrono::NaiveDateTime::parse_from_str(text, format) {
        Ok(t) => Some(
            Timestamp {
                year: t.year(),
                month: t.month(),
                day: t.day(),
                hour: t.hour(),
                minute: t.minute(),
                second: t.second(),
                nanosecond: t.nanosecond(),
            },
        ),
        Err(_) => None,
    }
}

} // verus!
