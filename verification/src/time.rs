//! Instants of UTC, as the calendar library `chrono` counts them.

use chrono::{DateTime, Datelike, TimeDelta, Utc};
use vstd::prelude::*;

verus! {

/// First second that the calendar reaches.
pub const FIRST_SECOND: i64 = -8_334_601_228_800;

/// Last second that the calendar reaches.
pub const LAST_SECOND: i64 = 8_210_266_876_799;

/// An instant of UTC: whole seconds since the start of 1970, and nanoseconds
/// within the second. A leap second is the second billion of nanoseconds of the
/// last second of a minute.
#[derive(Clone, Copy, Debug, PartialEq, Eq, Structural)]
pub struct UtcTime {
    pub secs: i64,
    pub nanos: u32,
}

impl UtcTime {
    /// Within the calendar.
    pub open spec fn valid(self) -> bool {
        &&& FIRST_SECOND <= self.secs <= LAST_SECOND
        &&& self.nanos < 1_000_000_000 || (self.nanos < 2_000_000_000 && self.secs % 60 == 59)
    }

    /// Inside a leap second.
    pub open spec fn leap(self) -> bool {
        self.nanos >= 1_000_000_000
    }

    pub open spec fn second_of_day(self) -> int {
        self.secs as int % 86_400
    }

    /// Nanoseconds since the start of 1970, leap seconds not counted.
    pub open spec fn total_nanos(self) -> int {
        self.secs * 1_000_000_000 + self.nanos
    }

    /// Strictly later in the calendar's order.
    pub open spec fn later_than(self, other: UtcTime) -> bool {
        self.secs > other.secs || (self.secs == other.secs && self.nanos > other.nanos)
    }
}

/// Nanoseconds from `earlier` to `later`. A leap second that one of them stands
/// in counts when the other lies beyond it by the time of day.
pub open spec fn nanos_between(later: UtcTime, earlier: UtcTime) -> int {
    let leap = if later.second_of_day() > earlier.second_of_day() && earlier.leap() {
        1int
    } else if later.second_of_day() < earlier.second_of_day() && later.leap() {
        -1int
    } else {
        0int
    };
    later.total_nanos() - earlier.total_nanos() + leap * 1_000_000_000
}

/// Division that drops the fraction on either side of zero.
pub open spec fn toward_zero(n: int, d: int) -> int {
    if n >= 0 {
        n / d
    } else {
        -((-n) / d)
    }
}

/// Whole seconds from `earlier` to `later`.
pub open spec fn seconds_between(later: UtcTime, earlier: UtcTime) -> int {
    toward_zero(nanos_between(later, earlier), 1_000_000_000)
}

/// Whole milliseconds from `earlier` to `later`.
pub open spec fn millis_between(later: UtcTime, earlier: UtcTime) -> int {
    toward_zero(nanos_between(later, earlier), 1_000_000)
}

/// The instant with the given count of nanoseconds since the start of 1970,
/// where the calendar reaches it.
pub open spec fn instant_of(nanos: int) -> Option<UtcTime> {
    let secs = nanos / 1_000_000_000;
    if FIRST_SECOND <= secs <= LAST_SECOND {
        Some(UtcTime { secs: secs as i64, nanos: (nanos % 1_000_000_000) as u32 })
    } else {
        None
    }
}

/// `millis` milliseconds after `t`; `None` past the ends of the calendar.
///
/// From inside a leap second, a shift that stays in it or in the second before
/// it just moves the nanoseconds; one that leaves it forward counts it as gone,
/// and one that leaves it backward counts it as not yet come.
pub open spec fn shifted(t: UtcTime, millis: int) -> Option<UtcTime> {
    let seconds = toward_zero(millis, 1000);
    let fraction = (millis - seconds * 1000) * 1_000_000;
    if !t.leap() {
        instant_of(t.total_nanos() + millis * 1_000_000)
    } else if seconds > 0 || t.nanos + fraction >= 2_000_000_000 {
        instant_of(t.total_nanos() - 1_000_000_000 + millis * 1_000_000)
    } else if seconds < 0 {
        instant_of(t.total_nanos() + millis * 1_000_000)
    } else {
        Some(UtcTime { secs: t.secs, nanos: (t.nanos + fraction) as u32 })
    }
}

/// What takes `millis` milliseconds, begun no later than `lead` milliseconds before
/// an instant, is done by then, if the lead is longer by a second.
pub proof fn work_ahead_is_done(t: UtcTime, begin: UtcTime, end: UtcTime, lead: int, millis: int)
    requires
        t.valid(),
        end.valid(),
        0 <= millis,
        millis + 1000 <= lead,
        shifted(end, -lead) == Some(begin),
        !t.later_than(begin),
    ensures
        shifted(t, millis) is Some,
        !(shifted(t, millis)->0).later_than(end),
{
    assert(toward_zero(-lead, 1000) < 0);
    assert(begin.total_nanos() == end.total_nanos() - lead * 1_000_000);
    assert(!begin.leap());
}

/// A shift back by a second or more ends in no leap second.
pub proof fn far_shifts_leave_leap_seconds(t: UtcTime, back: UtcTime, millis: int)
    requires
        t.valid(),
        1000 <= millis,
        shifted(t, -millis) == Some(back),
    ensures
        !back.leap(),
{
    assert(toward_zero(-millis, 1000) < 0);
}

/// Nothing is shifted by no time.
pub proof fn no_time_shifts_nothing(t: UtcTime)
    requires
        t.valid(),
    ensures
        shifted(t, 0) == Some(t),
{
}

/// Seconds and nanoseconds of the instant that a date-and-time text stands for,
/// as `chrono` reads it.
pub uninterp spec fn parsed_time(text: Seq<char>) -> Option<(i64, u32)>;

/// The RFC 3339 text that `chrono` writes for an instant.
pub uninterp spec fn time_text(secs: i64, nanos: u32) -> Seq<char>;

/// Whether a year has a 29th of February, in the Gregorian calendar carried back
/// and forth without end.
pub open spec fn leap_year(year: int) -> bool {
    year % 4 == 0 && (year % 100 != 0 || year % 400 == 0)
}

pub open spec fn days_in_month(year: int, month: int) -> int {
    if month == 2 {
        if leap_year(year) { 29 } else { 28 }
    } else if month == 4 || month == 6 || month == 9 || month == 11 {
        30
    } else {
        31
    }
}

/// Days of a year before the first of a month.
pub open spec fn days_before_month(year: int, month: int) -> int
    decreases month,
{
    if month <= 1 {
        0
    } else {
        days_before_month(year, month - 1) + days_in_month(year, month - 1)
    }
}

/// Days from the start of year 1 to the start of a year.
pub open spec fn days_before_year(year: int) -> int {
    365 * (year - 1) + (year - 1) / 4 - (year - 1) / 100 + (year - 1) / 400
}

/// The number of a day; the first of January of year 1 has the number 1.
pub open spec fn day_number(year: int, month: int, day: int) -> int {
    days_before_year(year) + days_before_month(year, month) + day
}

/// The number of the first of January 1970.
pub const EPOCH_DAY: i64 = 719_163;

/// The date (year, month, day) of the day on which a second falls.
pub open spec fn is_date_of(date: (i32, u32, u32), secs: i64) -> bool {
    let (year, month, day) = (date.0 as int, date.1 as int, date.2 as int);
    &&& 1 <= month <= 12
    &&& 1 <= day <= days_in_month(year, month)
    &&& day_number(year, month, day) == EPOCH_DAY + secs as int / 86_400
}

/// Year, month and day on which a second falls.
pub open spec fn calendar_date(secs: i64) -> (i32, u32, u32) {
    choose|date: (i32, u32, u32)| is_date_of(date, secs)
}

proof fn lemma_months(year: int, month: int)
    requires
        1 <= month <= 13,
    ensures
        month <= 12 ==> days_before_month(year, month) + days_in_month(year, month) == days_before_month(
            year,
            month + 1,
        ),
        0 <= days_before_month(year, month) <= days_before_month(year, 13),
        days_before_month(year, 13) == if leap_year(year) { 366int } else { 365int },
{
    reveal_with_fuel(days_before_month, 14);
}

proof fn lemma_months_grow(year: int, a: int, b: int)
    requires
        1 <= a < b <= 12,
    ensures
        days_before_month(year, a) + days_in_month(year, a) <= days_before_month(year, b),
    decreases b - a,
{
    lemma_months(year, a);
    if a + 1 < b {
        lemma_months_grow(year, a + 1, b);
    }
}

proof fn lemma_years_grow(a: int, b: int)
    requires
        a < b,
    ensures
        days_before_year(a) + days_before_month(a, 13) <= days_before_year(b),
    decreases b - a,
{
    lemma_months(a, 13);
    assert(days_before_year(a + 1) == days_before_year(a) + if leap_year(a) { 366int } else { 365int });
    if a + 1 < b {
        lemma_years_grow(a + 1, b);
        lemma_months(a + 1, 13);
    }
}

/// A later date has a larger number.
proof fn lemma_numbers_grow(year: int, month: int, day: int, other_year: int, other_month: int, other_day: int)
    requires
        1 <= month <= 12,
        1 <= day <= days_in_month(year, month),
        1 <= other_month <= 12,
        1 <= other_day,
        year < other_year || (year == other_year && month < other_month),
    ensures
        day_number(year, month, day) < day_number(other_year, other_month, other_day),
{
    if year < other_year {
        lemma_years_grow(year, other_year);
        lemma_months(year, month);
        lemma_months(year, month + 1);
        lemma_months(other_year, other_month);
    } else {
        lemma_months_grow(year, month, other_month);
    }
}

/// A day has one date.
pub proof fn dates_are_unique(a: (i32, u32, u32), b: (i32, u32, u32), secs: i64)
    requires
        is_date_of(a, secs),
        is_date_of(b, secs),
    ensures
        a == b,
        a == calendar_date(secs),
{
    let c = calendar_date(secs);
    lemma_one_date(a, b, secs);
    lemma_one_date(a, c, secs);
}

proof fn lemma_one_date(a: (i32, u32, u32), b: (i32, u32, u32), secs: i64)
    requires
        is_date_of(a, secs),
        is_date_of(b, secs),
    ensures
        a == b,
{
    if a.0 < b.0 || (a.0 == b.0 && a.1 < b.1) {
        lemma_numbers_grow(a.0 as int, a.1 as int, a.2 as int, b.0 as int, b.1 as int, b.2 as int);
    } else if b.0 < a.0 || (a.0 == b.0 && b.1 < a.1) {
        lemma_numbers_grow(b.0 as int, b.1 as int, b.2 as int, a.0 as int, a.1 as int, a.2 as int);
    }
}

/// The instant that a date-and-time text stands for.
pub open spec fn reading(text: Seq<char>) -> Option<UtcTime> {
    match parsed_time(text) {
        Some(t) => Some(UtcTime { secs: t.0, nanos: t.1 }),
        None => None,
    }
}

/// The text written for an instant.
pub open spec fn stamp(t: UtcTime) -> Seq<char> {
    time_text(t.secs, t.nanos)
}

/// `str::parse::<DateTime<Utc>>` of `chrono`, which accepts a relaxed form of
/// RFC 3339. The result is the named reading of the text; a reading lies within
/// the calendar.
#[verifier::external_body]
fn parse_calendar(text: &str) -> (r: Option<(i64, u32)>)
    ensures
        r == parsed_time(text@),
        r matches Some(t) ==> (UtcTime { secs: t.0, nanos: t.1 }).valid(),
{
    text.parse::<DateTime<Utc>>().ok().map(|t| (t.timestamp(), t.timestamp_subsec_nanos()))
}

/// `DateTime::to_rfc3339` of `chrono`. The result is the named text of the
/// instant, and reading that text gives the instant back. `requires` leaves out
/// what `DateTime::from_timestamp` does not accept.
#[verifier::external_body]
fn write_calendar(secs: i64, nanos: u32) -> (r: String)
    requires
        (UtcTime { secs, nanos }).valid(),
    ensures
        r@ == time_text(secs, nanos),
        parsed_time(r@) == Some((secs, nanos)),
{
    DateTime::<Utc>::from_timestamp(secs, nanos).unwrap().to_rfc3339()
}

/// `Utc::now` of `chrono`: the machine's clock. The instant lies within the
/// calendar and never inside a leap second, since the clock counts none. Which
/// instant it is rests on the machine, and nothing more is said of it. The call
/// panics where the machine's clock stands before 1970.
#[verifier::external_body]
fn read_clock() -> (r: (i64, u32))
    ensures
        (UtcTime { secs: r.0, nanos: r.1 }).valid(),
        !(UtcTime { secs: r.0, nanos: r.1 }).leap(),
{
    let t = Utc::now();
    (t.timestamp(), t.timestamp_subsec_nanos())
}

/// `DateTime::signed_duration_since` of `chrono`, as whole seconds and the
/// nanoseconds left over, both on the same side of zero.
#[verifier::external_body]
fn measure(later: UtcTime, earlier: UtcTime) -> (r: (i64, i32))
    requires
        later.valid(),
        earlier.valid(),
    ensures
        r.0 * 1_000_000_000 + r.1 == nanos_between(later, earlier),
        nanos_between(later, earlier) >= 0 ==> r.0 >= 0 && 0 <= r.1 < 1_000_000_000,
        nanos_between(later, earlier) <= 0 ==> r.0 <= 0 && -1_000_000_000 < r.1 <= 0,
{
    let a = DateTime::<Utc>::from_timestamp(later.secs, later.nanos).unwrap();
    let b = DateTime::<Utc>::from_timestamp(earlier.secs, earlier.nanos).unwrap();
    let d = a.signed_duration_since(b);
    (d.num_seconds(), d.subsec_nanos())
}

/// `DateTime::checked_add_signed` of `chrono` with `TimeDelta::try_milliseconds`:
/// the shifted instant, or `None` past the ends of the calendar. The least
/// `i64`, which is no `TimeDelta`, gives `None` too.
#[verifier::external_body]
fn shift_calendar(t: UtcTime, millis: i64) -> (r: Option<(i64, u32)>)
    requires
        t.valid(),
    ensures
        r == match shifted(t, millis as int) {
            Some(s) => Some((s.secs, s.nanos)),
            None => None,
        },
{
    let d = TimeDelta::try_milliseconds(millis)?;
    let s = DateTime::<Utc>::from_timestamp(t.secs, t.nanos)?.checked_add_signed(d)?;
    Some((s.timestamp(), s.timestamp_subsec_nanos()))
}

/// `Datelike::year`, `month` and `day` of `chrono`: the date in the Gregorian
/// calendar, carried back and forth without end, of the day that the instant falls
/// on.
#[verifier::external_body]
fn read_date(secs: i64, nanos: u32) -> (r: (i32, u32, u32))
    requires
        (UtcTime { secs, nanos }).valid(),
    ensures
        is_date_of(r, secs),
{
    let t = DateTime::<Utc>::from_timestamp(secs, nanos).unwrap();
    (t.year(), t.month(), t.day())
}

impl UtcTime {
    /// Reads a date-and-time text.
    pub fn parse(text: &str) -> (r: Option<UtcTime>)
        ensures
            r == reading(text@),
            r matches Some(t) ==> t.valid(),
    {
        match parse_calendar(text) {
            Some((secs, nanos)) => Some(UtcTime { secs, nanos }),
            None => None,
        }
    }

    /// Writes the instant as RFC 3339 text.
    pub fn to_rfc3339(self) -> (r: String)
        requires
            self.valid(),
        ensures
            r@ == stamp(self),
            reading(r@) == Some(self),
    {
        write_calendar(self.secs, self.nanos)
    }

    /// The current instant, as the machine's clock tells it: within the calendar,
    /// and outside any leap second.
    pub fn now() -> (r: UtcTime)
        ensures
            r.valid(),
            !r.leap(),
    {
        let (secs, nanos) = read_clock();
        UtcTime { secs, nanos }
    }

    /// Whole seconds since `earlier`.
    pub fn seconds_since(self, earlier: UtcTime) -> (r: i64)
        requires
            self.valid(),
            earlier.valid(),
        ensures
            r == seconds_between(self, earlier),
    {
        let (secs, nanos) = measure(self, earlier);
        secs
    }

    /// Whole milliseconds since `earlier`.
    pub fn millis_since(self, earlier: UtcTime) -> (r: i64)
        requires
            self.valid(),
            earlier.valid(),
        ensures
            r == millis_between(self, earlier),
    {
        let (secs, nanos) = measure(self, earlier);
        if nanos >= 0 {
            secs * 1000 + (nanos / 1_000_000) as i64
        } else {
            secs * 1000 - ((-nanos) / 1_000_000) as i64
        }
    }

    /// The instant `millis` milliseconds later; `None` past the ends of the
    /// calendar.
    pub fn shift_millis(self, millis: i64) -> (r: Option<UtcTime>)
        requires
            self.valid(),
        ensures
            r == shifted(self, millis as int),
            r matches Some(t) ==> t.valid(),
    {
        match shift_calendar(self, millis) {
            Some((secs, nanos)) => Some(UtcTime { secs, nanos }),
            None => None,
        }
    }

    /// Whether the instant is within the calendar.
    pub fn is_valid(self) -> (r: bool)
        ensures
            r == self.valid(),
    {
        if self.secs < FIRST_SECOND || self.secs > LAST_SECOND {
            return false;
        }
        // The calendar's first second starts a minute.
        let from_first: i64 = self.secs - FIRST_SECOND;
        self.nanos < 1_000_000_000 || (self.nanos < 2_000_000_000 && from_first % 60 == 59)
    }

    /// Whether the instant is strictly later than `other`.
    pub fn is_after(self, other: UtcTime) -> (r: bool)
        ensures
            r == self.later_than(other),
    {
        self.secs > other.secs || (self.secs == other.secs && self.nanos > other.nanos)
    }

    /// Year, month and day.
    pub fn date(self) -> (r: (i32, u32, u32))
        requires
            self.valid(),
        ensures
            r == calendar_date(self.secs),
            is_date_of(r, self.secs),
    {
        let date = read_date(self.secs, self.nanos);
        proof {
            dates_are_unique(date, date, self.secs);
        }
        date
    }
}

} // verus!
