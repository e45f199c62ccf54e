//! Dates and wall-clock times of the exchange.
//!
//! A [`Date`] is a day of the proleptic Gregorian calendar, held as its day
//! number (January 1 of year 1 is day 1). A [`DateTime`] is a date and a minute
//! of that day on the exchange's clock. The conversions between day numbers and
//! year, month and day are made by the `chrono` crate.
use vstd::prelude::*;

verus! {

pub const MIN_YEAR: i32 = -262143;

pub const MAX_YEAR: i32 = 262142;

/// Day number of January 1 of `MIN_YEAR`.
pub const MIN_DAY: i32 = -95746129;

/// Day number of December 31 of `MAX_YEAR`.
pub const MAX_DAY: i32 = 95745399;

pub const MINUTES_PER_DAY: u32 = 1440;

/// Minute of the day at which the exchange opens: 09:30.
pub const OPENING_MINUTE: u32 = 570;

/// Minute of the day at which the exchange closes: 16:00.
pub const CLOSING_MINUTE: u32 = 960;

pub const MONDAY: u32 = 0;

pub const TUESDAY: u32 = 1;

pub const WEDNESDAY: u32 = 2;

pub const THURSDAY: u32 = 3;

pub const FRIDAY: u32 = 4;

pub const SATURDAY: u32 = 5;

pub const SUNDAY: u32 = 6;

pub open spec fn is_leap_year(y: int) -> bool {
    y % 4 == 0 && (y % 100 != 0 || y % 400 == 0)
}

pub open spec fn days_in_month(y: int, m: int) -> int {
    if m == 2 {
        if is_leap_year(y) {
            29
        } else {
            28
        }
    } else if m == 4 || m == 6 || m == 9 || m == 11 {
        30
    } else {
        31
    }
}

/// Days from day 1 up to, not including, January 1 of year `y`, less one.
pub open spec fn days_before_year(y: int) -> int {
    let p = y - 1;
    365 * p + p / 4 - p / 100 + p / 400
}

/// Days of year `y` that lie before the first of month `m`.
pub open spec fn days_before_month(y: int, m: int) -> int {
    let common: int = if m <= 1 {
        0
    } else if m == 2 {
        31
    } else if m == 3 {
        59
    } else if m == 4 {
        90
    } else if m == 5 {
        120
    } else if m == 6 {
        151
    } else if m == 7 {
        181
    } else if m == 8 {
        212
    } else if m == 9 {
        243
    } else if m == 10 {
        273
    } else if m == 11 {
        304
    } else {
        334
    };
    if m > 2 && is_leap_year(y) {
        common + 1
    } else {
        common
    }
}

/// Whether year, month and day name a day that `chrono` can hold.
pub open spec fn valid_civil(y: int, m: int, d: int) -> bool {
    &&& MIN_YEAR <= y <= MAX_YEAR
    &&& 1 <= m <= 12
    &&& 1 <= d <= days_in_month(y, m)
}

/// Day number of a day given by year, month and day.
pub open spec fn day_number(y: int, m: int, d: int) -> int {
    days_before_year(y) + days_before_month(y, m) + d
}

/// Year, month and day of the day with number `n`.
pub open spec fn civil_of(n: int) -> (int, int, int) {
    choose|c: (int, int, int)| valid_civil(c.0, c.1, c.2) && day_number(c.0, c.1, c.2) == n
}

/// Day of the week of day `n`, Monday being 0.
pub open spec fn weekday_of(n: int) -> int {
    (n - 1) % 7
}

/// A year has 365 days, and one more where it is a leap year.
proof fn lemma_year_length(y: int)
    ensures
        days_before_year(y + 1) - days_before_year(y) == if is_leap_year(y) {
            366int
        } else {
            365int
        },
{
}

/// Later years start later.
proof fn lemma_years_ascend(y1: int, y2: int)
    requires
        y1 <= y2,
    ensures
        days_before_year(y1) <= days_before_year(y2),
    decreases y2 - y1,
{
    if y1 < y2 {
        lemma_years_ascend(y1, y2 - 1);
        lemma_year_length(y2 - 1);
    }
}

/// The days of a year lie between its first and its last.
proof fn lemma_within_year(y: int, m: int, d: int)
    requires
        1 <= m <= 12,
        1 <= d <= days_in_month(y, m),
    ensures
        days_before_year(y) < day_number(y, m, d) <= days_before_year(y + 1),
{
    lemma_year_length(y);
}

/// The days that `chrono` can hold are numbered from `MIN_DAY` to `MAX_DAY`.
pub proof fn lemma_day_in_range(y: int, m: int, d: int)
    requires
        valid_civil(y, m, d),
    ensures
        MIN_DAY <= day_number(y, m, d) <= MAX_DAY,
{
    lemma_within_year(y, m, d);
    lemma_years_ascend(MIN_YEAR as int, y);
    lemma_years_ascend(y + 1, MAX_YEAR + 1);
}

/// No two days of the calendar have the same number.
pub proof fn lemma_civil_unique(y1: int, m1: int, d1: int, y2: int, m2: int, d2: int)
    requires
        1 <= m1 <= 12,
        1 <= d1 <= days_in_month(y1, m1),
        1 <= m2 <= 12,
        1 <= d2 <= days_in_month(y2, m2),
        day_number(y1, m1, d1) == day_number(y2, m2, d2),
    ensures
        y1 == y2,
        m1 == m2,
        d1 == d2,
{
    lemma_within_year(y1, m1, d1);
    lemma_within_year(y2, m2, d2);
    if y1 < y2 {
        lemma_years_ascend(y1 + 1, y2);
    }
    if y2 < y1 {
        lemma_years_ascend(y2 + 1, y1);
    }
}

/// Year, month and day of a day number are those of any day of the calendar
/// that has this number.
pub proof fn lemma_civil_of(n: int, y: int, m: int, d: int)
    requires
        valid_civil(y, m, d),
        day_number(y, m, d) == n,
    ensures
        civil_of(n) == (y, m, d),
{
    let c = civil_of(n);
    assert(valid_civil((y, m, d).0, (y, m, d).1, (y, m, d).2) && day_number(
        (y, m, d).0,
        (y, m, d).1,
        (y, m, d).2,
    ) == n);
    lemma_civil_unique(c.0, c.1, c.2, y, m, d);
}

/// Calls chrono's `NaiveDate::from_ymd_opt` and reads the day number of what
/// comes back. Claimed: chrono accepts exactly the days of the proleptic
/// Gregorian calendar in its range of years, and numbers them from January 1
/// of year 1, which is day 1.
#[verifier::external_body]
fn raw_day_number(year: i32, month: u32, day: u32) -> (r: Option<i32>)
    ensures
        r is Some == valid_civil(year as int, month as int, day as int),
        r matches Some(n) ==> n == day_number(year as int, month as int, day as int),
{
    chrono::NaiveDate::from_ymd_opt(year, month, day).map(|d| chrono::Datelike::num_days_from_ce(&d))
}

/// Calls chrono's `NaiveDate::from_num_days_from_ce_opt` and reads year, month
/// and day of what comes back. Claimed: for a day number in range chrono gives
/// a day of the calendar that has this number.
#[verifier::external_body]
fn raw_civil(days: i32) -> (r: Option<(i32, u32, u32)>)
    requires
        MIN_DAY <= days <= MAX_DAY,
    ensures
        r is Some,
        r matches Some(c) ==> valid_civil(c.0 as int, c.1 as int, c.2 as int),
        r matches Some(c) ==> day_number(c.0 as int, c.1 as int, c.2 as int) == days,
{
    chrono::NaiveDate::from_num_days_from_ce_opt(days).map(
        |d| (chrono::Datelike::year(&d), chrono::Datelike::month(&d), chrono::Datelike::day(&d)),
    )
}

/// Calls chrono's `NaiveDate::weekday`. Claimed: day 1 is a Monday and the
/// days of the week follow each other without a gap.
#[verifier::external_body]
fn raw_weekday(days: i32) -> (r: Option<u32>)
    requires
        MIN_DAY <= days <= MAX_DAY,
    ensures
        r is Some,
        r matches Some(w) ==> w == weekday_of(days as int),
{
    chrono::NaiveDate::from_num_days_from_ce_opt(days).map(
        |d| chrono::Datelike::weekday(&d).num_days_from_monday(),
    )
}

/// A day of the calendar.
#[derive(Clone, Copy, Debug, PartialEq, Eq, PartialOrd, Ord, Hash, Structural)]
pub struct Date {
    days: i32,
}

impl View for Date {
    type V = int;

    /// The day number.
    closed spec fn view(&self) -> int {
        self.days as int
    }
}

impl Date {
    #[verifier::type_invariant]
    pub closed spec fn wf(self) -> bool {
        MIN_DAY <= self.days <= MAX_DAY
    }

    /// The date with day number `n`.
    pub closed spec fn of_day(n: int) -> Date {
        Date { days: n as i32 }
    }

    pub open spec fn spec_year(self) -> int {
        civil_of(self@).0
    }

    pub open spec fn spec_month(self) -> int {
        civil_of(self@).1
    }

    pub open spec fn spec_day(self) -> int {
        civil_of(self@).2
    }

    /// A date is known by its day number, which lies in chrono's range.
    pub proof fn lemma_view(self)
        requires
            self.wf(),
        ensures
            MIN_DAY <= self@ <= MAX_DAY,
            Date::of_day(self@) == self,
    {
    }

    /// The date with a day number in range has that day number.
    pub proof fn lemma_of_day(n: int)
        requires
            MIN_DAY <= n <= MAX_DAY,
        ensures
            Date::of_day(n)@ == n,
            Date::of_day(n).wf(),
    {
    }

    /// The day given by year, month and day, or `None` where there is no such
    /// day.
    pub fn from_ymd(year: i32, month: u32, day: u32) -> (r: Option<Date>)
        ensures
            r is Some == valid_civil(year as int, month as int, day as int),
            r matches Some(d) ==> d@ == day_number(year as int, month as int, day as int) && d.wf(),
    {
        match raw_day_number(year, month, day) {
            Some(days) => {
                proof {
                    lemma_day_in_range(year as int, month as int, day as int);
                }
                Some(Date { days })
            },
            None => None,
        }
    }

    /// The day with the given number, or `None` outside `MIN_DAY..=MAX_DAY`.
    pub fn from_num_days_from_ce(days: i32) -> (r: Option<Date>)
        ensures
            r is Some == (MIN_DAY <= days <= MAX_DAY),
            r matches Some(d) ==> d@ == days && d.wf(),
    {
        if MIN_DAY <= days && days <= MAX_DAY {
            Some(Date { days })
        } else {
            None
        }
    }

    pub fn num_days_from_ce(&self) -> (r: i32)
        ensures
            r == self@,
            MIN_DAY <= r <= MAX_DAY,
    {
        proof {
            use_type_invariant(self);
        }
        self.days
    }

    /// Year, month and day.
    pub fn civil(&self) -> (r: (i32, u32, u32))
        ensures
            (r.0 as int, r.1 as int, r.2 as int) == civil_of(self@),
            valid_civil(r.0 as int, r.1 as int, r.2 as int),
            day_number(r.0 as int, r.1 as int, r.2 as int) == self@,
    {
        proof {
            use_type_invariant(self);
        }
        let c = raw_civil(self.days).unwrap();
        proof {
            lemma_civil_of(self.days as int, c.0 as int, c.1 as int, c.2 as int);
        }
        c
    }

    pub fn year(&self) -> (r: i32)
        ensures
            r == self.spec_year(),
            MIN_YEAR <= r <= MAX_YEAR,
    {
        self.civil().0
    }

    pub fn month(&self) -> (r: u32)
        ensures
            r == self.spec_month(),
            1 <= r <= 12,
    {
        self.civil().1
    }

    pub fn day(&self) -> (r: u32)
        ensures
            r == self.spec_day(),
            1 <= r <= 31,
    {
        self.civil().2
    }

    /// Day of the week, Monday being 0.
    pub fn weekday(&self) -> (r: u32)
        ensures
            r == weekday_of(self@),
            r < 7,
    {
        proof {
            use_type_invariant(self);
        }
        raw_weekday(self.days).unwrap()
    }

    /// The day `n` days later (earlier for a negative `n`), or `None` where
    /// that leaves the range of dates.
    pub fn checked_add_days(&self, n: i32) -> (r: Option<Date>)
        ensures
            r is Some == (MIN_DAY <= self@ + n <= MAX_DAY),
            r matches Some(d) ==> d@ == self@ + n && d.wf(),
    {
        proof {
            use_type_invariant(self);
        }
        if n >= MIN_DAY - MAX_DAY && n <= MAX_DAY - MIN_DAY {
            let days: i32 = self.days + n;
            Date::from_num_days_from_ce(days)
        } else {
            None
        }
    }

    pub fn succ(&self) -> (r: Option<Date>)
        ensures
            r is Some == (self@ < MAX_DAY),
            r matches Some(d) ==> d@ == self@ + 1 && d.wf(),
    {
        proof {
            use_type_invariant(self);
        }
        self.checked_add_days(1)
    }

    pub fn pred(&self) -> (r: Option<Date>)
        ensures
            r is Some == (self@ > MIN_DAY),
            r matches Some(d) ==> d@ == self@ - 1 && d.wf(),
    {
        proof {
            use_type_invariant(self);
        }
        self.checked_add_days(-1)
    }

    pub fn lt(&self, other: &Date) -> (r: bool)
        ensures
            r == (self@ < other@),
    {
        self.days < other.days
    }

    pub fn le(&self, other: &Date) -> (r: bool)
        ensures
            r == (self@ <= other@),
    {
        self.days <= other.days
    }

    pub fn same(&self, other: &Date) -> (r: bool)
        ensures
            r == (self@ == other@),
            r == (*self == *other),
    {
        self.days == other.days
    }

    /// This day at `hour:minute` on the exchange's clock.
    pub fn and_hm(&self, hour: u32, minute: u32) -> (r: DateTime)
        requires
            hour < 24,
            minute < 60,
        ensures
            r.date() == *self,
            r.minute_of_day() == hour * 60 + minute,
            r.wf(),
            r == DateTime::at(self@, hour * 60 + minute),
    {
        proof {
            use_type_invariant(self);
        }
        DateTime { date: *self, minute: hour * 60 + minute }
    }

    /// This day at the given minute of the day.
    pub fn at_minute(&self, minute: u32) -> (r: DateTime)
        requires
            minute < MINUTES_PER_DAY,
        ensures
            r.date() == *self,
            r.minute_of_day() == minute,
            r.wf(),
            r == DateTime::at(self@, minute as int),
    {
        proof {
            use_type_invariant(self);
        }
        DateTime { date: *self, minute }
    }
}

/// A minute on the exchange's clock.
#[derive(Clone, Copy, Debug, PartialEq, Eq, PartialOrd, Ord, Hash, Structural)]
pub struct DateTime {
    date: Date,
    minute: u32,
}

impl View for DateTime {
    type V = int;

    /// Minutes since the start of day 0.
    closed spec fn view(&self) -> int {
        self.date@ * 1440 + self.minute
    }
}

impl DateTime {
    #[verifier::type_invariant]
    pub closed spec fn wf(self) -> bool {
        self.date.wf() && self.minute < MINUTES_PER_DAY
    }

    pub closed spec fn date(self) -> Date {
        self.date
    }

    pub closed spec fn minute_of_day(self) -> int {
        self.minute as int
    }

    /// Minute `minute` of the day with number `day`.
    pub closed spec fn at(day: int, minute: int) -> DateTime {
        DateTime { date: Date::of_day(day), minute: minute as u32 }
    }

    /// The instant `t` minutes after the start of day 0.
    pub open spec fn of_minutes(t: int) -> DateTime {
        DateTime::at(t / 1440, t % 1440)
    }

    /// An instant is known by its day and minute.
    pub proof fn lemma_at(self)
        requires
            self.wf(),
        ensures
            DateTime::at(self.date()@, self.minute_of_day()) == self,
            DateTime::of_minutes(self@) == self,
    {
        self.date.lemma_view();
    }

    /// The instant at a day and minute in range has that day and minute.
    pub proof fn lemma_at_parts(day: int, minute: int)
        requires
            MIN_DAY <= day <= MAX_DAY,
            0 <= minute < 1440,
        ensures
            DateTime::at(day, minute).wf(),
            DateTime::at(day, minute).date()@ == day,
            DateTime::at(day, minute).minute_of_day() == minute,
            DateTime::at(day, minute)@ == day * 1440 + minute,
    {
        Date::lemma_of_day(day);
    }

    /// The view is the day number times 1440 plus the minute of the day, and
    /// tells date and minute apart.
    pub proof fn lemma_view(self)
        requires
            self.wf(),
        ensures
            self@ == self.date()@ * 1440 + self.minute_of_day(),
            0 <= self.minute_of_day() < 1440,
            self.date().wf(),
    {
    }

    /// Equal views mean equal instants.
    pub proof fn lemma_view_injective(a: DateTime, b: DateTime)
        requires
            a.wf(),
            b.wf(),
            a@ == b@,
        ensures
            a == b,
    {
    }

    pub fn get_date(&self) -> (r: Date)
        ensures
            r == self.date(),
            r.wf(),
    {
        proof {
            use_type_invariant(self);
        }
        self.date
    }

    pub fn get_minute_of_day(&self) -> (r: u32)
        ensures
            r == self.minute_of_day(),
            r < MINUTES_PER_DAY,
    {
        proof {
            use_type_invariant(self);
        }
        self.minute
    }

    pub fn hour(&self) -> (r: u32)
        ensures
            r == self.minute_of_day() / 60,
    {
        self.minute / 60
    }

    pub fn minute(&self) -> (r: u32)
        ensures
            r == self.minute_of_day() % 60,
    {
        self.minute % 60
    }

    pub fn lt(&self, other: &DateTime) -> (r: bool)
        ensures
            r == (self@ < other@),
    {
        proof {
            use_type_invariant(self);
            use_type_invariant(other);
        }
        self.date.lt(&other.date) || (self.date.same(&other.date) && self.minute < other.minute)
    }

    pub fn le(&self, other: &DateTime) -> (r: bool)
        ensures
            r == (self@ <= other@),
    {
        !other.lt(self)
    }

    pub fn same(&self, other: &DateTime) -> (r: bool)
        ensures
            r == (self@ == other@),
            r == (*self == *other),
    {
        proof {
            use_type_invariant(self);
            use_type_invariant(other);
        }
        self.date.same(&other.date) && self.minute == other.minute
    }

    /// The instant `span` later, or `None` where that leaves the range of
    /// dates.
    pub fn checked_add(&self, span: Duration) -> (r: Option<DateTime>)
        ensures
            r is Some == (self@ + span@ < (MAX_DAY + 1) * 1440),
            r matches Some(t) ==> t@ == self@ + span@ && t.wf(),
    {
        proof {
            use_type_invariant(self);
        }
        let limit: u64 = 200_000_000 * 1440;
        if span.minutes >= limit {
            None
        } else {
            let total: u64 = span.minutes + self.minute as u64;
            let days: u64 = total / 1440;
            let minute: u64 = total % 1440;
            match self.date.checked_add_days(days as i32) {
                Some(date) => Some(DateTime { date, minute: minute as u32 }),
                None => None,
            }
        }
    }
}

/// What the hours of the exchange make of an instant.
pub trait MarketTimeExt {
    spec fn spec_minute(&self) -> int;

    /// From the opening minute up to, not including, the closing minute.
    fn is_regular_hours(&self) -> (r: bool)
        ensures
            r == (OPENING_MINUTE <= self.spec_minute() < CLOSING_MINUTE),
    ;

    fn is_opening(&self) -> (r: bool)
        ensures
            r == (self.spec_minute() == OPENING_MINUTE),
    ;

    fn is_closing(&self) -> (r: bool)
        ensures
            r == (self.spec_minute() == CLOSING_MINUTE),
    ;
}

impl MarketTimeExt for DateTime {
    open spec fn spec_minute(&self) -> int {
        self.minute_of_day()
    }

    fn is_regular_hours(&self) -> (r: bool) {
        OPENING_MINUTE <= self.minute && self.minute < CLOSING_MINUTE
    }

    fn is_opening(&self) -> (r: bool) {
        self.minute == OPENING_MINUTE
    }

    fn is_closing(&self) -> (r: bool) {
        self.minute == CLOSING_MINUTE
    }
}

/// A span of whole minutes.
#[derive(Clone, Copy, Debug, PartialEq, Eq, PartialOrd, Ord, Hash, Structural)]
pub struct Duration {
    minutes: u64,
}

impl View for Duration {
    type V = int;

    /// The number of minutes.
    closed spec fn view(&self) -> int {
        self.minutes as int
    }
}

impl Duration {
    pub fn zero() -> (r: Duration)
        ensures
            r@ == 0,
    {
        Duration { minutes: 0 }
    }

    pub fn minutes(n: u64) -> (r: Duration)
        ensures
            r@ == n,
    {
        Duration { minutes: n }
    }

    pub fn hours(n: u32) -> (r: Duration)
        ensures
            r@ == n * 60,
    {
        Duration { minutes: n as u64 * 60 }
    }

    pub fn days(n: u32) -> (r: Duration)
        ensures
            r@ == n * 1440,
    {
        Duration { minutes: n as u64 * 1440 }
    }

    pub fn num_minutes(&self) -> (r: u64)
        ensures
            r == self@,
    {
        self.minutes
    }
}

} // verus!
