//! Business days of the New York Stock Exchange.
//!
//! A business day is a weekday that is not a holiday. The holiday rules are the
//! exchange's: fixed and floating holidays with the weekend observance rule of
//! the United States, Good Friday, the presidential election days of the past,
//! and a list of one-off closures. The date of Easter is taken from the `bdays`
//! crate.
use crate::time::{
    civil_of, day_number, days_in_month, lemma_day_in_range, valid_civil, weekday_of, Date,
    MAX_DAY, MAX_YEAR, MIN_DAY, MIN_YEAR, MONDAY, SATURDAY, SUNDAY, THURSDAY, TUESDAY,
};
use vstd::prelude::*;

verus! {

/// Day number of Easter Sunday in year `y` as the `bdays` crate computes it:
/// from the epact of the year to the paschal full moon, and on to the Sunday
/// after it. `None` before 1582 and beyond the years that dates can hold.
/// The one remainder whose dividend can be negative is taken towards zero, as
/// machine integers take it.
pub open spec fn easter_day_number(y: int) -> Option<int> {
    if y < 1582 || y > MAX_YEAR {
        None
    } else {
        let century = y / 100 + 1;
        let golden = y % 19;
        let shifted = 14 + 11 * golden - (3 * century) / 4 + (5 + 8 * century) / 25;
        let epact = if shifted >= 0 {
            shifted % 30
        } else {
            -((-shifted) % 30)
        };
        let adjusted = if epact == 0 || (epact == 1 && 10 < golden) {
            epact + 1
        } else {
            epact
        };
        let moon = day_number(y, 4, 19) - adjusted;
        Some(moon + 7 - moon % 7)
    }
}

/// Calls `bdays::easter::easter_num_days_from_ce`. Claimed: the crate gives
/// the day number that `easter_day_number` spells out, and none where that
/// gives none.
#[verifier::external_body]
fn raw_easter(year: i32) -> (r: Option<i32>)
    ensures
        r is Some == easter_day_number(year as int) is Some,
        r matches Some(e) ==> Some(e as int) == easter_day_number(year as int),
{
    bdays::easter::easter_num_days_from_ce(year).ok()
}

/// The day on which a holiday that falls on day `n` is observed: the Friday
/// before for a Saturday, the Monday after for a Sunday.
pub open spec fn observed(n: int) -> int {
    if weekday_of(n) == SATURDAY {
        n - 1
    } else if weekday_of(n) == SUNDAY {
        n + 1
    } else {
        n
    }
}

/// Day number of the `k`-th day of the week `w` of month `m`, counted from the
/// start of the month.
pub open spec fn nth_weekday_ascending(w: int, y: int, m: int, k: int) -> int {
    let anchor = day_number(y, m, 1);
    anchor + (w + 7 - weekday_of(anchor)) % 7 + 7 * (k - 1)
}

/// Day number of the `k`-th day of the week `w` of month `m`, counted from the
/// end of the month.
pub open spec fn nth_weekday_descending(w: int, y: int, m: int, k: int) -> int {
    let anchor = day_number(y, m, days_in_month(y, m));
    anchor - (weekday_of(anchor) + 7 - w) % 7 - 7 * (k - 1)
}

/// The one-off closures, each written as `year * 10000 + month * 100 + day`.
pub open spec fn is_special_closure_code(c: int) -> bool {
    ||| c == 20181205
    ||| c == 20121029
    ||| c == 20121030
    ||| c == 20070102
    ||| c == 20010911
    ||| c == 20010912
    ||| c == 20010913
    ||| c == 20010914
    ||| c == 19940427
    ||| c == 19850927
    ||| c == 19770714
    ||| c == 19730125
    ||| c == 19721225
    ||| c == 19690721
    ||| c == 19690331
    ||| c == 19690210
    ||| c == 19680705
    ||| c == 19680612
    ||| c == 19680619
    ||| c == 19680626
    ||| c == 19680703
    ||| c == 19680710
    ||| c == 19680717
    ||| c == 19680724
    ||| c == 19680731
    ||| c == 19680807
    ||| c == 19680814
    ||| c == 19680821
    ||| c == 19680828
    ||| c == 19680904
    ||| c == 19680911
    ||| c == 19680918
    ||| c == 19680925
    ||| c == 19681002
    ||| c == 19681009
    ||| c == 19681016
    ||| c == 19681023
    ||| c == 19681030
    ||| c == 19681106
    ||| c == 19681113
    ||| c == 19681120
    ||| c == 19681127
    ||| c == 19681204
    ||| c == 19681211
    ||| c == 19681218
    ||| c == 19681225
    ||| c == 19680409
    ||| c == 19631125
    ||| c == 19610529
    ||| c == 19581226
    ||| c == 19651224
    ||| c == 19561224
    ||| c == 19541224
}

pub open spec fn is_special_closure(y: int, m: int, d: int) -> bool {
    is_special_closure_code(y * 10000 + m * 100 + d)
}

/// Whether the presidential election-day rule closes the exchange: the first
/// Tuesday of November, every year up to 1968 and every fourth year up to
/// 1980.
pub open spec fn is_election_day(n: int, y: int, m: int, d: int) -> bool {
    (y <= 1968 || (y <= 1980 && y % 4 == 0)) && m == 11 && d <= 7 && weekday_of(n) == TUESDAY
}

/// Whether the exchange keeps day `n` as a holiday.
#[verifier::opaque]
pub open spec fn is_holiday_at(n: int) -> bool {
    let y = civil_of(n).0;
    let m = civil_of(n).1;
    let d = civil_of(n).2;
    ||| observed(day_number(y, 1, 1)) == n
    ||| (y >= 1998 && observed(nth_weekday_ascending(MONDAY as int, y, 1, 3)) == n)
    ||| observed(nth_weekday_ascending(MONDAY as int, y, 2, 3)) == n
    ||| (easter_day_number(y) matches Some(e) && e - 2 == n)
    ||| observed(nth_weekday_descending(MONDAY as int, y, 5, 1)) == n
    ||| (y >= 2022 && observed(day_number(y, 6, 19)) == n)
    ||| observed(day_number(y, 7, 4)) == n
    ||| observed(nth_weekday_ascending(MONDAY as int, y, 9, 1)) == n
    ||| observed(nth_weekday_ascending(THURSDAY as int, y, 11, 4)) == n
    ||| observed(day_number(y, 12, 25)) == n
    ||| is_election_day(n, y, m, d)
    ||| is_special_closure(y, m, d)
}

pub open spec fn is_weekend_at(n: int) -> bool {
    weekday_of(n) == SATURDAY || weekday_of(n) == SUNDAY
}

/// A weekday that is not a holiday.
pub open spec fn is_business_day_at(n: int) -> bool {
    !is_weekend_at(n) && !is_holiday_at(n)
}

/// The first business day at or after day `n`, if the calendar has one.
pub open spec fn first_business_day_from(n: int) -> Option<int>
    decreases MAX_DAY + 1 - n,
{
    if n > MAX_DAY {
        None
    } else if is_business_day_at(n) {
        Some(n)
    } else {
        first_business_day_from(n + 1)
    }
}

/// The last business day at or before day `n`, if the calendar has one.
pub open spec fn last_business_day_until(n: int) -> Option<int>
    decreases n - MIN_DAY + 1,
{
    if n < MIN_DAY {
        None
    } else if is_business_day_at(n) {
        Some(n)
    } else {
        last_business_day_until(n - 1)
    }
}

/// The business day `k` business days after day `n` (before, for a negative
/// `k`), stepping from one business day to the next.
pub open spec fn step_business_days(n: int, k: int) -> Option<int>
    decreases
            if k < 0 {
                -k
            } else {
                k
            },
{
    if k == 0 {
        Some(n)
    } else if k > 0 {
        match first_business_day_from(n + 1) {
            Some(next) => step_business_days(next, k - 1),
            None => None,
        }
    } else {
        match last_business_day_until(n - 1) {
            Some(prev) => step_business_days(prev, k + 1),
            None => None,
        }
    }
}

/// Day `n` rolled forward to a business day, then moved by `k` business days.
pub open spec fn advance_business_days_from(n: int, k: int) -> Option<int> {
    match first_business_day_from(n) {
        Some(b) => step_business_days(b, k),
        None => None,
    }
}

/// Number of business days `x` with `lo < x <= hi`.
pub open spec fn count_business_days(lo: int, hi: int) -> int
    decreases hi - lo,
{
    if hi <= lo {
        0
    } else {
        count_business_days(lo, hi - 1) + if is_business_day_at(hi) {
            1int
        } else {
            0int
        }
    }
}

/// Business days from `a` to `b`, both first rolled forward to a business day:
/// positive where `a` comes first, negative where `b` does.
pub open spec fn business_days_between_at(a: int, b: int) -> Option<int> {
    match (first_business_day_from(a), first_business_day_from(b)) {
        (Some(x), Some(y)) => Some(
            if x <= y {
                count_business_days(x, y)
            } else {
                -count_business_days(y, x)
            },
        ),
        _ => None,
    }
}

/// An observed holiday never falls on a weekend.
pub proof fn lemma_observed_on_weekday(n: int)
    ensures
        !is_weekend_at(observed(n)),
        n - 1 <= observed(n) <= n + 1,
{
}

/// Moving on from day `a` by the days that are missing to the day of the week
/// `w`, and then by whole weeks, ends on a day of the week `w`.
proof fn lemma_weekday_ahead(a: int, w: int, weeks: int)
    requires
        0 <= w < 7,
    ensures
        weekday_of(a + (w + 7 - weekday_of(a)) % 7 + 7 * weeks) == w,
        0 <= (w + 7 - weekday_of(a)) % 7 < 7,
{
}

/// Moving back from day `a` in the same way ends on a day of the week `w`.
proof fn lemma_weekday_back(a: int, w: int, weeks: int)
    requires
        0 <= w < 7,
    ensures
        weekday_of(a - (weekday_of(a) + 7 - w) % 7 - 7 * weeks) == w,
        0 <= (weekday_of(a) + 7 - w) % 7 < 7,
{
}

/// The `k`-th day of the week `w` of a month, counted from its start, is such
/// a day of the week and lies in the `k`-th run of seven days of the month.
pub proof fn lemma_nth_weekday_ascending(w: int, y: int, m: int, k: int)
    requires
        0 <= w < 7,
    ensures
        weekday_of(nth_weekday_ascending(w, y, m, k)) == w,
        day_number(y, m, 1) + 7 * (k - 1) <= nth_weekday_ascending(w, y, m, k) < day_number(
            y,
            m,
            1,
        ) + 7 * k,
{
    lemma_weekday_ahead(day_number(y, m, 1), w, k - 1);
}

/// The `k`-th day of the week `w` of a month, counted from its end, is such a
/// day of the week and lies in the `k`-th last run of seven days of the month.
pub proof fn lemma_nth_weekday_descending(w: int, y: int, m: int, k: int)
    requires
        0 <= w < 7,
    ensures
        weekday_of(nth_weekday_descending(w, y, m, k)) == w,
        day_number(y, m, days_in_month(y, m)) - 7 * k < nth_weekday_descending(w, y, m, k)
            <= day_number(y, m, days_in_month(y, m)) - 7 * (k - 1),
{
    lemma_weekday_back(day_number(y, m, days_in_month(y, m)), w, k - 1);
}

/// The first business day from a day on is a business day on or after it.
pub proof fn lemma_first_business_day_from(n: int)
    requires
        MIN_DAY <= n,
    ensures
        first_business_day_from(n) matches Some(b) ==> n <= b <= MAX_DAY && is_business_day_at(b),
    decreases MAX_DAY + 1 - n,
{
    if n <= MAX_DAY && !is_business_day_at(n) {
        lemma_first_business_day_from(n + 1);
    }
}

/// The last business day up to a day is a business day on or before it.
pub proof fn lemma_last_business_day_until(n: int)
    requires
        n <= MAX_DAY,
    ensures
        last_business_day_until(n) matches Some(b) ==> MIN_DAY <= b <= n && is_business_day_at(b),
    decreases n - MIN_DAY + 1,
{
    if n >= MIN_DAY && !is_business_day_at(n) {
        lemma_last_business_day_until(n - 1);
    }
}

/// There are no more business days than days.
pub proof fn lemma_count_business_days_bound(lo: int, hi: int)
    requires
        lo <= hi,
    ensures
        0 <= count_business_days(lo, hi) <= hi - lo,
    decreases hi - lo,
{
    if lo < hi {
        lemma_count_business_days_bound(lo, hi - 1);
    }
}

/// The day before the first of a month is the last of the month before.
proof fn lemma_month_end(y: int, m: int)
    requires
        1 <= m <= 11,
    ensures
        day_number(y, m + 1, 1) - 1 == day_number(y, m, days_in_month(y, m)),
{
}

fn special_closure_code(c: i64) -> (r: bool)
    ensures
        r == is_special_closure_code(c as int),
{
    c == 20181205 || c == 20121029 || c == 20121030 || c == 20070102 || c == 20010911 || c
        == 20010912 || c == 20010913 || c == 20010914 || c == 19940427 || c == 19850927 || c
        == 19770714 || c == 19730125 || c == 19721225 || c == 19690721 || c == 19690331 || c
        == 19690210 || c == 19680705 || c == 19680612 || c == 19680619 || c == 19680626 || c
        == 19680703 || c == 19680710 || c == 19680717 || c == 19680724 || c == 19680731 || c
        == 19680807 || c == 19680814 || c == 19680821 || c == 19680828 || c == 19680904 || c
        == 19680911 || c == 19680918 || c == 19680925 || c == 19681002 || c == 19681009 || c
        == 19681016 || c == 19681023 || c == 19681030 || c == 19681106 || c == 19681113 || c
        == 19681120 || c == 19681127 || c == 19681204 || c == 19681211 || c == 19681218 || c
        == 19681225 || c == 19680409 || c == 19631125 || c == 19610529 || c == 19581226 || c
        == 19651224 || c == 19561224 || c == 19541224
}

/// Day number of the day on which a holiday that falls on `date` is observed.
fn observed_day(date: Date) -> (r: i32)
    ensures
        r == observed(date@),
{
    let n: i32 = date.num_days_from_ce();
    let w: u32 = date.weekday();
    if w == SATURDAY {
        n - 1
    } else if w == SUNDAY {
        n + 1
    } else {
        n
    }
}

/// Day number on which the holiday on `month`/`day` of `year` is observed.
fn observed_fixed(year: i32, month: u32, day: u32) -> (r: i32)
    requires
        valid_civil(year as int, month as int, day as int),
    ensures
        r == observed(day_number(year as int, month as int, day as int)),
{
    observed_day(Date::from_ymd(year, month, day).unwrap())
}

/// Last day of a month.
pub fn end_of_month(year: i32, month: u32) -> (r: Date)
    requires
        MIN_YEAR <= year <= MAX_YEAR,
        1 <= month <= 12,
    ensures
        r@ == day_number(year as int, month as int, days_in_month(year as int, month as int)),
{
    if month == 12 {
        Date::from_ymd(year, 12, 31).unwrap()
    } else {
        let next = Date::from_ymd(year, month + 1, 1).unwrap();
        proof {
            lemma_month_end(year as int, month as int);
            assert(valid_civil(
                year as int,
                month as int,
                days_in_month(year as int, month as int),
            ));
        }
        let n: i32 = next.num_days_from_ce();
        proof {
            lemma_day_in_range(
                year as int,
                month as int,
                days_in_month(year as int, month as int),
            );
        }
        Date::from_num_days_from_ce(n - 1).unwrap()
    }
}

/// Day on which the `k`-th day of the week `w` of a month is observed, counted
/// from the start of the month.
fn observed_nth_ascending(w: u32, year: i32, month: u32, k: u32) -> (r: i32)
    requires
        w < 7,
        MIN_YEAR <= year <= MAX_YEAR,
        1 <= month <= 12,
        1 <= k <= 4,
    ensures
        r == observed(nth_weekday_ascending(w as int, year as int, month as int, k as int)),
{
    let anchor = Date::from_ymd(year, month, 1).unwrap();
    let offset: u32 = (w + 7 - anchor.weekday()) % 7 + 7 * (k - 1);
    let day: u32 = 1 + offset;
    proof {
        assert(day <= 28);
        assert(valid_civil(year as int, month as int, day as int));
    }
    observed_fixed(year, month, day)
}

/// Day on which the last day of the week `w` of a month is observed.
fn observed_last(w: u32, year: i32, month: u32) -> (r: i32)
    requires
        w < 7,
        MIN_YEAR <= year <= MAX_YEAR,
        1 <= month <= 12,
    ensures
        r == observed(nth_weekday_descending(w as int, year as int, month as int, 1)),
{
    let anchor = end_of_month(year, month);
    let offset: u32 = (anchor.weekday() + 7 - w) % 7;
    let n: i32 = anchor.num_days_from_ce();
    proof {
        lemma_day_in_range(
            year as int,
            month as int,
            days_in_month(year as int, month as int) - 6,
        );
    }
    observed_day(Date::from_num_days_from_ce(n - offset as i32).unwrap())
}

/// The holiday calendar of the New York Stock Exchange.
#[derive(Clone, Copy, Debug, PartialEq, Eq, Structural)]
pub struct NyseCalendar;

impl NyseCalendar {
    /// Whether the exchange keeps `date` as a holiday.
    pub fn is_holiday(&self, date: Date) -> (r: bool)
        ensures
            r == is_holiday_at(date@),
    {
        proof {
            reveal(is_holiday_at);
        }
        let (yy, mm, dd) = date.civil();
        let n: i32 = date.num_days_from_ce();
        // New Year's Day
        if observed_fixed(yy, 1, 1) == n {
            return true;
        }
        // Birthday of Martin Luther King, Jr.
        if yy >= 1998 && observed_nth_ascending(MONDAY, yy, 1, 3) == n {
            return true;
        }
        // Washington's Birthday
        if observed_nth_ascending(MONDAY, yy, 2, 3) == n {
            return true;
        }
        // Good Friday
        match raw_easter(yy) {
            Some(e) => {
                if e > i32::MIN + 2 && e - 2 == n {
                    return true;
                }
            },
            None => {},
        }
        // Memorial Day
        if observed_last(MONDAY, yy, 5) == n {
            return true;
        }
        // Juneteenth
        if yy >= 2022 && observed_fixed(yy, 6, 19) == n {
            return true;
        }
        // Independence Day
        if observed_fixed(yy, 7, 4) == n {
            return true;
        }
        // Labor Day
        if observed_nth_ascending(MONDAY, yy, 9, 1) == n {
            return true;
        }
        // Thanksgiving Day
        if observed_nth_ascending(THURSDAY, yy, 11, 4) == n {
            return true;
        }
        // Christmas
        if observed_fixed(yy, 12, 25) == n {
            return true;
        }
        // Presidential election days
        let election_year = yy <= 1968 || (yy <= 1980 && (yy as u32) % 4 == 0);
        if election_year && mm == 11 && dd <= 7 && date.weekday() == TUESDAY {
            return true;
        }
        // Special closures
        let code: i64 = yy as i64 * 10000 + mm as i64 * 100 + dd as i64;
        special_closure_code(code)
    }

    pub fn is_weekend(&self, date: Date) -> (r: bool)
        ensures
            r == is_weekend_at(date@),
    {
        let w: u32 = date.weekday();
        w == SATURDAY || w == SUNDAY
    }

    /// Whether `date` is a weekday that is not a holiday.
    pub fn is_business_day(&self, date: Date) -> (r: bool)
        ensures
            r == is_business_day_at(date@),
    {
        !self.is_weekend(date) && !self.is_holiday(date)
    }

    /// `date` itself where it is a business day, else the nearest business day
    /// after it (`forward`) or before it; `None` where the calendar ends
    /// first.
    pub fn to_business_day(&self, date: Date, forward: bool) -> (r: Option<Date>)
        ensures
            r is Some == (if forward {
                first_business_day_from(date@)
            } else {
                last_business_day_until(date@)
            }) is Some,
            r matches Some(d) ==> Some(d@) == (if forward {
                first_business_day_from(date@)
            } else {
                last_business_day_until(date@)
            }) && is_business_day_at(d@),
    {
        let mut current = date;
        loop
            invariant
                forward ==> first_business_day_from(current@) == first_business_day_from(date@),
                !forward ==> last_business_day_until(current@) == last_business_day_until(date@),
            decreases
                    if forward {
                        MAX_DAY - current@
                    } else {
                        current@ - MIN_DAY
                    },
        {
            proof {
                use_type_invariant(&current);
                current.lemma_view();
            }
            if self.is_business_day(current) {
                return Some(current);
            }
            let next = if forward {
                current.succ()
            } else {
                current.pred()
            };
            match next {
                Some(d) => {
                    current = d;
                },
                None => {
                    proof {
                        reveal_with_fuel(first_business_day_from, 2);
                        reveal_with_fuel(last_business_day_until, 2);
                    }
                    return None;
                },
            }
        }
    }

    /// The nearest business day strictly after `date` (`forward`) or strictly
    /// before it.
    pub fn adjacent_business_day(&self, date: Date, forward: bool) -> (r: Option<Date>)
        ensures
            r is Some == (if forward {
                first_business_day_from(date@ + 1)
            } else {
                last_business_day_until(date@ - 1)
            }) is Some,
            r matches Some(d) ==> Some(d@) == (if forward {
                first_business_day_from(date@ + 1)
            } else {
                last_business_day_until(date@ - 1)
            }) && is_business_day_at(d@) && (forward ==> d@ > date@) && (!forward ==> d@ < date@),
    {
        proof {
            use_type_invariant(&date);
            date.lemma_view();
            lemma_first_business_day_from(date@ + 1);
            lemma_last_business_day_until(date@ - 1);
        }
        let from = if forward {
            date.succ()
        } else {
            date.pred()
        };
        match from {
            Some(d) => self.to_business_day(d, forward),
            None => None,
        }
    }

    /// The business day `count` business days after `date` (before, for a
    /// negative `count`), `date` being rolled forward to a business day first.
    pub fn advance_business_days(&self, date: Date, count: i32) -> (r: Option<Date>)
        ensures
            r is Some == advance_business_days_from(date@, count as int) is Some,
            r matches Some(d) ==> Some(d@) == advance_business_days_from(date@, count as int),
    {
        let start = match self.to_business_day(date, true) {
            Some(d) => d,
            None => {
                return None;
            },
        };
        let forward = count > 0;
        let mut current = start;
        let mut left: i32 = count;
        while left != 0
            invariant
                forward == (count > 0),
                first_business_day_from(date@) == Some(start@),
                forward ==> 0 <= left <= count,
                !forward ==> count <= left <= 0,
                step_business_days(current@, left as int) == step_business_days(
                    start@,
                    count as int,
                ),
            decreases
                    if left < 0 {
                        -left
                    } else {
                        left as int
                    },
        {
            match self.adjacent_business_day(current, forward) {
                Some(d) => {
                    current = d;
                    if forward {
                        left = left - 1;
                    } else {
                        left = left + 1;
                    }
                },
                None => {
                    proof {
                        assert(step_business_days(current@, left as int) is None);
                        assert(first_business_day_from(date@) == Some(start@));
                    }
                    return None;
                },
            }
        }
        proof {
            assert(first_business_day_from(date@) == Some(start@));
        }
        Some(current)
    }

    /// Number of business days from `a` to `b`, both rolled forward to a
    /// business day first; negative where `b` comes first.
    pub fn business_days_between(&self, a: Date, b: Date) -> (r: Option<i32>)
        ensures
            r is Some == business_days_between_at(a@, b@) is Some,
            r matches Some(n) ==> Some(n as int) == business_days_between_at(a@, b@),
    {
        let x = match self.to_business_day(a, true) {
            Some(d) => d,
            None => {
                return None;
            },
        };
        let y = match self.to_business_day(b, true) {
            Some(d) => d,
            None => {
                return None;
            },
        };
        if x.le(&y) {
            Some(self.count_between(x, y))
        } else {
            Some(-self.count_between(y, x))
        }
    }

    /// Number of business days after `lo` up to and including `hi`.
    fn count_between(&self, lo: Date, hi: Date) -> (r: i32)
        requires
            lo@ <= hi@,
        ensures
            r == count_business_days(lo@, hi@),
            0 <= r <= hi@ - lo@,
    {
        let mut count: i32 = 0;
        let mut current = lo;
        proof {
            use_type_invariant(&lo);
            use_type_invariant(&hi);
            lo.lemma_view();
            hi.lemma_view();
        }
        while current.lt(&hi)
            invariant
                lo@ <= current@ <= hi@,
                MIN_DAY <= lo@,
                hi@ <= MAX_DAY,
                count == count_business_days(lo@, current@),
                0 <= count <= current@ - lo@,
            decreases hi@ - current@,
        {
            let next = current.succ().unwrap();
            if self.is_business_day(next) {
                count = count + 1;
            }
            current = next;
        }
        count
    }
}

} // verus!
