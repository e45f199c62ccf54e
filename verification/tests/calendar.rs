use backtester::calendar::NyseCalendar;
use backtester::time::Date;

fn ymd(y: i32, m: u32, d: u32) -> Date {
    Date::from_ymd(y, m, d).unwrap()
}

const CAL: NyseCalendar = NyseCalendar;

fn known_holidays() -> Vec<Date> {
    vec![
        // New Years
        ymd(2021, 1, 1),
        ymd(2023, 1, 2),
        // MLK
        ymd(2021, 1, 18),
        ymd(2022, 1, 17),
        ymd(2023, 1, 16),
        // Presidents' day
        ymd(2021, 2, 15),
        ymd(2022, 2, 21),
        ymd(2023, 2, 20),
        // Good Friday
        ymd(2021, 4, 2),
        ymd(2022, 4, 15),
        ymd(2023, 4, 7),
        // Memorial Day
        ymd(2021, 5, 31),
        ymd(2022, 5, 30),
        ymd(2023, 5, 29),
        // Juneteenth
        ymd(2022, 6, 20),
        ymd(2023, 6, 19),
        // Independence Day
        ymd(2021, 7, 5),
        ymd(2022, 7, 4),
        ymd(2023, 7, 4),
        // Labor day
        ymd(2021, 9, 6),
        ymd(2022, 9, 5),
        ymd(2023, 9, 4),
        // Thanksgiving
        ymd(2021, 11, 25),
        ymd(2022, 11, 24),
        ymd(2023, 11, 23),
        // Christmas Day
        ymd(2021, 12, 24),
        ymd(2022, 12, 26),
        ymd(2023, 12, 25),
    ]
}

#[test]
fn holidays() {
    let known = known_holidays();
    let mut date = ymd(2021, 1, 1);
    while date < ymd(2024, 1, 1) {
        if known.contains(&date) {
            assert!(CAL.is_holiday(date), "{:?} is not a holiday", date.civil())
        } else {
            assert!(!CAL.is_holiday(date), "{:?} is a holiday", date.civil())
        }
        date = date.succ().unwrap();
    }
}

#[test]
fn one_off_closures_are_holidays() {
    for (y, m, d) in [
        (2018, 12, 5),
        (2012, 10, 29),
        (2012, 10, 30),
        (2007, 1, 2),
        (2001, 9, 11),
        (2001, 9, 12),
        (2001, 9, 13),
        (2001, 9, 14),
        (1994, 4, 27),
        (1985, 9, 27),
        (1977, 7, 14),
        (1973, 1, 25),
        (1972, 12, 25),
        (1969, 7, 21),
        (1969, 3, 31),
        (1969, 2, 10),
        (1968, 7, 5),
        (1968, 6, 12),
        (1968, 12, 18),
        (1968, 4, 9),
        (1963, 11, 25),
        (1961, 5, 29),
        (1958, 12, 26),
        (1965, 12, 24),
        (1956, 12, 24),
        (1954, 12, 24),
    ] {
        assert!(CAL.is_holiday(ymd(y, m, d)), "{}-{}-{}", y, m, d);
    }
    assert!(!CAL.is_holiday(ymd(2001, 9, 10)));
    assert!(!CAL.is_holiday(ymd(2012, 10, 31)));
}

#[test]
fn election_days_were_holidays() {
    assert!(CAL.is_holiday(ymd(1968, 11, 5)));
    assert!(CAL.is_holiday(ymd(1967, 11, 7)));
    assert!(CAL.is_holiday(ymd(1972, 11, 7)));
    assert!(CAL.is_holiday(ymd(1980, 11, 4)));
    assert!(!CAL.is_holiday(ymd(1973, 11, 6)));
    assert!(!CAL.is_holiday(ymd(1984, 11, 6)));
    assert!(!CAL.is_holiday(ymd(1968, 11, 12)));
}

#[test]
fn rules_start_in_their_years() {
    // Martin Luther King Day from 1998 on
    assert!(!CAL.is_holiday(ymd(1997, 1, 20)));
    assert!(CAL.is_holiday(ymd(1998, 1, 19)));
    // Juneteenth from 2022 on
    assert!(!CAL.is_holiday(ymd(2021, 6, 18)));
    assert!(CAL.is_holiday(ymd(2022, 6, 20)));
    // no Good Friday is known before 1582
    assert!(!CAL.is_holiday(ymd(1500, 4, 17)));
}

#[test]
fn business_days_are_weekdays_without_holidays() {
    assert!(!CAL.is_business_day(ymd(2021, 1, 1)));
    assert!(!CAL.is_business_day(ymd(2021, 1, 2)));
    assert!(!CAL.is_business_day(ymd(2021, 1, 3)));
    assert!(CAL.is_business_day(ymd(2021, 1, 4)));
    assert!(CAL.is_weekend(ymd(2021, 1, 2)));
    assert!(!CAL.is_weekend(ymd(2021, 1, 1)));
}

#[test]
fn days_roll_to_business_days() {
    assert_eq!(CAL.to_business_day(ymd(2021, 1, 1), true), Some(ymd(2021, 1, 4)));
    assert_eq!(CAL.to_business_day(ymd(2021, 1, 1), false), Some(ymd(2020, 12, 31)));
    assert_eq!(CAL.to_business_day(ymd(2021, 1, 4), true), Some(ymd(2021, 1, 4)));
    assert_eq!(CAL.to_business_day(ymd(2021, 1, 4), false), Some(ymd(2021, 1, 4)));
    assert_eq!(CAL.adjacent_business_day(ymd(2021, 1, 4), true), Some(ymd(2021, 1, 5)));
    assert_eq!(CAL.adjacent_business_day(ymd(2021, 1, 4), false), Some(ymd(2020, 12, 31)));
    // September 11 to 16, 2001: four closures and a weekend
    assert_eq!(CAL.adjacent_business_day(ymd(2001, 9, 10), true), Some(ymd(2001, 9, 17)));
}

#[test]
fn business_days_are_stepped_over() {
    assert_eq!(CAL.advance_business_days(ymd(2021, 1, 1), 0), Some(ymd(2021, 1, 4)));
    assert_eq!(CAL.advance_business_days(ymd(2021, 1, 1), 1), Some(ymd(2021, 1, 5)));
    assert_eq!(CAL.advance_business_days(ymd(2021, 1, 4), 1), Some(ymd(2021, 1, 5)));
    assert_eq!(CAL.advance_business_days(ymd(2021, 1, 4), 5), Some(ymd(2021, 1, 11)));
    assert_eq!(CAL.advance_business_days(ymd(2021, 1, 5), -1), Some(ymd(2021, 1, 4)));
    assert_eq!(CAL.advance_business_days(ymd(2021, 1, 4), -1), Some(ymd(2020, 12, 31)));
    assert_eq!(CAL.advance_business_days(ymd(2021, 1, 15), 1), Some(ymd(2021, 1, 19)));
}

#[test]
fn business_days_are_counted() {
    assert_eq!(CAL.business_days_between(ymd(2021, 1, 4), ymd(2021, 1, 8)), Some(4));
    assert_eq!(CAL.business_days_between(ymd(2021, 1, 8), ymd(2021, 1, 4)), Some(-4));
    assert_eq!(CAL.business_days_between(ymd(2021, 1, 4), ymd(2021, 1, 4)), Some(0));
    assert_eq!(CAL.business_days_between(ymd(2021, 1, 1), ymd(2021, 1, 4)), Some(0));
    assert_eq!(CAL.business_days_between(ymd(2021, 1, 1), ymd(2021, 12, 31)), Some(251));
}

#[test]
fn months_end_on_their_last_day() {
    assert_eq!(backtester::calendar::end_of_month(2021, 2), ymd(2021, 2, 28));
    assert_eq!(backtester::calendar::end_of_month(2020, 2), ymd(2020, 2, 29));
    assert_eq!(backtester::calendar::end_of_month(2021, 4), ymd(2021, 4, 30));
    assert_eq!(backtester::calendar::end_of_month(2021, 12), ymd(2021, 12, 31));
}
