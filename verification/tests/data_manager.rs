use backtester::data::{Aggregate, DataProvider, ProviderFetchFailed};
use backtester::data_manager::{plan_jobs, DataManager, DownloadJob};
use backtester::decimal::Decimal;
use backtester::options::Resolution;
use backtester::time::Date;

fn ymd(y: i32, m: u32, d: u32) -> Date {
    Date::from_ymd(y, m, d).unwrap()
}

fn bar(date: Date, hour: u32, minute: u32, close: i64) -> Aggregate {
    Aggregate {
        datetime: date.and_hm(hour, minute),
        open: Decimal::new(close, 0),
        high: Decimal::new(close, 0),
        low: Decimal::new(close, 0),
        close: Decimal::new(close, 0),
        volume: Decimal::new(1, 0),
    }
}

fn job(ticker: &str, start: Date, end: Date, resolution: Resolution) -> DownloadJob {
    DownloadJob { ticker: ticker.to_string(), start, end, resolution }
}

/// Hands out one bar at noon of the first day of every span asked for, and
/// keeps a list of what was asked. Fails for the symbol "BAD".
struct Recorder {
    asked: Vec<(String, Date, Date, Resolution)>,
}

impl DataProvider for Recorder {
    fn fetch(
        &mut self,
        ticker: &str,
        start: Date,
        end: Date,
        resolution: Resolution,
    ) -> Result<Vec<Aggregate>, ProviderFetchFailed> {
        self.asked.push((ticker.to_string(), start, end, resolution));
        if ticker == "BAD" {
            return Err(ProviderFetchFailed { message: "no such symbol".to_string() });
        }
        Ok(vec![bar(start, 20, 0, 7), bar(start, 12, 0, 5)])
    }
}

#[test]
fn daily_bars_are_fetched_by_calendar_year() {
    let tickers = vec!["A".to_string(), "B".to_string()];
    let jobs = plan_jobs(&tickers, ymd(2019, 11, 15), ymd(2021, 2, 3), Resolution::Day);
    assert_eq!(
        jobs,
        vec![
            job("A", ymd(2019, 11, 15), ymd(2019, 12, 31), Resolution::Day),
            job("B", ymd(2019, 11, 15), ymd(2019, 12, 31), Resolution::Day),
            job("A", ymd(2020, 1, 1), ymd(2020, 12, 31), Resolution::Day),
            job("B", ymd(2020, 1, 1), ymd(2020, 12, 31), Resolution::Day),
            job("A", ymd(2021, 1, 1), ymd(2021, 2, 3), Resolution::Day),
            job("B", ymd(2021, 1, 1), ymd(2021, 2, 3), Resolution::Day),
        ]
    );
}

#[test]
fn minute_bars_are_fetched_by_calendar_month() {
    let tickers = vec!["A".to_string()];
    let jobs = plan_jobs(&tickers, ymd(2020, 1, 20), ymd(2020, 3, 10), Resolution::Minute);
    assert_eq!(
        jobs,
        vec![
            job("A", ymd(2020, 1, 20), ymd(2020, 1, 31), Resolution::Minute),
            job("A", ymd(2020, 2, 1), ymd(2020, 2, 29), Resolution::Minute),
            job("A", ymd(2020, 3, 1), ymd(2020, 3, 10), Resolution::Minute),
        ]
    );
}

#[test]
fn a_short_span_is_one_piece_and_a_backward_span_is_none() {
    let tickers = vec!["A".to_string()];
    assert_eq!(
        plan_jobs(&tickers, ymd(2020, 5, 5), ymd(2020, 5, 5), Resolution::Minute),
        vec![job("A", ymd(2020, 5, 5), ymd(2020, 5, 5), Resolution::Minute)]
    );
    assert_eq!(plan_jobs(&tickers, ymd(2020, 5, 6), ymd(2020, 5, 5), Resolution::Day), vec![]);
    assert_eq!(plan_jobs(&vec![], ymd(2020, 5, 5), ymd(2021, 5, 5), Resolution::Day), vec![]);
    let last = ymd(262142, 12, 31);
    assert_eq!(
        plan_jobs(&tickers, last, last, Resolution::Day),
        vec![job("A", last, last, Resolution::Day)]
    );
}

#[test]
fn the_pieces_cover_the_span_without_a_gap() {
    let tickers = vec!["A".to_string()];
    let (start, end) = (ymd(2018, 7, 9), ymd(2021, 3, 4));
    for resolution in [Resolution::Day, Resolution::Minute] {
        let jobs = plan_jobs(&tickers, start, end, resolution);
        assert_eq!(jobs.first().unwrap().start, start);
        assert_eq!(jobs.last().unwrap().end, end);
        for pair in jobs.windows(2) {
            assert_eq!(pair[0].end.succ(), Some(pair[1].start));
            assert!(pair[0].start <= pair[0].end);
        }
    }
    assert_eq!(plan_jobs(&tickers, start, end, Resolution::Day).len(), 4);
    assert_eq!(plan_jobs(&tickers, start, end, Resolution::Minute).len(), 33);
}

#[test]
fn the_jobs_are_carried_out_in_their_order() {
    let tickers = vec!["A".to_string(), "B".to_string()];
    let mut manager =
        DataManager::new(&tickers, ymd(2020, 12, 30), ymd(2021, 1, 5), Resolution::Day, false);
    assert_eq!(manager.pending(), 4);
    assert!(!manager.has_data("A", ymd(2020, 12, 30), ymd(2020, 12, 31)));
    let mut provider = Recorder { asked: vec![] };
    assert_eq!(manager.download_data(&mut provider), Ok(()));
    assert_eq!(manager.pending(), 0);
    assert_eq!(
        provider.asked,
        vec![
            ("A".to_string(), ymd(2020, 12, 30), ymd(2020, 12, 31), Resolution::Day),
            ("B".to_string(), ymd(2020, 12, 30), ymd(2020, 12, 31), Resolution::Day),
            ("A".to_string(), ymd(2021, 1, 1), ymd(2021, 1, 5), Resolution::Day),
            ("B".to_string(), ymd(2021, 1, 1), ymd(2021, 1, 5), Resolution::Day),
        ]
    );
    assert!(manager.has_data("A", ymd(2020, 12, 30), ymd(2021, 1, 5)));
    assert!(manager.has_data("B", ymd(2021, 1, 2), ymd(2021, 1, 3)));
    assert!(!manager.has_data("A", ymd(2020, 12, 29), ymd(2021, 1, 5)));
    assert!(!manager.has_data("A", ymd(2020, 12, 30), ymd(2021, 1, 6)));
    assert!(!manager.has_data("C", ymd(2021, 1, 2), ymd(2021, 1, 3)));
    let all = manager
        .get_data("A", ymd(2020, 1, 1).and_hm(0, 0), ymd(2022, 1, 1).and_hm(0, 0))
        .unwrap();
    assert_eq!(
        all,
        vec![
            bar(ymd(2020, 12, 30), 12, 0, 5),
            bar(ymd(2020, 12, 30), 20, 0, 7),
            bar(ymd(2021, 1, 1), 12, 0, 5),
            bar(ymd(2021, 1, 1), 20, 0, 7),
        ]
    );
    assert_eq!(
        manager.get_last_before("A", ymd(2020, 12, 31).and_hm(0, 0)),
        Some(bar(ymd(2020, 12, 30), 20, 0, 7))
    );
    // nothing is left to do
    assert_eq!(manager.download_data(&mut provider), Ok(()));
    assert_eq!(provider.asked.len(), 4);
}

#[test]
fn a_failed_fetch_stops_the_downloads() {
    let tickers = vec!["A".to_string(), "BAD".to_string(), "C".to_string()];
    let mut manager =
        DataManager::new(&tickers, ymd(2021, 1, 4), ymd(2021, 1, 5), Resolution::Day, false);
    let mut provider = Recorder { asked: vec![] };
    assert_eq!(
        manager.download_data(&mut provider),
        Err(ProviderFetchFailed { message: "no such symbol".to_string() })
    );
    assert_eq!(provider.asked.len(), 2);
    assert_eq!(manager.pending(), 2);
    assert!(manager.has_data("A", ymd(2021, 1, 4), ymd(2021, 1, 5)));
    assert!(!manager.has_data("C", ymd(2021, 1, 4), ymd(2021, 1, 5)));
}

#[test]
fn normalising_keeps_the_regular_hours() {
    let tickers = vec!["A".to_string()];
    let day = ymd(2021, 1, 4);
    let mut manager = DataManager::new(&tickers, day, day, Resolution::Minute, true);
    manager.record(
        "A",
        day,
        day,
        vec![
            bar(day, 9, 29, 1),
            bar(day, 9, 30, 2),
            bar(day, 15, 59, 3),
            bar(day, 16, 0, 4),
            bar(day, 20, 0, 5),
        ],
    );
    assert_eq!(
        manager.get_data("A", day.and_hm(0, 0), day.and_hm(23, 59)),
        Some(vec![bar(day, 9, 30, 2), bar(day, 15, 59, 3)])
    );
    let mut manager = DataManager::new(&tickers, day, day, Resolution::Minute, false);
    manager.record("A", day, day, vec![bar(day, 9, 29, 1), bar(day, 16, 0, 4)]);
    assert_eq!(
        manager.get_data("A", day.and_hm(0, 0), day.and_hm(23, 59)).map(|v| v.len()),
        Some(2)
    );
}

#[test]
fn missing_days_are_fetched_on_demand() {
    let tickers = vec!["A".to_string()];
    let mut manager =
        DataManager::new(&tickers, ymd(2021, 1, 4), ymd(2021, 1, 5), Resolution::Day, false);
    let mut provider = Recorder { asked: vec![] };
    manager.download_data(&mut provider).unwrap();
    // held already: nothing is fetched
    assert_eq!(manager.ensure_data(&mut provider, "A", ymd(2021, 1, 4), ymd(2021, 1, 5)), Ok(()));
    assert_eq!(provider.asked.len(), 1);
    // not held: fetched, and the span grows
    assert_eq!(manager.ensure_data(&mut provider, "A", ymd(2021, 1, 6), ymd(2021, 1, 8)), Ok(()));
    assert_eq!(
        provider.asked.last(),
        Some(&("A".to_string(), ymd(2021, 1, 6), ymd(2021, 1, 8), Resolution::Day))
    );
    assert!(manager.has_data("A", ymd(2021, 1, 4), ymd(2021, 1, 8)));
    assert!(manager.ensure_data(&mut provider, "BAD", ymd(2021, 1, 6), ymd(2021, 1, 8)).is_err());
    assert!(!manager.has_data("BAD", ymd(2021, 1, 6), ymd(2021, 1, 8)));
}
