use backtester::cache::MarketDataCache;
use backtester::data::Aggregate;
use backtester::decimal::Decimal;
use backtester::time::{Date, DateTime};

fn at(day: u32, hour: u32, minute: u32) -> DateTime {
    Date::from_ymd(2021, 1, day).unwrap().and_hm(hour, minute)
}

fn bar(datetime: DateTime, close: i64) -> Aggregate {
    Aggregate {
        datetime,
        open: Decimal::new(close - 1, 0),
        high: Decimal::new(close + 2, 0),
        low: Decimal::new(close - 2, 0),
        close: Decimal::new(close, 0),
        volume: Decimal::new(1000, 0),
    }
}

fn filled() -> MarketDataCache {
    let mut cache = MarketDataCache::new();
    cache.store_data(
        "X",
        vec![bar(at(4, 9, 32), 12), bar(at(4, 9, 30), 10), bar(at(4, 9, 31), 11), bar(at(5, 9, 30), 20)],
    );
    cache.store_data("Y", vec![bar(at(4, 9, 30), 50)]);
    cache
}

#[test]
fn a_range_holds_the_bars_from_start_to_end_in_time_order() {
    let cache = filled();
    assert_eq!(
        cache.get_data("X", at(4, 9, 30), at(4, 9, 32)),
        Some(vec![bar(at(4, 9, 30), 10), bar(at(4, 9, 31), 11), bar(at(4, 9, 32), 12)])
    );
    assert_eq!(
        cache.get_data("X", at(4, 9, 31), at(4, 9, 31)),
        Some(vec![bar(at(4, 9, 31), 11)])
    );
    assert_eq!(
        cache.get_data("X", at(4, 9, 32), at(5, 9, 30)),
        Some(vec![bar(at(4, 9, 32), 12), bar(at(5, 9, 30), 20)])
    );
    assert_eq!(
        cache.get_data("X", at(1, 0, 0), at(31, 0, 0)).map(|v| v.len()),
        Some(4)
    );
    assert_eq!(cache.get_data("Y", at(1, 0, 0), at(31, 0, 0)), Some(vec![bar(at(4, 9, 30), 50)]));
}

#[test]
fn an_empty_range_is_none() {
    let cache = filled();
    assert_eq!(cache.get_data("X", at(4, 9, 33), at(5, 9, 29)), None);
    assert_eq!(cache.get_data("X", at(1, 0, 0), at(4, 9, 29)), None);
    assert_eq!(cache.get_data("X", at(5, 9, 31), at(31, 0, 0)), None);
    assert_eq!(cache.get_data("X", at(4, 9, 32), at(4, 9, 30)), None);
    assert_eq!(cache.get_data("Z", at(1, 0, 0), at(31, 0, 0)), None);
    assert_eq!(MarketDataCache::new().get_data("X", at(1, 0, 0), at(31, 0, 0)), None);
}

#[test]
fn the_last_bar_at_or_before_an_instant_is_found() {
    let cache = filled();
    assert_eq!(cache.get_last_before("X", at(4, 9, 31)), Some(bar(at(4, 9, 31), 11)));
    assert_eq!(cache.get_last_before("X", at(4, 16, 0)), Some(bar(at(4, 9, 32), 12)));
    assert_eq!(cache.get_last_before("X", at(31, 0, 0)), Some(bar(at(5, 9, 30), 20)));
    assert_eq!(cache.get_last_before("X", at(4, 9, 30)), Some(bar(at(4, 9, 30), 10)));
    assert_eq!(cache.get_last_before("X", at(4, 9, 29)), None);
    assert_eq!(cache.get_last_before("Z", at(31, 0, 0)), None);
}

#[test]
fn a_bar_replaces_the_bar_of_its_timestamp() {
    let mut cache = filled();
    cache.store_data("X", vec![bar(at(4, 9, 31), 99), bar(at(4, 9, 33), 13)]);
    assert_eq!(
        cache.get_data("X", at(4, 0, 0), at(4, 23, 59)),
        Some(vec![
            bar(at(4, 9, 30), 10),
            bar(at(4, 9, 31), 99),
            bar(at(4, 9, 32), 12),
            bar(at(4, 9, 33), 13)
        ])
    );
    // within one batch the later bar wins
    cache.store_data("X", vec![bar(at(4, 9, 30), 1), bar(at(4, 9, 30), 2)]);
    assert_eq!(cache.get_last_before("X", at(4, 9, 30)), Some(bar(at(4, 9, 30), 2)));
    // the other symbol is as it was
    assert_eq!(cache.get_data("Y", at(1, 0, 0), at(31, 0, 0)), Some(vec![bar(at(4, 9, 30), 50)]));
}

#[test]
fn storing_nothing_changes_nothing() {
    let mut cache = filled();
    cache.store_data("X", vec![]);
    cache.store_data("Z", vec![]);
    assert_eq!(cache.get_data("X", at(1, 0, 0), at(31, 0, 0)).map(|v| v.len()), Some(4));
    assert_eq!(cache.get_data("Z", at(1, 0, 0), at(31, 0, 0)), None);
}
