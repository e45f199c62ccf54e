use backtester::brokerage::Event;
use backtester::decimal::Decimal;
use backtester::order::{Order, OrderStatus};
use backtester::statistics::{OrderCounts, Statistics};
use backtester::time::{Date, DateTime};

fn dec(n: i64) -> Decimal {
    Decimal::new(n, 0)
}

fn at(minute: u32) -> DateTime {
    Date::from_ymd(2021, 1, 4).unwrap().at_minute(minute)
}

fn update(status: OrderStatus) -> Event {
    Event::OrderUpdate { status, time: at(600), order: Order::new("X", dec(1)) }
}

fn curve(values: &[i64]) -> Statistics {
    let mut statistics = Statistics::new();
    for (i, value) in values.iter().enumerate() {
        statistics.record_equity(at(570 + i as u32), dec(*value));
    }
    statistics
}

#[test]
fn events_are_logged_and_counted() {
    let mut statistics = Statistics::new();
    let events = vec![
        update(OrderStatus::Submitted),
        update(OrderStatus::Filled { fill_time: at(600), average_fill_price: dec(5) }),
        Event::Commission { amount: Decimal::new(15, 1) },
        update(OrderStatus::Submitted),
        update(OrderStatus::Rejected),
        update(OrderStatus::Expired),
        update(OrderStatus::Cancelled),
        update(OrderStatus::PartiallyFilled),
        Event::Commission { amount: dec(2) },
    ];
    for event in events.iter() {
        assert_eq!(statistics.record(event.clone()), Ok(()));
    }
    assert_eq!(
        statistics.order_counts(),
        OrderCounts { submitted: 2, cancelled: 1, filled: 1, rejected: 1, expired: 1 }
    );
    assert_eq!(statistics.commission_paid(), Decimal::new(35, 1));
    assert_eq!(statistics.event_log(), &events);
    assert!(statistics.equity().is_empty());
}

#[test]
fn commissions_that_do_not_fit_are_refused() {
    let big = Decimal::from_parts(79228162514264337593543950335, 0).unwrap();
    let mut statistics = Statistics::new();
    statistics.record(Event::Commission { amount: big }).unwrap();
    assert!(statistics.record(Event::Commission { amount: dec(1) }).is_err());
    assert_eq!(statistics.commission_paid(), big);
    assert_eq!(statistics.event_log().len(), 1);
}

#[test]
fn order_updates_are_counted_by_status() {
    let mut counts = OrderCounts::new();
    counts.handle_order(&OrderStatus::Submitted);
    counts.handle_order(&OrderStatus::Submitted);
    counts.handle_order(&OrderStatus::Filled { fill_time: at(600), average_fill_price: dec(5) });
    counts.handle_order(&OrderStatus::PartiallyFilled);
    assert_eq!(
        counts,
        OrderCounts { submitted: 2, cancelled: 0, filled: 1, rejected: 0, expired: 0 }
    );
}

#[test]
fn the_equity_curve_grows_by_samples() {
    let statistics = curve(&[100, 120]);
    assert_eq!(statistics.equity(), &vec![(at(570), dec(100)), (at(571), dec(120))]);
}

#[test]
fn the_deepest_drawdown_is_measured_against_the_running_peak() {
    assert_eq!(curve(&[100, 120, 90, 110]).max_drawdown(), Some(Decimal::new(-25, 2)));
    assert_eq!(curve(&[100, 50, 200, 150]).max_drawdown(), Some(Decimal::new(-5, 1)));
    assert_eq!(curve(&[100, 110, 120]).max_drawdown(), Some(Decimal::zero()));
    assert_eq!(curve(&[]).max_drawdown(), Some(Decimal::zero()));
    // a curve that never rises above zero has no peak to measure against
    assert_eq!(curve(&[0, 10]).max_drawdown(), None);
    assert_eq!(curve(&[-5]).max_drawdown(), None);
}

#[test]
fn the_total_return_compares_the_last_value_with_the_first() {
    assert_eq!(curve(&[100, 120, 90, 110]).total_return(), Some(Decimal::new(1, 1)));
    assert_eq!(curve(&[100, 50]).total_return(), Some(Decimal::new(-5, 1)));
    assert_eq!(curve(&[100]).total_return(), Some(Decimal::zero()));
    assert_eq!(curve(&[]).total_return(), None);
    assert_eq!(curve(&[0, 50]).total_return(), None);
}

#[test]
fn an_event_is_logged_first_and_counted_then() {
    let mut statistics = Statistics::new();
    let fill = update(OrderStatus::Filled { fill_time: at(600), average_fill_price: dec(5) });
    statistics.record_event(fill.clone());
    assert_eq!(statistics.event_log(), &vec![fill]);
    assert_eq!(statistics.order_counts(), OrderCounts::new());
    statistics.handle_order(&OrderStatus::Filled {
        fill_time: at(600),
        average_fill_price: dec(5),
    });
    assert_eq!(statistics.order_counts().filled, 1);
    assert_eq!(statistics.increase_commission(dec(3)), Ok(()));
    assert_eq!(statistics.increase_commission(Decimal::new(25, 2)), Ok(()));
    assert_eq!(statistics.commission_paid(), Decimal::new(325, 2));
    assert_eq!(statistics.event_log().len(), 1);
}
