use backtester::decimal::Decimal;
use backtester::order::{Order, OrderType};

fn dec(n: i64) -> Decimal {
    Decimal::new(n, 0)
}

#[test]
fn a_new_order_is_a_market_order() {
    let order = Order::new("AAPL", dec(10));
    assert_eq!(order.ticker, "AAPL");
    assert_eq!(order.shares, dec(10));
    assert_eq!(order.order_type, OrderType::Market);
}

#[test]
fn orders_get_identifiers_of_their_own() {
    let a = Order::new("AAPL", dec(1));
    let b = Order::new("AAPL", dec(1));
    assert_ne!(a.id, b.id);
    assert_eq!(a.clone(), a);
}

#[test]
fn shares_are_rounded_to_eight_digits() {
    assert_eq!(Order::new("X", Decimal::new(1234567891, 9)).shares, Decimal::new(123456789, 8));
    assert_eq!(Order::new("X", Decimal::new(1000000005, 9)).shares, Decimal::new(1, 0));
    assert_eq!(Order::new("X", Decimal::new(-15, 9)).shares, Decimal::new(-2, 8));
    assert_eq!(Order::new("X", Decimal::new(15, 1)).shares, Decimal::new(15, 1));
}

#[test]
fn limits_and_stops_combine() {
    let order = Order::new("X", dec(1));
    assert_eq!(order.clone().limit_price(dec(5)).order_type, OrderType::Limit(dec(5)));
    assert_eq!(order.clone().stop_price(dec(4)).order_type, OrderType::Stop(dec(4)));
    assert_eq!(
        order.clone().limit_price(dec(5)).stop_price(dec(4)).order_type,
        OrderType::StopLimit(dec(4), dec(5))
    );
    assert_eq!(
        order.clone().stop_price(dec(4)).limit_price(dec(5)).order_type,
        OrderType::StopLimit(dec(4), dec(5))
    );
    assert_eq!(
        order.clone().limit_price(dec(5)).limit_price(dec(6)).order_type,
        OrderType::Limit(dec(6))
    );
    assert_eq!(
        order.clone().stop_price(dec(4)).stop_price(dec(3)).order_type,
        OrderType::Stop(dec(3))
    );
    assert_eq!(
        order
            .clone()
            .stop_price(dec(4))
            .limit_price(dec(5))
            .stop_price(dec(1))
            .limit_price(dec(2))
            .order_type,
        OrderType::StopLimit(dec(1), dec(2))
    );
    let built = order.clone().limit_price(dec(5));
    assert_eq!(built.id, order.id);
    assert_eq!(built.ticker, order.ticker);
    assert_eq!(built.shares, order.shares);
}

#[test]
fn market_orders_are_always_marketable() {
    assert!(Order::new("X", dec(1)).is_marketable(dec(100)));
    assert!(Order::new("X", dec(-1)).is_marketable(dec(100)));
}

#[test]
fn limit_orders_want_a_price_on_their_side() {
    let buy = Order::new("X", dec(1)).limit_price(dec(95));
    assert!(!buy.is_marketable(dec(100)));
    assert!(buy.is_marketable(dec(95)));
    assert!(buy.is_marketable(dec(90)));
    let sell = Order::new("X", dec(-1)).limit_price(dec(95));
    assert!(sell.is_marketable(dec(100)));
    assert!(sell.is_marketable(dec(95)));
    assert!(!sell.is_marketable(dec(90)));
}

#[test]
fn stop_orders_want_the_price_to_cross() {
    let buy = Order::new("X", dec(1)).stop_price(dec(95));
    assert!(buy.is_marketable(dec(100)));
    assert!(buy.is_marketable(dec(95)));
    assert!(!buy.is_marketable(dec(90)));
    let sell = Order::new("X", dec(-1)).stop_price(dec(95));
    assert!(!sell.is_marketable(dec(100)));
    assert!(sell.is_marketable(dec(95)));
    assert!(sell.is_marketable(dec(90)));
}

#[test]
fn stop_limit_orders_take_either_condition() {
    let buy = Order::new("X", dec(1)).stop_price(dec(100)).limit_price(dec(90));
    assert!(buy.is_marketable(dec(105)));
    assert!(buy.is_marketable(dec(100)));
    assert!(!buy.is_marketable(dec(95)));
    assert!(buy.is_marketable(dec(90)));
    assert!(buy.is_marketable(dec(85)));
    let sell = Order::new("X", dec(-1)).stop_price(dec(90)).limit_price(dec(100));
    assert!(sell.is_marketable(dec(105)));
    assert!(sell.is_marketable(dec(100)));
    assert!(!sell.is_marketable(dec(95)));
    assert!(sell.is_marketable(dec(90)));
    assert!(sell.is_marketable(dec(85)));
}
