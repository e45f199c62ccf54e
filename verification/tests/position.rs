use backtester::decimal::Decimal;
use backtester::position::{Lot, Position};
use backtester::time::{Date, DateTime};

fn noon() -> DateTime {
    Date::from_ymd(2021, 1, 4).unwrap().and_hm(12, 0)
}

fn lot(price: Decimal, quantity: i64) -> Lot {
    Lot { fill_time: noon(), price, quantity: Decimal::new(quantity, 0) }
}

#[test]
fn position_it_can_do_fifo_lot_aggregation() {
    let mut price = Decimal::new(100, 0);
    let mut position = Position::new("AAPL".to_string(), lot(price, 2));
    assert_eq!(position.quantity(), Decimal::new(2, 0));
    assert_eq!(position.cost_basis(), Some(Decimal::new(200, 0)));
    assert_eq!(position.average_price(), Some(price));
    assert_eq!(position.market_value(price), Some(Decimal::new(200, 0)));
    assert_eq!(position.unrealized_profit(price), Some(Decimal::zero()));

    price = Decimal::new(150, 0);
    position.add_lot(lot(price, 3)).unwrap();
    assert_eq!(position.quantity(), Decimal::new(5, 0));
    assert_eq!(position.cost_basis(), Some(Decimal::new(650, 0)));
    assert_eq!(position.average_price(), Some(Decimal::new(130, 0)));
    assert_eq!(position.market_value(price), Some(Decimal::new(750, 0)));
    assert_eq!(position.unrealized_profit(price), Some(Decimal::new(100, 0)));

    price = Decimal::new(120, 0);
    position.add_lot(lot(price, -1)).unwrap();
    assert_eq!(position.quantity(), Decimal::new(4, 0));
    assert_eq!(position.cost_basis(), Some(Decimal::new(550, 0)));
    assert_eq!(position.average_price(), Some(Decimal::new(1375, 1)));
    assert_eq!(position.market_value(price), Some(Decimal::new(480, 0)));
    assert_eq!(position.unrealized_profit(price), Some(Decimal::new(-70, 0)));

    position.add_lot(lot(price, -3)).unwrap();
    assert_eq!(position.quantity(), Decimal::new(1, 0));
    assert_eq!(position.cost_basis(), Some(Decimal::new(150, 0)));
    assert_eq!(position.average_price(), Some(Decimal::new(150, 0)));
    assert_eq!(position.market_value(price), Some(Decimal::new(120, 0)));
    assert_eq!(position.unrealized_profit(price), Some(Decimal::new(-30, 0)));

    position.add_lot(lot(price, -3)).unwrap();
    assert_eq!(position.quantity(), Decimal::new(-2, 0));
    assert_eq!(position.cost_basis(), Some(Decimal::new(-240, 0)));
    assert_eq!(position.average_price(), Some(Decimal::new(120, 0)));
    assert_eq!(position.market_value(price), Some(Decimal::new(-240, 0)));
    assert_eq!(position.unrealized_profit(price), Some(Decimal::zero()));

    price = Decimal::new(80, 0);
    position.add_lot(lot(price, 2)).unwrap();
    assert_eq!(position.quantity(), Decimal::zero());
    assert_eq!(position.cost_basis(), Some(Decimal::zero()));
    assert_eq!(position.average_price(), None);
    assert_eq!(position.market_value(price), Some(Decimal::zero()));
    assert_eq!(position.unrealized_profit(price), Some(Decimal::zero()));
}
