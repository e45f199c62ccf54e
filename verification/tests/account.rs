use backtester::account::Account;
use backtester::decimal::Decimal;
use backtester::position::Lot;
use backtester::time::Date;

fn lot(price: i64, quantity: i64) -> Lot {
    Lot {
        fill_time: Date::from_ymd(2021, 1, 1).unwrap().and_hm(0, 0),
        price: Decimal::new(price, 0),
        quantity: Decimal::new(quantity, 0),
    }
}

#[test]
fn account_it_can_be_initialized() {
    let account = Account::new(Decimal::one_hundred());
    assert!(account.active_orders.is_empty());
    assert!(account.inactive_orders.is_empty());
    assert!(account.positions.is_empty());
    assert_eq!(account.cash, Decimal::one_hundred());
    assert_eq!(account.starting_cash(), Decimal::one_hundred());
}

#[test]
fn it_can_be_reset() {
    let mut account = Account::new(Decimal::new(100, 0));
    account.cash = Decimal::new(200, 0);
    account.add_lot("AAPL".into(), lot(2, 3)).unwrap();
    account.reset();
    assert_eq!(account.cash, Decimal::new(100, 0));
    assert!(account.positions.is_empty());
    assert!(account.active_orders.is_empty());
    assert!(account.inactive_orders.is_empty());
}

#[test]
fn it_can_update_with_lots() {
    let mut account = Account::new(Decimal::one_hundred());
    account.add_lot("AAPL".into(), lot(2, 3)).unwrap();
    assert_eq!(account.cash, Decimal::new(94, 0));
    let pos = account.position("AAPL");
    assert_eq!(pos.unwrap().quantity(), Decimal::new(3, 0));
    let market_value = account.market_value("AAPL", Decimal::new(100, 0));
    assert_eq!(market_value, Some(Decimal::new(300, 0)));
}

#[test]
fn lots_join_the_position_of_their_symbol() {
    let mut account = Account::new(Decimal::new(1000, 0));
    account.add_lot("AAPL".into(), lot(10, 3)).unwrap();
    account.add_lot("MSFT".into(), lot(20, 1)).unwrap();
    account.add_lot("AAPL".into(), lot(12, -1)).unwrap();
    assert_eq!(account.positions.len(), 2);
    assert_eq!(account.position_index("AAPL"), Some(0));
    assert_eq!(account.position_index("MSFT"), Some(1));
    assert_eq!(account.position_index("GOOG"), None);
    assert!(account.position("GOOG").is_none());
    assert_eq!(account.quantity("AAPL"), Decimal::new(2, 0));
    assert_eq!(account.quantity("MSFT"), Decimal::new(1, 0));
    assert_eq!(account.quantity("GOOG"), Decimal::zero());
    assert_eq!(account.cash, Decimal::new(1000 - 30 - 20 + 12, 0));
    assert_eq!(account.market_value("GOOG", Decimal::new(5, 0)), Some(Decimal::zero()));
    assert_eq!(account.positions[0].ticker(), "AAPL");
}

#[test]
fn a_lot_that_does_not_fit_leaves_the_account_alone() {
    let big = Decimal::from_parts(79228162514264337593543950335, 0).unwrap();
    let mut account = Account::new(Decimal::new(1000, 0));
    account.add_lot("AAPL".into(), lot(10, 3)).unwrap();
    let fill_time = Date::from_ymd(2021, 1, 1).unwrap().and_hm(0, 0);
    // price times quantity does not fit
    let too_dear = Lot { fill_time, price: big, quantity: Decimal::new(2, 0) };
    assert!(account.add_lot("AAPL".into(), too_dear).is_err());
    // the cash does not fit
    let dear = Lot { fill_time, price: big, quantity: Decimal::new(-1, 0) };
    assert!(account.add_lot("MSFT".into(), dear).is_err());
    // the position does not fit
    let free = Lot { fill_time, price: Decimal::zero(), quantity: big };
    assert!(account.add_lot("AAPL".into(), free).is_err());
    assert_eq!(account.cash, Decimal::new(970, 0));
    assert_eq!(account.positions.len(), 1);
    assert_eq!(account.quantity("AAPL"), Decimal::new(3, 0));
}
