use backtester::brokerage::{Brokerage, Event};
use backtester::commission::{Commission, PerLotCommission, PerShareCommission};
use backtester::data::Aggregate;
use backtester::decimal::Decimal;
use backtester::market::Market;
use backtester::options::{Options, Resolution};
use backtester::order::{Order, OrderStatus};
use backtester::time::{Date, DateTime};

fn dec(n: i64) -> Decimal {
    Decimal::new(n, 0)
}

fn day() -> Date {
    Date::from_ymd(2021, 1, 4).unwrap()
}

fn bar(datetime: DateTime, close: i64) -> Aggregate {
    Aggregate {
        datetime,
        open: dec(close - 1),
        high: dec(close + 1),
        low: dec(close - 2),
        close: dec(close),
        volume: dec(1000),
    }
}

/// A market with minute bars on January 4, 2021: "X" closes at 100 at 09:30, at
/// 90 at 09:31 and at 95 at 09:33; "Y" closes at 10 at 09:30.
fn market() -> Market {
    let options = Options::new(vec!["X".to_string(), "Y".to_string()], day(), day())
        .set_resolution(Resolution::Minute);
    let mut market = Market::new(&options).unwrap();
    market.data_manager.record(
        "X",
        day(),
        day(),
        vec![bar(day().and_hm(9, 30), 100), bar(day().and_hm(9, 31), 90), bar(day().and_hm(9, 33), 95)],
    );
    market.data_manager.record("Y", day(), day(), vec![bar(day().and_hm(9, 30), 10)]);
    market
}

fn update(status: OrderStatus, time: DateTime, order: &Order) -> Event {
    Event::OrderUpdate { status, time, order: order.clone() }
}

fn drain<C: Commission>(brokerage: &mut Brokerage<C>, listener: usize) -> Vec<Event> {
    let mut events = vec![];
    while let Some(event) = brokerage.try_recv(listener) {
        events.push(event);
    }
    events
}

#[test]
fn a_fill_moves_cash_into_the_position() {
    let mut market = market();
    market.tick();
    let mut brokerage = Brokerage::new(dec(100));
    let order = Order::new("AAPL", dec(3));
    brokerage.fill_order(&market, order.clone(), dec(2)).unwrap();
    assert_eq!(brokerage.account.cash, dec(94));
    assert_eq!(brokerage.account.quantity("AAPL"), dec(3));
    assert_eq!(brokerage.account.market_value("AAPL", dec(100)), Some(dec(300)));
    assert_eq!(brokerage.account.inactive_orders, vec![order]);
}

#[test]
fn a_send_with_the_market_closed_is_rejected() {
    let market = market();
    assert!(!market.is_open());
    let mut brokerage = Brokerage::new(dec(1000));
    let listener = brokerage.subscribe();
    let order = Order::new("X", dec(1));
    assert_eq!(brokerage.send_order(&market, order.clone()), Ok(()));
    assert!(brokerage.account.active_orders.is_empty());
    assert_eq!(brokerage.account.inactive_orders, vec![order.clone()]);
    assert_eq!(brokerage.account.cash, dec(1000));
    assert!(brokerage.account.positions.is_empty());
    assert_eq!(
        drain(&mut brokerage, listener),
        vec![update(OrderStatus::Rejected, day().and_hm(9, 30), &order)]
    );
}

#[test]
fn a_marketable_order_is_filled_at_once() {
    let mut market = market();
    market.tick();
    let now = day().and_hm(9, 30);
    let mut brokerage = Brokerage::new(dec(1000));
    let listener = brokerage.subscribe();
    let order = Order::new("X", dec(2));
    assert_eq!(brokerage.send_order(&market, order.clone()), Ok(()));
    assert!(brokerage.account.active_orders.is_empty());
    assert_eq!(brokerage.account.inactive_orders, vec![order.clone()]);
    assert_eq!(brokerage.account.cash, dec(800));
    assert_eq!(brokerage.account.quantity("X"), dec(2));
    assert_eq!(
        drain(&mut brokerage, listener),
        vec![
            update(OrderStatus::Submitted, now, &order),
            update(OrderStatus::Filled { fill_time: now, average_fill_price: dec(100) }, now, &order),
        ]
    );
    let lot = brokerage.account.position("X").unwrap().lot(0);
    assert_eq!((lot.fill_time, lot.price, lot.quantity), (now, dec(100), dec(2)));
}

#[test]
fn an_order_that_is_not_marketable_waits_for_its_price() {
    let mut market = market();
    market.tick();
    market.tick();
    // Open at 09:31: the last bar is the one at 09:31, which closes at 90;
    // a limit of 85 is below that
    let mut brokerage = Brokerage::new(dec(1000));
    let listener = brokerage.subscribe();
    let order = Order::new("X", dec(1)).limit_price(dec(85));
    assert_eq!(brokerage.send_order(&market, order.clone()), Ok(()));
    assert_eq!(brokerage.account.active_orders, vec![order.clone()]);
    assert!(brokerage.account.inactive_orders.is_empty());
    assert_eq!(brokerage.account.cash, dec(1000));
    assert_eq!(
        drain(&mut brokerage, listener),
        vec![update(OrderStatus::Submitted, day().and_hm(9, 31), &order)]
    );
    // nothing changes while the price stays where it is
    assert_eq!(brokerage.reconcile_active_orders(&market), Ok(()));
    assert_eq!(brokerage.account.active_orders, vec![order.clone()]);
    assert_eq!(drain(&mut brokerage, listener), vec![]);
}

#[test]
fn reconciling_fills_the_orders_that_have_become_marketable() {
    let mut market = market();
    market.tick();
    let mut brokerage = Brokerage::new(dec(1000));
    let listener = brokerage.subscribe();
    // at 09:30 "X" is at 100
    let limit = Order::new("X", dec(1)).limit_price(dec(95));
    let low = Order::new("X", dec(1)).limit_price(dec(50));
    let unknown = Order::new("Z", dec(1));
    brokerage.send_order(&market, limit.clone()).unwrap();
    brokerage.send_order(&market, low.clone()).unwrap();
    brokerage.send_order(&market, unknown.clone()).unwrap();
    assert_eq!(brokerage.account.active_orders.len(), 3);
    assert_eq!(drain(&mut brokerage, listener).len(), 3);
    // at 09:31 "X" is at 90
    market.tick();
    let now = day().and_hm(9, 31);
    assert_eq!(market.get_current_price("X"), Some(dec(90)));
    assert_eq!(brokerage.reconcile_active_orders(&market), Ok(()));
    assert_eq!(brokerage.account.active_orders, vec![low, unknown]);
    assert_eq!(brokerage.account.inactive_orders, vec![limit.clone()]);
    assert_eq!(brokerage.account.cash, dec(910));
    assert_eq!(
        drain(&mut brokerage, listener),
        vec![update(
            OrderStatus::Filled { fill_time: now, average_fill_price: dec(90) },
            now,
            &limit
        )]
    );
}

#[test]
fn expiring_archives_the_active_orders() {
    let mut market = market();
    market.tick();
    let mut brokerage = Brokerage::new(dec(1000));
    let listener = brokerage.subscribe();
    let first = Order::new("X", dec(1)).limit_price(dec(1));
    let second = Order::new("Y", dec(1)).limit_price(dec(1));
    brokerage.send_order(&market, first.clone()).unwrap();
    brokerage.send_order(&market, second.clone()).unwrap();
    drain(&mut brokerage, listener);
    brokerage.expire_orders(&market);
    assert!(brokerage.account.active_orders.is_empty());
    assert_eq!(brokerage.account.inactive_orders, vec![second.clone(), first.clone()]);
    assert_eq!(brokerage.account.cash, dec(1000));
    assert!(brokerage.account.positions.is_empty());
    let now = day().and_hm(9, 30);
    assert_eq!(
        drain(&mut brokerage, listener),
        vec![update(OrderStatus::Expired, now, &second), update(OrderStatus::Expired, now, &first)]
    );
}

#[test]
fn a_commission_is_charged_and_reported() {
    let mut market = market();
    market.tick();
    let now = day().and_hm(9, 30);
    let mut brokerage = Brokerage::new(dec(1000)).commission(PerLotCommission::new(dec(7)));
    let listener = brokerage.subscribe();
    let order = Order::new("X", dec(2));
    brokerage.send_order(&market, order.clone()).unwrap();
    assert_eq!(brokerage.account.cash, dec(1000 - 200 - 7));
    assert_eq!(
        drain(&mut brokerage, listener),
        vec![
            update(OrderStatus::Submitted, now, &order),
            update(OrderStatus::Filled { fill_time: now, average_fill_price: dec(100) }, now, &order),
            Event::Commission { amount: dec(7) },
        ]
    );
    // a sale brings money in, less the commission
    let sale = Order::new("X", dec(-2));
    brokerage.send_order(&market, sale).unwrap();
    assert_eq!(brokerage.account.cash, dec(1000 - 200 - 7 + 200 - 7));
    assert_eq!(brokerage.account.quantity("X"), Decimal::zero());
}

#[test]
fn a_commission_of_zero_is_not_reported() {
    let mut market = market();
    market.tick();
    let mut brokerage = Brokerage::new(dec(1000)).commission(PerShareCommission::new(dec(0)));
    let listener = brokerage.subscribe();
    brokerage.send_order(&market, Order::new("X", dec(2))).unwrap();
    assert_eq!(drain(&mut brokerage, listener).len(), 2);
    assert_eq!(brokerage.account.cash, dec(800));
}

#[test]
fn a_fill_that_does_not_fit_leaves_the_order_submitted() {
    let mut market = market();
    market.tick();
    let big = Decimal::from_parts(79228162514264337593543950335, 0).unwrap();
    let mut brokerage = Brokerage::new(dec(1000));
    let listener = brokerage.subscribe();
    let order = Order::new("X", big);
    assert!(brokerage.send_order(&market, order.clone()).is_err());
    assert_eq!(brokerage.account.active_orders, vec![order.clone()]);
    assert!(brokerage.account.inactive_orders.is_empty());
    assert_eq!(brokerage.account.cash, dec(1000));
    assert!(brokerage.account.positions.is_empty());
    assert_eq!(
        drain(&mut brokerage, listener),
        vec![update(OrderStatus::Submitted, day().and_hm(9, 30), &order)]
    );
}

#[test]
fn every_listener_gets_every_event_from_its_subscription_on() {
    let mut market = market();
    market.tick();
    let mut brokerage = Brokerage::new(dec(1000));
    let early = brokerage.subscribe();
    brokerage.send_order(&market, Order::new("X", dec(1))).unwrap();
    let late = brokerage.subscribe();
    brokerage.send_order(&market, Order::new("Y", dec(1))).unwrap();
    let seen_early = drain(&mut brokerage, early);
    let seen_late = drain(&mut brokerage, late);
    assert_eq!(seen_early.len(), 4);
    assert_eq!(seen_late.len(), 2);
    assert_eq!(seen_early[2..], seen_late[..]);
    assert_eq!(brokerage.try_recv(early), None);
    assert_eq!(brokerage.try_recv(99), None);
}

#[test]
fn equity_is_cash_plus_the_worth_of_the_positions() {
    let mut market = market();
    market.tick();
    let mut brokerage = Brokerage::new(dec(1000));
    assert_eq!(brokerage.get_equity(&market), Some(dec(1000)));
    brokerage.send_order(&market, Order::new("X", dec(2))).unwrap();
    brokerage.send_order(&market, Order::new("Y", dec(-3))).unwrap();
    assert_eq!(brokerage.account.cash, dec(1000 - 200 + 30));
    assert_eq!(brokerage.get_equity(&market), Some(dec(1000)));
    // a position without a price counts for nothing
    brokerage.fill_order(&market, Order::new("Z", dec(1)), dec(50)).unwrap();
    assert_eq!(brokerage.get_equity(&market), Some(dec(950)));
    // at 09:31 "X" is at 90
    market.tick();
    assert_eq!(brokerage.get_equity(&market), Some(dec(780 + 180 - 30)));
}

#[test]
fn positions_that_are_flat_are_left_out() {
    let mut market = market();
    market.tick();
    let mut brokerage = Brokerage::new(dec(1000));
    brokerage.send_order(&market, Order::new("X", dec(2))).unwrap();
    brokerage.send_order(&market, Order::new("Y", dec(3))).unwrap();
    brokerage.send_order(&market, Order::new("X", dec(-2))).unwrap();
    assert_eq!(brokerage.account.positions.len(), 2);
    let open = brokerage.get_positions();
    assert_eq!(open.len(), 1);
    assert_eq!(open[0].ticker(), "Y");
    assert_eq!(open[0].quantity(), dec(3));
}

#[test]
fn closing_sells_what_is_held_and_buys_back_what_is_short() {
    let mut market = market();
    market.tick();
    let now = day().and_hm(9, 30);
    let mut brokerage = Brokerage::new(dec(1000));
    brokerage.send_order(&market, Order::new("X", dec(2))).unwrap();
    brokerage.send_order(&market, Order::new("Y", dec(-3))).unwrap();
    brokerage.send_order(&market, Order::new("Y", dec(3))).unwrap();
    brokerage.send_order(&market, Order::new("Y", dec(-5))).unwrap();
    let listener = brokerage.subscribe();
    let closing = brokerage.closing_orders();
    assert_eq!(closing.len(), 2);
    assert_eq!((closing[0].ticker.as_str(), closing[0].shares), ("X", dec(-2)));
    assert_eq!((closing[1].ticker.as_str(), closing[1].shares), ("Y", dec(5)));
    assert_eq!(brokerage.close_positions(&market), Ok(()));
    assert_eq!(brokerage.account.quantity("X"), Decimal::zero());
    assert_eq!(brokerage.account.quantity("Y"), Decimal::zero());
    assert!(brokerage.get_positions().is_empty());
    assert_eq!(brokerage.account.cash, dec(1000));
    let events = drain(&mut brokerage, listener);
    assert_eq!(events.len(), 4);
    match &events[1] {
        Event::OrderUpdate { status, time, order } => {
            assert_eq!(*status, OrderStatus::Filled { fill_time: now, average_fill_price: dec(100) });
            assert_eq!(*time, now);
            assert_eq!(order.shares, dec(-2));
        }
        other => panic!("not a fill: {:?}", other),
    }
    assert!(brokerage.closing_orders().is_empty());
}

#[test]
fn cash_is_conserved_over_the_fills() {
    let mut market = market();
    market.tick();
    let mut brokerage = Brokerage::new(dec(1000)).commission(PerShareCommission::new(dec(1)));
    let listener = brokerage.subscribe();
    brokerage.send_order(&market, Order::new("X", dec(2))).unwrap();
    brokerage.send_order(&market, Order::new("Y", dec(-3))).unwrap();
    market.tick();
    brokerage.send_order(&market, Order::new("X", dec(-1))).unwrap();
    let mut traded = Decimal::zero();
    let mut commissions = Decimal::zero();
    for event in drain(&mut brokerage, listener) {
        match event {
            Event::Commission { amount } => commissions = commissions.checked_add(amount).unwrap(),
            Event::OrderUpdate {
                status: OrderStatus::Filled { average_fill_price, .. },
                order,
                ..
            } => {
                traded = traded
                    .checked_add(average_fill_price.checked_mul(order.shares).unwrap())
                    .unwrap()
            }
            _ => {}
        }
    }
    assert_eq!(traded, dec(200 - 30 - 90));
    assert_eq!(commissions, dec(2 + 3 + 1));
    assert_eq!(
        brokerage
            .account
            .starting_cash()
            .checked_sub(brokerage.account.cash)
            .unwrap()
            .checked_sub(commissions)
            .unwrap(),
        traded
    );
}
