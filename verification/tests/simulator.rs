use backtester::brokerage::{Brokerage, Event};
use backtester::clock::MarketState;
use backtester::commission::{NoCommission, PerLotCommission};
use backtester::data::{Aggregate, DataProvider, ProviderFetchFailed};
use backtester::decimal::Decimal;
use backtester::market::Market;
use backtester::options::{Options, Resolution};
use backtester::order::{Order, OrderStatus};
use backtester::simulator::{SimulationError, Simulator};
use backtester::strategy::Strategy;
use backtester::time::Date;

fn dec(n: i64) -> Decimal {
    Decimal::new(n, 0)
}

fn ymd(y: i32, m: u32, d: u32) -> Date {
    Date::from_ymd(y, m, d).unwrap()
}

/// Daily bars of "X": 100 on January 4, 2021, then 90, then 110.
struct Bars {
    fail: bool,
}

impl DataProvider for Bars {
    fn fetch(
        &mut self,
        _ticker: &str,
        _start: Date,
        _end: Date,
        _resolution: Resolution,
    ) -> Result<Vec<Aggregate>, ProviderFetchFailed> {
        if self.fail {
            return Err(ProviderFetchFailed { message: "down".to_string() });
        }
        let bar = |day: u32, close: i64| Aggregate {
            datetime: ymd(2021, 1, day).and_hm(0, 0),
            open: dec(close),
            high: dec(close),
            low: dec(close),
            close: dec(close),
            volume: dec(1),
        };
        Ok(vec![bar(4, 100), bar(5, 90), bar(6, 110)])
    }
}

/// Buys one share with a limit of 95 at every open, and keeps a diary.
#[derive(Default)]
struct Diary {
    initialized: usize,
    calls: Vec<(MarketState, Date)>,
    events: Vec<Event>,
    fail_at_close: bool,
}

impl<C: backtester::commission::Commission> Strategy<C> for Diary {
    type Error = String;

    fn initialize(&mut self) {
        self.initialized += 1;
    }

    fn before_open(&mut self, _b: &mut Brokerage<C>, market: &Market) -> Result<(), String> {
        self.calls.push((market.state(), market.datetime().get_date()));
        Ok(())
    }

    fn at_open(&mut self, brokerage: &mut Brokerage<C>, market: &Market) -> Result<(), String> {
        self.calls.push((market.state(), market.datetime().get_date()));
        brokerage
            .send_order(market, Order::new("X", dec(1)).limit_price(dec(95)))
            .map_err(|_| "overflow".to_string())
    }

    fn during_regular_hours(&mut self, _b: &mut Brokerage<C>, market: &Market) -> Result<(), String> {
        self.calls.push((market.state(), market.datetime().get_date()));
        Ok(())
    }

    fn at_close(&mut self, _b: &mut Brokerage<C>, market: &Market) -> Result<(), String> {
        self.calls.push((market.state(), market.datetime().get_date()));
        if self.fail_at_close {
            Err("enough".to_string())
        } else {
            Ok(())
        }
    }

    fn after_close(&mut self, brokerage: &mut Brokerage<C>, market: &Market) -> Result<(), String> {
        assert!(brokerage.account.active_orders.is_empty());
        self.calls.push((market.state(), market.datetime().get_date()));
        Ok(())
    }

    fn on_event(&mut self, event: Event) -> Result<(), String> {
        self.events.push(event);
        Ok(())
    }
}

fn options() -> Options {
    Options::new(vec!["X".to_string()], ymd(2021, 1, 1), ymd(2021, 1, 5))
}

#[test]
fn a_two_day_run_visits_every_state_of_both_days() {
    let mut simulator =
        Simulator::new(dec(1000), NoCommission, Diary::default(), options()).unwrap();
    assert_eq!(simulator.market.datetime(), ymd(2021, 1, 4).and_hm(9, 30));
    assert!(simulator.run(&mut Bars { fail: false }).is_ok());
    assert!(simulator.market.is_done());
    assert_eq!(simulator.market.state(), MarketState::Closed);
    assert_eq!(simulator.strategy.initialized, 1);
    let (first, second) = (ymd(2021, 1, 4), ymd(2021, 1, 5));
    assert_eq!(
        simulator.strategy.calls,
        vec![
            (MarketState::PreOpen, first),
            (MarketState::Opening, first),
            (MarketState::Open, first),
            (MarketState::Closing, first),
            (MarketState::Closed, first),
            (MarketState::PreOpen, second),
            (MarketState::Opening, second),
            (MarketState::Open, second),
            (MarketState::Closing, second),
        ]
    );
    // one sample per tick
    assert_eq!(simulator.statistics.equity().len(), 9);
    assert_eq!(simulator.statistics.equity()[0], (first.and_hm(9, 30), dec(1000)));
}

#[test]
fn orders_wait_expire_and_fill_as_the_prices_say() {
    let mut simulator =
        Simulator::new(dec(1000), PerLotCommission::new(dec(2)), Diary::default(), options())
            .unwrap();
    simulator.run(&mut Bars { fail: false }).unwrap();
    // day one: 100 is above the limit, the order expires at the close;
    // day two: 90 is below the limit, the order is filled when it is sent
    let statuses: Vec<Option<OrderStatus>> = simulator
        .strategy
        .events
        .iter()
        .map(|event| match event {
            Event::OrderUpdate { status, .. } => Some(*status),
            Event::Commission { .. } => None,
        })
        .collect();
    let fill_time = ymd(2021, 1, 5).and_hm(9, 30);
    assert_eq!(
        statuses,
        vec![
            Some(OrderStatus::Submitted),
            Some(OrderStatus::Expired),
            Some(OrderStatus::Submitted),
            Some(OrderStatus::Filled { fill_time, average_fill_price: dec(90) }),
            None,
        ]
    );
    assert_eq!(simulator.strategy.events, *simulator.statistics.event_log());
    let counts = simulator.statistics.order_counts();
    assert_eq!((counts.submitted, counts.expired, counts.filled, counts.rejected), (2, 1, 1, 0));
    assert_eq!(simulator.statistics.commission_paid(), dec(2));
    assert_eq!(simulator.brokerage.account.cash, dec(1000 - 90 - 2));
    assert_eq!(simulator.brokerage.account.quantity("X"), dec(1));
    assert!(simulator.brokerage.account.active_orders.is_empty());
    assert_eq!(simulator.brokerage.account.inactive_orders.len(), 2);
    let equity = simulator.statistics.equity();
    assert_eq!(equity[0].1, dec(1000));
    assert_eq!(equity[4].1, dec(1000));
    assert_eq!(equity[6], (fill_time, dec(998)));
    assert_eq!(equity[8].1, dec(998));
    assert_eq!(simulator.statistics.total_return(), Some(Decimal::new(-2, 3)));
}

#[test]
fn a_failing_callback_ends_the_run() {
    let strategy = Diary { fail_at_close: true, ..Diary::default() };
    let mut simulator = Simulator::new(dec(1000), NoCommission, strategy, options()).unwrap();
    match simulator.run(&mut Bars { fail: false }) {
        Err(SimulationError::Strategy(message)) => assert_eq!(message, "enough"),
        other => panic!("{:?}", other),
    }
    assert_eq!(simulator.strategy.calls.len(), 4);
    assert_eq!(simulator.market.state(), MarketState::Closing);
    assert_eq!(simulator.statistics.equity().len(), 3);
}

#[test]
fn a_failing_data_source_ends_the_run_before_it_starts() {
    let mut simulator =
        Simulator::new(dec(1000), NoCommission, Diary::default(), options()).unwrap();
    match simulator.run(&mut Bars { fail: true }) {
        Err(SimulationError::Provider(e)) => assert_eq!(e.message, "down"),
        other => panic!("{:?}", other),
    }
    assert_eq!(simulator.strategy.initialized, 0);
    assert!(simulator.strategy.calls.is_empty());
}

#[test]
fn one_step_is_one_tick() {
    let mut simulator =
        Simulator::new(dec(1000), NoCommission, Diary::default(), options()).unwrap();
    simulator.market.download_data(&mut Bars { fail: false }).unwrap();
    let listener = simulator.brokerage.subscribe();
    assert!(simulator.step(listener).is_ok());
    assert_eq!(simulator.market.state(), MarketState::Opening);
    assert!(simulator.step(listener).is_ok());
    assert_eq!(simulator.market.state(), MarketState::Open);
    assert_eq!(simulator.strategy.events.len(), 1);
    assert_eq!(simulator.statistics.equity().len(), 2);
    assert_eq!(simulator.brokerage.try_recv(listener), None);
}

/// A strategy that leaves every callback out.
struct Idle;

impl Strategy<NoCommission> for Idle {
    type Error = ();
}

#[test]
fn a_strategy_may_leave_every_callback_out() {
    let mut simulator = Simulator::new(dec(1000), NoCommission, Idle, options()).unwrap();
    assert!(simulator.run(&mut Bars { fail: false }).is_ok());
    assert!(simulator.market.is_done());
    assert_eq!(simulator.brokerage.account.cash, dec(1000));
    assert!(simulator.statistics.event_log().is_empty());
    assert_eq!(simulator.statistics.equity().len(), 9);
    assert_eq!(simulator.statistics.max_drawdown(), Some(Decimal::zero()));
    assert_eq!(simulator.statistics.total_return(), Some(Decimal::zero()));
}

#[test]
fn a_simulation_needs_a_day_to_start_on() {
    let last = ymd(262142, 12, 31);
    let options = Options::new(vec![], last, last).set_warmup(backtester::time::Duration::days(1));
    assert!(Simulator::new(dec(1000), NoCommission, Idle, options).is_none());
}

#[test]
fn a_failed_callback_is_the_error_of_the_tick() {
    let mut simulator =
        Simulator::new(dec(1000), NoCommission, Diary::default(), options()).unwrap();
    let listener = simulator.brokerage.subscribe();
    match simulator.conclude(Err("no".to_string()), listener) {
        Err(SimulationError::Strategy(message)) => assert_eq!(message, "no"),
        other => panic!("{:?}", other),
    }
    assert_eq!(simulator.market.state(), MarketState::PreOpen);
    assert!(simulator.statistics.equity().is_empty());
    let event = Event::Commission { amount: dec(1) };
    match simulator.deliver(event, Err("never".to_string())) {
        Err(SimulationError::Strategy(message)) => assert_eq!(message, "never"),
        other => panic!("{:?}", other),
    }
    assert!(simulator.statistics.event_log().is_empty());
    assert_eq!(simulator.statistics.commission_paid(), Decimal::zero());
}

#[test]
fn the_end_of_a_tick_hands_the_events_on_and_samples_the_equity() {
    let mut simulator =
        Simulator::new(dec(1000), NoCommission, Diary::default(), options()).unwrap();
    simulator.market.download_data(&mut Bars { fail: false }).unwrap();
    let listener = simulator.brokerage.subscribe();
    simulator.market.tick();
    let first = Order::new("X", dec(2));
    let second = Order::new("X", dec(1)).limit_price(dec(1));
    simulator.brokerage.send_order(&simulator.market, first).unwrap();
    simulator.brokerage.send_order(&simulator.market, second).unwrap();
    let sent = simulator.brokerage.log.clone();
    assert_eq!(sent.len(), 3);
    assert!(simulator.conclude(Ok(()), listener).is_ok());
    assert_eq!(simulator.strategy.events, sent);
    assert_eq!(*simulator.statistics.event_log(), sent);
    let counts = simulator.statistics.order_counts();
    assert_eq!((counts.submitted, counts.filled), (2, 1));
    assert_eq!(
        *simulator.statistics.equity(),
        vec![(ymd(2021, 1, 4).and_hm(9, 30), dec(1000))]
    );
    assert_eq!(simulator.market.state(), MarketState::Open);
    assert_eq!(simulator.brokerage.try_recv(listener), None);
}

#[test]
fn an_event_that_was_seen_goes_into_the_record() {
    let mut simulator =
        Simulator::new(dec(1000), NoCommission, Diary::default(), options()).unwrap();
    assert!(simulator.deliver(Event::Commission { amount: dec(3) }, Ok(())).is_ok());
    assert_eq!(simulator.statistics.commission_paid(), dec(3));
    assert_eq!(simulator.statistics.event_log().len(), 1);
    let big = Decimal::from_parts(79228162514264337593543950335, 0).unwrap();
    match simulator.deliver(Event::Commission { amount: big }, Ok(())) {
        Err(SimulationError::Overflow) => {}
        other => panic!("{:?}", other),
    }
    assert_eq!(simulator.statistics.commission_paid(), dec(3));
    assert_eq!(simulator.statistics.event_log().len(), 1);
}

#[test]
fn settling_takes_a_sample_and_ticks() {
    let mut simulator =
        Simulator::new(dec(1000), NoCommission, Diary::default(), options()).unwrap();
    assert_eq!(simulator.settle(), Ok(()));
    assert_eq!(simulator.market.state(), MarketState::Opening);
    assert_eq!(
        *simulator.statistics.equity(),
        vec![(ymd(2021, 1, 4).and_hm(9, 30), dec(1000))]
    );
    // an equity that does not fit: nothing is sampled and the clock stands
    let big = Decimal::from_parts(79228162514264337593543950335, 0).unwrap();
    simulator.market.download_data(&mut Bars { fail: false }).unwrap();
    simulator.brokerage.fill_order(&simulator.market, Order::new("X", big), dec(0)).unwrap();
    assert!(simulator.settle().is_err());
    assert_eq!(simulator.market.state(), MarketState::Opening);
    assert_eq!(simulator.statistics.equity().len(), 1);
}

#[test]
fn the_brokerage_gets_ready_before_the_callback() {
    let mut simulator =
        Simulator::new(dec(1000), NoCommission, Diary::default(), options()).unwrap();
    simulator.market.download_data(&mut Bars { fail: false }).unwrap();
    // before the open nothing is done
    assert_eq!(simulator.prepare(), Ok(()));
    simulator.market.tick();
    let waiting = Order::new("X", dec(1)).limit_price(dec(95));
    simulator.brokerage.send_order(&simulator.market, waiting.clone()).unwrap();
    assert_eq!(simulator.brokerage.account.active_orders, vec![waiting.clone()]);
    // in `Open` at 100 the order is not marketable and stays
    simulator.market.tick();
    assert_eq!(simulator.market.state(), MarketState::Open);
    assert_eq!(simulator.prepare(), Ok(()));
    assert_eq!(simulator.brokerage.account.active_orders, vec![waiting.clone()]);
    // in `Closed` it expires
    simulator.market.tick();
    simulator.market.tick();
    assert_eq!(simulator.market.state(), MarketState::Closed);
    assert_eq!(simulator.prepare(), Ok(()));
    assert!(simulator.brokerage.account.active_orders.is_empty());
    assert_eq!(simulator.brokerage.account.inactive_orders, vec![waiting]);
}

#[test]
fn a_run_that_has_nothing_to_do_succeeds() {
    let day = ymd(2021, 1, 4);
    let options = Options::new(vec![], day, day);
    let mut simulator = Simulator::new(dec(1000), NoCommission, Diary::default(), options).unwrap();
    for _ in 0..4 {
        simulator.market.tick();
    }
    assert!(simulator.market.is_done());
    assert!(simulator.run(&mut Bars { fail: true }).is_ok());
    assert!(simulator.strategy.calls.is_empty());
    assert!(simulator.statistics.equity().is_empty());
}
