//! The simulated brokerage: it takes orders, fills those that the market
//! allows, keeps the account, and reports what happens to its listeners.
//!
//! The events are kept in one log. A listener is a place in that log; what
//! lies behind it is what the listener has not yet been given. Every event is
//! thus delivered to every listener, in the order of emission.
use crate::account::{book, held_quantity, holdings_after, Account, Holding};
use crate::commission::{Commission, NoCommission};
use crate::decimal::{unit, Decimal, Overflow};
use crate::market::Market;
use crate::order::{marketable, Order, OrderStatus, OrderType};
use crate::position::{total_quantity, Lot, Position};
use crate::time::DateTime;
use vstd::prelude::*;

verus! {

/// What the brokerage reports.
#[derive(Debug, PartialEq, Eq)]
pub enum Event {
    Commission { amount: Decimal },
    OrderUpdate { status: OrderStatus, time: DateTime, order: Order },
}

impl Clone for Event {
    fn clone(&self) -> (r: Event)
        ensures
            r == *self,
    {
        match self {
            Event::Commission { amount } => Event::Commission { amount: *amount },
            Event::OrderUpdate { status, time, order } => Event::OrderUpdate {
                status: *status,
                time: *time,
                order: order.clone(),
            },
        }
    }
}

/// What a brokerage holds, as contracts see it.
pub struct BrokerageState {
    pub cash: Decimal,
    pub holdings: Seq<Holding>,
    pub active: Seq<Order>,
    pub inactive: Seq<Order>,
    pub log: Seq<Event>,
}

/// The orders whose identifier is not `id`, in their order.
pub open spec fn without_id(orders: Seq<Order>, id: u128) -> Seq<Order>
    decreases orders.len(),
{
    if orders.len() == 0 {
        Seq::empty()
    } else if orders.last().id == id {
        without_id(orders.drop_last(), id)
    } else {
        without_id(orders.drop_last(), id).push(orders.last())
    }
}

/// The report that `order` has reached `status` at the instant `time`.
pub open spec fn update(status: OrderStatus, time: DateTime, order: Order) -> Event {
    Event::OrderUpdate { status, time, order }
}

/// The lot that fills `order` at `price` at the instant `time`.
pub open spec fn fill_lot(order: Order, price: Decimal, time: DateTime) -> Lot {
    Lot { fill_time: time, price, quantity: order.shares }
}

/// What a fill reports: the fill, then the commission where one is charged.
pub open spec fn fill_events(order: Order, price: Decimal, time: DateTime, charge: Decimal) -> Seq<
    Event,
> {
    let fill = update(
        OrderStatus::Filled { fill_time: time, average_fill_price: price },
        time,
        order,
    );
    if charge@ > 0 {
        seq![fill, Event::Commission { amount: charge }]
    } else {
        seq![fill]
    }
}

/// The brokerage after `order` has been filled at `price`: the cash is down
/// by price times shares and by the commission `charge`, the lot is in the
/// position, the order has gone from the active to the inactive orders, and the
/// fill is reported. `None` where a result does not fit.
pub open spec fn filled(
    s: BrokerageState,
    charge: Option<Decimal>,
    order: Order,
    price: Decimal,
    time: DateTime,
) -> Option<BrokerageState> {
    match (charge, price.spec_checked_mul(order.shares)) {
        (Some(c), Some(cost)) => match s.cash.spec_checked_sub(cost) {
            Some(after_cost) => match (
                after_cost.spec_checked_sub(c),
                holdings_after(s.holdings, order.ticker@, fill_lot(order, price, time)),
            ) {
                (Some(cash), Some(holdings)) => Some(
                    BrokerageState {
                        cash,
                        holdings,
                        active: without_id(s.active, order.id),
                        inactive: s.inactive.push(order),
                        log: s.log + fill_events(order, price, time, c),
                    },
                ),
                _ => None,
            },
            None => None,
        },
        _ => None,
    }
}

/// The brokerage after `order` has been sent, and whether all went well. With
/// the market closed the order is rejected and archived. With the market open
/// it is submitted, and filled at once where there is a price at which it is
/// marketable. Where the fill does not fit, the order stays submitted and the
/// send fails.
pub open spec fn sent<C: Commission>(
    s: BrokerageState,
    commission: C,
    open: bool,
    now: DateTime,
    price: Option<Decimal>,
    order: Order,
) -> (BrokerageState, bool) {
    if !open {
        (
            BrokerageState {
                inactive: s.inactive.push(order),
                log: s.log.push(update(OrderStatus::Rejected, now, order)),
                ..s
            },
            true,
        )
    } else {
        let saved = BrokerageState {
            active: s.active.push(order),
            log: s.log.push(update(OrderStatus::Submitted, now, order)),
            ..s
        };
        match price {
            Some(p) => if marketable(order.order_type, order.shares, p) {
                match filled(
                    saved,
                    commission.spec_calculate(fill_lot(order, p, now)),
                    order,
                    p,
                    now,
                ) {
                    Some(done) => (done, true),
                    None => (saved, false),
                }
            } else {
                (saved, true)
            },
            None => (saved, true),
        }
    }
}

/// The brokerage after the orders have been sent one after the other, up to
/// the first that fails.
pub open spec fn sent_all<C: Commission>(
    s: BrokerageState,
    commission: C,
    market: Market,
    orders: Seq<Order>,
) -> (BrokerageState, bool)
    decreases orders.len(),
{
    if orders.len() == 0 {
        (s, true)
    } else {
        let next = sent(
            s,
            commission,
            market.clock@.state.spec_is_open(),
            market.clock.spec_datetime(),
            market.spec_current_price(orders[0].ticker@),
            orders[0],
        );
        if next.1 {
            sent_all(next.0, commission, market, orders.drop_first())
        } else {
            next
        }
    }
}

/// Whether there is a price at which `order` can be filled now.
pub open spec fn fillable(market: Market, order: Order) -> bool {
    market.spec_current_price(order.ticker@) matches Some(p) && marketable(
        order.order_type,
        order.shares,
        p,
    )
}

/// The orders that can be filled now, in their order.
pub open spec fn fillable_orders(market: Market, orders: Seq<Order>) -> Seq<Order>
    decreases orders.len(),
{
    if orders.len() == 0 {
        Seq::empty()
    } else if fillable(market, orders.last()) {
        fillable_orders(market, orders.drop_last()).push(orders.last())
    } else {
        fillable_orders(market, orders.drop_last())
    }
}

/// The brokerage after the orders have been filled one after the other at the
/// current prices, up to the first fill that does not fit.
pub open spec fn filled_all<C: Commission>(
    s: BrokerageState,
    commission: C,
    market: Market,
    orders: Seq<Order>,
) -> (BrokerageState, bool)
    decreases orders.len(),
{
    if orders.len() == 0 {
        (s, true)
    } else {
        let order = orders[0];
        let now = market.clock.spec_datetime();
        match market.spec_current_price(order.ticker@) {
            Some(p) => match filled(
                s,
                commission.spec_calculate(fill_lot(order, p, now)),
                order,
                p,
                now,
            ) {
                Some(next) => filled_all(next, commission, market, orders.drop_first()),
                None => (s, false),
            },
            None => (s, false),
        }
    }
}

/// The brokerage after every active order has expired, the youngest first.
pub open spec fn expired(s: BrokerageState, now: DateTime) -> BrokerageState
    decreases s.active.len(),
{
    if s.active.len() == 0 {
        s
    } else {
        let order = s.active.last();
        expired(
            BrokerageState {
                active: s.active.drop_last(),
                inactive: s.inactive.push(order),
                log: s.log.push(update(OrderStatus::Expired, now, order)),
                ..s
            },
            now,
        )
    }
}

/// Cash plus the worth of the first `n` positions at the current prices, a
/// position without a price counting for nothing. `None` where a result does
/// not fit.
pub open spec fn equity_of(cash: Decimal, holdings: Seq<Holding>, market: Market, n: int) -> Option<
    Decimal,
>
    decreases n,
{
    if n <= 0 {
        Some(cash)
    } else {
        match equity_of(cash, holdings, market, n - 1) {
            Some(acc) => {
                let ticker = holdings[n - 1].0;
                let price = match market.spec_current_price(ticker) {
                    Some(p) => p,
                    None => Decimal::spec_zero(),
                };
                match Decimal::of_value(held_quantity(holdings, ticker)).spec_checked_mul(price) {
                    Some(value) => acc.spec_checked_add(value),
                    None => None,
                }
            },
            None => None,
        }
    }
}

/// Symbol and shares of the orders that close the positions: for every
/// position that is not flat, in their order, the negated quantity rounded to
/// eight fractional digits.
pub open spec fn closing_shares(holdings: Seq<Holding>) -> Seq<(Seq<char>, Decimal)>
    decreases holdings.len(),
{
    if holdings.len() == 0 {
        Seq::empty()
    } else {
        let rest = closing_shares(holdings.drop_last());
        let last = holdings.last();
        if total_quantity(last.1) == 0 {
            rest
        } else {
            rest.push((last.0, Decimal::of_value(-total_quantity(last.1)).spec_round_dp(8)))
        }
    }
}

/// Whether `orders` are market orders for the given symbols and shares.
pub open spec fn are_market_orders(orders: Seq<Order>, shares: Seq<(Seq<char>, Decimal)>) -> bool {
    &&& orders.len() == shares.len()
    &&& forall|i: int|
        0 <= i < orders.len() ==> {
            &&& (#[trigger] orders[i]).ticker@ == shares[i].0
            &&& orders[i].shares == shares[i].1
            &&& orders[i].order_type == OrderType::Market
        }
}

/// The positions that are not flat, in their order.
pub open spec fn open_holdings(holdings: Seq<Holding>) -> Seq<Holding>
    decreases holdings.len(),
{
    if holdings.len() == 0 {
        Seq::empty()
    } else if total_quantity(holdings.last().1) == 0 {
        open_holdings(holdings.drop_last())
    } else {
        open_holdings(holdings.drop_last()).push(holdings.last())
    }
}

/// A send reports in one of four ways: a rejection and nothing else; a
/// submission; a submission and a fill; a submission, a fill and a commission.
pub proof fn lemma_sent_events<C: Commission>(
    s: BrokerageState,
    commission: C,
    open: bool,
    now: DateTime,
    price: Option<Decimal>,
    order: Order,
)
    ensures
        ({
            let after = sent(s, commission, open, now, price, order).0;
            let rejected = update(OrderStatus::Rejected, now, order);
            let submitted = update(OrderStatus::Submitted, now, order);
            if !open {
                after.log == s.log + seq![rejected]
            } else {
                ||| after.log == s.log + seq![submitted]
                ||| exists|p: Decimal|
                    price == Some(p) && after.log == s.log + seq![
                        submitted,
                        update(
                            OrderStatus::Filled { fill_time: now, average_fill_price: p },
                            now,
                            order,
                        ),
                    ]
                ||| exists|p: Decimal, c: Decimal|
                    price == Some(p) && c@ > 0 && after.log == s.log + seq![
                        submitted,
                        update(
                            OrderStatus::Filled { fill_time: now, average_fill_price: p },
                            now,
                            order,
                        ),
                        Event::Commission { amount: c },
                    ]
            }
        }),
{
    let after = sent(s, commission, open, now, price, order).0;
    let rejected = update(OrderStatus::Rejected, now, order);
    let submitted = update(OrderStatus::Submitted, now, order);
    if !open {
        assert(s.log.push(rejected) =~= s.log + seq![rejected]);
    } else {
        let saved_log = s.log.push(submitted);
        assert(saved_log =~= s.log + seq![submitted]);
        match price {
            Some(p) => {
                let lot = fill_lot(order, p, now);
                let saved = BrokerageState {
                    active: s.active.push(order),
                    log: saved_log,
                    ..s
                };
                if marketable(order.order_type, order.shares, p) {
                    match filled(saved, commission.spec_calculate(lot), order, p, now) {
                        Some(done) => {
                            let c = commission.spec_calculate(lot).unwrap();
                            let fill = update(
                                OrderStatus::Filled { fill_time: now, average_fill_price: p },
                                now,
                                order,
                            );
                            if c@ > 0 {
                                assert(saved_log + seq![fill, Event::Commission { amount: c }]
                                    =~= s.log + seq![
                                    submitted,
                                    fill,
                                    Event::Commission { amount: c },
                                ]);
                            } else {
                                assert(saved_log + seq![fill] =~= s.log + seq![submitted, fill]);
                            }
                        },
                        None => {},
                    }
                }
            },
            None => {},
        }
    }
}

/// A fill lowers the cash by exactly price times shares plus the commission.
pub proof fn lemma_fill_cash(
    s: BrokerageState,
    charge: Option<Decimal>,
    order: Order,
    price: Decimal,
    time: DateTime,
)
    requires
        s.cash.wf(),
        price.wf(),
        order.shares.wf(),
        charge matches Some(c) ==> c.wf(),
        filled(s, charge, order, price, time) is Some,
    ensures
        filled(s, charge, order, price, time).unwrap().cash.wf(),
        filled(s, charge, order, price, time).unwrap().cash@ * unit(0) == s.cash@ * unit(0) - (
        price@ * order.shares@ + charge.unwrap()@ * unit(0)),
{
    let c = charge.unwrap();
    price.lemma_checked_mul(order.shares);
    let cost = price.spec_checked_mul(order.shares).unwrap();
    s.cash.lemma_checked_sub(cost);
    let after_cost = s.cash.spec_checked_sub(cost).unwrap();
    after_cost.lemma_checked_sub(c);
    let u = unit(0);
    let a = s.cash@;
    let b = cost@;
    let d = c@;
    assert((a - b - d) * u == a * u - b * u - d * u) by (nonlinear_arith);
}

/// What an event adds to the money traded: price times shares for a fill, in
/// units of 10^-56.
pub open spec fn traded_in(event: Event) -> int {
    match event {
        Event::OrderUpdate {
            status: OrderStatus::Filled { average_fill_price, .. },
            order,
            ..
        } => average_fill_price@ * order.shares@,
        _ => 0,
    }
}

/// What an event adds to the commissions paid, in units of 10^-28.
pub open spec fn commission_in(event: Event) -> int {
    match event {
        Event::Commission { amount } => amount@,
        _ => 0,
    }
}

/// Price times shares, summed over the fills of a log.
pub open spec fn traded(log: Seq<Event>) -> int
    decreases log.len(),
{
    if log.len() == 0 {
        0
    } else {
        traded(log.drop_last()) + traded_in(log.last())
    }
}

/// The commissions of a log, summed.
pub open spec fn commissions(log: Seq<Event>) -> int
    decreases log.len(),
{
    if log.len() == 0 {
        0
    } else {
        commissions(log.drop_last()) + commission_in(log.last())
    }
}

/// Cash conservation: what has left the cash since the start, less the
/// commissions paid, is what the fills have cost.
pub open spec fn conserves(s: BrokerageState, starting_cash: Decimal) -> bool {
    starting_cash@ * unit(0) - s.cash@ * unit(0) - commissions(s.log) * unit(0) == traded(s.log)
}

proof fn lemma_log_push(log: Seq<Event>, event: Event)
    ensures
        traded(log.push(event)) == traded(log) + traded_in(event),
        commissions(log.push(event)) == commissions(log) + commission_in(event),
{
    assert(log.push(event).drop_last() == log);
    assert(log.push(event).last() == event);
}

/// A brokerage that has not traded conserves its cash.
pub proof fn lemma_start_conserves(s: BrokerageState)
    requires
        s.log.len() == 0,
    ensures
        conserves(s, s.cash),
{
}

/// A fill with a commission that is not negative conserves the cash.
pub proof fn lemma_fill_conserves(
    s: BrokerageState,
    starting_cash: Decimal,
    charge: Option<Decimal>,
    order: Order,
    price: Decimal,
    time: DateTime,
)
    requires
        conserves(s, starting_cash),
        s.cash.wf(),
        price.wf(),
        order.shares.wf(),
        charge matches Some(c) ==> c.wf() && c@ >= 0,
        filled(s, charge, order, price, time) is Some,
    ensures
        conserves(filled(s, charge, order, price, time).unwrap(), starting_cash),
{
    let after = filled(s, charge, order, price, time).unwrap();
    let c = charge.unwrap();
    lemma_fill_cash(s, charge, order, price, time);
    let fill = update(
        OrderStatus::Filled { fill_time: time, average_fill_price: price },
        time,
        order,
    );
    lemma_log_push(s.log, fill);
    if c@ > 0 {
        let fee = Event::Commission { amount: c };
        lemma_log_push(s.log.push(fill), fee);
        assert(s.log + fill_events(order, price, time, c) =~= s.log.push(fill).push(fee));
    } else {
        assert(s.log + fill_events(order, price, time, c) =~= s.log.push(fill));
    }
    let u = unit(0);
    let k = commissions(s.log);
    let d = c@;
    assert((k + d) * u == k * u + d * u) by (nonlinear_arith);
}

/// A send conserves the cash, whatever becomes of the order, as long as the
/// commission is not negative.
pub proof fn lemma_send_conserves<C: Commission>(
    s: BrokerageState,
    starting_cash: Decimal,
    commission: C,
    open: bool,
    now: DateTime,
    price: Option<Decimal>,
    order: Order,
)
    requires
        conserves(s, starting_cash),
        s.cash.wf(),
        order.shares.wf(),
        price matches Some(p) ==> p.wf(),
        price matches Some(p) ==> (commission.spec_calculate(fill_lot(order, p, now)) matches Some(
            c,
        ) ==> c.wf() && c@ >= 0),
    ensures
        conserves(sent(s, commission, open, now, price, order).0, starting_cash),
        sent(s, commission, open, now, price, order).0.cash.wf(),
{
    if !open {
        lemma_log_push(s.log, update(OrderStatus::Rejected, now, order));
    } else {
        let submitted = update(OrderStatus::Submitted, now, order);
        lemma_log_push(s.log, submitted);
        let saved = BrokerageState {
            active: s.active.push(order),
            log: s.log.push(submitted),
            ..s
        };
        match price {
            Some(p) => {
                let charge = commission.spec_calculate(fill_lot(order, p, now));
                if marketable(order.order_type, order.shares, p) && filled(
                    saved,
                    charge,
                    order,
                    p,
                    now,
                ) is Some {
                    lemma_fill_conserves(saved, starting_cash, charge, order, p, now);
                    lemma_fill_cash(saved, charge, order, p, now);
                }
            },
            None => {},
        }
    }
}

/// Whether every price of the market and every commission of the schedule is
/// a decimal, and no commission is negative.
pub open spec fn charges_fairly<C: Commission>(commission: C, market: Market) -> bool {
    &&& forall|t: Seq<char>| #[trigger] market.spec_current_price(t) matches Some(p) ==> p.wf()
    &&& forall|lot: Lot| #[trigger]
        commission.spec_calculate(lot) matches Some(c) ==> c.wf() && c@ >= 0
}

/// Sending orders one after the other conserves the cash.
pub proof fn lemma_send_all_conserves<C: Commission>(
    s: BrokerageState,
    starting_cash: Decimal,
    commission: C,
    market: Market,
    orders: Seq<Order>,
)
    requires
        conserves(s, starting_cash),
        s.cash.wf(),
        charges_fairly(commission, market),
        forall|i: int| 0 <= i < orders.len() ==> (#[trigger] orders[i]).shares.wf(),
    ensures
        conserves(sent_all(s, commission, market, orders).0, starting_cash),
        sent_all(s, commission, market, orders).0.cash.wf(),
    decreases orders.len(),
{
    if orders.len() > 0 {
        let order = orders[0];
        let now = market.clock.spec_datetime();
        let price = market.spec_current_price(order.ticker@);
        match price {
            Some(p) => {
                assert(commission.spec_calculate(fill_lot(order, p, now)) matches Some(c) ==> c.wf()
                    && c@ >= 0);
            },
            None => {},
        }
        lemma_send_conserves(
            s,
            starting_cash,
            commission,
            market.clock@.state.spec_is_open(),
            now,
            price,
            order,
        );
        let next = sent(s, commission, market.clock@.state.spec_is_open(), now, price, order);
        if next.1 {
            let rest = orders.drop_first();
            assert forall|i: int| 0 <= i < rest.len() implies (#[trigger] rest[i]).shares.wf() by {
                assert(rest[i] == orders[i + 1]);
            }
            lemma_send_all_conserves(next.0, starting_cash, commission, market, rest);
        }
    }
}

/// Filling orders one after the other conserves the cash.
pub proof fn lemma_fill_all_conserves<C: Commission>(
    s: BrokerageState,
    starting_cash: Decimal,
    commission: C,
    market: Market,
    orders: Seq<Order>,
)
    requires
        conserves(s, starting_cash),
        s.cash.wf(),
        charges_fairly(commission, market),
        forall|i: int| 0 <= i < orders.len() ==> (#[trigger] orders[i]).shares.wf(),
    ensures
        conserves(filled_all(s, commission, market, orders).0, starting_cash),
        filled_all(s, commission, market, orders).0.cash.wf(),
    decreases orders.len(),
{
    if orders.len() > 0 {
        let order = orders[0];
        let now = market.clock.spec_datetime();
        match market.spec_current_price(order.ticker@) {
            Some(p) => {
                let charge = commission.spec_calculate(fill_lot(order, p, now));
                assert(charge matches Some(c) ==> c.wf() && c@ >= 0);
                match filled(s, charge, order, p, now) {
                    Some(next) => {
                        lemma_fill_conserves(s, starting_cash, charge, order, p, now);
                        lemma_fill_cash(s, charge, order, p, now);
                        let rest = orders.drop_first();
                        assert forall|i: int| 0 <= i < rest.len() implies (
                        #[trigger] rest[i]).shares.wf() by {
                            assert(rest[i] == orders[i + 1]);
                        }
                        lemma_fill_all_conserves(next, starting_cash, commission, market, rest);
                    },
                    None => {},
                }
            },
            None => {},
        }
    }
}

/// Expiring the active orders conserves the cash.
pub proof fn lemma_expire_conserves(s: BrokerageState, starting_cash: Decimal, now: DateTime)
    requires
        conserves(s, starting_cash),
    ensures
        conserves(expired(s, now), starting_cash),
        expired(s, now).cash == s.cash,
        expired(s, now).holdings == s.holdings,
        expired(s, now).active.len() == 0,
    decreases s.active.len(),
{
    if s.active.len() > 0 {
        let order = s.active.last();
        lemma_log_push(s.log, update(OrderStatus::Expired, now, order));
        lemma_expire_conserves(
            BrokerageState {
                active: s.active.drop_last(),
                inactive: s.inactive.push(order),
                log: s.log.push(update(OrderStatus::Expired, now, order)),
                ..s
            },
            starting_cash,
            now,
        );
    }
}

/// What stays of the orders when an identifier is taken out were among the
/// orders and do not have that identifier.
proof fn lemma_without_id(orders: Seq<Order>, id: u128)
    ensures
        forall|o: Order| #[trigger]
            without_id(orders, id).contains(o) ==> orders.contains(o) && o.id != id,
    decreases orders.len(),
{
    if orders.len() > 0 {
        let front = orders.drop_last();
        lemma_without_id(front, id);
        assert forall|o: Order| #[trigger] without_id(orders, id).contains(o) implies orders.contains(
            o,
        ) && o.id != id by {
            let kept = without_id(orders, id);
            let i = choose|i: int| 0 <= i < kept.len() && kept[i] == o;
            if orders.last().id != id && i == kept.len() - 1 {
                assert(orders[orders.len() - 1] == o);
            } else {
                assert(without_id(front, id)[i] == o);
                assert(without_id(front, id).contains(o));
                let j = choose|j: int| 0 <= j < front.len() && front[j] == o;
                assert(orders[j] == o);
            }
        }
    }
}

/// Every order that can be filled is among the orders that can be filled, and
/// where none can be filled there are none.
proof fn lemma_fillable_orders(market: Market, orders: Seq<Order>)
    ensures
        forall|o: Order|
            orders.contains(o) && fillable(market, o) ==> #[trigger] fillable_orders(
                market,
                orders,
            ).contains(o),
        (forall|o: Order| orders.contains(o) ==> !fillable(market, o)) ==> fillable_orders(
            market,
            orders,
        ).len() == 0,
    decreases orders.len(),
{
    if orders.len() > 0 {
        let front = orders.drop_last();
        let last = orders.last();
        lemma_fillable_orders(market, front);
        assert(orders[orders.len() - 1] == last);
        assert forall|o: Order| orders.contains(o) && fillable(market, o) implies #[trigger]
            fillable_orders(market, orders).contains(o) by {
            let all = fillable_orders(market, orders);
            let i = choose|i: int| 0 <= i < orders.len() && orders[i] == o;
            if i == orders.len() - 1 {
                assert(all[all.len() - 1] == o);
            } else {
                assert(front[i] == o);
                assert(front.contains(o));
                let inner = fillable_orders(market, front);
                assert(fillable_orders(market, front).contains(o));
                let j = choose|j: int| 0 <= j < inner.len() && inner[j] == o;
                assert(all[j] == o);
            }
        }
        if forall|o: Order| orders.contains(o) ==> !fillable(market, o) {
            assert(orders.contains(last));
            assert forall|o: Order| front.contains(o) implies !fillable(market, o) by {
                let j = choose|j: int| 0 <= j < front.len() && front[j] == o;
                assert(orders[j] == o);
            }
        }
    }
}

/// The orders that are still active after a run of fills were active before
/// and share no identifier with a filled order.
proof fn lemma_filled_all_active<C: Commission>(
    s: BrokerageState,
    commission: C,
    market: Market,
    orders: Seq<Order>,
)
    requires
        filled_all(s, commission, market, orders).1,
    ensures
        forall|o: Order| #[trigger]
            filled_all(s, commission, market, orders).0.active.contains(o) ==> s.active.contains(o)
                && forall|k: int| 0 <= k < orders.len() ==> o.id != (#[trigger] orders[k]).id,
    decreases orders.len(),
{
    if orders.len() > 0 {
        let order = orders[0];
        let now = market.clock.spec_datetime();
        let p = market.spec_current_price(order.ticker@).unwrap();
        let next = filled(
            s,
            commission.spec_calculate(fill_lot(order, p, now)),
            order,
            p,
            now,
        ).unwrap();
        let rest = orders.drop_first();
        assert(market.spec_current_price(order.ticker@) is Some);
        assert(filled(s, commission.spec_calculate(fill_lot(order, p, now)), order, p, now) is Some);
        assert(filled_all(s, commission, market, orders) == filled_all(
            next,
            commission,
            market,
            rest,
        ));
        lemma_filled_all_active(next, commission, market, rest);
        lemma_without_id(s.active, order.id);
        let end = filled_all(s, commission, market, orders).0;
        assert forall|o: Order| #[trigger] end.active.contains(o) implies s.active.contains(o)
            && forall|k: int| 0 <= k < orders.len() ==> o.id != (#[trigger] orders[k]).id by {
            assert(filled_all(next, commission, market, rest).0.active.contains(o));
            assert(next.active.contains(o));
            assert(without_id(s.active, order.id).contains(o));
            assert forall|k: int| 0 <= k < orders.len() implies o.id != (#[trigger] orders[k]).id by {
                if k > 0 {
                    assert(rest[k - 1] == orders[k]);
                }
            }
        }
    }
}

/// Reconciling leaves no active order that the current prices make
/// marketable.
pub proof fn lemma_reconciled<C: Commission>(s: BrokerageState, commission: C, market: Market)
    requires
        filled_all(s, commission, market, fillable_orders(market, s.active)).1,
    ensures
        fillable_orders(
            market,
            filled_all(s, commission, market, fillable_orders(market, s.active)).0.active,
        ).len() == 0,
{
    let due = fillable_orders(market, s.active);
    let end = filled_all(s, commission, market, due).0;
    lemma_filled_all_active(s, commission, market, due);
    lemma_fillable_orders(market, s.active);
    lemma_fillable_orders(market, end.active);
    assert forall|o: Order| end.active.contains(o) implies !fillable(market, o) by {
        if fillable(market, o) {
            assert(due.contains(o));
            let k = choose|k: int| 0 <= k < due.len() && due[k] == o;
            assert(o.id != due[k].id);
        }
    }
}

/// The brokerage of one trader.
pub struct Brokerage<C: Commission> {
    pub account: Account,
    pub commission: C,
    pub log: Vec<Event>,
    pub cursors: Vec<usize>,
}

/// Takes the orders with identifier `id` out of `orders`.
fn remove_by_id(orders: &mut Vec<Order>, id: u128)
    ensures
        final(orders)@ == without_id(old(orders)@, id),
{
    let ghost before = orders@;
    let ghost mut seen: int = 0;
    let mut i: usize = 0;
    proof {
        assert(before.skip(0) == before);
        assert(before.take(0) == Seq::<Order>::empty());
    }
    while i < orders.len()
        invariant
            0 <= seen <= before.len(),
            i == without_id(before.take(seen), id).len(),
            orders@ == without_id(before.take(seen), id) + before.skip(seen),
        decreases before.len() - seen,
    {
        proof {
            assert(orders@[i as int] == before.skip(seen)[0]);
            assert(before.take(seen + 1).drop_last() == before.take(seen));
            assert(before.take(seen + 1).last() == before[seen]);
            assert(before.skip(seen).drop_first() == before.skip(seen + 1));
        }
        if orders[i].id == id {
            orders.remove(i);
            proof {
                assert(orders@ == without_id(before.take(seen + 1), id) + before.skip(seen + 1));
            }
        } else {
            i = i + 1;
            proof {
                assert(orders@ == without_id(before.take(seen + 1), id) + before.skip(seen + 1));
            }
        }
        proof {
            seen = seen + 1;
        }
    }
    proof {
        assert(before.skip(seen).len() == 0);
        assert(before.take(seen) == before);
        assert(orders@ == without_id(before, id));
    }
}

impl Brokerage<NoCommission> {
    /// A brokerage that holds `cash`, charges nothing and has no listener.
    pub fn new(cash: Decimal) -> (r: Brokerage<NoCommission>)
        ensures
            r.account.cash == cash,
            r.account.spec_starting_cash() == cash,
            r.account.positions@.len() == 0,
            r.account.active_orders@.len() == 0,
            r.account.inactive_orders@.len() == 0,
            r.log@.len() == 0,
            r.cursors@.len() == 0,
    {
        Brokerage {
            account: Account::new(cash),
            commission: NoCommission,
            log: Vec::new(),
            cursors: Vec::new(),
        }
    }
}

impl<C: Commission> Brokerage<C> {
    /// What the brokerage holds.
    pub open spec fn state(&self) -> BrokerageState {
        BrokerageState {
            cash: self.account.cash,
            holdings: self.account.holdings(),
            active: self.account.active_orders@,
            inactive: self.account.inactive_orders@,
            log: self.log@,
        }
    }

    /// What listener `listener` has not yet been given.
    pub open spec fn pending(&self, listener: int) -> Seq<Event> {
        if 0 <= listener < self.cursors@.len() && self.cursors@[listener] <= self.log@.len() {
            self.log@.skip(self.cursors@[listener] as int)
        } else {
            Seq::empty()
        }
    }

    /// The same brokerage with another commission schedule.
    pub fn commission<D: Commission>(self, commission: D) -> (r: Brokerage<D>)
        ensures
            r.account == self.account,
            r.commission == commission,
            r.log == self.log,
            r.cursors == self.cursors,
    {
        Brokerage { account: self.account, commission, log: self.log, cursors: self.cursors }
    }

    pub fn get_account(&self) -> (r: &Account)
        ensures
            *r == self.account,
    {
        &self.account
    }

    /// A new listener, which will be given every event from now on.
    pub fn subscribe(&mut self) -> (listener: usize)
        ensures
            listener == old(self).cursors@.len(),
            final(self).cursors@ == old(self).cursors@.push(old(self).log@.len() as usize),
            final(self).pending(listener as int).len() == 0,
            final(self).account == old(self).account,
            final(self).commission == old(self).commission,
            final(self).log == old(self).log,
    {
        let listener = self.cursors.len();
        self.cursors.push(self.log.len());
        listener
    }

    /// The oldest event that `listener` has not yet been given, if there is
    /// one.
    pub fn try_recv(&mut self, listener: usize) -> (r: Option<Event>)
        ensures
            final(self).account == old(self).account,
            final(self).commission == old(self).commission,
            final(self).log == old(self).log,
            final(self).cursors@.len() == old(self).cursors@.len(),
            match r {
                Some(event) => old(self).pending(listener as int).len() > 0 && event == old(
                    self,
                ).pending(listener as int)[0] && final(self).pending(listener as int) == old(
                    self,
                ).pending(listener as int).drop_first(),
                None => old(self).pending(listener as int).len() == 0 && final(self).cursors == old(
                    self,
                ).cursors,
            },
            forall|l: int|
                l != listener ==> #[trigger] final(self).pending(l) == old(self).pending(l),
    {
        if listener >= self.cursors.len() {
            return None;
        }
        let at = self.cursors[listener];
        if at >= self.log.len() {
            proof {
                assert(self.pending(listener as int).len() == 0);
            }
            return None;
        }
        let event = self.log[at].clone();
        self.cursors.set(listener, at + 1);
        proof {
            assert(self.log@.skip(at as int).drop_first() == self.log@.skip(at + 1));
            assert forall|l: int| l != listener implies #[trigger] self.pending(l) == old(
                self,
            ).pending(l) by {
                if 0 <= l < self.cursors@.len() {
                    assert(self.cursors@[l] == old(self).cursors@[l]);
                }
            }
        }
        Some(event)
    }

    /// Copies of the positions that are not flat, in their order.
    pub fn get_positions(&self) -> (r: Vec<Position>)
        ensures
            book(r@) == open_holdings(self.account.holdings()),
    {
        let mut out: Vec<Position> = Vec::new();
        let mut i: usize = 0;
        let ghost all = self.account.holdings();
        proof {
            assert(all.take(0) == Seq::<Holding>::empty());
            assert(book(out@) =~= Seq::<Holding>::empty());
        }
        while i < self.account.positions.len()
            invariant
                i <= self.account.positions@.len(),
                all == self.account.holdings(),
                book(out@) == open_holdings(all.take(i as int)),
            decreases self.account.positions.len() - i,
        {
            let position = &self.account.positions[i];
            proof {
                assert(all.take(i + 1).drop_last() == all.take(i as int));
                assert(all.take(i + 1).last() == all[i as int]);
            }
            if !position.quantity().is_zero() {
                let ghost before = book(out@);
                out.push(position.clone());
                proof {
                    assert(book(out@) =~= before.push(all[i as int]));
                }
            }
            i = i + 1;
        }
        proof {
            assert(all.take(i as int) == all);
        }
        out
    }

    /// Cash plus the worth of the positions at the current prices; a position
    /// without a price counts for nothing. `None` where a result does not
    /// fit.
    pub fn get_equity(&self, market: &Market) -> (r: Option<Decimal>)
        ensures
            r == equity_of(
                self.account.cash,
                self.account.holdings(),
                *market,
                self.account.positions@.len() as int,
            ),
    {
        let mut equity = self.account.cash;
        let mut i: usize = 0;
        while i < self.account.positions.len()
            invariant
                i <= self.account.positions@.len(),
                Some(equity) == equity_of(
                    self.account.cash,
                    self.account.holdings(),
                    *market,
                    i as int,
                ),
            decreases self.account.positions.len() - i,
        {
            let ticker = self.account.positions[i].ticker();
            let price = match market.get_current_price(ticker.as_str()) {
                Some(p) => p,
                None => Decimal::zero(),
            };
            let value = match self.account.market_value(ticker.as_str(), price) {
                Some(v) => v,
                None => {
                    proof {
                        lemma_equity_fails(
                            self.account.cash,
                            self.account.holdings(),
                            *market,
                            i + 1,
                            self.account.positions@.len() as int,
                        );
                    }
                    return None;
                },
            };
            equity = match equity.checked_add(value) {
                Some(e) => e,
                None => {
                    proof {
                        lemma_equity_fails(
                            self.account.cash,
                            self.account.holdings(),
                            *market,
                            i + 1,
                            self.account.positions@.len() as int,
                        );
                    }
                    return None;
                },
            };
            i = i + 1;
        }
        Some(equity)
    }

    /// Reports an event: it joins the log, behind which every listener finds
    /// it.
    fn report_event(&mut self, event: Event)
        ensures
            final(self).log@ == old(self).log@.push(event),
            final(self).account == old(self).account,
            final(self).commission == old(self).commission,
            final(self).cursors == old(self).cursors,
    {
        self.log.push(event);
    }

    /// Fills `order` at `price`. On `Err` a result did not fit and nothing has
    /// changed.
    pub fn fill_order(&mut self, market: &Market, order: Order, price: Decimal) -> (r: Result<
        (),
        Overflow,
    >)
        ensures
            final(self).commission == old(self).commission,
            final(self).cursors == old(self).cursors,
            final(self).account.spec_starting_cash() == old(self).account.spec_starting_cash(),
            match r {
                Ok(_) => Some(final(self).state()) == filled(
                    old(self).state(),
                    old(self).commission.spec_calculate(
                        fill_lot(order, price, market.clock.spec_datetime()),
                    ),
                    order,
                    price,
                    market.clock.spec_datetime(),
                ),
                Err(_) => final(self).state() == old(self).state() && filled(
                    old(self).state(),
                    old(self).commission.spec_calculate(
                        fill_lot(order, price, market.clock.spec_datetime()),
                    ),
                    order,
                    price,
                    market.clock.spec_datetime(),
                ) is None,
            },
    {
        let fill_time = market.datetime();
        let lot = Lot { fill_time, price, quantity: order.shares };
        let charge = match self.commission.calculate(&lot) {
            Some(c) => c,
            None => {
                return Err(Overflow);
            },
        };
        let cost = match price.checked_mul(order.shares) {
            Some(c) => c,
            None => {
                return Err(Overflow);
            },
        };
        let after_cost = match self.account.cash.checked_sub(cost) {
            Some(c) => c,
            None => {
                return Err(Overflow);
            },
        };
        let cash = match after_cost.checked_sub(charge) {
            Some(c) => c,
            None => {
                return Err(Overflow);
            },
        };
        match self.account.add_lot(order.ticker.clone(), lot) {
            Ok(_) => {},
            Err(e) => {
                return Err(e);
            },
        }
        self.account.cash = cash;
        self.account.inactive_orders.push(order.clone());
        remove_by_id(&mut self.account.active_orders, order.id);
        let ghost before = self.log@;
        let event = Event::OrderUpdate {
            status: OrderStatus::Filled { fill_time, average_fill_price: price },
            time: fill_time,
            order,
        };
        self.report_event(event);
        if charge.gt(&Decimal::zero()) {
            self.report_event(Event::Commission { amount: charge });
            proof {
                assert(self.log@ =~= before + fill_events(order, price, fill_time, charge));
            }
        } else {
            proof {
                assert(self.log@ =~= before + fill_events(order, price, fill_time, charge));
            }
        }
        Ok(())
    }

    /// Sends an order. With the market closed it is rejected. With the market
    /// open it is submitted, and filled at once where the current price makes
    /// it marketable. On `Err` the fill did not fit and the order stays
    /// submitted.
    pub fn send_order(&mut self, market: &Market, order: Order) -> (r: Result<(), Overflow>)
        ensures
            final(self).commission == old(self).commission,
            final(self).cursors == old(self).cursors,
            final(self).account.spec_starting_cash() == old(self).account.spec_starting_cash(),
            (final(self).state(), r is Ok) == sent(
                old(self).state(),
                old(self).commission,
                market.clock@.state.spec_is_open(),
                market.clock.spec_datetime(),
                market.spec_current_price(order.ticker@),
                order,
            ),
    {
        let now = market.datetime();
        if !market.is_open() {
            self.account.inactive_orders.push(order.clone());
            self.report_event(Event::OrderUpdate { status: OrderStatus::Rejected, time: now, order });
            return Ok(());
        }
        self.account.active_orders.push(order.clone());
        self.report_event(
            Event::OrderUpdate { status: OrderStatus::Submitted, time: now, order: order.clone() },
        );
        match market.get_current_price(order.ticker.as_str()) {
            Some(price) => {
                if order.is_marketable(price) {
                    self.fill_order(market, order, price)
                } else {
                    Ok(())
                }
            },
            None => Ok(()),
        }
    }

    /// Market orders that close the positions: one for every position that is
    /// not flat, for the negated quantity.
    pub fn closing_orders(&self) -> (r: Vec<Order>)
        ensures
            are_market_orders(r@, closing_shares(self.account.holdings())),
    {
        let mut orders: Vec<Order> = Vec::new();
        let mut i: usize = 0;
        let ghost all = self.account.holdings();
        proof {
            assert(all.take(0) == Seq::<Holding>::empty());
        }
        while i < self.account.positions.len()
            invariant
                i <= self.account.positions@.len(),
                all == self.account.holdings(),
                are_market_orders(orders@, closing_shares(all.take(i as int))),
            decreases self.account.positions.len() - i,
        {
            let position = &self.account.positions[i];
            proof {
                assert(all.take(i + 1).drop_last() == all.take(i as int));
                assert(all.take(i + 1).last() == all[i as int]);
            }
            let quantity = position.quantity();
            if !quantity.is_zero() {
                let ghost before = orders@;
                orders.push(Order::new(position.ticker().as_str(), quantity.neg()));
                proof {
                    let shares = closing_shares(all.take(i + 1));
                    assert forall|k: int| 0 <= k < orders@.len() implies {
                        &&& (#[trigger] orders@[k]).ticker@ == shares[k].0
                        &&& orders@[k].shares == shares[k].1
                        &&& orders@[k].order_type == OrderType::Market
                    } by {
                        if k < before.len() {
                            assert(orders@[k] == before[k]);
                        }
                    }
                }
            }
            i = i + 1;
        }
        proof {
            assert(all.take(i as int) == all);
        }
        orders
    }

    /// Sends the orders one after the other, up to the first that fails.
    pub fn send_orders(&mut self, market: &Market, orders: Vec<Order>) -> (r: Result<(), Overflow>)
        ensures
            final(self).commission == old(self).commission,
            final(self).cursors == old(self).cursors,
            final(self).account.spec_starting_cash() == old(self).account.spec_starting_cash(),
            (final(self).state(), r is Ok) == sent_all(
                old(self).state(),
                old(self).commission,
                *market,
                orders@,
            ),
    {
        let mut i: usize = 0;
        proof {
            assert(orders@.skip(0) == orders@);
        }
        while i < orders.len()
            invariant
                i <= orders@.len(),
                self.commission == old(self).commission,
                self.cursors == old(self).cursors,
                self.account.spec_starting_cash() == old(self).account.spec_starting_cash(),
                sent_all(old(self).state(), old(self).commission, *market, orders@) == sent_all(
                    self.state(),
                    self.commission,
                    *market,
                    orders@.skip(i as int),
                ),
            decreases orders.len() - i,
        {
            proof {
                assert(orders@.skip(i as int)[0] == orders@[i as int]);
                assert(orders@.skip(i as int).drop_first() == orders@.skip(i + 1));
            }
            match self.send_order(market, orders[i].clone()) {
                Ok(_) => {},
                Err(e) => {
                    return Err(e);
                },
            }
            i = i + 1;
        }
        Ok(())
    }

    /// Closes the positions: sends a market order for the negated quantity of
    /// every position that is not flat. The orders get fresh identifiers.
    pub fn close_positions(&mut self, market: &Market) -> (r: Result<(), Overflow>)
        ensures
            final(self).commission == old(self).commission,
            final(self).cursors == old(self).cursors,
            final(self).account.spec_starting_cash() == old(self).account.spec_starting_cash(),
            exists|orders: Seq<Order>|
                are_market_orders(orders, closing_shares(old(self).account.holdings())) && (
                    final(self).state(),
                    r is Ok,
                ) == #[trigger] sent_all(old(self).state(), old(self).commission, *market, orders),
    {
        let orders = self.closing_orders();
        let ghost sent_orders = orders@;
        let r = self.send_orders(market, orders);
        proof {
            assert((self.state(), r is Ok) == sent_all(
                old(self).state(),
                old(self).commission,
                *market,
                sent_orders,
            ));
        }
        r
    }

    /// Fills every active order that the current price of its symbol makes
    /// marketable, in the order of the active orders. On `Err` a fill did not
    /// fit; the orders before it are filled, the others are as they were.
    pub fn reconcile_active_orders(&mut self, market: &Market) -> (r: Result<(), Overflow>)
        ensures
            final(self).commission == old(self).commission,
            final(self).cursors == old(self).cursors,
            final(self).account.spec_starting_cash() == old(self).account.spec_starting_cash(),
            (final(self).state(), r is Ok) == filled_all(
                old(self).state(),
                old(self).commission,
                *market,
                fillable_orders(*market, old(self).account.active_orders@),
            ),
            r is Ok ==> fillable_orders(*market, final(self).account.active_orders@).len() == 0,
    {
        proof {
            let s = old(self).state();
            if filled_all(s, old(self).commission, *market, fillable_orders(*market, s.active)).1 {
                lemma_reconciled(s, old(self).commission, *market);
            }
        }
        let mut to_fill: Vec<Order> = Vec::new();
        let mut i: usize = 0;
        let ghost active = self.account.active_orders@;
        proof {
            assert(active.take(0) == Seq::<Order>::empty());
        }
        while i < self.account.active_orders.len()
            invariant
                i <= self.account.active_orders@.len(),
                active == self.account.active_orders@,
                to_fill@ == fillable_orders(*market, active.take(i as int)),
            decreases self.account.active_orders.len() - i,
        {
            let order = &self.account.active_orders[i];
            proof {
                assert(active.take(i + 1).drop_last() == active.take(i as int));
                assert(active.take(i + 1).last() == active[i as int]);
            }
            match market.get_current_price(order.ticker.as_str()) {
                Some(price) => {
                    if order.is_marketable(price) {
                        to_fill.push(order.clone());
                    }
                },
                None => {},
            }
            i = i + 1;
        }
        proof {
            assert(active.take(i as int) == active);
            assert(to_fill@.skip(0) == to_fill@);
        }
        let mut k: usize = 0;
        while k < to_fill.len()
            invariant
                k <= to_fill@.len(),
                to_fill@ == fillable_orders(*market, old(self).account.active_orders@),
                self.commission == old(self).commission,
                self.cursors == old(self).cursors,
                self.account.spec_starting_cash() == old(self).account.spec_starting_cash(),
                filled_all(old(self).state(), old(self).commission, *market, to_fill@)
                    == filled_all(self.state(), self.commission, *market, to_fill@.skip(k as int)),
            decreases to_fill.len() - k,
        {
            proof {
                assert(to_fill@.skip(k as int)[0] == to_fill@[k as int]);
                assert(to_fill@.skip(k as int).drop_first() == to_fill@.skip(k + 1));
            }
            let order = to_fill[k].clone();
            let price = match market.get_current_price(order.ticker.as_str()) {
                Some(p) => p,
                None => {
                    return Err(Overflow);
                },
            };
            match self.fill_order(market, order, price) {
                Ok(_) => {},
                Err(e) => {
                    return Err(e);
                },
            }
            k = k + 1;
        }
        Ok(())
    }

    /// Expires every active order, the youngest first: each is archived and
    /// reported as expired.
    pub fn expire_orders(&mut self, market: &Market)
        ensures
            final(self).commission == old(self).commission,
            final(self).cursors == old(self).cursors,
            final(self).account.spec_starting_cash() == old(self).account.spec_starting_cash(),
            final(self).state() == expired(old(self).state(), market.clock.spec_datetime()),
            final(self).account.active_orders@.len() == 0,
    {
        let now = market.datetime();
        while self.account.active_orders.len() > 0
            invariant
                now == market.clock.spec_datetime(),
                self.commission == old(self).commission,
                self.cursors == old(self).cursors,
                self.account.spec_starting_cash() == old(self).account.spec_starting_cash(),
                expired(old(self).state(), now) == expired(self.state(), now),
            decreases self.account.active_orders@.len(),
        {
            let ghost before = self.state();
            let order = self.account.active_orders.pop().unwrap();
            self.account.inactive_orders.push(order.clone());
            self.report_event(Event::OrderUpdate { status: OrderStatus::Expired, time: now, order });
            proof {
                assert(self.state() == (BrokerageState {
                    active: before.active.drop_last(),
                    inactive: before.inactive.push(order),
                    log: before.log.push(update(OrderStatus::Expired, now, order)),
                    ..before
                }));
            }
        }
    }
}

/// Worth of the first `n` positions at the current prices, in units of
/// 10^-56; a position without a price counts for nothing.
pub open spec fn worth_of(holdings: Seq<Holding>, market: Market, n: int) -> int
    decreases n,
{
    if n <= 0 {
        0
    } else {
        let ticker = holdings[n - 1].0;
        worth_of(holdings, market, n - 1) + held_quantity(holdings, ticker) * (
        match market.spec_current_price(ticker) {
            Some(p) => p@,
            None => 0,
        })
    }
}

/// Where the equity is computed it is the cash plus the worth of the
/// positions, to the last digit.
pub proof fn lemma_equity_exact(cash: Decimal, holdings: Seq<Holding>, market: Market, n: int)
    requires
        0 <= n <= holdings.len(),
        cash.wf(),
        forall|t: Seq<char>| #[trigger] market.spec_current_price(t) matches Some(p) ==> p.wf(),
        forall|i: int|
            0 <= i < holdings.len() ==> crate::position::lots_wf((#[trigger] holdings[i]).1)
                && crate::position::sum_quantity(holdings[i].1) is Some,
    ensures
        equity_of(cash, holdings, market, n) matches Some(e) ==> e.wf() && e@ * unit(0) == cash@
            * unit(0) + worth_of(holdings, market, n),
    decreases n,
{
    if n > 0 {
        lemma_equity_exact(cash, holdings, market, n - 1);
        match equity_of(cash, holdings, market, n - 1) {
            Some(acc) => {
                let ticker = holdings[n - 1].0;
                Decimal::lemma_spec_zero();
                let price = match market.spec_current_price(ticker) {
                    Some(p) => p,
                    None => Decimal::spec_zero(),
                };
                let held = held_quantity(holdings, ticker);
                match crate::account::holding_index(holdings, ticker) {
                    Some(i) => {
                        crate::position::lemma_sum_quantity_exact(holdings[i].1);
                        Decimal::lemma_of_value(
                            crate::position::sum_quantity(holdings[i].1).unwrap(),
                        );
                    },
                    None => {},
                }
                let quantity = Decimal::of_value(held);
                assert(quantity.wf() && quantity@ == held);
                quantity.lemma_checked_mul(price);
                match quantity.spec_checked_mul(price) {
                    Some(value) => {
                        acc.lemma_checked_add(value);
                        let u = unit(0);
                        let a = acc@;
                        let v = value@;
                        assert((a + v) * u == a * u + v * u) by (nonlinear_arith);
                    },
                    None => {},
                }
            },
            None => {},
        }
    }
}

/// Once the equity of some positions does not fit, the equity of more
/// positions does not fit either.
proof fn lemma_equity_fails(cash: Decimal, holdings: Seq<Holding>, market: Market, k: int, n: int)
    requires
        k <= n,
        equity_of(cash, holdings, market, k) is None,
    ensures
        equity_of(cash, holdings, market, n) is None,
    decreases n - k,
{
    if k < n {
        lemma_equity_fails(cash, holdings, market, k, n - 1);
    }
}

} // verus!
