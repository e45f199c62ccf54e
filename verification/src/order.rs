//! Orders and their life cycle.
use crate::decimal::Decimal;
use crate::time::DateTime;
use vstd::prelude::*;

verus! {

/// Where an order stands. `PartiallyFilled` is reserved and never reported.
#[derive(Clone, Copy, Debug, PartialEq, Eq, Structural)]
pub enum OrderStatus {
    Submitted,
    Cancelled,
    Filled { fill_time: DateTime, average_fill_price: Decimal },
    PartiallyFilled,
    Rejected,
    Expired,
}

/// The price conditions of an order.
#[derive(Clone, Copy, Debug, PartialEq, Eq, Structural)]
pub enum OrderType {
    Market,
    Limit(Decimal),
    Stop(Decimal),
    StopLimit(Decimal, Decimal),
}

/// An order for a signed number of shares: positive buys, negative sells.
#[derive(Debug, PartialEq, Eq)]
pub struct Order {
    pub id: u128,
    pub ticker: String,
    pub shares: Decimal,
    pub order_type: OrderType,
}

/// Calls `uuid::Uuid::new_v4` and hands the identifier out as a number. It is
/// drawn at random, so nothing is claimed of it.
#[verifier::external_body]
fn fresh_id() -> u128 {
    uuid::Uuid::new_v4().as_u128()
}

/// Whether an order of the given type for `shares` can be filled at `price`.
/// A buy is an order for zero or more shares. For a stop-limit order either
/// condition is enough.
pub open spec fn marketable(order_type: OrderType, shares: Decimal, price: Decimal) -> bool {
    let buy = shares@ >= 0;
    match order_type {
        OrderType::Market => true,
        OrderType::Limit(limit) => if buy {
            limit@ >= price@
        } else {
            limit@ <= price@
        },
        OrderType::Stop(stop) => if buy {
            stop@ <= price@
        } else {
            stop@ >= price@
        },
        OrderType::StopLimit(stop, limit) => if buy {
            stop@ <= price@ || limit@ >= price@
        } else {
            stop@ >= price@ || limit@ <= price@
        },
    }
}

/// What a limit price makes of an order type: the stop price, if any, stays.
pub open spec fn with_limit(order_type: OrderType, limit: Decimal) -> OrderType {
    match order_type {
        OrderType::Market | OrderType::Limit(_) => OrderType::Limit(limit),
        OrderType::Stop(stop) | OrderType::StopLimit(stop, _) => OrderType::StopLimit(stop, limit),
    }
}

/// What a stop price makes of an order type: the limit price, if any, stays.
pub open spec fn with_stop(order_type: OrderType, stop: Decimal) -> OrderType {
    match order_type {
        OrderType::Market | OrderType::Stop(_) => OrderType::Stop(stop),
        OrderType::Limit(limit) | OrderType::StopLimit(_, limit) => OrderType::StopLimit(
            stop,
            limit,
        ),
    }
}

impl Clone for Order {
    fn clone(&self) -> (r: Order)
        ensures
            r == *self,
    {
        Order {
            id: self.id,
            ticker: self.ticker.clone(),
            shares: self.shares,
            order_type: self.order_type,
        }
    }
}

impl Order {
    /// A market order with a fresh identifier, the shares rounded to eight
    /// fractional digits.
    pub fn new(ticker: &str, shares: Decimal) -> (r: Order)
        ensures
            r.ticker@ == ticker@,
            r.shares == shares.spec_round_dp(8),
            r.order_type == OrderType::Market,
    {
        Order {
            id: fresh_id(),
            ticker: ticker.to_owned(),
            shares: shares.round_dp(8),
            order_type: OrderType::Market,
        }
    }

    /// The same order with a limit price.
    pub fn limit_price(self, limit_price: Decimal) -> (r: Order)
        ensures
            r == (Order { order_type: with_limit(self.order_type, limit_price), ..self }),
    {
        let order_type = match self.order_type {
            OrderType::Market | OrderType::Limit(_) => OrderType::Limit(limit_price),
            OrderType::Stop(stop_price) | OrderType::StopLimit(stop_price, _) => {
                OrderType::StopLimit(stop_price, limit_price)
            },
        };
        let mut order = self;
        order.order_type = order_type;
        order
    }

    /// The same order with a stop price.
    pub fn stop_price(self, stop_price: Decimal) -> (r: Order)
        ensures
            r == (Order { order_type: with_stop(self.order_type, stop_price), ..self }),
    {
        let order_type = match self.order_type {
            OrderType::Market | OrderType::Stop(_) => OrderType::Stop(stop_price),
            OrderType::Limit(limit_price) | OrderType::StopLimit(_, limit_price) => {
                OrderType::StopLimit(stop_price, limit_price)
            },
        };
        let mut order = self;
        order.order_type = order_type;
        order
    }

    pub open spec fn spec_is_marketable(&self, price: Decimal) -> bool {
        marketable(self.order_type, self.shares, price)
    }

    /// Whether the order can be filled at `price`.
    pub fn is_marketable(&self, price: Decimal) -> (r: bool)
        ensures
            r == self.spec_is_marketable(price),
    {
        let buy = self.shares.is_sign_positive();
        match self.order_type {
            OrderType::Market => true,
            OrderType::Limit(limit_price) => {
                if buy {
                    limit_price.ge(&price)
                } else {
                    limit_price.le(&price)
                }
            },
            OrderType::Stop(stop_price) => {
                if buy {
                    stop_price.le(&price)
                } else {
                    stop_price.ge(&price)
                }
            },
            OrderType::StopLimit(stop_price, limit_price) => {
                if buy {
                    stop_price.le(&price) || limit_price.ge(&price)
                } else {
                    stop_price.ge(&price) || limit_price.le(&price)
                }
            },
        }
    }
}

} // verus!
