//! What a trading strategy is to the simulator: a set of callbacks, one per
//! session state and one per event.
use crate::brokerage::{fillable_orders, Brokerage, Event};
use crate::clock::MarketState;
use crate::commission::Commission;
use crate::market::Market;
use vstd::prelude::*;

verus! {

/// A trading strategy. The simulator calls the callback of the session state
/// that the market is in, once per tick, and hands over every event that the
/// brokerage reports. A callback that fails ends the simulation. What a
/// callback may count on is written as its `requires`. Every callback may be
/// left out: it then succeeds and changes neither the strategy nor the
/// brokerage, which is what its `default_ensures` says. A strategy that writes
/// a callback of its own is bound by none of this.
pub trait Strategy<C: Commission>: Sized {
    type Error;

    /// Called once, before the first tick.
    fn initialize(&mut self) {
    }

    fn before_open(&mut self, brokerage: &mut Brokerage<C>, market: &Market) -> (r: Result<
        (),
        Self::Error,
    >)
        requires
            market.clock@.state == MarketState::PreOpen,
        default_ensures
            r is Ok,
            *final(self) == *old(self),
            *final(brokerage) == *old(brokerage),
    {
        Ok(())
    }

    fn at_open(&mut self, brokerage: &mut Brokerage<C>, market: &Market) -> (r: Result<
        (),
        Self::Error,
    >)
        requires
            market.clock@.state == MarketState::Opening,
        default_ensures
            r is Ok,
            *final(self) == *old(self),
            *final(brokerage) == *old(brokerage),
    {
        Ok(())
    }

    /// Called after the active orders have been reconciled with the prices
    /// of this tick: none of them is marketable.
    fn during_regular_hours(&mut self, brokerage: &mut Brokerage<C>, market: &Market) -> (r: Result<
        (),
        Self::Error,
    >)
        requires
            market.clock@.state == MarketState::Open,
            fillable_orders(*market, old(brokerage).account.active_orders@).len() == 0,
        default_ensures
            r is Ok,
            *final(self) == *old(self),
            *final(brokerage) == *old(brokerage),
    {
        Ok(())
    }

    fn at_close(&mut self, brokerage: &mut Brokerage<C>, market: &Market) -> (r: Result<
        (),
        Self::Error,
    >)
        requires
            market.clock@.state == MarketState::Closing,
        default_ensures
            r is Ok,
            *final(self) == *old(self),
            *final(brokerage) == *old(brokerage),
    {
        Ok(())
    }

    /// Called after the orders that were still active have expired: no order
    /// is active.
    fn after_close(&mut self, brokerage: &mut Brokerage<C>, market: &Market) -> (r: Result<
        (),
        Self::Error,
    >)
        requires
            market.clock@.state == MarketState::Closed,
            old(brokerage).account.active_orders@.len() == 0,
        default_ensures
            r is Ok,
            *final(self) == *old(self),
            *final(brokerage) == *old(brokerage),
    {
        Ok(())
    }

    /// Called for every event that the brokerage reports, in the order of
    /// emission.
    fn on_event(&mut self, event: Event) -> (r: Result<(), Self::Error>)
        default_ensures
            r is Ok,
            *final(self) == *old(self),
    {
        Ok(())
    }
}

} // verus!
