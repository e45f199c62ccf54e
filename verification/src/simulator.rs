//! The replay loop: it drives the market through its session states, calls
//! the strategy, lets the brokerage reconcile and expire orders, hands the
//! events on, and samples the equity once per tick.
//!
//! A tick has three parts. The brokerage gets ready (`prepare`), the strategy
//! gets the callback of the session state, and the tick is brought to its end
//! (`conclude`): every event that is waiting goes to the strategy and into the
//! record (`deliver`), the equity is sampled and the clock ticks (`settle`).
//! What a callback answers is the strategy's affair; what the simulator makes
//! of the answer is stated of the functions that take it.
use crate::brokerage::{
    equity_of, expired, fillable_orders, filled_all, Brokerage, BrokerageState, Event,
};
use crate::clock::{starting_cursor, tick_state, tick_states, ClockState, MarketState};
use crate::commission::Commission;
use crate::data::{DataProvider, ProviderFetchFailed};
use crate::data_manager::downloaded;
use crate::decimal::{Decimal, Overflow};
use crate::market::Market;
use crate::options::Options;
use crate::statistics::{counts_after, paid_after, Statistics};
use crate::strategy::Strategy;
use crate::time::DateTime;
use vstd::prelude::*;

verus! {

/// Why a simulation ended early.
#[derive(Debug)]
pub enum SimulationError<E> {
    /// A callback of the strategy failed.
    Strategy(E),
    /// The data source failed.
    Provider(ProviderFetchFailed),
    /// An amount of money or a number of shares did not fit in a decimal.
    Overflow,
}

/// What the brokerage holds once it is ready for the callback of the tick,
/// and whether it got ready: in `Open` the active orders that the prices make
/// marketable are filled, in `Closed` the active orders expire, in the other
/// states nothing is done.
pub open spec fn prepared<C: Commission>(s: BrokerageState, commission: C, market: Market) -> (
    BrokerageState,
    bool,
) {
    match market.clock@.state {
        MarketState::Open => filled_all(s, commission, market, fillable_orders(market, s.active)),
        MarketState::Closed => (expired(s, market.clock.spec_datetime()), true),
        _ => (s, true),
    }
}

/// The instant at which the cursor of a clock stands.
pub open spec fn cursor_of(s: ClockState) -> DateTime {
    DateTime::at(s.day, s.minute)
}

/// A simulation: one brokerage, one market, one strategy and the record.
pub struct Simulator<C: Commission, S: Strategy<C>> {
    pub brokerage: Brokerage<C>,
    pub market: Market,
    pub strategy: S,
    pub statistics: Statistics,
    pub options: Options,
}

impl<C: Commission, S: Strategy<C>> Simulator<C, S> {
    /// Whether `after` is what the end of a tick makes of `before`, the
    /// simulation as the callback of the tick has left it. The events that
    /// were waiting for `listener` are in the record, in their order, counted
    /// and their commissions added; the equity of that moment is the new last
    /// sample, taken at the cursor; the clock has ticked; the account and the
    /// log of the brokerage are as they were.
    pub open spec fn concluded(before: Self, after: Self, listener: int) -> bool {
        let waiting = before.brokerage.pending(listener);
        &&& !before.market.clock.spec_is_done()
        &&& after.options == before.options
        &&& after.market.data_manager == before.market.data_manager
        &&& after.market.clock.spec_end() == before.market.clock.spec_end()
        &&& after.market.clock.spec_resolution() == before.market.clock.spec_resolution()
        &&& after.market.clock@ == tick_state(
            before.market.clock@,
            before.market.clock.spec_resolution(),
            before.market.clock.spec_end()@,
        )
        &&& after.brokerage.account == before.brokerage.account
        &&& after.brokerage.commission == before.brokerage.commission
        &&& after.brokerage.log == before.brokerage.log
        &&& after.brokerage.pending(listener).len() == 0
        &&& after.statistics.spec_event_log() == before.statistics.spec_event_log() + waiting
        &&& after.statistics.spec_order_counts() == counts_after(
            before.statistics.spec_order_counts(),
            waiting,
        )
        &&& Some(after.statistics.spec_commission_paid()) == paid_after(
            before.statistics.spec_commission_paid(),
            waiting,
        )
        &&& equity_of(
            before.brokerage.account.cash,
            before.brokerage.account.holdings(),
            before.market,
            before.brokerage.account.positions@.len() as int,
        ) matches Some(equity) && after.statistics.spec_equity()
            == before.statistics.spec_equity().push((before.market.clock.spec_datetime(), equity))
    }

    /// Whether `after` is what one tick makes of `before`: there is the
    /// simulation as the callback has left it, with the market, the record and
    /// the options untouched, and `after` is what the end of the tick makes of
    /// that.
    pub open spec fn stepped(before: Self, after: Self, listener: int) -> bool {
        exists|mid: Self|
            {
                &&& mid.market == before.market
                &&& mid.statistics == before.statistics
                &&& mid.options == before.options
                &&& #[trigger] Self::concluded(mid, after, listener)
            }
    }

    /// Whether the record of `after` holds one sample more per tick than that
    /// of `before`, each taken at the cursor of its tick, and the clock of
    /// `after` is that of `before` after `ticks` ticks.
    pub open spec fn sampled(before: Self, after: Self, ticks: nat) -> bool {
        let curve = after.statistics.spec_equity();
        let start = before.statistics.spec_equity().len() as int;
        let resolution = before.market.clock.spec_resolution();
        let end = before.market.clock.spec_end()@;
        &&& after.market.clock@ == tick_states(before.market.clock@, resolution, end, ticks)
        &&& curve.len() == start + ticks
        &&& curve.take(start) == before.statistics.spec_equity()
        &&& forall|j: int|
            start <= j < start + ticks ==> (#[trigger] curve[j]).0 == cursor_of(
                tick_states(before.market.clock@, resolution, end, (j - start) as nat),
            )
    }

    /// Whether `after` is what a run makes of `before`, `trace` being the
    /// simulation before its first tick and after every tick that went well.
    /// The first of them has the clock, the record and the holdings of
    /// `before`, the planned data downloaded and nothing waiting for
    /// `listener`; each follows from the one before it by one tick. Where the
    /// run went well (`ok`), `after` is the last of them and its market is
    /// done; where a tick failed, `after` has the market and the equity curve
    /// of the last of them.
    #[verifier::opaque]
    pub open spec fn ran(before: Self, after: Self, trace: Seq<Self>, listener: int, ok: bool) -> bool {
        &&& trace.len() >= 1
        &&& trace[0].market.clock == before.market.clock
        &&& downloaded(before.market.data_manager, trace[0].market.data_manager, true)
        &&& trace[0].statistics == before.statistics
        &&& trace[0].options == before.options
        &&& trace[0].brokerage.state() == before.brokerage.state()
        &&& trace[0].brokerage.pending(listener).len() == 0
        &&& forall|i: int|
            0 <= i < trace.len() - 1 ==> Self::stepped(#[trigger] trace[i], trace[i + 1], listener)
        &&& Self::sampled(before, after, (trace.len() - 1) as nat)
        &&& after.market == trace.last().market
        &&& after.statistics.spec_equity() == trace.last().statistics.spec_equity()
        &&& ok ==> after == trace.last() && after.market.clock.spec_is_done()
    }

    /// A run that has not ticked yet.
    proof fn lemma_ran_start(before: Self, first: Self, listener: int)
        requires
            first.market.clock == before.market.clock,
            downloaded(before.market.data_manager, first.market.data_manager, true),
            first.statistics == before.statistics,
            first.options == before.options,
            first.brokerage.state() == before.brokerage.state(),
            first.brokerage.pending(listener).len() == 0,
        ensures
            Self::ran(before, first, seq![first], listener, false),
    {
        reveal(Simulator::ran);
        let curve = first.statistics.spec_equity();
        assert(curve.take(curve.len() as int) =~= curve);
    }

    /// A run goes on by one tick.
    proof fn lemma_ran_step(before: Self, at: Self, after: Self, trace: Seq<Self>, listener: int)
        requires
            Self::ran(before, at, trace, listener, false),
            trace.last() == at,
            Self::stepped(at, after, listener),
            at.market.clock.spec_resolution() == before.market.clock.spec_resolution(),
            at.market.clock.spec_end() == before.market.clock.spec_end(),
            at.market.clock.spec_datetime() == cursor_of(at.market.clock@),
            after.market.clock@ == tick_state(
                at.market.clock@,
                at.market.clock.spec_resolution(),
                at.market.clock.spec_end()@,
            ),
            after.statistics.spec_equity().len() == at.statistics.spec_equity().len() + 1,
            after.statistics.spec_equity().drop_last() == at.statistics.spec_equity(),
            after.statistics.spec_equity().last().0 == at.market.clock.spec_datetime(),
        ensures
            Self::ran(before, after, trace.push(after), listener, false),
    {
        reveal(Simulator::ran);
        let longer = trace.push(after);
        let ticks = (trace.len() - 1) as nat;
        let start = before.statistics.spec_equity().len() as int;
        let curve = after.statistics.spec_equity();
        let earlier = at.statistics.spec_equity();
        assert(trace[trace.len() - 1] == at);
        assert forall|i: int| 0 <= i < longer.len() - 1 implies Self::stepped(
            #[trigger] longer[i],
            longer[i + 1],
            listener,
        ) by {
            if i < trace.len() - 1 {
                assert(longer[i] == trace[i]);
                assert(longer[i + 1] == trace[i + 1]);
            } else {
                assert(longer[i] == at);
                assert(longer[i + 1] == after);
            }
        }
        assert(longer[0] == trace[0]);
        assert(longer.last() == after);
        assert(curve.take(start) =~= earlier.take(start));
        assert forall|j: int| start <= j < start + ticks + 1 implies (#[trigger] curve[j]).0
            == cursor_of(
            tick_states(
                before.market.clock@,
                before.market.clock.spec_resolution(),
                before.market.clock.spec_end()@,
                (j - start) as nat,
            ),
        ) by {
            if j < start + ticks {
                assert(curve[j] == earlier[j]);
            } else {
                assert(curve[j] == curve.last());
            }
        }
        assert(Self::sampled(before, after, ticks + 1));
    }

    /// A run ends with a tick that fails.
    proof fn lemma_ran_failed(before: Self, at: Self, after: Self, trace: Seq<Self>, listener: int)
        requires
            Self::ran(before, at, trace, listener, false),
            trace.last() == at,
            after.market == at.market,
            after.statistics.spec_equity() == at.statistics.spec_equity(),
        ensures
            Self::ran(before, after, trace, listener, false),
    {
        reveal(Simulator::ran);
    }

    /// A run ends with the market done.
    proof fn lemma_ran_done(before: Self, after: Self, trace: Seq<Self>, listener: int)
        requires
            Self::ran(before, after, trace, listener, false),
            trace.last() == after,
            after.market.clock.spec_is_done(),
        ensures
            Self::ran(before, after, trace, listener, true),
    {
        reveal(Simulator::ran);
    }

    /// A simulation that starts with `cash`. `None` where the calendar has no
    /// day to start on.
    pub fn new(cash: Decimal, commission: C, strategy: S, options: Options) -> (r: Option<
        Simulator<C, S>,
    >)
        ensures
            r is Some == starting_cursor(options.start@, options.warmup@) is Some,
            r matches Some(sim) ==> {
                &&& Some((sim.market.clock@.day, sim.market.clock@.minute)) == starting_cursor(
                    options.start@,
                    options.warmup@,
                )
                &&& sim.market.clock@.state == MarketState::PreOpen
                &&& sim.market.clock.spec_end() == options.end
                &&& sim.market.clock.spec_resolution() == options.resolution
                &&& sim.market.data_manager.next_job == 0
                &&& sim.brokerage.account.cash == cash
                &&& sim.brokerage.account.spec_starting_cash() == cash
                &&& sim.brokerage.account.positions@.len() == 0
                &&& sim.brokerage.account.active_orders@.len() == 0
                &&& sim.brokerage.account.inactive_orders@.len() == 0
                &&& sim.brokerage.commission == commission
                &&& sim.brokerage.log@.len() == 0
                &&& sim.brokerage.cursors@.len() == 0
                &&& sim.statistics.spec_order_counts().total() == 0
                &&& sim.statistics.spec_equity().len() == 0
                &&& sim.statistics.spec_event_log().len() == 0
                &&& sim.strategy == strategy
                &&& sim.options == options
            },
    {
        let market = match Market::new(&options) {
            Some(m) => m,
            None => {
                return None;
            },
        };
        let brokerage = Brokerage::new(cash).commission(commission);
        Some(Simulator { brokerage, market, strategy, statistics: Statistics::new(), options })
    }

    /// Gets the brokerage ready for the callback of the tick: in `Open` it
    /// reconciles the active orders with the prices, in `Closed` it expires
    /// them. On `Err` a fill did not fit; the fills before it stand.
    pub fn prepare(&mut self) -> (r: Result<(), Overflow>)
        ensures
            final(self).market == old(self).market,
            final(self).strategy == old(self).strategy,
            final(self).statistics == old(self).statistics,
            final(self).options == old(self).options,
            final(self).brokerage.commission == old(self).brokerage.commission,
            final(self).brokerage.cursors == old(self).brokerage.cursors,
            final(self).brokerage.account.spec_starting_cash() == old(
                self,
            ).brokerage.account.spec_starting_cash(),
            (final(self).brokerage.state(), r is Ok) == prepared(
                old(self).brokerage.state(),
                old(self).brokerage.commission,
                old(self).market,
            ),
            r is Ok && old(self).market.clock@.state == MarketState::Open ==> fillable_orders(
                old(self).market,
                final(self).brokerage.account.active_orders@,
            ).len() == 0,
            old(self).market.clock@.state == MarketState::Closed ==> final(self).brokerage.account.active_orders@.len() == 0,
    {
        match self.market.state() {
            MarketState::Open => self.brokerage.reconcile_active_orders(&self.market),
            MarketState::Closed => {
                self.brokerage.expire_orders(&self.market);
                Ok(())
            },
            _ => Ok(()),
        }
    }

    /// What becomes of an event once the strategy has seen it, `seen` being
    /// what the strategy answered. Where the strategy failed, that is the
    /// error and nothing has changed. Else the event goes into the record; on
    /// `Overflow` the commissions paid did not fit and the record is as it
    /// was.
    pub fn deliver(&mut self, event: Event, seen: Result<(), S::Error>) -> (r: Result<
        (),
        SimulationError<S::Error>,
    >)
        ensures
            final(self).market == old(self).market,
            final(self).brokerage == old(self).brokerage,
            final(self).strategy == old(self).strategy,
            final(self).options == old(self).options,
            final(self).statistics.spec_equity() == old(self).statistics.spec_equity(),
            match seen {
                Err(e) => r == Err::<(), SimulationError<S::Error>>(SimulationError::Strategy(e))
                    && *final(self) == *old(self),
                Ok(_) => {
                    let paid = paid_after(
                        old(self).statistics.spec_commission_paid(),
                        seq![event],
                    );
                    match paid {
                        Some(sum) => {
                            &&& r is Ok
                            &&& final(self).statistics.spec_event_log() == old(
                                self,
                            ).statistics.spec_event_log().push(event)
                            &&& final(self).statistics.spec_order_counts() == counts_after(
                                old(self).statistics.spec_order_counts(),
                                seq![event],
                            )
                            &&& final(self).statistics.spec_commission_paid() == sum
                        },
                        None => {
                            &&& r matches Err(SimulationError::Overflow)
                            &&& final(self).statistics.spec_event_log() == old(
                                self,
                            ).statistics.spec_event_log()
                            &&& final(self).statistics.spec_order_counts() == old(
                                self,
                            ).statistics.spec_order_counts()
                            &&& final(self).statistics.spec_commission_paid() == old(
                                self,
                            ).statistics.spec_commission_paid()
                        },
                    }
                },
            },
    {
        match seen {
            Ok(_) => {},
            Err(e) => {
                return Err(SimulationError::Strategy(e));
            },
        }
        match self.statistics.record(event) {
            Ok(_) => Ok(()),
            Err(_) => Err(SimulationError::Overflow),
        }
    }

    /// Ends a tick: samples the equity at the cursor and ticks the clock.
    /// On `Err` the equity does not fit and nothing has changed.
    pub fn settle(&mut self) -> (r: Result<(), Overflow>)
        requires
            !old(self).market.clock.spec_is_done(),
        ensures
            final(self).brokerage == old(self).brokerage,
            final(self).strategy == old(self).strategy,
            final(self).options == old(self).options,
            final(self).market.data_manager == old(self).market.data_manager,
            final(self).market.clock.spec_end() == old(self).market.clock.spec_end(),
            final(self).market.clock.spec_resolution() == old(self).market.clock.spec_resolution(),
            final(self).statistics.spec_event_log() == old(self).statistics.spec_event_log(),
            final(self).statistics.spec_order_counts() == old(self).statistics.spec_order_counts(),
            final(self).statistics.spec_commission_paid() == old(
                self,
            ).statistics.spec_commission_paid(),
            match equity_of(
                old(self).brokerage.account.cash,
                old(self).brokerage.account.holdings(),
                old(self).market,
                old(self).brokerage.account.positions@.len() as int,
            ) {
                Some(equity) => {
                    &&& r is Ok
                    &&& final(self).statistics.spec_equity() == old(
                        self,
                    ).statistics.spec_equity().push(
                        (old(self).market.clock.spec_datetime(), equity),
                    )
                    &&& final(self).market.clock@ == tick_state(
                        old(self).market.clock@,
                        old(self).market.clock.spec_resolution(),
                        old(self).market.clock.spec_end()@,
                    )
                    &&& final(self).market.clock.measure() < old(self).market.clock.measure()
                },
                None => r is Err && *final(self) == *old(self),
            },
    {
        let equity = match self.brokerage.get_equity(&self.market) {
            Some(e) => e,
            None => {
                return Err(Overflow);
            },
        };
        let datetime = self.market.datetime();
        self.statistics.record_equity(datetime, equity);
        self.market.tick();
        Ok(())
    }

    /// Brings a tick to its end, `outcome` being what the callback of the
    /// tick answered. Where the callback failed, that is the error and
    /// nothing has changed. Else every event that is waiting for `listener`
    /// goes to the strategy and then into the record, in the order of
    /// emission, the equity is sampled and the clock ticks. On `Err` the clock
    /// has not ticked and no sample was taken.
    pub fn conclude(&mut self, outcome: Result<(), S::Error>, listener: usize) -> (r: Result<
        (),
        SimulationError<S::Error>,
    >)
        requires
            !old(self).market.clock.spec_is_done(),
        ensures
            outcome matches Err(e) ==> r == Err::<(), SimulationError<S::Error>>(
                SimulationError::Strategy(e),
            ) && *final(self) == *old(self),
            outcome is Ok && old(self).brokerage.pending(listener as int).len() == 0 ==> match equity_of(
                old(self).brokerage.account.cash,
                old(self).brokerage.account.holdings(),
                old(self).market,
                old(self).brokerage.account.positions@.len() as int,
            ) {
                Some(_) => r is Ok,
                None => r matches Err(SimulationError::Overflow) && *final(self) == *old(self),
            },
            !(r matches Err(SimulationError::Provider(_))),
            final(self).options == old(self).options,
            final(self).brokerage.account == old(self).brokerage.account,
            final(self).brokerage.commission == old(self).brokerage.commission,
            final(self).brokerage.log == old(self).brokerage.log,
            match r {
                Ok(_) => {
                    &&& outcome is Ok
                    &&& Self::concluded(*old(self), *final(self), listener as int)
                    &&& final(self).market.clock.measure() < old(self).market.clock.measure()
                },
                Err(_) => {
                    &&& final(self).market == old(self).market
                    &&& final(self).statistics.spec_equity() == old(self).statistics.spec_equity()
                },
            },
    {
        match outcome {
            Ok(_) => {},
            Err(e) => {
                return Err(SimulationError::Strategy(e));
            },
        }
        let ghost waiting = self.brokerage.pending(listener as int);
        let ghost mut drained: Seq<Event> = Seq::empty();
        proof {
            assert(drained + waiting =~= waiting);
            assert(old(self).statistics.spec_event_log() + drained =~= old(
                self,
            ).statistics.spec_event_log());
        }
        loop
            invariant
                outcome is Ok,
                waiting == old(self).brokerage.pending(listener as int),
                waiting.len() == 0 ==> *self == *old(self),
                self.market == old(self).market,
                self.options == old(self).options,
                self.brokerage.account == old(self).brokerage.account,
                self.brokerage.commission == old(self).brokerage.commission,
                self.brokerage.log == old(self).brokerage.log,
                self.statistics.spec_equity() == old(self).statistics.spec_equity(),
                drained + self.brokerage.pending(listener as int) == waiting,
                self.statistics.spec_event_log() == old(self).statistics.spec_event_log() + drained,
                self.statistics.spec_order_counts() == counts_after(
                    old(self).statistics.spec_order_counts(),
                    drained,
                ),
                Some(self.statistics.spec_commission_paid()) == paid_after(
                    old(self).statistics.spec_commission_paid(),
                    drained,
                ),
            ensures
                waiting.len() == 0 ==> *self == *old(self),
                self.market == old(self).market,
                self.options == old(self).options,
                self.brokerage.account == old(self).brokerage.account,
                self.brokerage.commission == old(self).brokerage.commission,
                self.brokerage.log == old(self).brokerage.log,
                self.statistics.spec_equity() == old(self).statistics.spec_equity(),
                self.brokerage.pending(listener as int).len() == 0,
                drained == waiting,
                self.statistics.spec_event_log() == old(self).statistics.spec_event_log() + drained,
                self.statistics.spec_order_counts() == counts_after(
                    old(self).statistics.spec_order_counts(),
                    drained,
                ),
                Some(self.statistics.spec_commission_paid()) == paid_after(
                    old(self).statistics.spec_commission_paid(),
                    drained,
                ),
            decreases self.brokerage.pending(listener as int).len(),
        {
            let ghost before = self.brokerage.pending(listener as int);
            let event = match self.brokerage.try_recv(listener) {
                Some(e) => e,
                None => {
                    proof {
                        assert(drained + before =~= drained);
                    }
                    break ;
                },
            };
            let seen = self.strategy.on_event(event.clone());
            let ghost counts = self.statistics.spec_order_counts();
            let ghost paid = self.statistics.spec_commission_paid();
            match self.deliver(event, seen) {
                Ok(_) => {},
                Err(e) => {
                    return Err(e);
                },
            }
            proof {
                let more = drained.push(event);
                assert(more + before.drop_first() =~= drained + before);
                assert((old(self).statistics.spec_event_log() + drained).push(event) =~= old(
                    self,
                ).statistics.spec_event_log() + more);
                assert(more.drop_last() =~= drained);
                assert(more.last() == event);
                assert(seq![event].drop_last() =~= Seq::<Event>::empty());
                assert(seq![event].last() == event);
                reveal_with_fuel(counts_after, 2);
                reveal_with_fuel(paid_after, 2);
                drained = more;
            }
        }
        match self.settle() {
            Ok(_) => Ok(()),
            Err(_) => Err(SimulationError::Overflow),
        }
    }

    /// One tick of the simulation. The brokerage gets ready, the strategy
    /// gets the callback of the session state, and the tick is brought to its
    /// end. Where the brokerage does not get ready, the step fails with
    /// `Overflow` before the strategy is called. On `Err` the clock has not
    /// ticked and no sample was taken.
    pub fn step(&mut self, listener: usize) -> (r: Result<(), SimulationError<S::Error>>)
        requires
            !old(self).market.clock.spec_is_done(),
        ensures
            final(self).market.data_manager == old(self).market.data_manager,
            final(self).market.clock.spec_end() == old(self).market.clock.spec_end(),
            final(self).market.clock.spec_resolution() == old(self).market.clock.spec_resolution(),
            final(self).options == old(self).options,
            !(r matches Err(SimulationError::Provider(_))),
            !prepared(
                old(self).brokerage.state(),
                old(self).brokerage.commission,
                old(self).market,
            ).1 ==> {
                &&& r matches Err(SimulationError::Overflow)
                &&& final(self).strategy == old(self).strategy
                &&& final(self).statistics == old(self).statistics
                &&& final(self).brokerage.state() == prepared(
                    old(self).brokerage.state(),
                    old(self).brokerage.commission,
                    old(self).market,
                ).0
            },
            match r {
                Ok(_) => {
                    &&& Self::stepped(*old(self), *final(self), listener as int)
                    &&& final(self).market.clock@ == tick_state(
                        old(self).market.clock@,
                        old(self).market.clock.spec_resolution(),
                        old(self).market.clock.spec_end()@,
                    )
                    &&& final(self).market.clock.measure() < old(self).market.clock.measure()
                    &&& final(self).statistics.spec_equity().len() == old(
                        self,
                    ).statistics.spec_equity().len() + 1
                    &&& final(self).statistics.spec_equity().drop_last() == old(
                        self,
                    ).statistics.spec_equity()
                    &&& final(self).statistics.spec_equity().last().0 == old(
                        self,
                    ).market.clock.spec_datetime()
                },
                Err(_) => {
                    &&& final(self).market == old(self).market
                    &&& final(self).statistics.spec_equity() == old(self).statistics.spec_equity()
                },
            },
    {
        match self.prepare() {
            Ok(_) => {},
            Err(_) => {
                return Err(SimulationError::Overflow);
            },
        }
        let outcome = match self.market.state() {
            MarketState::PreOpen => self.strategy.before_open(&mut self.brokerage, &self.market),
            MarketState::Opening => self.strategy.at_open(&mut self.brokerage, &self.market),
            MarketState::Open => self.strategy.during_regular_hours(
                &mut self.brokerage,
                &self.market,
            ),
            MarketState::Closing => self.strategy.at_close(&mut self.brokerage, &self.market),
            MarketState::Closed => self.strategy.after_close(&mut self.brokerage, &self.market),
        };
        let ghost mid = *self;
        let r = self.conclude(outcome, listener);
        proof {
            if r is Ok {
                assert(Self::concluded(mid, *self, listener as int));
                let curve = old(self).statistics.spec_equity();
                let sample = self.statistics.spec_equity().last();
                assert(curve.push(sample).drop_last() =~= curve);
            }
        }
        r
    }

    /// Runs the simulation to its end: downloads the planned data from
    /// `provider`, initialises the strategy, and steps until the market is
    /// done or a step fails. A data source that fails ends the run before the
    /// strategy is called, with clock, record, brokerage and strategy as they
    /// were. A run with nothing to download and nothing to step succeeds.
    pub fn run<P: DataProvider>(&mut self, provider: &mut P) -> (r: Result<
        (),
        SimulationError<S::Error>,
    >)
        ensures
            final(self).options == old(self).options,
            final(self).market.clock.spec_end() == old(self).market.clock.spec_end(),
            final(self).market.clock.spec_resolution() == old(self).market.clock.spec_resolution(),
            downloaded(
                old(self).market.data_manager,
                final(self).market.data_manager,
                !(r matches Err(SimulationError::Provider(_))),
            ),
            old(self).market.clock.spec_is_done() && old(self).market.data_manager.next_job >= old(
                self,
            ).market.data_manager.jobs@.len() ==> r is Ok,
            r is Ok ==> final(self).market.clock.spec_is_done(),
            r matches Err(SimulationError::Provider(_)) ==> {
                &&& final(self).market.clock == old(self).market.clock
                &&& final(self).statistics == old(self).statistics
                &&& final(self).brokerage == old(self).brokerage
                &&& final(self).strategy == old(self).strategy
            },
            !(r matches Err(SimulationError::Provider(_))) ==> exists|
                trace: Seq<Self>,
                listener: int,
            | #[trigger] Self::ran(*old(self), *final(self), trace, listener, r is Ok),
    {
        match self.market.download_data(provider) {
            Ok(_) => {},
            Err(e) => {
                return Err(SimulationError::Provider(e));
            },
        }
        self.strategy.initialize();
        let listener = self.brokerage.subscribe();
        let ghost mut trace: Seq<Self> = seq![*self];
        proof {
            Self::lemma_ran_start(*old(self), *self, listener as int);
        }
        while !self.market.is_done()
            invariant
                self.options == old(self).options,
                self.market.clock.spec_end() == old(self).market.clock.spec_end(),
                self.market.clock.spec_resolution() == old(self).market.clock.spec_resolution(),
                downloaded(old(self).market.data_manager, self.market.data_manager, true),
                old(self).market.clock.spec_is_done() ==> self.market.clock == old(self).market.clock,
                trace.len() >= 1,
                trace.last() == *self,
                Self::ran(*old(self), *self, trace, listener as int, false),
            decreases self.market.clock.measure(),
        {
            proof {
                use_type_invariant(&self.market.clock);
                self.market.clock.lemma_view();
                self.market.clock.spec_datetime().lemma_at();
            }
            let ghost before = *self;
            match self.step(listener) {
                Ok(_) => {},
                Err(e) => {
                    proof {
                        Self::lemma_ran_failed(*old(self), before, *self, trace, listener as int);
                    }
                    return Err(e);
                },
            }
            proof {
                use_type_invariant(&self.market.clock);
                self.market.clock.lemma_view();
                Self::lemma_ran_step(*old(self), before, *self, trace, listener as int);
                trace = trace.push(*self);
            }
        }
        proof {
            Self::lemma_ran_done(*old(self), *self, trace, listener as int);
        }
        Ok(())
    }
}

} // verus!
