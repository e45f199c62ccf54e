//! The market service: the clock and the data, and the prices that the two
//! give together.
use crate::cache::{is_last_at_or_before, is_range, sorted};
use crate::clock::{starting_cursor, Clock, MarketState};
use crate::data::{Aggregate, DataProvider, ProviderFetchFailed};
use crate::data_manager::{downloaded, plan_chunks, plan_jobs_spec, DataManager};
use crate::decimal::Decimal;
use crate::options::{Options, Resolution};
use crate::time::DateTime;
use vstd::prelude::*;

verus! {

/// The bar of `bars` at the instant `t`, if there is one.
pub open spec fn bar_at(bars: Seq<Aggregate>, t: int) -> Option<Aggregate> {
    if exists|k: int| 0 <= k < bars.len() && (#[trigger] bars[k]).datetime@ == t {
        Some(bars[choose|k: int| 0 <= k < bars.len() && (#[trigger] bars[k]).datetime@ == t])
    } else {
        None
    }
}

/// The latest bar of `bars` at or before the instant `t`, if there is one.
pub open spec fn last_bar(bars: Seq<Aggregate>, t: int) -> Option<Aggregate> {
    if exists|bar: Aggregate| is_last_at_or_before(bars, bar, t) {
        Some(choose|bar: Aggregate| is_last_at_or_before(bars, bar, t))
    } else {
        None
    }
}

/// Sorted bars hold at most one bar per instant.
pub proof fn lemma_bar_at(bars: Seq<Aggregate>, k: int)
    requires
        sorted(bars),
        0 <= k < bars.len(),
    ensures
        bar_at(bars, bars[k].datetime@) == Some(bars[k]),
{
    let t = bars[k].datetime@;
    let c = choose|c: int| 0 <= c < bars.len() && (#[trigger] bars[c]).datetime@ == t;
    if c < k {
        assert(bars[c].datetime@ < bars[k].datetime@);
    }
    if k < c {
        assert(bars[k].datetime@ < bars[c].datetime@);
    }
}

/// Sorted bars have at most one latest bar at or before an instant.
pub proof fn lemma_last_bar(bars: Seq<Aggregate>, bar: Aggregate, t: int)
    requires
        sorted(bars),
        is_last_at_or_before(bars, bar, t),
    ensures
        last_bar(bars, t) == Some(bar),
{
    let other = choose|other: Aggregate| is_last_at_or_before(bars, other, t);
    let i = choose|i: int| 0 <= i < bars.len() && bars[i] == bar;
    let j = choose|j: int| 0 <= j < bars.len() && bars[j] == other;
    assert(bars[i].datetime@ <= bars[j].datetime@);
    assert(bars[j].datetime@ <= bars[i].datetime@);
    if i < j {
        assert(bars[i].datetime@ < bars[j].datetime@);
    }
    if j < i {
        assert(bars[j].datetime@ < bars[i].datetime@);
    }
}

/// Clock and data of a simulation.
pub struct Market {
    pub clock: Clock,
    pub data_manager: DataManager,
}

impl Market {
    /// The cached bars of `ticker`, in time order.
    pub open spec fn series(&self, ticker: Seq<char>) -> Seq<Aggregate> {
        self.data_manager.cache.series(ticker)
    }

    /// Close of the latest bar of `ticker` at or before the cursor.
    pub open spec fn spec_current_price(&self, ticker: Seq<char>) -> Option<Decimal> {
        match last_bar(self.series(ticker), self.clock.spec_datetime()@) {
            Some(bar) => Some(bar.close),
            None => None,
        }
    }

    /// Open of the bar of `ticker` at the cursor.
    pub open spec fn spec_open(&self, ticker: Seq<char>) -> Option<Decimal> {
        match bar_at(self.series(ticker), self.clock.spec_datetime()@) {
            Some(bar) => Some(bar.open),
            None => None,
        }
    }

    /// A market whose clock stands at the start of the simulation and whose
    /// downloads are planned. `None` where the calendar has no day to start
    /// on.
    pub fn new(options: &Options) -> (r: Option<Market>)
        ensures
            r is Some == starting_cursor(options.start@, options.warmup@) is Some,
            r matches Some(m) ==> {
                &&& Some((m.clock@.day, m.clock@.minute)) == starting_cursor(
                    options.start@,
                    options.warmup@,
                )
                &&& m.clock@.state == MarketState::PreOpen
                &&& m.clock.spec_end() == options.end
                &&& m.clock.spec_resolution() == options.resolution
                &&& m.data_manager.jobs@ == plan_jobs_spec(
                    options.tickers@,
                    plan_chunks(options.start@, options.end@, options.resolution),
                    options.resolution,
                )
                &&& m.data_manager.next_job == 0
                &&& m.data_manager.coverage@.len() == 0
                &&& m.data_manager.resolution == options.resolution
                &&& m.data_manager.normalize == options.normalize
                &&& forall|t: Seq<char>| (#[trigger] m.series(t)).len() == 0
            },
    {
        let clock = match Clock::new(options.start, options.end, options.warmup, options.resolution) {
            Some(c) => c,
            None => {
                return None;
            },
        };
        let data_manager = DataManager::new(
            &options.tickers,
            options.start,
            options.end,
            options.resolution,
            options.normalize,
        );
        Some(Market { clock, data_manager })
    }

    /// Carries out the planned downloads.
    pub fn download_data<P: DataProvider>(&mut self, provider: &mut P) -> (r: Result<
        (),
        ProviderFetchFailed,
    >)
        ensures
            final(self).clock == old(self).clock,
            downloaded(old(self).data_manager, final(self).data_manager, r is Ok),
    {
        self.data_manager.download_data(provider)
    }

    pub fn datetime(&self) -> (r: DateTime)
        ensures
            r == self.clock.spec_datetime(),
    {
        self.clock.datetime()
    }

    pub fn previous_datetime(&self) -> (r: Option<DateTime>)
        ensures
            r == self.clock.spec_previous_datetime(),
    {
        self.clock.previous_datetime()
    }

    pub fn next_datetime(&self) -> (r: Option<DateTime>)
        ensures
            r == self.clock.spec_next_datetime(),
    {
        self.clock.next_datetime()
    }

    pub fn state(&self) -> (r: MarketState)
        ensures
            r == self.clock@.state,
    {
        self.clock.state()
    }

    pub fn resolution(&self) -> (r: Resolution)
        ensures
            r == self.clock.spec_resolution(),
    {
        self.clock.resolution()
    }

    pub fn is_open(&self) -> (r: bool)
        ensures
            r == self.clock@.state.spec_is_open(),
    {
        self.clock.is_open()
    }

    pub fn is_done(&self) -> (r: bool)
        ensures
            r == self.clock.spec_is_done(),
    {
        self.clock.is_done()
    }

    /// Open of the bar of `ticker` at the cursor; `None` where there is no
    /// such bar.
    pub fn get_open(&self, ticker: &str) -> (r: Option<Decimal>)
        ensures
            r == self.spec_open(ticker@),
    {
        let now = self.clock.datetime();
        proof {
            use_type_invariant(&self.data_manager.cache);
            self.data_manager.cache.lemma_sorted(ticker@);
        }
        match self.data_manager.get_data(ticker, now, now) {
            Some(bars) => {
                proof {
                    let series = self.series(ticker@);
                    let (lo, hi) = choose|lo: int, hi: int|
                        crate::cache::bounds_range(series, now@, now@, lo, hi) && bars@
                            == #[trigger] series.subrange(lo, hi);
                    assert(bars@[0] == series[lo]);
                    lemma_bar_at(series, lo);
                }
                Some(bars[0].open)
            },
            None => None,
        }
    }

    /// Close of the latest bar of `ticker` at or before the cursor; `None`
    /// where there is no such bar.
    pub fn get_current_price(&self, ticker: &str) -> (r: Option<Decimal>)
        ensures
            r == self.spec_current_price(ticker@),
    {
        let now = self.clock.datetime();
        proof {
            use_type_invariant(&self.data_manager.cache);
            self.data_manager.cache.lemma_sorted(ticker@);
        }
        match self.data_manager.get_last_before(ticker, now) {
            Some(bar) => {
                proof {
                    lemma_last_bar(self.series(ticker@), bar, now@);
                }
                Some(bar.close)
            },
            None => {
                proof {
                    let series = self.series(ticker@);
                    if exists|bar: Aggregate| is_last_at_or_before(series, bar, now@) {
                        let bar = choose|bar: Aggregate| is_last_at_or_before(series, bar, now@);
                        let i = choose|i: int| 0 <= i < series.len() && series[i] == bar;
                        assert(series[i].datetime@ > now@);
                    }
                }
                None
            },
        }
    }

    /// Close of the bar of `ticker` at the timestamp before the cursor; `None`
    /// where there is no such timestamp or no such bar.
    pub fn get_last_price(&self, ticker: &str) -> (r: Option<Decimal>)
        ensures
            r == match self.clock.spec_previous_datetime() {
                Some(t) => match bar_at(self.series(ticker@), t@) {
                    Some(bar) => Some(bar.close),
                    None => None,
                },
                None => None,
            },
    {
        let previous = match self.clock.previous_datetime() {
            Some(t) => t,
            None => {
                return None;
            },
        };
        proof {
            use_type_invariant(&self.data_manager.cache);
            self.data_manager.cache.lemma_sorted(ticker@);
        }
        match self.data_manager.get_data(ticker, previous, previous) {
            Some(bars) => {
                proof {
                    let series = self.series(ticker@);
                    let (lo, hi) = choose|lo: int, hi: int|
                        crate::cache::bounds_range(series, previous@, previous@, lo, hi) && bars@
                            == #[trigger] series.subrange(lo, hi);
                    assert(bars@[bars@.len() - 1] == series[hi - 1]);
                    lemma_bar_at(series, hi - 1);
                }
                Some(bars[bars.len() - 1].close)
            },
            None => None,
        }
    }

    /// The cached bars of `ticker` from `start` to `end`, both included, in
    /// time order; `None` where there is none.
    pub fn get_data(&self, ticker: &str, start: DateTime, end: DateTime) -> (r: Option<
        Vec<Aggregate>,
    >)
        ensures
            match r {
                Some(v) => v@.len() > 0 && is_range(self.series(ticker@), v@, start@, end@),
                None => forall|k: int|
                    0 <= k < self.series(ticker@).len() ==> !(start@ <= (#[trigger] self.series(
                        ticker@,
                    )[k]).datetime@ <= end@),
            },
    {
        self.data_manager.get_data(ticker, start, end)
    }

    /// Moves the clock on by one tick. Forbidden once the market is done.
    pub fn tick(&mut self)
        requires
            !old(self).clock.spec_is_done(),
        ensures
            final(self).clock@ == crate::clock::tick_state(
                old(self).clock@,
                old(self).clock.spec_resolution(),
                old(self).clock.spec_end()@,
            ),
            final(self).clock.spec_end() == old(self).clock.spec_end(),
            final(self).clock.spec_resolution() == old(self).clock.spec_resolution(),
            final(self).clock.measure() < old(self).clock.measure(),
            final(self).data_manager == old(self).data_manager,
    {
        self.clock.tick();
    }
}

} // verus!
