//! Planning of downloads, and the cache that the downloads fill.
//!
//! The span of a simulation is cut into calendar years for daily bars and into
//! calendar months for minute bars. Every piece is fetched for every symbol,
//! the earliest pieces first. What a fetch brings is merged into the cache, and
//! the span that has been fetched is remembered per symbol.
use crate::cache::{is_last_at_or_before, is_range, merged, MarketDataCache};
use crate::calendar::end_of_month;
use crate::data::{Aggregate, DataProvider, ProviderFetchFailed};
use crate::options::Resolution;
use crate::time::{
    civil_of, day_number, days_in_month, valid_civil, Date, DateTime, MarketTimeExt,
    CLOSING_MINUTE, MAX_DAY, MIN_DAY, OPENING_MINUTE,
};
use vstd::prelude::*;

verus! {

/// One fetch: the bars of `ticker` from `start` to `end`, both included.
#[derive(Debug, PartialEq, Eq, Hash)]
pub struct DownloadJob {
    pub ticker: String,
    pub start: Date,
    pub end: Date,
    pub resolution: Resolution,
}

impl Clone for DownloadJob {
    fn clone(&self) -> (r: DownloadJob)
        ensures
            r == *self,
    {
        DownloadJob {
            ticker: self.ticker.clone(),
            start: self.start,
            end: self.end,
            resolution: self.resolution,
        }
    }
}

/// The span of days that has been fetched for a symbol.
pub struct Coverage {
    pub ticker: String,
    pub min: Date,
    pub max: Date,
}

/// Day number of the last day of the calendar year (daily bars) or calendar
/// month (minute bars) that day `n` lies in.
pub open spec fn period_end(n: int, resolution: Resolution) -> int {
    let y = civil_of(n).0;
    let m = civil_of(n).1;
    match resolution {
        Resolution::Day => day_number(y, 12, 31),
        Resolution::Minute => day_number(y, m, days_in_month(y, m)),
    }
}

/// The pieces that the days from `cur` to `end` are cut into: each runs to the
/// end of its period or to `end`, whichever comes first, and the next starts on
/// the day after.
pub open spec fn plan_chunks(cur: int, end: int, resolution: Resolution) -> Seq<(int, int)>
    decreases end - cur + 1,
{
    let last = if period_end(cur, resolution) < end {
        period_end(cur, resolution)
    } else {
        end
    };
    if cur > end || last < cur {
        Seq::empty()
    } else {
        seq![(cur, last)] + plan_chunks(last + 1, end, resolution)
    }
}

/// One job per symbol for the piece from `start` to `end`.
pub open spec fn jobs_for_chunk(
    tickers: Seq<String>,
    start: Date,
    end: Date,
    resolution: Resolution,
) -> Seq<DownloadJob> {
    Seq::new(
        tickers.len(),
        |i: int| DownloadJob { ticker: tickers[i], start, end, resolution },
    )
}

/// Whether the pieces follow each other without a gap from `start` to `end`.
pub open spec fn covers(chunks: Seq<(int, int)>, start: int, end: int) -> bool {
    &&& chunks.len() > 0
    &&& chunks[0].0 == start
    &&& chunks.last().1 == end
    &&& forall|i: int| 0 <= i < chunks.len() ==> (#[trigger] chunks[i]).0 <= chunks[i].1
    &&& forall|i: int| 0 <= i < chunks.len() - 1 ==> (#[trigger] chunks[i + 1]).0 == chunks[i].1 + 1
}

/// Whether day `n` is a day of the calendar.
pub open spec fn is_calendar_day(n: int) -> bool {
    valid_civil(civil_of(n).0, civil_of(n).1, civil_of(n).2) && day_number(
        civil_of(n).0,
        civil_of(n).1,
        civil_of(n).2,
    ) == n
}

/// The pieces of a plan cover the days from the first to the last.
pub proof fn lemma_plan_covers(cur: int, end: int, resolution: Resolution)
    requires
        cur <= end,
        forall|n: int| cur <= n <= end ==> #[trigger] is_calendar_day(n),
    ensures
        covers(plan_chunks(cur, end, resolution), cur, end),
    decreases end - cur,
{
    assert(is_calendar_day(cur));
    assert(period_end(cur, resolution) >= cur);
    let last = if period_end(cur, resolution) < end {
        period_end(cur, resolution)
    } else {
        end
    };
    let rest = plan_chunks(last + 1, end, resolution);
    let all = plan_chunks(cur, end, resolution);
    assert(all == seq![(cur, last)] + rest);
    if last < end {
        lemma_plan_covers(last + 1, end, resolution);
        assert(all.last() == rest.last());
        assert forall|i: int| 0 <= i < all.len() implies (#[trigger] all[i]).0 <= all[i].1 by {
            if i > 0 {
                assert(all[i] == rest[i - 1]);
            }
        }
        assert forall|i: int| 0 <= i < all.len() - 1 implies (#[trigger] all[i + 1]).0 == all[i].1
            + 1 by {
            assert(all[i + 1] == rest[i]);
            if i > 0 {
                assert(all[i] == rest[i - 1]);
                assert(rest[(i - 1) + 1] == rest[i]);
            }
        }
    } else {
        assert(rest == Seq::<(int, int)>::empty());
        assert(all == seq![(cur, last)]);
    }
}

/// The bars that lie in the regular hours of the exchange, in their order.
pub open spec fn regular_hours(bars: Seq<Aggregate>) -> Seq<Aggregate>
    decreases bars.len(),
{
    if bars.len() == 0 {
        Seq::empty()
    } else {
        let rest = regular_hours(bars.drop_last());
        if OPENING_MINUTE <= bars.last().datetime.minute_of_day() < CLOSING_MINUTE {
            rest.push(bars.last())
        } else {
            rest
        }
    }
}

/// What of a fetch goes into the cache.
pub open spec fn kept(bars: Seq<Aggregate>, normalize: bool) -> Seq<Aggregate> {
    if normalize {
        regular_hours(bars)
    } else {
        bars
    }
}

/// Whether a fetched span of `ticker` holds the days from `t0` to `t1`.
pub open spec fn is_covered(coverage: Seq<Coverage>, ticker: Seq<char>, t0: int, t1: int) -> bool {
    exists|i: int|
        0 <= i < coverage.len() && (#[trigger] coverage[i]).ticker@ == ticker && coverage[i].min@
            <= t0 && t1 <= coverage[i].max@
}

/// A symbol with the first and the last day of its fetched span.
pub type Span = (Seq<char>, int, int);

/// The fetched spans as symbols with their first and last days.
pub open spec fn spans(coverage: Seq<Coverage>) -> Seq<Span> {
    Seq::new(coverage.len(), |i: int| (coverage[i].ticker@, coverage[i].min@, coverage[i].max@))
}

/// Whether `i` is the place of the first span of `ticker`.
pub open spec fn is_first_span(all: Seq<Span>, ticker: Seq<char>, i: int) -> bool {
    &&& 0 <= i < all.len()
    &&& all[i].0 == ticker
    &&& forall|j: int| 0 <= j < i ==> (#[trigger] all[j]).0 != ticker
}

/// Place of the first span of `ticker`, if there is one.
pub open spec fn span_index(all: Seq<Span>, ticker: Seq<char>) -> Option<int> {
    if exists|i: int| is_first_span(all, ticker, i) {
        Some(choose|i: int| is_first_span(all, ticker, i))
    } else {
        None
    }
}

/// The spans after the days from `start` to `end` of `ticker` have been
/// fetched: the span of the symbol grows to hold them, or is opened with them.
pub open spec fn widened(all: Seq<Span>, ticker: Seq<char>, start: int, end: int) -> Seq<Span> {
    match span_index(all, ticker) {
        Some(i) => all.update(
            i,
            (
                ticker,
                if start < all[i].1 {
                    start
                } else {
                    all[i].1
                },
                if all[i].2 < end {
                    end
                } else {
                    all[i].2
                },
            ),
        ),
        None => all.push((ticker, start, end)),
    }
}

/// The spans after the jobs have been carried out, one after the other.
pub open spec fn widened_by(all: Seq<Span>, jobs: Seq<DownloadJob>) -> Seq<Span>
    decreases jobs.len(),
{
    if jobs.len() == 0 {
        all
    } else {
        widened(
            widened_by(all, jobs.drop_last()),
            jobs.last().ticker@,
            jobs.last().start@,
            jobs.last().end@,
        )
    }
}

/// The bars of `ticker` after the jobs have been carried out, one after the
/// other, `fetched` being what the fetches brought.
pub open spec fn merged_fetches(
    series: Seq<Aggregate>,
    ticker: Seq<char>,
    jobs: Seq<DownloadJob>,
    fetched: Seq<Seq<Aggregate>>,
    normalize: bool,
) -> Seq<Aggregate>
    decreases jobs.len(),
{
    if jobs.len() == 0 || fetched.len() != jobs.len() {
        series
    } else {
        let before = merged_fetches(
            series,
            ticker,
            jobs.drop_last(),
            fetched.drop_last(),
            normalize,
        );
        if jobs.last().ticker@ == ticker {
            merged(before, kept(fetched.last(), normalize))
        } else {
            before
        }
    }
}

proof fn lemma_first_span(all: Seq<Span>, ticker: Seq<char>, i: int)
    requires
        is_first_span(all, ticker, i),
    ensures
        span_index(all, ticker) == Some(i),
{
    let c = choose|c: int| is_first_span(all, ticker, c);
    if c < i {
        assert(all[c].0 != ticker);
    }
    if i < c {
        assert(all[i].0 != ticker);
    }
}

proof fn lemma_no_span(all: Seq<Span>, ticker: Seq<char>)
    requires
        forall|j: int| 0 <= j < all.len() ==> (#[trigger] all[j]).0 != ticker,
    ensures
        span_index(all, ticker) is None,
{
    if exists|i: int| is_first_span(all, ticker, i) {
        let c = choose|c: int| is_first_span(all, ticker, c);
        assert(all[c].0 != ticker);
    }
}

/// Last day of the period that `date` lies in.
fn end_of_period(date: Date, resolution: Resolution) -> (r: Date)
    ensures
        r@ == period_end(date@, resolution),
        r@ >= date@,
{
    let (y, m, _) = date.civil();
    match resolution {
        Resolution::Day => Date::from_ymd(y, 12, 31).unwrap(),
        Resolution::Minute => end_of_month(y, m),
    }
}

/// The bars of `bars` that lie in the regular hours.
fn keep_regular_hours(bars: &Vec<Aggregate>) -> (r: Vec<Aggregate>)
    ensures
        r@ == regular_hours(bars@),
{
    let mut out: Vec<Aggregate> = Vec::new();
    let mut i: usize = 0;
    while i < bars.len()
        invariant
            i <= bars@.len(),
            out@ == regular_hours(bars@.take(i as int)),
        decreases bars.len() - i,
    {
        proof {
            assert(bars@.take(i + 1).drop_last() == bars@.take(i as int));
            assert(bars@.take(i + 1).last() == bars@[i as int]);
        }
        if bars[i].datetime.is_regular_hours() {
            out.push(bars[i]);
        }
        i = i + 1;
    }
    proof {
        assert(bars@.take(i as int) == bars@);
    }
    out
}

/// The jobs of a simulation, the earliest pieces first; within a piece the
/// symbols in the order given.
pub open spec fn plan_jobs_spec(
    tickers: Seq<String>,
    chunks: Seq<(int, int)>,
    resolution: Resolution,
) -> Seq<DownloadJob>
    decreases chunks.len(),
{
    if chunks.len() == 0 {
        Seq::empty()
    } else {
        plan_jobs_spec(tickers, chunks.drop_last(), resolution) + jobs_for_chunk(
            tickers,
            Date::of_day(chunks.last().0),
            Date::of_day(chunks.last().1),
            resolution,
        )
    }
}

/// The jobs of a plan come in the order of their first days: a job never
/// starts before an earlier one, nor after the last piece.
pub proof fn lemma_jobs_ascend(tickers: Seq<String>, chunks: Seq<(int, int)>, resolution: Resolution)
    requires
        forall|i: int| 0 <= i < chunks.len() ==> MIN_DAY <= (#[trigger] chunks[i]).0 <= MAX_DAY,
        forall|i: int, j: int|
            0 <= i < j < chunks.len() ==> (#[trigger] chunks[i]).0 <= (#[trigger] chunks[j]).0,
    ensures
        forall|a: int, b: int|
            0 <= a < b < plan_jobs_spec(tickers, chunks, resolution).len() ==> (
            #[trigger] plan_jobs_spec(tickers, chunks, resolution)[a]).start@ <= (
            #[trigger] plan_jobs_spec(tickers, chunks, resolution)[b]).start@,
        forall|a: int|
            0 <= a < plan_jobs_spec(tickers, chunks, resolution).len() ==> (
            #[trigger] plan_jobs_spec(tickers, chunks, resolution)[a]).start@ <= chunks.last().0,
    decreases chunks.len(),
{
    if chunks.len() > 0 {
        let front = chunks.drop_last();
        let last = chunks.last();
        assert(last == chunks[chunks.len() - 1]);
        assert forall|i: int| 0 <= i < front.len() implies MIN_DAY <= (#[trigger] front[i]).0
            <= MAX_DAY by {
            assert(front[i] == chunks[i]);
        }
        assert forall|i: int, j: int| 0 <= i < j < front.len() implies (#[trigger] front[i]).0 <= (
        #[trigger] front[j]).0 by {
            assert(front[i] == chunks[i]);
            assert(front[j] == chunks[j]);
        }
        lemma_jobs_ascend(tickers, front, resolution);
        if front.len() > 0 {
            assert(front.last() == chunks[chunks.len() - 2]);
        }
        Date::lemma_of_day(last.0);
        let before = plan_jobs_spec(tickers, front, resolution);
        let row = jobs_for_chunk(tickers, Date::of_day(last.0), Date::of_day(last.1), resolution);
        let all = plan_jobs_spec(tickers, chunks, resolution);
        assert(all == before + row);
        assert forall|a: int| 0 <= a < all.len() implies (#[trigger] all[a]).start@ <= last.0 by {
            if a < before.len() {
                assert(all[a] == before[a]);
            } else {
                assert(all[a] == row[a - before.len()]);
            }
        }
        assert forall|a: int, b: int| 0 <= a < b < all.len() implies (#[trigger] all[a]).start@ <= (
        #[trigger] all[b]).start@ by {
            if b < before.len() {
                assert(all[a] == before[a]);
                assert(all[b] == before[b]);
            } else {
                assert(all[b] == row[b - before.len()]);
            }
        }
    }
}

/// Cuts the days from `start` to `end` into pieces and lists one job per
/// piece and symbol, the earliest pieces first. No job where `end` lies before
/// `start`.
pub fn plan_jobs(tickers: &Vec<String>, start: Date, end: Date, resolution: Resolution) -> (r: Vec<
    DownloadJob,
>)
    ensures
        r@ == plan_jobs_spec(tickers@, plan_chunks(start@, end@, resolution), resolution),
{
    let mut jobs: Vec<DownloadJob> = Vec::new();
    let mut cur = start;
    let ghost mut done: Seq<(int, int)> = Seq::empty();
    proof {
        use_type_invariant(&start);
        use_type_invariant(&end);
        start.lemma_view();
        end.lemma_view();
    }
    loop
        invariant
            MIN_DAY <= cur@ <= MAX_DAY,
            MIN_DAY <= end@ <= MAX_DAY,
            jobs@ == plan_jobs_spec(tickers@, done, resolution),
            plan_chunks(start@, end@, resolution) == done + plan_chunks(cur@, end@, resolution),
        decreases end@ - cur@ + 1,
    {
        if !cur.le(&end) {
            proof {
                assert(plan_chunks(cur@, end@, resolution) == Seq::<(int, int)>::empty());
                assert(done + Seq::<(int, int)>::empty() == done);
            }
            return jobs;
        }
        let period = end_of_period(cur, resolution);
        let last = if period.lt(&end) {
            period
        } else {
            end
        };
        proof {
            use_type_invariant(&last);
            use_type_invariant(&cur);
            last.lemma_view();
            cur.lemma_view();
        }
        let ghost before = jobs@;
        let mut t: usize = 0;
        while t < tickers.len()
            invariant
                t <= tickers@.len(),
                jobs@ == before + jobs_for_chunk(tickers@, cur, last, resolution).take(t as int),
            decreases tickers.len() - t,
        {
            jobs.push(
                DownloadJob { ticker: tickers[t].clone(), start: cur, end: last, resolution },
            );
            proof {
                let row = jobs_for_chunk(tickers@, cur, last, resolution);
                assert(row.take(t + 1) == row.take(t as int).push(row[t as int]));
                assert(jobs@ == before + row.take(t + 1));
            }
            t = t + 1;
        }
        proof {
            let row = jobs_for_chunk(tickers@, cur, last, resolution);
            assert(row.take(t as int) == row);
            let next = done.push((cur@, last@));
            assert(next.drop_last() == done);
            assert(next.last() == (cur@, last@));
            let tail = plan_chunks(last@ + 1, end@, resolution);
            assert(plan_chunks(cur@, end@, resolution) == seq![(cur@, last@)] + tail);
            assert(done + (seq![(cur@, last@)] + tail) == next + tail);
            done = next;
        }
        match last.succ() {
            Some(d) => {
                cur = d;
            },
            None => {
                proof {
                    assert(plan_chunks(last@ + 1, end@, resolution) == Seq::<(int, int)>::empty());
                    assert(done + Seq::<(int, int)>::empty() == done);
                }
                return jobs;
            },
        }
    }
}

/// Plans and carries out the fetches, and answers queries from the cache.
pub struct DataManager {
    pub jobs: Vec<DownloadJob>,
    pub next_job: usize,
    pub coverage: Vec<Coverage>,
    pub cache: MarketDataCache,
    pub resolution: Resolution,
    pub normalize: bool,
}

/// Whether `after` is what carrying out the pending jobs of `before` leaves,
/// `ok` telling whether every fetch succeeded. The jobs are carried out in
/// their order up to the first fetch that fails; the spans grow by the jobs
/// carried out; and whatever the fetches brought, the cache holds it merged
/// in, job after job.
pub open spec fn downloaded(before: DataManager, after: DataManager, ok: bool) -> bool {
    &&& after.jobs == before.jobs
    &&& after.resolution == before.resolution
    &&& after.normalize == before.normalize
    &&& if before.next_job >= before.jobs@.len() {
        &&& ok
        &&& after.next_job == before.next_job
        &&& after.coverage == before.coverage
        &&& after.cache == before.cache
    } else {
        let first = before.next_job as int;
        let done = before.jobs@.subrange(first, after.next_job as int);
        &&& first <= after.next_job <= before.jobs@.len()
        &&& ok == (after.next_job == before.jobs@.len())
        &&& spans(after.coverage@) == widened_by(spans(before.coverage@), done)
        &&& exists|fetched: Seq<Seq<Aggregate>>|
            fetched.len() == done.len() && forall|t: Seq<char>|
                #[trigger] after.cache.series(t) == merged_fetches(
                    before.cache.series(t),
                    t,
                    done,
                    fetched,
                    before.normalize,
                )
    }
}

impl DataManager {
    /// A manager with the jobs of the span from `start` to `end` planned and
    /// nothing fetched.
    pub fn new(
        tickers: &Vec<String>,
        start: Date,
        end: Date,
        resolution: Resolution,
        normalize: bool,
    ) -> (r: DataManager)
        ensures
            r.jobs@ == plan_jobs_spec(tickers@, plan_chunks(start@, end@, resolution), resolution),
            r.next_job == 0,
            r.coverage@.len() == 0,
            r.resolution == resolution,
            r.normalize == normalize,
            forall|t: Seq<char>| (#[trigger] r.cache.series(t)).len() == 0,
    {
        DataManager {
            jobs: plan_jobs(tickers, start, end, resolution),
            next_job: 0,
            coverage: Vec::new(),
            cache: MarketDataCache::new(),
            resolution,
            normalize,
        }
    }

    /// Number of planned jobs that have not been carried out.
    pub fn pending(&self) -> (r: usize)
        ensures
            r == if self.next_job <= self.jobs@.len() {
                self.jobs@.len() - self.next_job
            } else {
                0
            },
    {
        if self.next_job <= self.jobs.len() {
            self.jobs.len() - self.next_job
        } else {
            0
        }
    }

    /// Whether a fetched span of `ticker` holds the days from `t0` to `t1`.
    pub fn has_data(&self, ticker: &str, t0: Date, t1: Date) -> (r: bool)
        ensures
            r == is_covered(self.coverage@, ticker@, t0@, t1@),
    {
        let wanted: String = ticker.to_owned();
        let mut i: usize = 0;
        while i < self.coverage.len()
            invariant
                i <= self.coverage@.len(),
                wanted@ == ticker@,
                forall|j: int|
                    0 <= j < i ==> !((#[trigger] self.coverage@[j]).ticker@ == ticker@
                        && self.coverage@[j].min@ <= t0@ && t1@ <= self.coverage@[j].max@),
            decreases self.coverage.len() - i,
        {
            let c = &self.coverage[i];
            if c.ticker == wanted && c.min.le(&t0) && t1.le(&c.max) {
                return true;
            }
            i = i + 1;
        }
        false
    }

    /// Takes in what a fetch of `ticker` from `start` to `end` has brought:
    /// the bars, less those outside the regular hours where the manager
    /// normalises, are merged into the cache, and the span is remembered.
    pub fn record(&mut self, ticker: &str, start: Date, end: Date, bars: Vec<Aggregate>)
        ensures
            final(self).cache.series(ticker@) == merged(
                old(self).cache.series(ticker@),
                kept(bars@, old(self).normalize),
            ),
            forall|t: Seq<char>|
                t != ticker@ ==> (#[trigger] final(self).cache.series(t)) == old(self).cache.series(
                    t,
                ),
            spans(final(self).coverage@) == widened(
                spans(old(self).coverage@),
                ticker@,
                start@,
                end@,
            ),
            is_covered(final(self).coverage@, ticker@, start@, end@),
            forall|t: Seq<char>, a: int, b: int|
                is_covered(old(self).coverage@, t, a, b) ==> #[trigger] is_covered(
                    final(self).coverage@,
                    t,
                    a,
                    b,
                ),
            final(self).jobs == old(self).jobs,
            final(self).next_job == old(self).next_job,
            final(self).resolution == old(self).resolution,
            final(self).normalize == old(self).normalize,
    {
        let data = if self.normalize {
            keep_regular_hours(&bars)
        } else {
            bars
        };
        self.cache.store_data(ticker, data);
        let wanted: String = ticker.to_owned();
        let ghost before = self.coverage@;
        let ghost stored = self.cache;
        let mut i: usize = 0;
        while i < self.coverage.len()
            invariant
                i <= self.coverage@.len(),
                wanted@ == ticker@,
                self.coverage@ == before,
                before == old(self).coverage@,
                self.cache == stored,
                stored.series(ticker@) == merged(
                    old(self).cache.series(ticker@),
                    kept(bars@, old(self).normalize),
                ),
                forall|t: Seq<char>|
                    t != ticker@ ==> (#[trigger] stored.series(t)) == old(self).cache.series(t),
                self.jobs == old(self).jobs,
                self.next_job == old(self).next_job,
                self.resolution == old(self).resolution,
                self.normalize == old(self).normalize,
                forall|j: int| 0 <= j < i ==> (#[trigger] spans(before)[j]).0 != ticker@,
            decreases self.coverage.len() - i,
        {
            if self.coverage[i].ticker == wanted {
                let old_min = self.coverage[i].min;
                let old_max = self.coverage[i].max;
                let min = if start.lt(&old_min) {
                    start
                } else {
                    old_min
                };
                let max = if old_max.lt(&end) {
                    end
                } else {
                    old_max
                };
                self.coverage.set(i, Coverage { ticker: wanted, min, max });
                proof {
                    let after = self.coverage@;
                    lemma_first_span(spans(before), ticker@, i as int);
                    assert(spans(after) =~= widened(spans(before), ticker@, start@, end@));
                    assert(after[i as int].ticker@ == ticker@);
                    assert forall|t: Seq<char>, a: int, b: int|
                        is_covered(before, t, a, b) implies #[trigger] is_covered(
                        after,
                        t,
                        a,
                        b,
                    ) by {
                        let k = choose|k: int|
                            0 <= k < before.len() && (#[trigger] before[k]).ticker@ == t
                                && before[k].min@ <= a && b <= before[k].max@;
                        if k != i {
                            assert(after[k] == before[k]);
                        }
                        assert(after[k].ticker@ == t && after[k].min@ <= a && b <= after[k].max@);
                    }
                }
                return ;
            }
            i = i + 1;
        }
        self.coverage.push(Coverage { ticker: wanted, min: start, max: end });
        proof {
            let after = self.coverage@;
            lemma_no_span(spans(before), ticker@);
            assert(spans(after) =~= widened(spans(before), ticker@, start@, end@));
            assert(after[after.len() - 1].ticker@ == ticker@);
            assert forall|t: Seq<char>, a: int, b: int|
                is_covered(before, t, a, b) implies #[trigger] is_covered(after, t, a, b) by {
                let k = choose|k: int|
                    0 <= k < before.len() && (#[trigger] before[k]).ticker@ == t && before[k].min@
                        <= a && b <= before[k].max@;
                assert(after[k] == before[k]);
            }
        }
    }

    /// Carries out the planned jobs in their order: fetches each from
    /// `provider` and records what comes back. Stops at the first fetch that
    /// fails, with that job and the later ones still pending. Whatever the
    /// fetches brought, the cache holds it merged in, job after job.
    pub fn download_data<P: DataProvider>(&mut self, provider: &mut P) -> (r: Result<
        (),
        ProviderFetchFailed,
    >)
        ensures
            downloaded(*old(self), *final(self), r is Ok),
            forall|t: Seq<char>, a: int, b: int|
                is_covered(old(self).coverage@, t, a, b) ==> #[trigger] is_covered(
                    final(self).coverage@,
                    t,
                    a,
                    b,
                ),
            r is Ok ==> forall|j: int|
                old(self).next_job <= j < old(self).jobs@.len() ==> is_covered(
                    final(self).coverage@,
                    (#[trigger] old(self).jobs@[j]).ticker@,
                    old(self).jobs@[j].start@,
                    old(self).jobs@[j].end@,
                ),
    {
        if self.next_job >= self.jobs.len() {
            return Ok(());
        }
        let ghost first = self.next_job as int;
        let ghost mut fetched: Seq<Seq<Aggregate>> = Seq::empty();
        proof {
            assert(self.jobs@.subrange(first, first) =~= Seq::<DownloadJob>::empty());
        }
        while self.next_job < self.jobs.len()
            invariant
                self.jobs == old(self).jobs,
                self.resolution == old(self).resolution,
                self.normalize == old(self).normalize,
                first == old(self).next_job,
                first <= self.next_job <= self.jobs@.len(),
                fetched.len() == self.next_job - first,
                spans(self.coverage@) == widened_by(
                    spans(old(self).coverage@),
                    self.jobs@.subrange(first, self.next_job as int),
                ),
                forall|t: Seq<char>|
                    #[trigger] self.cache.series(t) == merged_fetches(
                        old(self).cache.series(t),
                        t,
                        self.jobs@.subrange(first, self.next_job as int),
                        fetched,
                        self.normalize,
                    ),
                forall|t: Seq<char>, a: int, b: int|
                    is_covered(old(self).coverage@, t, a, b) ==> #[trigger] is_covered(
                        self.coverage@,
                        t,
                        a,
                        b,
                    ),
                forall|j: int|
                    first <= j < self.next_job ==> is_covered(
                        self.coverage@,
                        (#[trigger] self.jobs@[j]).ticker@,
                        self.jobs@[j].start@,
                        self.jobs@[j].end@,
                    ),
            decreases self.jobs@.len() - self.next_job,
        {
            let job = self.jobs[self.next_job].clone();
            let bars = match provider.fetch(job.ticker.as_str(), job.start, job.end, job.resolution) {
                Ok(bars) => bars,
                Err(e) => {
                    return Err(e);
                },
            };
            let ghost before = self.cache;
            let ghost at = self.next_job as int;
            let ghost brought = bars@;
            self.record(job.ticker.as_str(), job.start, job.end, bars);
            self.next_job = self.next_job + 1;
            proof {
                let done = self.jobs@.subrange(first, at);
                let next = self.jobs@.subrange(first, at + 1);
                assert(next.drop_last() =~= done);
                assert(next.last() == self.jobs@[at]);
                let more = fetched.push(brought);
                assert(more.drop_last() =~= fetched);
                assert(more.last() == brought);
                assert forall|t: Seq<char>| #[trigger]
                    self.cache.series(t) == merged_fetches(
                        old(self).cache.series(t),
                        t,
                        next,
                        more,
                        self.normalize,
                    ) by {
                    assert(before.series(t) == merged_fetches(
                        old(self).cache.series(t),
                        t,
                        done,
                        fetched,
                        self.normalize,
                    ));
                }
                fetched = more;
            }
        }
        Ok(())
    }

    /// Makes sure that the days from `t0` to `t1` of `ticker` have been
    /// fetched: fetches them from `provider` where no fetched span holds
    /// them, and records what comes back.
    pub fn ensure_data<P: DataProvider>(
        &mut self,
        provider: &mut P,
        ticker: &str,
        t0: Date,
        t1: Date,
    ) -> (r: Result<(), ProviderFetchFailed>)
        ensures
            final(self).jobs == old(self).jobs,
            final(self).next_job == old(self).next_job,
            final(self).resolution == old(self).resolution,
            final(self).normalize == old(self).normalize,
            r is Ok ==> is_covered(final(self).coverage@, ticker@, t0@, t1@),
            is_covered(old(self).coverage@, ticker@, t0@, t1@) ==> r is Ok && final(self).coverage
                == old(self).coverage && final(self).cache == old(self).cache,
            r is Err ==> final(self).coverage == old(self).coverage && final(self).cache == old(
                self,
            ).cache,
            !is_covered(old(self).coverage@, ticker@, t0@, t1@) && r is Ok ==> {
                &&& spans(final(self).coverage@) == widened(
                    spans(old(self).coverage@),
                    ticker@,
                    t0@,
                    t1@,
                )
                &&& forall|t: Seq<char>|
                    t != ticker@ ==> (#[trigger] final(self).cache.series(t)) == old(
                        self,
                    ).cache.series(t)
                &&& exists|bars: Seq<Aggregate>|
                    final(self).cache.series(ticker@) == #[trigger] merged(
                        old(self).cache.series(ticker@),
                        kept(bars, old(self).normalize),
                    )
            },
    {
        if self.has_data(ticker, t0, t1) {
            return Ok(());
        }
        match provider.fetch(ticker, t0, t1, self.resolution) {
            Ok(bars) => {
                let ghost brought = bars@;
                self.record(ticker, t0, t1, bars);
                proof {
                    assert(self.cache.series(ticker@) == merged(
                        old(self).cache.series(ticker@),
                        kept(brought, old(self).normalize),
                    ));
                }
                Ok(())
            },
            Err(e) => Err(e),
        }
    }

    /// The cached bars of `ticker` from `start` to `end`, both included, in
    /// time order; `None` where there is none.
    pub fn get_data(&self, ticker: &str, start: DateTime, end: DateTime) -> (r: Option<
        Vec<Aggregate>,
    >)
        ensures
            match r {
                Some(v) => v@.len() > 0 && is_range(self.cache.series(ticker@), v@, start@, end@),
                None => forall|k: int|
                    0 <= k < self.cache.series(ticker@).len() ==> !(start@ <= (
                    #[trigger] self.cache.series(ticker@)[k]).datetime@ <= end@),
            },
    {
        self.cache.get_data(ticker, start, end)
    }

    /// The latest cached bar of `ticker` at or before `datetime`.
    pub fn get_last_before(&self, ticker: &str, datetime: DateTime) -> (r: Option<Aggregate>)
        ensures
            match r {
                Some(bar) => is_last_at_or_before(self.cache.series(ticker@), bar, datetime@),
                None => forall|k: int|
                    0 <= k < self.cache.series(ticker@).len() ==> (#[trigger] self.cache.series(
                        ticker@,
                    )[k]).datetime@ > datetime@,
            },
    {
        self.cache.get_last_before(ticker, datetime)
    }
}

} // verus!
