//! The cache of bars: for every symbol its bars in time order, one per
//! timestamp.
use crate::data::Aggregate;
use crate::time::DateTime;
use vstd::prelude::*;

verus! {

/// Strictly ascending in time.
pub open spec fn sorted(bars: Seq<Aggregate>) -> bool {
    forall|i: int, j: int|
        0 <= i < j < bars.len() ==> (#[trigger] bars[i]).datetime@ < (#[trigger] bars[j]).datetime@
}

/// Number of bars before the instant `key`.
pub open spec fn rank(bars: Seq<Aggregate>, key: int) -> int
    decreases bars.len(),
{
    if bars.len() == 0 {
        0
    } else {
        rank(bars.drop_last(), key) + if bars.last().datetime@ < key {
            1int
        } else {
            0int
        }
    }
}

/// The bars with `bar` put in its place in time order; a bar of the same
/// timestamp is replaced.
pub open spec fn insert_bar(bars: Seq<Aggregate>, bar: Aggregate) -> Seq<Aggregate> {
    let i = rank(bars, bar.datetime@);
    if i < bars.len() && bars[i].datetime@ == bar.datetime@ {
        bars.update(i, bar)
    } else {
        bars.insert(i, bar)
    }
}

/// The bars after `data` has been merged in, one bar after the other.
pub open spec fn merged(bars: Seq<Aggregate>, data: Seq<Aggregate>) -> Seq<Aggregate>
    decreases data.len(),
{
    if data.len() == 0 {
        bars
    } else {
        insert_bar(merged(bars, data.drop_last()), data.last())
    }
}

/// Whether `lo..hi` are the places of exactly the bars from `start` to `end`,
/// both included.
pub open spec fn bounds_range(bars: Seq<Aggregate>, start: int, end: int, lo: int, hi: int) -> bool {
    &&& 0 <= lo <= hi <= bars.len()
    &&& forall|k: int|
        0 <= k < bars.len() ==> ((lo <= k < hi) <==> (start <= (#[trigger] bars[k]).datetime@
            <= end))
}

/// Whether `out` holds exactly the bars from `start` to `end`, both included,
/// in time order.
pub open spec fn is_range(bars: Seq<Aggregate>, out: Seq<Aggregate>, start: int, end: int) -> bool {
    exists|lo: int, hi: int|
        bounds_range(bars, start, end, lo, hi) && out == #[trigger] bars.subrange(lo, hi)
}

/// Whether `bar` is the latest of the bars at or before `end`.
pub open spec fn is_last_at_or_before(bars: Seq<Aggregate>, bar: Aggregate, end: int) -> bool {
    &&& bars.contains(bar)
    &&& bar.datetime@ <= end
    &&& forall|k: int|
        0 <= k < bars.len() && (#[trigger] bars[k]).datetime@ <= end ==> bars[k].datetime@
            <= bar.datetime@
}

/// A range of sorted bars is what the words say: every bar in it lies in the
/// interval and among the bars, the bars in it ascend in time, and no bar of
/// the interval is missing.
pub proof fn lemma_range_exact(bars: Seq<Aggregate>, out: Seq<Aggregate>, start: int, end: int)
    requires
        sorted(bars),
        is_range(bars, out, start, end),
    ensures
        forall|i: int|
            0 <= i < out.len() ==> start <= (#[trigger] out[i]).datetime@ <= end && bars.contains(
                out[i],
            ),
        sorted(out),
        forall|k: int|
            0 <= k < bars.len() && start <= (#[trigger] bars[k]).datetime@ <= end ==> out.contains(
                bars[k],
            ),
{
    let (lo, hi) = choose|lo: int, hi: int|
        bounds_range(bars, start, end, lo, hi) && out == #[trigger] bars.subrange(lo, hi);
    assert forall|i: int| 0 <= i < out.len() implies start <= (#[trigger] out[i]).datetime@ <= end
        && bars.contains(out[i]) by {
        assert(out[i] == bars[lo + i]);
    }
    assert forall|i: int, j: int| 0 <= i < j < out.len() implies (#[trigger] out[i]).datetime@ < (
    #[trigger] out[j]).datetime@ by {
        assert(out[i] == bars[lo + i]);
        assert(out[j] == bars[lo + j]);
    }
    assert forall|k: int|
        0 <= k < bars.len() && start <= (#[trigger] bars[k]).datetime@ <= end implies out.contains(
        bars[k],
    ) by {
        assert(out[k - lo] == bars[k]);
    }
}

/// In sorted bars the place that parts the bars before `key` from the others
/// is the rank of `key`.
pub proof fn lemma_rank(bars: Seq<Aggregate>, key: int, i: int)
    requires
        0 <= i <= bars.len(),
        forall|j: int| 0 <= j < i ==> (#[trigger] bars[j]).datetime@ < key,
        forall|j: int| i <= j < bars.len() ==> (#[trigger] bars[j]).datetime@ >= key,
    ensures
        rank(bars, key) == i,
    decreases bars.len(),
{
    if bars.len() > 0 {
        let front = bars.drop_last();
        if i == bars.len() {
            assert forall|j: int| 0 <= j < i - 1 implies (#[trigger] front[j]).datetime@ < key by {
                assert(front[j] == bars[j]);
            }
            lemma_rank(front, key, i - 1);
            assert(bars.last() == bars[i - 1]);
        } else {
            assert forall|j: int| 0 <= j < i implies (#[trigger] front[j]).datetime@ < key by {
                assert(front[j] == bars[j]);
            }
            assert forall|j: int| i <= j < front.len() implies (#[trigger] front[j]).datetime@
                >= key by {
                assert(front[j] == bars[j]);
            }
            lemma_rank(front, key, i);
            assert(bars.last() == bars[bars.len() - 1]);
        }
    }
}

/// In sorted bars the rank of an instant parts the bars before it from the
/// others.
pub proof fn lemma_rank_parts(bars: Seq<Aggregate>, key: int)
    requires
        sorted(bars),
    ensures
        0 <= rank(bars, key) <= bars.len(),
        forall|j: int| 0 <= j < rank(bars, key) ==> (#[trigger] bars[j]).datetime@ < key,
        forall|j: int| rank(bars, key) <= j < bars.len() ==> (#[trigger] bars[j]).datetime@ >= key,
    decreases bars.len(),
{
    if bars.len() > 0 {
        let front = bars.drop_last();
        let last = bars.last();
        assert forall|i: int, j: int| 0 <= i < j < front.len() implies (
        #[trigger] front[i]).datetime@ < (#[trigger] front[j]).datetime@ by {
            assert(front[i] == bars[i]);
            assert(front[j] == bars[j]);
        }
        lemma_rank_parts(front, key);
        let r = rank(front, key);
        assert(last == bars[bars.len() - 1]);
        if last.datetime@ < key {
            if r < front.len() {
                assert(front[r] == bars[r]);
                assert(bars[r].datetime@ < bars[bars.len() - 1].datetime@);
            }
            assert forall|j: int| 0 <= j < rank(bars, key) implies (#[trigger] bars[j]).datetime@
                < key by {
                if j < front.len() {
                    assert(front[j] == bars[j]);
                }
            }
        } else {
            assert forall|j: int| 0 <= j < rank(bars, key) implies (#[trigger] bars[j]).datetime@
                < key by {
                assert(front[j] == bars[j]);
            }
            assert forall|j: int| rank(bars, key) <= j < bars.len() implies (
            #[trigger] bars[j]).datetime@ >= key by {
                if j < front.len() {
                    assert(front[j] == bars[j]);
                }
            }
        }
    }
}

/// Merging a bar into sorted bars keeps them sorted, and leaves exactly the
/// bar and the bars of other timestamps.
pub proof fn lemma_insert_bar(bars: Seq<Aggregate>, bar: Aggregate)
    requires
        sorted(bars),
    ensures
        sorted(insert_bar(bars, bar)),
        forall|x: Aggregate| #[trigger]
            insert_bar(bars, bar).contains(x) <==> x == bar || (bars.contains(x) && x.datetime@
                != bar.datetime@),
{
    let key = bar.datetime@;
    let i = rank(bars, key);
    let out = insert_bar(bars, bar);
    lemma_rank_parts(bars, key);
    if i < bars.len() && bars[i].datetime@ == key {
        assert forall|a: int, b: int| 0 <= a < b < out.len() implies (#[trigger] out[a]).datetime@
            < (#[trigger] out[b]).datetime@ by {
            assert(out[a].datetime@ == bars[a].datetime@);
            assert(out[b].datetime@ == bars[b].datetime@);
        }
        assert forall|x: Aggregate| #[trigger] out.contains(x) <==> x == bar || (bars.contains(x)
            && x.datetime@ != key) by {
            if out.contains(x) {
                let k = choose|k: int| 0 <= k < out.len() && out[k] == x;
                if k != i {
                    assert(bars[k] == x);
                    if k < i {
                        assert(bars[k].datetime@ < bars[i].datetime@);
                    } else {
                        assert(bars[i].datetime@ < bars[k].datetime@);
                    }
                }
            }
            if x == bar {
                assert(out[i] == x);
            }
            if bars.contains(x) && x.datetime@ != key {
                let k = choose|k: int| 0 <= k < bars.len() && bars[k] == x;
                assert(out[k] == x);
            }
        }
    } else {
        assert forall|a: int, b: int| 0 <= a < b < out.len() implies (#[trigger] out[a]).datetime@
            < (#[trigger] out[b]).datetime@ by {
            if a < i {
                assert(out[a] == bars[a]);
            }
            if a > i {
                assert(out[a] == bars[a - 1]);
            }
            if b < i {
                assert(out[b] == bars[b]);
            }
            if b > i {
                assert(out[b] == bars[b - 1]);
            }
        }
        assert forall|x: Aggregate| #[trigger] out.contains(x) <==> x == bar || (bars.contains(x)
            && x.datetime@ != key) by {
            if out.contains(x) {
                let k = choose|k: int| 0 <= k < out.len() && out[k] == x;
                if k < i {
                    assert(bars[k] == x);
                }
                if k > i {
                    assert(bars[k - 1] == x);
                }
            }
            if x == bar {
                assert(out[i] == x);
            }
            if bars.contains(x) && x.datetime@ != key {
                let k = choose|k: int| 0 <= k < bars.len() && bars[k] == x;
                if k < i {
                    assert(out[k] == x);
                } else {
                    assert(out[k + 1] == x);
                }
            }
        }
    }
}

/// Merging bars into sorted bars keeps them sorted.
pub proof fn lemma_merged_sorted(bars: Seq<Aggregate>, data: Seq<Aggregate>)
    requires
        sorted(bars),
    ensures
        sorted(merged(bars, data)),
    decreases data.len(),
{
    if data.len() > 0 {
        lemma_merged_sorted(bars, data.drop_last());
        lemma_insert_bar(merged(bars, data.drop_last()), data.last());
    }
}

/// The bars of one symbol.
struct Series {
    ticker: String,
    bars: Vec<Aggregate>,
}

/// First place in sorted bars whose bar is not before `key`; with `after`,
/// first place whose bar is after `key`.
fn partition_point(bars: &Vec<Aggregate>, key: &DateTime, after: bool) -> (r: usize)
    requires
        sorted(bars@),
    ensures
        r <= bars@.len(),
        forall|j: int|
            0 <= j < r ==> if after {
                (#[trigger] bars@[j]).datetime@ <= key@
            } else {
                bars@[j].datetime@ < key@
            },
        forall|j: int|
            r <= j < bars@.len() ==> if after {
                (#[trigger] bars@[j]).datetime@ > key@
            } else {
                bars@[j].datetime@ >= key@
            },
{
    let mut lo: usize = 0;
    let mut hi: usize = bars.len();
    while lo < hi
        invariant
            lo <= hi <= bars@.len(),
            sorted(bars@),
            forall|j: int|
                0 <= j < lo ==> if after {
                    (#[trigger] bars@[j]).datetime@ <= key@
                } else {
                    bars@[j].datetime@ < key@
                },
            forall|j: int|
                hi <= j < bars@.len() ==> if after {
                    (#[trigger] bars@[j]).datetime@ > key@
                } else {
                    bars@[j].datetime@ >= key@
                },
        decreases hi - lo,
    {
        let mid: usize = lo + (hi - lo) / 2;
        let at = bars[mid].datetime;
        let before = if after {
            at.le(key)
        } else {
            at.lt(key)
        };
        if before {
            proof {
                assert forall|j: int| 0 <= j < mid + 1 implies if after {
                    (#[trigger] bars@[j]).datetime@ <= key@
                } else {
                    bars@[j].datetime@ < key@
                } by {
                    if j < mid {
                        assert(bars@[j].datetime@ < bars@[mid as int].datetime@);
                    }
                }
            }
            lo = mid + 1;
        } else {
            proof {
                assert forall|j: int| mid <= j < bars@.len() implies if after {
                    (#[trigger] bars@[j]).datetime@ > key@
                } else {
                    bars@[j].datetime@ >= key@
                } by {
                    if j > mid {
                        assert(bars@[mid as int].datetime@ < bars@[j].datetime@);
                    }
                }
            }
            hi = mid;
        }
    }
    lo
}

/// Puts `bar` in its place in sorted bars.
fn insert_sorted(bars: &mut Vec<Aggregate>, bar: Aggregate)
    requires
        sorted(old(bars)@),
    ensures
        final(bars)@ == insert_bar(old(bars)@, bar),
        sorted(final(bars)@),
{
    let i = partition_point(bars, &bar.datetime, false);
    proof {
        lemma_rank(bars@, bar.datetime@, i as int);
    }
    let ghost before = bars@;
    if i < bars.len() && bars[i].datetime.same(&bar.datetime) {
        bars.set(i, bar);
        proof {
            assert forall|a: int, b: int| 0 <= a < b < bars@.len() implies (
            #[trigger] bars@[a]).datetime@ < (#[trigger] bars@[b]).datetime@ by {
                assert(bars@[a].datetime@ == before[a].datetime@);
                assert(bars@[b].datetime@ == before[b].datetime@);
            }
        }
    } else {
        bars.insert(i, bar);
        proof {
            assert forall|a: int, b: int| 0 <= a < b < bars@.len() implies (
            #[trigger] bars@[a]).datetime@ < (#[trigger] bars@[b]).datetime@ by {
                if a < i {
                    assert(bars@[a] == before[a]);
                }
                if a > i {
                    assert(bars@[a] == before[a - 1]);
                }
                if b < i {
                    assert(bars@[b] == before[b]);
                }
                if b > i {
                    assert(bars@[b] == before[b - 1]);
                }
            }
        }
    }
}

/// The bars from place `lo` up to, not including, place `hi`.
fn copy_range(bars: &Vec<Aggregate>, lo: usize, hi: usize) -> (r: Vec<Aggregate>)
    requires
        lo <= hi <= bars@.len(),
    ensures
        r@ == bars@.subrange(lo as int, hi as int),
{
    let mut out: Vec<Aggregate> = Vec::new();
    let mut i: usize = lo;
    while i < hi
        invariant
            lo <= i <= hi <= bars@.len(),
            out@ == bars@.subrange(lo as int, i as int),
        decreases hi - i,
    {
        out.push(bars[i]);
        proof {
            assert(bars@.subrange(lo as int, i + 1) == bars@.subrange(lo as int, i as int).push(
                bars@[i as int],
            ));
        }
        i = i + 1;
    }
    out
}

/// Bars by symbol and time.
pub struct MarketDataCache {
    data: Vec<Series>,
}

impl MarketDataCache {
    /// The bars of every symbol are sorted, and no symbol is held twice.
    #[verifier::type_invariant]
    pub closed spec fn wf(&self) -> bool {
        &&& forall|i: int| 0 <= i < self.data@.len() ==> sorted((#[trigger] self.data@[i]).bars@)
        &&& forall|i: int, j: int|
            0 <= i < j < self.data@.len() ==> (#[trigger] self.data@[i]).ticker@ != (
            #[trigger] self.data@[j]).ticker@
    }

    /// The bars held for `ticker`, in time order; empty where there are none.
    pub closed spec fn series(&self, ticker: Seq<char>) -> Seq<Aggregate> {
        if exists|i: int| 0 <= i < self.data@.len() && self.data@[i].ticker@ == ticker {
            let i = choose|i: int| 0 <= i < self.data@.len() && self.data@[i].ticker@ == ticker;
            self.data@[i].bars@
        } else {
            Seq::empty()
        }
    }

    /// The bars of every symbol ascend in time.
    pub proof fn lemma_sorted(&self, ticker: Seq<char>)
        requires
            self.wf(),
        ensures
            sorted(self.series(ticker)),
    {
    }

    proof fn lemma_series_at(&self, i: int)
        requires
            self.wf(),
            0 <= i < self.data@.len(),
        ensures
            self.series(self.data@[i].ticker@) == self.data@[i].bars@,
    {
        let t = self.data@[i].ticker@;
        let c = choose|c: int| 0 <= c < self.data@.len() && self.data@[c].ticker@ == t;
        if c < i {
            assert(self.data@[c].ticker@ != self.data@[i].ticker@);
        }
        if i < c {
            assert(self.data@[i].ticker@ != self.data@[c].ticker@);
        }
    }

    /// An empty cache.
    pub fn new() -> (r: MarketDataCache)
        ensures
            forall|t: Seq<char>| (#[trigger] r.series(t)).len() == 0,
    {
        MarketDataCache { data: Vec::new() }
    }

    /// Place of the series of `ticker`.
    fn find(&self, ticker: &str) -> (r: Option<usize>)
        ensures
            match r {
                Some(i) => i < self.data@.len() && self.data@[i as int].ticker@ == ticker@
                    && self.series(ticker@) == self.data@[i as int].bars@,
                None => self.series(ticker@).len() == 0 && forall|j: int|
                    0 <= j < self.data@.len() ==> (#[trigger] self.data@[j]).ticker@ != ticker@,
            },
    {
        proof {
            use_type_invariant(self);
        }
        let wanted: String = ticker.to_owned();
        let mut i: usize = 0;
        while i < self.data.len()
            invariant
                i <= self.data@.len(),
                wanted@ == ticker@,
                forall|j: int| 0 <= j < i ==> (#[trigger] self.data@[j]).ticker@ != ticker@,
            decreases self.data.len() - i,
        {
            if self.data[i].ticker == wanted {
                proof {
                    use_type_invariant(self);
                    self.lemma_series_at(i as int);
                }
                return Some(i);
            }
            i = i + 1;
        }
        None
    }

    /// The bars of `ticker` from `start` to `end`, both included, in time
    /// order; `None` where there is none.
    pub fn get_data(&self, ticker: &str, start: DateTime, end: DateTime) -> (r: Option<
        Vec<Aggregate>,
    >)
        ensures
            match r {
                Some(v) => v@.len() > 0 && is_range(self.series(ticker@), v@, start@, end@),
                None => forall|k: int|
                    0 <= k < self.series(ticker@).len() ==> !(start@ <= (
                    #[trigger] self.series(ticker@)[k]).datetime@ <= end@),
            },
    {
        proof {
            use_type_invariant(self);
        }
        match self.find(ticker) {
            Some(s) => {
                let bars = &self.data[s].bars;
                let lo = partition_point(bars, &start, false);
                let hi = partition_point(bars, &end, true);
                if lo < hi {
                    let out = copy_range(bars, lo, hi);
                    proof {
                        assert(bounds_range(bars@, start@, end@, lo as int, hi as int));
                    }
                    Some(out)
                } else {
                    None
                }
            },
            None => None,
        }
    }

    /// The latest bar of `ticker` at or before `end`; `None` where there is
    /// none.
    pub fn get_last_before(&self, ticker: &str, end: DateTime) -> (r: Option<Aggregate>)
        ensures
            match r {
                Some(bar) => is_last_at_or_before(self.series(ticker@), bar, end@),
                None => forall|k: int|
                    0 <= k < self.series(ticker@).len() ==> (#[trigger] self.series(
                        ticker@,
                    )[k]).datetime@ > end@,
            },
    {
        proof {
            use_type_invariant(self);
        }
        match self.find(ticker) {
            Some(s) => {
                let bars = &self.data[s].bars;
                let hi = partition_point(bars, &end, true);
                if hi > 0 {
                    let bar = bars[hi - 1];
                    proof {
                        assert(bars@[hi - 1] == bar);
                        assert forall|k: int|
                            0 <= k < bars@.len() && (#[trigger] bars@[k]).datetime@
                                <= end@ implies bars@[k].datetime@ <= bar.datetime@ by {
                            if k < hi - 1 {
                                assert(bars@[k].datetime@ < bars@[hi - 1].datetime@);
                            }
                        }
                    }
                    Some(bar)
                } else {
                    None
                }
            },
            None => None,
        }
    }

    /// Merges `data` into the bars of `ticker`, bar after bar; a bar replaces
    /// the bar of the same timestamp. The bars of the other symbols stay.
    pub fn store_data(&mut self, ticker: &str, data: Vec<Aggregate>)
        ensures
            final(self).series(ticker@) == merged(old(self).series(ticker@), data@),
            forall|t: Seq<char>|
                t != ticker@ ==> (#[trigger] final(self).series(t)) == old(self).series(t),
    {
        proof {
            use_type_invariant(&*self);
        }
        let ghost before = *self;
        let found = self.find(ticker);
        let mut all: Vec<Series> = Vec::new();
        core::mem::swap(&mut all, &mut self.data);
        let mut series = match found {
            Some(s) => all.remove(s),
            None => Series { ticker: ticker.to_owned(), bars: Vec::new() },
        };
        let ghost rest = all@;
        let ghost start = series.bars@;
        let mut i: usize = 0;
        while i < data.len()
            invariant
                i <= data@.len(),
                sorted(series.bars@),
                series.ticker@ == ticker@,
                series.bars@ == merged(start, data@.take(i as int)),
            decreases data.len() - i,
        {
            proof {
                assert(data@.take(i + 1).drop_last() == data@.take(i as int));
                assert(data@.take(i + 1).last() == data@[i as int]);
            }
            insert_sorted(&mut series.bars, data[i]);
            i = i + 1;
        }
        proof {
            assert(data@.take(i as int) == data@);
        }
        all.push(series);
        proof {
            let after = all@;
            let last = after.len() - 1;
            assert forall|a: int, b: int| 0 <= a < b < after.len() implies (
            #[trigger] after[a]).ticker@ != (#[trigger] after[b]).ticker@ by {
                assert(after[a] == rest[a]);
                if b < last {
                    assert(after[b] == rest[b]);
                }
                match found {
                    Some(s) => {
                        let at = |k: int| if k < s {
                            k
                        } else {
                            k + 1
                        };
                        assert(rest[a] == before.data@[at(a)]);
                        if b < last {
                            assert(rest[b] == before.data@[at(b)]);
                        } else {
                            assert(before.data@[s as int].ticker@ == ticker@);
                        }
                    },
                    None => {
                        assert(rest[a] == before.data@[a]);
                        if b < last {
                            assert(rest[b] == before.data@[b]);
                        }
                    },
                }
            }
            assert forall|k: int| 0 <= k < after.len() implies sorted(
                (#[trigger] after[k]).bars@,
            ) by {
                if k < last {
                    assert(after[k] == rest[k]);
                    match found {
                        Some(s) => {
                            if k < s {
                                assert(rest[k] == before.data@[k]);
                            } else {
                                assert(rest[k] == before.data@[k + 1]);
                            }
                        },
                        None => {
                            assert(rest[k] == before.data@[k]);
                        },
                    }
                }
            }
        }
        self.data = all;
        proof {
            let after = self.data@;
            let last = after.len() - 1;
            assert(self.wf());
            self.lemma_series_at(last);
            assert forall|t: Seq<char>| t != ticker@ implies (#[trigger] self.series(t))
                == before.series(t) by {
                if exists|k: int| 0 <= k < before.data@.len() && before.data@[k].ticker@ == t {
                    let k = choose|k: int|
                        0 <= k < before.data@.len() && before.data@[k].ticker@ == t;
                    before.lemma_series_at(k);
                    let to = match found {
                        Some(s) => if k < s {
                            k
                        } else {
                            k - 1
                        },
                        None => k,
                    };
                    assert(after[to] == before.data@[k]);
                    self.lemma_series_at(to);
                } else {
                    if exists|k: int| 0 <= k < after.len() && after[k].ticker@ == t {
                        let k = choose|k: int| 0 <= k < after.len() && after[k].ticker@ == t;
                        assert(k < last);
                        assert(after[k] == rest[k]);
                        match found {
                            Some(s) => {
                                if k < s {
                                    assert(rest[k] == before.data@[k]);
                                } else {
                                    assert(rest[k] == before.data@[k + 1]);
                                }
                            },
                            None => {
                                assert(rest[k] == before.data@[k]);
                            },
                        }
                        assert(false);
                    }
                }
            }
        }
    }
}

} // verus!
