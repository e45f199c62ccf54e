//! What a simulation is configured with.
use crate::time::{Date, Duration};
use vstd::prelude::*;

verus! {

/// Spacing of the bars that the simulation replays.
#[derive(Clone, Copy, Debug, PartialEq, Eq, Hash, Structural)]
pub enum Resolution {
    Minute,
    Day,
}

/// Configuration of a simulation.
#[derive(Clone, Debug)]
pub struct Options {
    pub tickers: Vec<String>,
    pub start: Date,
    pub end: Date,
    pub warmup: Duration,
    pub resolution: Resolution,
    pub normalize: bool,
    pub outdir: Option<String>,
}

/// Whether `ticker` is among the symbols.
pub open spec fn has_ticker(tickers: Seq<String>, ticker: Seq<char>) -> bool {
    exists|j: int| 0 <= j < tickers.len() && (#[trigger] tickers[j])@ == ticker
}

/// Whether data that was kept for `cached` serves `wanted`: every symbol that
/// is wanted is among the cached ones, and the cached days hold the wanted
/// days.
pub open spec fn serves(cached: Options, wanted: Options) -> bool {
    &&& forall|i: int|
        0 <= i < wanted.tickers@.len() ==> has_ticker(
            cached.tickers@,
            (#[trigger] wanted.tickers@[i])@,
        )
    &&& cached.start@ <= wanted.start@
    &&& wanted.end@ <= cached.end@
}

fn contains_ticker(tickers: &Vec<String>, ticker: &String) -> (r: bool)
    ensures
        r == has_ticker(tickers@, ticker@),
{
    let mut j: usize = 0;
    while j < tickers.len()
        invariant
            j <= tickers@.len(),
            forall|k: int| 0 <= k < j ==> (#[trigger] tickers@[k])@ != ticker@,
        decreases tickers.len() - j,
    {
        if tickers[j] == *ticker {
            return true;
        }
        j = j + 1;
    }
    false
}

/// Whether data that was kept for the options `cached` can be used for the
/// options `wanted`.
pub fn is_cache_valid(cached: &Options, wanted: &Options) -> (r: bool)
    ensures
        r == serves(*cached, *wanted),
{
    if !(cached.start.le(&wanted.start) && wanted.end.le(&cached.end)) {
        return false;
    }
    let mut i: usize = 0;
    while i < wanted.tickers.len()
        invariant
            i <= wanted.tickers@.len(),
            forall|k: int|
                0 <= k < i ==> has_ticker(cached.tickers@, (#[trigger] wanted.tickers@[k])@),
        decreases wanted.tickers.len() - i,
    {
        if !contains_ticker(&cached.tickers, &wanted.tickers[i]) {
            return false;
        }
        i = i + 1;
    }
    true
}

impl Options {
    /// Daily bars, no warmup, no normalisation, default output directory.
    pub fn new(tickers: Vec<String>, start: Date, end: Date) -> (r: Options)
        ensures
            r == (Options {
                tickers,
                start,
                end,
                warmup: r.warmup,
                resolution: Resolution::Day,
                normalize: false,
                outdir: None,
            }),
            r.warmup@ == 0,
    {
        Options {
            tickers,
            start,
            end,
            warmup: Duration::zero(),
            resolution: Resolution::Day,
            normalize: false,
            outdir: None,
        }
    }

    pub fn set_resolution(self, resolution: Resolution) -> (r: Options)
        ensures
            r == (Options { resolution, ..self }),
    {
        let mut options = self;
        options.resolution = resolution;
        options
    }

    pub fn set_warmup(self, warmup: Duration) -> (r: Options)
        ensures
            r == (Options { warmup, ..self }),
    {
        let mut options = self;
        options.warmup = warmup;
        options
    }

    pub fn set_normalize(self, normalize: bool) -> (r: Options)
        ensures
            r == (Options { normalize, ..self }),
    {
        let mut options = self;
        options.normalize = normalize;
        options
    }

    pub fn set_outdir(self, outdir: String) -> (r: Options)
        ensures
            r == (Options { outdir: Some(outdir), ..self }),
    {
        let mut options = self;
        options.outdir = Some(outdir);
        options
    }
}

} // verus!
