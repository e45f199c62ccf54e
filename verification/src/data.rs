//! Market observations and where they come from.
use crate::decimal::Decimal;
use crate::options::Resolution;
use crate::time::{Date, DateTime};
use vstd::prelude::*;

verus! {

/// One bar: open, high, low, close and volume of an interval that starts at
/// `datetime`.
#[derive(Clone, Copy, Debug, PartialEq, Eq, Structural)]
pub struct Aggregate {
    pub datetime: DateTime,
    pub open: Decimal,
    pub high: Decimal,
    pub low: Decimal,
    pub close: Decimal,
    pub volume: Decimal,
}

/// The data source failed.
#[derive(Debug, PartialEq, Eq)]
pub struct ProviderFetchFailed {
    pub message: String,
}

/// A source of bars. What it returns is its own affair: the bars need not be
/// sorted and there may be none.
pub trait DataProvider {
    fn fetch(&mut self, ticker: &str, start: Date, end: Date, resolution: Resolution) -> Result<
        Vec<Aggregate>,
        ProviderFetchFailed,
    >;
}

} // verus!
