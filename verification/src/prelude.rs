//! What a strategy needs in scope.
pub use crate::brokerage::Brokerage;
pub use crate::decimal::Decimal;
pub use crate::market::Market;
pub use crate::options::{Options, Resolution};
pub use crate::order::Order;
pub use crate::simulator::Simulator;
pub use crate::strategy::Strategy;
pub use crate::time::MarketTimeExt;
