//! A backtesting engine for trading strategies.
//!
//! A simulation replays the bars of a market against a strategy. The clock
//! walks every business day through its session states, the brokerage takes
//! the orders of the strategy and fills those that the prices allow, and the
//! record keeps the equity curve and the events.
pub mod account;
pub mod brokerage;
pub mod cache;
pub mod calendar;
pub mod clock;
pub mod commission;
pub mod data;
pub mod data_manager;
pub mod decimal;
pub mod market;
pub mod options;
pub mod order;
pub mod position;
pub mod prelude;
pub mod simulator;
pub mod statistics;
pub mod strategy;
pub mod time;

pub use account::Account;
pub use brokerage::{Brokerage, Event};
pub use calendar::NyseCalendar;
pub use clock::{Clock, MarketState};
pub use data::{Aggregate, DataProvider};
pub use decimal::Decimal;
pub use market::Market;
pub use options::{Options, Resolution};
pub use order::{Order, OrderStatus, OrderType};
pub use position::{Lot, Position};
pub use simulator::Simulator;
pub use statistics::{OrderCounts, Statistics};
pub use strategy::Strategy;
