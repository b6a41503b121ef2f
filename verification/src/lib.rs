//! A central limit order book with stop orders.

pub mod clock;
pub mod order;
pub mod queue;
pub mod matching;
pub mod orderbook;
pub mod laws;
pub mod ranking;
pub mod config;
pub mod setup;
pub mod relations;
