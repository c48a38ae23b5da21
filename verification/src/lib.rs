//! Verified core of a Polymarket BTC-5m backtest and walk-forward harness.
pub mod ring;
pub mod tallies;
pub mod folds;
pub mod sampling;
pub mod balance;
pub mod text;
pub mod catalog;
pub mod calendar;
pub mod discovery;
pub mod market_order;
pub mod listing;
pub mod availability;
pub mod prep_cache;
