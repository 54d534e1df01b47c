//! Signal-driven backtesting.

pub mod engine;
pub mod results;
