//! Risk and performance statistics of price and return series.

pub mod drawdown;
pub mod sortino;
pub mod volatility;
