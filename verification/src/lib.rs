//! Quantitative-finance building blocks: price validation, drawdown
//! statistics, moving-average crossover signals, portfolio checks and the
//! exposure schedule of a signal-driven backtest.
//!
//! Prices and returns are IEEE 754 binary64 numbers. The library holds each
//! one by its encoding (`Binary64`), which lets every rule that classifies
//! or orders these numbers be stated over their exact mathematical values
//! and proved.

pub mod backtest;
pub mod binary64;
pub mod errors;
pub mod metrics;
pub mod portfolio;
pub mod strategy;
pub mod validation;
