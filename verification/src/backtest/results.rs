//! The record of a backtest.

use vstd::prelude::*;
use crate::binary64::Binary64;

verus! {

/// The path of a backtest: one strategy return per interval, the equity
/// curve starting at one, and the final equity.
pub struct BacktestResult {
    pub strategy_returns: Vec<Binary64>,
    pub equity_curve: Vec<Binary64>,
    pub final_equity: Binary64,
}

impl BacktestResult {
    /// The number of strategy returns.
    pub fn len(&self) -> (r: usize)
        ensures
            r == self.strategy_returns@.len(),
    {
        self.strategy_returns.len()
    }

    /// Whether there is no strategy return.
    pub fn is_empty(&self) -> (r: bool)
        ensures
            r == (self.strategy_returns@.len() == 0),
    {
        self.strategy_returns.len() == 0
    }
}

} // verus!
