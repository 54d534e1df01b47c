//! The backtest engine: which intervals a signal-driven, long-only strategy
//! is invested in.
//!
//! Each interval `i` (from `prices[i - 1]` to `prices[i]`) first reads
//! `signals[i - 1]`: `Buy` enters the market, `Sell` leaves it, `Hold`
//! keeps the current state; the strategy starts out of the market. An
//! invested interval earns `prices[i] / prices[i - 1] - 1`, any other earns
//! nothing, and equity compounds from one; those sums and products of
//! binary64 numbers are formed outside the library.

use vstd::prelude::*;
use crate::binary64::{Binary64, conversion};
use crate::errors::QuantError;
use crate::strategy::signal::Signal;
use crate::validation::{check_positive_prices, first_fault, Rule};

pub use crate::backtest::results::BacktestResult;

verus! {

/// The state after reading one signal.
pub open spec fn apply_signal(invested: bool, signal: Signal) -> bool {
    match signal {
        Signal::Buy => true,
        Signal::Sell => false,
        Signal::Hold => invested,
    }
}

/// Whether the strategy is invested after reading the first `k` signals.
pub open spec fn invested_after(signals: Seq<Signal>, k: int) -> bool
    decreases k,
{
    if k <= 0 {
        false
    } else {
        apply_signal(invested_after(signals, k - 1), signals[k - 1])
    }
}

/// Runs backtests over price series.
pub struct BacktestEngine;

impl BacktestEngine {
    /// The exposure of a backtest: entry `i` tells whether the interval
    /// from `prices[i]` to `prices[i + 1]` is invested, which is the state
    /// after reading `signals[0..=i]`. Fewer than two prices is
    /// `InsufficientData`; a signal count other than the price count is
    /// `InvalidValue` of the signal count; a price that is not finite or
    /// not strictly positive is reported as in `check_positive_prices`.
    pub fn exposure(prices: &[Binary64], signals: &[Signal]) -> (r: Result<Vec<bool>, QuantError>)
        ensures
            prices@.len() < 2 ==> r == Err::<Vec<bool>, QuantError>(QuantError::InsufficientData),
            prices@.len() >= 2 && signals@.len() != prices@.len() ==> r == Err::<
                Vec<bool>,
                QuantError,
            >(QuantError::InvalidValue(conversion(signals@.len()))),
            prices@.len() >= 2 && signals@.len() == prices@.len() ==> match first_fault(
                prices@,
                Rule::PositivePrice,
            ) {
                Some(e) => r == Err::<Vec<bool>, QuantError>(e),
                None => r matches Ok(invested) && invested@.len() == prices@.len() - 1 && forall|
                    i: int,
                | 0 <= i < invested@.len() ==> #[trigger] invested@[i] == invested_after(
                    signals@,
                    i + 1,
                ),
            },
    {
        if prices.len() < 2 {
            return Err(QuantError::InsufficientData);
        }
        if signals.len() != prices.len() {
            return Err(QuantError::InvalidValue(Binary64::from_count(signals.len())));
        }
        match check_positive_prices(prices) {
            Err(e) => return Err(e),
            Ok(()) => {},
        }
        let mut invested: Vec<bool> = Vec::with_capacity(prices.len() - 1);
        let mut in_position = false;
        let mut i: usize = 1;
        while i < prices.len()
            invariant
                signals@.len() == prices@.len(),
                1 <= i <= prices@.len(),
                in_position == invested_after(signals@, i - 1),
                invested@.len() == i - 1,
                forall|t: int|
                    0 <= t < i - 1 ==> #[trigger] invested@[t] == invested_after(signals@, t + 1),
            decreases prices.len() - i,
        {
            match signals[i - 1] {
                Signal::Buy => in_position = true,
                Signal::Sell => in_position = false,
                Signal::Hold => {},
            }
            invested.push(in_position);
            i = i + 1;
        }
        Ok(invested)
    }
}

/// A signal decides the interval that follows it: after `Buy` the strategy
/// is invested, after `Sell` it is not, and `Hold` keeps the state of the
/// interval before (out of the market for the first one).
pub proof fn lemma_signal_applies_to_next_interval(signals: Seq<Signal>, i: int)
    requires
        0 <= i < signals.len(),
    ensures
        signals[i] == Signal::Buy ==> invested_after(signals, i + 1),
        signals[i] == Signal::Sell ==> !invested_after(signals, i + 1),
        signals[i] == Signal::Hold ==> invested_after(signals, i + 1) == invested_after(signals, i),
        !invested_after(signals, 0),
{
}

/// No look-ahead: whether the strategy is invested after `k` signals
/// depends on those `k` signals only.
pub proof fn lemma_no_look_ahead(a: Seq<Signal>, b: Seq<Signal>, k: int)
    requires
        0 <= k <= a.len(),
        k <= b.len(),
        a.take(k) == b.take(k),
    ensures
        invested_after(a, k) == invested_after(b, k),
    decreases k,
{
    if k > 0 {
        assert(a.take(k - 1) =~= a.take(k).take(k - 1));
        assert(b.take(k - 1) =~= b.take(k).take(k - 1));
        assert(a[k - 1] == a.take(k)[k - 1]);
        assert(b[k - 1] == b.take(k)[k - 1]);
        lemma_no_look_ahead(a, b, k - 1);
    }
}

} // verus!
