//! The moving-average crossover rule.
//!
//! The averages themselves are sums of binary64 numbers and are formed
//! outside the library; here stand the checks on the inputs, and the rule
//! that turns the averages available at each period into a signal.

use vstd::prelude::*;
use crate::binary64::{Binary64, conversion};
use crate::errors::QuantError;
use crate::strategy::signal::Signal;
use crate::validation::{check_positive_prices, first_fault, outcome, Rule};

verus! {

/// The signal of one period: `Buy` when both averages are available and
/// the short one is above the long one, `Sell` when it is below, `Hold`
/// otherwise (an average is missing, the two are equal, or one is NaN).
pub open spec fn crossover_rule(short: Option<Binary64>, long: Option<Binary64>) -> Signal {
    match (short, long) {
        (Some(s), Some(l)) => if l.less_spec(s) {
            Signal::Buy
        } else if s.less_spec(l) {
            Signal::Sell
        } else {
            Signal::Hold
        },
        _ => Signal::Hold,
    }
}

/// The window that a pair of crossover windows is refused for, if any:
/// each window must be positive and the short one below the long one.
pub open spec fn window_fault(short_window: nat, long_window: nat) -> Option<nat> {
    if short_window == 0 {
        Some(short_window)
    } else if long_window == 0 {
        Some(long_window)
    } else if short_window >= long_window {
        Some(short_window)
    } else {
        None
    }
}

/// Checks the inputs of a simple moving average: a non-empty series
/// (`InsufficientData`), a positive window (`InvalidValue` of the window),
/// then prices as in `check_positive_prices`.
pub fn check_average_inputs(prices: &[Binary64], window: usize) -> (r: Result<(), QuantError>)
    ensures
        prices@.len() == 0 ==> r == Err::<(), QuantError>(QuantError::InsufficientData),
        prices@.len() > 0 && window == 0 ==> r == Err::<(), QuantError>(
            QuantError::InvalidValue(conversion(0)),
        ),
        prices@.len() > 0 && window > 0 ==> r == outcome(first_fault(prices@, Rule::PositivePrice)),
{
    if prices.len() == 0 {
        return Err(QuantError::InsufficientData);
    }
    if window == 0 {
        return Err(QuantError::InvalidValue(Binary64::from_count(window)));
    }
    check_positive_prices(prices)
}

/// Checks the two windows of a crossover rule; a refused window is reported
/// as `InvalidValue` of that window.
pub fn check_crossover_windows(short_window: usize, long_window: usize) -> (r: Result<
    (),
    QuantError,
>)
    ensures
        r == match window_fault(short_window as nat, long_window as nat) {
            None => Ok::<(), QuantError>(()),
            Some(w) => Err(QuantError::InvalidValue(conversion(w))),
        },
{
    if short_window == 0 {
        return Err(QuantError::InvalidValue(Binary64::from_count(short_window)));
    }
    if long_window == 0 {
        return Err(QuantError::InvalidValue(Binary64::from_count(long_window)));
    }
    if short_window >= long_window {
        return Err(QuantError::InvalidValue(Binary64::from_count(short_window)));
    }
    Ok(())
}

/// The signal of one period from the averages available then.
pub fn crossover_signal(short: Option<Binary64>, long: Option<Binary64>) -> (r: Signal)
    ensures
        r == crossover_rule(short, long),
{
    match (short, long) {
        (Some(s), Some(l)) => {
            if l.less_than(&s) {
                Signal::Buy
            } else if s.less_than(&l) {
                Signal::Sell
            } else {
                Signal::Hold
            }
        },
        _ => Signal::Hold,
    }
}

/// One signal per period from the short and long averages of the same
/// series.
pub fn crossover_signals(short_averages: &[Option<Binary64>], long_averages: &[Option<Binary64>]) -> (r:
    Vec<Signal>)
    requires
        short_averages@.len() == long_averages@.len(),
    ensures
        r@.len() == short_averages@.len(),
        forall|t: int|
            0 <= t < r@.len() ==> #[trigger] r@[t] == crossover_rule(
                short_averages@[t],
                long_averages@[t],
            ),
{
    let mut signals: Vec<Signal> = Vec::with_capacity(short_averages.len());
    let mut i: usize = 0;
    while i < short_averages.len()
        invariant
            short_averages@.len() == long_averages@.len(),
            i <= short_averages@.len(),
            signals@.len() == i,
            forall|t: int|
                0 <= t < i ==> #[trigger] signals@[t] == crossover_rule(
                    short_averages@[t],
                    long_averages@[t],
                ),
        decreases short_averages.len() - i,
    {
        signals.push(crossover_signal(short_averages[i], long_averages[i]));
        i = i + 1;
    }
    signals
}

/// The rule stays neutral until both averages are available, and when they
/// are equal.
pub proof fn lemma_hold_without_crossing(short: Option<Binary64>, long: Option<Binary64>)
    ensures
        short is None || long is None ==> crossover_rule(short, long) == Signal::Hold,
        (short matches Some(s) && long matches Some(l) && s.equal_spec(l)) ==> crossover_rule(
            short,
            long,
        ) == Signal::Hold,
{
    if let (Some(s), Some(l)) = (short, long) {
        if s.equal_spec(l) {
            crate::binary64::lemma_order_key(s, l);
        }
    }
}

/// Which periods of a series of `len` prices have a full window of
/// `window` prices behind them, so that their average is defined: the
/// first `window - 1` periods do not.
pub fn average_availability(len: usize, window: usize) -> (r: Vec<bool>)
    ensures
        r@.len() == len,
        forall|i: int| 0 <= i < len ==> #[trigger] r@[i] == (i + 1 >= window),
{
    let mut available: Vec<bool> = Vec::with_capacity(len);
    let mut i: usize = 0;
    while i < len
        invariant
            i <= len,
            available@.len() == i,
            forall|t: int| 0 <= t < i ==> #[trigger] available@[t] == (t + 1 >= window),
        decreases len - i,
    {
        available.push(i >= window || i + 1 == window);
        i = i + 1;
    }
    available
}

/// The crossover signal follows the IEEE order of the two averages: with
/// neither one NaN, it is `Buy` exactly when the long average is below the
/// short one, `Sell` exactly when the short one is below the long one, and
/// `Hold` exactly when they are equal; for finite averages this is the
/// order of their values.
pub proof fn lemma_crossover_follows_order(s: Binary64, l: Binary64)
    requires
        !s.is_nan_spec(),
        !l.is_nan_spec(),
    ensures
        crossover_rule(Some(s), Some(l)) == Signal::Buy <==> l.less_spec(s),
        crossover_rule(Some(s), Some(l)) == Signal::Sell <==> s.less_spec(l),
        crossover_rule(Some(s), Some(l)) == Signal::Hold <==> s.equal_spec(l),
        s.is_finite_spec() && l.is_finite_spec() ==> (crossover_rule(Some(s), Some(l))
            == Signal::Buy <==> l.scaled_value() < s.scaled_value()),
        s.is_finite_spec() && l.is_finite_spec() ==> (crossover_rule(Some(s), Some(l))
            == Signal::Sell <==> s.scaled_value() < l.scaled_value()),
        s.is_finite_spec() && l.is_finite_spec() ==> (crossover_rule(Some(s), Some(l))
            == Signal::Hold <==> s.scaled_value() == l.scaled_value()),
{
    crate::binary64::lemma_total_order(s, l);
    crate::binary64::lemma_total_order(l, s);
}

/// A pair of crossover windows is accepted exactly when both are positive
/// and the short one is below the long one.
pub proof fn lemma_windows_accepted_iff(short_window: nat, long_window: nat)
    ensures
        window_fault(short_window, long_window) is None <==> (0 < short_window
            && short_window < long_window),
        window_fault(short_window, long_window) matches Some(w) ==> (w == short_window || w
            == long_window),
{
}

} // verus!
