//! Checks of the dispersion statistics (variance, volatility and their
//! annualised forms, and the Sharpe ratio built on them).
//!
//! The statistics are sums and square roots of binary64 numbers, formed
//! outside the library; the checks that decide whether they are computed
//! at all stand here.

use vstd::prelude::*;
use crate::binary64::{Binary64, zero_spec};
use crate::errors::QuantError;
use crate::validation::{check_finite, first_fault, outcome, Rule};

verus! {

/// A return series fit for a sample statistic: at least two returns
/// (`InsufficientData`), each finite (the first that is not is
/// `InvalidValue`).
pub fn validate_returns(series: &[Binary64]) -> (r: Result<(), QuantError>)
    ensures
        series@.len() < 2 ==> r == Err::<(), QuantError>(QuantError::InsufficientData),
        series@.len() >= 2 ==> r == outcome(first_fault(series@, Rule::Finite)),
{
    if series.len() < 2 {
        return Err(QuantError::InsufficientData);
    }
    check_finite(series)
}

/// An annualisation factor must be above zero: any other value (zero, a
/// negative value or a NaN) is `InvalidValue` of it.
pub fn check_periods_per_year(periods_per_year: Binary64) -> (r: Result<(), QuantError>)
    ensures
        r == (if zero_spec().less_spec(periods_per_year) {
            Ok::<(), QuantError>(())
        } else {
            Err(QuantError::InvalidValue(periods_per_year))
        }),
{
    if Binary64::zero().less_than(&periods_per_year) {
        Ok(())
    } else {
        Err(QuantError::InvalidValue(periods_per_year))
    }
}

} // verus!
