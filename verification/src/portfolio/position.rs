//! One sleeve of a portfolio: a weight and its series of period returns.

use vstd::prelude::*;
use crate::binary64::Binary64;
use crate::errors::QuantError;
use crate::validation::{check_nonempty_finite, first_fault, Rule};

verus! {

/// A weighted series of period returns.
pub struct Position {
    pub weight: Binary64,
    pub returns: Vec<Binary64>,
}

impl Position {
    /// A position from a finite weight and a non-empty series of finite
    /// returns. A weight that is not finite is `InvalidValue` of the weight;
    /// an empty series is `InsufficientData`; otherwise the first return
    /// that is not finite is `InvalidValue` of that return.
    pub fn new(weight: Binary64, series: Vec<Binary64>) -> (r: Result<Position, QuantError>)
        ensures
            !weight.is_finite_spec() ==> r == Err::<Position, QuantError>(
                QuantError::InvalidValue(weight),
            ),
            weight.is_finite_spec() && series@.len() == 0 ==> r == Err::<Position, QuantError>(
                QuantError::InsufficientData,
            ),
            weight.is_finite_spec() && series@.len() > 0 ==> match first_fault(
                series@,
                Rule::Finite,
            ) {
                Some(e) => r == Err::<Position, QuantError>(e),
                None => r matches Ok(p) && p.weight == weight && p.returns@ == series@,
            },
            r matches Ok(p) ==> p.returns@.len() > 0 && p.weight.is_finite_spec()
                && first_fault(p.returns@, Rule::Finite) is None,
    {
        if !weight.is_finite() {
            return Err(QuantError::InvalidValue(weight));
        }
        match check_nonempty_finite(series.as_slice()) {
            Err(e) => Err(e),
            Ok(()) => Ok(Position { weight, returns: series }),
        }
    }

    /// The number of returns.
    pub fn len(&self) -> (r: usize)
        ensures
            r == self.returns@.len(),
    {
        self.returns.len()
    }

    /// Whether there is no return.
    pub fn is_empty(&self) -> (r: bool)
        ensures
            r == (self.returns@.len() == 0),
    {
        self.returns.len() == 0
    }
}

} // verus!
