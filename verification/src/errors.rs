//! The error type shared by every check of the library.

use vstd::prelude::*;
use crate::binary64::Binary64;

verus! {

/// Why a computation refused its input. Numbers are carried as binary64
/// encodings; a refused count or window is carried as its conversion to
/// binary64.
#[derive(Clone, Copy, Debug, PartialEq, Eq, Structural)]
pub enum QuantError {
    /// Too few observations for the computation.
    InsufficientData,
    /// A price that is zero or negative.
    NonPositivePrice(Binary64),
    /// A price equal to zero (either sign).
    ZeroPrice,
    /// A value that is not finite, or a count that is out of range.
    InvalidValue(Binary64),
    /// A denominator that would be zero.
    DivisionByZero,
}

} // verus!
