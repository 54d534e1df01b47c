//! Discrete trading actions.

use vstd::prelude::*;

verus! {

/// A trading action: enter (`Buy`), leave (`Sell`) or keep the current
/// exposure (`Hold`).
#[derive(Clone, Copy, Debug, PartialEq, Eq, Structural)]
pub enum Signal {
    Buy,
    Sell,
    Hold,
}

} // verus!
