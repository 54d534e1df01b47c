//! Portfolios of weighted positions.
//!
//! The portfolio return of a period is the weighted sum of the positions'
//! returns for that period; those sums of binary64 products are formed
//! outside the library. Here stands the check that makes them well defined.

pub mod position;

pub use position::Position;

use vstd::prelude::*;
use crate::binary64::{Binary64, conversion};
use crate::errors::QuantError;
use crate::validation::{check_finite, first_fault, Rule};

verus! {

/// A set of positions.
pub struct Portfolio {
    pub positions: Vec<Position>,
}

/// What is wrong with a position in a portfolio whose series have `len`
/// returns: a different length (`InvalidValue` of that length), a weight
/// that is not finite, or the first return that is not finite.
pub open spec fn position_fault(p: Position, len: nat) -> Option<QuantError> {
    if p.returns@.len() != len {
        Some(QuantError::InvalidValue(conversion(p.returns@.len())))
    } else if !p.weight.is_finite_spec() {
        Some(QuantError::InvalidValue(p.weight))
    } else {
        first_fault(p.returns@, Rule::Finite)
    }
}

/// The fault of the first position that has one.
pub open spec fn first_position_fault(positions: Seq<Position>, len: nat) -> Option<QuantError>
    decreases positions.len(),
{
    if positions.len() == 0 {
        None
    } else if position_fault(positions[0], len) is Some {
        position_fault(positions[0], len)
    } else {
        first_position_fault(positions.drop_first(), len)
    }
}

proof fn lemma_first_position_fault_step(positions: Seq<Position>, len: nat, i: int)
    requires
        0 <= i < positions.len(),
    ensures
        first_position_fault(positions.skip(i), len) == (if position_fault(positions[i], len) is Some {
            position_fault(positions[i], len)
        } else {
            first_position_fault(positions.skip(i + 1), len)
        }),
{
    assert(positions.skip(i).drop_first() =~= positions.skip(i + 1));
}

/// A portfolio without a first fault has no fault in any position.
pub proof fn lemma_no_position_fault(positions: Seq<Position>, len: nat)
    requires
        first_position_fault(positions, len) is None,
    ensures
        forall|i: int|
            0 <= i < positions.len() ==> (#[trigger] position_fault(positions[i], len)) is None,
    decreases positions.len(),
{
    if positions.len() > 0 {
        lemma_no_position_fault(positions.drop_first(), len);
        assert forall|i: int| 0 <= i < positions.len() implies (#[trigger] position_fault(
            positions[i],
            len,
        )) is None by {
            if i > 0 {
                assert(positions[i] == positions.drop_first()[i - 1]);
            }
        }
    }
}

impl Portfolio {
    /// The common length of the positions' return series. No position is
    /// `InsufficientData`, and so is an empty first series; otherwise the
    /// first position that is wrong is reported (see `position_fault`).
    pub fn validate(&self) -> (r: Result<usize, QuantError>)
        ensures
            self.positions@.len() == 0 ==> r == Err::<usize, QuantError>(
                QuantError::InsufficientData,
            ),
            self.positions@.len() > 0 && self.positions@[0].returns@.len() == 0 ==> r == Err::<
                usize,
                QuantError,
            >(QuantError::InsufficientData),
            self.positions@.len() > 0 && self.positions@[0].returns@.len() > 0 ==> r == match first_position_fault(
                self.positions@,
                self.positions@[0].returns@.len(),
            ) {
                Some(e) => Err::<usize, QuantError>(e),
                None => Ok(self.positions@[0].returns@.len() as usize),
            },
    {
        if self.positions.len() == 0 {
            return Err(QuantError::InsufficientData);
        }
        let len = self.positions[0].returns.len();
        if len == 0 {
            return Err(QuantError::InsufficientData);
        }
        let ghost ps = self.positions@;
        assert(ps.skip(0) =~= ps);
        let mut i: usize = 0;
        while i < self.positions.len()
            invariant
                ps == self.positions@,
                0 < len,
                0 < ps.len(),
                ps[0].returns@.len() == len,
                i <= ps.len(),
                first_position_fault(ps, len as nat) == first_position_fault(
                    ps.skip(i as int),
                    len as nat,
                ),
            decreases self.positions.len() - i,
        {
            proof {
                lemma_first_position_fault_step(ps, len as nat, i as int);
            }
            let p = &self.positions[i];
            if p.returns.len() != len {
                return Err(QuantError::InvalidValue(Binary64::from_count(p.returns.len())));
            }
            if !p.weight.is_finite() {
                return Err(QuantError::InvalidValue(p.weight));
            }
            match check_finite(p.returns.as_slice()) {
                Err(e) => return Err(e),
                Ok(()) => {},
            }
            i = i + 1;
        }
        assert(ps.skip(i as int).len() == 0);
        Ok(len)
    }
}

/// A portfolio that passes `validate` has series of one common, positive
/// length, and only finite weights and returns.
pub proof fn lemma_validated_portfolio(positions: Seq<Position>, len: nat)
    requires
        len > 0,
        first_position_fault(positions, len) is None,
    ensures
        forall|i: int|
            0 <= i < positions.len() ==> (#[trigger] positions[i]).returns@.len() == len
                && positions[i].weight.is_finite_spec() && forall|t: int|
                0 <= t < len ==> (#[trigger] positions[i].returns@[t]).is_finite_spec(),
{
    lemma_no_position_fault(positions, len);
    assert forall|i: int| 0 <= i < positions.len() implies (#[trigger] positions[i]).returns@.len()
        == len && positions[i].weight.is_finite_spec() && forall|t: int|
        0 <= t < len ==> (#[trigger] positions[i].returns@[t]).is_finite_spec() by {
        assert(position_fault(positions[i], len) is None);
        crate::validation::lemma_no_first_fault(positions[i].returns@, Rule::Finite);
        assert forall|t: int| 0 <= t < len implies (#[trigger] positions[i].returns@[t]).is_finite_spec() by {
            assert(crate::validation::fault(Rule::Finite, positions[i].returns@[t]) is None);
        }
    }
}

/// Exactly what a position is refused for: it passes exactly when its
/// series has the common length, its weight is finite (of either sign) and
/// every return is finite.
pub proof fn lemma_position_fault_exact(p: Position, len: nat)
    ensures
        position_fault(p, len) is None <==> (p.returns@.len() == len
            && p.weight.is_finite_spec() && forall|t: int|
            0 <= t < p.returns@.len() ==> (#[trigger] p.returns@[t]).is_finite_spec()),
{
    crate::validation::lemma_first_fault_none_iff(p.returns@, Rule::Finite);
    assert forall|t: int| 0 <= t < p.returns@.len() implies (crate::validation::fault(
        Rule::Finite,
        #[trigger] p.returns@[t],
    ) is None <==> p.returns@[t].is_finite_spec()) by {
        crate::validation::lemma_faults_by_value(p.returns@[t]);
    }
}

/// A portfolio passes exactly when every position passes, so `validate`
/// returns the common length for any portfolio whose positions all have a
/// non-empty series of that length, finite weights of any sign and finite
/// returns.
pub proof fn lemma_portfolio_passes_iff(positions: Seq<Position>, len: nat)
    ensures
        first_position_fault(positions, len) is None <==> forall|i: int|
            0 <= i < positions.len() ==> (#[trigger] position_fault(positions[i], len)) is None,
    decreases positions.len(),
{
    if first_position_fault(positions, len) is None {
        lemma_no_position_fault(positions, len);
    }
    if positions.len() > 0 {
        let rest = positions.drop_first();
        lemma_portfolio_passes_iff(rest, len);
        if forall|i: int|
            0 <= i < positions.len() ==> (#[trigger] position_fault(positions[i], len)) is None {
            assert(position_fault(positions[0], len) is None);
            assert forall|i: int| 0 <= i < rest.len() implies (#[trigger] position_fault(
                rest[i],
                len,
            )) is None by {
                assert(rest[i] == positions[i + 1]);
            }
        }
    }
}

/// A reported portfolio fault is the fault of some position, and every
/// position before it passes.
pub proof fn lemma_first_position_fault_is_first(positions: Seq<Position>, len: nat)
    requires
        first_position_fault(positions, len) is Some,
    ensures
        exists|i: int|
            0 <= i < positions.len() && #[trigger] position_fault(positions[i], len)
                == first_position_fault(positions, len) && forall|j: int|
                0 <= j < i ==> (#[trigger] position_fault(positions[j], len)) is None,
    decreases positions.len(),
{
    if position_fault(positions[0], len) is Some {
        assert(position_fault(positions[0], len) == first_position_fault(positions, len));
    } else {
        let rest = positions.drop_first();
        lemma_first_position_fault_is_first(rest, len);
        let i = choose|i: int|
            0 <= i < rest.len() && #[trigger] position_fault(rest[i], len)
                == first_position_fault(rest, len) && forall|j: int|
                0 <= j < i ==> (#[trigger] position_fault(rest[j], len)) is None;
        assert(positions[i + 1] == rest[i]);
        assert forall|j: int| 0 <= j < i + 1 implies (#[trigger] position_fault(
            positions[j],
            len,
        )) is None by {
            if j > 0 {
                assert(positions[j] == rest[j - 1]);
            }
        }
    }
}

} // verus!
