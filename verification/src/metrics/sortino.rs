//! The downside part of the Sortino ratio.
//!
//! The ratio divides the mean excess return by the root mean square of the
//! shortfalls below the target; the shortfall count decides whether that
//! denominator exists, and stands here.

use vstd::prelude::*;
use crate::binary64::Binary64;
use crate::errors::QuantError;
use crate::validation::{check_finite, first_fault, Rule};

verus! {

/// How many returns of `s` are strictly below `target`.
pub open spec fn count_below(s: Seq<Binary64>, target: Binary64) -> nat
    decreases s.len(),
{
    if s.len() == 0 {
        0
    } else {
        count_below(s.drop_last(), target) + if s.last().less_spec(target) {
            1nat
        } else {
            0nat
        }
    }
}

/// The number of returns strictly below the target `risk_free`, when the
/// Sortino ratio is defined: fewer than two returns is `InsufficientData`,
/// the first return that is not finite is `InvalidValue`, and no return
/// below the target is `DivisionByZero`.
pub fn downside_count(series: &[Binary64], risk_free: Binary64) -> (r: Result<usize, QuantError>)
    ensures
        series@.len() < 2 ==> r == Err::<usize, QuantError>(QuantError::InsufficientData),
        series@.len() >= 2 ==> r == match first_fault(series@, Rule::Finite) {
            Some(e) => Err::<usize, QuantError>(e),
            None => if count_below(series@, risk_free) == 0 {
                Err(QuantError::DivisionByZero)
            } else {
                Ok(count_below(series@, risk_free) as usize)
            },
        },
{
    if series.len() < 2 {
        return Err(QuantError::InsufficientData);
    }
    match check_finite(series) {
        Err(e) => return Err(e),
        Ok(()) => {},
    }
    let mut count: usize = 0;
    let mut i: usize = 0;
    assert(series@.take(0) =~= Seq::<Binary64>::empty());
    while i < series.len()
        invariant
            i <= series@.len(),
            count == count_below(series@.take(i as int), risk_free),
            count <= i,
        decreases series.len() - i,
    {
        assert(series@.take(i + 1).drop_last() =~= series@.take(i as int));
        if series[i].less_than(&risk_free) {
            count = count + 1;
        }
        i = i + 1;
    }
    assert(series@.take(i as int) =~= series@);
    if count == 0 {
        return Err(QuantError::DivisionByZero);
    }
    Ok(count)
}

/// Which returns fall short of the target: entry `i` is `series[i] <
/// target` (IEEE comparison).
pub fn shortfall_flags(series: &[Binary64], target: Binary64) -> (r: Vec<bool>)
    ensures
        r@.len() == series@.len(),
        forall|i: int| 0 <= i < series@.len() ==> #[trigger] r@[i] == series@[i].less_spec(target),
{
    let mut flags: Vec<bool> = Vec::with_capacity(series.len());
    let mut i: usize = 0;
    while i < series.len()
        invariant
            i <= series@.len(),
            flags@.len() == i,
            forall|t: int| 0 <= t < i ==> #[trigger] flags@[t] == series@[t].less_spec(target),
        decreases series.len() - i,
    {
        flags.push(series[i].less_than(&target));
        i = i + 1;
    }
    flags
}

/// Counting shortfalls one return at a time: the empty series has none,
/// and appending a return adds one exactly when it is below the target,
/// whatever the length of the series.
pub proof fn lemma_count_below_push(s: Seq<Binary64>, x: Binary64, target: Binary64)
    ensures
        count_below(Seq::<Binary64>::empty(), target) == 0,
        count_below(s.push(x), target) == count_below(s, target) + if x.less_spec(target) {
            1nat
        } else {
            0nat
        },
{
    assert(s.push(x).drop_last() =~= s);
}

/// The count is at most the length, and it is positive exactly when some
/// return, at any position, is below the target.
pub proof fn lemma_count_below_positive(s: Seq<Binary64>, target: Binary64)
    ensures
        count_below(s, target) <= s.len(),
        count_below(s, target) > 0 <==> exists|i: int|
            0 <= i < s.len() && (#[trigger] s[i]).less_spec(target),
    decreases s.len(),
{
    if s.len() > 0 {
        let t = s.drop_last();
        lemma_count_below_positive(t, target);
        if exists|i: int| 0 <= i < s.len() && (#[trigger] s[i]).less_spec(target) {
            let i = choose|i: int| 0 <= i < s.len() && (#[trigger] s[i]).less_spec(target);
            if i < s.len() - 1 {
                assert(t[i] == s[i]);
            }
        }
        if exists|i: int| 0 <= i < t.len() && (#[trigger] t[i]).less_spec(target) {
            let i = choose|i: int| 0 <= i < t.len() && (#[trigger] t[i]).less_spec(target);
            assert(s[i] == t[i]);
        }
    }
}

} // verus!
