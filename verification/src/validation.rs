//! Checks that series of binary64 numbers are fit for a computation.
//!
//! Each check scans its series in order and reports the fault of the first
//! element that has one, as the computations it guards do.

use vstd::prelude::*;
use crate::binary64::{Binary64, zero_spec};
use crate::errors::QuantError;

verus! {

/// The rules an element of a series can be held to.
pub enum Rule {
    /// The value is finite (`finite_fault`).
    Finite,
    /// The price is finite and strictly positive (`positive_price_fault`).
    PositivePrice,
    /// The price is finite and strictly positive, zero told apart
    /// (`price_fault`).
    Price,
}

/// The fault of `x` under `rule`, if any.
pub open spec fn fault(rule: Rule, x: Binary64) -> Option<QuantError> {
    match rule {
        Rule::Finite => finite_fault(x),
        Rule::PositivePrice => positive_price_fault(x),
        Rule::Price => price_fault(x),
    }
}

/// The fault of the first element of `s` that has one under `rule`.
pub open spec fn first_fault(s: Seq<Binary64>, rule: Rule) -> Option<QuantError>
    decreases s.len(),
{
    if s.len() == 0 {
        None
    } else if fault(rule, s[0]) is Some {
        fault(rule, s[0])
    } else {
        first_fault(s.drop_first(), rule)
    }
}

/// `Ok(())` without a fault, `Err` carrying it otherwise.
pub open spec fn outcome(fault: Option<QuantError>) -> Result<(), QuantError> {
    match fault {
        None => Ok(()),
        Some(e) => Err(e),
    }
}

/// A value that is not finite is invalid.
pub open spec fn finite_fault(x: Binary64) -> Option<QuantError> {
    if !x.is_finite_spec() {
        Some(QuantError::InvalidValue(x))
    } else {
        None
    }
}

/// A price must be finite and strictly positive; zero and negative prices
/// are reported alike.
pub open spec fn positive_price_fault(p: Binary64) -> Option<QuantError> {
    if !p.is_finite_spec() {
        Some(QuantError::InvalidValue(p))
    } else if p.less_equal_spec(zero_spec()) {
        Some(QuantError::NonPositivePrice(p))
    } else {
        None
    }
}

/// A price must be finite and strictly positive; a zero price is reported
/// apart from a negative one.
pub open spec fn price_fault(p: Binary64) -> Option<QuantError> {
    if !p.is_finite_spec() {
        Some(QuantError::InvalidValue(p))
    } else if p.equal_spec(zero_spec()) {
        Some(QuantError::ZeroPrice)
    } else if p.less_spec(zero_spec()) {
        Some(QuantError::NonPositivePrice(p))
    } else {
        None
    }
}

/// Scanning `s` from position `i` on finds the first fault of `s` when no
/// element before `i` has a fault.
proof fn lemma_first_fault_step(s: Seq<Binary64>, rule: Rule, i: int)
    requires
        0 <= i < s.len(),
    ensures
        first_fault(s.skip(i), rule) == (if fault(rule, s[i]) is Some {
            fault(rule, s[i])
        } else {
            first_fault(s.skip(i + 1), rule)
        }),
{
    assert(s.skip(i).drop_first() =~= s.skip(i + 1));
}

/// A series without a first fault has no fault anywhere.
pub proof fn lemma_no_first_fault(s: Seq<Binary64>, rule: Rule)
    requires
        first_fault(s, rule) is None,
    ensures
        forall|i: int| 0 <= i < s.len() ==> (#[trigger] fault(rule, s[i])) is None,
    decreases s.len(),
{
    if s.len() > 0 {
        lemma_no_first_fault(s.drop_first(), rule);
        assert forall|i: int| 0 <= i < s.len() implies (#[trigger] fault(rule, s[i])) is None by {
            if i > 0 {
                assert(s[i] == s.drop_first()[i - 1]);
            }
        }
    }
}

fn finite_fault_of(x: Binary64) -> (r: Option<QuantError>)
    ensures
        r == finite_fault(x),
{
    if !x.is_finite() {
        Some(QuantError::InvalidValue(x))
    } else {
        None
    }
}

fn positive_price_fault_of(p: Binary64) -> (r: Option<QuantError>)
    ensures
        r == positive_price_fault(p),
{
    if !p.is_finite() {
        Some(QuantError::InvalidValue(p))
    } else if p.less_or_equal(&Binary64::zero()) {
        Some(QuantError::NonPositivePrice(p))
    } else {
        None
    }
}

fn price_fault_of(p: Binary64) -> (r: Option<QuantError>)
    ensures
        r == price_fault(p),
{
    if !p.is_finite() {
        Some(QuantError::InvalidValue(p))
    } else if p.equals(&Binary64::zero()) {
        Some(QuantError::ZeroPrice)
    } else if p.less_than(&Binary64::zero()) {
        Some(QuantError::NonPositivePrice(p))
    } else {
        None
    }
}

/// Every value is finite; otherwise the first one that is not is reported
/// as `InvalidValue`.
pub fn check_finite(values: &[Binary64]) -> (r: Result<(), QuantError>)
    ensures
        r == outcome(first_fault(values@, Rule::Finite)),
{
    assert(values@.skip(0) =~= values@);
    let mut i: usize = 0;
    while i < values.len()
        invariant
            i <= values.len(),
            first_fault(values@, Rule::Finite) == first_fault(values@.skip(i as int), Rule::Finite),
        decreases values.len() - i,
    {
        proof {
            lemma_first_fault_step(values@, Rule::Finite, i as int);
        }
        let f = finite_fault_of(values[i]);
        if let Some(e) = f {
            return Err(e);
        }
        i = i + 1;
    }
    assert(values@.skip(i as int).len() == 0);
    Ok(())
}

/// Every price is finite and strictly positive; otherwise the first one
/// that is not is reported (`InvalidValue` or `NonPositivePrice`).
pub fn check_positive_prices(prices: &[Binary64]) -> (r: Result<(), QuantError>)
    ensures
        r == outcome(first_fault(prices@, Rule::PositivePrice)),
{
    assert(prices@.skip(0) =~= prices@);
    let mut i: usize = 0;
    while i < prices.len()
        invariant
            i <= prices.len(),
            first_fault(prices@, Rule::PositivePrice) == first_fault(prices@.skip(i as int), Rule::PositivePrice),
        decreases prices.len() - i,
    {
        proof {
            lemma_first_fault_step(prices@, Rule::PositivePrice, i as int);
        }
        let f = positive_price_fault_of(prices[i]);
        if let Some(e) = f {
            return Err(e);
        }
        i = i + 1;
    }
    assert(prices@.skip(i as int).len() == 0);
    Ok(())
}

/// A price series fit for return computations: at least two prices, each
/// finite and strictly positive. Otherwise `InsufficientData`, or the fault
/// of the first bad price (`InvalidValue`, `ZeroPrice` or
/// `NonPositivePrice`).
pub fn validate_prices(prices: &[Binary64]) -> (r: Result<(), QuantError>)
    ensures
        prices@.len() < 2 ==> r == Err::<(), QuantError>(QuantError::InsufficientData),
        prices@.len() >= 2 ==> r == outcome(first_fault(prices@, Rule::Price)),
{
    if prices.len() < 2 {
        return Err(QuantError::InsufficientData);
    }
    assert(prices@.skip(0) =~= prices@);
    let mut i: usize = 0;
    while i < prices.len()
        invariant
            2 <= prices.len(),
            i <= prices.len(),
            first_fault(prices@, Rule::Price) == first_fault(prices@.skip(i as int), Rule::Price),
        decreases prices.len() - i,
    {
        proof {
            lemma_first_fault_step(prices@, Rule::Price, i as int);
        }
        let f = price_fault_of(prices[i]);
        if let Some(e) = f {
            return Err(e);
        }
        i = i + 1;
    }
    assert(prices@.skip(i as int).len() == 0);
    Ok(())
}

/// A denominator equal to zero (either sign) is `DivisionByZero`; any other
/// value, a NaN included, is accepted, as `d == 0.0` decides.
pub fn check_divisor(d: Binary64) -> (r: Result<(), QuantError>)
    ensures
        r == (if d.equal_spec(zero_spec()) {
            Err::<(), QuantError>(QuantError::DivisionByZero)
        } else {
            Ok(())
        }),
{
    if d.equals(&Binary64::zero()) {
        Err(QuantError::DivisionByZero)
    } else {
        Ok(())
    }
}

/// A non-empty series of finite values: an empty series is
/// `InsufficientData`, otherwise the first value that is not finite is
/// `InvalidValue`.
pub fn check_nonempty_finite(values: &[Binary64]) -> (r: Result<(), QuantError>)
    ensures
        values@.len() == 0 ==> r == Err::<(), QuantError>(QuantError::InsufficientData),
        values@.len() > 0 ==> r == outcome(first_fault(values@, Rule::Finite)),
{
    if values.len() == 0 {
        return Err(QuantError::InsufficientData);
    }
    check_finite(values)
}

/// A scan finds no fault exactly when no element has one.
pub proof fn lemma_first_fault_none_iff(s: Seq<Binary64>, rule: Rule)
    ensures
        first_fault(s, rule) is None <==> forall|i: int|
            0 <= i < s.len() ==> (#[trigger] fault(rule, s[i])) is None,
    decreases s.len(),
{
    if first_fault(s, rule) is None {
        lemma_no_first_fault(s, rule);
    }
    if s.len() > 0 {
        lemma_first_fault_none_iff(s.drop_first(), rule);
        if forall|i: int| 0 <= i < s.len() ==> (#[trigger] fault(rule, s[i])) is None {
            assert(fault(rule, s[0]) is None);
            assert forall|i: int| 0 <= i < s.drop_first().len() implies (#[trigger] fault(
                rule,
                s.drop_first()[i],
            )) is None by {
                assert(s.drop_first()[i] == s[i + 1]);
            }
        }
    }
}

/// A reported fault is the fault of some element, and no element before it
/// has a fault.
pub proof fn lemma_first_fault_is_first(s: Seq<Binary64>, rule: Rule)
    requires
        first_fault(s, rule) is Some,
    ensures
        exists|i: int|
            0 <= i < s.len() && #[trigger] fault(rule, s[i]) == first_fault(s, rule) && forall|j: int|
                0 <= j < i ==> (#[trigger] fault(rule, s[j])) is None,
    decreases s.len(),
{
    if fault(rule, s[0]) is Some {
        assert(fault(rule, s[0]) == first_fault(s, rule));
    } else {
        let t = s.drop_first();
        lemma_first_fault_is_first(t, rule);
        let i = choose|i: int|
            0 <= i < t.len() && #[trigger] fault(rule, t[i]) == first_fault(t, rule) && forall|j: int|
                0 <= j < i ==> (#[trigger] fault(rule, t[j])) is None;
        assert(s[i + 1] == t[i]);
        assert forall|j: int| 0 <= j < i + 1 implies (#[trigger] fault(rule, s[j])) is None by {
            if j > 0 {
                assert(s[j] == t[j - 1]);
            }
        }
        assert(fault(rule, s[i + 1]) == first_fault(s, rule));
    }
}

/// What each rule refuses, by the value of the number: a value that is not
/// finite is `InvalidValue`; a finite price is refused exactly when its
/// value is zero or below (zero as `ZeroPrice` or `NonPositivePrice`, a
/// negative value as `NonPositivePrice`); every finite value above zero,
/// however large or small, passes every rule.
pub proof fn lemma_faults_by_value(p: Binary64)
    ensures
        finite_fault(p) is None <==> p.is_finite_spec(),
        positive_price_fault(p) is None <==> (p.is_finite_spec() && p.scaled_value() > 0),
        price_fault(p) is None <==> (p.is_finite_spec() && p.scaled_value() > 0),
        !p.is_finite_spec() ==> finite_fault(p) == Some(QuantError::InvalidValue(p))
            && positive_price_fault(p) == Some(QuantError::InvalidValue(p)) && price_fault(p)
            == Some(QuantError::InvalidValue(p)),
        p.is_finite_spec() && p.scaled_value() == 0 ==> price_fault(p) == Some(QuantError::ZeroPrice)
            && positive_price_fault(p) == Some(QuantError::NonPositivePrice(p)),
        p.is_finite_spec() && p.scaled_value() < 0 ==> price_fault(p) == Some(
            QuantError::NonPositivePrice(p),
        ) && positive_price_fault(p) == Some(QuantError::NonPositivePrice(p)),
{
    let z = zero_spec();
    assert(z.magnitude() == 0);
    assert(z.exponent() == 0);
    assert(z.fraction() == 0);
    assert(z.scaled_value() == 0);
    assert(z.is_finite_spec());
}

/// A series of finite values above zero passes every rule, so
/// `validate_prices` accepts it when it has at least two prices, and
/// `check_positive_prices` and `check_finite` accept it always.
pub proof fn lemma_positive_series_passes(s: Seq<Binary64>)
    requires
        forall|i: int|
            0 <= i < s.len() ==> (#[trigger] s[i]).is_finite_spec() && s[i].scaled_value() > 0,
    ensures
        first_fault(s, Rule::Price) is None,
        first_fault(s, Rule::PositivePrice) is None,
        first_fault(s, Rule::Finite) is None,
{
    assert forall|i: int| 0 <= i < s.len() implies (#[trigger] fault(Rule::Price, s[i])) is None
        && fault(Rule::PositivePrice, s[i]) is None && fault(Rule::Finite, s[i]) is None by {
        lemma_faults_by_value(s[i]);
    }
    lemma_first_fault_none_iff(s, Rule::Price);
    lemma_first_fault_none_iff(s, Rule::PositivePrice);
    lemma_first_fault_none_iff(s, Rule::Finite);
}

} // verus!
