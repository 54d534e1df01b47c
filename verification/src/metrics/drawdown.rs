//! Drawdown: how far a price series stands below its running peak.

use vstd::prelude::*;
use crate::binary64::{
    Binary64, lemma_order_key, lemma_total_order, lemma_positive_encoding, zero_spec,
};
use crate::errors::QuantError;
use crate::validation::{
    check_positive_prices, first_fault, fault, lemma_no_first_fault, positive_price_fault, Rule,
};

verus! {

/// The running peak at `t`: the first price, replaced by each later price
/// that is above it.
pub open spec fn running_peak(s: Seq<Binary64>, t: int) -> Binary64
    decreases t,
{
    if t <= 0 {
        s[0]
    } else {
        let p = running_peak(s, t - 1);
        if p.less_spec(s[t]) {
            s[t]
        } else {
            p
        }
    }
}

/// The price at `t` is strictly below its running peak.
pub open spec fn underwater(s: Seq<Binary64>, t: int) -> bool {
    s[t].less_spec(running_peak(s, t))
}

/// Every period of `[start, start + len)` is underwater.
pub open spec fn underwater_run(s: Seq<Binary64>, start: int, len: int) -> bool {
    forall|t: int| start <= t < start + len ==> #[trigger] underwater(s, t)
}

/// Some `len` consecutive periods of `s` are all underwater.
pub open spec fn has_underwater_run(s: Seq<Binary64>, len: int) -> bool {
    exists|a: int| 0 <= a && a + len <= s.len() && #[trigger] underwater_run(s, a, len)
}

/// Every price of `s` is finite and strictly positive.
pub open spec fn valid_prices(s: Seq<Binary64>) -> bool {
    forall|i: int| 0 <= i < s.len() ==> (#[trigger] positive_price_fault(s[i])) is None
}

proof fn lemma_valid_prices(s: Seq<Binary64>)
    requires
        first_fault(s, Rule::PositivePrice) is None,
    ensures
        valid_prices(s),
{
    lemma_no_first_fault(s, Rule::PositivePrice);
    assert forall|i: int| 0 <= i < s.len() implies (#[trigger] positive_price_fault(s[i])) is None by {
        assert(fault(Rule::PositivePrice, s[i]) is None);
    }
}

/// The running peak is the highest price seen so far: every price up to
/// `t` is at most the peak, and the peak is one of those prices.
pub proof fn lemma_running_peak_is_prefix_max(s: Seq<Binary64>, t: int)
    requires
        0 <= t < s.len(),
        forall|i: int| 0 <= i < s.len() ==> !(#[trigger] s[i]).is_nan_spec(),
    ensures
        forall|j: int| 0 <= j <= t ==> (#[trigger] s[j]).less_equal_spec(running_peak(s, t)),
        exists|j: int| 0 <= j <= t && running_peak(s, t) == #[trigger] s[j],
    decreases t,
{
    if t == 0 {
        lemma_total_order(s[0], s[0]);
        assert(running_peak(s, t) == s[0]);
    } else {
        lemma_running_peak_is_prefix_max(s, t - 1);
        let prev = running_peak(s, t - 1);
        let j0 = choose|j: int| 0 <= j <= t - 1 && prev == #[trigger] s[j];
        let peak = running_peak(s, t);
        assert(!peak.is_nan_spec());
        lemma_order_key(prev, s[t]);
        lemma_order_key(s[t], peak);
        lemma_order_key(prev, peak);
        assert forall|j: int| 0 <= j <= t implies (#[trigger] s[j]).less_equal_spec(peak) by {
            lemma_order_key(s[j], peak);
            if j < t {
                lemma_order_key(s[j], prev);
            }
        }
        if prev.less_spec(s[t]) {
            assert(peak == s[t]);
        } else {
            assert(peak == s[j0]);
        }
    }
}

proof fn lemma_run_prefix(s: Seq<Binary64>, a: int, len: int, shorter: int)
    requires
        underwater_run(s, a, len),
        shorter <= len,
    ensures
        underwater_run(s, a, shorter),
{
}

/// Drawdown check and peaks: the running peak at every period of a price
/// series (`P*_t`, the highest price up to `t`), from which each drawdown
/// `P_t / P*_t - 1` is formed. An empty series is `InsufficientData`; a
/// price that is not finite or not strictly positive is reported as in
/// `check_positive_prices`.
pub fn running_peaks(prices: &[Binary64]) -> (r: Result<Vec<Binary64>, QuantError>)
    ensures
        prices@.len() == 0 ==> r == Err::<Vec<Binary64>, QuantError>(QuantError::InsufficientData),
        prices@.len() > 0 ==> match first_fault(prices@, Rule::PositivePrice) {
            Some(e) => r == Err::<Vec<Binary64>, QuantError>(e),
            None => r matches Ok(peaks) && peaks@.len() == prices@.len() && forall|t: int|
                0 <= t < prices@.len() ==> #[trigger] peaks@[t] == running_peak(prices@, t),
        },
{
    if prices.len() == 0 {
        return Err(QuantError::InsufficientData);
    }
    match check_positive_prices(prices) {
        Err(e) => return Err(e),
        Ok(()) => {},
    }
    let mut peaks: Vec<Binary64> = Vec::with_capacity(prices.len());
    let mut peak = prices[0];
    let mut i: usize = 0;
    while i < prices.len()
        invariant
            0 < prices@.len(),
            i <= prices@.len(),
            peak == running_peak(prices@, i - 1),
            peaks@.len() == i,
            forall|t: int| 0 <= t < i ==> #[trigger] peaks@[t] == running_peak(prices@, t),
        decreases prices.len() - i,
    {
        let price = prices[i];
        if peak.less_than(&price) {
            peak = price;
        }
        peaks.push(peak);
        i = i + 1;
    }
    Ok(peaks)
}

/// Maximum drawdown duration: the length of the longest run of consecutive
/// periods in which the price stays strictly below its running peak (zero
/// when it never does). An empty series is `InsufficientData`; a price that
/// is not finite or not strictly positive is reported as in
/// `check_positive_prices`.
pub fn max_drawdown_duration(prices: &[Binary64]) -> (r: Result<usize, QuantError>)
    ensures
        prices@.len() == 0 ==> r == Err::<usize, QuantError>(QuantError::InsufficientData),
        prices@.len() > 0 ==> match first_fault(prices@, Rule::PositivePrice) {
            Some(e) => r == Err::<usize, QuantError>(e),
            None => r matches Ok(d) && d < prices@.len() && has_underwater_run(prices@, d as int)
                && !has_underwater_run(prices@, d + 1),
        },
{
    if prices.len() == 0 {
        return Err(QuantError::InsufficientData);
    }
    match check_positive_prices(prices) {
        Err(e) => return Err(e),
        Ok(()) => {},
    }
    let ghost s = prices@;
    proof {
        lemma_valid_prices(s);
    }
    let mut peak = prices[0];
    let mut current: usize = 0;
    let mut longest: usize = 0;
    let ghost mut start: int = 0;
    let mut i: usize = 0;
    assert(underwater_run(s, 0, 0));
    while i < prices.len()
        invariant
            s == prices@,
            0 < s.len(),
            valid_prices(s),
            i <= s.len(),
            peak == running_peak(s, i - 1),
            current <= longest <= i,
            underwater_run(s, i - current, current as int),
            i - current == 0 || !underwater(s, i - current - 1),
            0 <= start && start + longest <= i && underwater_run(s, start, longest as int),
            forall|a: int| 0 <= a && a + longest + 1 <= i ==> !#[trigger] underwater_run(s, a, longest + 1),
        decreases prices.len() - i,
    {
        let price = prices[i];
        let ghost old_current = current;
        let ghost old_longest = longest;
        proof {
            assert(positive_price_fault(s[i as int]) is None);
            if i > 0 {
                assert forall|j: int| 0 <= j < s.len() implies !(#[trigger] s[j]).is_nan_spec() by {
                    assert(positive_price_fault(s[j]) is None);
                }
                lemma_running_peak_is_prefix_max(s, i - 1);
                let k = choose|j: int| 0 <= j <= i - 1 && running_peak(s, i - 1) == #[trigger] s[j];
                assert(positive_price_fault(s[k]) is None);
            }
            assert(positive_price_fault(peak) is None);
            lemma_total_order(peak, price);
            lemma_positive_encoding(peak, price);
        }
        if peak.less_or_equal(&price) {
            proof {
                assert(!underwater(s, i as int));
            }
            peak = price;
            current = 0;
        } else {
            proof {
                assert(underwater(s, i as int));
            }
            current = current + 1;
            if current > longest {
                longest = current;
                proof {
                    start = i + 1 - current;
                }
            }
        }
        proof {
            assert(underwater_run(s, i + 1 - current, current as int));
            assert forall|a: int| 0 <= a && a + longest + 1 <= i + 1 implies
                !#[trigger] underwater_run(s, a, longest + 1) by {
                if a + longest + 1 <= i {
                    if underwater_run(s, a, longest + 1) {
                        lemma_run_prefix(s, a, longest + 1, old_longest + 1);
                    }
                } else if underwater_run(s, a, longest + 1) {
                    assert(underwater(s, i as int));
                    assert(a <= i - old_current - 1);
                    assert(underwater(s, i - old_current - 1));
                }
            }
        }
        i = i + 1;
    }
    proof {
        assert(!underwater(s, 0)) by {
            lemma_total_order(s[0], s[0]);
        }
        assert(longest < s.len()) by {
            if longest == s.len() {
                assert(start == 0);
                assert(underwater(s, 0));
            }
        }
        assert(has_underwater_run(s, longest as int));
        assert(!has_underwater_run(s, longest + 1));
    }
    Ok(longest)
}

/// A price at least as high as every earlier price is its own running
/// peak: a new high resets the drawdown.
pub proof fn lemma_new_high_is_peak(s: Seq<Binary64>, t: int)
    requires
        0 <= t < s.len(),
        forall|i: int| 0 <= i < s.len() ==> !(#[trigger] s[i]).is_nan_spec(),
        forall|j: int| 0 <= j < t ==> (#[trigger] s[j]).less_equal_spec(s[t]),
    ensures
        running_peak(s, t).equal_spec(s[t]),
        !underwater(s, t),
{
    lemma_running_peak_is_prefix_max(s, t);
    let j = choose|j: int| 0 <= j <= t && running_peak(s, t) == #[trigger] s[j];
    lemma_order_key(s[j], s[t]);
    lemma_order_key(s[t], s[j]);
    lemma_total_order(s[t], running_peak(s, t));
}

/// A price that reaches or exceeds the running peak before it is not
/// underwater: it ends any underwater run.
pub proof fn lemma_reaching_peak_ends_run(s: Seq<Binary64>, t: int)
    requires
        1 <= t < s.len(),
        forall|i: int| 0 <= i < s.len() ==> !(#[trigger] s[i]).is_nan_spec(),
        running_peak(s, t - 1).less_equal_spec(s[t]),
    ensures
        !underwater(s, t),
{
    lemma_running_peak_is_prefix_max(s, t - 1);
    let prev = running_peak(s, t - 1);
    lemma_total_order(prev, s[t]);
    lemma_total_order(s[t], s[t]);
    lemma_order_key(s[t], prev);
}

/// A period is underwater exactly when its price is below some earlier (or
/// the same) price of the series.
pub proof fn lemma_underwater_iff_below_earlier(s: Seq<Binary64>, t: int)
    requires
        0 <= t < s.len(),
        forall|i: int| 0 <= i < s.len() ==> !(#[trigger] s[i]).is_nan_spec(),
    ensures
        underwater(s, t) <==> exists|j: int| 0 <= j <= t && s[t].less_spec(#[trigger] s[j]),
{
    lemma_running_peak_is_prefix_max(s, t);
    let peak = running_peak(s, t);
    let k = choose|j: int| 0 <= j <= t && peak == #[trigger] s[j];
    if exists|j: int| 0 <= j <= t && s[t].less_spec(#[trigger] s[j]) {
        let j = choose|j: int| 0 <= j <= t && s[t].less_spec(#[trigger] s[j]);
        assert(s[j].less_equal_spec(peak));
        lemma_order_key(s[t], s[j]);
        lemma_order_key(s[j], peak);
        lemma_order_key(s[t], peak);
    }
}

/// A series that is never below its running peak has no underwater run,
/// so its maximum drawdown duration is zero.
pub proof fn lemma_duration_zero_without_drawdown(s: Seq<Binary64>, d: int)
    requires
        forall|t: int| 0 <= t < s.len() ==> !#[trigger] underwater(s, t),
        d >= 0,
        has_underwater_run(s, d),
    ensures
        d == 0,
{
    if d > 0 {
        let a = choose|a: int| 0 <= a && a + d <= s.len() && #[trigger] underwater_run(s, a, d);
        assert(underwater(s, a));
    }
}

/// The worst drawdown of a series of drawdowns: the lowest of zero and the
/// drawdowns, as a scan from `0.0` that keeps any value below the current
/// one (`dd < worst`). It is never above zero and never above a drawdown
/// that is not NaN. It is `0.0` when no drawdown is below zero, and
/// otherwise the first drawdown of the lowest value.
pub fn worst_drawdown(drawdowns: &[Binary64]) -> (worst: Binary64)
    ensures
        !worst.is_nan_spec(),
        worst.less_equal_spec(zero_spec()),
        forall|t: int|
            0 <= t < drawdowns@.len() && !drawdowns@[t].is_nan_spec() ==> worst.less_equal_spec(
                #[trigger] drawdowns@[t],
            ),
        (forall|t: int|
            0 <= t < drawdowns@.len() ==> !(#[trigger] drawdowns@[t]).less_spec(zero_spec()))
            ==> worst == zero_spec(),
        worst == zero_spec() || exists|t: int|
            0 <= t < drawdowns@.len() && worst == #[trigger] drawdowns@[t] && forall|j: int|
                0 <= j < t ==> !drawdowns@[j].less_equal_spec(worst),
{
    let mut worst = Binary64::zero();
    let ghost mut from: int = -1;
    let mut i: usize = 0;
    proof {
        lemma_total_order(zero_spec(), zero_spec());
    }
    while i < drawdowns.len()
        invariant
            i <= drawdowns@.len(),
            !worst.is_nan_spec(),
            worst.less_equal_spec(zero_spec()),
            forall|t: int|
                0 <= t < i && !drawdowns@[t].is_nan_spec() ==> worst.less_equal_spec(
                    #[trigger] drawdowns@[t],
                ),
            -1 <= from < i,
            from == -1 ==> worst == zero_spec(),
            from == -1 ==> forall|t: int| 0 <= t < i ==> !(#[trigger] drawdowns@[t]).less_spec(worst),
            from >= 0 ==> worst == drawdowns@[from],
            from >= 0 ==> forall|j: int| 0 <= j < from ==> !(#[trigger] drawdowns@[j]).less_equal_spec(worst),
            from >= 0 ==> worst.less_spec(zero_spec()),
        decreases drawdowns.len() - i,
    {
        let dd = drawdowns[i];
        let ghost old_worst = worst;
        if dd.less_than(&worst) {
            worst = dd;
            proof {
                from = i as int;
            }
        }
        proof {
            lemma_order_key(old_worst, zero_spec());
            if !dd.is_nan_spec() {
                lemma_order_key(dd, old_worst);
                lemma_order_key(worst, dd);
                lemma_order_key(worst, zero_spec());
            }
            if from >= 0 {
                assert forall|j: int| 0 <= j < from implies !(#[trigger] drawdowns@[j]).less_equal_spec(worst) by {
                    if !drawdowns@[j].is_nan_spec() {
                        lemma_order_key(drawdowns@[j], old_worst);
                        lemma_order_key(drawdowns@[j], worst);
                        lemma_order_key(worst, old_worst);
                    }
                }
            } else {
                assert forall|t: int| 0 <= t < i + 1 implies !(#[trigger] drawdowns@[t]).less_spec(worst) by {
                    if !drawdowns@[t].is_nan_spec() {
                        lemma_order_key(drawdowns@[t], worst);
                    }
                }
            }
            assert forall|t: int|
                0 <= t < i + 1 && !drawdowns@[t].is_nan_spec() implies worst.less_equal_spec(
                #[trigger] drawdowns@[t],
            ) by {
                lemma_order_key(old_worst, drawdowns@[t]);
                lemma_order_key(worst, drawdowns@[t]);
                if !dd.is_nan_spec() {
                    lemma_order_key(worst, old_worst);
                }
            }
        }
        i = i + 1;
    }
    worst
}

} // verus!
