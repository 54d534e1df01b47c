use lib::binary64::Binary64;
use lib::errors::QuantError;
use lib::metrics::drawdown::{max_drawdown_duration, running_peaks, worst_drawdown};
use lib::metrics::sortino::{downside_count, shortfall_flags};
use lib::metrics::volatility::{check_periods_per_year, validate_returns};
use lib::validation::{check_divisor, check_finite, check_positive_prices, validate_prices};

fn b(x: f64) -> Binary64 {
    Binary64 { bits: x.to_bits() }
}

fn series(xs: &[f64]) -> Vec<Binary64> {
    xs.iter().map(|x| b(*x)).collect()
}

fn value(x: Binary64) -> f64 {
    f64::from_bits(x.bits)
}

// ── validate_prices ─────────────────────────────────────────────────────────

#[test]
fn validate_prices_accepts_positive_series() {
    assert_eq!(validate_prices(&series(&[100.0, 110.0])), Ok(()));
}

#[test]
fn validate_prices_insufficient_data() {
    assert_eq!(validate_prices(&series(&[100.0])), Err(QuantError::InsufficientData));
    assert_eq!(validate_prices(&[]), Err(QuantError::InsufficientData));
}

#[test]
fn validate_prices_reports_each_fault() {
    assert_eq!(validate_prices(&series(&[100.0, 0.0])), Err(QuantError::ZeroPrice));
    assert_eq!(validate_prices(&series(&[100.0, -0.0])), Err(QuantError::ZeroPrice));
    assert_eq!(
        validate_prices(&series(&[100.0, -1.0])),
        Err(QuantError::NonPositivePrice(b(-1.0)))
    );
    assert!(matches!(
        validate_prices(&series(&[f64::NAN, 100.0])),
        Err(QuantError::InvalidValue(x)) if value(x).is_nan()
    ));
    assert_eq!(
        validate_prices(&series(&[100.0, f64::NEG_INFINITY])),
        Err(QuantError::InvalidValue(b(f64::NEG_INFINITY)))
    );
}

#[test]
fn validate_prices_reports_first_fault() {
    assert_eq!(
        validate_prices(&series(&[100.0, -2.0, 0.0, f64::NAN])),
        Err(QuantError::NonPositivePrice(b(-2.0)))
    );
    assert_eq!(
        validate_prices(&series(&[100.0, 0.0, -2.0])),
        Err(QuantError::ZeroPrice)
    );
}

#[test]
fn check_positive_prices_groups_zero_with_negative() {
    assert_eq!(
        check_positive_prices(&series(&[100.0, 0.0])),
        Err(QuantError::NonPositivePrice(b(0.0)))
    );
    assert_eq!(check_positive_prices(&[]), Ok(()));
}

#[test]
fn check_finite_reports_first_non_finite() {
    assert_eq!(
        check_finite(&series(&[0.1, f64::INFINITY, f64::NEG_INFINITY])),
        Err(QuantError::InvalidValue(b(f64::INFINITY)))
    );
    assert_eq!(check_finite(&series(&[-0.1, 0.0, 1e300])), Ok(()));
}

#[test]
fn check_divisor_refuses_both_zeros() {
    assert_eq!(check_divisor(b(0.0)), Err(QuantError::DivisionByZero));
    assert_eq!(check_divisor(b(-0.0)), Err(QuantError::DivisionByZero));
    assert_eq!(check_divisor(b(1e-300)), Ok(()));
    assert_eq!(check_divisor(b(f64::NAN)), Ok(()));
}

// ── volatility checks ───────────────────────────────────────────────────────

#[test]
fn validate_returns_insufficient_data() {
    assert_eq!(validate_returns(&series(&[0.1])), Err(QuantError::InsufficientData));
    assert_eq!(validate_returns(&[]), Err(QuantError::InsufficientData));
}

#[test]
fn validate_returns_invalid_values() {
    assert!(matches!(
        validate_returns(&series(&[0.1, f64::NAN])),
        Err(QuantError::InvalidValue(x)) if value(x).is_nan()
    ));
    assert_eq!(
        validate_returns(&series(&[f64::INFINITY, 0.1])),
        Err(QuantError::InvalidValue(b(f64::INFINITY)))
    );
    assert_eq!(validate_returns(&series(&[0.1, -0.1])), Ok(()));
}

#[test]
fn periods_per_year_must_be_positive() {
    assert_eq!(check_periods_per_year(b(252.0)), Ok(()));
    assert_eq!(
        check_periods_per_year(b(0.0)),
        Err(QuantError::InvalidValue(b(0.0)))
    );
    assert_eq!(
        check_periods_per_year(b(-252.0)),
        Err(QuantError::InvalidValue(b(-252.0)))
    );
    assert!(matches!(
        check_periods_per_year(b(f64::NAN)),
        Err(QuantError::InvalidValue(x)) if value(x).is_nan()
    ));
    assert_eq!(
        check_periods_per_year(b(f64::INFINITY)),
        Ok(())
    );
}

// ── sortino downside ────────────────────────────────────────────────────────

#[test]
fn downside_count_counts_returns_below_target() {
    let r = series(&[0.05, -0.02, 0.01, -0.03, 0.0]);
    assert_eq!(downside_count(&r, b(0.0)), Ok(2));
    assert_eq!(downside_count(&r, b(0.02)), Ok(4));
    assert_eq!(downside_count(&r, b(-0.02)), Ok(1));
}

#[test]
fn downside_count_without_shortfall_is_division_by_zero() {
    let r = series(&[0.05, 0.02]);
    assert_eq!(downside_count(&r, b(0.0)), Err(QuantError::DivisionByZero));
    assert_eq!(downside_count(&r, b(f64::NAN)), Err(QuantError::DivisionByZero));
    assert_eq!(downside_count(&r, b(f64::INFINITY)), Ok(2));
}

#[test]
fn downside_count_validation() {
    assert_eq!(downside_count(&series(&[0.1]), b(0.0)), Err(QuantError::InsufficientData));
    assert_eq!(
        downside_count(&series(&[0.1, f64::INFINITY]), b(0.0)),
        Err(QuantError::InvalidValue(b(f64::INFINITY)))
    );
}

// ── running peaks and drawdowns ─────────────────────────────────────────────

#[test]
fn running_peaks_track_highest_price() {
    let prices = series(&[100.0, 80.0, 120.0, 90.0]);
    let peaks = running_peaks(&prices).unwrap();
    assert_eq!(peaks, series(&[100.0, 100.0, 120.0, 120.0]));
}

#[test]
fn running_peaks_first_is_first_price() {
    let peaks = running_peaks(&series(&[50.0, 30.0, 80.0])).unwrap();
    assert_eq!(peaks[0], b(50.0));
    assert_eq!(peaks.len(), 3);
}

#[test]
fn running_peaks_validation() {
    assert_eq!(running_peaks(&[]), Err(QuantError::InsufficientData));
    assert!(matches!(
        running_peaks(&series(&[100.0, f64::NAN])),
        Err(QuantError::InvalidValue(_))
    ));
    assert_eq!(
        running_peaks(&series(&[100.0, -50.0])),
        Err(QuantError::NonPositivePrice(b(-50.0)))
    );
}

#[test]
fn worst_drawdown_is_lowest_and_never_positive() {
    assert_eq!(worst_drawdown(&series(&[0.0, -0.2, -0.1, -0.4])), b(-0.4));
    assert_eq!(worst_drawdown(&series(&[0.0, 0.0])), b(0.0));
    assert_eq!(worst_drawdown(&[]), b(0.0));
    assert_eq!(worst_drawdown(&series(&[0.5, f64::NAN, -0.1])), b(-0.1));
}

// ── max_drawdown_duration ───────────────────────────────────────────────────

#[test]
fn max_drawdown_duration_single_price() {
    assert_eq!(max_drawdown_duration(&series(&[100.0])).unwrap(), 0);
}

#[test]
fn max_drawdown_duration_no_drawdown() {
    assert_eq!(max_drawdown_duration(&series(&[100.0, 110.0, 120.0])).unwrap(), 0);
}

#[test]
fn max_drawdown_duration_one_period() {
    assert_eq!(max_drawdown_duration(&series(&[100.0, 90.0])).unwrap(), 1);
}

#[test]
fn max_drawdown_duration_consecutive_drops() {
    assert_eq!(
        max_drawdown_duration(&series(&[100.0, 90.0, 80.0, 70.0])).unwrap(),
        3
    );
}

#[test]
fn max_drawdown_duration_recovery_resets_counter() {
    assert_eq!(
        max_drawdown_duration(&series(&[100.0, 90.0, 100.0, 90.0])).unwrap(),
        1
    );
}

#[test]
fn max_drawdown_duration_longer_second_drawdown_wins() {
    assert_eq!(
        max_drawdown_duration(&series(&[100.0, 90.0, 100.0, 80.0, 70.0])).unwrap(),
        2
    );
}

#[test]
fn max_drawdown_duration_new_peak_resets_reference() {
    assert_eq!(
        max_drawdown_duration(&series(&[100.0, 80.0, 120.0, 100.0])).unwrap(),
        1
    );
}

#[test]
fn max_drawdown_duration_exact_peak_price_resets() {
    assert_eq!(
        max_drawdown_duration(&series(&[100.0, 80.0, 100.0])).unwrap(),
        1
    );
}

#[test]
fn max_drawdown_duration_empty() {
    assert!(matches!(
        max_drawdown_duration(&[]),
        Err(QuantError::InsufficientData)
    ));
}

#[test]
fn max_drawdown_duration_invalid_values() {
    assert!(matches!(
        max_drawdown_duration(&series(&[100.0, f64::NAN])),
        Err(QuantError::InvalidValue(_))
    ));
}

#[test]
fn max_drawdown_duration_non_positive_price() {
    assert!(matches!(
        max_drawdown_duration(&series(&[100.0, 0.0])),
        Err(QuantError::NonPositivePrice(_))
    ));
    assert!(matches!(
        max_drawdown_duration(&series(&[100.0, -10.0])),
        Err(QuantError::NonPositivePrice(_))
    ));
}

#[test]
fn max_drawdown_duration_documented_examples() {
    assert_eq!(max_drawdown_duration(&series(&[100.0, 90.0, 80.0, 70.0])).unwrap(), 3);
    assert_eq!(
        max_drawdown_duration(&series(&[100.0, 90.0, 100.0, 80.0, 70.0])).unwrap(),
        2
    );
}

#[test]
fn shortfall_flags_mark_returns_below_target() {
    let r = series(&[0.05, -0.02, 0.0, -0.0]);
    assert_eq!(shortfall_flags(&r, b(0.0)), vec![false, true, false, false]);
    assert_eq!(shortfall_flags(&r, b(f64::NAN)), vec![false, false, false, false]);
    assert_eq!(shortfall_flags(&[], b(0.0)), vec![]);
}
