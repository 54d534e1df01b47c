use lib::binary64::Binary64;
use lib::errors::QuantError;
use lib::strategy::moving_average::{
    average_availability, check_average_inputs, check_crossover_windows, crossover_signal,
    crossover_signals,
};
use lib::strategy::signal::Signal;

fn b(x: f64) -> Binary64 {
    Binary64 { bits: x.to_bits() }
}

fn averages(xs: &[Option<f64>]) -> Vec<Option<Binary64>> {
    xs.iter().map(|x| x.map(b)).collect()
}

#[test]
fn signal_variants_are_comparable() {
    assert_eq!(Signal::Buy, Signal::Buy);
    assert_eq!(Signal::Sell, Signal::Sell);
    assert_eq!(Signal::Hold, Signal::Hold);
    assert_ne!(Signal::Buy, Signal::Sell);
    assert_ne!(Signal::Buy, Signal::Hold);
    assert_ne!(Signal::Sell, Signal::Hold);
}

#[test]
fn crossover_signal_follows_the_averages() {
    assert_eq!(crossover_signal(Some(b(101.5)), Some(b(101.0))), Signal::Buy);
    assert_eq!(crossover_signal(Some(b(101.0)), Some(b(101.5))), Signal::Sell);
    assert_eq!(crossover_signal(Some(b(100.0)), Some(b(100.0))), Signal::Hold);
    assert_eq!(crossover_signal(Some(b(100.0)), None), Signal::Hold);
    assert_eq!(crossover_signal(None, Some(b(100.0))), Signal::Hold);
    assert_eq!(crossover_signal(None, None), Signal::Hold);
    assert_eq!(crossover_signal(Some(b(f64::NAN)), Some(b(100.0))), Signal::Hold);
    assert_eq!(crossover_signal(Some(b(0.0)), Some(b(-0.0))), Signal::Hold);
}

#[test]
fn crossover_signals_documented_example() {
    // Prices [100, 101, 102, 103], short window 2, long window 3.
    let short = averages(&[None, Some(100.5), Some(101.5), Some(102.5)]);
    let long = averages(&[None, None, Some(101.0), Some(102.0)]);
    assert_eq!(
        crossover_signals(&short, &long),
        vec![Signal::Hold, Signal::Hold, Signal::Buy, Signal::Buy]
    );
}

#[test]
fn crossover_signals_falling_prices_sell() {
    // Prices [103, 102, 101, 100], short window 2, long window 3.
    let short = averages(&[None, Some(102.5), Some(101.5), Some(100.5)]);
    let long = averages(&[None, None, Some(102.0), Some(101.0)]);
    assert_eq!(
        crossover_signals(&short, &long),
        vec![Signal::Hold, Signal::Hold, Signal::Sell, Signal::Sell]
    );
}

#[test]
fn crossover_signals_empty() {
    assert_eq!(crossover_signals(&[], &[]), vec![]);
}

#[test]
fn crossover_windows_must_be_positive_and_ordered() {
    assert_eq!(check_crossover_windows(2, 3), Ok(()));
    assert_eq!(
        check_crossover_windows(0, 2),
        Err(QuantError::InvalidValue(b(0.0)))
    );
    assert_eq!(
        check_crossover_windows(1, 0),
        Err(QuantError::InvalidValue(b(0.0)))
    );
    assert_eq!(
        check_crossover_windows(3, 3),
        Err(QuantError::InvalidValue(b(3.0)))
    );
    assert_eq!(
        check_crossover_windows(4, 3),
        Err(QuantError::InvalidValue(b(4.0)))
    );
    assert_eq!(
        check_crossover_windows(usize::MAX, 3),
        Err(QuantError::InvalidValue(b(usize::MAX as f64)))
    );
}

#[test]
fn average_inputs_validation() {
    assert_eq!(check_average_inputs(&[], 2), Err(QuantError::InsufficientData));
    assert_eq!(check_average_inputs(&[], 0), Err(QuantError::InsufficientData));
    assert_eq!(
        check_average_inputs(&[b(100.0), b(110.0)], 0),
        Err(QuantError::InvalidValue(b(0.0)))
    );
    assert_eq!(
        check_average_inputs(&[b(100.0), b(0.0)], 2),
        Err(QuantError::NonPositivePrice(b(0.0)))
    );
    assert_eq!(
        check_average_inputs(&[b(100.0), b(-1.0)], 2),
        Err(QuantError::NonPositivePrice(b(-1.0)))
    );
    assert_eq!(
        check_average_inputs(&[b(100.0), b(f64::INFINITY)], 2),
        Err(QuantError::InvalidValue(b(f64::INFINITY)))
    );
    assert_eq!(check_average_inputs(&[b(100.0), b(110.0)], 5), Ok(()));
}

#[test]
fn average_availability_starts_with_full_window() {
    assert_eq!(average_availability(3, 2), vec![false, true, true]);
    assert_eq!(average_availability(3, 3), vec![false, false, true]);
    assert_eq!(average_availability(3, 5), vec![false, false, false]);
    assert_eq!(average_availability(3, 1), vec![true, true, true]);
    assert_eq!(average_availability(0, 2), vec![]);
}
