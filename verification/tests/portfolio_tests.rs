use lib::binary64::Binary64;
use lib::errors::QuantError;
use lib::portfolio::{Portfolio, Position};

fn b(x: f64) -> Binary64 {
    Binary64 { bits: x.to_bits() }
}

fn series(xs: &[f64]) -> Vec<Binary64> {
    xs.iter().map(|x| b(*x)).collect()
}

fn position(weight: f64, returns: &[f64]) -> Position {
    Position { weight: b(weight), returns: series(returns) }
}

#[test]
fn position_new_accepts_valid_inputs() {
    let p = Position::new(b(0.5), series(&[0.01, -0.02, 0.03])).unwrap();
    assert_eq!(p.weight, b(0.5));
    assert_eq!(p.len(), 3);
    assert!(!p.is_empty());
    let short = Position::new(b(-1.0), series(&[0.01])).unwrap();
    assert_eq!(short.weight, b(-1.0));
}

#[test]
fn position_new_validation() {
    assert!(matches!(
        Position::new(b(f64::NAN), series(&[0.01])),
        Err(QuantError::InvalidValue(x)) if f64::from_bits(x.bits).is_nan()
    ));
    assert!(matches!(
        Position::new(b(1.0), vec![]),
        Err(QuantError::InsufficientData)
    ));
    assert!(matches!(
        Position::new(b(1.0), series(&[0.01, f64::INFINITY])),
        Err(QuantError::InvalidValue(x)) if x == b(f64::INFINITY)
    ));
    // The weight is checked before the series.
    assert!(matches!(
        Position::new(b(f64::INFINITY), vec![]),
        Err(QuantError::InvalidValue(_))
    ));
}

#[test]
fn validate_returns_common_length() {
    let portfolio = Portfolio {
        positions: vec![
            position(0.6, &[0.01, 0.02, -0.01]),
            position(0.4, &[0.03, -0.01, 0.02]),
        ],
    };
    assert_eq!(portfolio.validate(), Ok(3));
}

#[test]
fn validate_empty_positions_is_error() {
    let portfolio = Portfolio { positions: vec![] };
    assert_eq!(portfolio.validate(), Err(QuantError::InsufficientData));
}

#[test]
fn validate_empty_position_series_is_error() {
    let portfolio = Portfolio { positions: vec![position(1.0, &[])] };
    assert_eq!(portfolio.validate(), Err(QuantError::InsufficientData));
}

#[test]
fn validate_mismatched_series_length_is_error() {
    let portfolio = Portfolio {
        positions: vec![position(0.5, &[0.01, 0.02]), position(0.5, &[0.03])],
    };
    assert_eq!(portfolio.validate(), Err(QuantError::InvalidValue(b(1.0))));
}

#[test]
fn validate_invalid_weight_is_error() {
    let portfolio = Portfolio {
        positions: vec![position(f64::NAN, &[0.01, 0.02]), position(1.0, &[0.01, 0.02])],
    };
    assert!(matches!(
        portfolio.validate(),
        Err(QuantError::InvalidValue(x)) if f64::from_bits(x.bits).is_nan()
    ));
}

#[test]
fn validate_invalid_return_value_is_error() {
    let portfolio = Portfolio { positions: vec![position(1.0, &[0.01, f64::INFINITY])] };
    assert_eq!(portfolio.validate(), Err(QuantError::InvalidValue(b(f64::INFINITY))));
}

#[test]
fn validate_reports_first_bad_position() {
    let portfolio = Portfolio {
        positions: vec![
            position(1.0, &[0.01, 0.02]),
            position(f64::INFINITY, &[0.01, 0.02]),
            position(1.0, &[0.01]),
        ],
    };
    assert_eq!(portfolio.validate(), Err(QuantError::InvalidValue(b(f64::INFINITY))));
}
