//! Trading signals and the moving-average crossover rule.

pub mod signal;
pub mod moving_average;
