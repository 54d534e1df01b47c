# quant library (verified core)

Building blocks for quantitative finance: price validation, drawdown
statistics, moving-average crossover signals, portfolio checks and
signal-driven backtests.

Prices and returns are IEEE 754 binary64 numbers. The verified library in
`src/` holds each number by its 64-bit encoding (`binary64::Binary64`) and
states every rule that classifies or orders numbers over their exact values:
NaN and infinity checks, `<`, `<=`, `==` with IEEE semantics, and the
conversion of counts to binary64 with round-to-nearest-even. On that basis it
proves the input checks of every computation, running peaks and the maximum
drawdown duration, the worst drawdown, the crossover rule, the exposure of a
backtest, the Sortino shortfall count and the portfolio checks.

`app/` is the `f64` face of the library: it converts values to and from their
encodings and performs the floating-point arithmetic (quotients, sums,
products, square roots, logarithms) that the library does not hold.

Layout:

- `src/binary64.rs` — the encoding, its value semantics, comparisons, count conversion
- `src/errors.rs`, `src/validation.rs` — the error type and the series checks
- `src/metrics/` — drawdown, volatility and Sortino checks
- `src/strategy/` — signals and the moving-average crossover rule
- `src/portfolio/` — positions and the portfolio check
- `src/backtest/` — the exposure schedule and the backtest record
- `tests/` — tests of the library on concrete values
