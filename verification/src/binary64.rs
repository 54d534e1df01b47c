//! IEEE 754 binary64 numbers, held by their 64-bit encoding.
//!
//! An encoding splits into a sign bit, an 11-bit biased exponent and a
//! 52-bit fraction. A finite encoding with exponent `e` and fraction `f`
//! stands for `(-1)^sign * f * 2^-1074` when `e == 0` and for
//! `(-1)^sign * (2^52 + f) * 2^(e - 1075)` otherwise; the exponent 2047
//! encodes the two infinities (fraction zero) and NaN (fraction non-zero).
//! Multiplying a finite value by `2^1074` always gives an integer, the
//! *scaled value*, and comparisons below are stated over it.

use vstd::prelude::*;
use vstd::arithmetic::power2::*;
use vstd::arithmetic::mul::*;

verus! {

/// `2^63`: the weight of the sign bit.
pub const SIGN_BIT: u64 = 0x8000_0000_0000_0000;

/// `2^52`: the weight of the lowest exponent bit.
pub const FRACTION_SPAN: u64 = 0x10_0000_0000_0000;

/// An IEEE 754 binary64 number, held by its encoding.
#[derive(Clone, Copy, Debug, PartialEq, Eq, Structural)]
pub struct Binary64 {
    pub bits: u64,
}

impl Binary64 {
    /// Whether the sign bit is set.
    pub open spec fn sign(self) -> bool {
        self.bits >= SIGN_BIT
    }

    /// The encoding without its sign bit.
    pub open spec fn magnitude(self) -> nat {
        (self.bits % SIGN_BIT) as nat
    }

    /// The biased exponent field, `0..=2047`.
    pub open spec fn exponent(self) -> nat {
        self.magnitude() / (FRACTION_SPAN as nat)
    }

    /// The fraction field, `0..2^52`.
    pub open spec fn fraction(self) -> nat {
        self.magnitude() % (FRACTION_SPAN as nat)
    }

    /// A NaN: all-ones exponent, non-zero fraction.
    pub open spec fn is_nan_spec(self) -> bool {
        self.exponent() == 2047 && self.fraction() != 0
    }

    /// An infinity: all-ones exponent, zero fraction.
    pub open spec fn is_infinite_spec(self) -> bool {
        self.exponent() == 2047 && self.fraction() == 0
    }

    /// A finite number (zero, subnormal or normal).
    pub open spec fn is_finite_spec(self) -> bool {
        self.exponent() < 2047
    }

    /// `|value| * 2^1074` of a finite encoding.
    pub open spec fn scaled_magnitude(self) -> nat {
        if self.exponent() == 0 {
            self.fraction()
        } else {
            (pow2(52) + self.fraction()) * pow2((self.exponent() - 1) as nat)
        }
    }

    /// `value * 2^1074` of a finite encoding.
    pub open spec fn scaled_value(self) -> int {
        if self.sign() {
            -(self.scaled_magnitude() as int)
        } else {
            self.scaled_magnitude() as int
        }
    }

    /// Where a number that is not NaN lies on the extended real line:
    /// `-1` for negative infinity, `0` for a finite value, `1` for positive
    /// infinity.
    pub open spec fn tier(self) -> int {
        if self.is_finite_spec() {
            0
        } else if self.sign() {
            -1
        } else {
            1
        }
    }

    /// IEEE `self < other`: false when either is NaN, otherwise the order
    /// of the extended real values.
    pub open spec fn less_spec(self, other: Binary64) -> bool {
        &&& !self.is_nan_spec()
        &&& !other.is_nan_spec()
        &&& (self.tier() < other.tier() || (self.tier() == 0 && other.tier() == 0
            && self.scaled_value() < other.scaled_value()))
    }

    /// IEEE `self == other`: false when either is NaN, otherwise equality of
    /// the extended real values (so `-0.0 == 0.0`).
    pub open spec fn equal_spec(self, other: Binary64) -> bool {
        &&& !self.is_nan_spec()
        &&& !other.is_nan_spec()
        &&& self.tier() == other.tier()
        &&& (self.tier() == 0 ==> self.scaled_value() == other.scaled_value())
    }

    /// IEEE `self <= other`.
    pub open spec fn less_equal_spec(self, other: Binary64) -> bool {
        self.less_spec(other) || self.equal_spec(other)
    }

    /// An integer whose order matches the order of the values of encodings
    /// that are not NaN (see `lemma_order_key`).
    pub open spec fn order_key(self) -> int {
        if self.sign() {
            -(self.magnitude() as int)
        } else {
            self.magnitude() as int
        }
    }
}

/// The positive zero, `0.0`.
pub open spec fn zero_spec() -> Binary64 {
    Binary64 { bits: 0 }
}

/// `|v|`.
pub open spec fn abs_int(v: int) -> int {
    if v < 0 {
        -v
    } else {
        v
    }
}

/// `x` is the positive binary64 nearest to the whole number `n`, ties going
/// to the even significand: `2^k <= n < 2^(k + 1)` fixes the binade, the
/// value of `x` is `q * 2^(k - 52)` for a whole `q`, and `q * 2^(k - 52)`
/// lies within half a step `2^(k - 52)` of `n` (exactly half only when `q`
/// is even).
pub open spec fn rounds_to(n: nat, k: nat, q: nat, x: Binary64) -> bool {
    &&& pow2(k) <= n < pow2(k + 1)
    &&& x.scaled_magnitude() == q * pow2(k + 1022)
    &&& 2 * abs_int(n * pow2(52) - q * pow2(k)) <= pow2(k)
    &&& (2 * abs_int(n * pow2(52) - q * pow2(k)) == pow2(k) ==> q % 2 == 0)
}

/// `x` is the conversion `n as f64` of the whole number `n`.
pub open spec fn is_conversion_of(x: Binary64, n: nat) -> bool {
    if n == 0 {
        x.bits == 0
    } else {
        &&& !x.sign()
        &&& x.is_finite_spec()
        &&& exists|k: nat, q: nat| #[trigger] rounds_to(n, k, q, x)
    }
}

/// The binary64 number `n as f64` (see `lemma_conversion_unique`).
pub open spec fn conversion(n: nat) -> Binary64 {
    choose|x: Binary64| is_conversion_of(x, n)
}

/// A whole number has at most one conversion to binary64.
pub proof fn lemma_conversion_unique(n: nat, x: Binary64, y: Binary64)
    requires
        is_conversion_of(x, n),
        is_conversion_of(y, n),
    ensures
        x == y,
{
    if n > 0 {
        let (k1, q1) = choose|k: nat, q: nat| #[trigger] rounds_to(n, k, q, x);
        let (k2, q2) = choose|k: nat, q: nat| #[trigger] rounds_to(n, k, q, y);
        assert(k1 == k2) by {
            if k1 < k2 {
                if k1 + 1 < k2 {
                    lemma_pow2_strictly_increases(k1 + 1, k2);
                }
            } else if k2 < k1 {
                if k2 + 1 < k1 {
                    lemma_pow2_strictly_increases(k2 + 1, k1);
                }
            }
        }
        let a = n * pow2(52);
        let p = pow2(k1);
        lemma_pow2_pos(k1);
        assert(q1 == q2) by {
            let d1 = a - q1 * p;
            let d2 = a - q2 * p;
            assert(2 * abs_int(d1) <= p && 2 * abs_int(d2) <= p);
            assert((q1 - q2) * p == d2 - d1) by (nonlinear_arith)
                requires d1 == a - q1 * p, d2 == a - q2 * p;
            if q1 > q2 + 1 || q2 > q1 + 1 {
                assert(abs_int(d2 - d1) >= 2 * p) by (nonlinear_arith)
                    requires (q1 - q2) * p == d2 - d1, q1 > q2 + 1 || q2 > q1 + 1, p > 0;
            } else if q1 != q2 {
                assert(abs_int(d2 - d1) == p) by (nonlinear_arith)
                    requires (q1 - q2) * p == d2 - d1, q1 == q2 + 1 || q2 == q1 + 1;
                assert(2 * abs_int(d1) == p && 2 * abs_int(d2) == p);
            }
        }
        lemma_fields(x);
        lemma_fields(y);
        if x.magnitude() < y.magnitude() {
            lemma_magnitude_monotone(x, y);
        } else if y.magnitude() < x.magnitude() {
            lemma_magnitude_monotone(y, x);
        }
    }
}

proof fn lemma_pow2_constants()
    ensures
        pow2(52) == FRACTION_SPAN,
        pow2(53) == 2 * FRACTION_SPAN,
        pow2(63) == SIGN_BIT,
{
    lemma2_to64();
    lemma2_to64_rest();
    assert(pow2(20) == 0x10_0000) by {
        lemma_pow2_adds(16, 4);
    }
    lemma_pow2_adds(32, 20);
    assert(pow2(11) == 0x800) by {
        lemma_pow2_adds(8, 3);
    }
    lemma_pow2_adds(52, 11);
    lemma_pow2_unfold(53);
}

proof fn lemma_fields(x: Binary64)
    ensures
        x.magnitude() == x.exponent() * pow2(52) + x.fraction(),
        x.fraction() < pow2(52),
        x.exponent() <= 2047,
        x.magnitude() < pow2(63),
        x.sign() <==> x.bits >= pow2(63),
        x.is_finite_spec() <==> x.magnitude() < 2047 * pow2(52),
        x.is_infinite_spec() <==> x.magnitude() == 2047 * pow2(52),
{
    lemma_pow2_constants();
}

/// The encoding with a clear sign bit, exponent field `e` and fraction
/// field `f`.
proof fn lemma_encode(e: nat, f: nat)
    requires
        e < 2048,
        f < pow2(52),
    ensures
        e * pow2(52) + f < pow2(63),
        ({
            let x = Binary64 { bits: (e * pow2(52) + f) as u64 };
            !x.sign() && x.exponent() == e && x.fraction() == f
        }),
{
    lemma_pow2_constants();
    let bits = e * pow2(52) + f;
    assert(bits < pow2(63)) by {
        lemma_mul_inequality(e as int, 2047, pow2(52) as int);
    }
    let x = Binary64 { bits: bits as u64 };
    assert(x.magnitude() == bits);
    vstd::arithmetic::div_mod::lemma_fundamental_div_mod_converse(
        bits as int,
        pow2(52) as int,
        e as int,
        f as int,
    );
}

/// The scaled magnitude of a finite encoding with exponent `e` lies in
/// `[lower, 2^(52 + e))`, where `lower` is `0` for `e == 0` and
/// `2^(51 + e)` otherwise; it is zero exactly for the two zeros.
proof fn lemma_scaled_bounds(x: Binary64)
    requires
        x.is_finite_spec(),
    ensures
        x.scaled_magnitude() < pow2(52 + x.exponent()),
        x.exponent() > 0 ==> pow2((51 + x.exponent()) as nat) <= x.scaled_magnitude(),
        x.scaled_magnitude() == 0 <==> x.magnitude() == 0,
{
    lemma_fields(x);
    let e = x.exponent();
    let f = x.fraction();
    if e == 0 {
        lemma_pow2_strictly_increases(0, 52);
        lemma2_to64();
    } else {
        let p = pow2((e - 1) as nat);
        lemma_pow2_pos((e - 1) as nat);
        lemma_pow2_adds(52, (e - 1) as nat);
        lemma_pow2_adds(53, (e - 1) as nat);
        lemma_pow2_unfold(53);
        lemma_mul_strict_inequality((pow2(52) + f) as int, (2 * pow2(52)) as int, p as int);
        lemma_mul_inequality(pow2(52) as int, (pow2(52) + f) as int, p as int);
        assert((51 + e) as nat == 52 + (e - 1) as nat);
        assert(52 + e == 53 + (e - 1) as nat);
        lemma_pow2_pos(52);
        lemma_mul_strictly_positive(pow2(52) as int, p as int);
    }
}

/// Among finite encodings of the same sign, a larger encoding stands for
/// a larger magnitude.
proof fn lemma_magnitude_monotone(a: Binary64, b: Binary64)
    requires
        a.is_finite_spec(),
        b.is_finite_spec(),
        a.magnitude() < b.magnitude(),
    ensures
        a.scaled_magnitude() < b.scaled_magnitude(),
{
    lemma_fields(a);
    lemma_fields(b);
    lemma_scaled_bounds(a);
    lemma_scaled_bounds(b);
    let ea = a.exponent();
    let eb = b.exponent();
    if ea == eb {
        assert(a.fraction() < b.fraction()) by {
            lemma_mul_is_commutative(ea as int, pow2(52) as int);
        }
        if ea > 0 {
            lemma_pow2_pos((ea - 1) as nat);
            lemma_mul_strict_inequality(
                (pow2(52) + a.fraction()) as int,
                (pow2(52) + b.fraction()) as int,
                pow2((ea - 1) as nat) as int,
            );
        }
    } else {
        assert(ea < eb) by {
            if ea > eb {
                lemma_mul_inequality((eb + 1) as int, ea as int, pow2(52) as int);
                lemma_mul_is_distributive_add_other_way(pow2(52) as int, eb as int, 1);
            }
        }
        if 52 + ea < 51 + eb {
            lemma_pow2_strictly_increases(52 + ea, (51 + eb) as nat);
        }
    }
}

/// The order key orders encodings that are not NaN exactly as IEEE
/// comparison orders their values.
pub proof fn lemma_order_key(a: Binary64, b: Binary64)
    requires
        !a.is_nan_spec(),
        !b.is_nan_spec(),
    ensures
        a.less_spec(b) <==> a.order_key() < b.order_key(),
        a.equal_spec(b) <==> a.order_key() == b.order_key(),
{
    lemma_fields(a);
    lemma_fields(b);
    if a.is_finite_spec() {
        lemma_scaled_bounds(a);
    }
    if b.is_finite_spec() {
        lemma_scaled_bounds(b);
    }
    if a.is_finite_spec() && b.is_finite_spec() {
        if a.magnitude() < b.magnitude() {
            lemma_magnitude_monotone(a, b);
        } else if b.magnitude() < a.magnitude() {
            lemma_magnitude_monotone(b, a);
        }
    }
}

/// Comparison of numbers that are not NaN is total.
pub proof fn lemma_total_order(a: Binary64, b: Binary64)
    requires
        !a.is_nan_spec(),
        !b.is_nan_spec(),
    ensures
        a.less_spec(b) || a.equal_spec(b) || b.less_spec(a),
        !(a.less_spec(b) && b.less_equal_spec(a)),
        a.less_equal_spec(b) && b.less_equal_spec(a) ==> a.equal_spec(b),
{
    lemma_order_key(a, b);
    lemma_order_key(b, a);
}

/// A finite number above zero has a clear sign bit, and two such numbers
/// with equal values have the same encoding.
pub proof fn lemma_positive_encoding(a: Binary64, b: Binary64)
    requires
        a.is_finite_spec(),
        b.is_finite_spec(),
        !a.less_equal_spec(zero_spec()),
        !b.less_equal_spec(zero_spec()),
    ensures
        !a.sign(),
        !b.sign(),
        a.equal_spec(b) ==> a == b,
{
    lemma_fields(a);
    lemma_fields(b);
    lemma_fields(zero_spec());
    lemma_order_key(a, zero_spec());
    lemma_order_key(b, zero_spec());
    lemma_order_key(a, b);
}

impl Binary64 {
    /// The positive zero, `0.0`.
    pub fn zero() -> (r: Binary64)
        ensures
            r == zero_spec(),
    {
        Binary64 { bits: 0 }
    }

    /// Whether the encoding is a NaN (`f64::is_nan`).
    pub fn is_nan(&self) -> (r: bool)
        ensures
            r == self.is_nan_spec(),
    {
        let m = self.bits % SIGN_BIT;
        m / FRACTION_SPAN == 2047 && m % FRACTION_SPAN != 0
    }

    /// Whether the encoding is neither infinite nor NaN (`f64::is_finite`).
    pub fn is_finite(&self) -> (r: bool)
        ensures
            r == self.is_finite_spec(),
    {
        proof {
            lemma_fields(*self);
        }
        (self.bits % SIGN_BIT) / FRACTION_SPAN != 2047
    }

    fn key(&self) -> (k: i64)
        ensures
            k == self.order_key(),
    {
        let m = self.bits % SIGN_BIT;
        if self.bits >= SIGN_BIT {
            -(m as i64)
        } else {
            m as i64
        }
    }

    /// IEEE `self < other` (`f64`'s `<`).
    pub fn less_than(&self, other: &Binary64) -> (r: bool)
        ensures
            r == self.less_spec(*other),
    {
        if self.is_nan() || other.is_nan() {
            false
        } else {
            proof {
                lemma_order_key(*self, *other);
            }
            self.key() < other.key()
        }
    }

    /// IEEE `self == other` (`f64`'s `==`).
    pub fn equals(&self, other: &Binary64) -> (r: bool)
        ensures
            r == self.equal_spec(*other),
    {
        if self.is_nan() || other.is_nan() {
            false
        } else {
            proof {
                lemma_order_key(*self, *other);
            }
            self.key() == other.key()
        }
    }

    /// IEEE `self <= other` (`f64`'s `<=`).
    pub fn less_or_equal(&self, other: &Binary64) -> (r: bool)
        ensures
            r == self.less_equal_spec(*other),
    {
        if self.is_nan() || other.is_nan() {
            false
        } else {
            proof {
                lemma_order_key(*self, *other);
            }
            self.key() <= other.key()
        }
    }
}

/// Encodes a normal number with significand `q` (`2^52 <= q < 2^53`) in
/// the binade `[2^k, 2^(k + 1))`.
proof fn lemma_normal_encoding(k: nat, q: nat)
    requires
        k <= 1023,
        pow2(52) <= q < pow2(53),
    ensures
        ({
            let x = Binary64 { bits: ((1023 + k) * pow2(52) + (q - pow2(52))) as u64 };
            &&& (1023 + k) * pow2(52) + (q - pow2(52)) < pow2(63)
            &&& !x.sign()
            &&& x.is_finite_spec()
            &&& x.scaled_magnitude() == q * pow2(k + 1022)
        }),
{
    lemma_pow2_constants();
    lemma_encode(1023 + k, (q - pow2(52)) as nat);
    assert((1023 + k - 1) as nat == k + 1022);
}

impl Binary64 {
    /// The conversion `n as f64`: the binary64 nearest to `n`, ties to even.
    pub fn from_count(n: usize) -> (x: Binary64)
        ensures
            is_conversion_of(x, n as nat),
            x == conversion(n as nat),
    {
        let x = Self::nearest_to_count(n);
        proof {
            lemma_conversion_unique(n as nat, x, conversion(n as nat));
        }
        x
    }

    fn nearest_to_count(n: usize) -> (x: Binary64)
        ensures
            is_conversion_of(x, n as nat),
    {
        let n = n as u64;
        if n == 0 {
            return Binary64 { bits: 0 };
        }
        proof {
            lemma_pow2_constants();
            lemma2_to64();
            lemma2_to64_rest();
        }
        // `p == 2^k` is the largest power of two not above `n`.
        let mut k: u64 = 0;
        let mut p: u64 = 1;
        while p <= n / 2
            invariant
                p == pow2(k as nat),
                1 <= p <= n,
                k <= 63,
            decreases 64 - k,
        {
            proof {
                lemma_pow2_unfold((k + 1) as nat);
                if k == 63 {
                    assert(p * 2 > 0xffff_ffff_ffff_ffff) by {
                        lemma2_to64_rest();
                    }
                }
            }
            p = p * 2;
            k = k + 1;
        }
        let ghost kn = k as nat;
        proof {
            lemma_pow2_unfold(kn + 1);
            assert(n < pow2(kn + 1));
        }
        if k <= 52 {
            // Exact: the significand is `n * 2^(52 - k)`.
            let scale = FRACTION_SPAN / p;
            proof {
                lemma_pow2_subtracts(kn, 52);
                lemma_pow2_adds((52 - kn) as nat, kn);
                assert(scale * p == FRACTION_SPAN) by {
                    assert((52 - kn) as nat + kn == 52);
                }
                assert(n * scale < 2 * FRACTION_SPAN) by (nonlinear_arith)
                    requires n < 2 * p, scale * p == FRACTION_SPAN, scale > 0;
                assert(n * scale >= FRACTION_SPAN) by (nonlinear_arith)
                    requires n >= p, scale * p == FRACTION_SPAN, scale > 0;
            }
            let q = n * scale;
            proof {
                lemma_normal_encoding(kn, q as nat);
                assert(q * pow2(kn) == n * pow2(52)) by (nonlinear_arith)
                    requires q == n * scale, scale * p == FRACTION_SPAN, p == pow2(kn),
                        pow2(52) == FRACTION_SPAN;
                assert(rounds_to(n as nat, kn, q as nat,
                    Binary64 { bits: ((1023 + k) * FRACTION_SPAN + (q - FRACTION_SPAN)) as u64 }));
            }
            Binary64 { bits: (1023 + k) * FRACTION_SPAN + (q - FRACTION_SPAN) }
        } else {
            // Drop the lowest `k - 52` bits, rounding to nearest, ties to even.
            let unit = p / FRACTION_SPAN;
            let ghost s = (kn - 52) as nat;
            proof {
                lemma_pow2_subtracts(52, kn);
                lemma_pow2_adds(52, s);
                assert(52 + s == kn);
                assert(unit * FRACTION_SPAN == p);
                lemma_pow2_unfold(s);
            }
            let q0 = n / unit;
            let r = n % unit;
            let half = unit / 2;
            proof {
                vstd::arithmetic::div_mod::lemma_fundamental_div_mod(n as int, unit as int);
                assert(q0 < 2 * FRACTION_SPAN) by (nonlinear_arith)
                    requires n == unit * q0 + r, r >= 0, n < 2 * p, unit * FRACTION_SPAN == p,
                        unit > 0;
                assert(q0 >= FRACTION_SPAN) by (nonlinear_arith)
                    requires n == unit * q0 + r, r < unit, n >= p, unit * FRACTION_SPAN == p,
                        unit > 0;
                assert(half * 2 == unit);
            }
            let up = r > half || (r == half && q0 % 2 == 1);
            let q = if up { q0 + 1 } else { q0 };
            let ghost d: int = if up { r - unit } else { r as int };
            proof {
                assert(2 * abs_int(d) <= unit);
                assert(2 * abs_int(d) == unit ==> q % 2 == 0);
                assert(n * pow2(52) - q * pow2(kn) == pow2(52) * d) by (nonlinear_arith)
                    requires n == unit * q0 + r, pow2(kn) == pow2(52) * unit,
                        q == q0 + (if up { 1int } else { 0int }),
                        d == (if up { r - unit } else { r as int });
                assert(2 * abs_int(pow2(52) * d) == pow2(52) * (2 * abs_int(d))) by (nonlinear_arith)
                    requires pow2(52) > 0;
                assert(pow2(52) * (2 * abs_int(d)) <= pow2(52) * unit) by (nonlinear_arith)
                    requires 2 * abs_int(d) <= unit, pow2(52) > 0;
                assert(pow2(52) * (2 * abs_int(d)) == pow2(52) * unit ==> 2 * abs_int(d) == unit)
                    by (nonlinear_arith) requires pow2(52) > 0;
            }
            if q == 2 * FRACTION_SPAN {
                // Rounding carried into the next binade.
                proof {
                    lemma_normal_encoding(kn + 1, FRACTION_SPAN as nat);
                    lemma_pow2_adds(53, kn + 1022);
                    lemma_pow2_adds(52, kn + 1023);
                    assert(52 + (kn + 1023) == 53 + (kn + 1022));
                    assert(rounds_to(n as nat, kn, q as nat,
                        Binary64 { bits: ((1024 + k) * FRACTION_SPAN) as u64 }));
                }
                Binary64 { bits: (1024 + k) * FRACTION_SPAN }
            } else {
                proof {
                    lemma_normal_encoding(kn, q as nat);
                    assert(rounds_to(n as nat, kn, q as nat,
                        Binary64 { bits: ((1023 + k) * FRACTION_SPAN + (q - FRACTION_SPAN)) as u64 }));
                }
                Binary64 { bits: (1023 + k) * FRACTION_SPAN + (q - FRACTION_SPAN) }
            }
        }
    }
}

} // verus!
