use lib::binary64::Binary64;

fn b(x: f64) -> Binary64 {
    Binary64 { bits: x.to_bits() }
}

fn samples() -> Vec<f64> {
    vec![
        0.0,
        -0.0,
        1.0,
        -1.0,
        0.1,
        -0.1,
        100.0,
        1e300,
        -1e300,
        f64::MIN_POSITIVE,
        -f64::MIN_POSITIVE,
        5e-324,
        -5e-324,
        2.5e-310,
        f64::MAX,
        f64::MIN,
        f64::INFINITY,
        f64::NEG_INFINITY,
        f64::NAN,
        -f64::NAN,
    ]
}

#[test]
fn classification_matches_f64() {
    for x in samples() {
        assert_eq!(b(x).is_nan(), x.is_nan(), "{x}");
        assert_eq!(b(x).is_finite(), x.is_finite(), "{x}");
    }
}

#[test]
fn comparisons_match_f64() {
    for x in samples() {
        for y in samples() {
            assert_eq!(b(x).less_than(&b(y)), x < y, "{x} < {y}");
            assert_eq!(b(x).less_or_equal(&b(y)), x <= y, "{x} <= {y}");
            assert_eq!(b(x).equals(&b(y)), x == y, "{x} == {y}");
        }
    }
}

#[test]
fn zeros_compare_equal() {
    assert!(b(0.0).equals(&b(-0.0)));
    assert!(!b(-0.0).less_than(&b(0.0)));
    assert_eq!(Binary64::zero(), b(0.0));
}

#[test]
fn from_count_matches_cast() {
    let counts: Vec<usize> = vec![
        0,
        1,
        2,
        3,
        7,
        1000,
        (1 << 52) + 1,
        (1 << 53) - 1,
        1 << 53,
        (1 << 53) + 1,
        (1 << 53) + 2,
        (1 << 53) + 3,
        (1 << 54) + 2,
        (1 << 54) + 6,
        (1 << 60) + 12345,
        usize::MAX - 1,
        usize::MAX,
    ];
    for n in counts {
        assert_eq!(Binary64::from_count(n).bits, (n as f64).to_bits(), "{n}");
    }
}

#[test]
fn from_count_exact_values() {
    assert_eq!(Binary64::from_count(0).bits, 0);
    assert_eq!(Binary64::from_count(1).bits, 0x3FF0_0000_0000_0000);
    assert_eq!(Binary64::from_count(3).bits, 0x4008_0000_0000_0000);
    // 2^53 + 1 is a tie between 2^53 and 2^53 + 2; the even significand wins.
    assert_eq!(Binary64::from_count((1 << 53) + 1).bits, ((1u64 << 53) as f64).to_bits());
    // 2^53 + 3 ties between 2^53 + 2 and 2^53 + 4; 2^53 + 4 has the even one.
    assert_eq!(
        Binary64::from_count((1 << 53) + 3).bits,
        (((1u64 << 53) + 4) as f64).to_bits()
    );
    // The largest count rounds up into the next binade: 2^64.
    assert_eq!(Binary64::from_count(usize::MAX).bits, 0x43F0_0000_0000_0000);
}
