use rp::binary64::Binary64;

fn b(v: f64) -> Binary64 {
    Binary64 { bits: v.to_bits() }
}

#[test]
fn doubles_compare_as_numbers() {
    let values = [
        f64::NEG_INFINITY,
        f64::MIN,
        -18.0,
        -1.5,
        -f64::MIN_POSITIVE,
        -5e-324,
        -0.0,
        0.0,
        5e-324,
        f64::MIN_POSITIVE,
        0.1,
        1.0,
        24.0,
        90.0,
        f64::MAX,
        f64::INFINITY,
        f64::NAN,
        -f64::NAN,
    ];
    for x in values {
        for y in values {
            assert_eq!(b(x).lt(b(y)), x < y, "{x} < {y}");
            assert_eq!(b(x).le(b(y)), x <= y, "{x} <= {y}");
        }
        assert_eq!(b(x).is_nan(), x.is_nan());
        assert_eq!(b(x).is_finite(), x.is_finite());
        assert_eq!(b(x).is_positive_finite(), x.is_finite() && x > 0.0);
    }
}

#[test]
fn quotients_round_as_doubles_do() {
    let numbers = [
        0u32, 1, 2, 3, 5, 7, 9, 10, 11, 97, 100, 1000, 4095, 4096, 65_537, 1_000_003, 2_147_483_647,
        2_147_483_648, 4_294_967_291, u32::MAX,
    ];
    for n in numbers {
        for d in numbers {
            if d > 0 && n <= d {
                let expected = f64::from(n) / f64::from(d);
                assert_eq!(Binary64::quotient(n, d), b(expected), "{n} / {d}");
            }
        }
    }
}

fn same(found: Binary64, expected: f64, what: &str) {
    if expected.is_nan() {
        assert!(found.is_nan(), "{what}");
    } else {
        assert_eq!(found.bits, expected.to_bits(), "{what}");
    }
}

#[test]
fn sums_and_differences_round_as_doubles_do() {
    let values = [
        0.0, 5e-324, 1e-323, f64::MIN_POSITIVE, 2.5e-308, 1e-200, 2f64.powi(-53), 2f64.powi(-52),
        0.1, 0.2, 0.3, 0.5, 0.7, 1.0, 1.0 + 2f64.powi(-52), 1.5, 2.0, 3.0, 23.999, 24.0, 1e15,
        2f64.powi(52), 2f64.powi(53), 2f64.powi(54), 9_007_199_254_740_993.0, 1e22, 2f64.powi(108),
        1e200, f64::MAX / 2.0, f64::MAX, 2f64.powi(969), 2f64.powi(970), 2f64.powi(1023),
        f64::INFINITY, f64::NAN,
    ];
    for x in values {
        for y in values {
            for (p, q) in [(x, y), (-x, y), (x, -y), (-x, -y)] {
                same(b(p).minus(b(q)), p - q, &format!("{p:e} - {q:e}"));
                same(b(p).plus(b(q)), p + q, &format!("{p:e} + {q:e}"));
            }
        }
        same(b(x).abs(), x.abs(), "abs");
        same(b(-x).abs(), x.abs(), "abs");
        same(b(x).neg(), -x, "neg");
    }
}

#[test]
fn random_sums_round_as_doubles_do() {
    let mut state: u64 = 0x9E37_79B9_7F4A_7C15;
    let mut next = || {
        state ^= state << 13;
        state ^= state >> 7;
        state ^= state << 17;
        state
    };
    for _ in 0..20_000 {
        let x = next();
        // A second number of a like exponent, so that they meet.
        let y = (x & 0x7ff0_0000_0000_0000)
            .wrapping_add((next() % 120) << 52)
            .wrapping_sub(60 << 52)
            ^ (next() & 0x800f_ffff_ffff_ffff);
        let (p, q) = (f64::from_bits(x), f64::from_bits(y));
        same(b(p).minus(b(q)), p - q, &format!("{p:e} - {q:e}"));
        same(b(p).rem_day(), p % 24.0, &format!("{p:e} % 24"));
        same(b(p).rem_euclid_day(), p.rem_euclid(24.0), &format!("{p:e} mod 24"));
    }
}

#[test]
fn remainders_of_a_day_are_exact() {
    let values = [
        0.0, 5e-324, 1e-20, 0.5, 1.0, 12.0, 23.999_999_999_999_996, 24.0, 24.000_000_000_000_004,
        25.5, 48.0, 72.1, 2048.0, 3072.0, 1e10, 1e15, 2f64.powi(53), 2f64.powi(54), 2f64.powi(57),
        2f64.powi(58), 1e100, 1e300, f64::MAX, f64::INFINITY, f64::NAN,
    ];
    for x in values {
        for v in [x, -x] {
            same(b(v).rem_day(), v % 24.0, &format!("{v:e} % 24"));
            same(b(v).rem_euclid_day(), v.rem_euclid(24.0), &format!("{v:e} mod 24"));
        }
    }
}
