//! Doubles on integers against the machine's own.

use smeltr::columns::{fmt_secs, human_bytes};
use smeltr::commands::compare::{fmt_bytes, fmt_delta, fmt_delta_bytes};
use smeltr::diff::pct;
use smeltr::double::{
    div_half_even, from_int, is_less, multiply, percent_of, percent_text, quotient, quotient_text,
    round, truncate, whole_of, Double,
};

/// A double as the machine has it.
fn value(d: Double) -> f64 {
    d.mant as f64 * 2f64.powi(d.exp)
}

const NUMBERS: [u64; 22] = [
    1,
    2,
    3,
    7,
    10,
    99,
    100,
    101,
    1_000,
    1_023,
    1_024,
    999_999,
    1_000_000,
    1_234_567,
    21_474_836_480,
    1_000_000_007,
    9_007_199_254_740_991,
    9_007_199_254_740_993,
    18_014_398_509_481_987,
    1_234_567_890_123_456_789,
    u64::MAX - 1,
    u64::MAX,
];

#[test]
fn quotients_are_the_machines() {
    for a in NUMBERS.iter().copied().chain([0]) {
        for b in NUMBERS {
            let q = a as f64 / b as f64;
            assert_eq!(value(quotient(a, b)), q, "{a}/{b}");
            for places in [0u8, 1, 2, 3] {
                assert_eq!(
                    quotient_text(a, b, places),
                    format!("{:.*}", places as usize, q),
                    "{a}/{b} to {places}"
                );
            }
        }
    }
}

#[test]
fn percentages_are_the_machines() {
    for a in NUMBERS.iter().copied().chain([0]) {
        for b in NUMBERS {
            let p = a as f64 / b as f64 * 100.0;
            assert_eq!(percent_of(a, b), p.round() as u64, "{a}/{b}");
            assert_eq!(percent_text(a, b, 1), format!("{p:.1}"), "{a}/{b}");
        }
    }
}

#[test]
fn integers_and_products_are_the_machines() {
    for a in NUMBERS {
        assert_eq!(value(from_int(a as u128)), a as f64, "{a}");
        assert_eq!(whole_of(a), a as f64 as u128, "{a}");
        for b in NUMBERS {
            let q = quotient(a, b);
            for c in NUMBERS {
                let p = multiply(from_int(c as u128), q);
                let m = c as f64 * (a as f64 / b as f64);
                assert_eq!(value(p), m, "{c}*({a}/{b})");
                assert_eq!(truncate(p), m as u64, "{c}*({a}/{b})");
                assert_eq!(round(p), m.round() as u64, "{c}*({a}/{b})");
                assert_eq!(is_less(p, from_int(c as u128)), m < c as f64);
            }
        }
    }
}

#[test]
fn ties_go_to_the_even() {
    assert_eq!(div_half_even(5, 2), 2);
    assert_eq!(div_half_even(7, 2), 4);
    assert_eq!(div_half_even(6, 4), 2);
    assert_eq!(div_half_even(5, 4), 1);
    assert_eq!(quotient_text(1, 8, 2), "0.12");
    assert_eq!(quotient_text(3, 8, 2), "0.38");
}

#[test]
fn seconds_and_sizes() {
    assert_eq!(fmt_secs(1_234_567_890), format!("{:.3}s", 1.23456789));
    assert_eq!(human_bytes(512), "512 B");
    assert_eq!(human_bytes(1536), "2 KiB");
    assert_eq!(human_bytes(3 * 512 * 1024), "1.5 MiB");
    assert_eq!(human_bytes(1 << 30), "1.00 GiB");
    assert_eq!(fmt_bytes(512), "512 B");
    assert_eq!(fmt_bytes(2 * 1024 * 1024 * 1024), "2.00 GB");
    assert_eq!(fmt_delta(-1_000_000_000, pct(2, 1)), "-1.000s (-50.0%)");
    assert_eq!(fmt_delta(1_000_000_000, None), "+1.000s (n/a)");
    assert!(fmt_delta_bytes(i64::MIN, None).starts_with('-'));
}
