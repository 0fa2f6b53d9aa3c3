//! Relevance scores: unit tests of the forgetting curve.

use lore::fixed::ONE;
use lore::relevance::{
    blend, compute_decay, compute_relevance, compute_strength, decay_rate_for_importance,
};

fn billionths(x: f64) -> i64 {
    (x * 1e9).round() as i64
}

fn relevance(importance: f64, accesses: u32, rate: f64, reinforced: i64, now: i64) -> f64 {
    compute_relevance(billionths(importance), accesses, billionths(rate), reinforced, now) as f64
        / 1e9
}

#[test]
fn test_fresh_fragment_has_high_relevance() {
    let now = 1000000;
    let r = relevance(0.5, 0, 0.035, now, now);
    assert!(r > 0.25 && r < 0.35, "Got {}", r);
}

#[test]
fn test_accessed_fragment_strengthens() {
    let now = 1000000;
    let r0 = relevance(0.5, 0, 0.035, now, now);
    let r10 = relevance(0.5, 10, 0.035, now, now);
    let r100 = relevance(0.5, 100, 0.035, now, now);
    assert!(r10 > r0, "10 accesses should be stronger than 0");
    assert!(r100 > r10, "100 accesses should be stronger than 10");
}

#[test]
fn test_old_fragment_decays() {
    let now = 1000000;
    let day = 86400;
    let r_fresh = relevance(0.5, 0, 0.035, now, now);
    let r_20d = relevance(0.5, 0, 0.035, now - 20 * day, now);
    let r_60d = relevance(0.5, 0, 0.035, now - 60 * day, now);
    assert!(r_20d < r_fresh, "20-day old should be weaker");
    assert!(r_60d < r_20d, "60-day old should be weaker still");
}

#[test]
fn test_important_fragment_has_floor() {
    let now = 1000000;
    let day = 86400;
    let r = relevance(1.0, 0, 0.01, now - 365 * day, now);
    assert!(r >= 0.29, "High importance should have floor ~0.3, got {}", r);
}

#[test]
fn test_unimportant_fragment_fades_to_near_zero() {
    let now = 1000000;
    let day = 86400;
    let r = relevance(0.1, 0, 0.07, now - 90 * day, now);
    assert!(r < 0.06, "Low importance old fragment should nearly vanish, got {}", r);
}

#[test]
fn test_decay_rate_for_importance() {
    let high = decay_rate_for_importance(billionths(1.0)) as f64 / 1e9;
    let mid = decay_rate_for_importance(billionths(0.5)) as f64 / 1e9;
    let low = decay_rate_for_importance(billionths(0.1)) as f64 / 1e9;
    assert!(high < mid, "High importance should decay slower");
    assert!(mid < low, "Mid importance should decay slower than low");
    assert!((high - 0.01).abs() < 0.001);
    assert!((low - 0.064).abs() < 0.001);
}

#[test]
fn test_relevance_clamped() {
    let now = 1000000;
    let r = relevance(1.0, 1000, 0.001, now, now);
    assert!(r <= 1.0, "Should be clamped to 1.0, got {}", r);
    assert!(r >= 0.0);
}

#[test]
fn exact_values_of_the_formula() {
    // 0.5 * 0.3 * 1.0 + 0.15
    assert_eq!(compute_relevance(500_000_000, 0, 35_000_000, 0, 0), 300_000_000);
    assert_eq!(compute_strength(0), 300_000_000);
    assert_eq!(compute_decay(0), ONE);
    assert_eq!(decay_rate_for_importance(ONE), 10_000_000);
    assert_eq!(decay_rate_for_importance(billionths(0.75)), 22_500_000);
    assert_eq!(decay_rate_for_importance(billionths(0.5)), 35_000_000);
    assert_eq!(decay_rate_for_importance(billionths(0.3)), 49_500_000);
    assert_eq!(decay_rate_for_importance(billionths(0.1)), 64_000_000);
    assert_eq!(decay_rate_for_importance(0), 70_000_000);
    // 0.7 * 0.8 + 0.3 * 1.0
    assert_eq!(blend(800_000_000, ONE), 860_000_000);
}

#[test]
fn logarithm_and_exponential_are_close() {
    for n in [1u32, 2, 5, 10, 50, 99] {
        let expected = (0.3 + 0.15 * (1.0 + n as f64).ln()).min(1.0);
        let got = compute_strength(n) as f64 / 1e9;
        assert!((got - expected).abs() < 1e-7, "{} for {}: expected {}", got, n, expected);
    }
    for x in [0.1f64, 0.5, 1.0, 2.5, 10.0, -0.5] {
        let got = compute_decay((x * 1e9) as i128) as f64 / 1e9;
        assert!((got - (-x).exp()).abs() < 1e-7, "{} for {}", got, x);
    }
}

#[test]
fn many_accesses_fill_the_strength() {
    assert_eq!(compute_strength(1000), ONE);
    assert_eq!(compute_strength(u32::MAX), ONE);
}

#[test]
fn strength_never_falls_and_grows_less_and_less() {
    for n in 1..60u32 {
        let before = compute_strength(n) - compute_strength(n - 1);
        let after = compute_strength(n + 1) - compute_strength(n);
        assert!(after >= 0);
        assert!(after <= before + 1, "at {}: {} then {}", n, before, after);
    }
}
