//! Caches larger than the working set.

use smeltr::event::{Event, Payload, Source, Uuid};
use smeltr::rule::Rule;
use smeltr::rules::mlx_cache_growth::MlxCacheGrowthRule;
use smeltr::finding::Severity;

fn ev(ts: u64, source: Source, payload: Payload) -> Event {
    Event {
        ts_mono_ns: ts,
        ts_wall_ns: ts,
        session_id: Uuid::nil(),
        source,
        pid: None,
        seq: ts,
        payload,
    }
}


fn poll(ts: u64, active: u64, cache: u64) -> Event {
    ev(
        ts,
        Source::PythonSidecar,
        Payload::MlxMemoryPoll {
            active_bytes: active,
            peak_bytes: active,
            cache_bytes: cache,
        },
    )
}

/// A signature as observed: 21.31 GB of cache
/// against 15.25 GB of active memory.
#[test]
fn cache_above_active_is_reported() {
    let events = vec![
        poll(1, 8_000_000_000, 8_000_000_000),
        poll(2, 15_250_000_000, 21_310_000_000),
    ];
    let f = MlxCacheGrowthRule.check(&events);
    assert_eq!(f.len(), 1, "{f:#?}");
    assert_eq!(f[0].severity, Severity::Warning);
    assert!(f[0].detail.contains("21.31"), "detail: {}", f[0].detail);
    assert!(f[0].detail.contains("15.25"), "detail: {}", f[0].detail);
}

/// Cache proportional to the work is legitimate, even when very large —
/// the case of the store's silent sessions, up to 27.6 GB of cache against
/// 49.5 GB of active memory.
#[test]
fn cache_below_active_is_not_reported() {
    let events = vec![
        poll(1, 20_000_000_000, 10_000_000_000),
        poll(2, 49_480_000_000, 27_580_000_000),
    ];
    assert!(MlxCacheGrowthRule.check(&events).is_empty());
}

/// Just below the threshold: we stay silent. Pins the calibrated value.
#[test]
fn a_ratio_below_the_threshold_is_not_reported() {
    let events = vec![poll(1, 8_530_000_000, 9_260_000_000)]; // x1.09
    assert!(MlxCacheGrowthRule.check(&events).is_empty());
}

/// The noise floor: a small run with a high ratio says nothing.
#[test]
fn a_small_cache_is_not_reported() {
    let events = vec![poll(1, 10_000_000, 100_000_000)]; // x10 but 100 MB
    assert!(MlxCacheGrowthRule.check(&events).is_empty());
}

/// With no MLX samples — a session without the sidecar — the rule is quiet.
#[test]
fn no_samples_yields_nothing() {
    assert!(MlxCacheGrowthRule.check(&[]).is_empty());
}

/// An active figure that stayed at zero allows no ratio: we do not divide.
#[test]
fn a_zero_active_yields_nothing() {
    let events = vec![poll(1, 0, 5_000_000_000)];
    assert!(MlxCacheGrowthRule.check(&events).is_empty());
}
