//! Memory near or over the budget.

use smeltr::event::{Event, Payload, Source, Uuid};
use smeltr::rule::Rule;
use smeltr::rules::memory_pressure::MemoryPressureRule;
use smeltr::finding::Severity;

fn ev(seq: u64, payload: Payload) -> Event {
    Event {
        ts_mono_ns: seq,
        ts_wall_ns: 0,
        session_id: Uuid::nil(),
        source: Source::MetalHook,
        pid: None,
        seq,
        payload,
    }
}

fn sample(seq: u64, allocated: u64, recmax: u64) -> Event {
    ev(
        seq,
        Payload::MetalDeviceMemSample {
            allocated_bytes: allocated,
            recommended_max_bytes: recmax,
            at_event: "cb_committed".into(),
        },
    )
}

fn entered(seq: u64, q: &str) -> Event {
    ev(
        seq,
        Payload::ModuleEntered {
            module_call_id: seq,
            module_def_id: 0,
            qualname: q.into(),
            class_name: String::new(),
            parent_call_id: None,
            depth: 0,
            fields: Default::default(),
        },
    )
}

fn returned(seq: u64) -> Event {
    ev(seq, Payload::ModuleReturned { module_call_id: 0 })
}

#[test]
fn memory_pressure_silent_below_threshold() {
    assert!(MemoryPressureRule.check(&[sample(0, 500, 1000)]).is_empty());
}

#[test]
fn warning_near_budget() {
    let f = MemoryPressureRule.check(&[sample(0, 950, 1000)]);
    assert_eq!(f.len(), 1);
    assert_eq!(f[0].severity, Severity::Warning);
}

#[test]
fn critical_over_budget() {
    let f = MemoryPressureRule.check(&[sample(0, 1100, 1000)]);
    assert_eq!(f.len(), 1);
    assert_eq!(f[0].severity, Severity::Critical);
}

#[test]
fn skips_zero_budget() {
    assert!(MemoryPressureRule.check(&[sample(0, 1000, 0)]).is_empty());
}

#[test]
fn attributes_to_enclosing_scope() {
    let evs = vec![entered(0, "vae.decode"), sample(1, 1100, 1000), returned(2)];
    let f = MemoryPressureRule.check(&evs);
    assert_eq!(f.len(), 1);
    assert!(
        f[0].title.contains("vae.decode"),
        "title missing scope: {}",
        f[0].title
    );
}

#[test]
fn reports_only_worst_sample() {
    let evs = vec![
        sample(0, 920, 1000),
        sample(1, 1200, 1000),
        sample(2, 950, 1000),
    ];
    let f = MemoryPressureRule.check(&evs);
    assert_eq!(f.len(), 1);
    assert_eq!(f[0].severity, Severity::Critical); // the 1200/1000 sample wins
}

const S: u64 = 1_000_000_000;

fn sample_at(ts: u64, allocated: u64) -> Event {
    sample(ts, allocated, 1000)
}

/// The detail lists each window with its session-relative time span and its
/// own peak.
#[test]
fn detail_lists_each_window_with_relative_times() {
    let evs = vec![
        ev(
            0,
            Payload::MetalHookSkipped {
                reason: "t0 anchor".into(),
            },
        ),
        sample_at(236 * S, 1080),
        sample_at(241 * S, 1030),
        sample_at(300 * S, 100),
        sample_at(488 * S, 1150),
        sample_at(490 * S, 1100),
    ];
    let f = MemoryPressureRule.check(&evs);
    assert_eq!(f.len(), 1, "{f:#?}");
    assert_eq!(f[0].severity, Severity::Critical);
    let d = &f[0].detail;
    assert!(d.contains("2 over-budget window(s)"), "{d}");
    assert!(d.contains("t+236s..t+241s"), "{d}");
    assert!(d.contains("108%"), "{d}");
    assert!(d.contains("t+488s..t+490s"), "{d}");
    assert!(d.contains("115%"), "{d}");
    // Evidence anchors the WORST window's peak sample.
    assert_eq!(f[0].evidence[0].ts_mono_ns, 488 * S);
    assert!(f[0].evidence[0].description.contains("t+488s"));
}

#[test]
fn single_window_keeps_previous_title_shape() {
    let evs = vec![
        ev(
            0,
            Payload::MetalHookSkipped {
                reason: "t0".into(),
            },
        ),
        sample_at(10 * S, 1100),
    ];
    let f = MemoryPressureRule.check(&evs);
    assert_eq!(f.len(), 1);
    assert!(f[0].title.contains("110%"), "{}", f[0].title);
    assert!(
        f[0].detail.contains("1 over-budget window(s)"),
        "{}",
        f[0].detail
    );
    assert!(f[0].detail.contains("t+10s"), "{}", f[0].detail);
}
