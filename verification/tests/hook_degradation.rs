//! Degraded capture.

use smeltr::event::{Event, Payload, Source, Uuid};
use smeltr::rule::Rule;
use smeltr::rules::hook_degradation::HookDegradationRule;
use smeltr::finding::Severity;

fn ev(ts: u64, source: Source, payload: Payload) -> Event {
    Event {
        ts_mono_ns: ts,
        ts_wall_ns: ts,
        session_id: Uuid::nil(),
        source,
        pid: None,
        seq: ts,
        payload,
    }
}


#[test]
fn sampling_disable_becomes_warning_finding() {
    let events = vec![ev(
        36_000_000_000,
        Source::MetalHook,
        Payload::MetalHookSkipped {
            reason:
                "stage sampling disabled after sustained alloc failures (pro-rata fallback)"
                    .to_string(),
        },
    )];
    let findings = HookDegradationRule.check(&events);
    assert_eq!(findings.len(), 1);
    assert_eq!(findings[0].severity, Severity::Warning);
    assert!(findings[0].title.contains("GPU op timing degraded"));
}

#[test]
fn decode_errors_aggregate_into_one_finding() {
    let events = vec![
        ev(
            1,
            Source::MetalHook,
            Payload::MetalHookSkipped {
                reason: "ring decode error: unknown frame kind 42".to_string(),
            },
        ),
        ev(
            2,
            Source::MetalHook,
            Payload::MetalHookSkipped {
                reason: "ring decode error: frame truncated at offset 24".to_string(),
            },
        ),
    ];
    let findings = HookDegradationRule.check(&events);
    assert_eq!(findings.len(), 1);
    assert!(findings[0].title.contains("2 corrupt frame report(s)"));
}

#[test]
fn drops_aggregate_total_count() {
    let events = vec![
        ev(
            1,
            Source::MetalHook,
            Payload::MetalHookDropped { count: 10 },
        ),
        ev(
            2,
            Source::MetalHook,
            Payload::MetalHookDropped { count: 32 },
        ),
    ];
    let findings = HookDegradationRule.check(&events);
    assert_eq!(findings.len(), 1);
    assert!(findings[0].title.contains("42 event(s) dropped"));
}

#[test]
fn other_skips_produce_no_finding() {
    let events = vec![ev(
        1,
        Source::MetalHook,
        Payload::MetalHookSkipped {
            reason: "SMELTR_HOOK_ML_ENCODER=1: no MTL4 ML encoder classes found".to_string(),
        },
    )];
    assert!(HookDegradationRule.check(&events).is_empty());
}
