//! Failed command buffers.

use smeltr::event::{Event, Payload, Source, Uuid};
use smeltr::rule::Rule;
use smeltr::rules::metal_error::MetalErrorRule;
use smeltr::finding::{Category, Severity};

fn ev(ts: u64, source: Source, payload: Payload) -> Event {
    Event {
        ts_mono_ns: ts,
        ts_wall_ns: ts,
        session_id: Uuid::nil(),
        source,
        pid: None,
        seq: ts,
        payload,
    }
}


#[test]
fn impacting_interactivity_is_root_cause() {
    let events = vec![ev(
        100,
        Source::MetalHook,
        Payload::MetalCbCompleted {
            cb_id: 42,
            queue_id: 1,
            status: 4,
            error_code: Some(14),
            error_domain: Some("IOGPU".into()),
            in_flight_ns: 9_000_000_000,
        },
    )];
    let findings = MetalErrorRule.check(&events);
    assert_eq!(findings.len(), 1);
    assert_eq!(findings[0].category, Category::RootCause);
    assert!(findings[0].title.contains("ImpactingInteractivity"));
}

#[test]
fn non_watchdog_code_is_contributing() {
    let events = vec![ev(
        100,
        Source::MetalHook,
        Payload::MetalCbCompleted {
            cb_id: 1,
            queue_id: 1,
            status: 4,
            error_code: Some(3),
            error_domain: Some("IOGPU".into()),
            in_flight_ns: 100,
        },
    )];
    let findings = MetalErrorRule.check(&events);
    assert_eq!(findings.len(), 1);
    assert_eq!(findings[0].category, Category::ContributingFactor);
}

#[test]
fn zero_error_produces_no_finding() {
    let events = vec![ev(
        100,
        Source::MetalHook,
        Payload::MetalCbCompleted {
            cb_id: 1,
            queue_id: 1,
            status: 4,
            error_code: Some(0),
            error_domain: None,
            in_flight_ns: 1,
        },
    )];
    assert!(MetalErrorRule.check(&events).is_empty());
}
