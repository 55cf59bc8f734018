//! Deep queues without a failure.

use smeltr::event::{Event, Payload, Source, Uuid};
use smeltr::rule::Rule;
use smeltr::rules::queue_pressure::QueuePressureRule;
use smeltr::finding::{Category, Severity};

fn ev(ts: u64, source: Source, payload: Payload) -> Event {
    Event {
        ts_mono_ns: ts,
        ts_wall_ns: ts,
        session_id: Uuid::nil(),
        source,
        pid: None,
        seq: ts,
        payload,
    }
}


#[test]
fn fires_on_high_depth_no_crash() {
    let events = vec![ev(
        100,
        Source::MetalHook,
        Payload::MetalCbCommitted {
            cb_id: 1,
            queue_id: 1,
            queue_depth: 40,
            label: None,
        },
    )];
    let f = QueuePressureRule.check(&events);
    assert_eq!(f.len(), 1);
    assert_eq!(f[0].category, Category::ContributingFactor);
    assert_eq!(f[0].severity, Severity::Warning);
}

#[test]
fn fires_on_long_in_flight_no_crash() {
    let events = vec![ev(
        100,
        Source::MetalHook,
        Payload::MetalCbCompleted {
            cb_id: 1,
            queue_id: 1,
            status: 4,
            error_code: None,
            error_domain: None,
            in_flight_ns: 1_500_000_000,
        },
    )];
    let f = QueuePressureRule.check(&events);
    assert_eq!(f.len(), 1);
    assert!(f[0].title.contains("1500ms"));
}

#[test]
fn silent_on_modest_workload() {
    let events = vec![ev(
        100,
        Source::MetalHook,
        Payload::MetalCbCommitted {
            cb_id: 1,
            queue_id: 1,
            queue_depth: 5,
            label: None,
        },
    )];
    assert!(QueuePressureRule.check(&events).is_empty());
}

#[test]
fn defers_when_crash_present() {
    let events = vec![
        ev(
            100,
            Source::MetalHook,
            Payload::MetalCbCommitted {
                cb_id: 1,
                queue_id: 1,
                queue_depth: 40,
                label: None,
            },
        ),
        ev(
            200,
            Source::MetalHook,
            Payload::MetalCbCompleted {
                cb_id: 1,
                queue_id: 1,
                status: 4,
                error_code: Some(14),
                error_domain: Some("IOGPU".into()),
                in_flight_ns: 1,
            },
        ),
    ];
    assert!(
        QueuePressureRule.check(&events).is_empty(),
        "should defer to QueueDepthRule on crash"
    );
}
