//! Deep queues before a failure.

use smeltr::event::{Event, Payload, Source, Uuid};
use smeltr::rule::Rule;
use smeltr::rules::queue_depth::QueueDepthRule;

fn ev(ts: u64, source: Source, payload: Payload) -> Event {
    Event {
        ts_mono_ns: ts,
        ts_wall_ns: ts,
        session_id: Uuid::nil(),
        source,
        pid: None,
        seq: ts,
        payload,
    }
}


#[test]
fn reports_max_queue_depth_before_crash() {
    let events = vec![
        ev(
            1_000_000_000,
            Source::MetalHook,
            Payload::MetalCbCommitted {
                cb_id: 1,
                queue_id: 1,
                queue_depth: 5,
                label: None,
            },
        ),
        ev(
            2_000_000_000,
            Source::MetalHook,
            Payload::MetalCbCommitted {
                cb_id: 2,
                queue_id: 1,
                queue_depth: 23,
                label: None,
            },
        ),
        ev(
            3_000_000_000,
            Source::MetalHook,
            Payload::MetalCbCompleted {
                cb_id: 2,
                queue_id: 1,
                status: 4,
                error_code: Some(14),
                error_domain: Some("IOGPU".into()),
                in_flight_ns: 1,
            },
        ),
    ];
    let findings = QueueDepthRule.check(&events);
    assert_eq!(findings.len(), 1);
    assert!(findings[0].title.contains("23 CBs"));
}

#[test]
fn no_crash_no_finding() {
    let events = vec![ev(
        1_000_000_000,
        Source::MetalHook,
        Payload::MetalCbCommitted {
            cb_id: 1,
            queue_id: 1,
            queue_depth: 99,
            label: None,
        },
    )];
    assert!(QueueDepthRule.check(&events).is_empty());
}
