//! The timing of evals.

use smeltr::event::{Event, Payload, Source, Uuid};
use smeltr::rule::Rule;
use smeltr::rules::mlx_timing::MlxTimingRule;
use smeltr::finding::{Category, Severity};

fn ev(ts: u64, source: Source, payload: Payload) -> Event {
    Event {
        ts_mono_ns: ts,
        ts_wall_ns: ts,
        session_id: Uuid::nil(),
        source,
        pid: None,
        seq: ts,
        payload,
    }
}


fn eval_pair(call_id: u64, t_in: u64, dur_ns: u64, was_async: bool) -> Vec<Event> {
    vec![
        ev(
            t_in,
            Source::PythonSidecar,
            Payload::MlxEvalEntered {
                call_id,
                array_count: 1,
                stream: "gpu".into(),
                module_stack: Vec::new(),
                stack_frames: vec![],
            },
        ),
        ev(
            t_in + dur_ns,
            Source::PythonSidecar,
            Payload::MlxEvalReturned {
                call_id,
                duration_ns: dur_ns,
                was_async,
            },
        ),
    ]
}

/// a real session has hundreds of evals; without a crash they
/// must collapse into ONE aggregate finding (a 695-finding report blew
/// past MCP client limits), with percentiles and the slowest calls.
#[test]
fn many_evals_without_crash_aggregate_into_one_finding() {
    let mut events = Vec::new();
    for i in 0..100u64 {
        // call_id 99 is the slowest (990 ms), then 98, ...
        events.extend(eval_pair(
            i,
            i * 2_000_000_000,
            (i + 1) * 10_000_000,
            i % 2 == 0,
        ));
    }
    let findings = MlxTimingRule.check(&events);
    assert_eq!(findings.len(), 1, "got {} findings", findings.len());
    let f = &findings[0];
    assert_eq!(f.severity, Severity::Info);
    assert!(f.title.contains("100"), "title: {}", f.title);
    assert!(f.title.contains("p95"), "title: {}", f.title);
    assert!(
        f.detail.contains("call_id=99"),
        "slowest call must be listed: {}",
        f.detail
    );
}

/// Near a crash the per-eval forensic detail keeps its value: the last
/// few evals before the crash stay as individual findings (capped),
/// alongside the aggregate.
#[test]
fn crash_keeps_individual_findings_for_last_evals_only() {
    let mut events = Vec::new();
    for i in 0..50u64 {
        events.extend(eval_pair(i, i * 1_000_000_000, 100_000_000, false));
    }
    events.push(ev(
        60_000_000_000,
        Source::MetalHook,
        Payload::MetalCbCompleted {
            cb_id: 1,
            queue_id: 1,
            status: 4,
            error_code: Some(14),
            error_domain: Some("IOGPU".into()),
            in_flight_ns: 1,
        },
    ));
    let findings = MlxTimingRule.check(&events);
    let per_eval: Vec<_> = findings
        .iter()
        .filter(|f| f.detail.contains("before crash"))
        .collect();
    assert!(
        per_eval.len() == 5,
        "expected 5 crash-adjacent per-eval findings, got {}",
        per_eval.len()
    );
    // The 5 closest to the crash are call_ids 45..49.
    assert!(per_eval.iter().any(|f| f.title.contains("call_id=49")));
    assert!(!per_eval.iter().any(|f| f.title.contains("call_id=44")));
    assert!(
        findings.iter().any(|f| f.title.contains("50")),
        "aggregate must still be present"
    );
}

#[test]
fn pairs_eval_with_crash() {
    let events = vec![
        ev(
            0,
            Source::PythonSidecar,
            Payload::MlxEvalEntered {
                call_id: 1,
                array_count: 3,
                stream: "gpu".into(),
                module_stack: Vec::new(),
                stack_frames: vec![],
            },
        ),
        ev(
            100_000_000,
            Source::PythonSidecar,
            Payload::MlxEvalReturned {
                call_id: 1,
                duration_ns: 100_000_000,
                was_async: true,
            },
        ),
        ev(
            5_000_000_000,
            Source::MetalHook,
            Payload::MetalCbCompleted {
                cb_id: 1,
                queue_id: 1,
                status: 4,
                error_code: Some(14),
                error_domain: Some("IOGPU".into()),
                in_flight_ns: 1,
            },
        ),
    ];
    let findings = MlxTimingRule.check(&events);
    assert_eq!(findings.len(), 2, "crash-adjacent per-eval + aggregate");
    assert!(findings[0].detail.contains("before crash"));
}
