//! The attribution gap of lazy programs.

use smeltr::event::{Event, OpSample, Payload, Source, Uuid};
use smeltr::rule::Rule;
use smeltr::rules::lazy_eval_attribution::{detect, LazyEvalAttributionRule};
use smeltr::finding::Severity;

fn ev(ts: u64, source: Source, payload: Payload) -> Event {
    Event {
        ts_mono_ns: ts,
        ts_wall_ns: ts,
        session_id: Uuid::nil(),
        source,
        pid: None,
        seq: ts,
        payload,
    }
}


fn module_entered(ts: u64, call_id: u64) -> Event {
    ev(
        ts,
        Source::PythonSidecar,
        Payload::ModuleEntered {
            module_call_id: call_id,
            module_def_id: 1,
            qualname: format!("m{call_id}"),
            class_name: "M".into(),
            parent_call_id: None,
            depth: 0,
            fields: Default::default(),
        },
    )
}

fn module_returned(ts: u64, call_id: u64) -> Event {
    ev(
        ts,
        Source::PythonSidecar,
        Payload::ModuleReturned {
            module_call_id: call_id,
        },
    )
}

fn eval_entered(ts: u64, call_id: u64, stack: Vec<u64>) -> Event {
    ev(
        ts,
        Source::PythonSidecar,
        Payload::MlxEvalEntered {
            call_id,
            array_count: 1,
            stream: "gpu".into(),
            module_stack: stack,
            stack_frames: vec![],
        },
    )
}

fn eval_returned(ts: u64, call_id: u64) -> Event {
    ev(
        ts,
        Source::PythonSidecar,
        Payload::MlxEvalReturned {
            call_id,
            duration_ns: 1,
            was_async: false,
        },
    )
}

fn cb(commit_ts: u64, complete_ts: u64, cb_id: u64, gpu_ns: u64) -> Vec<Event> {
    vec![
        ev(
            commit_ts,
            Source::MetalHook,
            Payload::MetalCbCommitted {
                cb_id,
                queue_id: 1,
                queue_depth: 1,
                label: None,
            },
        ),
        ev(
            complete_ts,
            Source::MetalHook,
            Payload::MetalCbCompleted {
                cb_id,
                queue_id: 1,
                status: 4,
                error_code: None,
                error_domain: None,
                in_flight_ns: gpu_ns,
            },
        ),
        ev(
            complete_ts + 1,
            Source::MetalHook,
            Payload::MetalCbOps {
                cb_id,
                ops: vec![OpSample {
                    name: format!("K_{cb_id}"),
                    symbol: None,
                    gpu_ns,
                    count: 1,
                }],
            },
        ),
    ]
}

/// Module windows open and close BEFORE a single
/// pipeline-level mx.eval (empty module_stack) that contains all CBs.
fn lazy_session() -> Vec<Event> {
    let mut events = vec![
        module_entered(100, 1),
        module_returned(200, 1),
        module_entered(300, 2),
        module_returned(400, 2),
        // pipeline-level eval, outside any module forward
        eval_entered(1_000_000_000, 7, vec![]),
    ];
    events.extend(cb(2_000_000_000, 3_000_000_000, 10, 90_000));
    events.extend(cb(4_000_000_000, 5_000_000_000, 11, 90_000));
    events.push(eval_returned(6_000_000_000, 7));
    events.sort_by_key(|e| e.ts_mono_ns);
    events
}

#[test]
fn detects_full_lazy_gap() {
    let gap = detect(&lazy_session()).expect("gap should be detected");
    assert_eq!(gap.gap_gpu_ns, 180_000);
    assert_eq!(gap.total_gpu_ns, 180_000);
    assert_eq!(gap.gap_pct(), 100);
    assert_eq!(gap.module_call_count, 2);
    assert_eq!(gap.lazy_eval_count, 1);
}

#[test]
fn no_gap_when_evals_carry_module_stack() {
    let mut events = vec![module_entered(100, 1), eval_entered(200, 7, vec![1])];
    events.extend(cb(300, 400, 10, 90_000));
    events.push(eval_returned(500, 7));
    events.push(module_returned(600, 1));
    events.sort_by_key(|e| e.ts_mono_ns);
    assert!(detect(&events).is_none());
}

/// CBs landing in module/scope windows via the fallback are
/// attributed fine — a small empty-stack eval must stay under threshold.
#[test]
fn below_threshold_share_is_not_reported() {
    let mut events = vec![module_entered(100, 1)];
    // 90% of GPU time inside the module window, no eval window.
    events.extend(cb(200, 300, 10, 900_000));
    events.push(module_returned(1_000, 1));
    // 10% in a later empty-stack eval.
    events.push(eval_entered(600_000_000_000, 7, vec![]));
    events.extend(cb(600_000_000_100, 600_000_000_200, 11, 100_000));
    events.push(eval_returned(600_000_001_000, 7));
    events.sort_by_key(|e| e.ts_mono_ns);
    assert!(detect(&events).is_none());
}

#[test]
fn empty_or_gpu_less_sessions_are_ignored() {
    assert!(detect(&[]).is_none());
    // Modules + empty-stack eval but no CB at all.
    let events = vec![
        module_entered(100, 1),
        module_returned(200, 1),
        eval_entered(300, 7, vec![]),
        eval_returned(400, 7),
    ];
    assert!(detect(&events).is_none());
}

#[test]
fn rule_emits_actionable_warning() {
    let findings = LazyEvalAttributionRule.check(&lazy_session());
    assert_eq!(findings.len(), 1, "got: {findings:#?}");
    let f = &findings[0];
    assert_eq!(f.severity, Severity::Warning);
    assert!(f.title.contains("100%"), "title: {}", f.title);
    assert!(f.detail.contains("smeltr.scope"), "detail: {}", f.detail);
    assert!(f.detail.contains("smeltr origins"), "detail: {}", f.detail);
    assert_eq!(f.evidence.len(), 1);
}

/// Without module instrumentation at all, the advice must not claim
/// instrumentation is active.
#[test]
fn advice_distinguishes_uninstrumented_sessions() {
    let mut events = vec![eval_entered(1_000, 7, vec![])];
    events.extend(cb(2_000, 3_000, 10, 90_000));
    events.push(eval_returned(4_000, 7));
    events.sort_by_key(|e| e.ts_mono_ns);
    let gap = detect(&events).expect("gap should be detected");
    assert_eq!(gap.module_call_count, 0);
    assert!(gap.advice().contains("no module or scope instrumentation"));
    let gap_instr = detect(&lazy_session()).unwrap();
    assert!(gap_instr.advice().contains("instrumentation is active"));
}
