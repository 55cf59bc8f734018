//! What changed between two sessions.

use smeltr::diff::{diff_memory, diff_origins, diff_sessions, OpDelta, Percent};
use smeltr::event::{Event, OpSample, Payload, Source, StackFrame, Uuid};

/// The percentage as a number.
fn value(p: Option<Percent>) -> Option<f64> {
    p.map(|p| {
        let size = p.magnitude.mant as f64 * 2f64.powi(p.magnitude.exp);
        if p.negative {
            -size
        } else {
            size
        }
    })
}


fn ev(seq: u64, ts: u64, source: Source, payload: Payload) -> Event {
    Event {
        ts_mono_ns: ts,
        ts_wall_ns: ts,
        session_id: Uuid::nil(),
        source,
        pid: None,
        seq,
        payload,
    }
}

fn scoped_session(qualname: &str, in_flight_ns: u64, op: OpSample) -> Vec<Event> {
    vec![
        ev(
            1,
            1,
            Source::PythonSidecar,
            Payload::ModuleEntered {
                module_call_id: 1,
                module_def_id: 1,
                qualname: qualname.into(),
                class_name: "Scope".into(),
                parent_call_id: None,
                depth: 0,
                fields: Default::default(),
            },
        ),
        ev(
            2,
            10,
            Source::PythonSidecar,
            Payload::MlxEvalEntered {
                call_id: 1,
                array_count: 1,
                stream: "gpu".into(),
                module_stack: vec![1],
                stack_frames: vec![],
            },
        ),
        ev(
            3,
            20,
            Source::MetalHook,
            Payload::MetalCbCommitted {
                cb_id: 9,
                queue_id: 1,
                queue_depth: 1,
                label: None,
            },
        ),
        ev(
            4,
            30,
            Source::MetalHook,
            Payload::MetalCbCompleted {
                cb_id: 9,
                queue_id: 1,
                status: 4,
                error_code: None,
                error_domain: None,
                in_flight_ns,
            },
        ),
        ev(
            5,
            31,
            Source::MetalHook,
            Payload::MetalCbOps {
                cb_id: 9,
                ops: vec![op],
            },
        ),
        ev(
            6,
            40,
            Source::PythonSidecar,
            Payload::MlxEvalReturned {
                call_id: 1,
                duration_ns: 30,
                was_async: false,
            },
        ),
        ev(
            7,
            50,
            Source::PythonSidecar,
            Payload::ModuleReturned { module_call_id: 1 },
        ),
    ]
}

fn op_matmul(gpu_ns: u64) -> OpSample {
    OpSample {
        name: "K_abcd_64x64x1".into(),
        symbol: Some("gemm_t_n_bf16_64".into()),
        gpu_ns,
        count: 1,
    }
}

#[test]
fn diff_empty_sessions_yields_empty_diff() {
    let d = diff_sessions(&[], &[]);
    assert!(d.scope_deltas.is_empty());
    assert!(d.op_deltas.is_empty());
    assert!(d.scopes_only_in_a.is_empty());
    assert!(d.scopes_only_in_b.is_empty());
}

#[test]
fn diff_identical_sessions_yields_zero_deltas() {
    let a = scoped_session("denoise.pass:cond", 1_000, op_matmul(800));
    let b = scoped_session("denoise.pass:cond", 1_000, op_matmul(800));
    let d = diff_sessions(&a, &b);
    let scope = d
        .scope_deltas
        .iter()
        .find(|s| s.qualname == "denoise.pass:cond")
        .expect("scope present");
    assert_eq!(scope.delta_ns, 0);
    assert_eq!(value(scope.delta_pct), Some(0.0));
    assert!(d.scopes_only_in_a.is_empty());
    assert!(d.scopes_only_in_b.is_empty());
    let mm = d
        .op_deltas
        .iter()
        .find(|o| o.kind == "Matmul")
        .expect("Matmul present");
    assert_eq!(mm.delta_ns, 0);
}

#[test]
fn diff_scope_only_in_a() {
    let a = scoped_session("denoise.pass:uncond", 5_000, op_matmul(4_000));
    let d = diff_sessions(&a, &[]);
    let entries: Vec<&str> = d
        .scopes_only_in_a
        .iter()
        .map(|s| s.qualname.as_str())
        .collect();
    assert!(entries.contains(&"denoise.pass:uncond"));
    let onpoint = d
        .scopes_only_in_a
        .iter()
        .find(|s| s.qualname == "denoise.pass:uncond")
        .unwrap();
    assert!(onpoint.gpu_ns > 0);
    assert!(!d
        .scope_deltas
        .iter()
        .any(|s| s.qualname == "denoise.pass:uncond"));
}

#[test]
fn diff_scope_only_in_b() {
    let b = scoped_session("denoise.pass:dpo_warmup", 5_000, op_matmul(4_000));
    let d = diff_sessions(&[], &b);
    assert!(d
        .scopes_only_in_b
        .iter()
        .any(|s| s.qualname == "denoise.pass:dpo_warmup"));
}

#[test]
fn diff_scope_delta_sorted_by_abs() {
    let mut a = scoped_session("tiny", 100, op_matmul(50));
    for ev in &mut a {
        ev.seq += 100;
    }
    a.extend({
        let mut second = scoped_session("huge", 10_000_000, op_matmul(8_000_000));
        for ev in &mut second {
            ev.seq += 200;
            ev.ts_mono_ns += 1_000;
            ev.ts_wall_ns += 1_000;
            if let Payload::ModuleEntered { module_call_id, .. }
            | Payload::ModuleReturned { module_call_id, .. } = &mut ev.payload
            {
                *module_call_id = 2;
            }
            if let Payload::MlxEvalEntered { module_stack, .. } = &mut ev.payload {
                *module_stack = vec![2];
            }
            if let Payload::MetalCbCommitted { cb_id, .. }
            | Payload::MetalCbCompleted { cb_id, .. }
            | Payload::MetalCbOps { cb_id, .. } = &mut ev.payload
            {
                *cb_id = 10;
            }
        }
        second
    });
    let mut b = scoped_session("tiny", 105, op_matmul(55));
    for ev in &mut b {
        ev.seq += 300;
    }
    b.extend({
        let mut second = scoped_session("huge", 5_000_000, op_matmul(3_000_000));
        for ev in &mut second {
            ev.seq += 400;
            ev.ts_mono_ns += 1_000;
            ev.ts_wall_ns += 1_000;
            if let Payload::ModuleEntered { module_call_id, .. }
            | Payload::ModuleReturned { module_call_id, .. } = &mut ev.payload
            {
                *module_call_id = 2;
            }
            if let Payload::MlxEvalEntered { module_stack, .. } = &mut ev.payload {
                *module_stack = vec![2];
            }
            if let Payload::MetalCbCommitted { cb_id, .. }
            | Payload::MetalCbCompleted { cb_id, .. }
            | Payload::MetalCbOps { cb_id, .. } = &mut ev.payload
            {
                *cb_id = 10;
            }
        }
        second
    });

    let d = diff_sessions(&a, &b);
    let names: Vec<&str> = d.scope_deltas.iter().map(|s| s.qualname.as_str()).collect();
    let huge_idx = names.iter().position(|n| *n == "huge").unwrap();
    let tiny_idx = names.iter().position(|n| *n == "tiny").unwrap();
    assert!(
        huge_idx < tiny_idx,
        "huge (large |delta|) must come before tiny: {names:?}"
    );
}

#[test]
fn diff_delta_pct_none_when_a_zero() {
    let a = scoped_session("foo", 0, op_matmul(0));
    let b = scoped_session("foo", 500, op_matmul(400));
    let d = diff_sessions(&a, &b);
    let scope = d
        .scope_deltas
        .iter()
        .find(|s| s.qualname == "foo")
        .expect("foo present");
    assert_eq!(value(scope.delta_pct), None);
    assert!(scope.delta_ns > 0);
}

#[test]
fn diff_op_aggregation_by_kind() {
    let mut events = scoped_session("scope_one", 100, op_matmul(60));
    for ev in &mut events {
        ev.seq += 100;
    }
    let mut more = scoped_session("scope_two", 100, op_matmul(40));
    for ev in &mut more {
        ev.seq += 200;
        ev.ts_mono_ns += 1_000;
        ev.ts_wall_ns += 1_000;
        if let Payload::ModuleEntered { module_call_id, .. }
        | Payload::ModuleReturned { module_call_id, .. } = &mut ev.payload
        {
            *module_call_id = 2;
        }
        if let Payload::MlxEvalEntered { module_stack, .. } = &mut ev.payload {
            *module_stack = vec![2];
        }
        if let Payload::MetalCbCommitted { cb_id, .. }
        | Payload::MetalCbCompleted { cb_id, .. }
        | Payload::MetalCbOps { cb_id, .. } = &mut ev.payload
        {
            *cb_id = 10;
        }
    }
    events.extend(more);
    let d = diff_sessions(&events, &events);
    let matmul_entries: Vec<&OpDelta> =
        d.op_deltas.iter().filter(|o| o.kind == "Matmul").collect();
    assert_eq!(
        matmul_entries.len(),
        1,
        "expected ONE Matmul row aggregating across scopes"
    );
    assert_eq!(matmul_entries[0].a_gpu_ns, 100);
    assert_eq!(matmul_entries[0].b_gpu_ns, 100);
}

#[test]
fn diff_op_fallback_to_symbol_then_name() {
    let no_sym = OpSample {
        name: "K_unknown_kernel".into(),
        symbol: None,
        gpu_ns: 100,
        count: 1,
    };
    let a = scoped_session("scope", 100, no_sym);
    let d = diff_sessions(&a, &a);
    assert!(d.op_deltas.iter().any(|o| o.kind == "K_unknown_kernel"));
}

#[test]
fn diff_memory_basic() {
    let mk = |peak: u64| -> Vec<Event> {
        vec![
            ev(
                1,
                1,
                Source::PythonSidecar,
                Payload::ModuleEntered {
                    module_call_id: 1,
                    module_def_id: 0,
                    qualname: "scope".into(),
                    class_name: "Scope".into(),
                    parent_call_id: None,
                    depth: 0,
                    fields: Default::default(),
                },
            ),
            ev(
                2,
                2,
                Source::MetalHook,
                Payload::MetalDeviceMemSample {
                    allocated_bytes: peak,
                    recommended_max_bytes: 16_000_000_000,
                    at_event: "cb_committed".into(),
                },
            ),
            ev(
                3,
                3,
                Source::PythonSidecar,
                Payload::ModuleReturned { module_call_id: 1 },
            ),
        ]
    };
    let a = mk(2_000_000_000);
    let b = mk(1_000_000_000);
    let d = diff_memory(&a, &b);
    assert_eq!(d.len(), 1);
    assert_eq!(d[0].qualname, "scope");
    assert_eq!(d[0].delta_bytes, -1_000_000_000);
    assert_eq!(value(d[0].delta_pct), Some(-50.0));
}

#[test]
fn diff_origins_basic() {
    let mk = |gpu: u64| -> Vec<Event> {
        vec![
            ev(
                1,
                10,
                Source::PythonSidecar,
                Payload::MlxEvalEntered {
                    call_id: 1,
                    array_count: 1,
                    stream: "gpu".into(),
                    module_stack: vec![],
                    stack_frames: vec![StackFrame {
                        filename: "/work/attention.py".into(),
                        lineno: 127,
                        funcname: "f".into(),
                    }],
                },
            ),
            ev(
                2,
                15,
                Source::MetalHook,
                Payload::MetalCbOps {
                    cb_id: 9,
                    ops: vec![OpSample {
                        name: "K_x".into(),
                        symbol: Some("gemm_bf16".into()),
                        gpu_ns: gpu,
                        count: 1,
                    }],
                },
            ),
            ev(
                3,
                20,
                Source::PythonSidecar,
                Payload::MlxEvalReturned {
                    call_id: 1,
                    duration_ns: 10,
                    was_async: false,
                },
            ),
        ]
    };
    let a = mk(2_000_000_000);
    let b = mk(1_000_000_000);
    let d = diff_origins(&a, &b);
    assert_eq!(d.len(), 1);
    assert_eq!(d[0].kind, "Matmul");
    assert_eq!(d[0].file_line, "attention.py:127");
    assert_eq!(d[0].delta_ns, -1_000_000_000);
    assert_eq!(value(d[0].delta_pct), Some(-50.0));
}
