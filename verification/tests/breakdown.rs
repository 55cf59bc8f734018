//! The tree of GPU time per module, and its renderings.

use smeltr::breakdown::{
    compute, BreakdownError, Diagnostics, ModuleBreakdown, OpAttribution, UNSCOPED,
};
use smeltr::breakdown_text::{render_chrome_trace, render_ops_flat, render_table};
use smeltr::event::{Event, FieldValue, OpSample, Payload, Source, Uuid};
use smeltr::op_tables::{aggregate_ops_flat, apply_op_group_by, OpGroupBy};

fn ev(seq: u64, ts: u64, payload: Payload, source: Source) -> Event {
    Event {
        ts_mono_ns: ts,
        ts_wall_ns: ts,
        session_id: Uuid::nil(),
        source,
        pid: None,
        seq,
        payload,
    }
}

fn op_sample(name: &str, gpu_ns: u64, count: u32) -> OpSample {
    OpSample {
        name: name.into(),
        symbol: None,
        gpu_ns,
        count,
    }
}

/// Metal recycles CB allocations, so the same cb_id (pointer) is
/// reused by successive CBs. Each lifetime's MetalCbOps must be
/// attributed exactly once, to its own eval window — not the last
/// lifetime's ops to every completion sharing the pointer.
#[test]
fn recycled_cb_ids_attribute_each_lifetime_once() {
    let mk_eval = |seq: u64, call_id: u64, t_in: u64, t_out: u64| {
        vec![
            ev(
                seq,
                t_in,
                Payload::MlxEvalEntered {
                    call_id,
                    array_count: 1,
                    stream: "gpu".into(),
                    module_stack: vec![1],
                    stack_frames: vec![],
                },
                Source::PythonSidecar,
            ),
            ev(
                seq + 1,
                t_out,
                Payload::MlxEvalReturned {
                    call_id,
                    duration_ns: t_out - t_in,
                    was_async: false,
                },
                Source::PythonSidecar,
            ),
        ]
    };
    let mk_cb = |seq: u64, ts: u64, cb_id: u64, op: &str, gpu_ns: u64| {
        vec![
            ev(
                seq,
                ts,
                Payload::MetalCbCommitted {
                    cb_id,
                    queue_id: 1,
                    queue_depth: 1,
                    label: None,
                },
                Source::MetalHook,
            ),
            ev(
                seq + 1,
                ts + 5,
                Payload::MetalCbCompleted {
                    cb_id,
                    queue_id: 1,
                    status: 4,
                    error_code: None,
                    error_domain: None,
                    in_flight_ns: 5,
                },
                Source::MetalHook,
            ),
            ev(
                seq + 2,
                ts + 6,
                Payload::MetalCbOps {
                    cb_id,
                    ops: vec![op_sample(op, gpu_ns, 1)],
                },
                Source::MetalHook,
            ),
        ]
    };
    let mut events = vec![ev(
        1,
        0,
        Payload::ModuleEntered {
            module_call_id: 1,
            module_def_id: 1,
            qualname: "m".into(),
            class_name: "M".into(),
            parent_call_id: None,
            depth: 0,
            fields: Default::default(),
        },
        Source::PythonSidecar,
    )];
    // Two eval windows; ONE cb_id (0x9) recycled across both, with
    // different ops in each lifetime.
    events.extend(mk_eval(10, 7, 100, 200));
    events.extend(mk_cb(20, 110, 0x9, "OpFirst", 111));
    events.extend(mk_eval(30, 8, 300, 400));
    events.extend(mk_cb(40, 310, 0x9, "OpSecond", 222));
    events.push(ev(
        50,
        500,
        Payload::ModuleReturned { module_call_id: 1 },
        Source::PythonSidecar,
    ));

    let root = compute(&events).unwrap();
    let m = find_child(&root, "m");
    let first = m.ops.iter().find(|o| o.name == "OpFirst");
    let second = m.ops.iter().find(|o| o.name == "OpSecond");
    assert!(
        first.is_some_and(|o| o.gpu_ns == 111 && o.count == 1),
        "first lifetime's ops must be attributed once: {:?}",
        m.ops
    );
    assert!(
        second.is_some_and(|o| o.gpu_ns == 222 && o.count == 1),
        "second lifetime's ops must be attributed once: {:?}",
        m.ops
    );
}

/// lazy workloads (ERNIE: 2 mx.eval calls in a whole run) have
/// almost no eval windows, so 99.8 % of GPU time fell to <unscoped>.
/// CBs whose commit matches no eval window must fall back to the
/// innermost open scope/module window instead.
#[test]
fn cb_without_eval_window_attributes_to_innermost_scope() {
    let mut events = vec![
        ev(
            1,
            10_000_000_000,
            Payload::ModuleEntered {
                module_call_id: 1,
                module_def_id: 1,
                qualname: "generate".into(),
                class_name: "scope".into(),
                parent_call_id: None,
                depth: 0,
                fields: Default::default(),
            },
            Source::PythonSidecar,
        ),
        ev(
            2,
            20_000_000_000,
            Payload::ModuleEntered {
                module_call_id: 2,
                module_def_id: 2,
                qualname: "DiT".into(),
                class_name: "M".into(),
                parent_call_id: Some(1),
                depth: 1,
                fields: Default::default(),
            },
            Source::PythonSidecar,
        ),
        ev(
            3,
            21_000_000_000,
            Payload::ModuleReturned { module_call_id: 2 },
            Source::PythonSidecar,
        ),
    ];
    // CB A commits inside the inner DiT window.
    events.extend(cb_lifecycle(10, 20_500_000_000, 0xa, "OpInner", 111));
    // CB B commits later, only the outer scope is open.
    events.extend(cb_lifecycle(20, 50_000_000_000, 0xb, "OpOuter", 222));
    events.push(ev(
        30,
        100_000_000_000,
        Payload::ModuleReturned { module_call_id: 1 },
        Source::PythonSidecar,
    ));
    // CB C commits after every window (+ grace): stays unscoped.
    events.extend(cb_lifecycle(40, 200_000_000_000, 0xc, "OpNowhere", 333));

    let root = compute(&events).unwrap();
    let scope = find_child(&root, "generate");
    let dit = find_child(scope, "DiT");
    assert!(
        dit.ops
            .iter()
            .any(|o| o.name == "OpInner" && o.gpu_ns == 111),
        "inner CB must land on the innermost window: {:?}",
        dit.ops
    );
    assert!(
        scope
            .ops
            .iter()
            .any(|o| o.name == "OpOuter" && o.gpu_ns == 222),
        "outer CB must land on the enclosing scope: {:?}",
        scope.ops
    );
    let diag = root.diagnostics.as_ref().unwrap();
    assert_eq!(diag.unmatched_cb_count, 1, "only CB C stays unscoped");
}

/// Eval windows keep priority: a CB inside both an eval window and a
/// scope window is attributed once, via the eval path.
#[test]
fn eval_window_takes_priority_over_scope_fallback() {
    let mut events = vec![ev(
        1,
        10_000_000_000,
        Payload::ModuleEntered {
            module_call_id: 1,
            module_def_id: 1,
            qualname: "generate".into(),
            class_name: "scope".into(),
            parent_call_id: None,
            depth: 0,
            fields: Default::default(),
        },
        Source::PythonSidecar,
    )];
    events.push(ev(
        2,
        30_000_000_000,
        Payload::MlxEvalEntered {
            call_id: 7,
            array_count: 1,
            stream: "gpu".into(),
            module_stack: vec![1],
            stack_frames: vec![],
        },
        Source::PythonSidecar,
    ));
    events.extend(cb_lifecycle(10, 30_500_000_000, 0xa, "OpEval", 111));
    events.push(ev(
        20,
        31_000_000_000,
        Payload::MlxEvalReturned {
            call_id: 7,
            duration_ns: 1_000_000_000,
            was_async: false,
        },
        Source::PythonSidecar,
    ));
    events.push(ev(
        30,
        100_000_000_000,
        Payload::ModuleReturned { module_call_id: 1 },
        Source::PythonSidecar,
    ));

    let root = compute(&events).unwrap();
    let scope = find_child(&root, "generate");
    let total: u64 = scope.ops.iter().map(|o| o.gpu_ns).sum();
    assert_eq!(total, 111, "attributed exactly once: {:?}", scope.ops);
    assert_eq!(
        scope.eval_count, 1,
        "attribution went through the eval path"
    );
}

/// A window's gpu_ns must be the sum of its CBs' op times (exact), not of their
/// in_flight_ns — overlapping pipelined CBs each count the same wall seconds (6402 s shown for a 330 s run).
#[test]
fn window_gpu_ns_sums_op_times_not_overlapping_in_flight() {
    let mut events = vec![
        ev(
            1,
            50,
            Payload::ModuleEntered {
                module_call_id: 1,
                module_def_id: 1,
                qualname: "m".into(),
                class_name: "M".into(),
                parent_call_id: None,
                depth: 0,
                fields: Default::default(),
            },
            Source::PythonSidecar,
        ),
        ev(
            2,
            100,
            Payload::MlxEvalEntered {
                call_id: 7,
                array_count: 1,
                stream: "gpu".into(),
                module_stack: vec![1],
                stack_frames: vec![],
            },
            Source::PythonSidecar,
        ),
    ];
    // Two deeply-pipelined CBs: in_flight 1000 each (overlapping), but
    // actual op time 111 and 222.
    for (i, (cb_id, op, gpu)) in [(0xa_u64, "OpA", 111_u64), (0xb, "OpB", 222)]
        .into_iter()
        .enumerate()
    {
        let seq = 10 + 10 * i as u64;
        let ts = 110 + i as u64;
        events.push(ev(
            seq,
            ts,
            Payload::MetalCbCommitted {
                cb_id,
                queue_id: 1,
                queue_depth: 2,
                label: None,
            },
            Source::MetalHook,
        ));
        events.push(ev(
            seq + 1,
            ts + 1000,
            Payload::MetalCbCompleted {
                cb_id,
                queue_id: 1,
                status: 4,
                error_code: None,
                error_domain: None,
                in_flight_ns: 1000,
            },
            Source::MetalHook,
        ));
        events.push(ev(
            seq + 2,
            ts + 1001,
            Payload::MetalCbOps {
                cb_id,
                ops: vec![op_sample(op, gpu, 1)],
            },
            Source::MetalHook,
        ));
    }
    events.push(ev(
        40,
        2000,
        Payload::MlxEvalReturned {
            call_id: 7,
            duration_ns: 1900,
            was_async: false,
        },
        Source::PythonSidecar,
    ));
    events.push(ev(
        41,
        2100,
        Payload::ModuleReturned { module_call_id: 1 },
        Source::PythonSidecar,
    ));

    // A third CB with no CbOps (e.g. a blit) in the same window: its
    // overlapped in_flight must not count either.
    events.insert(
        events.len() - 2,
        ev(
            30,
            115,
            Payload::MetalCbCommitted {
                cb_id: 0xc,
                queue_id: 1,
                queue_depth: 3,
                label: None,
            },
            Source::MetalHook,
        ),
    );
    events.insert(
        events.len() - 2,
        ev(
            31,
            1300,
            Payload::MetalCbCompleted {
                cb_id: 0xc,
                queue_id: 1,
                status: 4,
                error_code: None,
                error_domain: None,
                in_flight_ns: 1185,
            },
            Source::MetalHook,
        ),
    );

    let root = compute(&events).unwrap();
    let m = find_child(&root, "m");
    assert_eq!(
        m.gpu_ns_self, 333,
        "window gpu must sum op times (111+222), not in_flight"
    );
    assert_eq!(m.cb_count, 3);
}

fn cb_lifecycle(seq: u64, ts: u64, cb_id: u64, op: &str, gpu_ns: u64) -> Vec<Event> {
    vec![
        ev(
            seq,
            ts,
            Payload::MetalCbCommitted {
                cb_id,
                queue_id: 1,
                queue_depth: 1,
                label: None,
            },
            Source::MetalHook,
        ),
        ev(
            seq + 1,
            ts + 5,
            Payload::MetalCbCompleted {
                cb_id,
                queue_id: 1,
                status: 4,
                error_code: None,
                error_domain: None,
                in_flight_ns: 5,
            },
            Source::MetalHook,
        ),
        ev(
            seq + 2,
            ts + 6,
            Payload::MetalCbOps {
                cb_id,
                ops: vec![op_sample(op, gpu_ns, 1)],
            },
            Source::MetalHook,
        ),
    ]
}

fn find_child<'a>(root: &'a ModuleBreakdown, qualname: &str) -> &'a ModuleBreakdown {
    root.children
        .iter()
        .find(|c| c.qualname == qualname)
        .unwrap_or_else(|| panic!("missing child {qualname}"))
}

#[test]
fn empty_events_errors() {
    let r = compute(&[]);
    assert!(matches!(r, Err(BreakdownError::EmptySession)));
}

#[test]
fn top_level_call_goes_to_unscoped() {
    let evs = vec![
        ev(
            1,
            100,
            Payload::MlxEvalEntered {
                call_id: 1,
                array_count: 1,
                stream: "gpu".into(),
                module_stack: vec![],
                stack_frames: vec![],
            },
            Source::PythonSidecar,
        ),
        ev(
            2,
            110,
            Payload::MetalCbCommitted {
                cb_id: 9,
                queue_id: 1,
                queue_depth: 1,
                label: None,
            },
            Source::MetalHook,
        ),
        ev(
            3,
            120,
            Payload::MetalCbCompleted {
                cb_id: 9,
                queue_id: 1,
                status: 4,
                error_code: None,
                error_domain: None,
                in_flight_ns: 500,
            },
            Source::MetalHook,
        ),
        ev(
            4,
            200,
            Payload::MlxEvalReturned {
                call_id: 1,
                duration_ns: 100,
                was_async: false,
            },
            Source::PythonSidecar,
        ),
    ];
    let r = compute(&evs).unwrap();
    let unscoped = find_child(&r, UNSCOPED);
    assert_eq!(unscoped.gpu_ns_self, 500);
    assert_eq!(r.diagnostics.as_ref().unwrap().unscoped_gpu_ns, 500);
    assert_eq!(unscoped.cb_count, 1);
    assert_eq!(unscoped.eval_count, 1);
}

#[test]
fn single_module_attributes_its_gpu_ns() {
    let evs = vec![
        ev(
            1,
            50,
            Payload::ModuleEntered {
                module_call_id: 1,
                module_def_id: 1,
                qualname: "Linear".into(),
                class_name: "Linear".into(),
                parent_call_id: None,
                depth: 0,
                fields: Default::default(),
            },
            Source::PythonSidecar,
        ),
        ev(
            2,
            100,
            Payload::MlxEvalEntered {
                call_id: 7,
                array_count: 1,
                stream: "gpu".into(),
                module_stack: vec![1],
                stack_frames: vec![],
            },
            Source::PythonSidecar,
        ),
        ev(
            3,
            110,
            Payload::MetalCbCommitted {
                cb_id: 9,
                queue_id: 1,
                queue_depth: 1,
                label: None,
            },
            Source::MetalHook,
        ),
        ev(
            4,
            120,
            Payload::MetalCbCompleted {
                cb_id: 9,
                queue_id: 1,
                status: 4,
                error_code: None,
                error_domain: None,
                in_flight_ns: 700,
            },
            Source::MetalHook,
        ),
        ev(
            5,
            200,
            Payload::MlxEvalReturned {
                call_id: 7,
                duration_ns: 100,
                was_async: false,
            },
            Source::PythonSidecar,
        ),
        ev(
            6,
            210,
            Payload::ModuleReturned { module_call_id: 1 },
            Source::PythonSidecar,
        ),
    ];
    let r = compute(&evs).unwrap();
    let lin = find_child(&r, "Linear");
    assert_eq!(lin.gpu_ns_self, 700);
    assert_eq!(lin.gpu_ns_subtree, 700);
    assert_eq!(lin.eval_count, 1);
    assert_eq!(lin.cb_count, 1);
}

#[test]
fn hierarchy_sums_subtree() {
    let evs = vec![
        ev(
            1,
            10,
            Payload::ModuleEntered {
                module_call_id: 1,
                module_def_id: 1,
                qualname: "Block".into(),
                class_name: "Block".into(),
                parent_call_id: None,
                depth: 0,
                fields: Default::default(),
            },
            Source::PythonSidecar,
        ),
        ev(
            2,
            20,
            Payload::ModuleEntered {
                module_call_id: 2,
                module_def_id: 2,
                qualname: "Linear".into(),
                class_name: "Linear".into(),
                parent_call_id: Some(1),
                depth: 1,
                fields: Default::default(),
            },
            Source::PythonSidecar,
        ),
        ev(
            3,
            100,
            Payload::MlxEvalEntered {
                call_id: 7,
                array_count: 1,
                stream: "gpu".into(),
                module_stack: vec![1, 2],
                stack_frames: vec![],
            },
            Source::PythonSidecar,
        ),
        ev(
            4,
            110,
            Payload::MetalCbCommitted {
                cb_id: 9,
                queue_id: 1,
                queue_depth: 1,
                label: None,
            },
            Source::MetalHook,
        ),
        ev(
            5,
            120,
            Payload::MetalCbCompleted {
                cb_id: 9,
                queue_id: 1,
                status: 4,
                error_code: None,
                error_domain: None,
                in_flight_ns: 1000,
            },
            Source::MetalHook,
        ),
        ev(
            6,
            200,
            Payload::MlxEvalReturned {
                call_id: 7,
                duration_ns: 100,
                was_async: false,
            },
            Source::PythonSidecar,
        ),
        ev(
            7,
            210,
            Payload::ModuleReturned { module_call_id: 2 },
            Source::PythonSidecar,
        ),
        ev(
            8,
            220,
            Payload::ModuleReturned { module_call_id: 1 },
            Source::PythonSidecar,
        ),
    ];
    let r = compute(&evs).unwrap();
    let block = find_child(&r, "Block");
    assert_eq!(block.gpu_ns_self, 0);
    assert_eq!(block.gpu_ns_subtree, 1000);
    let lin = block
        .children
        .iter()
        .find(|c| c.qualname == "Linear")
        .unwrap();
    assert_eq!(lin.gpu_ns_self, 1000);
}

#[test]
fn unmatched_cb_is_unscoped() {
    let evs = vec![
        ev(
            1,
            100,
            Payload::MetalCbCommitted {
                cb_id: 1,
                queue_id: 1,
                queue_depth: 1,
                label: None,
            },
            Source::MetalHook,
        ),
        ev(
            2,
            110,
            Payload::MetalCbCompleted {
                cb_id: 1,
                queue_id: 1,
                status: 4,
                error_code: None,
                error_domain: None,
                in_flight_ns: 42,
            },
            Source::MetalHook,
        ),
    ];
    let r = compute(&evs).unwrap();
    let d = r.diagnostics.as_ref().unwrap();
    assert_eq!(d.unmatched_cb_count, 1);
    assert_eq!(d.unscoped_gpu_ns, 42);
}

#[test]
fn returned_without_entered_is_malformed() {
    let evs = vec![ev(
        1,
        1,
        Payload::ModuleReturned { module_call_id: 99 },
        Source::PythonSidecar,
    )];
    let r = compute(&evs).unwrap();
    assert_eq!(r.diagnostics.as_ref().unwrap().malformed_returns, 1);
}

#[test]
fn entered_without_returned_is_malformed() {
    let evs = vec![ev(
        1,
        1,
        Payload::ModuleEntered {
            module_call_id: 1,
            module_def_id: 1,
            qualname: "X".into(),
            class_name: "X".into(),
            parent_call_id: None,
            depth: 0,
            fields: Default::default(),
        },
        Source::PythonSidecar,
    )];
    let r = compute(&evs).unwrap();
    assert_eq!(r.diagnostics.as_ref().unwrap().malformed_returns, 1);
}

#[test]
fn ops_attribution_to_module_leaf() {
    let evs = vec![
        ev(
            1,
            50,
            Payload::ModuleEntered {
                module_call_id: 1,
                module_def_id: 1,
                qualname: "Block".into(),
                class_name: "Block".into(),
                parent_call_id: None,
                depth: 0,
                fields: Default::default(),
            },
            Source::PythonSidecar,
        ),
        ev(
            2,
            60,
            Payload::ModuleEntered {
                module_call_id: 2,
                module_def_id: 2,
                qualname: "Linear".into(),
                class_name: "Linear".into(),
                parent_call_id: Some(1),
                depth: 1,
                fields: Default::default(),
            },
            Source::PythonSidecar,
        ),
        ev(
            3,
            100,
            Payload::MlxEvalEntered {
                call_id: 7,
                array_count: 1,
                stream: "gpu".into(),
                module_stack: vec![1, 2],
                stack_frames: vec![],
            },
            Source::PythonSidecar,
        ),
        ev(
            4,
            110,
            Payload::MetalCbCommitted {
                cb_id: 9,
                queue_id: 1,
                queue_depth: 1,
                label: None,
            },
            Source::MetalHook,
        ),
        ev(
            5,
            120,
            Payload::MetalCbCompleted {
                cb_id: 9,
                queue_id: 1,
                status: 4,
                error_code: None,
                error_domain: None,
                in_flight_ns: 1000,
            },
            Source::MetalHook,
        ),
        ev(
            6,
            121,
            Payload::MetalCbOps {
                cb_id: 9,
                ops: vec![op_sample("Matmul", 700, 1), op_sample("Softmax", 200, 1)],
            },
            Source::MetalHook,
        ),
        ev(
            7,
            200,
            Payload::MlxEvalReturned {
                call_id: 7,
                duration_ns: 100,
                was_async: false,
            },
            Source::PythonSidecar,
        ),
        ev(
            8,
            210,
            Payload::ModuleReturned { module_call_id: 2 },
            Source::PythonSidecar,
        ),
        ev(
            9,
            220,
            Payload::ModuleReturned { module_call_id: 1 },
            Source::PythonSidecar,
        ),
    ];
    let r = compute(&evs).unwrap();
    let block = find_child(&r, "Block");
    let lin = block
        .children
        .iter()
        .find(|c| c.qualname == "Linear")
        .unwrap();
    assert_eq!(lin.ops.len(), 2);
    assert_eq!(lin.ops[0].name, "Matmul");
    assert_eq!(lin.ops[0].gpu_ns, 700);
    assert_eq!(lin.ops[1].name, "Softmax");
    assert!(block.ops.is_empty(), "ops should not propagate to parent");
}

#[test]
fn ops_under_unscoped() {
    let evs = vec![
        ev(
            1,
            100,
            Payload::MlxEvalEntered {
                call_id: 1,
                array_count: 1,
                stream: "gpu".into(),
                module_stack: vec![],
                stack_frames: vec![],
            },
            Source::PythonSidecar,
        ),
        ev(
            2,
            110,
            Payload::MetalCbCommitted {
                cb_id: 9,
                queue_id: 1,
                queue_depth: 1,
                label: None,
            },
            Source::MetalHook,
        ),
        ev(
            3,
            120,
            Payload::MetalCbCompleted {
                cb_id: 9,
                queue_id: 1,
                status: 4,
                error_code: None,
                error_domain: None,
                in_flight_ns: 500,
            },
            Source::MetalHook,
        ),
        ev(
            4,
            121,
            Payload::MetalCbOps {
                cb_id: 9,
                ops: vec![op_sample("Matmul", 400, 1), op_sample("Cast", 100, 2)],
            },
            Source::MetalHook,
        ),
        ev(
            5,
            200,
            Payload::MlxEvalReturned {
                call_id: 1,
                duration_ns: 100,
                was_async: false,
            },
            Source::PythonSidecar,
        ),
    ];
    let r = compute(&evs).unwrap();
    let u = find_child(&r, UNSCOPED);
    assert_eq!(u.ops.len(), 2);
    assert_eq!(u.ops[0].name, "Matmul");
}

#[test]
fn ops_merge_dedup_by_name_across_cbs() {
    let evs = vec![
        ev(
            1,
            50,
            Payload::ModuleEntered {
                module_call_id: 1,
                module_def_id: 1,
                qualname: "Linear".into(),
                class_name: "Linear".into(),
                parent_call_id: None,
                depth: 0,
                fields: Default::default(),
            },
            Source::PythonSidecar,
        ),
        ev(
            2,
            100,
            Payload::MlxEvalEntered {
                call_id: 7,
                array_count: 1,
                stream: "gpu".into(),
                module_stack: vec![1],
                stack_frames: vec![],
            },
            Source::PythonSidecar,
        ),
        ev(
            3,
            110,
            Payload::MetalCbCommitted {
                cb_id: 9,
                queue_id: 1,
                queue_depth: 1,
                label: None,
            },
            Source::MetalHook,
        ),
        ev(
            4,
            120,
            Payload::MetalCbCompleted {
                cb_id: 9,
                queue_id: 1,
                status: 4,
                error_code: None,
                error_domain: None,
                in_flight_ns: 500,
            },
            Source::MetalHook,
        ),
        ev(
            5,
            121,
            Payload::MetalCbOps {
                cb_id: 9,
                ops: vec![op_sample("Matmul", 300, 1)],
            },
            Source::MetalHook,
        ),
        ev(
            6,
            130,
            Payload::MetalCbCommitted {
                cb_id: 10,
                queue_id: 1,
                queue_depth: 1,
                label: None,
            },
            Source::MetalHook,
        ),
        ev(
            7,
            140,
            Payload::MetalCbCompleted {
                cb_id: 10,
                queue_id: 1,
                status: 4,
                error_code: None,
                error_domain: None,
                in_flight_ns: 200,
            },
            Source::MetalHook,
        ),
        ev(
            8,
            141,
            Payload::MetalCbOps {
                cb_id: 10,
                ops: vec![op_sample("Matmul", 300, 2)],
            },
            Source::MetalHook,
        ),
        ev(
            9,
            200,
            Payload::MlxEvalReturned {
                call_id: 7,
                duration_ns: 100,
                was_async: false,
            },
            Source::PythonSidecar,
        ),
        ev(
            10,
            210,
            Payload::ModuleReturned { module_call_id: 1 },
            Source::PythonSidecar,
        ),
    ];
    let r = compute(&evs).unwrap();
    let lin = find_child(&r, "Linear");
    assert_eq!(lin.ops.len(), 1);
    assert_eq!(lin.ops[0].gpu_ns, 600);
    assert_eq!(lin.ops[0].count, 3);
}

#[test]
fn cb_without_ops_partial_increments_diagnostic() {
    let evs = vec![
        ev(
            1,
            100,
            Payload::MetalCbCommitted {
                cb_id: 1,
                queue_id: 1,
                queue_depth: 1,
                label: None,
            },
            Source::MetalHook,
        ),
        ev(
            2,
            110,
            Payload::MetalCbCompleted {
                cb_id: 1,
                queue_id: 1,
                status: 4,
                error_code: None,
                error_domain: None,
                in_flight_ns: 100,
            },
            Source::MetalHook,
        ),
        ev(
            3,
            111,
            Payload::MetalCbOps {
                cb_id: 1,
                ops: vec![op_sample("Matmul", 80, 1)],
            },
            Source::MetalHook,
        ),
        ev(
            4,
            120,
            Payload::MetalCbCommitted {
                cb_id: 2,
                queue_id: 1,
                queue_depth: 1,
                label: None,
            },
            Source::MetalHook,
        ),
        ev(
            5,
            130,
            Payload::MetalCbCompleted {
                cb_id: 2,
                queue_id: 1,
                status: 4,
                error_code: None,
                error_domain: None,
                in_flight_ns: 50,
            },
            Source::MetalHook,
        ),
        // cb_id 2 has NO MetalCbOps — should be counted
    ];
    let r = compute(&evs).unwrap();
    assert_eq!(r.diagnostics.as_ref().unwrap().ops_cbs_without_samples, 1);
}

#[test]
fn cb_without_ops_legacy_mode_silent() {
    let evs = vec![
        ev(
            1,
            100,
            Payload::MetalCbCommitted {
                cb_id: 1,
                queue_id: 1,
                queue_depth: 1,
                label: None,
            },
            Source::MetalHook,
        ),
        ev(
            2,
            110,
            Payload::MetalCbCompleted {
                cb_id: 1,
                queue_id: 1,
                status: 4,
                error_code: None,
                error_domain: None,
                in_flight_ns: 100,
            },
            Source::MetalHook,
        ),
    ];
    let r = compute(&evs).unwrap();
    assert_eq!(r.diagnostics.as_ref().unwrap().ops_cbs_without_samples, 0);
}

fn sample_breakdown() -> ModuleBreakdown {
    ModuleBreakdown {
        qualname: "<root>".into(),
        class_name: "".into(),
        calls: 0,
        gpu_ns_self: 0,
        gpu_ns_subtree: 1500,
        eval_count: 0,
        cb_count: 0,
        children: vec![ModuleBreakdown {
            qualname: "Block".into(),
            class_name: "Block".into(),
            calls: 1,
            gpu_ns_self: 0,
            gpu_ns_subtree: 1500,
            eval_count: 0,
            cb_count: 0,
            children: vec![ModuleBreakdown {
                qualname: "Linear".into(),
                class_name: "Linear".into(),
                calls: 1,
                gpu_ns_self: 1500,
                gpu_ns_subtree: 1500,
                eval_count: 1,
                cb_count: 1,
                children: vec![],
                ops: vec![],
                diagnostics: None,
                fields: Default::default(),
            }],
            ops: vec![],
            diagnostics: None,
            fields: Default::default(),
        }],
        ops: vec![],
        diagnostics: Some(Diagnostics::default()),
        fields: Default::default(),
    }
}

fn fixture_with_ops(ops: Vec<OpAttribution>) -> ModuleBreakdown {
    ModuleBreakdown {
        qualname: "<root>".into(),
        class_name: "".into(),
        calls: 0,
        gpu_ns_self: 0,
        gpu_ns_subtree: 1500,
        eval_count: 0,
        cb_count: 0,
        children: vec![ModuleBreakdown {
            qualname: "Linear".into(),
            class_name: "Linear".into(),
            calls: 1,
            gpu_ns_self: 1500,
            gpu_ns_subtree: 1500,
            eval_count: 1,
            cb_count: 1,
            children: vec![],
            ops,
            diagnostics: None,
            fields: Default::default(),
        }],
        ops: vec![],
        diagnostics: Some(Diagnostics::default()),
        fields: Default::default(),
    }
}

#[test]
fn render_table_shows_qualnames_and_durations() {
    let s = render_table(&sample_breakdown(), 10, 6, 5, true);
    assert!(s.contains("Block"));
    assert!(s.contains("Linear"));
    assert!(s.contains("1.500")); // 1500 ns formatted as us
}

#[test]
fn render_table_includes_op_lines_by_default() {
    let r = fixture_with_ops(vec![
        OpAttribution {
            name: "Matmul".into(),
            gpu_ns: 1200,
            count: 1,
            symbol: None,
            kind: None,
        },
        OpAttribution {
            name: "Softmax".into(),
            gpu_ns: 300,
            count: 1,
            symbol: None,
            kind: None,
        },
    ]);
    let s = render_table(&r, 10, 6, 5, true);
    assert!(s.contains("Matmul"));
    assert!(s.contains("Softmax"));
    assert!(s.contains("op:"));
}

#[test]
fn render_table_no_ops_flag_hides_them() {
    let r = fixture_with_ops(vec![OpAttribution {
        name: "Matmul".into(),
        gpu_ns: 1200,
        count: 1,
        symbol: None,
        kind: None,
    }]);
    let s = render_table(&r, 10, 6, 5, false);
    assert!(!s.contains("Matmul"));
}

#[test]
fn render_table_top_ops_caps_at_n() {
    let mut ops = Vec::new();
    for i in 0..10u64 {
        ops.push(OpAttribution {
            name: format!("Op{i}"),
            gpu_ns: 1000 - i * 10,
            count: 1,
            symbol: None,
            kind: None,
        });
    }
    let r = fixture_with_ops(ops);
    let s = render_table(&r, 10, 6, 3, true);
    assert!(s.contains("Op0"));
    assert!(s.contains("Op2"));
    assert!(!s.contains("Op3"));
}

#[test]
fn render_chrome_trace_is_valid_json_with_complete_events() {
    let json = render_chrome_trace(&sample_breakdown());
    let parsed: serde_json::Value = serde_json::from_str(&json).unwrap();
    let arr = parsed["traceEvents"].as_array().unwrap();
    assert!(arr.iter().any(|e| e["name"] == "Linear" && e["ph"] == "X"));
    assert_eq!(parsed["displayTimeUnit"], "us");
}

#[test]
fn render_chrome_trace_includes_op_events() {
    let r = fixture_with_ops(vec![OpAttribution {
        name: "Matmul".into(),
        gpu_ns: 1000,
        count: 1,
        symbol: None,
        kind: None,
    }]);
    let json = render_chrome_trace(&r);
    let parsed: serde_json::Value = serde_json::from_str(&json).unwrap();
    let arr = parsed["traceEvents"].as_array().unwrap();
    assert!(arr
        .iter()
        .any(|e| e["name"] == "Matmul" && e["cat"] == "op"));
}

#[test]
fn render_ops_flat_groups_by_name() {
    let root = ModuleBreakdown {
        qualname: "<root>".into(),
        class_name: "".into(),
        calls: 0,
        gpu_ns_self: 0,
        gpu_ns_subtree: 3000,
        eval_count: 0,
        cb_count: 0,
        children: vec![
            ModuleBreakdown {
                qualname: "A".into(),
                class_name: "A".into(),
                calls: 1,
                gpu_ns_self: 1500,
                gpu_ns_subtree: 1500,
                eval_count: 1,
                cb_count: 1,
                children: vec![],
                ops: vec![OpAttribution {
                    name: "Matmul".into(),
                    gpu_ns: 1000,
                    count: 1,
                    symbol: None,
                    kind: None,
                }],
                diagnostics: None,
                fields: Default::default(),
            },
            ModuleBreakdown {
                qualname: "B".into(),
                class_name: "B".into(),
                calls: 1,
                gpu_ns_self: 1500,
                gpu_ns_subtree: 1500,
                eval_count: 1,
                cb_count: 1,
                children: vec![],
                ops: vec![
                    OpAttribution {
                        name: "Matmul".into(),
                        gpu_ns: 500,
                        count: 2,
                        symbol: None,
                        kind: None,
                    },
                    OpAttribution {
                        name: "Softmax".into(),
                        gpu_ns: 200,
                        count: 1,
                        symbol: None,
                        kind: None,
                    },
                ],
                diagnostics: None,
                fields: Default::default(),
            },
        ],
        ops: vec![],
        diagnostics: Some(Diagnostics::default()),
        fields: Default::default(),
    };
    let s = render_ops_flat(&root, OpGroupBy::Name, 10);
    assert!(s.contains("Matmul"));
    assert!(s.contains("1.500")); // 1500 ns formatted as us → "1.500"
    assert!(s.contains("Softmax"));
}

#[test]
fn render_ops_flat_groups_by_kind() {
    // Two ops with different kernel names but the same kind "Matmul".
    // In Kind mode they should collapse into a single "Matmul" row and
    // the individual kernel names must not appear in the output.
    let root = ModuleBreakdown {
        qualname: "<root>".into(),
        class_name: "".into(),
        calls: 0,
        gpu_ns_self: 0,
        gpu_ns_subtree: 1500,
        eval_count: 0,
        cb_count: 0,
        children: vec![
            ModuleBreakdown {
                qualname: "A".into(),
                class_name: "A".into(),
                calls: 1,
                gpu_ns_self: 800,
                gpu_ns_subtree: 800,
                eval_count: 1,
                cb_count: 1,
                children: vec![],
                ops: vec![OpAttribution {
                    name: "gemm_kernel_0".into(),
                    gpu_ns: 800,
                    count: 1,
                    symbol: Some("gemm_kernel_0".into()),
                    kind: Some("Matmul".into()),
                }],
                diagnostics: None,
                fields: Default::default(),
            },
            ModuleBreakdown {
                qualname: "B".into(),
                class_name: "B".into(),
                calls: 1,
                gpu_ns_self: 700,
                gpu_ns_subtree: 700,
                eval_count: 1,
                cb_count: 1,
                children: vec![],
                ops: vec![OpAttribution {
                    name: "gemm_kernel_1".into(),
                    gpu_ns: 700,
                    count: 2,
                    symbol: Some("gemm_kernel_1".into()),
                    kind: Some("Matmul".into()),
                }],
                diagnostics: None,
                fields: Default::default(),
            },
        ],
        ops: vec![],
        diagnostics: Some(Diagnostics::default()),
        fields: Default::default(),
    };
    let s = render_ops_flat(&root, OpGroupBy::Kind, 10);
    assert!(s.contains("Matmul"), "Kind row 'Matmul' must appear");
    assert!(
        !s.contains("gemm_kernel_0"),
        "individual kernel name must not appear in Kind mode"
    );
    assert!(
        !s.contains("gemm_kernel_1"),
        "individual kernel name must not appear in Kind mode"
    );
}

#[test]
fn aggregate_ops_flat_by_kind_collapses_kernels() {
    // Build a root with two matmul-kind ops (different names/symbols) + one other.
    let root = ModuleBreakdown {
        qualname: "root".into(),
        class_name: String::new(),
        calls: 0,
        gpu_ns_self: 0,
        gpu_ns_subtree: 0,
        eval_count: 0,
        cb_count: 0,
        ops: vec![
            OpAttribution {
                name: "gemm_a".into(),
                gpu_ns: 100,
                count: 1,
                symbol: Some("gemm_a".into()),
                kind: Some("Matmul".into()),
            },
            OpAttribution {
                name: "gemm_b".into(),
                gpu_ns: 50,
                count: 2,
                symbol: Some("gemm_b".into()),
                kind: Some("Matmul".into()),
            },
            OpAttribution {
                name: "K_ff00".into(),
                gpu_ns: 30,
                count: 1,
                symbol: None,
                kind: None,
            },
        ],
        children: vec![],
        diagnostics: None,
        fields: Default::default(),
    };

    let kind_rows = aggregate_ops_flat(&root, OpGroupBy::Kind);
    let mm = kind_rows
        .iter()
        .find(|r| r.key == "Matmul")
        .expect("Matmul row");
    assert_eq!(mm.gpu_ns, 150);
    assert_eq!(mm.count, 3);
    assert!(mm.symbol.is_none(), "kind mode drops symbol");
    // unresolved kernel falls back to its name as its own row
    assert!(kind_rows.iter().any(|r| r.key == "K_ff00"));

    let by_name = aggregate_ops_flat(&root, OpGroupBy::Name);
    assert!(by_name.iter().any(|r| r.key == "gemm_a"));
    assert!(by_name.iter().any(|r| r.key == "gemm_b"));
    // sorted desc by gpu_ns
    assert!(by_name.windows(2).all(|w| w[0].gpu_ns >= w[1].gpu_ns));
}

#[test]
fn compute_propagates_fields_into_module_breakdown() {

    let fields = vec![
        ("kind".to_string(), FieldValue::String("matmul".into())),
        ("layer".to_string(), FieldValue::Int(3)),
    ];

    let events = vec![
        Event {
            ts_mono_ns: 1_000_000,
            ts_wall_ns: 0,
            session_id: Uuid::nil(),
            source: Source::PythonSidecar,
            pid: None,
            seq: 1,
            payload: Payload::ModuleEntered {
                module_call_id: 1,
                module_def_id: 0,
                qualname: "forward".into(),
                class_name: "Scope".into(),
                parent_call_id: None,
                depth: 0,
                fields,
            },
        },
        Event {
            ts_mono_ns: 2_000_000,
            ts_wall_ns: 0,
            session_id: Uuid::nil(),
            source: Source::PythonSidecar,
            pid: None,
            seq: 2,
            payload: Payload::ModuleReturned { module_call_id: 1 },
        },
    ];
    let root = compute(&events).unwrap();
    let forward = root
        .children
        .iter()
        .find(|c| c.qualname == "forward")
        .expect("forward child");
    assert_eq!(field(forward, "layer"), Some(&FieldValue::Int(3)));
    assert_eq!(
        field(forward, "kind"),
        Some(&FieldValue::String("matmul".into()))
    );
}

fn field<'a>(node: &'a ModuleBreakdown, key: &str) -> Option<&'a FieldValue> {
    node.fields.iter().find(|f| f.0 == key).map(|f| &f.1)
}

fn leaf_with_ops(qualname: &str, ops: Vec<OpAttribution>) -> ModuleBreakdown {
    ModuleBreakdown {
        qualname: qualname.into(),
        class_name: String::new(),
        calls: 1,
        gpu_ns_self: 0,
        gpu_ns_subtree: 0,
        eval_count: 0,
        cb_count: 0,
        children: vec![],
        ops,
        diagnostics: None,
        fields: Default::default(),
    }
}

#[test]
fn apply_op_group_by_kind_regroups_each_node() {
    // Build a parent with a child; both have matmul kernels + one unresolved.
    let mut root = leaf_with_ops(
        "root",
        vec![
            OpAttribution {
                name: "gemm_a".into(),
                gpu_ns: 100,
                count: 1,
                symbol: Some("gemm_a".into()),
                kind: Some("Matmul".into()),
            },
            OpAttribution {
                name: "gemm_b".into(),
                gpu_ns: 50,
                count: 2,
                symbol: Some("gemm_b".into()),
                kind: Some("Matmul".into()),
            },
            OpAttribution {
                name: "K_ff00".into(),
                gpu_ns: 30,
                count: 1,
                symbol: None,
                kind: None,
            },
        ],
    );
    let child = leaf_with_ops(
        "child",
        vec![OpAttribution {
            name: "gemm_c".into(),
            gpu_ns: 10,
            count: 1,
            symbol: Some("gemm_c".into()),
            kind: Some("Matmul".into()),
        }],
    );
    root.children.push(child);

    apply_op_group_by(&mut root, OpGroupBy::Kind);

    let mm = root
        .ops
        .iter()
        .find(|o| o.name == "Matmul")
        .expect("Matmul row");
    assert_eq!(mm.gpu_ns, 150);
    assert_eq!(mm.count, 3);
    assert!(mm.symbol.is_none());
    assert!(root.ops.iter().any(|o| o.name == "K_ff00")); // fallback row kept
                                                          // descending sort: Matmul (150) before K_ff00 (30)
    assert!(root.ops[0].gpu_ns >= root.ops[root.ops.len() - 1].gpu_ns);
    // child node regrouped too
    assert_eq!(root.children[0].ops.len(), 1);
    assert_eq!(root.children[0].ops[0].name, "Matmul");
}

#[test]
fn apply_op_group_by_name_is_noop() {
    let mut root = leaf_with_ops(
        "root",
        vec![OpAttribution {
            name: "gemm_a".into(),
            gpu_ns: 100,
            count: 1,
            symbol: Some("gemm_a".into()),
            kind: Some("Matmul".into()),
        }],
    );
    let before = root.ops.clone();
    apply_op_group_by(&mut root, OpGroupBy::Name);
    assert_eq!(root.ops, before);
}

#[test]
fn compute_distinguishes_siblings_by_fields() {

    let make_pass = |seq: u64, ts: u64, cid: u64, idx: i64| Event {
        ts_mono_ns: ts,
        ts_wall_ns: 0,
        session_id: Uuid::nil(),
        source: Source::PythonSidecar,
        pid: None,
        seq,
        payload: Payload::ModuleEntered {
            module_call_id: cid,
            module_def_id: 0,
            qualname: "inner.pass".into(),
            class_name: "Scope".into(),
            parent_call_id: None,
            depth: 0,
            fields: vec![("pass_idx".to_string(), FieldValue::Int(idx))],
        },
    };
    let ret = |seq: u64, ts: u64, cid: u64| Event {
        ts_mono_ns: ts,
        ts_wall_ns: 0,
        session_id: Uuid::nil(),
        source: Source::PythonSidecar,
        pid: None,
        seq,
        payload: Payload::ModuleReturned {
            module_call_id: cid,
        },
    };

    let events = vec![
        make_pass(1, 100, 1, 0),
        ret(2, 200, 1),
        make_pass(3, 300, 2, 1),
        ret(4, 400, 2),
        make_pass(5, 500, 3, 2),
        ret(6, 600, 3),
    ];
    let root = compute(&events).unwrap();
    let passes: Vec<&ModuleBreakdown> = root
        .children
        .iter()
        .filter(|c| c.qualname == "inner.pass")
        .collect();
    assert_eq!(passes.len(), 3, "three sibling inner.pass nodes");
    let idxs: Vec<&FieldValue> = passes
        .iter()
        .map(|p| field(p, "pass_idx").expect("pass_idx present"))
        .collect();
    assert!(idxs.contains(&&FieldValue::Int(0)));
    assert!(idxs.contains(&&FieldValue::Int(1)));
    assert!(idxs.contains(&&FieldValue::Int(2)));
}
