//! The laws of the library on concrete sessions.

use smeltr::breakdown::{compute, try_compute, ModuleBreakdown, OpAttribution};
use smeltr::breakdown_text::{render_chrome_trace, trace_time_fits};
use smeltr::budget::over_budget_windows;
use smeltr::diff::{can_diff_memory, can_diff_origins, can_diff_sessions, diff_origins, diff_sessions};
use smeltr::dispatch_origins::{compute_dispatch_origins, try_dispatch_origins};
use smeltr::double::quotient;
use smeltr::event::{
    Event, OpSample, Payload, ProcEntry, SessionKind, SessionMetadata, Source, StackFrame, Uuid,
};
use smeltr::export::{can_trace, to_chrome_trace, Phase};
use smeltr::memory::{compute_heap_breakdown, live_heaps_fit};
use smeltr::op_clamp::{apply_op_time_scales, can_clamp, compute_op_time_scales};
use smeltr::op_tables::{
    aggregate_ops_flat, apply_op_group_by, can_group, kernels_fit, regroup_ops_by_kind, OpGroupBy,
};
use smeltr::rule::{all_rules, Rule};
use smeltr::rules::lazy_eval_attribution;
use smeltr::rules::mlx_timing::MlxTimingRule;
use smeltr::rules::queue_depth::QueueDepthRule;
use smeltr::rules::queue_pressure::QueuePressureRule;
use smeltr::rules::sidecar_absent::{detect, detect_nothing_instrumented};
use smeltr::rules::system_pressure::SystemPressureRule;

/// Builds a session event by event.
struct Stream(Vec<Event>);

impl Stream {
    fn at(&mut self, ts: u64, payload: Payload) -> &mut Self {
        let seq = self.0.len() as u64 + 1;
        self.0.push(Event {
            ts_mono_ns: ts,
            ts_wall_ns: ts,
            session_id: Uuid::nil(),
            source: Source::MetalHook,
            pid: None,
            seq,
            payload,
        });
        self
    }

    fn enter(&mut self, ts: u64, id: u64, parent: Option<u64>, name: &str) -> &mut Self {
        self.at(
            ts,
            Payload::ModuleEntered {
                module_call_id: id,
                module_def_id: 0,
                qualname: name.into(),
                class_name: "Scope".into(),
                parent_call_id: parent,
                depth: 0,
                fields: vec![],
            },
        )
    }

    /// A command buffer that was never seen scheduled, so that no window clamps it.
    fn unclamped(&mut self, ts: u64, id: u64, symbol: &str, ns: u64) -> &mut Self {
        let from = self.0.len();
        self.buffer(ts, id, 5, &[(symbol, ns)]);
        self.0.remove(from + 1);
        self
    }

    fn leave(&mut self, ts: u64, id: u64) -> &mut Self {
        self.at(ts, Payload::ModuleReturned { module_call_id: id })
    }

    fn buffer(&mut self, ts: u64, id: u64, window: u64, ops: &[(&str, u64)]) -> &mut Self {
        self.at(
            ts,
            Payload::MetalCbCommitted {
                cb_id: id,
                queue_id: 1,
                queue_depth: 1,
                label: None,
            },
        )
        .at(ts, Payload::MetalCbScheduled { cb_id: id, queue_id: 1 })
        .at(
            ts + window,
            Payload::MetalCbCompleted {
                cb_id: id,
                queue_id: 1,
                status: 4,
                error_code: None,
                error_domain: None,
                in_flight_ns: window,
            },
        )
        .at(
            ts + window,
            Payload::MetalCbOps {
                cb_id: id,
                ops: ops
                    .iter()
                    .map(|(symbol, ns)| OpSample {
                        name: format!("K_{symbol}"),
                        symbol: Some(symbol.to_string()),
                        gpu_ns: *ns,
                        count: 1,
                    })
                    .collect(),
            },
        )
    }
}

/// Three modules, four command buffers, one of them outside every module.
fn session() -> Vec<Event> {
    let mut s = Stream(vec![]);
    s.enter(100, 1, None, "model")
        .enter(110, 2, Some(1), "block")
        .buffer(120, 7, 30, &[("gemm_a", 20), ("softmax_b", 15)])
        .buffer(160, 8, 40, &[("gemm_a", 30)])
        .leave(210, 2)
        .enter(220, 3, Some(1), "head")
        .buffer(230, 7, 50, &[("gemm_c", 33), ("gemm_a", 33), ("copy_x", 34)])
        .leave(290, 3)
        .leave(300, 1)
        .buffer(2_000_000_000, 9, 10, &[("arange_d", 4)]);
    s.0
}

fn own_time(n: &ModuleBreakdown) -> u64 {
    n.gpu_ns_self + n.children.iter().map(own_time).sum::<u64>()
}

/// What the kernels of a session take, once clamped.
fn clamped(events: &[Event]) -> u64 {
    let scales = compute_op_time_scales(events);
    events
        .iter()
        .map(|e| match &e.payload {
            Payload::MetalCbOps { ops, .. } => ops
                .iter()
                .map(|o| scales.scaled_gpu_ns(e.seq, o.gpu_ns))
                .sum(),
            _ => 0,
        })
        .sum()
}

#[test]
fn gpu_time_is_conserved() {
    let events = session();
    let root = compute(&events).unwrap();
    assert_eq!(own_time(&root), clamped(&events));
    assert_eq!(root.gpu_ns_subtree, clamped(&events));
    fn buffers(n: &ModuleBreakdown) -> u64 {
        n.cb_count + n.children.iter().map(buffers).sum::<u64>()
    }
    assert_eq!(root.children.iter().map(buffers).sum::<u64>(), 4);
    assert_eq!(root.diagnostics.unwrap().unscoped_gpu_ns, 4);
}

/// Clamped kernels stay within their window and fill it but for fractions; all
/// together they stay within the wall clock.
#[test]
fn attributed_time_is_within_the_wall_clock() {
    let events = session();
    let scales = compute_op_time_scales(&events);
    assert_eq!(scales.clamped_cb_count(), 2);
    for e in &events {
        if let Payload::MetalCbOps { ops, .. } = &e.payload {
            let raw: u64 = ops.iter().map(|o| o.gpu_ns).sum();
            let sum: u64 = ops.iter().map(|o| scales.scaled_gpu_ns(e.seq, o.gpu_ns)).sum();
            let window = match e.ts_mono_ns {
                150 => 30,
                200 => 40,
                280 => 50,
                _ => 10,
            };
            assert!(sum <= window, "{sum} > {window}");
            if raw > window {
                assert!(sum + ops.len() as u64 >= window, "{sum} < {window}");
            }
            for o in ops {
                assert!(scales.scaled_gpu_ns(e.seq, o.gpu_ns) <= o.gpu_ns);
            }
        }
    }
    let wall = events.last().unwrap().ts_mono_ns - events[0].ts_mono_ns;
    assert!(clamped(&events) <= wall);
    assert!(compute(&events).unwrap().gpu_ns_subtree <= wall);
}

#[test]
fn a_session_does_not_differ_from_itself() {
    let a = session();
    let d = diff_sessions(&a, &a);
    assert!(!d.scope_deltas.is_empty() && !d.op_deltas.is_empty());
    assert!(d.scope_deltas.iter().all(|x| x.delta_ns == 0 && x.a_gpu_ns == x.b_gpu_ns));
    assert!(d.op_deltas.iter().all(|x| x.delta_ns == 0));
    assert!(d.scopes_only_in_a.is_empty() && d.scopes_only_in_b.is_empty());
}

#[test]
fn swapping_sessions_mirrors_their_difference() {
    let a = session();
    let mut other = Stream(vec![]);
    other
        .enter(100, 1, None, "model")
        .enter(110, 2, Some(1), "tail")
        .buffer(120, 7, 30, &[("gemm_a", 12)])
        .leave(210, 2)
        .leave(220, 1);
    let b = other.0;
    let (d, e) = (diff_sessions(&a, &b), diff_sessions(&b, &a));
    assert_eq!(d.scopes_only_in_a, e.scopes_only_in_b);
    assert_eq!(d.scopes_only_in_b, e.scopes_only_in_a);
    assert!(d.scopes_only_in_b.iter().any(|s| s.qualname.contains("tail")));
    for x in &d.scope_deltas {
        let y = e.scope_deltas.iter().find(|y| y.qualname == x.qualname).unwrap();
        assert_eq!((x.a_gpu_ns, x.b_gpu_ns), (y.b_gpu_ns, y.a_gpu_ns));
        assert_eq!(x.delta_ns, -y.delta_ns);
    }
    assert_eq!(d.op_deltas.len(), e.op_deltas.len());
    for x in &d.op_deltas {
        let y = e.op_deltas.iter().find(|y| y.kind == x.kind).unwrap();
        assert_eq!((x.a_gpu_ns, x.b_gpu_ns), (y.b_gpu_ns, y.a_gpu_ns));
        assert_eq!(x.delta_ns, -y.delta_ns);
    }
    assert_eq!((d.op_deltas[0].kind.as_str(), d.op_deltas[0].delta_ns), ("Matmul", -94));
    assert!(can_diff_sessions(&a) && can_diff_memory(&a) && can_diff_origins(&a));
}

/// Kernels whose command buffer was never seen count where they arrive.
#[test]
fn stray_kernels_have_an_origin() {
    let mut s = Stream(vec![]);
    s.at(
        10,
        Payload::MlxEvalEntered {
            call_id: 1,
            array_count: 1,
            stream: "gpu".into(),
            module_stack: vec![],
            stack_frames: vec![StackFrame {
                filename: "/w/a.py".into(),
                lineno: 3,
                funcname: "f".into(),
            }],
        },
    )
    .at(
        15,
        Payload::MetalCbOps {
            cb_id: 1,
            ops: vec![OpSample {
                name: "K".into(),
                symbol: None,
                gpu_ns: 5,
                count: 2,
            }],
        },
    )
    .buffer(16, 2, 2, &[("gemm_a", 2)])
    .at(
        20,
        Payload::MlxEvalReturned {
            call_id: 1,
            duration_ns: 10,
            was_async: false,
        },
    );
    let out = compute_dispatch_origins(&s.0);
    assert_eq!(out.len(), 2);
    assert_eq!((out[0].kind.as_str(), out[0].gpu_ns, out[0].dispatch_count), ("K", 5, 2));
    assert_eq!(out[0].file_line, "a.py:3");
    assert_eq!(out.iter().map(|o| o.gpu_ns).sum::<u64>(), 7);
    let d = diff_origins(&s.0, &s.0);
    assert!(d.iter().all(|x| x.delta_ns == 0));
    // The tree of modules has no place for them.
    let root = compute(&s.0).unwrap();
    assert_eq!(own_time(&root), 2);
}

#[test]
fn grouping_keeps_totals() {
    let mut root = compute(&session()).unwrap();
    let total = |rows: &[smeltr::OpFlatRow]| rows.iter().map(|r| r.gpu_ns).sum::<u64>();
    let names = aggregate_ops_flat(&root, OpGroupBy::Name);
    let kinds = aggregate_ops_flat(&root, OpGroupBy::Kind);
    assert_eq!(total(&names), total(&kinds));
    assert!(kinds.windows(2).all(|w| w[0].gpu_ns > w[1].gpu_ns
        || (w[0].gpu_ns == w[1].gpu_ns && w[0].key < w[1].key)));
    assert_eq!(kinds[0].key, "Matmul");
    apply_op_group_by(&mut root, OpGroupBy::Kind);
    assert_eq!(total(&aggregate_ops_flat(&root, OpGroupBy::Kind)), total(&kinds));
    let ops = root.children[0].ops.clone();
    assert_eq!(
        regroup_ops_by_kind(&ops).iter().map(|o| o.gpu_ns).sum::<u64>(),
        ops.iter().map(|o| o.gpu_ns).sum::<u64>()
    );
    assert!(trace_time_fits(&root));
}

#[test]
fn what_does_not_fit_is_told() {
    let rule = lazy_eval_attribution::LazyEvalAttributionRule;
    let mut s = Stream(vec![]);
    s.buffer(1, 1, 5, &[("a", u64::MAX), ("b", 1)]);
    assert!(!can_clamp(&s.0));
    assert!(try_compute(&s.0).is_none());
    assert!(try_dispatch_origins(&s.0).is_none());
    assert!(!can_diff_sessions(&s.0) && !can_diff_origins(&s.0));
    assert!(!rule.can_check(&s.0));
    let mut t = Stream(vec![]);
    t.unclamped(1, 1, "a", u64::MAX).unclamped(10, 2, "b", 1);
    assert!(can_clamp(&t.0));
    assert!(try_compute(&t.0).is_none());
    assert!(!can_diff_sessions(&t.0));
    assert!(!rule.can_check(&t.0));
    assert!(can_clamp(&session()) && rule.can_check(&session()));
    assert!(try_compute(&session()).unwrap().is_ok());
    assert_eq!(
        try_compute(&[]).unwrap().unwrap_err().message(),
        "session contains no events"
    );
    let heap = |id: u64, size: u64| Payload::MetalHeapAlloc {
        heap_id: id,
        size_bytes: size,
        label: None,
    };
    let mut h = Stream(vec![]);
    h.at(1, heap(1, u64::MAX)).at(2, heap(2, 1));
    assert!(!live_heaps_fit(&h.0));
    assert!(can_trace(&session()));
}

/// Only the sums that are formed have to fit, each for itself.
#[test]
fn large_sums_are_taken() {
    let mut s = Stream(vec![]);
    s.buffer(1, 1, 5, &[("a", u64::MAX)]).buffer(10, 2, 5, &[("b", 1)]);
    assert_eq!(compute(&s.0).unwrap().gpu_ns_subtree, 6);
    let part = 5u64 << 60;
    let three = |symbols: [&str; 3]| {
        let mut s = Stream(vec![]);
        for (i, symbol) in symbols.iter().enumerate() {
            let (id, ts) = (i as u64, 100 * i as u64);
            s.enter(ts, id, None, &format!("m{i}"))
                .unclamped(ts + 10, id, symbol, part)
                .leave(ts + 50, id);
        }
        s.0
    };
    let apart = three(["x", "y", "z"]);
    let root = try_compute(&apart).unwrap().unwrap();
    assert_eq!(root.gpu_ns_subtree, 3 * part);
    assert!(root.gpu_ns_subtree > i64::MAX as u64);
    assert!(lazy_eval_attribution::LazyEvalAttributionRule.can_check(&apart));
    assert!(lazy_eval_attribution::detect(&apart).is_none());
    assert!(can_diff_sessions(&apart) && can_diff_origins(&apart));
    let d = diff_sessions(&apart, &apart);
    assert_eq!((d.scope_deltas.len(), d.op_deltas.len()), (3, 3));
    assert!(d.scope_deltas.iter().all(|x| x.a_gpu_ns == part && x.delta_ns == 0));
    assert_eq!(compute_dispatch_origins(&apart).len(), 3);
    assert!(kernels_fit(&root, OpGroupBy::Kind));
    // One kind over all modules can be added up, but has no signed difference.
    let same = three(["x", "x", "x"]);
    assert_eq!(aggregate_ops_flat(&compute(&same).unwrap(), OpGroupBy::Name)[0].gpu_ns, 3 * part);
    assert!(!can_diff_sessions(&same));
}

fn kernel(name: &str, gpu_ns: u64, kind: Option<&str>) -> OpAttribution {
    OpAttribution {
        name: name.into(),
        gpu_ns,
        count: 1,
        symbol: Some(name.to_lowercase()),
        kind: kind.map(String::from),
    }
}

#[test]
fn regrouping_ignores_order_and_settles() {
    let ops = vec![
        kernel("A", 10, Some("Matmul")),
        kernel("Matmul", 4, None),
        kernel("B", 6, Some("Softmax")),
        kernel("C", 10, Some("Matmul")),
        kernel("D", 6, None),
    ];
    let once = regroup_ops_by_kind(&ops);
    let rows: Vec<_> = once
        .iter()
        .map(|o| (o.name.as_str(), o.gpu_ns, o.count, o.kind.as_deref()))
        .collect();
    assert_eq!(
        rows,
        [("Matmul", 24, 3, Some("Matmul")), ("D", 6, 1, None), ("Softmax", 6, 1, Some("Softmax"))]
    );
    assert!(once.iter().all(|o| o.symbol.is_none()));
    let turned: Vec<_> = ops.iter().rev().cloned().collect();
    assert_eq!(regroup_ops_by_kind(&turned), once);
    assert_eq!(regroup_ops_by_kind(&once), once);
}

#[test]
fn grouping_a_tree_twice_changes_nothing() {
    let mut root = compute(&session()).unwrap();
    assert!(can_group(&root));
    let before = compute(&session()).unwrap();
    apply_op_group_by(&mut root, OpGroupBy::Kind);
    let sum = |n: &ModuleBreakdown| n.ops.iter().map(|o| o.gpu_ns).sum::<u64>();
    let same_sums = before.children.iter().zip(&root.children).all(|(a, b)| {
        sum(a) == sum(b) && a.gpu_ns_subtree == b.gpu_ns_subtree && a.qualname == b.qualname
    });
    assert!(same_sums);
    let mut once = compute(&session()).unwrap();
    apply_op_group_by(&mut once, OpGroupBy::Kind);
    assert!(can_group(&root));
    apply_op_group_by(&mut root, OpGroupBy::Kind);
    assert_eq!(root, once);
    assert_ne!(root, before);
}

#[test]
fn clamping_settles() {
    let mut s = Stream(vec![]);
    s.buffer(100, 1, 30, &[("a", 40), ("b", 20)]).buffer(200, 2, 30, &[("a", 10)]);
    let mut events = s.0;
    let scales = compute_op_time_scales(&events);
    assert_eq!(scales.clamped_cb_count(), 1);
    apply_op_time_scales(&mut events, &scales);
    let times: Vec<u64> = events
        .iter()
        .flat_map(|e| match &e.payload {
            Payload::MetalCbOps { ops, .. } => ops.iter().map(|o| o.gpu_ns).collect(),
            _ => vec![],
        })
        .collect();
    assert_eq!(times, [20, 10, 10]);
    assert_eq!(compute_op_time_scales(&events).clamped_cb_count(), 0);
}

#[test]
fn live_bytes_are_the_sizes_of_live_heaps() {
    let heap = |id: u64, size: u64| Payload::MetalHeapAlloc {
        heap_id: id,
        size_bytes: size,
        label: None,
    };
    let mut s = Stream(vec![]);
    s.enter(1, 1, None, "a")
        .at(2, heap(1, 100))
        .at(3, heap(2, 50))
        .at(4, Payload::MetalHeapFree { heap_id: 1 })
        .at(5, heap(3, 70))
        .leave(6, 1);
    let out = compute_heap_breakdown(&s.0);
    assert_eq!(out.len(), 1);
    assert_eq!((out[0].peak_heap_count, out[0].peak_heap_bytes), (2, 150));
}

fn metadata() -> SessionMetadata {
    SessionMetadata {
        session_id: Uuid::nil(),
        kind: SessionKind::Ambient,
        name: None,
        host: String::new(),
        started_rfc3339: String::new(),
        ended_rfc3339: None,
        exit_code: None,
        term_signal: None,
        scope_token: None,
    }
}

#[test]
fn a_trace_opens_with_its_lanes() {
    for events in [vec![], session()] {
        let meta = metadata();
        let t = to_chrome_trace(&events, &meta).trace_events;
        assert!(t.len() >= 4);
        assert!(t[..4].iter().all(|e| e.phase == Phase::Metadata && e.name == "process_name"));
    }
}

#[test]
fn timing_findings_are_few() {
    let mut s = Stream(vec![]);
    for i in 0..50u64 {
        s.at(
            i * 10,
            Payload::MlxEvalReturned {
                call_id: i,
                duration_ns: i,
                was_async: false,
            },
        );
    }
    s.at(
        1_000,
        Payload::MetalCbCompleted {
            cb_id: 1,
            queue_id: 1,
            status: 5,
            error_code: Some(14),
            error_domain: None,
            in_flight_ns: 0,
        },
    );
    assert!(MlxTimingRule.can_check(&s.0));
    assert_eq!(MlxTimingRule.check(&s.0).len(), 6);
    assert!(all_rules().iter().all(|r| r.can_check(&s.0)));
}

/// One of the two rules on queues speaks at most.
#[test]
fn queue_rules_exclude_each_other() {
    let deep = |n: u64| {
        let mut s = Stream(vec![]);
        for i in 0..n {
            s.at(
                i,
                Payload::MetalCbCommitted {
                    cb_id: i,
                    queue_id: 1,
                    queue_depth: 60,
                    label: None,
                },
            );
        }
        s
    };
    let mut crashed = deep(100);
    crashed.at(
        1_000,
        Payload::MetalCbCompleted {
            cb_id: 1,
            queue_id: 1,
            status: 5,
            error_code: Some(14),
            error_domain: None,
            in_flight_ns: 0,
        },
    );
    for s in [deep(100).0, crashed.0] {
        assert!(QueueDepthRule.check(&s).is_empty() || QueuePressureRule.check(&s).is_empty());
    }
}

#[test]
fn one_finding_per_process() {
    let top = |cpu: f32| Payload::ProcTop {
        top: vec![
            ProcEntry {
                pid: 1,
                name: "ReportCrash".into(),
                cpu_pct: cpu.to_bits(),
            },
            ProcEntry {
                pid: 2,
                name: "python".into(),
                cpu_pct: 99f32.to_bits(),
            },
        ],
        flagged: vec![],
    };
    let mut s = Stream(vec![]);
    s.at(1, top(20.0)).at(2, top(30.0)).at(3, top(25.0));
    assert_eq!(SystemPressureRule.check(&s.0).len(), 1);
}

#[test]
fn the_shapes_of_absence_are_exclusive() {
    let mut hooked = Stream(vec![]);
    for i in 0..200u64 {
        hooked.buffer(1_000 * i, i, 10, &[("a", 5)]);
    }
    for s in [vec![], session(), hooked.0] {
        assert!(detect(&s).is_none() || detect_nothing_instrumented(&s).is_none());
    }
}

/// The time that goes to nobody is a part of the whole.
#[test]
fn the_lazy_gap_is_a_share() {
    if let Some(gap) = lazy_eval_attribution::detect(&session()) {
        assert!(gap.gap_gpu_ns <= gap.total_gpu_ns);
    }
    let mut s = Stream(vec![]);
    s.enter(1, 1, None, "m").leave(2, 1);
    s.at(
        10,
        Payload::MlxEvalEntered {
            call_id: 1,
            array_count: 1,
            stream: "gpu".into(),
            module_stack: vec![],
            stack_frames: vec![],
        },
    )
    .buffer(11, 5, 1_000_000_000, &[("a", 900_000_000)])
    .at(
        2_000_000_000,
        Payload::MlxEvalReturned {
            call_id: 1,
            duration_ns: 0,
            was_async: false,
        },
    );
    if let Some(gap) = lazy_eval_attribution::detect(&s.0) {
        assert!(gap.gap_gpu_ns <= gap.total_gpu_ns);
        assert!(gap.gap_pct() <= 100);
    }
}

#[test]
fn windows_are_over_the_threshold() {
    let sample = |bytes: u64| Payload::MetalDeviceMemSample {
        allocated_bytes: bytes,
        recommended_max_bytes: 1_000,
        at_event: String::new(),
    };
    let mut s = Stream(vec![]);
    s.enter(1, 1, None, "hot")
        .at(2, sample(950))
        .at(3, sample(990))
        .at(4, sample(100))
        .leave(5, 1)
        .at(100, sample(901));
    let w = over_budget_windows(&s.0, quotient(9, 10), 10);
    assert_eq!(w.len(), 2);
    assert_eq!((w[0].peak_bytes, w[0].peak_scope.as_str()), (990, "hot"));
    assert!(w.iter().all(|x| x.peak_bytes * 10 >= x.recommended_max_bytes * 9));
    assert_eq!(w[1].start_ts_mono_ns, 100);
}

/// Names come out of the trace as they went in.
#[test]
fn names_survive_the_trace() {
    let name = "a\"b\\c\n\t\r\u{8}\u{c}\u{1}\u{1f}\u{7f}\u{2028}é✓/";
    let mut s = Stream(vec![]);
    s.enter(1, 1, None, name)
        .buffer(2, 7, 30, &[("gemm_a", 2_000)])
        .leave(50, 1);
    let text = render_chrome_trace(&compute(&s.0).unwrap());
    let v: serde_json::Value = serde_json::from_str(&text).unwrap();
    assert_eq!(v["displayTimeUnit"], "us");
    let events = v["traceEvents"].as_array().unwrap();
    assert!(events.iter().any(|e| e["name"] == name), "{text}");
    let quoted = serde_json::Value::from(name).to_string();
    assert!(text.contains(&quoted), "{text}");
}
