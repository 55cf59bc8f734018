//! A session as trace events.

use serde_json::Value;
use smeltr::event::{
    Event, FieldValue, OpSample, Payload, SessionKind, SessionMetadata, Source, Uuid,
};
use smeltr::export::{
    to_chrome_trace, to_json_raw, Arg, ChromeTrace, Duration, Phase, Thread, TraceEvent,
};

fn ev(seq: u64, ts: u64, src: Source, payload: Payload) -> Event {
    Event {
        ts_mono_ns: ts,
        ts_wall_ns: ts,
        session_id: Uuid::nil(),
        source: src,
        pid: None,
        seq,
        payload,
    }
}

/// A trace as viewers read it: times in microseconds.
fn parse_trace(t: &ChromeTrace) -> Value {
    let mut meta = serde_json::Map::new();
    meta.insert("name".into(), Value::from(t.metadata.name.clone()));
    let mut v = serde_json::Map::new();
    v.insert(
        "traceEvents".into(),
        Value::Array(t.trace_events.iter().map(event_value).collect()),
    );
    v.insert("displayTimeUnit".into(), Value::from(t.display_time_unit));
    v.insert("metadata".into(), Value::Object(meta));
    Value::Object(v)
}

fn metadata() -> SessionMetadata {
    SessionMetadata {
        session_id: Uuid::from_u128(7),
        kind: SessionKind::Ambient,
        name: None,
        host: "host".into(),
        started_rfc3339: "2026-07-01T00:00:00Z".into(),
        ended_rfc3339: None,
        exit_code: None,
        term_signal: None,
        scope_token: None,
    }
}

fn micros(ns: u64) -> f64 {
    ns as f64 / 1000.0
}

fn field_value(f: &FieldValue) -> Value {
    match f {
        FieldValue::Bool(b) => Value::from(*b),
        FieldValue::Int(i) => Value::from(*i),
        FieldValue::Float(bits) => Value::from(f64::from_bits(*bits)),
        FieldValue::String(s) => Value::from(s.as_str()),
    }
}

fn arg_value(a: &Arg) -> Value {
    match a {
        Arg::Text(s) => Value::from(s.as_str()),
        Arg::Number(n) => Value::from(*n),
        Arg::Signed(n) => Value::from(*n),
        Arg::Single(bits) => Value::from(f32::from_bits(*bits)),
        Arg::Field(f) => field_value(f),
        Arg::Missing => Value::Null,
    }
}

fn event_value(e: &TraceEvent) -> Value {
    let mut v = serde_json::Map::new();
    let ph = match e.phase {
        Phase::Metadata => "M",
        Phase::Complete => "X",
        Phase::Instant => "i",
        Phase::Counter => "C",
    };
    v.insert("ph".into(), Value::from(ph));
    v.insert("name".into(), Value::from(e.name.as_str()));
    v.insert("pid".into(), Value::from(e.pid));
    if let Some(c) = &e.category {
        v.insert("cat".into(), Value::from(c.as_str()));
    }
    if let Some(t) = &e.thread {
        let tid = match t {
            Thread::Number(n) => Value::from(*n),
            Thread::Name(s) => Value::from(s.as_str()),
        };
        v.insert("tid".into(), tid);
    }
    if let Some(ts) = e.ts_ns {
        v.insert("ts".into(), Value::from(micros(ts)));
    }
    if let Some(d) = e.duration {
        let dur = match d {
            Duration::Between { from_ns, to_ns } => micros(to_ns) - micros(from_ns),
            Duration::Nanoseconds(ns) => micros(ns),
        };
        v.insert("dur".into(), Value::from(dur));
    }
    if let Some(s) = &e.scope {
        v.insert("s".into(), Value::from(s.as_str()));
    }
    if let Some(args) = &e.args {
        let mut a = serde_json::Map::new();
        for (k, x) in args {
            a.insert(k.clone(), arg_value(x));
        }
        v.insert("args".into(), Value::Object(a));
    }
    Value::Object(v)
}

#[test]
fn chrome_trace_includes_four_process_metadata_events() {
    let meta = metadata();
    let s = to_chrome_trace(&[], &meta);
    let v = parse_trace(&s);
    let names: Vec<String> = v["traceEvents"]
        .as_array()
        .unwrap()
        .iter()
        .filter(|e| e["ph"] == "M")
        .map(|e| e["args"]["name"].as_str().unwrap().to_string())
        .collect();
    assert_eq!(names, vec!["Python", "Metal CBs", "Kernels", "Model Loads"]);
}

#[test]
fn chrome_trace_empty_session_is_valid_json_with_only_metadata() {
    let meta = metadata();
    let s = to_chrome_trace(&[], &meta);
    let v = parse_trace(&s);
    let non_meta: Vec<_> = v["traceEvents"]
        .as_array()
        .unwrap()
        .iter()
        .filter(|e| e["ph"] != "M")
        .collect();
    assert!(non_meta.is_empty(), "no events expected, got {non_meta:?}");
}

#[test]
fn chrome_trace_module_pair_becomes_complete_event() {
    let evs = vec![
        ev(
            1,
            1_000,
            Source::PythonSidecar,
            Payload::ModuleEntered {
                module_call_id: 7,
                module_def_id: 0,
                qualname: "denoise.pass:cond".into(),
                class_name: "Scope".into(),
                parent_call_id: None,
                depth: 0,
                fields: Default::default(),
            },
        ),
        ev(
            2,
            3_000,
            Source::PythonSidecar,
            Payload::ModuleReturned { module_call_id: 7 },
        ),
    ];
    let meta = metadata();
    let s = to_chrome_trace(&evs, &meta);
    let v = parse_trace(&s);
    let x: Vec<_> = v["traceEvents"]
        .as_array()
        .unwrap()
        .iter()
        .filter(|e| e["ph"] == "X")
        .collect();
    assert_eq!(x.len(), 1);
    assert_eq!(x[0]["name"], "denoise.pass:cond");
    assert_eq!(x[0]["pid"], 1);
    assert_eq!(x[0]["tid"], 0);
    assert_eq!(x[0]["ts"], 1.0);
    assert_eq!(x[0]["dur"], 2.0);
    assert_eq!(x[0]["args"]["class_name"], "Scope");
}

#[test]
fn chrome_trace_unmatched_module_return_is_skipped() {
    let evs = vec![ev(
        1,
        1_000,
        Source::PythonSidecar,
        Payload::ModuleReturned {
            module_call_id: 999,
        },
    )];
    let meta = metadata();
    let s = to_chrome_trace(&evs, &meta);
    let v = parse_trace(&s);
    let x: Vec<_> = v["traceEvents"]
        .as_array()
        .unwrap()
        .iter()
        .filter(|e| e["ph"] == "X")
        .collect();
    assert!(x.is_empty(), "orphan ModuleReturned must not emit an event");
}

#[test]
fn chrome_trace_cb_pair_becomes_complete_event() {
    let evs = vec![
        ev(
            1,
            10_000,
            Source::MetalHook,
            Payload::MetalCbCommitted {
                cb_id: 9,
                queue_id: 1,
                queue_depth: 0,
                label: Some("forward".into()),
            },
        ),
        ev(
            2,
            15_000,
            Source::MetalHook,
            Payload::MetalCbCompleted {
                cb_id: 9,
                queue_id: 1,
                status: 4,
                error_code: None,
                error_domain: None,
                in_flight_ns: 5_000,
            },
        ),
    ];
    let meta = metadata();
    let s = to_chrome_trace(&evs, &meta);
    let v = parse_trace(&s);
    let cb_events: Vec<_> = v["traceEvents"]
        .as_array()
        .unwrap()
        .iter()
        .filter(|e| e["pid"] == 2 && e["ph"] == "X")
        .collect();
    assert_eq!(cb_events.len(), 1);
    assert_eq!(cb_events[0]["name"], "forward");
    assert_eq!(cb_events[0]["tid"], "queue_1");
    assert_eq!(cb_events[0]["ts"], 10.0);
    assert_eq!(cb_events[0]["dur"], 5.0);
}

#[test]
fn chrome_trace_ops_emit_on_kernels_lane_at_commit_ts() {
    let evs = vec![
        ev(
            1,
            10_000,
            Source::MetalHook,
            Payload::MetalCbCommitted {
                cb_id: 9,
                queue_id: 1,
                queue_depth: 0,
                label: None,
            },
        ),
        ev(
            2,
            11_000,
            Source::MetalHook,
            Payload::MetalCbOps {
                cb_id: 9,
                ops: vec![OpSample {
                    name: "K_abcd_64x64x1".into(),
                    symbol: Some("gemm_t_n_bf16_64_64_32".into()),
                    gpu_ns: 2_000,
                    count: 1,
                }],
            },
        ),
        ev(
            3,
            15_000,
            Source::MetalHook,
            Payload::MetalCbCompleted {
                cb_id: 9,
                queue_id: 1,
                status: 4,
                error_code: None,
                error_domain: None,
                in_flight_ns: 5_000,
            },
        ),
    ];
    let meta = metadata();
    let s = to_chrome_trace(&evs, &meta);
    let v = parse_trace(&s);
    let kernel_events: Vec<_> = v["traceEvents"]
        .as_array()
        .unwrap()
        .iter()
        .filter(|e| e["pid"] == 3 && e["ph"] == "X")
        .collect();
    assert_eq!(kernel_events.len(), 1);
    assert_eq!(kernel_events[0]["name"], "gemm_t_n_bf16_64_64_32");
    assert_eq!(kernel_events[0]["tid"], "cb_9");
    assert_eq!(kernel_events[0]["ts"], 10.0);
    assert_eq!(kernel_events[0]["dur"], 2.0);
    assert_eq!(kernel_events[0]["args"]["raw_name"], "K_abcd_64x64x1");
}

#[test]
fn chrome_trace_mark_becomes_instant_event() {
    let evs = vec![ev(
        1,
        7_000,
        Source::Mark,
        Payload::Mark {
            label: "step-1".into(),
            fields: Default::default(),
        },
    )];
    let meta = metadata();
    let s = to_chrome_trace(&evs, &meta);
    let v = parse_trace(&s);
    let i: Vec<_> = v["traceEvents"]
        .as_array()
        .unwrap()
        .iter()
        .filter(|e| e["ph"] == "i")
        .collect();
    assert_eq!(i.len(), 1);
    assert_eq!(i[0]["name"], "step-1");
    assert_eq!(i[0]["ts"], 7.0);
    assert_eq!(i[0]["s"], "g");
}

#[test]
fn chrome_trace_ops_without_matching_cb_are_dropped() {
    // Ops arrive but the CB never completes (e.g., process crashed mid-CB).
    // Contract: drop the orphan ops; do NOT emit a kernel event.
    let evs = vec![ev(
        1,
        11_000,
        Source::MetalHook,
        Payload::MetalCbOps {
            cb_id: 99,
            ops: vec![OpSample {
                name: "K_orphan_64x64x1".into(),
                symbol: Some("gemm_orphan".into()),
                gpu_ns: 1_000,
                count: 1,
            }],
        },
    )];
    let meta = metadata();
    let s = to_chrome_trace(&evs, &meta);
    let v = parse_trace(&s);
    let kernel_events: Vec<_> = v["traceEvents"]
        .as_array()
        .unwrap()
        .iter()
        .filter(|e| e["pid"] == 3 && e["ph"] == "X")
        .collect();
    assert!(
        kernel_events.is_empty(),
        "orphan MetalCbOps must not emit kernel events; got {kernel_events:?}"
    );
}

#[test]
fn chrome_trace_module_entered_with_fields_merges_into_args() {

    let fields = vec![
        ("sigma".to_string(), FieldValue::Float(0.5f64.to_bits())),
        ("step".to_string(), FieldValue::Int(5)),
    ];

    let events = vec![
        Event {
            ts_mono_ns: 1_000_000,
            ts_wall_ns: 0,
            session_id: Uuid::nil(),
            source: Source::PythonSidecar,
            pid: None,
            seq: 1,
            payload: Payload::ModuleEntered {
                module_call_id: 1,
                module_def_id: 0,
                qualname: "denoise.step".into(),
                class_name: "Scope".into(),
                parent_call_id: None,
                depth: 0,
                fields,
            },
        },
        Event {
            ts_mono_ns: 2_000_000,
            ts_wall_ns: 0,
            session_id: Uuid::nil(),
            source: Source::PythonSidecar,
            pid: None,
            seq: 2,
            payload: Payload::ModuleReturned { module_call_id: 1 },
        },
    ];
    let meta = metadata();
    let s = to_chrome_trace(&events, &meta);
    let v = parse_trace(&s);
    let entries = v["traceEvents"]
        .as_array()
        .expect("traceEvents is an array");
    let evt = entries
        .iter()
        .find(|e| e.get("name").and_then(|n| n.as_str()) == Some("denoise.step"))
        .expect("denoise.step event present");
    let args = evt.get("args").expect("args present").as_object().unwrap();
    assert_eq!(
        args.get("class_name").and_then(|v| v.as_str()),
        Some("Scope")
    );
    assert_eq!(args.get("module_call_id").and_then(|v| v.as_u64()), Some(1));
    assert_eq!(args.get("step").and_then(|v| v.as_i64()), Some(5));
    assert_eq!(args.get("sigma").and_then(|v| v.as_f64()), Some(0.5));
}

#[test]
fn chrome_trace_model_load_becomes_complete_event_on_lane_4() {
    let evs = vec![ev(
        1,
        5_000_000, // ts_mono_ns (used for ts_us in the event loop, not for t_start_ns)
        Source::PythonSidecar,
        Payload::ModelLoad {
            path: "/models/llama/weights.safetensors".into(),
            size_bytes: 1_048_576,
            t_start_ns: 1_000_000,
            t_end_ns: 3_000_000,
            sha8: Some("ab12cd34".into()),
            framework: Some("safetensors".into()),
        },
    )];
    let meta = metadata();
    let s = to_chrome_trace(&evs, &meta);
    let v = parse_trace(&s);
    let x: Vec<_> = v["traceEvents"]
        .as_array()
        .unwrap()
        .iter()
        .filter(|e| e["ph"] == "X" && e["pid"] == 4)
        .collect();
    assert_eq!(x.len(), 1, "expected one ph:X on pid:4, got {x:?}");
    assert_eq!(x[0]["name"], "weights.safetensors");
    assert_eq!(x[0]["cat"], "model-load");
    assert_eq!(x[0]["tid"], 0);
    // ts = t_start_ns / 1000.0 = 1_000_000 / 1000.0 = 1000.0 µs
    assert_eq!(x[0]["ts"], 1000.0);
    // dur = (t_end_ns - t_start_ns) / 1000.0 = (3_000_000 - 1_000_000) / 1000.0 = 2000.0 µs
    assert_eq!(x[0]["dur"], 2000.0);
    assert_eq!(x[0]["args"]["path"], "/models/llama/weights.safetensors");
    assert_eq!(x[0]["args"]["size_bytes"], 1_048_576_u64);
    assert_eq!(x[0]["args"]["sha8"], "ab12cd34");
    assert_eq!(x[0]["args"]["framework"], "safetensors");
}

#[test]
fn chrome_trace_model_load_emits_counter_with_cumulative_bytes() {
    let evs = vec![
        ev(
            1,
            5_000_000,
            Source::PythonSidecar,
            Payload::ModelLoad {
                path: "/models/llama/weights.safetensors".into(),
                size_bytes: 1_048_576, // 1 MB
                t_start_ns: 1_000_000,
                t_end_ns: 2_000_000,
                sha8: Some("ab12cd34".into()),
                framework: None,
            },
        ),
        ev(
            2,
            6_000_000,
            Source::PythonSidecar,
            Payload::ModelLoad {
                path: "/models/llama/weights.safetensors".into(),
                size_bytes: 2_097_152, // 2 MB
                t_start_ns: 3_000_000,
                t_end_ns: 4_000_000,
                sha8: Some("ab12cd34".into()),
                framework: None,
            },
        ),
    ];
    let meta = metadata();
    let s = to_chrome_trace(&evs, &meta);
    let v = parse_trace(&s);
    let counters: Vec<_> = v["traceEvents"]
        .as_array()
        .unwrap()
        .iter()
        .filter(|e| e["ph"] == "C")
        .collect();
    assert_eq!(
        counters.len(),
        2,
        "expected 2 counter events, got {counters:?}"
    );
    // Sorted by t_end_ns: first at ts=t_end_ns/1000=2000.0 µs, bytes=1MB;
    // second at ts=4000.0 µs, bytes=3MB cumulative.
    assert_eq!(counters[0]["ts"], 2000.0);
    assert_eq!(counters[0]["args"]["bytes"], 1_048_576_u64);
    assert_eq!(counters[1]["ts"], 4000.0);
    assert_eq!(counters[1]["args"]["bytes"], 3_145_728_u64);
    // Both use same counter name
    assert_eq!(counters[0]["name"], counters[1]["name"]);
}

#[test]
fn chrome_trace_model_load_distinct_models_have_distinct_counter_names() {
    let evs = vec![
        ev(
            1,
            1_000_000,
            Source::PythonSidecar,
            Payload::ModelLoad {
                path: "/models/llama/weights.safetensors".into(),
                size_bytes: 1_000,
                t_start_ns: 1_000_000,
                t_end_ns: 2_000_000,
                sha8: Some("aaaa1111".into()),
                framework: None,
            },
        ),
        ev(
            2,
            3_000_000,
            Source::PythonSidecar,
            Payload::ModelLoad {
                path: "/models/mistral/model.safetensors".into(),
                size_bytes: 2_000,
                t_start_ns: 3_000_000,
                t_end_ns: 4_000_000,
                sha8: Some("bbbb2222".into()),
                framework: None,
            },
        ),
    ];
    let meta = metadata();
    let s = to_chrome_trace(&evs, &meta);
    let v = parse_trace(&s);
    let counters: Vec<_> = v["traceEvents"]
        .as_array()
        .unwrap()
        .iter()
        .filter(|e| e["ph"] == "C")
        .collect();
    assert_eq!(counters.len(), 2);
    let names: std::collections::HashSet<String> = counters
        .iter()
        .map(|e| e["name"].as_str().unwrap().to_string())
        .collect();
    assert_eq!(
        names.len(),
        2,
        "distinct models must have distinct counter names"
    );
    assert!(names.iter().any(|n| n.contains("weights.safetensors")));
    assert!(names.iter().any(|n| n.contains("model.safetensors")));
}

#[test]
fn chrome_trace_model_load_omits_none_args() {
    let evs = vec![ev(
        1,
        5_000_000,
        Source::PythonSidecar,
        Payload::ModelLoad {
            path: "/models/anon/weights.bin".into(),
            size_bytes: 512,
            t_start_ns: 1_000_000,
            t_end_ns: 2_000_000,
            sha8: None,
            framework: None,
        },
    )];
    let meta = metadata();
    let s = to_chrome_trace(&evs, &meta);
    let v = parse_trace(&s);
    let x: Vec<_> = v["traceEvents"]
        .as_array()
        .unwrap()
        .iter()
        .filter(|e| e["ph"] == "X" && e["pid"] == 4)
        .collect();
    assert_eq!(x.len(), 1);
    let args = x[0]["args"].as_object().unwrap();
    assert!(
        !args.contains_key("sha8"),
        "sha8 None must be omitted from args"
    );
    assert!(
        !args.contains_key("framework"),
        "framework None must be omitted from args"
    );
    assert_eq!(args["path"], "/models/anon/weights.bin");
    assert_eq!(args["size_bytes"], 512_u64);
}

#[test]
fn chrome_trace_model_load_includes_lane_4_process_metadata() {
    let meta = metadata();
    let s = to_chrome_trace(&[], &meta);
    let v = parse_trace(&s);
    let pid4_meta: Vec<_> = v["traceEvents"]
        .as_array()
        .unwrap()
        .iter()
        .filter(|e| e["ph"] == "M" && e["pid"] == 4)
        .collect();
    assert_eq!(pid4_meta.len(), 1);
    assert_eq!(pid4_meta[0]["args"]["name"], "Model Loads");
}

#[test]
fn chrome_trace_model_unload_emits_instant_on_pid4() {
    let evs = vec![
        ev(
            1,
            1_000_000,
            Source::PythonSidecar,
            Payload::ModelLoad {
                path: "/models/llama/weights.safetensors".into(),
                size_bytes: 1_048_576,
                t_start_ns: 1_000_000,
                t_end_ns: 2_000_000,
                sha8: Some("ab12cd34".into()),
                framework: None,
            },
        ),
        ev(
            2,
            5_000_000,
            Source::PythonSidecar,
            Payload::ModelUnload {
                path: "/models/llama/weights.safetensors".into(),
                t_ns: 5_000_000,
                sha8: Some("ab12cd34".into()),
            },
        ),
    ];
    let meta = metadata();
    let s = to_chrome_trace(&evs, &meta);
    let v = parse_trace(&s);
    let instants: Vec<_> = v["traceEvents"]
        .as_array()
        .unwrap()
        .iter()
        .filter(|e| e["ph"] == "i" && e["pid"] == 4 && e["cat"] == "model-unload")
        .collect();
    assert_eq!(
        instants.len(),
        1,
        "expected one ph:i on pid:4, got {instants:?}"
    );
    assert_eq!(instants[0]["name"], "unload:weights.safetensors");
    // ts = t_ns / 1000.0 = 5_000_000 / 1000.0 = 5000.0 µs
    assert_eq!(instants[0]["ts"], 5000.0);
    assert_eq!(instants[0]["s"], "p");
    assert_eq!(
        instants[0]["args"]["path"],
        "/models/llama/weights.safetensors"
    );
    assert_eq!(instants[0]["args"]["sha8"], "ab12cd34");
}

#[test]
fn chrome_trace_emits_system_counters() {
    let evs = vec![
        ev(
            1,
            1_000,
            Source::Vm,
            Payload::VmSample {
                wired_bytes: 100,
                active_bytes: 200,
                compressed_bytes: 50,
                swap_used_bytes: 10,
                page_outs_per_sec: 1.5f32.to_bits(),
            },
        ),
        ev(
            2,
            2_000,
            Source::Thermal,
            Payload::ThermalState { level: 2 },
        ),
        ev(
            3,
            3_000,
            Source::IoReport,
            Payload::IoReportSample {
                gpu_residency_pct: Some(80.0f32.to_bits()),
                ane_residency_pct: None,
                cpu_residency_pct: Some(40.0f32.to_bits()),
                gpu_power_mw: Some(1500),
                gpu_freq_mhz: None,
            },
        ),
    ];
    let v = parse_trace(&to_chrome_trace(&evs, &metadata()));
    let counters: Vec<_> = v["traceEvents"]
        .as_array()
        .unwrap()
        .iter()
        .filter(|e| e["ph"] == "C")
        .collect();
    let by_name = |n: &str| counters.iter().find(|e| e["name"] == n);

    let mem = by_name("system_memory").expect("system_memory");
    assert_eq!(mem["args"]["wired_bytes"], 100);
    assert_eq!(mem["args"]["swap_used_bytes"], 10);

    assert!(by_name("vm_page_outs_per_sec").is_some());
    assert_eq!(by_name("thermal_level").unwrap()["args"]["level"], 2);

    let util = by_name("utilization_pct").expect("utilization_pct");
    assert_eq!(util["args"]["gpu"], 80.0);
    assert_eq!(util["args"]["cpu"], 40.0);
    assert!(util["args"].get("ane").is_none(), "None pct must be absent");

    assert_eq!(by_name("gpu_power_mw").unwrap()["args"]["mw"], 1500);
    assert!(
        by_name("gpu_freq_mhz").is_none(),
        "None field skips its track"
    );
}

#[test]
fn chrome_trace_skips_non_finite_f32() {
    let evs = vec![ev(
        1,
        1_000,
        Source::Vm,
        Payload::VmSample {
            wired_bytes: 1,
            active_bytes: 1,
            compressed_bytes: 1,
            swap_used_bytes: 1,
            page_outs_per_sec: f32::NAN.to_bits(),
        },
    )];
    // Must not panic and must produce valid JSON (NaN would otherwise fail
    // serde_json::to_string and break the whole export).
    let meta = metadata();
    let s = to_chrome_trace(&evs, &meta);
    let v = parse_trace(&s);
    let has_rate = v["traceEvents"]
        .as_array()
        .unwrap()
        .iter()
        .any(|e| e["name"] == "vm_page_outs_per_sec");
    assert!(!has_rate, "non-finite page_outs_per_sec must be skipped");
    // system_memory still emitted (its fields are finite u64s)
    assert!(v["traceEvents"]
        .as_array()
        .unwrap()
        .iter()
        .any(|e| e["name"] == "system_memory"));
}

#[test]
fn chrome_trace_module_entered_empty_fields_omits_keys() {

    let events = vec![
        Event {
            ts_mono_ns: 1_000_000,
            ts_wall_ns: 0,
            session_id: Uuid::nil(),
            source: Source::PythonSidecar,
            pid: None,
            seq: 1,
            payload: Payload::ModuleEntered {
                module_call_id: 7,
                module_def_id: 0,
                qualname: "plain".into(),
                class_name: "Scope".into(),
                parent_call_id: None,
                depth: 0,
                fields: Default::default(),
            },
        },
        Event {
            ts_mono_ns: 2_000_000,
            ts_wall_ns: 0,
            session_id: Uuid::nil(),
            source: Source::PythonSidecar,
            pid: None,
            seq: 2,
            payload: Payload::ModuleReturned { module_call_id: 7 },
        },
    ];
    let meta = metadata();
    let s = to_chrome_trace(&events, &meta);
    let v = parse_trace(&s);
    let entries = v["traceEvents"].as_array().unwrap();
    let evt = entries
        .iter()
        .find(|e| e.get("name").and_then(|n| n.as_str()) == Some("plain"))
        .unwrap();
    let args = evt.get("args").unwrap().as_object().unwrap();
    assert_eq!(
        args.len(),
        2,
        "only class_name + module_call_id, got {args:?}"
    );
}

fn committed(seq: u64, ts: u64, cb_id: u64) -> Event {
    ev(
        seq,
        ts,
        Source::MetalHook,
        Payload::MetalCbCommitted {
            cb_id,
            queue_id: 1,
            queue_depth: 0,
            label: None,
        },
    )
}

fn completed(seq: u64, ts: u64, cb_id: u64) -> Event {
    ev(
        seq,
        ts,
        Source::MetalHook,
        Payload::MetalCbCompleted {
            cb_id,
            queue_id: 1,
            status: 4,
            error_code: None,
            error_domain: None,
            in_flight_ns: 5_000,
        },
    )
}

fn kernels(seq: u64, ts: u64, cb_id: u64, name: &str) -> Event {
    ev(
        seq,
        ts,
        Source::MetalHook,
        Payload::MetalCbOps {
            cb_id,
            ops: vec![OpSample {
                name: name.into(),
                symbol: None,
                gpu_ns: 2_000,
                count: 1,
            }],
        },
    )
}

/// Name and start of every kernel shown.
fn shown_kernels(evs: &[Event]) -> Vec<(String, f64)> {
    parse_trace(&to_chrome_trace(evs, &metadata()))["traceEvents"]
        .as_array()
        .unwrap()
        .iter()
        .filter(|e| e["pid"] == 3 && e["ph"] == "X")
        .map(|e| (e["name"].as_str().unwrap().to_string(), e["ts"].as_f64().unwrap()))
        .collect()
}

/// The hook writes commit, completion, then kernels.
#[test]
fn chrome_trace_shows_kernels_in_the_order_of_the_hook() {
    let evs = vec![
        committed(1, 10_000, 9),
        completed(2, 15_000, 9),
        kernels(3, 15_001, 9, "K_a"),
    ];
    let v = parse_trace(&to_chrome_trace(&evs, &metadata()));
    let shown: Vec<_> = v["traceEvents"]
        .as_array()
        .unwrap()
        .iter()
        .filter(|e| e["pid"] == 3 && e["ph"] == "X")
        .collect();
    assert_eq!(shown.len(), 1);
    assert_eq!(shown[0]["name"], "K_a");
    assert_eq!(shown[0]["tid"], "cb_9");
    assert_eq!(shown[0]["ts"], 10.0);
    assert_eq!(shown[0]["dur"], 2.0);
}

/// Each lifetime of a recycled id has its own kernels.
#[test]
fn chrome_trace_keeps_the_lifetimes_of_an_id_apart() {
    let evs = vec![
        committed(1, 10_000, 9),
        completed(2, 15_000, 9),
        kernels(3, 15_001, 9, "K_a"),
        committed(4, 20_000, 9),
        kernels(5, 21_000, 9, "K_b"),
        completed(6, 25_000, 9),
        kernels(7, 25_001, 9, "K_c"),
    ];
    assert_eq!(
        shown_kernels(&evs),
        vec![
            ("K_a".to_string(), 10.0),
            ("K_b".to_string(), 20.0),
            ("K_c".to_string(), 20.0),
        ]
    );
}

/// Kernels that arrive ahead of the first completion wait for it.
#[test]
fn chrome_trace_shows_early_kernels_at_the_first_completion() {
    let a = || vec![("K_a".to_string(), 20.0)];
    assert_eq!(
        shown_kernels(&[
            kernels(1, 10_000, 9, "K_a"),
            committed(2, 20_000, 9),
            completed(3, 30_000, 9),
        ]),
        a()
    );
    assert_eq!(
        shown_kernels(&[
            committed(1, 10_000, 9),
            kernels(2, 11_000, 9, "K_a"),
            committed(3, 20_000, 9),
            completed(4, 30_000, 9),
        ]),
        a()
    );
    assert_eq!(
        shown_kernels(&[
            kernels(1, 10_000, 9, "K_a"),
            completed(2, 11_000, 9),
            committed(3, 20_000, 9),
            kernels(4, 21_000, 9, "K_b"),
            completed(5, 30_000, 9),
        ]),
        vec![("K_a".to_string(), 20.0), ("K_b".to_string(), 20.0)]
    );
}

/// Kernels of a command buffer that never completes are dropped.
#[test]
fn chrome_trace_drops_kernels_without_a_completion() {
    assert!(shown_kernels(&[kernels(1, 1, 9, "K_a"), committed(2, 2, 9)]).is_empty());
    assert!(shown_kernels(&[committed(1, 1, 9), kernels(2, 2, 9, "K_a")]).is_empty());
    assert!(shown_kernels(&[kernels(1, 1, 9, "K_a"), completed(2, 2, 9)]).is_empty());
    assert!(shown_kernels(&[
        kernels(1, 1, 9, "K_a"),
        committed(2, 2, 8),
        completed(3, 3, 8),
    ])
    .is_empty());
}

#[test]
fn chrome_trace_includes_session_metadata() {
    let mut meta = metadata();
    meta.name = Some("ltx2-baseline".into());
    let s = to_chrome_trace(&[], &meta);
    let v = parse_trace(&s);
    assert_eq!(v["metadata"]["name"], "ltx2-baseline");
    assert_eq!(v["displayTimeUnit"], "ms");
}

#[test]
fn json_raw_round_trips_events() {
    let meta = metadata();
    let evs = vec![ev(
        1,
        5_000,
        Source::Mark,
        Payload::Mark {
            label: "hello".into(),
            fields: vec![],
        },
    )];
    let raw = to_json_raw(&evs, &meta);
    assert_eq!(raw.events.len(), 1);
    assert!(matches!(&raw.events[0].payload, Payload::Mark { label, .. } if label == "hello"));
    assert_eq!(raw.metadata.session_id, meta.session_id);
}
