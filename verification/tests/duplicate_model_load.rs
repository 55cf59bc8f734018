//! Models that are loaded again while they are loaded.

use smeltr::event::{Event, Payload, Source, Uuid};
use smeltr::rule::Rule;
use smeltr::rules::duplicate_model_load::DuplicateModelLoadRule;
use smeltr::finding::{Category, Severity};

fn ev(ts: u64, source: Source, payload: Payload) -> Event {
    Event {
        ts_mono_ns: ts,
        ts_wall_ns: ts,
        session_id: Uuid::nil(),
        source,
        pid: None,
        seq: ts,
        payload,
    }
}


fn model_load_event(ts: u64, path: &str, size_bytes: u64) -> Event {
    ev(
        ts,
        Source::PythonSidecar,
        Payload::ModelLoad {
            path: path.into(),
            size_bytes,
            t_start_ns: ts,
            t_end_ns: ts + 500_000_000,
            sha8: None,
            framework: Some("safetensors".into()),
        },
    )
}

fn model_unload_event(ts: u64, path: &str) -> Event {
    ev(
        ts,
        Source::PythonSidecar,
        Payload::ModelUnload {
            path: path.into(),
            t_ns: ts,
            sha8: None,
        },
    )
}

#[test]
fn single_load_produces_no_finding() {
    let events = vec![model_load_event(
        1_000_000_000,
        "/models/gemma/model.safetensors",
        2_000_000_000,
    )];
    let findings = DuplicateModelLoadRule.check(&events);
    assert!(
        findings.is_empty(),
        "single load must not produce a finding"
    );
}

#[test]
fn two_loads_same_path_without_unload_produce_one_finding() {
    let events = vec![
        model_load_event(
            1_000_000_000,
            "/models/gemma/model.safetensors",
            2_000_000_000,
        ),
        model_load_event(
            5_000_000_000,
            "/models/gemma/model.safetensors",
            2_000_000_000,
        ),
    ];
    let findings = DuplicateModelLoadRule.check(&events);
    assert_eq!(findings.len(), 1, "two identical loads → one finding");
    assert_eq!(findings[0].severity, Severity::Warning);
    assert_eq!(findings[0].category, Category::ContributingFactor);
    assert!(
        findings[0]
            .detail
            .contains("/models/gemma/model.safetensors"),
        "detail must include canonical path"
    );
}

#[test]
fn two_loads_same_basename_different_paths_produce_no_finding() {
    let events = vec![
        model_load_event(
            1_000_000_000,
            "/models/gemma-2b/model.safetensors",
            2_000_000_000,
        ),
        model_load_event(
            2_000_000_000,
            "/models/gemma-7b/model.safetensors",
            2_000_000_000,
        ),
    ];
    // Same basename + size_bytes, but different paths → not a duplicate.
    let findings = DuplicateModelLoadRule.check(&events);
    assert!(
        findings.is_empty(),
        "different paths must not be flagged even with the same basename"
    );
}

#[test]
fn three_loads_same_path_without_unload_produce_two_findings() {
    let events = vec![
        model_load_event(
            1_000_000_000,
            "/models/gemma/model.safetensors",
            2_000_000_000,
        ),
        model_load_event(
            5_000_000_000,
            "/models/gemma/model.safetensors",
            2_000_000_000,
        ),
        model_load_event(
            9_000_000_000,
            "/models/gemma/model.safetensors",
            2_000_000_000,
        ),
    ];
    let findings = DuplicateModelLoadRule.check(&events);
    assert_eq!(
        findings.len(),
        2,
        "three loads of the same path (no unload) → two duplicate findings"
    );
    // All findings should reference the same path
    for f in &findings {
        assert!(f.detail.contains("/models/gemma/model.safetensors"));
    }
}

#[test]
fn load_then_unload_then_reload_produces_no_finding() {
    // load → unload → reload is a legitimate pattern — must NOT flag.
    let events = vec![
        model_load_event(
            1_000_000_000,
            "/models/gemma/model.safetensors",
            2_000_000_000,
        ),
        model_unload_event(4_000_000_000, "/models/gemma/model.safetensors"),
        model_load_event(
            6_000_000_000,
            "/models/gemma/model.safetensors",
            2_000_000_000,
        ),
    ];
    let findings = DuplicateModelLoadRule.check(&events);
    assert!(
        findings.is_empty(),
        "load → unload → reload must produce no finding, got {findings:?}"
    );
}

#[test]
fn load_load_unload_produces_one_finding() {
    // load → load (duplicate) → unload: the second load fires before the unload → 1 finding.
    let events = vec![
        model_load_event(
            1_000_000_000,
            "/models/gemma/model.safetensors",
            2_000_000_000,
        ),
        model_load_event(
            5_000_000_000,
            "/models/gemma/model.safetensors",
            2_000_000_000,
        ),
        model_unload_event(9_000_000_000, "/models/gemma/model.safetensors"),
    ];
    let findings = DuplicateModelLoadRule.check(&events);
    assert_eq!(
        findings.len(),
        1,
        "load → load → unload → 1 finding (second load precedes the unload)"
    );
}
