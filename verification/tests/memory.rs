//! Memory per scope.

use smeltr::event::{Event, Payload, Source, Uuid};
use smeltr::memory::{compute_heap_breakdown, compute_memory_breakdown};

fn ev(seq: u64, ts: u64, source: Source, payload: Payload) -> Event {
    Event {
        ts_mono_ns: ts,
        ts_wall_ns: ts,
        session_id: Uuid::nil(),
        source,
        pid: None,
        seq,
        payload,
    }
}

fn enter(seq: u64, ts: u64, qualname: &str) -> Event {
    ev(
        seq,
        ts,
        Source::PythonSidecar,
        Payload::ModuleEntered {
            module_call_id: seq,
            module_def_id: 0,
            qualname: qualname.into(),
            class_name: "Scope".into(),
            parent_call_id: None,
            depth: 0,
            fields: Default::default(),
        },
    )
}

fn ret(seq: u64, ts: u64, mid: u64) -> Event {
    ev(
        seq,
        ts,
        Source::PythonSidecar,
        Payload::ModuleReturned {
            module_call_id: mid,
        },
    )
}

fn sample(seq: u64, ts: u64, allocated: u64) -> Event {
    ev(
        seq,
        ts,
        Source::MetalHook,
        Payload::MetalDeviceMemSample {
            allocated_bytes: allocated,
            recommended_max_bytes: 16_000_000_000,
            at_event: "cb_committed".into(),
        },
    )
}

fn heap_alloc(seq: u64, ts: u64, heap_id: u64, size: u64) -> Event {
    ev(
        seq,
        ts,
        Source::MetalHook,
        Payload::MetalHeapAlloc {
            heap_id,
            size_bytes: size,
            label: None,
        },
    )
}

fn heap_free(seq: u64, ts: u64, heap_id: u64) -> Event {
    ev(
        seq,
        ts,
        Source::MetalHook,
        Payload::MetalHeapFree { heap_id },
    )
}

// ── pre-existing tests ────────────────────────────────────────────────

#[test]
fn memory_empty_session_yields_empty() {
    assert!(compute_memory_breakdown(&[]).is_empty());
    assert!(compute_heap_breakdown(&[]).is_empty());
}

#[test]
fn memory_peak_avg_end_computed_correctly() {
    let evs = vec![
        enter(1, 1, "foo"),
        sample(2, 2, 100),
        sample(3, 3, 500),
        sample(4, 4, 200),
        ret(5, 5, 1),
    ];
    let out = compute_memory_breakdown(&evs);
    assert_eq!(out.len(), 1);
    assert_eq!(out[0].qualname, "foo");
    assert_eq!(out[0].peak_bytes, 500);
    assert_eq!(out[0].avg_bytes, (100 + 500 + 200) / 3);
    assert_eq!(out[0].end_bytes, 200);
    assert_eq!(out[0].sample_count, 3);
}

#[test]
fn memory_aggregates_multiple_scope_calls_takes_max_peak() {
    let evs = vec![
        enter(1, 1, "foo"),
        sample(2, 2, 300),
        ret(3, 3, 1),
        enter(4, 4, "foo"),
        sample(5, 5, 800),
        ret(6, 6, 4),
    ];
    let out = compute_memory_breakdown(&evs);
    assert_eq!(out.len(), 1);
    assert_eq!(out[0].peak_bytes, 800);
}

#[test]
fn memory_scope_without_samples_emits_zero() {
    let evs = vec![enter(1, 1, "empty"), ret(2, 2, 1)];
    let out = compute_memory_breakdown(&evs);
    assert_eq!(out.len(), 1);
    assert_eq!(out[0].peak_bytes, 0);
    assert_eq!(out[0].avg_bytes, 0);
    assert_eq!(out[0].end_bytes, 0);
    assert_eq!(out[0].sample_count, 0);
}

#[test]
fn heap_peak_count_and_bytes() {
    let evs = vec![
        enter(1, 1, "scope"),
        heap_alloc(2, 2, 100, 1000),
        heap_alloc(3, 3, 200, 2000),
        heap_free(4, 4, 100),
        ret(5, 5, 1),
    ];
    let out = compute_heap_breakdown(&evs);
    assert_eq!(out.len(), 1);
    assert_eq!(out[0].peak_heap_count, 2);
    assert_eq!(out[0].peak_heap_bytes, 3000);
}

#[test]
fn heap_orphan_free_is_ignored() {
    let evs = vec![
        enter(1, 1, "scope"),
        heap_free(2, 2, 99),
        heap_alloc(3, 3, 100, 500),
        ret(4, 4, 1),
    ];
    let out = compute_heap_breakdown(&evs);
    assert_eq!(out[0].peak_heap_count, 1);
    assert_eq!(out[0].peak_heap_bytes, 500);
}

// ── new tests: async-grace for compute_memory_breakdown ─────────

#[test]
fn compute_memory_breakdown_attributes_sample_after_scope_return() {
    // The scope exits at t=15, MetalDeviceMemSample lands
    // at t=100 (85 ns post-return, inside the 500 ms grace window).
    let evs = vec![
        enter(1, 10, "foo"),
        ret(2, 15, 1),
        sample(3, 100, 100 * 1024 * 1024),
    ];
    let out = compute_memory_breakdown(&evs);
    assert_eq!(out.len(), 1);
    assert_eq!(out[0].qualname, "foo");
    assert_eq!(out[0].peak_bytes, 100 * 1024 * 1024);
    assert_eq!(out[0].sample_count, 1);
}

#[test]
fn compute_memory_breakdown_drops_sample_past_grace() {
    // 600 ms past return — outside the 500 ms grace.
    let evs = vec![
        enter(1, 10, "foo"),
        ret(2, 15, 1),
        sample(3, 15 + 600_000_000, 100 * 1024 * 1024),
    ];
    let out = compute_memory_breakdown(&evs);
    assert_eq!(out.len(), 1, "scope still finalizes (with 0 samples)");
    assert_eq!(out[0].qualname, "foo");
    assert_eq!(out[0].sample_count, 0);
}

#[test]
fn compute_memory_breakdown_nested_scopes_both_get_drain_sample() {
    let evs = vec![
        enter(1, 5, "outer"),
        enter(2, 10, "inner"),
        ret(3, 15, 2),
        ret(4, 20, 1),
        sample(5, 100, 50 * 1024 * 1024),
    ];
    let out = compute_memory_breakdown(&evs);
    assert_eq!(out.len(), 2);
    for sm in &out {
        assert_eq!(sm.sample_count, 1, "{}: expected 1 sample", sm.qualname);
        assert_eq!(sm.peak_bytes, 50 * 1024 * 1024);
    }
}

#[test]
fn compute_memory_breakdown_sequential_scopes_grace_overlap() {
    // Scope A returns at t=15. Scope B opens at t=20. Sample at t=100
    // falls within A's grace AND B's stack-window → both should record it.
    let evs = vec![
        enter(1, 10, "A"),
        ret(2, 15, 1),
        enter(3, 20, "B"),
        ret(4, 30, 3),
        sample(5, 100, 1024),
    ];
    let out = compute_memory_breakdown(&evs);
    assert_eq!(out.len(), 2);
    for sm in &out {
        assert_eq!(sm.sample_count, 1, "{}: expected 1 sample", sm.qualname);
    }
}

// ── new tests: async-grace for compute_heap_breakdown ──────────

#[test]
fn compute_heap_breakdown_attributes_alloc_after_scope_return() {
    // Heap alloc at t=100 (85 ns post-return) — within the 500 ms grace.
    let evs = vec![
        enter(1, 10, "foo"),
        ret(2, 15, 1),
        heap_alloc(3, 100, 42, 2_000_000),
    ];
    let out = compute_heap_breakdown(&evs);
    assert_eq!(out.len(), 1);
    assert_eq!(out[0].qualname, "foo");
    assert_eq!(out[0].peak_heap_count, 1);
    assert_eq!(out[0].peak_heap_bytes, 2_000_000);
}

#[test]
fn compute_heap_breakdown_drops_alloc_past_grace() {
    // 600 ms past return — outside the 500 ms grace.
    let evs = vec![
        enter(1, 10, "foo"),
        ret(2, 15, 1),
        heap_alloc(3, 15 + 600_000_000, 42, 2_000_000),
    ];
    let out = compute_heap_breakdown(&evs);
    assert_eq!(out.len(), 1, "scope still finalizes (with 0 heap)");
    assert_eq!(out[0].qualname, "foo");
    assert_eq!(out[0].peak_heap_count, 0);
    assert_eq!(out[0].peak_heap_bytes, 0);
}

#[test]
fn compute_heap_breakdown_sequential_scopes_grace_overlap() {
    // Scope A returns at t=15. Scope B opens at t=20. Heap alloc at t=100
    // falls within A's grace AND B's stack-window → both should record it.
    let evs = vec![
        enter(1, 10, "A"),
        ret(2, 15, 1),
        enter(3, 20, "B"),
        ret(4, 30, 3),
        heap_alloc(5, 100, 7, 512_000),
    ];
    let out = compute_heap_breakdown(&evs);
    assert_eq!(out.len(), 2);
    for hm in &out {
        assert_eq!(
            hm.peak_heap_count, 1,
            "{}: expected peak_heap_count=1",
            hm.qualname
        );
        assert_eq!(
            hm.peak_heap_bytes, 512_000,
            "{}: expected 512_000 bytes",
            hm.qualname
        );
    }
}
