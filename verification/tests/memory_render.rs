//! The memory of a session as text.

use smeltr::commands::memory::{render, render_timeline, MemBucket, MemTimeline, TimelineWindow};
use smeltr::footprint::ProcFootprintSummary;
use smeltr::memory::ScopeMemory;
use smeltr::memory_report::{MemoryReport, MlxAllocator};

#[test]
fn render_empty_breakdown_shows_section_titles() {
    let s = render(&MemoryReport::default(), 20);
    assert!(s.contains("SCOPE PEAK MEMORY"));
    assert!(s.contains("HEAP PEAK"));
    assert!(s.contains("no scopes with memory samples"));
    assert!(s.contains("no heap allocations"));
}

#[test]
fn render_formats_bytes_with_binary_units() {
    let scopes = vec![ScopeMemory {
        qualname: "huge".into(),
        peak_bytes: 8 * 1024 * 1024 * 1024,
        avg_bytes: 4 * 1024 * 1024,
        end_bytes: 1024,
        sample_count: 100,
    }];
    let s = render(
        &MemoryReport {
            scope_memory: scopes,
            ..Default::default()
        },
        20,
    );
    assert!(s.contains("8.00 GiB"));
    assert!(s.contains("4.0 MiB"));
    assert!(s.contains("1 KiB"));
}

#[test]
fn memory_render_caps_to_top_n() {
    let scopes: Vec<ScopeMemory> = (0..50)
        .map(|i| ScopeMemory {
            qualname: format!("s{i}"),
            peak_bytes: 1000 + i as u64,
            avg_bytes: 500,
            end_bytes: 800,
            sample_count: 5,
        })
        .collect();
    let s = render(
        &MemoryReport {
            scope_memory: scopes,
            ..Default::default()
        },
        5,
    );
    assert!(s.contains("showing top 5 of 50"));
}


/// `get_memory_breakdown` returns the process footprint (what
/// jetsam decides on), the MLX allocator cache and why tables are empty;
/// `smeltr memory` showed none of it.
#[test]
fn render_shows_footprint_allocator_and_notes() {
    let report = MemoryReport {
        scope_memory: vec![],
        heap_memory: vec![],
        process_footprint: vec![ProcFootprintSummary {
            pid: 4242,
            name: "python".into(),
            peak_bytes: 3 * 1024 * 1024 * 1024,
            lifetime_max_bytes: 4 * 1024 * 1024 * 1024,
            is_traced_root: true,
            sample_count: 7,
        }],
        mlx_allocator: Some(MlxAllocator {
            peak_active_bytes: 2 * 1024 * 1024 * 1024,
            peak_reported_bytes: 2 * 1024 * 1024 * 1024,
            peak_cache_bytes: 1024 * 1024 * 1024,
            end_cache_bytes: 512 * 1024 * 1024,
            sample_count: 9,
        }),
        notes: vec!["no Python sidecar: install it".into()],
    };
    let s = render(&report, 20);
    assert!(s.contains("PROCESS FOOTPRINT"), "{s}");
    assert!(
        s.contains("python") && s.contains("4242") && s.contains("4.00 GiB"),
        "{s}"
    );
    assert!(s.contains("MLX ALLOCATOR"), "{s}");
    assert!(s.contains("1.00 GiB") && s.contains("512.0 MiB"), "{s}");
    assert!(s.contains("no Python sidecar: install it"), "{s}");
}


#[test]
fn renders_buckets_and_windows() {
    let t = MemTimeline {
        bucket_seconds: 10,
        buckets: vec![MemBucket {
            t_start_s: 0,
            t_end_s: 10,
            active_bytes: 12_000_000_000,
            cache_bytes: 500_000_000,
            device_alloc_bytes: 13_100_000_000,
            recommended_max_bytes: 26_800_000_000,
        }],
        windows: vec![TimelineWindow {
            t_start_s: 236,
            t_end_s: 241,
            peak_bytes: 30_700_000_000,
            peak_pct: 115,
            peak_scope: "<unscoped>".into(),
        }],
    };
    let s = render_timeline(&t);
    assert!(s.contains("t+0s"), "{s}");
    assert!(s.contains("12.00 GB"), "{s}");
    assert!(s.contains("49%"), "{s}");
    assert!(s.contains("1 over-budget window(s)"), "{s}");
    assert!(s.contains("t+236s..t+241s peak 30.70 GB (115%)"), "{s}");
}

#[test]
fn no_windows_message() {
    let t = MemTimeline {
        bucket_seconds: 10,
        buckets: vec![],
        windows: vec![],
    };
    assert!(render_timeline(&t).contains("no over-budget windows"));
}
