//! The comparison of two sessions as text.

use smeltr::columns::truncate;
use smeltr::commands::compare::render;
use smeltr::diff::{MemoryDelta, Percent, ScopeDelta, SessionDiff};
use smeltr::double::quotient;

#[test]
fn truncate_counts_chars_not_bytes() {
    // 50 ASCII chars (50 bytes) — fits, untouched.
    let ascii = "a".repeat(50);
    assert_eq!(truncate(&ascii, 50), ascii);
    // 49 chars including a multibyte one (>49 bytes) — must still fit.
    let multi = format!("{}é", "a".repeat(48));
    assert_eq!(truncate(&multi, 50), multi);
    // 51 chars — must truncate to 49 chars + ellipsis = 50.
    let long = "a".repeat(51);
    let out = truncate(&long, 50);
    assert_eq!(out.chars().count(), 50);
    assert!(out.ends_with('…'));
}



fn empty_diff() -> SessionDiff {
    SessionDiff {
        scope_deltas: vec![],
        op_deltas: vec![],
        scopes_only_in_a: vec![],
        scopes_only_in_b: vec![],
    }
}

#[test]
fn render_empty_diff_shows_section_titles() {
    let s = render(&empty_diff(), &[], 20);
    assert!(s.contains("SCOPE DELTAS"));
    assert!(s.contains("OP KIND DELTAS"));
    assert!(s.contains("SCOPES ONLY IN A"));
    assert!(s.contains("SCOPES ONLY IN B"));
    assert!(s.contains("no scopes present in both sessions"));
    assert!(s.contains("no ops in either session"));
}

#[test]
fn compare_render_caps_to_top_n() {
    let mut diff = empty_diff();
    diff.scope_deltas = (0..50)
        .map(|i| ScopeDelta {
            qualname: format!("s{i}"),
            a_gpu_ns: 1000,
            b_gpu_ns: 1000 + i as u64,
            delta_ns: i as i64,
            delta_pct: Some(Percent {
                negative: false,
                magnitude: quotient(1, 10),
            }),
        })
        .collect();
    let s = render(&diff, &[], 5);
    assert!(s.contains("showing top 5 of 50"));
}

#[test]
fn render_formats_seconds_and_percent() {
    let mut diff = empty_diff();
    diff.scope_deltas = vec![ScopeDelta {
        qualname: "foo".into(),
        a_gpu_ns: 2_000_000_000,
        b_gpu_ns: 1_000_000_000,
        delta_ns: -1_000_000_000,
        delta_pct: Some(Percent {
            negative: true,
            magnitude: quotient(50, 1),
        }),
    }];
    let s = render(&diff, &[], 20);
    assert!(s.contains("2.000s"));
    assert!(s.contains("1.000s"));
    assert!(s.contains("-1.000s"));
    assert!(s.contains("-50.0%"));
}

#[test]
fn render_includes_memory_deltas() {
    let memory = vec![MemoryDelta {
        qualname: "scope".into(),
        a_peak_bytes: 2_000_000_000,
        b_peak_bytes: 1_000_000_000,
        delta_bytes: -1_000_000_000,
        delta_pct: Some(Percent {
            negative: true,
            magnitude: quotient(50, 1),
        }),
    }];
    let s = render(&empty_diff(), &memory, 20);
    assert!(s.contains("MEMORY DELTAS"));
    assert!(s.contains("1.86 GB"));
    assert!(s.contains("953.67 MB"));
    assert!(s.contains("-50.0%"));
}

#[test]
fn render_empty_memory_shows_placeholder() {
    let s = render(&empty_diff(), &[], 20);
    assert!(s.contains("no memory deltas"));
}
