//! Footprint samples by process.

use smeltr::event::{Event, Payload, Source, Uuid};
use smeltr::footprint::compute_footprint_summary;

fn ev(ts: u64, pid: u32, name: &str, bytes: u64, root: bool) -> Event {
    Event {
        ts_mono_ns: ts,
        ts_wall_ns: ts,
        session_id: Uuid::nil(),
        source: Source::Proc,
        pid: None,
        seq: ts,
        payload: Payload::ProcFootprint {
            pid,
            name: name.into(),
            phys_footprint_bytes: bytes,
            lifetime_max_phys_footprint_bytes: bytes + 1,
            is_traced_root: root,
        },
    }
}

#[test]
fn summary_keeps_peak_per_pid() {
    let events = vec![
        ev(1, 100, "python", 5_000, true),
        ev(2, 100, "python", 9_000, true),
        ev(3, 100, "python", 7_000, true),
    ];
    let s = compute_footprint_summary(&events);
    assert_eq!(s.len(), 1);
    assert_eq!(s[0].pid, 100);
    assert_eq!(s[0].peak_bytes, 9_000);
    assert_eq!(s[0].lifetime_max_bytes, 9_001);
    assert_eq!(s[0].sample_count, 3);
    assert!(s[0].is_traced_root);
}

#[test]
fn summary_is_sorted_by_peak_descending() {
    let events = vec![
        ev(1, 100, "small", 1_000, true),
        ev(2, 200, "big", 9_000, false),
        ev(3, 300, "mid", 5_000, false),
    ];
    let s = compute_footprint_summary(&events);
    let pids: Vec<u32> = s.iter().map(|x| x.pid).collect();
    assert_eq!(pids, vec![200, 300, 100]);
}

#[test]
fn no_footprint_events_yields_empty() {
    assert!(compute_footprint_summary(&[]).is_empty());
}
