//! Gaps in the live stream.

use smeltr::commands::tail::{follow, gap_line, passes, Gap, Printed, SeqTracker};
use smeltr::event::{Event, Payload, Source, Uuid};

fn ev(session: Uuid, seq: u64) -> Event {
    Event {
        ts_mono_ns: seq,
        ts_wall_ns: 0,
        session_id: session,
        source: Source::Mark,
        pid: None,
        seq,
        payload: Payload::Mark {
            label: "m".into(),
            fields: Default::default(),
        },
    }
}

#[test]
fn seqtracker_no_gap_on_contiguous() {
    let s = Uuid::from_u128(1);
    let mut t = SeqTracker::default();
    assert_eq!(t.observe(&ev(s, 5)), None); // baseline (mid-stream join)
    assert_eq!(t.observe(&ev(s, 6)), None);
    assert_eq!(t.observe(&ev(s, 7)), None);
}

#[test]
fn seqtracker_detects_skip() {
    let s = Uuid::from_u128(1);
    let mut t = SeqTracker::default();
    assert_eq!(t.observe(&ev(s, 5)), None);
    assert_eq!(
        t.observe(&ev(s, 9)),
        Some(Gap {
            session_id: s,
            expected: 6,
            got: 9
        })
    );
    // after a gap, tracking resumes from the new value
    assert_eq!(t.observe(&ev(s, 10)), None);
}

#[test]
fn seqtracker_is_per_session() {
    let a = Uuid::from_u128(1);
    let b = Uuid::from_u128(2);
    let mut t = SeqTracker::default();
    assert_eq!(t.observe(&ev(a, 5)), None);
    assert_eq!(t.observe(&ev(b, 100)), None); // different session: baseline, not a gap
    assert_eq!(t.observe(&ev(a, 6)), None); // a stays contiguous
    assert_eq!(t.observe(&ev(b, 101)), None);
}

#[test]
fn gap_line_shape() {
    let g = Gap {
        session_id: Uuid::nil(),
        expected: 6,
        got: 9,
    };
    let line = gap_line(&g);
    let v: serde_json::Value = serde_json::from_str(&line).unwrap();
    assert_eq!(v["_smeltr_tail"], "gap");
    assert_eq!(v["skipped"], 3);
    assert_eq!(v["expected"], 6);
    assert_eq!(v["got"], 9);
}

#[test]
fn seqtracker_ignores_regression_without_false_gap() {
    let s = Uuid::from_u128(1);
    let mut t = SeqTracker::default();
    assert_eq!(t.observe(&ev(s, 5)), None); // baseline
    assert_eq!(t.observe(&ev(s, 4)), None); // regression/duplicate: no gap
    assert_eq!(t.observe(&ev(s, 6)), None); // next contiguous after 5 is still clean
}

#[test]
fn passes_filters_by_session() {
    let a = Uuid::from_u128(1);
    let b = Uuid::from_u128(2);
    assert!(passes(&ev(a, 0), None));
    assert!(passes(&ev(a, 0), Some(a)));
    assert!(!passes(&ev(a, 0), Some(b)));
}

/// Events of other sessions leave no trace, and a gap is told in front of the
/// event behind it.
#[test]
fn following_one_session() {
    let (a, b) = (Uuid::from_u128(1), Uuid::from_u128(2));
    let mut t = SeqTracker::default();
    assert_eq!(follow(&mut t, &ev(a, 1), Some(a)), Printed::Event(None));
    assert_eq!(follow(&mut t, &ev(b, 1), Some(a)), Printed::Skipped);
    assert_eq!(follow(&mut t, &ev(b, 9), Some(a)), Printed::Skipped);
    let line = match follow(&mut t, &ev(a, 4), Some(a)) {
        Printed::Event(Some(line)) => line,
        other => panic!("{other:?}"),
    };
    assert!(line.contains("\"expected\":2,\"got\":4,\"skipped\":2"), "{line}");
    assert_eq!(follow(&mut t, &ev(a, 5), None), Printed::Event(None));
    assert_eq!(follow(&mut t, &ev(b, 50), None), Printed::Event(None));
}
