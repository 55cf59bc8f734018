//! Rising footprints.

use smeltr::event::{Event, Payload, Source, Uuid};
use smeltr::rule::Rule;
use smeltr::rules::jetsam_risk::JetsamRiskRule;
use smeltr::finding::{Category, Severity};

fn ev(ts: u64, source: Source, payload: Payload) -> Event {
    Event {
        ts_mono_ns: ts,
        ts_wall_ns: ts,
        session_id: Uuid::nil(),
        source,
        pid: None,
        seq: ts,
        payload,
    }
}


fn footprint(ts: u64, bytes: u64) -> Event {
    ev(
        ts,
        Source::Proc,
        Payload::ProcFootprint {
            pid: 4242,
            name: "python".into(),
            phys_footprint_bytes: bytes,
            lifetime_max_phys_footprint_bytes: bytes,
            is_traced_root: true,
        },
    )
}

#[test]
fn rising_footprint_then_silence_is_a_risk() {
    let events = vec![
        footprint(1, 4_000_000_000),
        footprint(2, 9_000_000_000),
        footprint(3, 18_000_000_000),
    ];
    let f = JetsamRiskRule.check(&events);
    assert_eq!(f.len(), 1, "got: {f:#?}");
    assert_eq!(f[0].severity, Severity::Warning);
    // The words of a presumption, not of a verdict.
    assert!(
        f[0].detail.contains("peut") || f[0].detail.contains("possible"),
        "detail: {}",
        f[0].detail
    );
}

#[test]
fn flat_footprint_is_not_a_risk() {
    let events = vec![
        footprint(1, 4_000_000_000),
        footprint(2, 4_100_000_000),
        footprint(3, 4_050_000_000),
    ];
    assert!(JetsamRiskRule.check(&events).is_empty());
}

#[test]
fn confirmed_kill_suppresses_the_weaker_signal() {
    // Where the kill itself is known, the risk keeps quiet: two findings on
    // one fact are noise.
    let events = vec![
        footprint(1, 4_000_000_000),
        footprint(2, 18_000_000_000),
        ev(
            3,
            Source::CrashReport,
            Payload::JetsamKill {
                path: "/x/j.ips".into(),
                killed_pid: Some(4242),
                killed_name: "python".into(),
                footprint_bytes: 21_474_836_480,
                lifetime_max_bytes: 21_474_836_480,
                page_size: 16_384,
                reason: Some("per-process-limit".into()),
            },
        ),
    ];
    assert!(JetsamRiskRule.check(&events).is_empty());
}

#[test]
fn no_footprint_samples_yield_nothing() {
    assert!(JetsamRiskRule.check(&[]).is_empty());
}

fn session_ended(ts: u64) -> Event {
    ev(
        ts,
        Source::System,
        Payload::SessionEnded {
            wall_unix_ns: ts,
            reason: "record:exit pid=4242".into(),
        },
    )
}

/// The slope alone fires on practically EVERY healthy run: the first sample is
/// taken at the attachment, before the child has executed anything, and the last
/// one is the peak of the run. A warning that always fires teaches to ignore the
/// whole list.
///
/// `SessionEnded` is written only at a clean end, so its absence from the STREAM
/// is a true sign of an abnormal one.
#[test]
fn a_healthy_rising_session_that_ended_cleanly_is_not_a_risk() {
    let events = vec![
        footprint(1, 15_000_000),
        footprint(2, 500_000_000),
        footprint(3, 1_007_000_000),
        session_ended(4),
    ];
    assert!(
        JetsamRiskRule.check(&events).is_empty(),
        "got: {:#?}",
        JetsamRiskRule.check(&events)
    );
}

/// The same slope WITHOUT a clean end stays a risk: that is the shape that a
/// jetsam kill leaves.
#[test]
fn the_same_rise_without_a_clean_end_is_still_a_risk() {
    let events = vec![
        footprint(1, 15_000_000),
        footprint(2, 500_000_000),
        footprint(3, 1_007_000_000),
    ];
    assert_eq!(JetsamRiskRule.check(&events).len(), 1);
}
