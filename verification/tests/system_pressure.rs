//! Processes that aggravate crashes.

use smeltr::event::{Event, Payload, ProcEntry, Source, Uuid};
use smeltr::rule::Rule;
use smeltr::rules::system_pressure::{pressure_process_names, SystemPressureRule};

fn ev(ts: u64, source: Source, payload: Payload) -> Event {
    Event {
        ts_mono_ns: ts,
        ts_wall_ns: ts,
        session_id: Uuid::nil(),
        source,
        pid: None,
        seq: ts,
        payload,
    }
}


#[test]
fn flags_reportcrash_above_threshold() {
    let events = vec![ev(
        1,
        Source::Proc,
        Payload::ProcTop {
            top: vec![ProcEntry {
                pid: 100,
                name: "ReportCrash".into(),
                cpu_pct: 12.4f32.to_bits(),
            }],
            flagged: vec![],
        },
    )];
    let findings = SystemPressureRule.check(&events);
    assert_eq!(findings.len(), 1);
    assert!(findings[0].title.contains("ReportCrash"));
    assert!(findings[0].title.contains("12.4%"));
}

#[test]
fn ignores_below_threshold() {
    let events = vec![ev(
        1,
        Source::Proc,
        Payload::ProcTop {
            top: vec![ProcEntry {
                pid: 100,
                name: "ReportCrash".into(),
                cpu_pct: 1.0f32.to_bits(),
            }],
            flagged: vec![],
        },
    )];
    assert!(SystemPressureRule.check(&events).is_empty());
}

#[test]
fn ignores_unflagged_process() {
    let events = vec![ev(
        1,
        Source::Proc,
        Payload::ProcTop {
            top: vec![ProcEntry {
                pid: 100,
                name: "ordinary_app".into(),
                cpu_pct: 80.0f32.to_bits(),
            }],
            flagged: vec![],
        },
    )];
    assert!(SystemPressureRule.check(&events).is_empty());
}

/// one finding per 2 s sample meant ~30 identical warnings for a
/// minute of `spindump`.
#[test]
fn one_finding_per_process_with_its_peak() {
    let events: Vec<Event> = (1..=30u64)
        .map(|i| {
            ev(
                i,
                Source::Proc,
                Payload::ProcTop {
                    top: vec![ProcEntry {
                        pid: 100,
                        name: "spindump".into(),
                        cpu_pct: if i == 17 { 31.0f32.to_bits() } else { 8.0f32.to_bits() },
                    }],
                    flagged: vec![],
                },
            )
        })
        .collect();
    let findings = SystemPressureRule.check(&events);
    assert_eq!(findings.len(), 1, "{findings:#?}");
    assert!(findings[0].title.contains("31.0%"), "{}", findings[0].title);
    assert!(
        findings[0].title.contains("30 samples"),
        "{}",
        findings[0].title
    );
    assert_eq!(findings[0].evidence[0].seq, 17, "evidence is the peak");
}

/// the proc probe flags UserNotificationCenter (and the README
/// says so) but this rule kept its own, different list.
#[test]
fn flags_every_process_the_probe_flags() {
    for name in pressure_process_names() {
        let events = vec![ev(
            1,
            Source::Proc,
            Payload::ProcTop {
                top: vec![ProcEntry {
                    pid: 100,
                    name: name.into(),
                    cpu_pct: 12.0f32.to_bits(),
                }],
                flagged: vec![],
            },
        )];
        assert_eq!(SystemPressureRule.check(&events).len(), 1, "{name}");
    }
}
