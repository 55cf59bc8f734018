//! Residency near or over the budget.

use smeltr::event::{Event, Payload, Source, Uuid};
use smeltr::rule::Rule;
use smeltr::rules::residency_pressure::ResidencyPressureRule;
use smeltr::finding::Severity;

fn ev(ts: u64, source: Source, payload: Payload) -> Event {
    Event {
        ts_mono_ns: ts,
        ts_wall_ns: ts,
        session_id: Uuid::nil(),
        source,
        pid: None,
        seq: ts,
        payload,
    }
}


fn sample(resident: u64, rec_max: u64) -> Event {
    Event {
        ts_mono_ns: 0,
        ts_wall_ns: 0,
        session_id: Uuid::nil(),
        source: Source::MetalHook,
        pid: None,
        seq: 0,
        payload: Payload::MetalResidencySample {
            resident_bytes: resident,
            recommended_max_bytes: rec_max,
            set_count: 1,
            at_event: "cb_committed".into(),
        },
    }
}

#[test]
fn flags_over_budget_critical() {
    let f = ResidencyPressureRule.check(&[sample(1100, 1000)]);
    assert_eq!(f.len(), 1);
    assert_eq!(f[0].severity, Severity::Critical);
}

#[test]
fn flags_near_budget_warning() {
    let f = ResidencyPressureRule.check(&[sample(950, 1000)]);
    assert_eq!(f.len(), 1);
    assert_eq!(f[0].severity, Severity::Warning);
}

#[test]
fn residency_pressure_silent_below_threshold() {
    assert!(ResidencyPressureRule.check(&[sample(500, 1000)]).is_empty());
}
