//! Whole sessions.

use smeltr::crash_join::ReportFile;
use smeltr::event::{
    Event, Payload, ProcEntry, SessionKind, SessionMetadata, Source, Uuid,
};
use smeltr::ids::short;
use smeltr::{analyze, analyze_session, Category, Severity};

#[test]
fn empty_events_yields_empty_report() {
    let r = analyze(&[]);
    assert!(r.findings.is_empty());
    assert_eq!(r.event_count, 0);
    assert!(r.session_short.is_none());
}

#[test]
fn render_handles_empty_report() {
    let r = analyze(&[]);
    let text = r.render();
    assert!(text.contains("=== smeltr analyze ==="));
    assert!(text.contains("events:  0"));
}

fn ev(seq: u64, ts: u64, source: Source, payload: Payload) -> Event {
    Event {
        ts_mono_ns: ts,
        ts_wall_ns: ts,
        session_id: Uuid::nil(),
        source,
        pid: None,
        seq,
        payload,
    }
}

fn proc(name: &str, cpu: f32) -> ProcEntry {
    ProcEntry {
        pid: 100,
        name: name.into(),
        cpu_pct: cpu.to_bits(),
    }
}

fn metadata(id: u128) -> SessionMetadata {
    SessionMetadata {
        session_id: Uuid::from_u128(id),
        kind: SessionKind::Scoped {
            pid: 11672,
            argv: vec!["python".into()],
        },
        name: None,
        host: "host".into(),
        started_rfc3339: "2026-08-09T12:00:00Z".into(),
        ended_rfc3339: Some("2026-08-09T12:10:00Z".into()),
        exit_code: None,
        term_signal: Some(6),
        scope_token: None,
    }
}

/// A run that the GPU watchdog ended: the four things worth knowing are told.
#[test]
fn synthetic_watchdog_yields_all_four_done_items() {
    let events = vec![
        ev(
            0,
            1_000_000_000,
            Source::PythonSidecar,
            Payload::MlxEvalEntered {
                call_id: 1,
                array_count: 1,
                stream: "gpu".into(),
                module_stack: vec![],
                stack_frames: vec![],
            },
        ),
        ev(
            1,
            2_000_000_000,
            Source::MetalHook,
            Payload::MetalCbCommitted {
                cb_id: 2,
                queue_id: 1,
                queue_depth: 23,
                label: None,
            },
        ),
        ev(
            2,
            2_400_000_000,
            Source::PythonSidecar,
            Payload::MlxEvalReturned {
                call_id: 1,
                duration_ns: 1_400_000_000,
                was_async: true,
            },
        ),
        ev(
            3,
            2_500_000_000,
            Source::Proc,
            Payload::ProcTop {
                top: vec![proc("ReportCrash", 12.4), proc("diagnosticservicesd", 9.5)],
                flagged: vec![],
            },
        ),
        ev(
            4,
            3_000_000_000,
            Source::MetalHook,
            Payload::MetalCbCompleted {
                cb_id: 2,
                queue_id: 1,
                status: 5,
                error_code: Some(14),
                error_domain: Some("IOGPU".into()),
                in_flight_ns: 1_000_000_000,
            },
        ),
    ];
    let report = analyze(&events);

    // 1. kIOGPUCommandBufferCallback* code is named.
    let rc = report.root_cause().expect("missing root cause");
    assert_eq!(rc.severity, Severity::Critical);
    assert_eq!(rc.category, Category::RootCause);
    assert!(
        rc.title.contains("ImpactingInteractivity"),
        "root cause title was {:?}",
        rc.title
    );

    // 2. Queue depth at crash is reported.
    let factors = report.contributing_factors();
    let queue = factors
        .iter()
        .find(|f| f.title.contains("Queue depth peaked"))
        .expect("missing queue depth finding");
    assert!(
        queue.title.contains("23"),
        "queue title was {:?}",
        queue.title
    );

    // 3. mx.eval timing relative to crash.
    let timings = report.timing();
    let timing = timings
        .iter()
        .find(|f| f.title.contains("call_id=1"))
        .expect("missing mx.eval timing finding");
    assert!(
        timing.detail.contains("before crash"),
        "timing detail was {:?}",
        timing.detail
    );

    // 4. System pressure: ReportCrash + diagnosticservicesd above threshold.
    let pressures = report.system_pressure();
    let names: Vec<&str> = pressures.iter().map(|f| f.title.as_str()).collect();
    assert!(
        names.iter().any(|t| t.contains("ReportCrash")),
        "expected ReportCrash flag, got {:?}",
        names
    );
    assert!(
        names.iter().any(|t| t.contains("diagnosticservicesd")),
        "expected diagnosticservicesd flag, got {:?}",
        names
    );

    // Render the full report — must include all sections.
    let text = report.render();
    assert!(text.contains("ROOT CAUSE"));
    assert!(text.contains("CONTRIBUTING FACTORS"));
    assert!(text.contains("TIMING"));
    assert!(text.contains("SYSTEM PRESSURE"));
}

/// Post-mortem sessions carry events stamped with the ambient session that
/// ingested them; the header must name the session that was actually analyzed.
#[test]
fn report_header_uses_metadata_id_not_event_stamps() {
    let meta = metadata(0xdead_beef_0000_1111_2222_3333_4444_5555);
    let mut e = ev(
        1,
        1,
        Source::System,
        Payload::SessionStarted { wall_unix_ns: 1 },
    );
    e.session_id = Uuid::from_u128(0x1234);
    let report = analyze_session(Some(&meta), &[e.clone()], &[], 2);
    assert_eq!(
        report.session_short.as_deref(),
        Some(short(meta.session_id).as_str())
    );
    assert_eq!(report.session_short.as_deref(), Some("44445555"));
    let without = analyze_session(None, &[e], &[], 2);
    assert_ne!(without.session_short, report.session_short);
}

/// A crash report joined to the session leads the findings.
#[test]
fn a_joined_crash_leads() {
    let meta = metadata(7);
    let file = ReportFile {
        path: "/r/Python.ips".into(),
        mtime_ns: smeltr::clock::rfc3339_unix_ns("2026-08-09T12:10:05Z"),
        parsed: Some(Payload::CrashReportEmitted {
            path: "/r/Python.ips".into(),
            crashed_pid: Some(11672),
            signal: Some("SIGABRT".into()),
            exception_codes: vec![],
            summary: "EXC_CRASH (SIGABRT)".into(),
        }),
    };
    let report = analyze_session(Some(&meta), &[], &[vec![file]], u64::MAX);
    let rc = report.root_cause().expect("missing root cause");
    assert_eq!(rc.title, "Recorded process crashed (SIGABRT)");
    assert_eq!(report.findings[0], *rc);
}
