//! Listing and showing sessions, and the audit of the probes.

use smeltr::commands::doctor::{
    check_crash_reports, check_ioreport, check_mach_exc, check_oslog, check_proc, check_thermal,
    check_vm, report, reports_dir, Status,
};
use smeltr::commands::sessions::{
    event_kind, list_text, not_found_error, show_session, source_name, unresolved_error,
};
use smeltr::event::{Event, Payload, SessionKind, SessionMetadata, Source, Uuid};
use smeltr::session_resolver::SessionEntry;

fn metadata(kind: SessionKind) -> SessionMetadata {
    SessionMetadata {
        session_id: Uuid::from_u128(0xabcd),
        kind,
        name: None,
        host: "mac".into(),
        started_rfc3339: "2026-07-01T00:00:00Z".into(),
        ended_rfc3339: Some("2026-07-01T00:01:00Z".into()),
        exit_code: Some(-1),
        term_signal: None,
        scope_token: None,
    }
}

#[test]
fn sessions_are_annotated() {
    assert_eq!(list_text(&[]), "(no sessions)\n");
    let entry = |dir: &str, meta: Option<SessionMetadata>| SessionEntry {
        dir: dir.into(),
        meta,
    };
    let text = list_text(&[
        entry("a", Some(metadata(SessionKind::Ambient))),
        entry(
            "b",
            Some(metadata(SessionKind::Scoped {
                pid: 42,
                argv: vec!["python".into(), "x.py".into()],
            })),
        ),
        entry("c", None),
    ]);
    assert_eq!(text, "a [ambient]\nb [scoped pid=42 cmd=python x.py]\nc\n");
    assert_eq!(not_found_error("x"), "session x not found");
    assert_eq!(unresolved_error("ABC"), "could not resolve session id `abc`");
}

#[test]
fn sessions_are_shown() {
    let ev = |seq: u64, payload: Payload| Event {
        ts_mono_ns: 1_000 * seq,
        ts_wall_ns: 0,
        session_id: Uuid::nil(),
        source: Source::MetalHook,
        pid: None,
        seq,
        payload,
    };
    let events = [
        ev(1, Payload::MetalHookDropped { count: 3 }),
        ev(2, Payload::ThermalState { level: 1 }),
    ];
    let others = ["dropped".to_string(), "ThermalState { level: 1 }".to_string()];
    assert_eq!(
        show_session(&metadata(SessionKind::Ambient), &events, &others),
        "session    00000000-0000-0000-0000-00000000abcd\n\
         started    2026-07-01T00:00:00Z\n\
         ended      2026-07-01T00:01:00Z\n\
         host       mac\n\
         exit_code  -1\n\
         events     2\n\
         \n\
         \x20 +      1000ns  seq=   1  src=MetalHook  MetalHookDropped count=3\n\
         \x20 +      2000ns  seq=   2  src=MetalHook  ThermalState { level: 1 }\n"
    );
    assert_eq!(source_name(Source::PythonSidecar), "PythonSidecar");
}

#[test]
fn events_have_words() {
    let kind = |p: Payload| event_kind(&p, "other");
    assert_eq!(
        kind(Payload::PythonSidecarHello {
            python_version: "3.12".into(),
            mlx_version: None,
            argv: vec!["a".into(), "b\"".into()],
        }),
        "PythonSidecarHello python=3.12 mlx=none argv=[\"a\", \"b\\\"\"]"
    );
    assert_eq!(
        kind(Payload::MetalCbCompleted {
            cb_id: 255,
            queue_id: 1,
            status: 5,
            error_code: Some(-14),
            error_domain: None,
            in_flight_ns: 2_999_999,
        }),
        "MetalCbCompleted cb_id=0xff queue_id=1 status=5 error_code=-14 domain=- in_flight=2ms"
    );
    assert_eq!(
        kind(Payload::MetalBufferAlloc {
            buffer_id: 16,
            heap_id: None,
            size_bytes: 2048,
            label: Some("w".into()),
        }),
        "MetalBufferAlloc buf=0x10 heap=- size=2 KiB label=w"
    );
    assert_eq!(
        kind(Payload::MlxArrayAlive {
            array_id: 1,
            size_bytes: 10,
            dtype: "f16".into(),
            shape: vec![2, 5],
            stream: "gpu".into(),
        }),
        "MlxArrayAlive id=0x1 size=10 B dtype=f16 shape=[2, 5] stream=gpu"
    );
    assert_eq!(kind(Payload::ThermalState { level: 1 }), "other");
}

#[test]
fn probes_are_audited() {
    assert_eq!(check_vm(None).status, Status::Available);
    assert_eq!(check_vm(Some("no".into())).detail, "no");
    assert_eq!(check_proc(Ok(3)).detail, "/usr/bin/top reachable, 3 rows");
    assert_eq!(check_proc(Ok(0)).status, Status::Degraded);
    assert_eq!(check_proc(Err("x".into())).status, Status::Failed);
    assert_eq!(
        check_thermal(Ok(2)).detail,
        "kern.thermalstate=2 (root needed for SMC keys)"
    );
    assert_eq!(
        check_thermal(Err("x".into())).detail,
        "kern.thermalstate unavailable: x"
    );
    assert_eq!(check_oslog(false).status, Status::Failed);
    assert_eq!(check_ioreport().status.label(), "degraded");
    let dir = reports_dir("/h");
    assert_eq!(dir, "/h/Library/Logs/DiagnosticReports");
    assert_eq!(check_crash_reports(Some(dir.clone()), true).status, Status::Available);
    assert_eq!(check_crash_reports(Some(dir), false).status, Status::Degraded);
    assert_eq!(check_crash_reports(None, false).detail, "HOME not set");
    assert_eq!(check_mach_exc(Some("x".into()), None).status, Status::Failed);
    assert_eq!(check_mach_exc(None, Some(true)).status, Status::Available);
    assert_eq!(check_mach_exc(None, Some(false)).status, Status::Degraded);
    assert_eq!(check_mach_exc(None, None).status, Status::Available);
    let text = report(&[check_vm(None), check_oslog(false)]);
    assert!(text.starts_with("smeltr doctor — probe availability\n\n"));
    assert!(text.contains("  [ok       ] vm               host_statistics64 ok\n"));
    assert!(text.ends_with("\n1 probe(s) failed. Smeltr will run with these disabled.\n"));
    assert!(!report(&[check_vm(None)]).contains("failed"));
}
