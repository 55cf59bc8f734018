//! Sessions without a sidecar.

use smeltr::event::{Event, Payload, Source, Uuid};
use smeltr::rule::Rule;
use smeltr::rules::sidecar_absent::{detect, detect_nothing_instrumented, SidecarAbsentRule};
use smeltr::finding::Severity;

fn ev(ts: u64, source: Source, payload: Payload) -> Event {
    Event {
        ts_mono_ns: ts,
        ts_wall_ns: ts,
        session_id: Uuid::nil(),
        source,
        pid: None,
        seq: ts,
        payload,
    }
}


fn cb_completed(ts: u64, cb_id: u64) -> Event {
    ev(
        ts,
        Source::MetalHook,
        Payload::MetalCbCompleted {
            cb_id,
            queue_id: 1,
            status: 4,
            error_code: None,
            error_domain: None,
            in_flight_ns: 1_000,
        },
    )
}

#[test]
fn metal_only_session_is_detected() {
    let events = vec![cb_completed(100, 1), cb_completed(200, 2)];
    let absent = detect(&events).expect("should detect");
    assert_eq!(absent.metal_cb_count, 2);
    assert_eq!(absent.first_seq, 100);
    assert!(absent.advice().contains("pip install"));
}

#[test]
fn any_sidecar_event_suppresses_detection() {
    let hello = ev(
        10,
        Source::PythonSidecar,
        Payload::PythonSidecarHello {
            python_version: "3.12".into(),
            mlx_version: None,
            argv: vec![],
        },
    );
    let module = ev(
        10,
        Source::PythonSidecar,
        Payload::ModuleEntered {
            module_call_id: 1,
            module_def_id: 1,
            qualname: "A".into(),
            class_name: "A".into(),
            parent_call_id: None,
            depth: 0,
            fields: Default::default(),
        },
    );
    let eval = ev(
        10,
        Source::PythonSidecar,
        Payload::MlxEvalEntered {
            call_id: 1,
            array_count: 1,
            stream: "gpu".into(),
            module_stack: vec![],
            stack_frames: vec![],
        },
    );
    for sidecar_ev in [hello, module, eval] {
        let events = vec![sidecar_ev, cb_completed(100, 1)];
        assert!(detect(&events).is_none());
    }
}

#[test]
fn no_metal_work_is_not_reported() {
    // No CBs at all (hook skipped, e.g. hardened binary): nothing to say.
    assert!(detect(&[]).is_none());
    let events = vec![ev(
        1,
        Source::MetalHook,
        Payload::MetalHookSkipped {
            reason: "hardened binary".into(),
        },
    )];
    assert!(detect(&events).is_none());
}

#[test]
fn rule_emits_info_finding_with_advice() {
    let findings = SidecarAbsentRule.check(&[cb_completed(100, 1)]);
    assert_eq!(findings.len(), 1, "got: {findings:#?}");
    assert_eq!(findings[0].severity, Severity::Info);
    assert!(findings[0].detail.contains("pip install"));
    assert_eq!(findings[0].evidence.len(), 1);
}

fn vm_sample(ts: u64) -> Event {
    ev(
        ts,
        Source::Vm,
        Payload::VmSample {
            wired_bytes: 1,
            active_bytes: 1,
            compressed_bytes: 0,
            swap_used_bytes: 0,
            page_outs_per_sec: 0.0f32.to_bits(),
        },
    )
}

#[test]
fn system_only_session_is_nothing_instrumented() {
    // The daemon's ambient session: nothing but system probes.
    let events = vec![vm_sample(10), vm_sample(20)];
    let n = detect_nothing_instrumented(&events).expect("should detect");
    assert_eq!(n.event_count, 2);
    assert!(n.advice().contains("--last"));
}

#[test]
fn metal_work_suppresses_nothing_instrumented() {
    // There is Metal work: that is the other shape, not this one.
    let events = vec![vm_sample(10), cb_completed(100, 1)];
    assert!(detect_nothing_instrumented(&events).is_none());
}

#[test]
fn sidecar_events_suppress_nothing_instrumented() {
    let events = vec![ev(
        10,
        Source::PythonSidecar,
        Payload::PythonSidecarHello {
            python_version: "3.12".into(),
            mlx_version: None,
            argv: vec![],
        },
    )];
    assert!(detect_nothing_instrumented(&events).is_none());
}

fn proc_footprint(ts: u64) -> Event {
    ev(
        ts,
        Source::Proc,
        Payload::ProcFootprint {
            pid: 4242,
            name: "sleep".into(),
            phys_footprint_bytes: 1_000_000,
            lifetime_max_phys_footprint_bytes: 1_000_000,
            is_traced_root: true,
        },
    )
}

/// A run recorded without the hook is a SCOPED session that holds nothing but
/// `ProcFootprint`. To tell a user who has just recorded a run that they look at
/// the ambient session, and to advise recording one, is wrong twice.
///
/// Ambient sessions never hold `ProcFootprint`: its presence decides.
#[test]
fn a_session_with_footprint_samples_is_not_called_ambient() {
    let events = vec![proc_footprint(10), proc_footprint(20)];
    let n = detect_nothing_instrumented(&events).expect("should detect");
    let advice = n.advice();
    assert!(!advice.contains("ambiante"), "advice: {advice}");
    // What is really known is still told.
    assert!(advice.contains("Metal"), "advice: {advice}");
    assert!(advice.contains("sidecar"), "advice: {advice}");
}

/// Without `ProcFootprint` the shape is that of the ambient session, and the
/// advice to record a run makes sense.
#[test]
fn a_session_without_footprint_samples_still_mentions_the_ambient_shape() {
    let n = detect_nothing_instrumented(&[vm_sample(10)]).expect("should detect");
    assert!(n.advice().contains("ambiante"), "advice: {}", n.advice());
}

#[test]
fn empty_session_is_not_reported() {
    // No events: nothing to say, not even that nothing is instrumented.
    assert!(detect_nothing_instrumented(&[]).is_none());
}

/// The three shapes side by side, so that nobody takes one for another.
#[test]
fn the_two_detectors_are_mutually_exclusive() {
    let system_only = vec![vm_sample(10)];
    let metal_no_sidecar = vec![cb_completed(100, 1)];

    assert!(detect(&system_only).is_none());
    assert!(detect_nothing_instrumented(&system_only).is_some());

    assert!(detect(&metal_no_sidecar).is_some());
    assert!(detect_nothing_instrumented(&metal_no_sidecar).is_none());
}

#[test]
fn rule_emits_nothing_instrumented_finding() {
    let findings = SidecarAbsentRule.check(&[vm_sample(10)]);
    assert_eq!(findings.len(), 1, "got: {findings:#?}");
    assert_eq!(findings[0].severity, Severity::Info);
    assert!(findings[0].title.contains("instrument"));
}
