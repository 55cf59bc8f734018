//! Diagnostic reports and the sessions they are about.

use smeltr::crash_join::{
    crash_finding, diagnostic_reports_dirs, find_crash_report, find_jetsam_report, jetsam_finding,
    join_crash, join_jetsam, names_compatible, CrashJoin, JetsamJoin, ReportFile,
    CRASH_REPORT_GRACE_NS,
};
use smeltr::clock::rfc3339_unix_ns;
use smeltr::event::{Event, Payload, SessionKind, SessionMetadata, Source, Uuid};
use smeltr::finding::{Category, Finding, Severity};
use smeltr::report::Report;

/// The present, as far as these tests go.
fn now_ns() -> u64 {
    rfc3339_unix_ns("2026-08-09T12:37:16Z").unwrap()
}

fn crash_report(file: &str) -> ReportFile {
    ReportFile {
        path: file.into(),
        mtime_ns: Some(now_ns()),
        parsed: Some(Payload::CrashReportEmitted {
            path: file.into(),
            crashed_pid: Some(11672),
            signal: Some("SIGABRT".into()),
            exception_codes: vec!["0x0000000000000000".into()],
            summary: "EXC_CRASH (SIGABRT)".into(),
        }),
    }
}

fn jetsam_report(file: &str) -> ReportFile {
    ReportFile {
        path: file.into(),
        mtime_ns: Some(now_ns()),
        parsed: Some(Payload::JetsamKill {
            path: file.into(),
            killed_pid: Some(4242),
            killed_name: "python".into(),
            footprint_bytes: 1_310_720 * 16_384,
            lifetime_max_bytes: 1_310_720 * 16_384,
            page_size: 16_384,
            reason: Some("per-process-limit".into()),
        }),
    }
}

/// Window around the time a report was written.
fn window_around(f: &ReportFile) -> (u64, u64) {
    let mtime = f.mtime_ns.unwrap();
    (mtime.saturating_sub(60_000_000_000), mtime)
}

#[test]
fn joins_matching_pid_and_window() {
    let f = crash_report("/r/Python-2026-07-16-213821.ips");
    let (start, end) = window_around(&f);
    let j = find_crash_report(&[f], 11672, start, end, CRASH_REPORT_GRACE_NS).expect("no join");
    assert_eq!(j.crashed_pid, 11672);
    assert_eq!(j.signal.as_deref(), Some("SIGABRT"));
    assert!(j.summary.contains("EXC_CRASH"));
}

#[test]
fn pid_mismatch_yields_none() {
    let f = crash_report("/r/Python.ips");
    let (start, end) = window_around(&f);
    assert!(find_crash_report(&[f], 999, start, end, CRASH_REPORT_GRACE_NS).is_none());
}

#[test]
fn report_outside_window_plus_grace_yields_none() {
    let f = crash_report("/r/Python.ips");
    // Session ended an hour before the report was written.
    let (start, end) = window_around(&f);
    let (old_start, old_end) = (
        start.saturating_sub(3_600_000_000_000),
        end.saturating_sub(3_600_000_000_000),
    );
    assert!(find_crash_report(&[f], 11672, old_start, old_end, CRASH_REPORT_GRACE_NS).is_none());
}

#[test]
fn missing_dir_yields_none() {
    assert!(find_crash_report(&[], 11672, 0, u64::MAX / 2, 0).is_none());
}

/// Files of another kind are no reports, whatever they hold.
#[test]
fn only_reports_count() {
    for name in ["/r/Python.txt", "/r/.ips", "/r/Python.ips.bak", "ips"] {
        let mut f = crash_report("/r/Python.ips");
        f.path = name.into();
        let (start, end) = window_around(&f);
        assert!(
            find_crash_report(&[f], 11672, start, end, CRASH_REPORT_GRACE_NS).is_none(),
            "{name}"
        );
    }
}

/// The newest of several reports counts, and the first of equals.
#[test]
fn newest_report_counts() {
    let mut old = crash_report("/r/old.ips");
    let new = crash_report("/r/new.ips");
    let twin = crash_report("/r/twin.ips");
    old.mtime_ns = Some(now_ns() - 1_000_000_000);
    let (start, end) = window_around(&new);
    let j = find_crash_report(&[old, new, twin], 11672, start, end, 0).expect("no join");
    assert_eq!(j.path, "/r/new.ips");
}

#[test]
fn joins_jetsam_report_by_pid_and_window() {
    let f = jetsam_report("/r/JetsamEvent-2026-08-09-123716.ips");
    let (start, end) = window_around(&f);
    let j = find_jetsam_report(&[vec![f]], &[4242], &[], start, end, CRASH_REPORT_GRACE_NS)
        .expect("no join");
    assert_eq!(j.killed_pid, 4242);
    assert_eq!(j.killed_name, "python");
    assert_eq!(j.footprint_bytes, 1_310_720 * 16_384);
}

/// The guard against a false root cause: ANOTHER process's jetsam kill must
/// never be attributed to the run under analysis.
#[test]
fn does_not_join_jetsam_report_of_another_pid() {
    let f = jetsam_report("/r/JetsamEvent-2026-08-09-123716.ips");
    let (start, end) = window_around(&f);
    assert!(
        find_jetsam_report(&[vec![f]], &[999_999], &[], start, end, CRASH_REPORT_GRACE_NS)
            .is_none()
    );
}

/// Second guard: outside the wall-clock window, no join.
#[test]
fn does_not_join_jetsam_report_outside_window() {
    let f = jetsam_report("/r/JetsamEvent-2026-08-09-123716.ips");
    let (start, _end) = window_around(&f);
    assert!(find_jetsam_report(
        &[vec![f]],
        &[4242],
        &[],
        start.saturating_sub(600_000_000_000),
        start.saturating_sub(300_000_000_000),
        0
    )
    .is_none());
}

/// An ordinary crash report is not a jetsam report.
#[test]
fn regular_crash_report_is_not_joined_as_jetsam() {
    let f = crash_report("/r/Python-2026-07-16-213821.ips");
    let (start, end) = window_around(&f);
    assert!(
        find_jetsam_report(&[vec![f]], &[11672], &[], start, end, CRASH_REPORT_GRACE_NS).is_none()
    );
}

/// The SYSTEM directory must be in the list: that is where macOS writes
/// JetsamEvent-*.ips.
#[test]
fn jetsam_dirs_include_the_system_directory() {
    let dirs = diagnostic_reports_dirs(None, Some("/Users/u".into()));
    assert!(
        dirs.iter().any(|d| d == "/Library/Logs/DiagnosticReports"),
        "dirs: {dirs:?}"
    );
    assert_eq!(
        dirs,
        vec![
            "/Library/Logs/DiagnosticReports",
            "/Users/u/Library/Logs/DiagnosticReports"
        ]
    );
    assert_eq!(
        diagnostic_reports_dirs(None, None),
        vec!["/Library/Logs/DiagnosticReports"]
    );
    assert_eq!(
        diagnostic_reports_dirs(Some("/elsewhere".into()), Some("/Users/u".into())),
        vec!["/elsewhere"]
    );
}

#[test]
fn jetsam_finding_is_a_critical_root_cause() {
    let j = JetsamJoin {
        path: "/x/JetsamEvent.ips".into(),
        killed_pid: 4242,
        killed_name: "python".into(),
        footprint_bytes: 21_474_836_480,
        lifetime_max_bytes: 21_474_836_480,
        reason: Some("per-process-limit".into()),
    };
    let f = jetsam_finding(&j);
    assert_eq!(f.severity, Severity::Critical);
    assert_eq!(f.category, Category::RootCause);
    assert!(f.detail.contains("21"), "detail: {}", f.detail);
    assert!(f.detail.contains("jetsam") || f.title.contains("jetsam"));
    // The WHY of the kill must be surfaced: it is the question this
    // feature exists to answer.
    assert!(
        f.detail.contains("per-process-limit"),
        "detail: {}",
        f.detail
    );
}

/// With no kernel-reported reason the finding stays readable: no
/// "Reason: None" and no truncated sentence.
#[test]
fn jetsam_finding_without_a_reason_stays_clean() {
    let j = JetsamJoin {
        path: "/x/JetsamEvent.ips".into(),
        killed_pid: 4242,
        killed_name: "python".into(),
        footprint_bytes: 21_474_836_480,
        lifetime_max_bytes: 21_474_836_480,
        reason: None,
    };
    let f = jetsam_finding(&j);
    assert!(!f.detail.contains("Reason"), "detail: {}", f.detail);
    assert!(!f.detail.contains("None"), "detail: {}", f.detail);
}

/// The other reasons are told too.
#[test]
fn jetsam_finding_tells_other_reasons() {
    let mut j = JetsamJoin {
        path: "/x/JetsamEvent.ips".into(),
        killed_pid: 4242,
        killed_name: "python".into(),
        footprint_bytes: 21_474_836_480,
        lifetime_max_bytes: 21_474_836_480,
        reason: Some("vm-pageshortage".into()),
    };
    assert!(jetsam_finding(&j).detail.contains("the whole machine was short"));
    j.reason = Some("highwater".into());
    assert!(jetsam_finding(&j)
        .detail
        .contains("Reason as the kernel reports it: `highwater`."));
    assert!(jetsam_finding(&j)
        .detail
        .starts_with("jetsam killed PID 4242 (python) at a footprint of 21.47 GB"));
}

fn scoped_session(
    pid: u32,
    argv: Vec<String>,
    started: &str,
    ended: Option<&str>,
) -> SessionMetadata {
    SessionMetadata {
        session_id: Uuid::from_u128(7),
        kind: SessionKind::Scoped { pid, argv },
        name: None,
        host: "host".into(),
        started_rfc3339: started.into(),
        ended_rfc3339: ended.map(str::to_string),
        exit_code: None,
        term_signal: None,
        scope_token: None,
    }
}

fn footprint_ev(seq: u64, ts_wall_ns: u64, pid: u32, name: &str, is_traced_root: bool) -> Event {
    Event {
        ts_mono_ns: seq,
        ts_wall_ns,
        session_id: Uuid::nil(),
        source: Source::Proc,
        pid: Some(pid),
        seq,
        payload: Payload::ProcFootprint {
            pid,
            name: name.into(),
            phys_footprint_bytes: 1_000_000,
            lifetime_max_phys_footprint_bytes: 1_000_000,
            is_traced_root,
        },
    }
}

fn empty_report() -> Report {
    Report {
        findings: Vec::new(),
        session_short: None,
        event_count: 0,
    }
}

#[test]
fn join_jetsam_inserts_the_finding_for_a_scoped_session() {
    // The session starts before the jetsam report is written, as in the
    // real chronology: the kill, then the report, both land after the session
    // began.
    let meta = scoped_session(4242, vec![], "2026-08-09T12:37:00Z", None);
    let f = jetsam_report("/r/JetsamEvent-2026-08-09-123716.ips");
    let mut report = empty_report();
    join_jetsam(&mut report, &meta, &[], &[vec![f]], now_ns());
    assert_eq!(report.findings.len(), 1, "findings: {:#?}", report.findings);
    assert_eq!(report.findings[0].category, Category::RootCause);
}

/// The daemon's own session has no process to join on.
#[test]
fn ambient_sessions_join_nothing() {
    let mut meta = scoped_session(4242, vec![], "2026-08-09T12:37:00Z", None);
    meta.kind = SessionKind::Ambient;
    let mut report = empty_report();
    let dirs = [vec![
        jetsam_report("/r/a.ips"),
        crash_report("/r/b.ips"),
    ]];
    join_crash(&mut report, &meta, &[], &dirs, now_ns());
    join_jetsam(&mut report, &meta, &[], &dirs, now_ns());
    assert!(report.findings.is_empty(), "{:#?}", report.findings);
}

/// The unbounded edge: a session that was never finalized — exactly what
/// jetsam produces — must not have its window run all the way to NOW.
#[test]
fn unfinalized_session_does_not_swallow_a_much_later_report() {
    // Last event an hour ago; the session was never finalized.
    let hour_ago = now_ns().saturating_sub(3_600_000_000_000);
    let meta = scoped_session(4242, vec!["python".into()], "2026-05-15T17:35:05Z", None);
    let events = [footprint_ev(1, hour_ago, 4242, "python", true)];
    let f = jetsam_report("/r/JetsamEvent-2026-08-09-123716.ips");
    let mut report = empty_report();
    join_jetsam(&mut report, &meta, &events, &[vec![f]], now_ns());
    assert!(
        report.findings.is_empty(),
        "unbounded window: {:#?}",
        report.findings
    );
}

/// The bounded fallback stays useful: a report written right after the last
/// event of an unfinalized session must still be joined.
#[test]
fn unfinalized_session_still_joins_a_report_written_right_after() {
    let meta = scoped_session(4242, vec!["python".into()], "2026-05-15T17:35:05Z", None);
    let events = [footprint_ev(1, now_ns(), 4242, "python", true)];
    let f = jetsam_report("/r/JetsamEvent-2026-08-09-123716.ips");
    let mut report = empty_report();
    join_jetsam(&mut report, &meta, &events, &[vec![f]], now_ns());
    assert_eq!(report.findings.len(), 1, "{:#?}", report.findings);
}

/// The PID alone is not enough: macOS recycles them. When both sides give
/// a name and the names diverge, no join.
#[test]
fn name_mismatch_rejects_the_join() {
    // The report names "python"; this session is a ruby run that simply
    // reused PID 4242.
    let meta = scoped_session(
        4242,
        vec!["/usr/bin/ruby".into()],
        "2026-05-15T17:35:05Z",
        None,
    );
    let events = [footprint_ev(1, now_ns(), 4242, "ruby", true)];
    let f = jetsam_report("/r/JetsamEvent-2026-08-09-123716.ips");
    let mut report = empty_report();
    join_jetsam(&mut report, &meta, &events, &[vec![f]], now_ns());
    assert!(
        report.findings.is_empty(),
        "incompatible name joined anyway: {:#?}",
        report.findings
    );
}

/// The two sides truncate differently: comparing for equality would reject the
/// real case — we compare by prefix.
#[test]
fn truncated_names_match_by_prefix() {
    assert!(names_compatible(
        "com.apple.Virtua",
        "com.apple.Virtualization.Virtual"
    ));
    assert!(names_compatible("python", "python"));
    assert!(!names_compatible("ruby", "python"));
    // An empty name carries no information: it proves nothing.
    assert!(!names_compatible("", "python"));
}

/// With no name on one side we do not reject: PID + window remain the
/// guards, as before.
#[test]
fn missing_name_falls_back_to_pid_and_window() {
    // Neither argv nor ProcFootprint: no name on the session side.
    let meta = scoped_session(
        4242,
        vec![],
        "2026-05-15T17:35:05Z",
        Some("2026-08-09T12:37:16Z"),
    );
    let f = jetsam_report("/r/JetsamEvent-2026-08-09-123716.ips");
    let mut report = empty_report();
    join_jetsam(&mut report, &meta, &[], &[vec![f]], now_ns());
    assert_eq!(report.findings.len(), 1, "{:#?}", report.findings);
}

/// Under a launcher, the process that dies is a grandchild whose PID differs
/// from the spawned child's.
#[test]
fn joins_a_grandchild_pid_seen_in_footprint_samples() {
    // The session is scoped on the launcher (`uv`, PID 9999); the real
    // work — and the kill — is on the python grandchild 4242.
    let meta = scoped_session(
        9999,
        vec!["/opt/homebrew/bin/uv".into()],
        "2026-05-15T17:35:05Z",
        None,
    );
    let events = [
        footprint_ev(1, now_ns(), 9999, "uv", true),
        footprint_ev(2, now_ns(), 4242, "python", false),
    ];
    let f = jetsam_report("/r/JetsamEvent-2026-08-09-123716.ips");
    let mut report = empty_report();
    join_jetsam(&mut report, &meta, &events, &[vec![f]], now_ns());
    assert_eq!(report.findings.len(), 1, "{:#?}", report.findings);
    assert!(
        report.findings[0].detail.contains("4242"),
        "detail: {}",
        report.findings[0].detail
    );
}

/// Widening to observed PIDs must not open the floodgates: a PID the
/// session never saw still gets no join.
#[test]
fn an_unobserved_pid_still_does_not_join() {
    let meta = scoped_session(
        9999,
        vec!["/opt/homebrew/bin/uv".into()],
        "2026-05-15T17:35:05Z",
        None,
    );
    let events = [footprint_ev(1, now_ns(), 9999, "uv", true)];
    let f = jetsam_report("/r/JetsamEvent-2026-08-09-123716.ips");
    let mut report = empty_report();
    join_jetsam(&mut report, &meta, &events, &[vec![f]], now_ns());
    assert!(report.findings.is_empty(), "{:#?}", report.findings);
}

#[test]
fn crash_finding_is_critical_root_cause() {
    let j = CrashJoin {
        path: "/x/Python.ips".into(),
        crashed_pid: 11672,
        signal: Some("SIGABRT".into()),
        summary: "EXC_CRASH".into(),
        exception_codes: vec!["0x0".into()],
    };
    let f = crash_finding(&j);
    assert_eq!(f.severity, Severity::Critical);
    assert_eq!(f.category, Category::RootCause);
    assert!(f.title.contains("SIGABRT"));
    assert!(f.detail.contains("/x/Python.ips"));
    assert_eq!(
        f.detail,
        "EXC_CRASH — codes: 0x0\n    crash report: /x/Python.ips"
    );
}

/// What a report does not say is left out.
#[test]
fn crash_finding_leaves_out_what_is_missing() {
    let mut j = CrashJoin {
        path: "/x/Python.ips".into(),
        crashed_pid: 1,
        signal: None,
        summary: String::new(),
        exception_codes: vec![],
    };
    let f = crash_finding(&j);
    assert_eq!(f.title, "Recorded process crashed");
    assert_eq!(f.detail, "crash report: /x/Python.ips");
    j.exception_codes = vec!["0x1".into(), "0x2".into()];
    assert_eq!(
        crash_finding(&j).detail,
        "codes: 0x1, 0x2\n    crash report: /x/Python.ips"
    );
    j.exception_codes = vec![];
    j.summary = "EXC_BAD_ACCESS".into();
    assert_eq!(
        crash_finding(&j).detail,
        "EXC_BAD_ACCESS\n    crash report: /x/Python.ips"
    );
}

// ---- memory-death presumption ----

/// Variant of `footprint_ev` with a chosen footprint.
fn footprint_bytes_ev(seq: u64, ts_wall_ns: u64, pid: u32, bytes: u64) -> Event {
    let mut e = footprint_ev(seq, ts_wall_ns, pid, "python3", true);
    if let Payload::ProcFootprint {
        phys_footprint_bytes,
        lifetime_max_phys_footprint_bytes,
        ..
    } = &mut e.payload
    {
        *phys_footprint_bytes = bytes;
        *lifetime_max_phys_footprint_bytes = bytes;
    }
    e
}

/// Prepares a scoped session with chosen footprint, ending and exit code,
/// then joins. Returns the findings produced.
fn risk_case(
    first: u64,
    last: u64,
    ended: Option<&str>,
    exit_code: Option<i32>,
    term_signal: Option<i32>,
) -> Vec<Finding> {
    let t = now_ns();
    let evs = [
        footprint_bytes_ev(1, t, 4242, first),
        footprint_bytes_ev(2, t + 1_000_000_000, 4242, last),
    ];
    let mut meta = scoped_session(
        4242,
        vec!["/usr/bin/python3".into()],
        "2026-08-09T10:00:00Z",
        ended,
    );
    meta.exit_code = exit_code;
    meta.term_signal = term_signal;
    let mut report = empty_report();
    join_jetsam(&mut report, &meta, &evs, &[], t);
    report.findings
}

/// Like `risk_case`, but specifying the signal that killed the child.
fn risk_case_signal(sig: Option<i32>) -> Vec<Finding> {
    risk_case(
        4_000_000_000,
        18_000_000_000,
        Some("2026-08-09T10:05:00Z"),
        Some(-1),
        sig,
    )
}

/// The child is killed by a signal, no jetsam report is joinable, and the
/// footprint was rising. The presumption fires.
#[test]
fn killed_by_signal_with_rising_footprint_yields_the_presumption() {
    let f = risk_case(4_000_000_000, 18_000_000_000, None, Some(-1), None);
    assert_eq!(f.len(), 1, "findings: {f:#?}");
    assert_eq!(f[0].severity, Severity::Warning);
    assert_eq!(f[0].category, Category::ContributingFactor);
    assert!(
        f[0].detail.contains("possible") || f[0].detail.contains("presumption"),
        "the wording must stay a presumption: {}",
        f[0].detail
    );
    assert!(f[0]
        .detail
        .starts_with("The traced process's footprint went from 4.00 to 18.00 GB"));
    assert_eq!(f[0].evidence.len(), 2);
}

/// A HEALTHY run that allocates heavily and ends cleanly must produce nothing.
#[test]
fn clean_exit_with_rising_footprint_yields_nothing() {
    let f = risk_case(
        15_000_000,
        1_007_000_000,
        Some("2026-08-09T10:05:00Z"),
        Some(0),
        None,
    );
    assert!(f.is_empty(), "{f:#?}");
}

/// A program failing normally (exit 1) is not a memory death.
#[test]
fn ordinary_failure_exit_yields_nothing() {
    let f = risk_case(
        4_000_000_000,
        18_000_000_000,
        Some("2026-08-09T10:05:00Z"),
        Some(1),
        None,
    );
    assert!(f.is_empty(), "{f:#?}");
}

/// Flat footprint plus a signal death: nothing to presume about memory.
#[test]
fn killed_by_signal_without_rising_footprint_yields_nothing() {
    let f = risk_case(4_000_000_000, 4_100_000_000, None, Some(-1), None);
    assert!(f.is_empty(), "{f:#?}");
}

/// No exit code but WITH a dated ending: abnormal ending, so the presumption
/// fires.
#[test]
fn finalized_without_exit_code_counts_as_abnormal() {
    let f = risk_case(
        4_000_000_000,
        18_000_000_000,
        Some("2026-08-09T10:05:00Z"),
        None,
        None,
    );
    assert_eq!(f.len(), 1, "{f:#?}");
    assert_eq!(f[0].severity, Severity::Warning);
}

/// The crash join must cover a session that was NEVER finalized.
#[test]
fn join_crash_covers_a_never_finalized_session() {
    // An event stamped now: it is what bounds the window in the absence of
    // `ended_rfc3339`.
    let evs = [footprint_ev(1, now_ns(), 11672, "python3", true)];
    let mut meta = scoped_session(
        11672,
        vec!["/usr/bin/python3".into()],
        "2026-08-09T10:00:00Z",
        None,
    );
    meta.exit_code = Some(-1);
    let dirs = [vec![], vec![crash_report("/r/Python-crash.ips")]];
    let mut report = empty_report();
    join_crash(&mut report, &meta, &evs, &dirs, now_ns());
    assert_eq!(report.findings.len(), 1, "{:#?}", report.findings);
    assert_eq!(report.findings[0].category, Category::RootCause);
    assert!(report.findings[0].title.contains("crashed"));
}

/// A clean exit is not a crash.
#[test]
fn join_crash_skips_a_clean_exit() {
    let evs = [footprint_ev(1, now_ns(), 11672, "python3", true)];
    let mut meta = scoped_session(
        11672,
        vec!["/usr/bin/python3".into()],
        "2026-08-09T10:00:00Z",
        Some("2026-08-09T10:05:00Z"),
    );
    meta.exit_code = Some(0);
    let dirs = [vec![crash_report("/r/Python-crash.ips")]];
    let mut report = empty_report();
    join_crash(&mut report, &meta, &evs, &dirs, now_ns());
    assert!(report.findings.is_empty(), "{:#?}", report.findings);
}

/// A crash outranks the memory presumption: `join_crash` sets the root
/// cause, which the presumption then sees and honors.
#[test]
fn a_crash_suppresses_the_memory_presumption() {
    let t = now_ns();
    let evs = [
        footprint_bytes_ev(1, t, 11672, 4_000_000_000),
        footprint_bytes_ev(2, t + 1_000_000_000, 11672, 18_000_000_000),
    ];
    let mut meta = scoped_session(
        11672,
        vec!["/usr/bin/python3".into()],
        "2026-08-09T10:00:00Z",
        None,
    );
    meta.exit_code = Some(-1);
    let dirs = [vec![crash_report("/r/Python-crash.ips")]];
    let mut report = empty_report();
    join_crash(&mut report, &meta, &evs, &dirs, t);
    join_jetsam(&mut report, &meta, &evs, &dirs, t);
    assert_eq!(
        report.findings.len(),
        1,
        "the crash must win, with no presumption added: {:#?}",
        report.findings
    );
    assert_eq!(report.findings[0].category, Category::RootCause);
}

/// A Ctrl-C is a requested stop, not a memory death.
#[test]
fn sigint_is_a_requested_stop_not_a_memory_death() {
    let f = risk_case_signal(Some(2)); // SIGINT
    assert!(f.is_empty(), "a Ctrl-C must presume nothing: {f:#?}");
}

/// SIGTERM has the same nature: a stop requested by a supervisor.
#[test]
fn sigterm_is_a_requested_stop_too() {
    let f = risk_case_signal(Some(15)); // SIGTERM
    assert!(f.is_empty(), "{f:#?}");
}

/// SIGKILL remains a death suffered: that is what jetsam does, so the
/// presumption must fire.
#[test]
fn sigkill_still_yields_the_presumption() {
    let f = risk_case_signal(Some(9)); // SIGKILL
    assert_eq!(f.len(), 1, "{f:#?}");
    assert_eq!(f[0].severity, Severity::Warning);
}

/// Where no signal was recorded, the exit code decides.
#[test]
fn a_session_without_a_recorded_signal_still_works() {
    let f = risk_case_signal(None);
    assert_eq!(f.len(), 1, "{f:#?}");
}

/// A session STILL RUNNING has neither exit code nor dated ending, and its
/// footprint necessarily rises.
#[test]
fn live_in_progress_session_yields_nothing() {
    // Neither `ended` nor `exit_code`: the exact shape of a live session.
    let f = risk_case(4_000_000_000, 18_000_000_000, None, None, None);
    assert!(
        f.is_empty(),
        "a running session has not ended abnormally: {f:#?}"
    );
}

/// When a root cause is already established (a crash joined upstream), the
/// memory presumption stays quiet: a verdict outranks a guess.
#[test]
fn existing_root_cause_suppresses_the_presumption() {
    let t = now_ns();
    let evs = [
        footprint_bytes_ev(1, t, 4242, 4_000_000_000),
        footprint_bytes_ev(2, t + 1_000_000_000, 4242, 18_000_000_000),
    ];
    let mut meta = scoped_session(
        4242,
        vec!["/usr/bin/python3".into()],
        "2026-08-09T10:00:00Z",
        None,
    );
    meta.exit_code = Some(-1);
    let mut report = empty_report();
    report.findings.push(Finding::new(
        Severity::Critical,
        Category::RootCause,
        "Recorded process crashed (SIGSEGV)",
    ));
    join_jetsam(&mut report, &meta, &evs, &[], t);
    assert_eq!(report.findings.len(), 1, "{:#?}", report.findings);
    assert_eq!(report.findings[0].category, Category::RootCause);
}

/// Timestamps are read as instants, whatever their offset.
#[test]
fn timestamps_are_instants() {
    assert_eq!(rfc3339_unix_ns("1970-01-01T00:00:01Z"), Some(1_000_000_000));
    assert_eq!(
        rfc3339_unix_ns("1970-01-01T01:00:00.5+01:00"),
        Some(500_000_000)
    );
    assert_eq!(rfc3339_unix_ns("1969-12-31T23:59:59Z"), None);
    assert_eq!(rfc3339_unix_ns("yesterday"), None);
}
