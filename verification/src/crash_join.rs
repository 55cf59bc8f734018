//! Joins diagnostic reports to the sessions they are about.
//!
//! A crash report is written seconds after the process died, and by then its
//! session is already closed. So the report is joined afterwards: by the
//! process id, by the name of the process and by the wall-clock window of the
//! session.

use crate::clock::{rfc3339_nanos, rfc3339_unix_ns, since_epoch};
use crate::double::{less, of_int, push_quotient, times};
use crate::event::{lemma_prefix_step, Event, Payload, SessionKind, SessionMetadata};
use crate::finding::{
    finding_views, Category, EvidenceRef, EvidenceView, Finding, FindingView, Severity,
};
use crate::paths::{is_report, is_report_path, join_path, joined_path};
use crate::report::Report;
use crate::rules::jetsam_risk::{find_rise, rise, under_twice, Footprint};
use crate::rules::mlx_cache_growth::gigabytes;
use crate::text::{
    after_last, begins, dec, join, joined, opt_view, push_dec, same, starts_with, tail_after, views,
};
use vstd::prelude::*;

verus! {

broadcast use vstd::string::group_string_axioms;

/// How long after the end of a session a report about it may be written: two
/// minutes.
pub const CRASH_REPORT_GRACE_NS: u64 = 120_000_000_000;

/// A file of a directory of diagnostic reports.
#[derive(Debug, Clone, PartialEq)]
pub struct ReportFile {
    pub path: String,
    /// When it was last written, in wall-clock nanoseconds.
    pub mtime_ns: Option<u64>,
    /// What it reports, where it can be read.
    pub parsed: Option<Payload>,
}

/// The largest time at which a report about a session may have been written.
pub open spec fn latest_report(end: u64, grace: u64) -> u64 {
    if end + grace > u64::MAX {
        u64::MAX
    } else {
        (end + grace) as u64
    }
}

/// Whether a file is a report that was written within the window.
pub open spec fn in_window(
    path: Seq<char>,
    mtime: Option<u64>,
    start: u64,
    end: u64,
    grace: u64,
) -> bool {
    is_report(path) && match mtime {
        Some(t) => start <= t <= latest_report(end, grace),
        None => false,
    }
}

/// Is the file a report that was written within the window? Others need not be
/// read.
pub fn is_in_window(
    path: &str,
    mtime_ns: Option<u64>,
    wall_start_ns: u64,
    wall_end_ns: u64,
    grace_ns: u64,
) -> (b: bool)
    ensures
        b == in_window(path@, mtime_ns, wall_start_ns, wall_end_ns, grace_ns),
{
    match mtime_ns {
        Some(t) => is_report_path(path) && wall_start_ns <= t && t <= wall_end_ns.saturating_add(
            grace_ns,
        ),
        None => false,
    }
}

/// The latest written of the files that `fit`, the first of equals.
pub open spec fn newest(files: Seq<ReportFile>, fit: spec_fn(ReportFile) -> bool) -> Option<int>
    decreases files.len(),
{
    if files.len() == 0 {
        None
    } else {
        let best = newest(files.drop_last(), fit);
        if !fit(files.last()) {
            best
        } else {
            match best {
                Some(i) => if files[i].mtime_ns->0 >= files.last().mtime_ns->0 {
                    best
                } else {
                    Some(files.len() - 1)
                },
                None => Some(files.len() - 1),
            }
        }
    }
}

/// What [`newest`] finds fits, and nothing that fits was written later; it
/// finds something where anything fits.
pub proof fn newest_is_newest(files: Seq<ReportFile>, fit: spec_fn(ReportFile) -> bool)
    ensures
        match newest(files, fit) {
            Some(i) => {
                &&& 0 <= i < files.len()
                &&& fit(files[i])
                &&& forall|k: int|
                    0 <= k < files.len() && fit(#[trigger] files[k]) ==> files[k].mtime_ns->0
                        <= files[i].mtime_ns->0
            },
            None => forall|k: int| 0 <= k < files.len() ==> !fit(#[trigger] files[k]),
        },
    decreases files.len(),
{
    if files.len() > 0 {
        newest_is_newest(files.drop_last(), fit);
        assert forall|k: int| 0 <= k < files.len() - 1 implies files.drop_last()[k]
            == #[trigger] files[k] by {}
    }
}

/// A crash report that is about the session.
#[derive(Debug, Clone, PartialEq, Eq)]
pub struct CrashJoin {
    pub path: String,
    pub crashed_pid: u32,
    pub signal: Option<String>,
    pub summary: String,
    pub exception_codes: Vec<String>,
}

/// The view of a [`CrashJoin`].
pub ghost struct CrashView {
    pub path: Seq<char>,
    pub pid: u32,
    pub signal: Option<Seq<char>>,
    pub summary: Seq<char>,
    pub codes: Seq<Seq<char>>,
}

impl View for CrashJoin {
    type V = CrashView;

    open spec fn view(&self) -> CrashView {
        CrashView {
            path: self.path@,
            pid: self.crashed_pid,
            signal: opt_view(self.signal),
            summary: self.summary@,
            codes: views(self.exception_codes@),
        }
    }
}

/// What a file reports of a crash of the process `pid`.
pub open spec fn crash_in(f: ReportFile, pid: u32) -> Option<CrashView> {
    match f.parsed {
        Some(Payload::CrashReportEmitted { path, crashed_pid, signal, exception_codes, summary }) =>
        if crashed_pid == Some(pid) {
            Some(
                CrashView {
                    path: path@,
                    pid,
                    signal: opt_view(signal),
                    summary: summary@,
                    codes: views(exception_codes@),
                },
            )
        } else {
            None
        },
        _ => None,
    }
}

/// A file in the window that reports a crash of the process.
pub open spec fn crash_fits(
    pid: u32,
    start: u64,
    end: u64,
    grace: u64) -> spec_fn(ReportFile,
) -> bool {
    |f: ReportFile| in_window(f.path@, f.mtime_ns, start, end, grace) && crash_in(f, pid) is Some
}

/// The crash that the files of one directory report.
pub open spec fn crash_among(
    files: Seq<ReportFile>,
    pid: u32,
    start: u64,
    end: u64,
    grace: u64,
) -> Option<CrashView> {
    match newest(files, crash_fits(pid, start, end, grace)) {
        Some(i) => crash_in(files[i], pid),
        None => None,
    }
}

/// The view of an optional crash.
pub open spec fn opt_crash(o: Option<CrashJoin>) -> Option<CrashView> {
    match o {
        Some(j) => Some(j@),
        None => None,
    }
}

fn copied_texts(v: &Vec<String>) -> (r: Vec<String>)
    ensures
        views(r@) == views(v@),
{
    let mut r: Vec<String> = Vec::new();
    let mut i: usize = 0;
    while i < v.len()
        invariant
            i <= v@.len(),
            r@.len() == i,
            forall|k: int| 0 <= k < i ==> (#[trigger] r@[k])@ == v@[k]@,
        decreases v@.len() - i,
    {
        r.push(v[i].clone());
        i = i + 1;
    }
    assert(views(r@) =~= views(v@));
    r
}

fn copied_text(o: &Option<String>) -> (r: Option<String>)
    ensures
        opt_view(r) == opt_view(*o),
{
    match o {
        Some(s) => Some(s.clone()),
        None => None,
    }
}

fn read_crash(f: &ReportFile, pid: u32) -> (r: Option<CrashJoin>)
    ensures
        opt_crash(r) == crash_in(*f, pid),
{
    match &f.parsed {
        Some(
            Payload::CrashReportEmitted { path, crashed_pid, signal, exception_codes, summary },
        ) => match crashed_pid {
            Some(p) => if *p == pid {
                Some(
                    CrashJoin {
                        path: path.clone(),
                        crashed_pid: pid,
                        signal: copied_text(signal),
                        summary: summary.clone(),
                        exception_codes: copied_texts(exception_codes),
                    },
                )
            } else {
                None
            },
            None => None,
        },
        _ => None,
    }
}

/// Looks among `files` for a crash report about the process `pid`, written
/// within the window and the grace behind it. The newest counts.
pub fn find_crash_report(
    files: &[ReportFile],
    pid: u32,
    wall_start_ns: u64,
    wall_end_ns: u64,
    grace_ns: u64,
) -> (r: Option<CrashJoin>)
    ensures
        opt_crash(r) == crash_among(files@, pid, wall_start_ns, wall_end_ns, grace_ns),
{
    let ghost fit = crash_fits(pid, wall_start_ns, wall_end_ns, grace_ns);
    let mut best: Option<CrashJoin> = None;
    let mut best_ns: u64 = 0;
    let mut i: usize = 0;
    while i < files.len()
        invariant
            i <= files@.len(),
            fit == crash_fits(pid, wall_start_ns, wall_end_ns, grace_ns),
            match newest(files@.take(i as int), fit) {
                Some(k) => {
                    &&& 0 <= k < i
                    &&& opt_crash(best) == crash_in(files@[k], pid)
                    &&& best is Some
                    &&& files@[k].mtime_ns == Some(best_ns)
                },
                None => best is None,
            },
        decreases files@.len() - i,
    {
        assert(files@.take(i + 1).drop_last() =~= files@.take(i as int));
        let f = &files[i];
        if is_in_window(f.path.as_str(), f.mtime_ns, wall_start_ns, wall_end_ns, grace_ns) {
            let join = read_crash(f, pid);
            if join.is_some() {
                let t: u64 = match f.mtime_ns {
                    Some(t) => t,
                    None => 0,
                };
                if best.is_none() || best_ns < t {
                    best = join;
                    best_ns = t;
                }
            }
        }
        i = i + 1;
    }
    assert(files@.take(files@.len() as int) =~= files@);
    best
}

/// What a crash report says, on one line, where it says anything.
pub open spec fn crash_body(j: CrashView) -> Seq<char> {
    if j.codes.len() == 0 {
        j.summary
    } else if j.summary.len() == 0 {
        "codes: "@ + joined(j.codes, ", "@)
    } else {
        j.summary + " — "@ + "codes: "@ + joined(j.codes, ", "@)
    }
}

/// A crash as a root cause.
pub open spec fn crash_cause(j: CrashView) -> FindingView {
    FindingView {
        severity: Severity::Critical,
        category: Category::RootCause,
        title: match j.signal {
            Some(sig) => "Recorded process crashed ("@ + sig + ")"@,
            None => "Recorded process crashed"@,
        },
        detail: if crash_body(j).len() == 0 {
            "crash report: "@ + j.path
        } else {
            crash_body(j) + "\n    "@ + "crash report: "@ + j.path
        },
        evidence: seq![],
    }
}

/// Turns a crash into a root cause.
pub fn crash_finding(j: &CrashJoin) -> (f: Finding)
    ensures
        f@ == crash_cause(j@),
{
    let title = match &j.signal {
        Some(sig) => {
            let mut t = "Recorded process crashed (".to_owned();
            t.append(sig.as_str());
            t.append(")");
            t
        },
        None => "Recorded process crashed".to_owned(),
    };
    let mut detail = j.summary.clone();
    if j.exception_codes.len() > 0 {
        let codes = join(&j.exception_codes, ", ");
        if detail.as_str().unicode_len() > 0 {
            detail.append(" — ");
            detail.append("codes: ");
            detail.append(codes.as_str());
        } else {
            detail = "codes: ".to_owned();
            detail.append(codes.as_str());
        }
    }
    assert(detail@ =~= crash_body(j@));
    if detail.as_str().unicode_len() > 0 {
        detail.append("\n    ");
        detail.append("crash report: ");
        detail.append(j.path.as_str());
    } else {
        detail = "crash report: ".to_owned();
        detail.append(j.path.as_str());
    }
    Finding::new(Severity::Critical, Category::RootCause, title.as_str()).with_detail(
        detail.as_str(),
    )
}

/// A kill under memory pressure that is about the session.
#[derive(Debug, Clone, PartialEq, Eq)]
pub struct JetsamJoin {
    pub path: String,
    pub killed_pid: u32,
    pub killed_name: String,
    pub footprint_bytes: u64,
    pub lifetime_max_bytes: u64,
    /// The reason that the kernel gives, where it gives one.
    pub reason: Option<String>,
}

/// The view of a [`JetsamJoin`].
pub ghost struct JetsamView {
    pub path: Seq<char>,
    pub pid: u32,
    pub name: Seq<char>,
    pub footprint: u64,
    pub lifetime_max: u64,
    pub reason: Option<Seq<char>>,
}

impl View for JetsamJoin {
    type V = JetsamView;

    open spec fn view(&self) -> JetsamView {
        JetsamView {
            path: self.path@,
            pid: self.killed_pid,
            name: self.killed_name@,
            footprint: self.footprint_bytes,
            lifetime_max: self.lifetime_max_bytes,
            reason: opt_view(self.reason),
        }
    }
}

pub const SYSTEM_REPORTS: &'static str = "/Library/Logs/DiagnosticReports";

pub const USER_REPORTS: &'static str = "Library/Logs/DiagnosticReports";

/// The directories in which diagnostic reports are looked for, given the
/// directory that replaces them and the user's home.
///
/// The system's directory comes first: kills under memory pressure are reported
/// there, and only there.
pub fn diagnostic_reports_dirs(over: Option<String>, home: Option<String>) -> (dirs: Vec<String>)
    ensures
        views(dirs@) == match over {
            Some(d) => seq![d@],
            None => match home {
                Some(h) => seq![SYSTEM_REPORTS@, joined_path(h@, USER_REPORTS@)],
                None => seq![SYSTEM_REPORTS@],
            },
        },
{
    let mut dirs: Vec<String> = Vec::new();
    match over {
        Some(d) => {
            dirs.push(d);
            assert(views(dirs@) =~= seq![d@]);
        },
        None => {
            dirs.push(SYSTEM_REPORTS.to_owned());
            assert(views(dirs@) =~= seq![SYSTEM_REPORTS@]);
            if let Some(h) = home {
                let user = join_path(h.as_str(), USER_REPORTS);
                dirs.push(user);
                assert(views(dirs@) =~= seq![SYSTEM_REPORTS@, joined_path(h@, USER_REPORTS@)]);
            }
        },
    }
    dirs
}

/// One name is a beginning of the other, and neither is empty.
pub open spec fn compatible(a: Seq<char>, b: Seq<char>) -> bool {
    a.len() > 0 && b.len() > 0 && (starts_with(a, b) || starts_with(b, a))
}

/// May two process names be the same process?
///
/// They are compared by prefix and not for equality: both sides truncate, and
/// they truncate differently. An empty name proves nothing.
pub fn names_compatible(a: &str, b: &str) -> (r: bool)
    ensures
        r == compatible(a@, b@),
{
    a.unicode_len() > 0 && b.unicode_len() > 0 && (begins(a, b) || begins(b, a))
}

/// The name of a killed process speaks against it only where both sides give a
/// name and no name of the session is compatible.
pub open spec fn name_admits(known: Seq<Seq<char>>, killed: Seq<char>) -> bool {
    known.len() == 0 || killed.len() == 0 || exists|k: int|
        0 <= k < known.len() && compatible(#[trigger] known[k], killed)
}

/// What a file reports of a kill of one of the processes `pids`.
pub open spec fn kill_in(
    f: ReportFile,
    pids: Seq<u32>,
    known: Seq<Seq<char>>,
) -> Option<JetsamView> {
    match f.parsed {
        Some(
            Payload::JetsamKill {
                path,
                killed_pid: Some(pid),
                killed_name,
                footprint_bytes,
                lifetime_max_bytes,
                reason,
                ..
            },
        ) => if pids.contains(pid) && name_admits(known, killed_name@) {
            Some(
                JetsamView {
                    path: path@,
                    pid,
                    name: killed_name@,
                    footprint: footprint_bytes,
                    lifetime_max: lifetime_max_bytes,
                    reason: opt_view(reason),
                },
            )
        } else {
            None
        },
        _ => None,
    }
}

/// A file in the window that reports a kill of one of the processes.
pub open spec fn kill_fits(
    pids: Seq<u32>,
    known: Seq<Seq<char>>,
    start: u64,
    end: u64,
    grace: u64,
) -> spec_fn(ReportFile) -> bool {
    |f: ReportFile|
        in_window(f.path@, f.mtime_ns, start, end, grace) && kill_in(f, pids, known) is Some
}

/// The kill that the files report.
pub open spec fn kill_among(
    files: Seq<ReportFile>,
    pids: Seq<u32>,
    known: Seq<Seq<char>>,
    start: u64,
    end: u64,
    grace: u64,
) -> Option<JetsamView> {
    match newest(files, kill_fits(pids, known, start, end, grace)) {
        Some(i) => kill_in(files[i], pids, known),
        None => None,
    }
}

/// The view of an optional kill.
pub open spec fn opt_kill(o: Option<JetsamJoin>) -> Option<JetsamView> {
    match o {
        Some(j) => Some(j@),
        None => None,
    }
}

fn has_pid(pids: &[u32], pid: u32) -> (b: bool)
    ensures
        b == pids@.contains(pid),
{
    let mut i: usize = 0;
    while i < pids.len()
        invariant
            i <= pids@.len(),
            forall|k: int| 0 <= k < i ==> pids@[k] != pid,
        decreases pids@.len() - i,
    {
        if pids[i] == pid {
            assert(pids@[i as int] == pid);
            return true;
        }
        i = i + 1;
    }
    false
}

fn admits(known: &[String], killed: &str) -> (b: bool)
    ensures
        b == name_admits(views(known@), killed@),
{
    let ghost all = views(known@);
    if known.len() == 0 || killed.unicode_len() == 0 {
        return true;
    }
    let mut i: usize = 0;
    while i < known.len()
        invariant
            i <= known@.len(),
            all == views(known@),
            forall|k: int| 0 <= k < i ==> !compatible(#[trigger] all[k], killed@),
        decreases known@.len() - i,
    {
        assert(all[i as int] == known@[i as int]@);
        if names_compatible(known[i].as_str(), killed) {
            assert(compatible(all[i as int], killed@));
            return true;
        }
        i = i + 1;
    }
    false
}

fn read_kill(f: &ReportFile, pids: &[u32], known: &[String]) -> (r: Option<JetsamJoin>)
    ensures
        opt_kill(r) == kill_in(*f, pids@, views(known@)),
{
    match &f.parsed {
        Some(
            Payload::JetsamKill {
                path,
                killed_pid,
                killed_name,
                footprint_bytes,
                lifetime_max_bytes,
                reason,
                ..
            },
        ) => match killed_pid {
            Some(pid) => if has_pid(pids, *pid) && admits(known, killed_name.as_str()) {
                Some(
                    JetsamJoin {
                        path: path.clone(),
                        killed_pid: *pid,
                        killed_name: killed_name.clone(),
                        footprint_bytes: *footprint_bytes,
                        lifetime_max_bytes: *lifetime_max_bytes,
                        reason: copied_text(reason),
                    },
                )
            } else {
                None
            },
            None => None,
        },
        _ => None,
    }
}

/// All files of all directories, in order.
pub open spec fn all_files(dirs: Seq<Vec<ReportFile>>) -> Seq<ReportFile>
    decreases dirs.len(),
{
    if dirs.len() == 0 {
        seq![]
    } else {
        all_files(dirs.drop_last()) + dirs.last()@
    }
}

/// The newest kill so far.
struct BestKill {
    join: Option<JetsamJoin>,
    mtime_ns: u64,
}

impl BestKill {
    spec fn best_of(
        &self,
        files: Seq<ReportFile>,
        pids: Seq<u32>,
        known: Seq<Seq<char>>,
        fit: spec_fn(ReportFile) -> bool,
    ) -> bool {
        match newest(files, fit) {
            Some(k) => {
                &&& 0 <= k < files.len()
                &&& opt_kill(self.join) == kill_in(files[k], pids, known)
                &&& self.join is Some
                &&& files[k].mtime_ns == Some(self.mtime_ns)
            },
            None => self.join is None,
        }
    }
}

/// Looks in `dirs` for a report of a kill of one of `pids`, written within the
/// window and the grace behind it. The newest counts.
///
/// The processes are the recorded one and all that were seen in the traced
/// tree: under a launcher, the process that dies is a grandchild.
pub fn find_jetsam_report(
    dirs: &[Vec<ReportFile>],
    pids: &[u32],
    known_names: &[String],
    wall_start_ns: u64,
    wall_end_ns: u64,
    grace_ns: u64,
) -> (r: Option<JetsamJoin>)
    ensures
        opt_kill(r) == kill_among(
            all_files(dirs@),
            pids@,
            views(known_names@),
            wall_start_ns,
            wall_end_ns,
            grace_ns,
        ),
{
    let ghost known = views(known_names@);
    let ghost fit = kill_fits(pids@, known, wall_start_ns, wall_end_ns, grace_ns);
    let mut best = BestKill { join: None, mtime_ns: 0 };
    let mut i: usize = 0;
    assert(dirs@.take(0) =~= Seq::<Vec<ReportFile>>::empty());
    while i < dirs.len()
        invariant
            i <= dirs@.len(),
            known == views(known_names@),
            fit == kill_fits(pids@, known, wall_start_ns, wall_end_ns, grace_ns),
            best.best_of(all_files(dirs@.take(i as int)), pids@, known, fit),
        decreases dirs@.len() - i,
    {
        let files = &dirs[i];
        let ghost before = all_files(dirs@.take(i as int));
        let mut j: usize = 0;
        assert(before + files@.take(0) =~= before);
        while j < files.len()
            invariant
                j <= files@.len(),
                known == views(known_names@),
                fit == kill_fits(pids@, known, wall_start_ns, wall_end_ns, grace_ns),
                best.best_of(before + files@.take(j as int), pids@, known, fit),
            decreases files@.len() - j,
        {
            let ghost so_far = before + files@.take(j as int);
            assert((before + files@.take(j + 1)).drop_last() =~= so_far);
            let f = &files[j];
            if is_in_window(f.path.as_str(), f.mtime_ns, wall_start_ns, wall_end_ns, grace_ns) {
                let join = read_kill(f, pids, known_names);
                if join.is_some() {
                    let t: u64 = match f.mtime_ns {
                        Some(t) => t,
                        None => 0,
                    };
                    if best.join.is_none() || best.mtime_ns < t {
                        best = BestKill { join, mtime_ns: t };
                    }
                }
            }
            j = j + 1;
        }
        assert(files@.take(files@.len() as int) =~= files@);
        assert(dirs@.take(i + 1).drop_last() =~= dirs@.take(i as int));
        i = i + 1;
    }
    assert(dirs@.take(dirs@.len() as int) =~= dirs@);
    best.join
}

pub const KILL_TITLE: &'static str =
    "The kernel killed the recorded process under memory pressure (jetsam)";

pub const OWN_LIMIT: &'static str =
    " Reason: `per-process-limit` — the process exceeded ITS OWN limit, regardless of the state of the rest of the machine.";

pub const PAGE_SHORTAGE: &'static str =
    " Reason: `vm-pageshortage` — the whole machine was short of memory; the run is not necessarily at fault.";

pub const KILL_ADVICE: &'static str =
    " `phys_footprint` is what decides, not MTLDevice memory: a run can fit within the GPU budget and still be killed. The process vanishes with no traceback and no exception — this finding is the only trace of the decision.\n    report: ";

/// The reason of a kill as a sentence.
pub open spec fn reason_text(reason: Option<Seq<char>>) -> Seq<char> {
    match reason {
        Some(r) => if r == "per-process-limit"@ {
            OWN_LIMIT@
        } else if r == "vm-pageshortage"@ {
            PAGE_SHORTAGE@
        } else {
            " Reason as the kernel reports it: `"@ + r + "`."@
        },
        None => seq![],
    }
}

/// A kill as a root cause.
pub open spec fn kill_cause(j: JetsamView) -> FindingView {
    FindingView {
        severity: Severity::Critical,
        category: Category::RootCause,
        title: KILL_TITLE@,
        detail: "jetsam killed PID "@ + dec(j.pid as int) + " ("@ + j.name
            + ") at a footprint of "@ + gigabytes(j.footprint) + " GB (lifetime maximum "@
            + gigabytes(j.lifetime_max) + " GB)."@ + reason_text(j.reason) + KILL_ADVICE@ + j.path,
        evidence: seq![],
    }
}

/// Turns a kill into a root cause.
///
/// The two reasons call for opposite remedies: shrinking the footprint of the
/// run, or freeing memory on the machine.
pub fn jetsam_finding(j: &JetsamJoin) -> (f: Finding)
    ensures
        f@ == kill_cause(j@),
{
    let reason = match &j.reason {
        Some(r) => if same(r.as_str(), "per-process-limit") {
            OWN_LIMIT.to_owned()
        } else if same(r.as_str(), "vm-pageshortage") {
            PAGE_SHORTAGE.to_owned()
        } else {
            let mut s = " Reason as the kernel reports it: `".to_owned();
            s.append(r.as_str());
            s.append("`.");
            s
        },
        None => String::new(),
    };
    assert(reason@ =~= reason_text(opt_view(j.reason)));
    let mut detail = "jetsam killed PID ".to_owned();
    push_dec(&mut detail, j.killed_pid as u64);
    detail.append(" (");
    detail.append(j.killed_name.as_str());
    detail.append(") at a footprint of ");
    push_quotient(&mut detail, j.footprint_bytes, 1_000_000_000, 2);
    detail.append(" GB (lifetime maximum ");
    push_quotient(&mut detail, j.lifetime_max_bytes, 1_000_000_000, 2);
    detail.append(" GB).");
    detail.append(reason.as_str());
    detail.append(KILL_ADVICE);
    detail.append(j.path.as_str());
    Finding::new(Severity::Critical, Category::RootCause, KILL_TITLE).with_detail(detail.as_str())
}

/// The largest wall-clock time of a stream.
pub open spec fn last_wall(events: Seq<Event>) -> Option<u64>
    decreases events.len(),
{
    if events.len() == 0 {
        None
    } else {
        let t = events.last().ts_wall_ns;
        match last_wall(events.drop_last()) {
            Some(m) => Some(
                if m > t {
                    m
                } else {
                    t
                },
            ),
            None => Some(t),
        }
    }
}

/// The end of a session's wall-clock window: when it was closed, else its last
/// event and a grace, else the present.
pub open spec fn window_end(ended: Option<u64>, events: Seq<Event>, now: u64) -> u64 {
    match ended {
        Some(t) => t,
        None => match last_wall(events) {
            Some(m) => latest_report(m, CRASH_REPORT_GRACE_NS),
            None => now,
        },
    }
}

/// The end of a session's wall-clock window, given when it was closed.
///
/// Without its end, a session reaches to its last event and not to the present:
/// an old session that was never closed would span weeks, and only a process
/// id, which the system recycles, would stand behind a verdict.
pub fn window_end_at(ended: Option<u64>, events: &[Event], now_ns: u64) -> (end: u64)
    ensures
        end == window_end(ended, events@, now_ns),
{
    if let Some(t) = ended {
        return t;
    }
    let mut last: Option<u64> = None;
    let mut i: usize = 0;
    while i < events.len()
        invariant
            i <= events@.len(),
            last == last_wall(events@.take(i as int)),
        decreases events@.len() - i,
    {
        proof {
            lemma_prefix_step(events@, i as int);
        }
        let t: u64 = events[i].ts_wall_ns;
        last =
        match last {
            Some(m) => if m > t {
                Some(m)
            } else {
                Some(t)
            },
            None => Some(t),
        };
        i = i + 1;
    }
    assert(events@.take(events@.len() as int) =~= events@);
    match last {
        Some(m) => m.saturating_add(CRASH_REPORT_GRACE_NS),
        None => now_ns,
    }
}

/// When the metadata says that the session was closed.
pub open spec fn ended_ns(meta: SessionMetadata) -> Option<u64> {
    match meta.ended_rfc3339 {
        Some(s) => since_epoch(rfc3339_nanos(s@)),
        None => None,
    }
}

/// The wall-clock window of a session, where its start can be read.
pub open spec fn window_of(
    meta: SessionMetadata,
    events: Seq<Event>,
    now: u64,
) -> Option<(u64, u64)> {
    match since_epoch(rfc3339_nanos(meta.started_rfc3339@)) {
        Some(start) => Some((start, window_end(ended_ns(meta), events, now))),
        None => None,
    }
}

/// The end of a session's wall-clock window.
pub fn window_end_ns(meta: &SessionMetadata, events: &[Event], now_ns: u64) -> (end: u64)
    ensures
        end == window_end(ended_ns(*meta), events@, now_ns),
{
    let ended: Option<u64> = match &meta.ended_rfc3339 {
        Some(s) => rfc3339_unix_ns(s.as_str()),
        None => None,
    };
    window_end_at(ended, events, now_ns)
}

/// The wall-clock window of a session, where its start can be read.
pub fn session_window(
    meta: &SessionMetadata,
    events: &[Event],
    now_ns: u64,
) -> (w: Option<(u64, u64)>)
    ensures
        w == window_of(*meta, events@, now_ns),
{
    match rfc3339_unix_ns(meta.started_rfc3339.as_str()) {
        Some(start) => Some((start, window_end_ns(meta, events, now_ns))),
        None => None,
    }
}

/// The crash that the first directory with one reports.
pub open spec fn crash_in_dirs(
    dirs: Seq<Vec<ReportFile>>,
    pid: u32,
    start: u64,
    end: u64,
    i: int,
) -> Option<CrashView>
    decreases dirs.len() - i,
{
    if i < 0 || i >= dirs.len() {
        None
    } else {
        match crash_among(dirs[i]@, pid, start, end, CRASH_REPORT_GRACE_NS) {
            Some(j) => Some(j),
            None => crash_in_dirs(dirs, pid, start, end, i + 1),
        }
    }
}

/// The crash of a session: a session of a process that did not end cleanly, and
/// a report about it.
pub open spec fn crash_of(
    meta: SessionMetadata,
    window: Option<(u64, u64)>,
    dirs: Seq<Vec<ReportFile>>,
) -> Option<FindingView> {
    match (meta.kind, window) {
        (SessionKind::Scoped { pid, .. }, Some(w)) => if meta.exit_code == Some(0i32) {
            None
        } else {
            match crash_in_dirs(dirs, pid, w.0, w.1, 0) {
                Some(j) => Some(crash_cause(j)),
                None => None,
            }
        },
        _ => None,
    }
}

/// The view of an optional finding.
pub open spec fn opt_finding(o: Option<Finding>) -> Option<FindingView> {
    match o {
        Some(f) => Some(f@),
        None => None,
    }
}

/// The crash of a session, given its wall-clock window.
pub fn crash_verdict(
    meta: &SessionMetadata,
    window: Option<(u64, u64)>,
    dirs: &[Vec<ReportFile>],
) -> (r: Option<Finding>)
    ensures
        opt_finding(r) == crash_of(*meta, window, dirs@),
{
    let pid: u32 = match &meta.kind {
        SessionKind::Scoped { pid, .. } => *pid,
        _ => {
            return None;
        },
    };
    let (start, end): (u64, u64) = match window {
        Some(w) => w,
        None => {
            return None;
        },
    };
    if let Some(code) = meta.exit_code {
        if code == 0 {
            return None;
        }
    }
    let mut i: usize = 0;
    while i < dirs.len()
        invariant
            i <= dirs@.len(),
            crash_of(*meta, window, dirs@) == match crash_in_dirs(
                dirs@,
                pid,
                start,
                end,
                i as int,
            ) {
                Some(j) => Some(crash_cause(j)),
                None => None,
            },
        decreases dirs@.len() - i,
    {
        if let Some(j) = find_crash_report(&dirs[i], pid, start, end, CRASH_REPORT_GRACE_NS) {
            return Some(crash_finding(&j));
        }
        i = i + 1;
    }
    None
}

/// Joins a crash report to the session's report, in front of the findings.
pub fn join_crash(
    report: &mut Report,
    meta: &SessionMetadata,
    events: &[Event],
    dirs: &[Vec<ReportFile>],
    now_ns: u64,
)
    ensures
        final(report).found() == match crash_of(*meta, window_of(*meta, events@, now_ns), dirs@) {
            Some(f) => seq![f] + old(report).found(),
            None => old(report).found(),
        },
        final(report).session_short == old(report).session_short,
        final(report).event_count == old(report).event_count,
{
    let window = session_window(meta, events, now_ns);
    if let Some(f) = crash_verdict(meta, window, dirs) {
        let ghost before = report.findings@;
        report.findings.insert(0, f);
        assert(finding_views(report.findings@) =~= seq![f@] + finding_views(before));
    }
}

/// The processes of a session: the recorded one and all whose footprint was
/// sampled, each once.
pub open spec fn pids_of(pid: u32, events: Seq<Event>) -> Seq<u32>
    decreases events.len(),
{
    if events.len() == 0 {
        seq![pid]
    } else {
        let s = pids_of(pid, events.drop_last());
        match events.last().payload {
            Payload::ProcFootprint { pid: p, .. } => if s.contains(p) {
                s
            } else {
                s.push(p)
            },
            _ => s,
        }
    }
}

/// The name of the program that was started.
pub open spec fn program_names(argv: Seq<String>) -> Seq<Seq<char>> {
    if argv.len() == 0 || after_last(argv[0]@, '/').len() == 0 {
        seq![]
    } else {
        seq![after_last(argv[0]@, '/')]
    }
}

/// The names of a session's processes: the program that was started and all
/// whose footprint was sampled, each once.
pub open spec fn names_of(argv: Seq<String>, events: Seq<Event>) -> Seq<Seq<char>>
    decreases events.len(),
{
    if events.len() == 0 {
        program_names(argv)
    } else {
        let s = names_of(argv, events.drop_last());
        match events.last().payload {
            Payload::ProcFootprint { name, .. } => if name@.len() == 0 || s.contains(name@) {
                s
            } else {
                s.push(name@)
            },
            _ => s,
        }
    }
}

/// The processes of a session.
pub fn traced_pids(pid: u32, events: &[Event]) -> (r: Vec<u32>)
    ensures
        r@ == pids_of(pid, events@),
{
    let mut r: Vec<u32> = Vec::new();
    r.push(pid);
    let mut i: usize = 0;
    assert(r@ =~= seq![pid]);
    while i < events.len()
        invariant
            i <= events@.len(),
            r@ == pids_of(pid, events@.take(i as int)),
        decreases events@.len() - i,
    {
        proof {
            lemma_prefix_step(events@, i as int);
        }
        if let Payload::ProcFootprint { pid: p, .. } = &events[i].payload {
            if !has_pid(&r, *p) {
                r.push(*p);
            }
        }
        i = i + 1;
    }
    assert(events@.take(events@.len() as int) =~= events@);
    r
}

fn has_name(names: &Vec<String>, name: &str) -> (b: bool)
    ensures
        b == views(names@).contains(name@),
{
    let ghost all = views(names@);
    let mut i: usize = 0;
    while i < names.len()
        invariant
            i <= names@.len(),
            all == views(names@),
            forall|k: int| 0 <= k < i ==> (#[trigger] all[k]) != name@,
        decreases names@.len() - i,
    {
        assert(all[i as int] == names@[i as int]@);
        if same(names[i].as_str(), name) {
            return true;
        }
        i = i + 1;
    }
    false
}

/// The names of a session's processes.
pub fn traced_names(argv: &Vec<String>, events: &[Event]) -> (r: Vec<String>)
    ensures
        views(r@) == names_of(argv@, events@),
{
    let mut r: Vec<String> = Vec::new();
    assert(views(r@) =~= seq![]);
    if argv.len() > 0 {
        let program = tail_after(argv[0].as_str(), '/');
        if program.as_str().unicode_len() > 0 {
            r.push(program);
            assert(views(r@) =~= seq![program@]);
        }
    }
    let mut i: usize = 0;
    while i < events.len()
        invariant
            i <= events@.len(),
            views(r@) == names_of(argv@, events@.take(i as int)),
        decreases events@.len() - i,
    {
        proof {
            lemma_prefix_step(events@, i as int);
        }
        let ghost before = r@;
        if let Payload::ProcFootprint { name, .. } = &events[i].payload {
            if name.as_str().unicode_len() > 0 && !has_name(&r, name.as_str()) {
                r.push(name.clone());
                assert(views(r@) =~= views(before).push(name@));
            }
        }
        i = i + 1;
    }
    assert(events@.take(events@.len() as int) =~= events@);
    r
}

/// The kill of a session's process.
pub open spec fn kill_of(
    meta: SessionMetadata,
    window: Option<(u64, u64)>,
    events: Seq<Event>,
    files: Seq<ReportFile>,
) -> Option<FindingView> {
    match (meta.kind, window) {
        (SessionKind::Scoped { pid, argv }, Some(w)) => match kill_among(
            files,
            pids_of(pid, events),
            names_of(argv@, events),
            w.0,
            w.1,
            CRASH_REPORT_GRACE_NS,
        ) {
            Some(j) => Some(kill_cause(j)),
            None => None,
        },
        _ => None,
    }
}

/// The kill of a session's process, given its wall-clock window.
///
/// The exit code does not matter here: the shell around a killed process may
/// report a clean one.
pub fn jetsam_verdict(
    meta: &SessionMetadata,
    window: Option<(u64, u64)>,
    events: &[Event],
    dirs: &[Vec<ReportFile>],
) -> (r: Option<Finding>)
    ensures
        opt_finding(r) == kill_of(*meta, window, events@, all_files(dirs@)),
{
    let (pid, argv): (u32, &Vec<String>) = match &meta.kind {
        SessionKind::Scoped { pid, argv } => (*pid, argv),
        _ => {
            return None;
        },
    };
    let (start, end): (u64, u64) = match window {
        Some(w) => w,
        None => {
            return None;
        },
    };
    let pids = traced_pids(pid, events);
    let names = traced_names(argv, events);
    match find_jetsam_report(dirs, &pids, &names, start, end, CRASH_REPORT_GRACE_NS) {
        Some(j) => Some(jetsam_finding(&j)),
        None => None,
    }
}

/// The interrupt signal.
pub const SIGINT: i32 = 2;

/// The termination signal.
pub const SIGTERM: i32 = 15;

pub const PRESUMED_TITLE: &'static str =
    "Memory footprint was rising and the session ended abnormally";

pub const PRESUMED_ADVICE: &'static str =
    " GB, and the session did not end cleanly, with no jetsam report joinable. A memory-pressure death is possible: the process then vanishes with no traceback and no exception. Check /Library/Logs/DiagnosticReports for a JetsamEvent-*.ips later than the session — it can be written after the fact. This is a presumption, not a verdict.";

/// The user or a supervisor asked the session to stop.
pub open spec fn stop_requested(meta: SessionMetadata) -> bool {
    meta.term_signal == Some(SIGINT) || meta.term_signal == Some(SIGTERM)
}

/// The session ended, and not by itself: a signal killed the process, or the
/// session was closed without an exit code. A session without an exit code that
/// was not closed is still running.
pub open spec fn ended_abnormally(meta: SessionMetadata) -> bool {
    match meta.exit_code {
        Some(code) => code == -1,
        None => meta.ended_rfc3339 is Some,
    }
}

/// Whether the cause of the end is settled.
pub open spec fn has_root_cause(found: Seq<FindingView>) -> bool {
    exists|i: int| 0 <= i < found.len() && (#[trigger] found[i]).category == Category::RootCause
}

/// A death under memory pressure is presumed of a session that ended
/// abnormally, without being asked to and without a known cause, while its
/// footprint had at least doubled.
pub open spec fn presumed(
    meta: SessionMetadata,
    events: Seq<Event>,
    found: Seq<FindingView>,
) -> Option<FindingView> {
    if stop_requested(meta) || !ended_abnormally(meta) || has_root_cause(found) {
        None
    } else {
        match rise(events) {
            None => None,
            Some(p) => {
                let (first, last) = (p.0, p.1);
                if first.bytes == 0 || less(
                    of_int(last.bytes as nat),
                    times(of_int(first.bytes as nat), of_int(2)),
                ) {
                    None
                } else {
                    Some(
                        FindingView {
                            severity: Severity::Warning,
                            category: Category::ContributingFactor,
                            title: PRESUMED_TITLE@,
                            detail: "The traced process's footprint went from "@ + gigabytes(
                                first.bytes,
                            ) + " to "@ + gigabytes(last.bytes) + PRESUMED_ADVICE@,
                            evidence: seq![
                                EvidenceView {
                                    seq: first.seq,
                                    ts_mono_ns: first.ts,
                                    description: "initial footprint "@ + gigabytes(first.bytes)
                                        + " GB"@,
                                },
                                EvidenceView {
                                    seq: last.seq,
                                    ts_mono_ns: last.ts,
                                    description: "last footprint "@ + gigabytes(last.bytes)
                                        + " GB"@,
                                },
                            ],
                        },
                    )
                }
            },
        }
    }
}

/// Presumes a death under memory pressure where no report can be joined.
pub fn presume_memory_death(
    meta: &SessionMetadata,
    events: &[Event],
    report: &Report,
) -> (r: Option<Finding>)
    ensures
        opt_finding(r) == presumed(*meta, events@, report.found()),
{
    if let Some(s) = meta.term_signal {
        if s == SIGINT || s == SIGTERM {
            return None;
        }
    }
    let abnormal: bool = match meta.exit_code {
        Some(code) => code == -1,
        None => meta.ended_rfc3339.is_some(),
    };
    if !abnormal {
        return None;
    }
    let mut i: usize = 0;
    while i < report.findings.len()
        invariant
            i <= report.findings@.len(),
            forall|k: int|
                0 <= k < i ==> (#[trigger] report.found()[k]).category != Category::RootCause,
        decreases report.findings@.len() - i,
    {
        assert(report.found()[i as int] == report.findings@[i as int]@);
        if report.findings[i].category == Category::RootCause {
            assert(has_root_cause(report.found()));
            return None;
        }
        i = i + 1;
    }
    let (first, last): (Footprint, Footprint) = match find_rise(events) {
        Some(p) => p,
        None => {
            return None;
        },
    };
    if first.bytes == 0 || under_twice(last.bytes, first.bytes) {
        return None;
    }
    let mut detail = "The traced process's footprint went from ".to_owned();
    push_quotient(&mut detail, first.bytes, 1_000_000_000, 2);
    detail.append(" to ");
    push_quotient(&mut detail, last.bytes, 1_000_000_000, 2);
    detail.append(PRESUMED_ADVICE);
    let mut initial = "initial footprint ".to_owned();
    push_quotient(&mut initial, first.bytes, 1_000_000_000, 2);
    initial.append(" GB");
    let mut latest = "last footprint ".to_owned();
    push_quotient(&mut latest, last.bytes, 1_000_000_000, 2);
    latest.append(" GB");
    let f = Finding::new(
        Severity::Warning,
        Category::ContributingFactor,
        PRESUMED_TITLE,
    ).with_detail(detail.as_str()).with_evidence(
        EvidenceRef { seq: first.seq, ts_mono_ns: first.ts, description: initial },
    ).with_evidence(EvidenceRef { seq: last.seq, ts_mono_ns: last.ts, description: latest });
    proof {
        let v = presumed(*meta, events@, report.found())->0;
        assert(f@.evidence =~= v.evidence);
    }
    Some(f)
}

/// The findings of a session with what the reports say of kills: a verdict in
/// front of them, or else a presumption behind them.
pub open spec fn with_jetsam(
    found: Seq<FindingView>,
    meta: SessionMetadata,
    window: Option<(u64, u64)>,
    events: Seq<Event>,
    files: Seq<ReportFile>,
) -> Seq<FindingView> {
    if !(meta.kind is Scoped) || window is None {
        found
    } else {
        match kill_of(meta, window, events, files) {
            Some(f) => seq![f] + found,
            None => match presumed(meta, events, found) {
                Some(f) => found.push(f),
                None => found,
            },
        }
    }
}

/// Joins a kill to the session's report, given its wall-clock window.
pub fn join_jetsam_at(
    report: &mut Report,
    meta: &SessionMetadata,
    window: Option<(u64, u64)>,
    events: &[Event],
    dirs: &[Vec<ReportFile>],
)
    ensures
        final(report).found() == with_jetsam(
            old(report).found(),
            *meta,
            window,
            events@,
            all_files(dirs@),
        ),
        final(report).session_short == old(report).session_short,
        final(report).event_count == old(report).event_count,
{
    let scoped: bool = match &meta.kind {
        SessionKind::Scoped { .. } => true,
        _ => false,
    };
    if !scoped || window.is_none() {
        return ;
    }
    let ghost before = report.findings@;
    if let Some(f) = jetsam_verdict(meta, window, events, dirs) {
        report.findings.insert(0, f);
        assert(finding_views(report.findings@) =~= seq![f@] + finding_views(before));
        return ;
    }
    if let Some(f) = presume_memory_death(meta, events, report) {
        report.findings.push(f);
        assert(finding_views(report.findings@) =~= finding_views(before).push(f@));
    }
}

/// Joins a kill to the session's report: a verdict in front of the findings, or
/// else a presumption behind them.
pub fn join_jetsam(
    report: &mut Report,
    meta: &SessionMetadata,
    events: &[Event],
    dirs: &[Vec<ReportFile>],
    now_ns: u64,
)
    ensures
        final(report).found() == with_jetsam(
            old(report).found(),
            *meta,
            window_of(*meta, events@, now_ns),
            events@,
            all_files(dirs@),
        ),
        final(report).session_short == old(report).session_short,
        final(report).event_count == old(report).event_count,
{
    let window = session_window(meta, events, now_ns);
    join_jetsam_at(report, meta, window, events, dirs);
}

/// A verdict outranks a guess: where a crash or a kill was joined, or a root
/// cause was known before, no death under memory pressure is presumed.
pub proof fn verdict_suppresses_presumption(
    found: Seq<FindingView>,
    meta: SessionMetadata,
    events: Seq<Event>,
    cause: FindingView,
)
    requires
        cause.category == Category::RootCause,
    ensures
        presumed(meta, events, seq![cause] + found) is None,
{
    let all = seq![cause] + found;
    assert(all[0] == cause);
    assert(has_root_cause(all));
}

/// A session that is still running, one that was asked to stop and one that
/// ended cleanly or failed by itself presume nothing.
pub proof fn only_violent_ends_presume(
    meta: SessionMetadata,
    events: Seq<Event>,
    found: Seq<FindingView>,
)
    requires
        presumed(meta, events, found) is Some,
    ensures
        meta.term_signal != Some(2i32) && meta.term_signal != Some(15i32),
        meta.exit_code != Some(0i32) && meta.exit_code != Some(1i32),
        meta.exit_code is None ==> meta.ended_rfc3339 is Some,
{
}

/// What is joined was written about one of the session's processes, within its
/// window: a recycled process id outside the window never yields a verdict.
pub proof fn joined_kill_is_about_the_session(
    meta: SessionMetadata,
    start: u64,
    end: u64,
    events: Seq<Event>,
    files: Seq<ReportFile>,
)
    requires
        kill_of(meta, Some((start, end)), events, files) is Some,
    ensures
        exists|i: int|
            #![trigger files[i]]
            0 <= i < files.len() && {
                let f = files[i];
                &&& f.mtime_ns matches Some(t) && start <= t <= latest_report(
                    end,
                    CRASH_REPORT_GRACE_NS,
                )
                &&& f.parsed matches Some(Payload::JetsamKill { killed_pid: Some(p), .. })
                    && pids_of(meta.kind->pid, events).contains(p)
            },
{
    let pids = pids_of(meta.kind->pid, events);
    let names = names_of(meta.kind->argv@, events);
    let fit = kill_fits(pids, names, start, end, CRASH_REPORT_GRACE_NS);
    newest_is_newest(files, fit);
    let i = newest(files, fit)->0;
    assert(fit(files[i]));
    assert(kill_in(files[i], pids, names) is Some);
}

} // verus!
