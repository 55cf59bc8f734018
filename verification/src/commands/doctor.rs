//! What the probes can do on this machine.

use crate::text::{dec, left_aligned, push_dec, push_left, views};
use crate::columns::{push_lines, stacked};
use crate::crash_join::USER_REPORTS;
use crate::paths::{join_path, joined_path};
use vstd::prelude::*;

verus! {

broadcast use vstd::string::group_string_axioms;

/// How well a probe works.
#[derive(Debug, Clone, Copy, PartialEq, Eq, Structural)]
pub enum Status {
    Available,
    Degraded,
    Failed,
}

impl Status {
    /// The status in a word.
    pub open spec fn word(self) -> Seq<char> {
        match self {
            Status::Available => "ok"@,
            Status::Degraded => "degraded"@,
            Status::Failed => "failed"@,
        }
    }

    pub fn label(&self) -> (s: &'static str)
        ensures
            s@ == self.word(),
    {
        match self {
            Status::Available => "ok",
            Status::Degraded => "degraded",
            Status::Failed => "failed",
        }
    }
}

/// What was found of a probe.
#[derive(Debug, Clone, PartialEq, Eq)]
pub struct ProbeCheck {
    pub name: &'static str,
    pub status: Status,
    pub detail: String,
}

/// The view of a [`ProbeCheck`].
pub ghost struct CheckView {
    pub name: Seq<char>,
    pub status: Status,
    pub detail: Seq<char>,
}

impl View for ProbeCheck {
    type V = CheckView;

    open spec fn view(&self) -> CheckView {
        CheckView { name: self.name@, status: self.status, detail: self.detail@ }
    }
}

/// What was found of a probe.
pub open spec fn check(name: Seq<char>, status: Status, detail: Seq<char>) -> CheckView {
    CheckView { name, status, detail }
}

/// The memory statistics, given why they could not be read.
pub fn check_vm(error: Option<String>) -> (c: ProbeCheck)
    ensures
        c@ == match error {
            None => check("vm"@, Status::Available, "host_statistics64 ok"@),
            Some(e) => check("vm"@, Status::Failed, e@),
        },
{
    match error {
        None => ProbeCheck {
            name: "vm",
            status: Status::Available,
            detail: "host_statistics64 ok".to_owned(),
        },
        Some(e) => ProbeCheck { name: "vm", status: Status::Failed, detail: e },
    }
}

/// The process listing, given the number of its rows or why there are none.
pub fn check_proc(rows: Result<usize, String>) -> (c: ProbeCheck)
    ensures
        c@ == match rows {
            Ok(n) => if n > 0 {
                check(
                    "proc"@,
                    Status::Available,
                    "/usr/bin/top reachable, "@ + dec(n as int) + " rows"@,
                )
            } else {
                check("proc"@, Status::Degraded, "top returned 0 rows"@)
            },
            Err(e) => check("proc"@, Status::Failed, e@),
        },
{
    match rows {
        Ok(n) => if n > 0 {
            let mut detail = "/usr/bin/top reachable, ".to_owned();
            push_dec(&mut detail, n as u64);
            detail.append(" rows");
            ProbeCheck { name: "proc", status: Status::Available, detail }
        } else {
            ProbeCheck {
                name: "proc",
                status: Status::Degraded,
                detail: "top returned 0 rows".to_owned(),
            }
        },
        Err(e) => ProbeCheck { name: "proc", status: Status::Failed, detail: e },
    }
}

/// The thermal state. It never says enough without root.
pub fn check_thermal(level: Result<u32, String>) -> (c: ProbeCheck)
    ensures
        c@ == check(
            "thermal"@,
            Status::Degraded,
            match level {
                Ok(n) => "kern.thermalstate="@ + dec(n as int) + " (root needed for SMC keys)"@,
                Err(e) => "kern.thermalstate unavailable: "@ + e@,
            },
        ),
{
    let detail = match level {
        Ok(n) => {
            let mut d = "kern.thermalstate=".to_owned();
            push_dec(&mut d, n as u64);
            d.append(" (root needed for SMC keys)");
            d
        },
        Err(e) => {
            let mut d = "kern.thermalstate unavailable: ".to_owned();
            d.append(e.as_str());
            d
        },
    };
    ProbeCheck { name: "thermal", status: Status::Degraded, detail }
}

/// The system log.
pub fn check_oslog(available: bool) -> (c: ProbeCheck)
    ensures
        c@ == if available {
            check("oslog"@, Status::Available, "/usr/bin/log available"@)
        } else {
            check("oslog"@, Status::Failed, "/usr/bin/log unavailable"@)
        },
{
    if available {
        ProbeCheck {
            name: "oslog",
            status: Status::Available,
            detail: "/usr/bin/log available".to_owned(),
        }
    } else {
        ProbeCheck {
            name: "oslog",
            status: Status::Failed,
            detail: "/usr/bin/log unavailable".to_owned(),
        }
    }
}

pub const IOREPORT_DETAIL: &'static str =
    "v1 stub: precise GPU residency requires metal-hook (Plan 3)";

/// The power probe.
pub fn check_ioreport() -> (c: ProbeCheck)
    ensures
        c@ == check("ioreport"@, Status::Degraded, IOREPORT_DETAIL@),
{
    ProbeCheck {
        name: "ioreport",
        status: Status::Degraded,
        detail: IOREPORT_DETAIL.to_owned(),
    }
}

/// The directory of crash reports, given the user's home.
pub fn reports_dir(home: &str) -> (dir: String)
    ensures
        dir@ == joined_path(home@, USER_REPORTS@),
{
    join_path(home, USER_REPORTS)
}

/// The crash reports, given their directory and whether it exists.
pub fn check_crash_reports(dir: Option<String>, exists: bool) -> (c: ProbeCheck)
    ensures
        c@ == match dir {
            Some(d) => if exists {
                check("crash-reports"@, Status::Available, "watching "@ + d@)
            } else {
                check(
                    "crash-reports"@,
                    Status::Degraded,
                    d@ + " does not exist yet; will be created on first crash"@,
                )
            },
            None => check("crash-reports"@, Status::Failed, "HOME not set"@),
        },
{
    match dir {
        Some(d) => if exists {
            let mut detail = "watching ".to_owned();
            detail.append(d.as_str());
            ProbeCheck { name: "crash-reports", status: Status::Available, detail }
        } else {
            let mut detail = d;
            detail.append(" does not exist yet; will be created on first crash");
            ProbeCheck { name: "crash-reports", status: Status::Degraded, detail }
        },
        None => ProbeCheck {
            name: "crash-reports",
            status: Status::Failed,
            detail: "HOME not set".to_owned(),
        },
    }
}

pub const CHILDREN_OBSERVABLE: &'static str =
    "task_for_pid works on spawned children; same-uid pids observable";

pub const CHILDREN_HARDENED: &'static str =
    "task_for_pid(self) ok, but hardened children (system/Homebrew Python) are not observable — crash signals for those come from the crash-reports probe (.ips)";

pub const SELF_OBSERVABLE: &'static str =
    "task_for_pid(self) succeeded; only same-uid pids are observable";

/// The exception ports, given why the process cannot observe itself and whether
/// it could observe a child, where one could be started. Self-observation always
/// works, so the child is what counts.
pub fn check_mach_exc(error: Option<String>, child_observable: Option<bool>) -> (c: ProbeCheck)
    ensures
        c@ == match error {
            Some(e) => check("mach-exceptions"@, Status::Failed, e@),
            None => match child_observable {
                Some(true) => check("mach-exceptions"@, Status::Available, CHILDREN_OBSERVABLE@),
                Some(false) => check("mach-exceptions"@, Status::Degraded, CHILDREN_HARDENED@),
                None => check("mach-exceptions"@, Status::Available, SELF_OBSERVABLE@),
            },
        },
{
    match error {
        Some(e) => ProbeCheck { name: "mach-exceptions", status: Status::Failed, detail: e },
        None => match child_observable {
            Some(true) => ProbeCheck {
                name: "mach-exceptions",
                status: Status::Available,
                detail: CHILDREN_OBSERVABLE.to_owned(),
            },
            Some(false) => ProbeCheck {
                name: "mach-exceptions",
                status: Status::Degraded,
                detail: CHILDREN_HARDENED.to_owned(),
            },
            None => ProbeCheck {
                name: "mach-exceptions",
                status: Status::Available,
                detail: SELF_OBSERVABLE.to_owned(),
            },
        },
    }
}

/// The views of a list of checks.
pub open spec fn check_views(s: Seq<ProbeCheck>) -> Seq<CheckView> {
    s.map_values(|c: ProbeCheck| c@)
}

/// A check as a line.
pub open spec fn check_line(c: CheckView) -> Seq<char> {
    "  ["@ + left_aligned(c.status.word(), 9) + "] "@ + left_aligned(c.name, 16) + " "@ + c.detail
        + "\n"@
}

/// The number of checks that failed.
pub open spec fn failed_count(s: Seq<CheckView>) -> nat
    decreases s.len(),
{
    if s.len() == 0 {
        0
    } else {
        failed_count(s.drop_last()) + if s.last().status == Status::Failed {
            1nat
        } else {
            0nat
        }
    }
}

/// All checks as text.
pub open spec fn doctor_text(s: Seq<CheckView>) -> Seq<char> {
    "smeltr doctor — probe availability\n\n"@ + stacked(s.map_values(|c: CheckView| check_line(c)))
        + if failed_count(s) > 0 {
        "\n"@ + dec(failed_count(s) as int)
            + " probe(s) failed. Smeltr will run with these disabled.\n"@
    } else {
        seq![]
    }
}

/// Renders all checks.
pub fn report(checks: &[ProbeCheck]) -> (out: String)
    ensures
        out@ == doctor_text(check_views(checks@)),
{
    let ghost all = check_views(checks@);
    let mut lines: Vec<String> = Vec::new();
    let mut failed: usize = 0;
    let mut i: usize = 0;
    assert(all.take(0) =~= Seq::<CheckView>::empty());
    while i < checks.len()
        invariant
            i <= checks@.len(),
            all == check_views(checks@),
            failed <= i,
            failed == failed_count(all.take(i as int)),
            lines@.len() == i,
            forall|k: int| 0 <= k < i ==> (#[trigger] lines@[k])@ == check_line(checks@[k]@),
        decreases checks@.len() - i,
    {
        let c = &checks[i];
        proof {
            assert(all.take(i + 1).drop_last() =~= all.take(i as int));
            assert(all[i as int] == c@);
        }
        let mut s = "  [".to_owned();
        push_left(&mut s, c.status.label(), 9);
        s.append("] ");
        push_left(&mut s, c.name, 16);
        s.append(" ");
        s.append(c.detail.as_str());
        s.append("\n");
        lines.push(s);
        if c.status == Status::Failed {
            failed = failed + 1;
        }
        i = i + 1;
    }
    assert(all.take(all.len() as int) =~= all);
    assert(views(lines@) =~= all.map_values(|c: CheckView| check_line(c)));
    let mut out = "smeltr doctor — probe availability\n\n".to_owned();
    push_lines(&mut out, &lines);
    let ghost body = out@;
    if failed > 0 {
        let mut note = "\n".to_owned();
        push_dec(&mut note, failed as u64);
        note.append(" probe(s) failed. Smeltr will run with these disabled.\n");
        out.append(note.as_str());
    } else {
        assert(out@ =~= body + Seq::<char>::empty());
    }
    out
}

} // verus!
