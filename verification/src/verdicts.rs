//! When a session is said to have crashed, been killed or died under memory pressure.

use crate::crash_join::{
    compatible, crash_fits, crash_in, crash_in_dirs, crash_of, has_root_cause, kill_among,
    kill_fits, kill_in, kill_of, last_wall, name_admits, names_of, newest, newest_is_newest,
    pids_of, presumed, program_names, window_end, with_jetsam, ReportFile, CRASH_REPORT_GRACE_NS,
};
use crate::double::{lemma_of_int, lemma_pow2_facts, less, of_int, times, HIGH, LOW};
use crate::event::{Event, SessionMetadata};
use crate::finding::{Category, FindingView, Severity};
use crate::paths::is_report;
use crate::rounding::doubles_compare_as_numbers;
use crate::rules::jetsam_risk::{rise, rise_findings, settled};
use crate::text::{after_last, starts_with};
use vstd::arithmetic::power2::pow2;
use vstd::prelude::*;

verus! {

/// Where a window starts.
pub open spec fn from(window: Option<(u64, u64)>) -> u64 {
    match window {
        Some(w) => w.0,
        None => 0,
    }
}

/// Where a window ends.
pub open spec fn to(window: Option<(u64, u64)>) -> u64 {
    match window {
        Some(w) => w.1,
        None => 0,
    }
}

/// The file is a report that was written within the window, or up to two minutes behind
/// it.
pub open spec fn written_within(f: ReportFile, start: u64, end: u64) -> bool {
    is_report(f.path@) && (f.mtime_ns matches Some(t) && start <= t && t <= end + 120_000_000_000)
}

/// The file reports a crash of the process `pid`.
pub open spec fn reports_crash(f: ReportFile, pid: u32) -> bool {
    f.parsed is Some && f.parsed->0 is CrashReportEmitted
        && f.parsed->0->CrashReportEmitted_crashed_pid == Some(pid)
}

proof fn lemma_crash_dirs(dirs: Seq<Vec<ReportFile>>, pid: u32, start: u64, end: u64, i: int)
    requires
        0 <= i <= dirs.len(),
    ensures
        crash_in_dirs(dirs, pid, start, end, i) is Some <==> exists|d: int, k: int|
            #![trigger dirs[d]@[k]]
            i <= d < dirs.len() && 0 <= k < dirs[d]@.len() && written_within(
                dirs[d]@[k],
                start,
                end,
            ) && reports_crash(dirs[d]@[k], pid),
    decreases dirs.len() - i,
{
    if i < dirs.len() {
        let files = dirs[i]@;
        let fit = crash_fits(pid, start, end, CRASH_REPORT_GRACE_NS);
        lemma_crash_dirs(dirs, pid, start, end, i + 1);
        newest_is_newest(files, fit);
        match newest(files, fit) {
            Some(k) => {
                assert(fit(files[k]));
                assert(crash_in(files[k], pid) is Some);
                assert(written_within(dirs[i]@[k], start, end));
                assert(reports_crash(dirs[i]@[k], pid));
            },
            None => {
                if exists|d: int, k: int|
                    #![trigger dirs[d]@[k]]
                    i <= d < dirs.len() && 0 <= k < dirs[d]@.len() && written_within(
                        dirs[d]@[k],
                        start,
                        end,
                    ) && reports_crash(dirs[d]@[k], pid) {
                    let (d, k) = choose|d: int, k: int|
                        #![trigger dirs[d]@[k]]
                        i <= d < dirs.len() && 0 <= k < dirs[d]@.len() && written_within(
                            dirs[d]@[k],
                            start,
                            end,
                        ) && reports_crash(dirs[d]@[k], pid);
                    if d == i {
                        assert(crash_in(files[k], pid) is Some);
                        assert(!fit(files[k]));
                    }
                }
            },
        }
    }
}

/// A session is said to have crashed exactly where it recorded a process that did not exit
/// with zero, and a report about a crash of that process was written within its window or
/// up to two minutes behind it. The verdict is a critical root cause.
pub proof fn crashes_are_reported_ones(
    meta: SessionMetadata,
    window: Option<(u64, u64)>,
    dirs: Seq<Vec<ReportFile>>,
)
    ensures
        crash_of(meta, window, dirs) is Some <==> meta.kind is Scoped && window is Some
            && meta.exit_code != Some(0i32) && exists|d: int, k: int|
            #![trigger dirs[d]@[k]]
            0 <= d < dirs.len() && 0 <= k < dirs[d]@.len() && written_within(
                dirs[d]@[k],
                from(window),
                to(window),
            ) && reports_crash(dirs[d]@[k], meta.kind->pid),
        crash_of(meta, window, dirs) matches Some(f) ==> f.severity == Severity::Critical
            && f.category == Category::RootCause,
{
    if let Some(w) = window {
        if meta.kind is Scoped {
            lemma_crash_dirs(dirs, meta.kind->pid, w.0, w.1, 0);
        }
    }
}

/// A process belongs to a session where it is the recorded one or its footprint was
/// sampled.
pub proof fn processes_of_a_session(pid: u32, events: Seq<Event>, p: u32)
    ensures
        pids_of(pid, events).contains(p) <==> p == pid || exists|i: int|
            0 <= i < events.len() && (#[trigger] events[i]).payload is ProcFootprint
                && events[i].payload->ProcFootprint_pid == p,
    decreases events.len(),
{
    if events.len() == 0 {
        assert(pids_of(pid, events) =~= seq![pid]);
        assert(seq![pid][0] == pid);
    } else {
        let rest = events.drop_last();
        let last = events.len() - 1;
        processes_of_a_session(pid, rest, p);
        let (s, t) = (pids_of(pid, rest), pids_of(pid, events));
        if s.contains(p) {
            let k = choose|k: int| 0 <= k < s.len() && s[k] == p;
            assert(t[k] == p);
        }
        if events[last].payload is ProcFootprint && events[last].payload->ProcFootprint_pid == p {
            if !s.contains(p) {
                assert(t[t.len() - 1] == p);
            }
        }
        if t.contains(p) && !s.contains(p) {
            let k = choose|k: int| 0 <= k < t.len() && t[k] == p;
            if k < s.len() {
                assert(s[k] == p);
            }
            assert(events[last].payload->ProcFootprint_pid == p);
        }
        if exists|i: int|
            0 <= i < rest.len() && (#[trigger] rest[i]).payload is ProcFootprint
                && rest[i].payload->ProcFootprint_pid == p {
            let i = choose|i: int|
                0 <= i < rest.len() && (#[trigger] rest[i]).payload is ProcFootprint
                    && rest[i].payload->ProcFootprint_pid == p;
            assert(events[i] == rest[i]);
        }
        if exists|i: int|
            0 <= i < events.len() && (#[trigger] events[i]).payload is ProcFootprint
                && events[i].payload->ProcFootprint_pid == p {
            let i = choose|i: int|
                0 <= i < events.len() && (#[trigger] events[i]).payload is ProcFootprint
                    && events[i].payload->ProcFootprint_pid == p;
            if i < last {
                assert(rest[i] == events[i]);
            }
        }
    }
}

/// A name belongs to a session where it is that of the program, or of a process whose
/// footprint was sampled. An empty one never does.
pub proof fn names_of_a_session(argv: Seq<String>, events: Seq<Event>, name: Seq<char>)
    ensures
        names_of(argv, events).contains(name) <==> name.len() > 0 && ((argv.len() > 0 && name
            == after_last(argv[0]@, '/')) || exists|i: int|
            0 <= i < events.len() && (#[trigger] events[i]).payload is ProcFootprint
                && events[i].payload->ProcFootprint_name@ == name),
    decreases events.len(),
{
    if events.len() == 0 {
        let p = program_names(argv);
        if p.contains(name) {
            assert(p[0] == name);
        }
        if argv.len() > 0 && name == after_last(argv[0]@, '/') && name.len() > 0 {
            assert(p[0] == name);
        }
    } else {
        let rest = events.drop_last();
        let last = events.len() - 1;
        names_of_a_session(argv, rest, name);
        let (s, t) = (names_of(argv, rest), names_of(argv, events));
        if s.contains(name) {
            let k = choose|k: int| 0 <= k < s.len() && s[k] == name;
            assert(t[k] == name);
        }
        if events[last].payload is ProcFootprint && events[last].payload->ProcFootprint_name@
            == name && name.len() > 0 {
            if !s.contains(name) {
                assert(t[t.len() - 1] == name);
            }
        }
        if t.contains(name) && !s.contains(name) {
            let k = choose|k: int| 0 <= k < t.len() && t[k] == name;
            if k < s.len() {
                assert(s[k] == name);
            }
            assert(events[last].payload->ProcFootprint_name@ == name);
        }
        if exists|i: int|
            0 <= i < rest.len() && (#[trigger] rest[i]).payload is ProcFootprint
                && rest[i].payload->ProcFootprint_name@ == name {
            let i = choose|i: int|
                0 <= i < rest.len() && (#[trigger] rest[i]).payload is ProcFootprint
                    && rest[i].payload->ProcFootprint_name@ == name;
            assert(events[i] == rest[i]);
        }
        if exists|i: int|
            0 <= i < events.len() && (#[trigger] events[i]).payload is ProcFootprint
                && events[i].payload->ProcFootprint_name@ == name {
            let i = choose|i: int|
                0 <= i < events.len() && (#[trigger] events[i]).payload is ProcFootprint
                    && events[i].payload->ProcFootprint_name@ == name;
            if i < last {
                assert(rest[i] == events[i]);
            }
        }
    }
}

/// The file reports a kill of a process of the session, under a name that may be one of
/// the session's: where either side gives none, or where one is a beginning of the other.
pub open spec fn reports_kill(f: ReportFile, pids: Seq<u32>, names: Seq<Seq<char>>) -> bool {
    &&& f.parsed is Some && f.parsed->0 is JetsamKill
    &&& f.parsed->0->JetsamKill_killed_pid matches Some(p) && pids.contains(p)
    &&& {
        let killed = f.parsed->0->JetsamKill_killed_name@;
        names.len() == 0 || killed.len() == 0 || exists|k: int|
            0 <= k < names.len() && (#[trigger] names[k]).len() > 0 && (starts_with(
                names[k],
                killed,
            ) || starts_with(killed, names[k]))
    }
}

proof fn lemma_reports_kill(f: ReportFile, pids: Seq<u32>, names: Seq<Seq<char>>)
    ensures
        kill_in(f, pids, names) is Some <==> reports_kill(f, pids, names),
{
    if f.parsed is Some && f.parsed->0 is JetsamKill {
        let killed = f.parsed->0->JetsamKill_killed_name@;
        if name_admits(names, killed) && names.len() > 0 && killed.len() > 0 {
            let k = choose|k: int|
                0 <= k < names.len() && compatible(#[trigger] names[k], killed);
            assert(names[k].len() > 0 && (starts_with(names[k], killed) || starts_with(
                killed,
                names[k],
            )));
        }
        if killed.len() > 0 && exists|k: int|
            0 <= k < names.len() && (#[trigger] names[k]).len() > 0 && (starts_with(
                names[k],
                killed,
            ) || starts_with(killed, names[k])) {
            let k = choose|k: int|
                0 <= k < names.len() && (#[trigger] names[k]).len() > 0 && (starts_with(
                    names[k],
                    killed,
                ) || starts_with(killed, names[k]));
            assert(compatible(names[k], killed));
        }
    }
}

/// A session is said to have been killed exactly where it recorded a process, and a report
/// about a kill of one of its processes was written within its window or up to two minutes
/// behind it. The newest such report counts, and the verdict is a critical root cause.
pub proof fn kills_are_reported_ones(
    meta: SessionMetadata,
    window: Option<(u64, u64)>,
    events: Seq<Event>,
    files: Seq<ReportFile>,
)
    ensures
        ({
            let pids = pids_of(meta.kind->pid, events);
            let names = names_of(meta.kind->argv@, events);
            let fits = |f: ReportFile|
                written_within(f, from(window), to(window)) && reports_kill(f, pids, names);
            &&& kill_of(meta, window, events, files) is Some <==> meta.kind is Scoped
                && window is Some && exists|k: int|
                0 <= k < files.len() && #[trigger] fits(files[k])
            &&& meta.kind is Scoped && window is Some ==> match kill_among(
                files,
                pids,
                names,
                from(window),
                to(window),
                CRASH_REPORT_GRACE_NS,
            ) {
                Some(j) => exists|k: int|
                    {
                        &&& 0 <= k < files.len() && #[trigger] fits(files[k])
                        &&& kill_in(files[k], pids, names) == Some(j)
                        &&& forall|m: int|
                            0 <= m < files.len() && #[trigger] fits(files[m])
                                ==> files[m].mtime_ns->0 <= files[k].mtime_ns->0
                    },
                None => true,
            }
            &&& kill_of(meta, window, events, files) matches Some(f) ==> f.severity
                == Severity::Critical && f.category == Category::RootCause
        }),
{
    if meta.kind is Scoped && window is Some {
        let w = window->0;
        let pids = pids_of(meta.kind->pid, events);
        let names = names_of(meta.kind->argv@, events);
        let fits = |f: ReportFile| written_within(f, w.0, w.1) && reports_kill(f, pids, names);
        let fit = kill_fits(pids, names, w.0, w.1, CRASH_REPORT_GRACE_NS);
        newest_is_newest(files, fit);
        assert forall|k: int| 0 <= k < files.len() implies #[trigger] fits(files[k]) == fit(
            files[k],
        ) by {
            lemma_reports_kill(files[k], pids, names);
        }
        match newest(files, fit) {
            Some(k) => {
                assert(fits(files[k]));
                lemma_reports_kill(files[k], pids, names);
                assert forall|m: int| 0 <= m < files.len() && #[trigger] fits(files[m]) implies
                    files[m].mtime_ns->0 <= files[k].mtime_ns->0 by {
                    assert(fit(files[m]));
                }
            },
            None => {
                assert forall|k: int| 0 <= k < files.len() implies !#[trigger] fits(files[k]) by {
                    assert(!fit(files[k]));
                }
            },
        }
    }
}

/// A session reaches to where it was closed. One that was not reaches to two minutes behind
/// the latest wall-clock time of its events, and to the present where it has none.
pub proof fn sessions_reach_to_their_end(ended: Option<u64>, events: Seq<Event>, now: u64)
    ensures
        ended matches Some(t) ==> window_end(ended, events, now) == t,
        ended is None && events.len() == 0 ==> window_end(ended, events, now) == now,
        ended is None && events.len() > 0 ==> exists|i: int|
            {
                let t = (#[trigger] events[i]).ts_wall_ns;
                &&& 0 <= i < events.len()
                &&& forall|j: int| 0 <= j < events.len() ==> (#[trigger] events[j]).ts_wall_ns <= t
                &&& window_end(ended, events, now) == if t + 120_000_000_000 > u64::MAX {
                    u64::MAX as int
                } else {
                    t + 120_000_000_000
                }
            },
{
    if events.len() > 0 {
        lemma_last_wall(events);
        let i = choose|i: int|
            0 <= i < events.len() && (#[trigger] events[i]).ts_wall_ns == last_wall(events)->0;
        assert(events[i].ts_wall_ns == last_wall(events)->0);
    }
}

proof fn lemma_last_wall(events: Seq<Event>)
    requires
        events.len() > 0,
    ensures
        last_wall(events) is Some,
        forall|j: int|
            0 <= j < events.len() ==> (#[trigger] events[j]).ts_wall_ns <= last_wall(events)->0,
        exists|i: int|
            0 <= i < events.len() && (#[trigger] events[i]).ts_wall_ns == last_wall(events)->0,
    decreases events.len(),
{
    let rest = events.drop_last();
    let last = events.len() - 1;
    if rest.len() > 0 {
        lemma_last_wall(rest);
        assert forall|j: int| 0 <= j < events.len() implies (#[trigger] events[j]).ts_wall_ns
            <= last_wall(events)->0 by {
            if j < last {
                assert(rest[j].ts_wall_ns <= last_wall(rest)->0);
            }
        }
        if last_wall(events) == last_wall(rest) {
            let i = choose|i: int|
                0 <= i < rest.len() && (#[trigger] rest[i]).ts_wall_ns == last_wall(rest)->0;
            assert(events[i].ts_wall_ns == last_wall(events)->0);
        } else {
            assert(events[last].ts_wall_ns == last_wall(events)->0);
        }
    } else {
        assert(last_wall(rest) is None);
        assert(events[last].ts_wall_ns == last_wall(events)->0);
    }
}

/// The event samples the footprint of the recorded process.
pub open spec fn prints_traced(e: Event) -> bool {
    e.payload is ProcFootprint && e.payload->ProcFootprint_is_traced_root
}

/// The footprint that an event samples.
pub open spec fn print_of(e: Event) -> u64 {
    e.payload->ProcFootprint_phys_footprint_bytes
}

/// A footprint rises from the first to the last sample of the recorded process.
pub proof fn footprints_rise_from_first_to_last(events: Seq<Event>, a: int, b: int)
    requires
        0 <= a <= b < events.len(),
        prints_traced(events[a]),
        prints_traced(events[b]),
        forall|j: int| 0 <= j < a ==> !prints_traced(#[trigger] events[j]),
        forall|j: int| b < j < events.len() ==> !prints_traced(#[trigger] events[j]),
    ensures
        match rise(events) {
            Some((first, last)) => {
                &&& first.bytes == print_of(events[a])
                &&& first.seq == events[a].seq
                &&& first.ts == events[a].ts_mono_ns
                &&& last.bytes == print_of(events[b])
                &&& last.seq == events[b].seq
                &&& last.ts == events[b].ts_mono_ns
            },
            None => false,
        },
    decreases events.len(),
{
    let rest = events.drop_last();
    let last = events.len() - 1;
    assert forall|j: int| 0 <= j < rest.len() implies rest[j] == #[trigger] events[j] by {}
    if b < last {
        assert(!prints_traced(events[last]));
        footprints_rise_from_first_to_last(rest, a, b);
    } else if a == b {
        lemma_no_rise(rest);
    } else {
        let m = lemma_last_print(rest, a);
        footprints_rise_from_first_to_last(rest, a, m);
    }
}

proof fn lemma_no_rise(events: Seq<Event>)
    requires
        forall|j: int| 0 <= j < events.len() ==> !prints_traced(#[trigger] events[j]),
    ensures
        rise(events) is None,
    decreases events.len(),
{
    if events.len() > 0 {
        assert(!prints_traced(events[events.len() - 1]));
        assert forall|j: int| 0 <= j < events.len() - 1 implies events.drop_last()[j]
            == #[trigger] events[j] by {}
        lemma_no_rise(events.drop_last());
    }
}

proof fn lemma_last_print(events: Seq<Event>, a: int) -> (m: int)
    requires
        0 <= a < events.len(),
        prints_traced(events[a]),
    ensures
        a <= m < events.len(),
        prints_traced(events[m]),
        forall|j: int| m < j < events.len() ==> !prints_traced(#[trigger] events[j]),
    decreases events.len(),
{
    let last = events.len() - 1;
    if prints_traced(events[last]) {
        last
    } else {
        let rest = events.drop_last();
        assert forall|j: int| 0 <= j < rest.len() implies rest[j] == #[trigger] events[j] by {}
        lemma_last_print(rest, a)
    }
}

/// Twice a number of less than 53 bits is computed exactly.
proof fn lemma_twice(n: nat)
    requires
        0 < n < LOW,
    ensures
        times(of_int(n), of_int(2)) == of_int(2 * n),
{
    lemma_of_int(n);
    lemma_pow2_facts(51);
    assert(2 * pow2(51) == LOW);
    crate::double::lemma_small_int(2, 51);
    let a = of_int(n);
    let two = of_int(2);
    assert(two.mant == LOW && two.exp == -51);
    assert(a.mant * LOW < LOW * HIGH) by (nonlinear_arith)
        requires
            a.mant < HIGH,
    ;
    crate::double::lemma_half_even_bounds(a.mant * LOW as nat, LOW as nat, a.mant, a.mant);
}

/// A death under memory pressure is presumed exactly of a session that nobody asked to stop
/// (no interrupt and no termination), that was killed by a signal or closed without an exit
/// code, of which no root cause is known, and whose footprint at least doubled. It is a
/// warning. (Of footprints under 52 bits, that is: larger ones are compared as doubles.)
pub proof fn presumptions_need_a_doubled_footprint(
    meta: SessionMetadata,
    events: Seq<Event>,
    found: Seq<FindingView>,
    a: int,
    b: int,
)
    requires
        0 <= a <= b < events.len(),
        prints_traced(events[a]),
        prints_traced(events[b]),
        forall|j: int| 0 <= j < a ==> !prints_traced(#[trigger] events[j]),
        forall|j: int| b < j < events.len() ==> !prints_traced(#[trigger] events[j]),
        print_of(events[a]) < LOW,
        print_of(events[b]) < HIGH,
    ensures
        presumed(meta, events, found) is Some <==> {
            &&& meta.term_signal != Some(2i32) && meta.term_signal != Some(15i32)
            &&& meta.exit_code == Some(-1i32) || (meta.exit_code is None
                && meta.ended_rfc3339 is Some)
            &&& forall|i: int|
                0 <= i < found.len() ==> (#[trigger] found[i]).category != Category::RootCause
            &&& print_of(events[a]) > 0
            &&& print_of(events[b]) >= 2 * print_of(events[a])
        },
        presumed(meta, events, found) matches Some(f) ==> f.severity == Severity::Warning
            && f.category == Category::ContributingFactor,
{
    footprints_rise_from_first_to_last(events, a, b);
    let (x, y) = (print_of(events[a]) as nat, print_of(events[b]) as nat);
    if x > 0 {
        lemma_twice(x);
        doubles_compare_as_numbers(y, 2 * x);
    }
    if has_root_cause(found) {
        let i = choose|i: int|
            0 <= i < found.len() && (#[trigger] found[i]).category == Category::RootCause;
        assert(found[i].category == Category::RootCause);
    }
}

/// A rising footprint is told exactly of a session that nothing settles, neither a kill nor
/// a clean end, and whose footprint at least doubled.
pub proof fn risks_need_a_doubled_footprint(events: Seq<Event>, a: int, b: int)
    requires
        0 <= a <= b < events.len(),
        prints_traced(events[a]),
        prints_traced(events[b]),
        forall|j: int| 0 <= j < a ==> !prints_traced(#[trigger] events[j]),
        forall|j: int| b < j < events.len() ==> !prints_traced(#[trigger] events[j]),
        print_of(events[a]) < LOW,
        print_of(events[b]) < HIGH,
    ensures
        ({
            let told = {
                &&& forall|i: int|
                    0 <= i < events.len() ==> !((#[trigger] events[i]).payload is JetsamKill)
                        && !(events[i].payload is SessionEnded)
                &&& print_of(events[a]) > 0
                &&& print_of(events[b]) >= 2 * print_of(events[a])
            };
            rise_findings(events).len() == if told {
                1int
            } else {
                0
            }
        }),
{
    footprints_rise_from_first_to_last(events, a, b);
    let (x, y) = (print_of(events[a]) as nat, print_of(events[b]) as nat);
    if x > 0 {
        lemma_twice(x);
        doubles_compare_as_numbers(y, 2 * x);
    }
    assert forall|i: int| 0 <= i < events.len() implies crate::rules::jetsam_risk::settles(
        #[trigger] events[i],
    ) == (events[i].payload is JetsamKill || events[i].payload is SessionEnded) by {}
    if settled(events) {
        let i = choose|i: int|
            0 <= i < events.len() && crate::rules::jetsam_risk::settles(#[trigger] events[i]);
        assert(events[i].payload is JetsamKill || events[i].payload is SessionEnded);
    }
}

/// A kill stands in front of the other findings and a presumption behind them, never both,
/// and no finding is lost. Only a session with a process and a window gets either.
pub proof fn verdicts_come_first(
    found: Seq<FindingView>,
    meta: SessionMetadata,
    window: Option<(u64, u64)>,
    events: Seq<Event>,
    files: Seq<ReportFile>,
)
    ensures
        ({
            let all = with_jetsam(found, meta, window, events, files);
            let kill = kill_of(meta, window, events, files);
            &&& kill matches Some(f) ==> all.len() == found.len() + 1 && all[0] == f && all.skip(1)
                == found
            &&& kill is None ==> all.len() <= found.len() + 1 && all.take(found.len() as int)
                == found
            &&& kill is None && meta.kind is Scoped && window is Some && presumed(
                meta,
                events,
                found,
            ) is Some ==> all.len() == found.len() + 1 && Some(all[found.len() as int])
                == presumed(meta, events, found)
            &&& !(meta.kind is Scoped) || window is None ==> all == found
        }),
{
    let all = with_jetsam(found, meta, window, events, files);
    match kill_of(meta, window, events, files) {
        Some(f) => assert(all.skip(1) =~= found),
        None => assert(all.take(found.len() as int) =~= found),
    }
}

} // verus!
