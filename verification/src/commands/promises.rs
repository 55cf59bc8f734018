//! What the commands promise, whatever they are asked about.

use crate::analysis::found_by;
use crate::commands::compare::{pct_note, sign_of};
use crate::commands::daemon::{stray, StartAction, Supervision};
use crate::commands::doctor::{failed_count, CheckView, Status};
use crate::commands::lifecycle::{first_step, start_poll, StartPoll, StartStep};
use crate::commands::record::{planned, steps_after, Outcome, PlanView, Stage, Step};
use crate::commands::sessions::{by_suffix, leads_to, Resolved};
use crate::commands::tail::{gap_before, remembered, Gap};
use crate::diff::delta_of;
use crate::double::{of_int, ratio, times, HIGH};
use crate::event::{Event, Uuid};
use crate::ids::{hyphenated, trailing};
use crate::memory_report::allocator_of;
use crate::rule::{registry, AnyRule};
use crate::rules::duplicate_model_load::load_scan;
use crate::rules::metal_error::failures;
use crate::rules::mlx_timing::{
    async_count, by_duration, percentile, summary, timing_findings, Rec,
};
use crate::rules::queue_depth::depth_findings;
use crate::session_resolver::{
    goes_by, is_post_mortem, is_scoped, is_stale, meant, named, newest, newest_is_last, ordinary,
    ResolveError, SessionEntry,
};
use crate::sort::ordered;
use crate::text::{dec, ends_with, text_before};
use vstd::prelude::*;

verus! {

/// An analysis tells what every rule finds: failed command buffers, queues before a
/// failure, queue pressure, the timing of evals, pressing processes and models loaded
/// twice, in this order, and nothing else.
pub proof fn every_rule_is_heard(events: Seq<Event>)
    ensures
        found_by(registry(), events) == failures(events) + depth_findings(events)
            + crate::rules::queue_pressure::pressure_findings(events) + timing_findings(events)
            + crate::rules::system_pressure::pressure_findings(events) + load_scan(events).findings,
{
    let r = registry();
    reveal_with_fuel(found_by, 7);
    assert(r.drop_last().drop_last().drop_last().drop_last().drop_last().drop_last()
        =~= Seq::<AnyRule>::empty());
    assert(found_by(r, events) =~= failures(events) + depth_findings(events)
        + crate::rules::queue_pressure::pressure_findings(events) + timing_findings(events)
        + crate::rules::system_pressure::pressure_findings(events) + load_scan(events).findings);
}

/// Where no session is named, the one saved after the latest crash is meant where that is
/// preferred and no command was recorded after it. Else the newest session is meant where
/// the daemon's own count, and the newest recorded command where they do not, if any.
pub proof fn meant_sessions_are_the_newest(
    s: Seq<SessionEntry>,
    prefer_post_mortem: bool,
    include_ambient: bool,
)
    ensures
        s.len() == 0 ==> meant(s, prefer_post_mortem, include_ambient) == Err::<int, ResolveError>(
            ResolveError::NoSessions,
        ),
        s.len() > 0 ==> match meant(s, prefer_post_mortem, include_ambient) {
            Ok(i) => {
                &&& 0 <= i < s.len()
                &&& !prefer_post_mortem && include_ambient ==> i == s.len() - 1
                &&& !prefer_post_mortem && !include_ambient ==> if exists|k: int|
                    0 <= k < s.len() && is_scoped(#[trigger] s[k]) {
                    is_scoped(s[i]) && forall|k: int|
                        i < k < s.len() ==> !is_scoped(#[trigger] s[k])
                } else {
                    i == s.len() - 1
                }
                &&& prefer_post_mortem && is_post_mortem(s[i]) && !include_ambient && !is_scoped(
                    s[i],
                ) && (exists|k: int| 0 <= k < s.len() && is_scoped(#[trigger] s[k])) ==> !is_stale(
                    s,
                    i,
                ) && forall|k: int| i < k < s.len() ==> !is_post_mortem(#[trigger] s[k])
            },
            Err(_) => false,
        },
        forall|p: int|
            prefer_post_mortem && 0 <= p < s.len() && is_post_mortem(#[trigger] s[p]) && (forall|
                k: int,
            |
                p < k < s.len() ==> !is_post_mortem(#[trigger] s[k])) && !is_stale(s, p) ==> meant(
                s,
                prefer_post_mortem,
                include_ambient,
            ) == Ok::<int, ResolveError>(p),
{
    let n = s.len() as int;
    let pm = |e: SessionEntry| is_post_mortem(e);
    let sc = |e: SessionEntry| is_scoped(e);
    newest_is_last(s, n, pm);
    newest_is_last(s, n, sc);
    assert forall|p: int|
        prefer_post_mortem && 0 <= p < s.len() && is_post_mortem(#[trigger] s[p]) && (forall|
            k: int,
        |
            p < k < s.len() ==> !is_post_mortem(#[trigger] s[k])) && !is_stale(s, p) implies meant(
        s,
        prefer_post_mortem,
        include_ambient,
    ) == Ok::<int, ResolveError>(p) by {
        assert(pm(s[p]));
        let i = newest(s, n, pm)->0;
        if p < i {
            assert(pm(s[i]));
        } else if i < p {
            assert(!pm(s[p]));
        }
    }
    if exists|k: int| 0 <= k < s.len() && is_scoped(#[trigger] s[k]) {
        let k = choose|k: int| 0 <= k < s.len() && is_scoped(#[trigger] s[k]);
        assert(sc(s[k]));
        let i = newest(s, n, sc)->0;
        assert forall|m: int| i < m < s.len() implies !is_scoped(#[trigger] s[m]) by {
            assert(!sc(s[m]));
        }
    } else {
        if let Some(i) = newest(s, n, sc) {
            assert(sc(s[i]));
        }
    }
    if let Some(i) = newest(s, n, pm) {
        assert forall|m: int| i < m < s.len() implies !is_post_mortem(#[trigger] s[m]) by {
            assert(!pm(s[m]));
        }
    }
}

/// A session saved after a crash is stale exactly where the newest recorded command that was
/// not itself saved after a crash started later.
pub proof fn later_commands_make_a_crash_stale(s: Seq<SessionEntry>, p: int, i: int)
    requires
        0 <= p < s.len(),
        0 <= i < s.len(),
        is_scoped(s[i]) && !is_post_mortem(s[i]),
        forall|k: int|
            i < k < s.len() ==> !is_scoped(#[trigger] s[k]) || is_post_mortem(s[k]),
        s[p].meta is Some,
    ensures
        is_stale(s, p) <==> text_before(
            s[p].meta->0.started_rfc3339@,
            s[i].meta->0.started_rfc3339@,
        ),
{
    newest_is_last(s, s.len() as int, ordinary());
    assert(ordinary()(s[i]));
    let n = newest(s, s.len() as int, ordinary())->0;
    if i < n {
        assert(ordinary()(s[n]));
    } else if n < i {
        assert(!ordinary()(s[i]));
    }
}

/// Without a recorded command no session is stale.
pub proof fn nothing_is_stale_without_commands(s: Seq<SessionEntry>, p: int)
    requires
        forall|k: int| 0 <= k < s.len() ==> !is_scoped(#[trigger] s[k]) || is_post_mortem(s[k]),
    ensures
        !is_stale(s, p),
{
    newest_is_last(s, s.len() as int, ordinary());
    if let Some(n) = newest(s, s.len() as int, ordinary()) {
        assert(ordinary()(s[n]));
    }
}

/// A name leads to the newest session that goes by it, and to none where none does.
pub proof fn names_lead_to_the_newest(s: Seq<SessionEntry>, r: Seq<char>)
    ensures
        match named(s, r) {
            Ok(i) => 0 <= i < s.len() && goes_by(s[i], r) && forall|k: int|
                i < k < s.len() ==> !goes_by(#[trigger] s[k], r),
            Err(e) => e == ResolveError::Unknown && forall|k: int|
                0 <= k < s.len() ==> !goes_by(#[trigger] s[k], r),
        },
{
    let fit = |e: SessionEntry| goes_by(e, r);
    newest_is_last(s, s.len() as int, fit);
    match newest(s, s.len() as int, fit) {
        Some(i) => {
            assert forall|k: int| i < k < s.len() implies !goes_by(#[trigger] s[k], r) by {
                assert(!fit(s[k]));
            }
        },
        None => {
            assert forall|k: int| 0 <= k < s.len() implies !goes_by(#[trigger] s[k], r) by {
                assert(!fit(s[k]));
            }
        },
    }
}

/// A session goes by its directory, the end of its identifier, all of it and the name that
/// it was given, and by nothing else.
pub proof fn sessions_go_by_their_names(e: SessionEntry, r: Seq<char>)
    ensures
        goes_by(e, e.dir@),
        e.meta matches Some(m) ==> {
            &&& goes_by(e, trailing(m.session_id))
            &&& goes_by(e, hyphenated(m.session_id))
            &&& m.name matches Some(n) ==> goes_by(e, n@)
            &&& goes_by(e, r) && r != e.dir@ && r != trailing(m.session_id) && r != hyphenated(
                m.session_id,
            ) ==> (m.name matches Some(n) && r == n@)
        },
        e.meta is None && goes_by(e, r) ==> r == e.dir@,
{
}

/// A text that is no identifier leads to the first session whose directory ends in it.
pub proof fn suffixes_lead_to_the_first(
    parsed: Option<u128>,
    suffix: Seq<char>,
    s: Seq<SessionEntry>,
    i: int,
)
    ensures
        parsed matches Some(id) ==> leads_to(parsed, suffix, s) == Resolved::Id(Uuid(id)),
        parsed is None && 0 <= i < s.len() && ends_with(s[i].dir@, suffix) && (forall|k: int|
            0 <= k < i ==> !ends_with((#[trigger] s[k]).dir@, suffix)) ==> leads_to(
            parsed,
            suffix,
            s,
        ) == match s[i].meta {
            Some(m) => Resolved::Id(m.session_id),
            None => Resolved::Unreadable(i as usize),
        },
        parsed is None && (forall|k: int|
            0 <= k < s.len() ==> !ends_with((#[trigger] s[k]).dir@, suffix)) ==> leads_to(
            parsed,
            suffix,
            s,
        ) == Resolved::Unknown,
{
    if parsed is None {
        if 0 <= i < s.len() && ends_with(s[i].dir@, suffix) && (forall|k: int|
            0 <= k < i ==> !ends_with((#[trigger] s[k]).dir@, suffix)) {
            lemma_by_suffix(s, suffix, 0, i);
        }
        if forall|k: int| 0 <= k < s.len() ==> !ends_with((#[trigger] s[k]).dir@, suffix) {
            lemma_no_suffix(s, suffix, 0);
        }
    }
}

proof fn lemma_by_suffix(s: Seq<SessionEntry>, suffix: Seq<char>, k: int, i: int)
    requires
        0 <= k <= i < s.len(),
        ends_with(s[i].dir@, suffix),
        forall|j: int| k <= j < i ==> !ends_with((#[trigger] s[j]).dir@, suffix),
    ensures
        by_suffix(s, suffix, k) == by_suffix(s, suffix, i),
    decreases i - k,
{
    if k < i {
        assert(!ends_with(s[k].dir@, suffix));
        lemma_by_suffix(s, suffix, k + 1, i);
    }
}

proof fn lemma_no_suffix(s: Seq<SessionEntry>, suffix: Seq<char>, k: int)
    requires
        0 <= k <= s.len(),
        forall|j: int| k <= j < s.len() ==> !ends_with((#[trigger] s[j]).dir@, suffix),
    ensures
        by_suffix(s, suffix, k) == Resolved::Unknown,
    decreases s.len() - k,
{
    if k < s.len() {
        assert(!ends_with(s[k].dir@, suffix));
        lemma_no_suffix(s, suffix, k + 1);
    }
}

/// A gap in a stream is told exactly where the number of an event is not the next one of
/// its session: it reaches from the next one to the one that came. The first event of a
/// session and one that is no news tell none. The largest number of each session is
/// remembered, and an event touches no other session.
pub proof fn gaps_are_missing_numbers(last: Map<u128, u64>, e: Event, other: u128)
    ensures
        ({
            let id = e.session_id.0;
            let known = last.contains_key(id);
            &&& !known ==> gap_before(last, e) is None
            &&& known && e.seq <= last[id] + 1 ==> gap_before(last, e) is None
            &&& known && e.seq > last[id] + 1 ==> gap_before(last, e) == Some(
                Gap { session_id: e.session_id, expected: (last[id] + 1) as u64, got: e.seq },
            )
            &&& remembered(last, e).contains_key(id)
            &&& remembered(last, e)[id] == if known && last[id] > e.seq {
                last[id]
            } else {
                e.seq
            }
            &&& other != id ==> (remembered(last, e).contains_key(other) <==> last.contains_key(
                other,
            )) && (last.contains_key(other) ==> remembered(last, e)[other] == last[other])
        }),
{
}

/// A recording goes from watching the command over reading the hook, where there is one, to
/// waiting for the command. When that ends, the daemon first gets time to read what is
/// left, the hook is let go before the command, and the end comes last.
pub proof fn recordings_go_in_order(hook: bool, code: Option<i32>)
    ensures
        steps_after(Stage::Attaching, Outcome::Acked, true) == seq![Step::AttachHook],
        steps_after(Stage::Attaching, Outcome::Acked, false) == seq![Step::Wait],
        steps_after(Stage::Hooking, Outcome::Acked, hook) == seq![Step::Wait],
        ({
            let steps = steps_after(Stage::Running, Outcome::Exited(code), hook);
            let c = if code is Some {
                code->0
            } else {
                -1i32
            };
            &&& steps[0] == Step::Drain
            &&& hook ==> steps.len() == 5 && steps[1] == Step::DetachHook && steps[2]
                == Step::DetachScoped(c) && steps[3] == Step::RemoveRing && steps[4]
                == Step::Return(c)
            &&& !hook ==> steps.len() == 3 && steps[1] == Step::DetachScoped(c) && steps[2]
                == Step::Return(c)
        }),
        steps_after(Stage::Attaching, Outcome::Refused, hook).last() == Step::FailScoped,
        steps_after(Stage::Hooking, Outcome::Refused, hook).last() == Step::FailHook,
        steps_after(Stage::Hooking, Outcome::Refused, hook).contains(Step::DetachScoped(-1i32)),
{
    assert(steps_after(Stage::Hooking, Outcome::Refused, hook)[1] == Step::DetachScoped(-1i32));
}

/// The hook is used exactly where there is one, the user did not decline it and the binary
/// can take it; what the user declined is told before what the binary cannot take.
pub proof fn hooks_are_used_where_they_can_be(
    no_hook: bool,
    hardened: bool,
    arm64e_only: bool,
    dylib: Option<Seq<char>>,
    d: Seq<char>,
)
    ensures
        ({
            let p = planned(no_hook, hardened, arm64e_only, dylib);
            &&& p == PlanView::Hook(d) <==> !no_hook && !hardened && !arm64e_only && dylib == Some(d)
            &&& p is Declined <==> no_hook
            &&& p is NoDylib <==> !no_hook && !hardened && !arm64e_only && dylib is None
            &&& p is Hardened ==> hardened
            &&& p is Arm64eOnly ==> arm64e_only && !hardened
        }),
{
}

/// A daemon that starts is looked at until it serves, exits or takes too long, and no
/// longer.
pub proof fn starts_are_awaited(expired: bool, serving: bool, exited: bool)
    ensures
        ({
            let p = start_poll(expired, serving, exited);
            &&& p == StartPoll::TimedOut <==> expired
            &&& p == StartPoll::Serving <==> serving && !expired
            &&& p == StartPoll::Again <==> !expired && !serving && !exited
        }),
{
}

/// A daemon that runs is left alone. Else an agent that launchd has loaded is kicked, one
/// that it has not is handed to it, and without an agent the daemon is started detached.
pub proof fn starts_go_by_the_agent(pid: Option<u32>, live: u32)
    ensures
        forall|s: Supervision| #[trigger]
            first_step(Some(live), s) == StartStep::AlreadyRunning(live),
        first_step(None, Supervision::Unmanaged) == StartStep::Launch(StartAction::SpawnDetached),
        first_step(None, Supervision::LaunchAgent { loaded: true, pid }) == StartStep::Launch(
            StartAction::Kickstart,
        ),
        first_step(None, Supervision::LaunchAgent { loaded: false, pid }) == StartStep::Launch(
            StartAction::Bootstrap,
        ),
{
}

/// A running daemon is a stray exactly where the loaded agent has another process or none.
pub proof fn strays_are_not_the_agents(s: Supervision, live: u32, pid: Option<u32>)
    ensures
        stray(s, None) is None,
        stray(Supervision::Unmanaged, Some(live)) is None,
        stray(Supervision::LaunchAgent { loaded: false, pid }, Some(live)) is None,
        stray(Supervision::LaunchAgent { loaded: true, pid }, Some(live)) == if pid == Some(live) {
            None
        } else {
            Some(live)
        },
{
}

/// The checks that failed are counted.
pub proof fn failed_checks_are_counted(s: Seq<CheckView>, c: CheckView)
    ensures
        failed_count(Seq::empty()) == 0,
        failed_count(s.push(c)) == failed_count(s) + if c.status == Status::Failed {
            1int
        } else {
            0
        },
        failed_count(s) <= s.len(),
    decreases s.len(),
{
    assert(s.push(c).drop_last() =~= s);
    if s.len() > 0 {
        failed_checks_are_counted(s.drop_last(), s.last());
    }
}

/// What is compared is shown with the sign of its change, and so is its percentage, which
/// is none of nothing.
pub proof fn changes_are_shown_with_their_sign(name: Seq<char>, place: Seq<char>, a: u64, b: u64)
    ensures
        ({
            let d = delta_of(name, place, a, b);
            &&& b > a ==> sign_of(d.delta) == "+"@
            &&& b < a ==> sign_of(d.delta) == "-"@
            &&& b == a ==> sign_of(d.delta) == ""@
            &&& a == 0 ==> pct_note(d.pct) == " (n/a)"@
            &&& 0 < a < HIGH && b < HIGH ==> pct_note(d.pct) == " ("@ + (if b < a {
                "-"@
            } else {
                "+"@
            }) + crate::double::fixed(
                times(
                    ratio(
                        if b < a {
                            (a - b) as nat
                        } else {
                            (b - a) as nat
                        },
                        a as nat,
                    ),
                    of_int(100),
                ),
                1,
            ) + "%)"@
        }),
{
}

/// The one finding on all evals tells their number, how many were synchronous and how many
/// not, their median, their ninety-fifth percentile and the longest, in milliseconds.
pub proof fn eval_timing_is_summed_up(recs: Seq<Rec>)
    requires
        recs.len() > 0,
    ensures
        ({
            let sorted = ordered(recs, by_duration());
            let asynchronous = async_count(recs) as int;
            summary(recs).title == "mx.eval timing: "@ + dec(recs.len() as int) + " calls ("@ + dec(
                recs.len() - asynchronous,
            ) + " sync, "@ + dec(asynchronous) + " async) — p50 "@ + dec(
                percentile(sorted, 1, 2) as int / 1_000_000,
            ) + "ms, p95 "@ + dec(percentile(sorted, 19, 20) as int / 1_000_000) + "ms, max "@
                + dec(sorted[sorted.len() - 1].duration_ns as int / 1_000_000) + "ms"@
        }),
        async_count(recs) <= recs.len(),
{
    crate::sort::ordered_is_permutation(recs, by_duration());
    lemma_async(recs);
}

proof fn lemma_async(recs: Seq<Rec>)
    ensures
        async_count(recs) <= recs.len(),
    decreases recs.len(),
{
    if recs.len() > 0 {
        lemma_async(recs.drop_last());
    }
}

/// Asynchronous evals are counted one by one.
pub proof fn async_evals_are_counted(recs: Seq<Rec>, r: Rec)
    ensures
        async_count(Seq::empty()) == 0,
        async_count(recs.push(r)) == async_count(recs) + if r.was_async {
            1int
        } else {
            0
        },
{
    assert(recs.push(r).drop_last() =~= recs);
}

/// What is told of the allocator is the largest of each of its polls, and the last of its
/// cache.
pub proof fn allocator_peaks_are_maxima(events: Seq<Event>, i: int)
    requires
        0 <= i < events.len(),
        events[i].payload is MlxMemoryPoll,
    ensures
        allocator_of(events) is Some,
        ({
            let m = allocator_of(events)->0;
            let e = events[i].payload;
            &&& e->MlxMemoryPoll_active_bytes <= m.peak_active_bytes
            &&& e->MlxMemoryPoll_peak_bytes <= m.peak_reported_bytes
            &&& e->MlxMemoryPoll_cache_bytes <= m.peak_cache_bytes
            &&& (forall|j: int|
                i < j < events.len() ==> !((#[trigger] events[j]).payload is MlxMemoryPoll))
                ==> m.end_cache_bytes == e->MlxMemoryPoll_cache_bytes
        }),
    decreases events.len(),
{
    let rest = events.drop_last();
    let last = events.len() - 1;
    if i < last {
        assert(rest[i] == events[i]);
        allocator_peaks_are_maxima(rest, i);
        if forall|j: int| i < j < events.len() ==> !((#[trigger] events[j]).payload is MlxMemoryPoll) {
            assert(!(events[last].payload is MlxMemoryPoll));
            assert forall|j: int| i < j < rest.len() implies !((
            #[trigger] rest[j]).payload is MlxMemoryPoll) by {
                assert(rest[j] == events[j]);
            }
        }
    }
}

/// Every peak that is told of the allocator was polled.
pub proof fn allocator_peaks_are_polled(events: Seq<Event>)
    requires
        allocator_of(events) is Some,
    ensures
        ({
            let m = allocator_of(events)->0;
            &&& exists|i: int|
                0 <= i < events.len() && (#[trigger] events[i]).payload is MlxMemoryPoll
                    && events[i].payload->MlxMemoryPoll_active_bytes == m.peak_active_bytes
            &&& exists|i: int|
                0 <= i < events.len() && (#[trigger] events[i]).payload is MlxMemoryPoll
                    && events[i].payload->MlxMemoryPoll_cache_bytes == m.peak_cache_bytes
            &&& exists|i: int|
                0 <= i < events.len() && (#[trigger] events[i]).payload is MlxMemoryPoll
                    && events[i].payload->MlxMemoryPoll_peak_bytes == m.peak_reported_bytes
        }),
    decreases events.len(),
{
    let rest = events.drop_last();
    let last = events.len() - 1;
    let m = allocator_of(events)->0;
    if allocator_of(rest) is Some {
        allocator_peaks_are_polled(rest);
        let p = allocator_of(rest)->0;
        let a = choose|i: int|
            0 <= i < rest.len() && (#[trigger] rest[i]).payload is MlxMemoryPoll
                && rest[i].payload->MlxMemoryPoll_active_bytes == p.peak_active_bytes;
        let b = choose|i: int|
            0 <= i < rest.len() && (#[trigger] rest[i]).payload is MlxMemoryPoll
                && rest[i].payload->MlxMemoryPoll_cache_bytes == p.peak_cache_bytes;
        let c = choose|i: int|
            0 <= i < rest.len() && (#[trigger] rest[i]).payload is MlxMemoryPoll
                && rest[i].payload->MlxMemoryPoll_peak_bytes == p.peak_reported_bytes;
        assert(events[a] == rest[a] && events[b] == rest[b] && events[c] == rest[c]);
        if events[last].payload is MlxMemoryPoll {
            let e = events[last].payload;
            if m.peak_active_bytes != p.peak_active_bytes {
                assert(events[last].payload->MlxMemoryPoll_active_bytes == m.peak_active_bytes);
            }
            if m.peak_cache_bytes != p.peak_cache_bytes {
                assert(events[last].payload->MlxMemoryPoll_cache_bytes == m.peak_cache_bytes);
            }
            if m.peak_reported_bytes != p.peak_reported_bytes {
                assert(events[last].payload->MlxMemoryPoll_peak_bytes == m.peak_reported_bytes);
            }
        }
    } else {
        assert(events[last].payload is MlxMemoryPoll);
    }
}

} // verus!
