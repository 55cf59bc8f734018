//! What is largest among the events that the rules look at.

use crate::double::{less, of_int, ratio, Bin};
use crate::event::{Event, Payload};
use crate::finding::{Category, Severity};
use crate::footprint::{
    by_peak, footprint_rows, footprints_of, lemma_pid_row, pid_row, FootprintView,
};
use crate::rounding::{comparing_carries_over, less_is_strict};
use crate::rules::metal_error::{failure_code, first_failure};
use crate::rules::mlx_cache_growth::{cache_findings, cache_peaks};
use crate::rules::queue_depth::depth_findings;
use crate::rules::queue_pressure::{peaks, pressure_findings};
use crate::rules::residency_pressure::{residency_findings, worst_sample};
use crate::sort::{lemma_ordered_contains, ordered_is_in_order};
use vstd::prelude::*;

verus! {

/// The event completes a command buffer with an error.
pub open spec fn fails(e: Event) -> bool {
    match e.payload {
        Payload::MetalCbCompleted { error_code: Some(c), .. } => c != 0,
        _ => false,
    }
}

/// The failure that rules look at is the first completion with an error.
pub proof fn first_failure_is_first(events: Seq<Event>)
    ensures
        match first_failure(events, 0) {
            Some(i) => 0 <= i < events.len() && fails(events[i]) && forall|j: int|
                0 <= j < i ==> !fails(#[trigger] events[j]),
            None => forall|j: int| 0 <= j < events.len() ==> !fails(#[trigger] events[j]),
        },
{
    lemma_first_failure(events, 0);
}

proof fn lemma_first_failure(events: Seq<Event>, k: int)
    requires
        0 <= k <= events.len(),
        forall|j: int| 0 <= j < k ==> !fails(#[trigger] events[j]),
    ensures
        match first_failure(events, k) {
            Some(i) => 0 <= i < events.len() && fails(events[i]) && forall|j: int|
                0 <= j < i ==> !fails(#[trigger] events[j]),
            None => forall|j: int| 0 <= j < events.len() ==> !fails(#[trigger] events[j]),
        },
    decreases events.len() - k,
{
    if k < events.len() {
        assert(fails(events[k]) == (failure_code(events[k]) is Some));
        if failure_code(events[k]) is None {
            lemma_first_failure(events, k + 1);
        }
    }
}

/// The depth of the queue that an event commits to.
pub open spec fn depth_of(e: Event) -> u32 {
    match e.payload {
        Payload::MetalCbCommitted { queue_depth, .. } => queue_depth,
        _ => 0,
    }
}

/// The time in flight of the command buffer that an event completes.
pub open spec fn flight_of(e: Event) -> u64 {
    match e.payload {
        Payload::MetalCbCompleted { in_flight_ns, .. } => in_flight_ns,
        _ => 0,
    }
}

/// Queue pressure goes by the deepest queue and the longest time in flight of the
/// session, each told by the first event that reaches it.
pub proof fn queue_peaks_are_maxima(events: Seq<Event>)
    ensures
        forall|i: int|
            0 <= i < events.len() ==> depth_of(#[trigger] events[i]) <= peaks(events).depth,
        forall|i: int|
            0 <= i < events.len() ==> flight_of(#[trigger] events[i]) <= peaks(events).in_flight_ns,
        peaks(events).depth > 0 ==> exists|i: int|
            0 <= i < events.len() && depth_of(#[trigger] events[i]) == peaks(events).depth
                && events[i].seq == peaks(events).depth_seq && events[i].ts_mono_ns == peaks(
                events,
            ).depth_ts,
        peaks(events).in_flight_ns > 0 ==> exists|i: int|
            0 <= i < events.len() && flight_of(#[trigger] events[i]) == peaks(events).in_flight_ns
                && events[i].seq == peaks(events).in_flight_seq
                && events[i].payload->MetalCbCompleted_cb_id == peaks(events).in_flight_cb,
    decreases events.len(),
{
    if events.len() > 0 {
        let rest = events.drop_last();
        let (p, q) = (peaks(rest), peaks(events));
        let last = events.len() - 1;
        queue_peaks_are_maxima(rest);
        assert forall|i: int| 0 <= i < events.len() implies depth_of(#[trigger] events[i])
            <= q.depth by {
            if i < last {
                assert(depth_of(rest[i]) <= p.depth);
            }
        }
        assert forall|i: int| 0 <= i < events.len() implies flight_of(#[trigger] events[i])
            <= q.in_flight_ns by {
            if i < last {
                assert(flight_of(rest[i]) <= p.in_flight_ns);
            }
        }
        if q.depth > 0 {
            if depth_of(events[last]) > p.depth {
                assert(depth_of(events[last]) == q.depth);
            } else {
                let i = choose|i: int|
                    0 <= i < rest.len() && depth_of(#[trigger] rest[i]) == p.depth && rest[i].seq
                        == p.depth_seq && rest[i].ts_mono_ns == p.depth_ts;
                assert(depth_of(events[i]) == q.depth);
            }
        }
        if q.in_flight_ns > 0 {
            if flight_of(events[last]) > p.in_flight_ns {
                assert(flight_of(events[last]) == q.in_flight_ns);
            } else {
                let i = choose|i: int|
                    0 <= i < rest.len() && flight_of(#[trigger] rest[i]) == p.in_flight_ns
                        && rest[i].seq == p.in_flight_seq
                        && rest[i].payload->MetalCbCompleted_cb_id == p.in_flight_cb;
                assert(flight_of(events[i]) == q.in_flight_ns);
            }
        }
    }
}

/// Queue pressure is told, as one warning, exactly where nothing failed and some queue
/// was at least 32 deep or some command buffer in flight for at least a second.
pub proof fn queue_pressure_is_told_from_the_thresholds_on(events: Seq<Event>)
    ensures
        ({
            let found = pressure_findings(events);
            let pressed = exists|i: int|
                0 <= i < events.len() && (depth_of(#[trigger] events[i]) >= 32 || flight_of(
                    events[i],
                ) >= 1_000_000_000);
            let failed = exists|i: int| 0 <= i < events.len() && fails(#[trigger] events[i]);
            &&& pressed && !failed ==> found.len() == 1 && found[0].severity == Severity::Warning
                && found[0].category == Category::ContributingFactor
            &&& !pressed || failed ==> found.len() == 0
        }),
{
    queue_peaks_are_maxima(events);
    first_failure_is_first(events);
    let p = peaks(events);
    if p.depth >= 32 {
        let i = choose|i: int|
            0 <= i < events.len() && depth_of(#[trigger] events[i]) == p.depth && events[i].seq
                == p.depth_seq && events[i].ts_mono_ns == p.depth_ts;
        assert(depth_of(events[i]) >= 32);
    }
    if p.in_flight_ns >= 1_000_000_000 {
        let i = choose|i: int|
            0 <= i < events.len() && flight_of(#[trigger] events[i]) == p.in_flight_ns
                && events[i].seq == p.in_flight_seq
                && events[i].payload->MetalCbCompleted_cb_id == p.in_flight_cb;
        assert(flight_of(events[i]) >= 1_000_000_000);
    }
}

/// A deep queue before a failure is told, as one warning with the failure as its
/// evidence, exactly where something failed and some command buffer was committed to a
/// queue in the five seconds before.
pub proof fn queue_depth_is_told_before_a_failure(events: Seq<Event>, i: int)
    requires
        0 <= i < events.len(),
        fails(events[i]),
        forall|j: int| 0 <= j < i ==> !fails(#[trigger] events[j]),
    ensures
        ({
            let found = depth_findings(events);
            let crash = events[i].ts_mono_ns;
            let queued = exists|j: int|
                0 <= j < events.len() && depth_of(#[trigger] events[j]) > 0
                    && events[j].ts_mono_ns <= crash && crash <= events[j].ts_mono_ns
                    + 5_000_000_000;
            &&& queued ==> found.len() == 1 && found[0].evidence.len() == 1
                && found[0].evidence[0].seq == events[i].seq
                && found[0].evidence[0].ts_mono_ns == crash && found[0].severity
                == Severity::Warning
            &&& !queued ==> found.len() == 0
        }),
{
    first_failure_is_first(events);
    let k = first_failure(events, 0)->0;
    if k < i {
        assert(!fails(events[k]));
    } else if i < k {
        assert(!fails(events[i]));
    }
    let crash = events[i].ts_mono_ns;
    crate::rules::queue_depth::deepest_is_the_maximum(events, crash);
    let d = crate::rules::queue_depth::deepest(events, crash);
    if exists|j: int|
        0 <= j < events.len() && depth_of(#[trigger] events[j]) > 0 && events[j].ts_mono_ns <= crash
            && crash <= events[j].ts_mono_ns + 5_000_000_000 {
        let j = choose|j: int|
            0 <= j < events.len() && depth_of(#[trigger] events[j]) > 0 && events[j].ts_mono_ns
                <= crash && crash <= events[j].ts_mono_ns + 5_000_000_000;
        assert(crate::rules::queue_depth::committed_before(events[j], crash));
    }
    if d.depth > 0 {
        let j = choose|j: int|
            #![trigger events[j]]
            {
                &&& 0 <= j < events.len()
                &&& crate::rules::queue_depth::committed_before(events[j], crash)
                &&& events[j].payload->MetalCbCommitted_queue_depth == d.depth
                &&& events[j].payload->MetalCbCommitted_cb_id == d.cb_id
                &&& events[j].ts_mono_ns == d.at
                &&& forall|m: int|
                    0 <= m < j && #[trigger] crate::rules::queue_depth::committed_before(
                        events[m],
                        crash,
                    ) ==> events[m].payload->MetalCbCommitted_queue_depth < d.depth
            };
        assert(depth_of(events[j]) > 0);
    }
}

/// The share of its budget that a residency sample shows, where it is at or over nine
/// tenths.
pub open spec fn pressing_share(e: Event) -> Option<Bin> {
    match e.payload {
        Payload::MetalResidencySample { resident_bytes, recommended_max_bytes, .. } => if
            recommended_max_bytes > 0 && !less(
            ratio(resident_bytes as nat, recommended_max_bytes as nat),
            ratio(9, 10),
        ) {
            Some(ratio(resident_bytes as nat, recommended_max_bytes as nat))
        } else {
            None
        },
        _ => None,
    }
}

/// The residency that is told is a sample at or over nine tenths of its budget, and is
/// told where there is one. It is critical exactly where it is over the budget.
pub proof fn residency_is_told_from_the_threshold_on(events: Seq<Event>)
    ensures
        ({
            let found = residency_findings(events);
            let pressed = exists|i: int|
                0 <= i < events.len() && pressing_share(#[trigger] events[i]) is Some;
            &&& !pressed ==> worst_sample(events) is None && found.len() == 0
            &&& pressed ==> worst_sample(events) is Some && found.len() == 1 && exists|i: int|
                {
                    let w = worst_sample(events)->0;
                    &&& 0 <= i < events.len()
                    &&& pressing_share(#[trigger] events[i]) == Some(w.share())
                    &&& events[i].payload->MetalResidencySample_resident_bytes == w.resident
                    &&& events[i].payload->MetalResidencySample_recommended_max_bytes == w.budget
                    &&& found[0].evidence.len() == 1
                    &&& found[0].evidence[0].seq == events[i].seq
                    &&& found[0].evidence[0].ts_mono_ns == events[i].ts_mono_ns
                    &&& found[0].severity == if less(of_int(1), w.share()) {
                        Severity::Critical
                    } else {
                        Severity::Warning
                    }
                }
        }),
{
    lemma_worst_sample(events);
    if worst_sample(events) is Some {
        let w = worst_sample(events)->0;
        let i = choose|i: int|
            {
                &&& 0 <= i < events.len()
                &&& pressing_share(#[trigger] events[i]) == Some(w.share())
                &&& events[i].seq == w.seq
                &&& events[i].ts_mono_ns == w.ts
                &&& events[i].payload->MetalResidencySample_resident_bytes == w.resident
                &&& events[i].payload->MetalResidencySample_recommended_max_bytes == w.budget
            };
        assert(pressing_share(events[i]) is Some);
        assert(residency_findings(events)[0].evidence[0].seq == events[i].seq);
    }
}

proof fn lemma_worst_sample(events: Seq<Event>)
    ensures
        match worst_sample(events) {
            Some(w) => exists|i: int|
                {
                    &&& 0 <= i < events.len()
                    &&& pressing_share(#[trigger] events[i]) == Some(w.share())
                    &&& events[i].seq == w.seq
                    &&& events[i].ts_mono_ns == w.ts
                    &&& events[i].payload->MetalResidencySample_resident_bytes == w.resident
                    &&& events[i].payload->MetalResidencySample_recommended_max_bytes == w.budget
                },
            None => forall|i: int|
                0 <= i < events.len() ==> pressing_share(#[trigger] events[i]) is None,
        },
    decreases events.len(),
{
    if events.len() > 0 {
        let rest = events.drop_last();
        let last = events.len() - 1;
        lemma_worst_sample(rest);
        match worst_sample(events) {
            Some(w) => {
                if worst_sample(rest) == worst_sample(events) {
                    let i = choose|i: int|
                        {
                            &&& 0 <= i < rest.len()
                            &&& pressing_share(#[trigger] rest[i]) == Some(w.share())
                            &&& rest[i].seq == w.seq
                            &&& rest[i].ts_mono_ns == w.ts
                            &&& rest[i].payload->MetalResidencySample_resident_bytes == w.resident
                            &&& rest[i].payload->MetalResidencySample_recommended_max_bytes
                                == w.budget
                        };
                    assert(pressing_share(events[i]) == Some(w.share()));
                } else {
                    assert(pressing_share(events[last]) == Some(w.share()));
                }
            },
            None => {
                assert forall|i: int| 0 <= i < events.len() implies pressing_share(
                    #[trigger] events[i],
                ) is None by {
                    if i < last {
                        assert(pressing_share(rest[i]) is None);
                    }
                }
            },
        }
    }
}

/// No sample at or over the threshold has a larger share of its budget than the one that is
/// told.
pub proof fn worst_residency_is_worst(events: Seq<Event>, i: int)
    requires
        0 <= i < events.len(),
        pressing_share(events[i]) is Some,
    ensures
        worst_sample(events) is Some,
        !less(worst_sample(events)->0.share(), pressing_share(events[i])->0),
    decreases events.len(),
{
    let rest = events.drop_last();
    let last = events.len() - 1;
    let x = pressing_share(events[i])->0;
    if i < last {
        assert(rest[i] == events[i]);
        worst_residency_is_worst(rest, i);
        let (v, w) = (worst_sample(rest)->0.share(), worst_sample(events)->0.share());
        less_is_strict(v, w);
        less_is_strict(v, v);
        comparing_carries_over(w, v, x);
        comparing_carries_over(v, w, x);
    } else {
        less_is_strict(x, x);
    }
}

/// The allocator's cache at an event, where it polls it.
pub open spec fn cache_at(e: Event) -> u64 {
    match e.payload {
        Payload::MlxMemoryPoll { cache_bytes, .. } => cache_bytes,
        _ => 0,
    }
}

/// The allocator's active memory at an event, where it polls it.
pub open spec fn active_at(e: Event) -> u64 {
    match e.payload {
        Payload::MlxMemoryPoll { active_bytes, .. } => active_bytes,
        _ => 0,
    }
}

/// The cache and the active memory are compared at their peaks over the session, and the
/// first poll of the largest cache is the evidence.
pub proof fn cache_peaks_are_maxima(events: Seq<Event>)
    ensures
        forall|i: int| 0 <= i < events.len() ==> cache_at(#[trigger] events[i]) <= cache_peaks(
            events,
        ).cache,
        forall|i: int| 0 <= i < events.len() ==> active_at(#[trigger] events[i]) <= cache_peaks(
            events,
        ).active,
        cache_peaks(events).active > 0 ==> exists|i: int|
            0 <= i < events.len() && active_at(#[trigger] events[i]) == cache_peaks(events).active,
        cache_peaks(events).cache == 0 <==> cache_peaks(events).at is None,
        cache_peaks(events).cache > 0 ==> exists|i: int|
            0 <= i < events.len() && cache_at(#[trigger] events[i]) == cache_peaks(events).cache
                && cache_peaks(events).at == Some((events[i].seq, events[i].ts_mono_ns)),
    decreases events.len(),
{
    if events.len() > 0 {
        let rest = events.drop_last();
        let (p, q) = (cache_peaks(rest), cache_peaks(events));
        let last = events.len() - 1;
        cache_peaks_are_maxima(rest);
        assert forall|i: int| 0 <= i < events.len() implies cache_at(#[trigger] events[i])
            <= q.cache by {
            if i < last {
                assert(cache_at(rest[i]) <= p.cache);
            }
        }
        assert forall|i: int| 0 <= i < events.len() implies active_at(#[trigger] events[i])
            <= q.active by {
            if i < last {
                assert(active_at(rest[i]) <= p.active);
            }
        }
        if q.active > 0 {
            if active_at(events[last]) > p.active {
                assert(active_at(events[last]) == q.active);
            } else {
                let i = choose|i: int|
                    0 <= i < rest.len() && active_at(#[trigger] rest[i]) == p.active;
                assert(active_at(events[i]) == q.active);
            }
        }
        if q.cache > 0 {
            if cache_at(events[last]) > p.cache {
                assert(cache_at(events[last]) == q.cache);
            } else {
                let i = choose|i: int|
                    0 <= i < rest.len() && cache_at(#[trigger] rest[i]) == p.cache && p.at == Some(
                        (rest[i].seq, rest[i].ts_mono_ns),
                    );
                assert(cache_at(events[i]) == q.cache);
            }
        }
    }
}

/// A large cache is told exactly from a billion bytes and five quarters of the active
/// memory on.
pub proof fn cache_growth_is_told_from_the_thresholds_on(events: Seq<Event>)
    ensures
        ({
            let p = cache_peaks(events);
            let found = cache_findings(events);
            if p.cache >= 1_000_000_000 && p.active > 0 && !less(
                ratio(p.cache as nat, p.active as nat),
                ratio(5, 4),
            ) {
                found.len() == 1 && found[0].severity == Severity::Warning
                    && found[0].evidence.len() == 1 && Some(
                    (found[0].evidence[0].seq, found[0].evidence[0].ts_mono_ns),
                ) == p.at
            } else {
                found.len() == 0
            }
        }),
{
    cache_peaks_are_maxima(events);
}

/// The event samples the footprint of the process `pid`.
pub open spec fn prints(e: Event, pid: u32) -> bool {
    e.payload is ProcFootprint && e.payload->ProcFootprint_pid == pid
}

/// How many of the first `n` events sample the footprint of the process `pid`.
pub open spec fn print_count(events: Seq<Event>, n: int, pid: u32) -> nat
    decreases n,
{
    if n <= 0 {
        0
    } else {
        print_count(events, n - 1, pid) + if prints(events[n - 1], pid) {
            1nat
        } else {
            0
        }
    }
}

/// `row` tells what the first `n` events sample of its process: the largest footprint and
/// the largest lifetime maximum, the name and the role at the first sample, and the
/// number of samples.
pub open spec fn tells_process(events: Seq<Event>, n: int, row: FootprintView) -> bool {
    &&& row.sample_count == print_count(events, n, row.pid)
    &&& row.sample_count > 0
    &&& forall|i: int|
        0 <= i < n && prints(#[trigger] events[i], row.pid) ==> {
            &&& events[i].payload->ProcFootprint_phys_footprint_bytes <= row.peak_bytes
            &&& events[i].payload->ProcFootprint_lifetime_max_phys_footprint_bytes
                <= row.lifetime_max_bytes
        }
    &&& exists|i: int|
        0 <= i < n && prints(#[trigger] events[i], row.pid)
            && events[i].payload->ProcFootprint_phys_footprint_bytes == row.peak_bytes
    &&& exists|i: int|
        0 <= i < n && prints(#[trigger] events[i], row.pid)
            && events[i].payload->ProcFootprint_lifetime_max_phys_footprint_bytes
            == row.lifetime_max_bytes
    &&& exists|i: int|
        {
            &&& 0 <= i < n && prints(#[trigger] events[i], row.pid)
            &&& events[i].payload->ProcFootprint_name@ == row.name
            &&& events[i].payload->ProcFootprint_is_traced_root == row.is_traced_root
            &&& print_count(events, i, row.pid) == 0
        }
}

proof fn lemma_tells_more(events: Seq<Event>, n: int, row: FootprintView)
    requires
        0 <= n < events.len(),
        tells_process(events, n, row),
        !prints(events[n], row.pid),
    ensures
        tells_process(events, n + 1, row),
{
    let a = choose|i: int|
        0 <= i < n && prints(#[trigger] events[i], row.pid)
            && events[i].payload->ProcFootprint_phys_footprint_bytes == row.peak_bytes;
    let b = choose|i: int|
        0 <= i < n && prints(#[trigger] events[i], row.pid)
            && events[i].payload->ProcFootprint_lifetime_max_phys_footprint_bytes
            == row.lifetime_max_bytes;
    let c = choose|i: int|
        {
            &&& 0 <= i < n && prints(#[trigger] events[i], row.pid)
            &&& events[i].payload->ProcFootprint_name@ == row.name
            &&& events[i].payload->ProcFootprint_is_traced_root == row.is_traced_root
            &&& print_count(events, i, row.pid) == 0
        };
    assert(prints(events[a], row.pid) && prints(events[b], row.pid) && prints(events[c], row.pid));
}

proof fn lemma_no_prints(events: Seq<Event>, n: int, pid: u32)
    requires
        0 <= n <= events.len(),
        forall|i: int| 0 <= i < n ==> !prints(#[trigger] events[i], pid),
    ensures
        print_count(events, n, pid) == 0,
    decreases n,
{
    if n > 0 {
        lemma_no_prints(events, n - 1, pid);
        assert(!prints(events[n - 1], pid));
    }
}

proof fn lemma_footprints(events: Seq<Event>, n: int)
    requires
        0 <= n <= events.len(),
    ensures
        forall|r: int|
            0 <= r < footprint_rows(events.take(n)).len() ==> tells_process(
                events,
                n,
                #[trigger] footprint_rows(events.take(n))[r],
            ),
        forall|i: int|
            0 <= i < n && (#[trigger] events[i]).payload is ProcFootprint ==> pid_row(
                footprint_rows(events.take(n)),
                events[i].payload->ProcFootprint_pid,
            ) is Some,
        forall|p: int, q: int|
            0 <= p < q < footprint_rows(events.take(n)).len() ==> (#[trigger] footprint_rows(
                events.take(n),
            )[p]).pid != (#[trigger] footprint_rows(events.take(n))[q]).pid,
    decreases n,
{
    if n > 0 {
        let m = n - 1;
        crate::event::lemma_prefix_step(events, m);
        lemma_footprints(events, m);
        let s = footprint_rows(events.take(m));
        let t = footprint_rows(events.take(n));
        let e = events[m];
        if e.payload is ProcFootprint {
            let pid = e.payload->ProcFootprint_pid;
            lemma_pid_row(s, pid);
            assert(prints(e, pid));
            match pid_row(s, pid) {
                Some(k) => {
                    let (old, row) = (s[k], t[k]);
                    assert(tells_process(events, m, old));
                    let a = choose|i: int|
                        0 <= i < m && prints(#[trigger] events[i], pid)
                            && events[i].payload->ProcFootprint_phys_footprint_bytes
                            == old.peak_bytes;
                    let b = choose|i: int|
                        0 <= i < m && prints(#[trigger] events[i], pid)
                            && events[i].payload->ProcFootprint_lifetime_max_phys_footprint_bytes
                            == old.lifetime_max_bytes;
                    let c = choose|i: int|
                        {
                            &&& 0 <= i < m && prints(#[trigger] events[i], pid)
                            &&& events[i].payload->ProcFootprint_name@ == old.name
                            &&& events[i].payload->ProcFootprint_is_traced_root
                                == old.is_traced_root
                            &&& print_count(events, i, pid) == 0
                        };
                    assert(prints(events[a], pid) && prints(events[b], pid) && prints(
                        events[c],
                        pid,
                    ) && prints(events[m], pid));
                    assert(tells_process(events, n, row));
                },
                None => {
                    let row = t[s.len() as int];
                    assert forall|i: int| 0 <= i < m implies !prints(#[trigger] events[i], pid) by {
                        if prints(events[i], pid) {
                            assert(events[i].payload is ProcFootprint);
                        }
                    }
                    lemma_no_prints(events, m, pid);
                    assert(prints(events[m], pid));
                    assert(tells_process(events, n, row));
                },
            }
            assert forall|r: int| 0 <= r < t.len() implies tells_process(
                events,
                n,
                #[trigger] t[r],
            ) by {
                if r < s.len() && s[r].pid != pid {
                    assert(t[r] == s[r]);
                    lemma_tells_more(events, m, s[r]);
                } else if r < s.len() {
                    let k = pid_row(s, pid)->0;
                    if r < k {
                        assert(s[r].pid != s[k].pid);
                    } else if k < r {
                        assert(s[k].pid != s[r].pid);
                    }
                }
            }
            assert forall|i: int| 0 <= i < n && (#[trigger] events[i]).payload is ProcFootprint
                implies pid_row(t, events[i].payload->ProcFootprint_pid) is Some by {
                let x = events[i].payload->ProcFootprint_pid;
                lemma_pid_row(t, x);
                if i < m {
                    lemma_pid_row(s, x);
                    let k = pid_row(s, x)->0;
                    assert(t[k].pid == x);
                } else {
                    match pid_row(s, pid) {
                        Some(k) => assert(t[k].pid == x),
                        None => assert(t[s.len() as int].pid == x),
                    }
                }
            }
            assert forall|p: int, q: int| 0 <= p < q < t.len() implies (#[trigger] t[p]).pid != (
            #[trigger] t[q]).pid by {
                if q < s.len() {
                    assert(s[p].pid != s[q].pid);
                    assert(t[p].pid == s[p].pid && t[q].pid == s[q].pid);
                } else {
                    assert(t[p] == s[p]);
                }
            }
        } else {
            assert(t == s);
            assert forall|r: int| 0 <= r < t.len() implies tells_process(
                events,
                n,
                #[trigger] t[r],
            ) by {
                lemma_tells_more(events, m, s[r]);
            }
        }
    }
}

/// The footprints of a session: one row for each process that was sampled, with its
/// peaks, the largest first.
pub proof fn footprints_tell_the_peaks(events: Seq<Event>)
    ensures
        forall|r: int|
            0 <= r < footprints_of(events).len() ==> tells_process(
                events,
                events.len() as int,
                #[trigger] footprints_of(events)[r],
            ),
        forall|i: int|
            0 <= i < events.len() && (#[trigger] events[i]).payload is ProcFootprint ==> exists|
                r: int,
            |
                0 <= r < footprints_of(events).len() && (#[trigger] footprints_of(events)[r]).pid
                    == events[i].payload->ProcFootprint_pid,
        forall|p: int, q: int|
            0 <= p < q < footprints_of(events).len() ==> (#[trigger] footprints_of(
                events,
            )[p]).peak_bytes >= (#[trigger] footprints_of(events)[q]).peak_bytes,
{
    let n = events.len() as int;
    assert(events.take(n) =~= events);
    lemma_footprints(events, n);
    let s = footprint_rows(events);
    let o = footprints_of(events);
    assert(crate::sort::strict_weak(by_peak()));
    ordered_is_in_order(s, by_peak());
    assert forall|p: int, q: int| 0 <= p < q < o.len() implies (#[trigger] o[p]).peak_bytes >= (
    #[trigger] o[q]).peak_bytes by {
        assert(!by_peak()(o[q], o[p]));
    }
    assert forall|r: int| 0 <= r < o.len() implies tells_process(events, n, #[trigger] o[r]) by {
        assert(o.contains(o[r]));
        lemma_ordered_contains(s, by_peak(), o[r]);
        let k = choose|k: int| 0 <= k < s.len() && s[k] == o[r];
        assert(tells_process(events, n, s[k]));
    }
    assert forall|i: int|
        0 <= i < events.len() && (#[trigger] events[i]).payload is ProcFootprint implies exists|
        r: int,
    |
        0 <= r < o.len() && (#[trigger] o[r]).pid == events[i].payload->ProcFootprint_pid by {
        let pid = events[i].payload->ProcFootprint_pid;
        lemma_pid_row(s, pid);
        let k = pid_row(s, pid)->0;
        assert(s.contains(s[k]));
        lemma_ordered_contains(s, by_peak(), s[k]);
        let r = choose|r: int| 0 <= r < o.len() && o[r] == s[k];
        assert(o[r].pid == pid);
    }
}

/// Of processes with one peak the smaller number stands first.
pub proof fn equal_footprints_are_by_process(events: Seq<Event>)
    ensures
        forall|p: int, q: int|
            0 <= p < q < footprints_of(events).len() && (#[trigger] footprints_of(
                events,
            )[p]).peak_bytes == (#[trigger] footprints_of(events)[q]).peak_bytes
                ==> footprints_of(events)[p].pid <= footprints_of(events)[q].pid,
{
    let s = footprint_rows(events);
    let o = footprints_of(events);
    assert(crate::sort::strict_weak(by_peak()));
    ordered_is_in_order(s, by_peak());
    assert forall|p: int, q: int|
        0 <= p < q < o.len() && (#[trigger] o[p]).peak_bytes == (
        #[trigger] o[q]).peak_bytes implies o[p].pid <= o[q].pid by {
        assert(!by_peak()(o[q], o[p]));
    }
}

} // verus!
