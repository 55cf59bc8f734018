//! What the rules count, told by the events that they count.

use crate::command_buffers::{cb_ns, cbs_of, sampled_of, CbView};
use crate::event::{lemma_prefix_step, Event, Payload, ProcEntry};
use crate::finding::{Category, Severity};
use crate::rules::duplicate_model_load::{duplicate, load_scan};
use crate::rules::hook_degradation::{corrupt_findings, corruption, disables, drops};
use crate::rules::lazy_eval_attribution::{gap_of, gap_scan, gaps_of, module_calls};
use crate::rules::maxima::fails;
use crate::rules::metal_error::failures;
use crate::rules::mlx_timing::{
    adjacent, by_duration, by_return, rec_scan, recs_of, returned_by, Rec,
};
use crate::rules::sidecar_absent::{absent_of, gpu_work, nothing_of};
use crate::rules::system_pressure::{
    flagged, lemma_sample_distinct, lemma_slot_of, names_distinct, nan, one_finding_per_process,
    sample_step, slot_of, slot_step, slots_of, under_threshold, SlotView,
};
use crate::select::{below, lemma_sum_push, sum};
use crate::sort::{lemma_ordered_contains, ordered, ordered_is_in_order, ordered_is_permutation};
use crate::text::contains;
use crate::windows::{eval_spans, evals_of, last_covering, EvalView};
use vstd::prelude::*;

verus! {

/// How many of the first `n` events `p` holds of.
pub open spec fn count_of(events: Seq<Event>, n: int, p: spec_fn(Event) -> bool) -> nat
    decreases n,
{
    if n <= 0 {
        0
    } else {
        count_of(events, n - 1, p) + if p(events[n - 1]) {
            1nat
        } else {
            0
        }
    }
}

proof fn lemma_count_grows(events: Seq<Event>, i: int, n: int, p: spec_fn(Event) -> bool)
    requires
        0 <= i < n,
        p(events[i]),
    ensures
        count_of(events, i, p) < count_of(events, n, p),
    decreases n,
{
    if n > i + 1 {
        lemma_count_grows(events, i, n - 1, p);
    }
}

proof fn lemma_count_same(a: Seq<Event>, b: Seq<Event>, m: int, p: spec_fn(Event) -> bool)
    requires
        0 <= m <= a.len(),
        m <= b.len(),
        forall|i: int| 0 <= i < m ==> a[i] == #[trigger] b[i],
    ensures
        count_of(a, m, p) == count_of(b, m, p),
    decreases m,
{
    if m > 0 {
        lemma_count_same(a, b, m - 1, p);
        assert(a[m - 1] == b[m - 1]);
    }
}

/// A failed completion.
pub open spec fn is_failure() -> spec_fn(Event) -> bool {
    |e: Event| fails(e)
}

/// Every completion with an error is told once, in order, with itself as the evidence:
/// as a critical root cause where its code is that of a watchdog, one or fourteen, and
/// else as a warning.
pub proof fn every_failure_is_told(events: Seq<Event>, i: int)
    requires
        0 <= i < events.len(),
        fails(events[i]),
    ensures
        failures(events).len() == count_of(events, events.len() as int, is_failure()),
        ({
            let k = count_of(events, i, is_failure()) as int;
            let f = failures(events)[k];
            let code = events[i].payload->MetalCbCompleted_error_code->0;
            &&& k < failures(events).len()
            &&& f.evidence.len() == 1
            &&& f.evidence[0].seq == events[i].seq
            &&& f.evidence[0].ts_mono_ns == events[i].ts_mono_ns
            &&& f.severity == if code == 1 || code == 14 {
                Severity::Critical
            } else {
                Severity::Warning
            }
            &&& f.category == if code == 1 || code == 14 {
                Category::RootCause
            } else {
                Category::ContributingFactor
            }
        }),
    decreases events.len(),
{
    let n = events.len() as int;
    let rest = events.drop_last();
    let p = is_failure();
    lemma_failure_count(events);
    lemma_count_grows(events, i, n, p);
    if i < n - 1 {
        assert(rest[i] == events[i]);
        every_failure_is_told(rest, i);
        lemma_count_same(rest, events, i, p);
    } else {
        lemma_failure_count(rest);
        lemma_count_same(rest, events, n - 1, p);
    }
}

proof fn lemma_failure_count(events: Seq<Event>)
    ensures
        failures(events).len() == count_of(events, events.len() as int, is_failure()),
    decreases events.len(),
{
    if events.len() > 0 {
        let rest = events.drop_last();
        lemma_failure_count(rest);
        lemma_count_same(rest, events, events.len() - 1, is_failure());
    }
}

/// An event that tells of something skipped, for a reason that holds `mark`.
pub open spec fn skips(mark: Seq<char>) -> spec_fn(Event) -> bool {
    |e: Event| e.payload is MetalHookSkipped && contains(e.payload->MetalHookSkipped_reason@, mark)
}

/// The events dropped, as the first `n` events count them.
pub open spec fn dropped(events: Seq<Event>, n: int) -> nat
    decreases n,
{
    if n <= 0 {
        0
    } else {
        dropped(events, n - 1) + match events[n - 1].payload {
            Payload::MetalHookDropped { count } => count as nat,
            _ => 0,
        }
    }
}

proof fn lemma_dropped_same(a: Seq<Event>, b: Seq<Event>, m: int)
    requires
        0 <= m <= a.len(),
        m <= b.len(),
        forall|i: int| 0 <= i < m ==> a[i] == #[trigger] b[i],
    ensures
        dropped(a, m) == dropped(b, m),
    decreases m,
{
    if m > 0 {
        lemma_dropped_same(a, b, m - 1);
        assert(a[m - 1] == b[m - 1]);
    }
}

/// Every loss of the hook is told: each disabling of the sampling by itself, the corrupt
/// frames by their number, and the dropped events by their sum, each with the first event
/// that says so.
pub proof fn every_loss_is_told(events: Seq<Event>)
    ensures
        ({
            let n = events.len() as int;
            let (c, d) = (corruption(events), drops(events));
            &&& disables(events).len() == count_of(events, n, skips("sampling disabled"@))
            &&& c.count == count_of(events, n, skips("ring decode error"@))
            &&& d.total == dropped(events, n)
            &&& match c.first {
                Some(i) => 0 <= i < n && skips("ring decode error"@)(events[i]) && forall|j: int|
                    0 <= j < i ==> !skips("ring decode error"@)(#[trigger] events[j]),
                None => c.count == 0,
            }
            &&& match d.first {
                Some(i) => 0 <= i < n && events[i].payload is MetalHookDropped && forall|j: int|
                    0 <= j < i ==> !((#[trigger] events[j]).payload is MetalHookDropped),
                None => forall|j: int|
                    0 <= j < n ==> !((#[trigger] events[j]).payload is MetalHookDropped),
            }
            &&& corrupt_findings(events).len() == if c.count > 0 {
                1int
            } else {
                0
            }
        }),
    decreases events.len(),
{
    if events.len() > 0 {
        let rest = events.drop_last();
        let m = events.len() - 1;
        every_loss_is_told(rest);
        lemma_count_same(rest, events, m, skips("sampling disabled"@));
        lemma_count_same(rest, events, m, skips("ring decode error"@));
        lemma_dropped_same(rest, events, m);
        assert forall|j: int| 0 <= j < m implies rest[j] == #[trigger] events[j] by {}
        if corruption(rest).first is None && skips("ring decode error"@)(events[m]) {
            assert forall|j: int| 0 <= j < m implies !skips("ring decode error"@)(
                #[trigger] events[j],
            ) by {
                if skips("ring decode error"@)(events[j]) {
                    lemma_count_grows(events, j, m, skips("ring decode error"@));
                }
            }
        }
    }
}

/// A completed command buffer.
pub open spec fn is_completion() -> spec_fn(Event) -> bool {
    |e: Event| e.payload is MetalCbCompleted
}

/// An event that only the sidecar sends: its greeting, a module entered or an eval
/// entered.
pub open spec fn is_of_sidecar(e: Event) -> bool {
    e.payload is PythonSidecarHello || e.payload is ModuleEntered || e.payload is MlxEvalEntered
}

/// GPU work without a sidecar is told exactly where command buffers completed and no event
/// came from the sidecar, with their number and the first of them. A session without
/// either is told exactly where it has events.
pub proof fn absence_is_told(events: Seq<Event>)
    requires
        events.len() <= u64::MAX,
    ensures
        ({
            let n = events.len() as int;
            let sidecar = exists|i: int| 0 <= i < n && is_of_sidecar(#[trigger] events[i]);
            let gpu = exists|i: int|
                0 <= i < n && (#[trigger] events[i]).payload is MetalCbCompleted;
            &&& absent_of(events) is Some <==> gpu && !sidecar
            &&& absent_of(events) matches Some(a) ==> {
                &&& a.metal_cb_count == count_of(events, n, is_completion())
                &&& exists|i: int|
                    {
                        &&& 0 <= i < n && (#[trigger] events[i]).payload is MetalCbCompleted
                        &&& a.first_seq == events[i].seq
                        &&& a.first_ts_mono_ns == events[i].ts_mono_ns
                        &&& forall|j: int|
                            0 <= j < i ==> !((#[trigger] events[j]).payload is MetalCbCompleted)
                    }
            }
            &&& nothing_of(events) is Some <==> n > 0 && !gpu && !sidecar
        }),
{
    let n = events.len() as int;
    lemma_gpu_work(events, n);
    assert(events.take(n) =~= events);
    assert forall|i: int| 0 <= i < n implies is_of_sidecar(#[trigger] events[i])
        == crate::rules::sidecar_absent::of_sidecar(events[i]) by {}
    assert forall|i: int| 0 <= i < n implies ((#[trigger] events[i]).payload is MetalCbCompleted)
        == crate::rules::sidecar_absent::of_gpu(events[i]) by {}
    if crate::rules::sidecar_absent::has_sidecar(events) {
        let i = choose|i: int|
            0 <= i < n && crate::rules::sidecar_absent::of_sidecar(#[trigger] events[i]);
        assert(is_of_sidecar(events[i]));
    }
    if crate::rules::sidecar_absent::has_gpu(events) {
        let i = choose|i: int|
            0 <= i < n && crate::rules::sidecar_absent::of_gpu(#[trigger] events[i]);
        assert(events[i].payload is MetalCbCompleted);
    }
    if let Some(i) = gpu_work(events).1 {
        assert(events[i].payload is MetalCbCompleted);
    }
}

proof fn lemma_gpu_work(events: Seq<Event>, n: int)
    requires
        0 <= n <= events.len() <= u64::MAX,
    ensures
        gpu_work(events.take(n)).0 == count_of(events, n, is_completion()) <= n,
        match gpu_work(events.take(n)).1 {
            Some(i) => 0 <= i < n && events[i].payload is MetalCbCompleted && forall|j: int|
                0 <= j < i ==> !((#[trigger] events[j]).payload is MetalCbCompleted),
            None => forall|j: int|
                0 <= j < n ==> !((#[trigger] events[j]).payload is MetalCbCompleted),
        },
    decreases n,
{
    if n > 0 {
        lemma_gpu_work(events, n - 1);
        lemma_prefix_step(events, n - 1);
    }
}

/// An eval that returns.
pub open spec fn is_return() -> spec_fn(Event) -> bool {
    |e: Event| e.payload is MlxEvalReturned
}

/// Up to event `n` the latest eval entered is that of event `a`, or none where `a` is
/// negative.
pub open spec fn entered_last(events: Seq<Event>, a: int, n: int) -> bool {
    &&& a < n
    &&& a >= 0 ==> events[a].payload is MlxEvalEntered
    &&& forall|j: int| a < j < n && j >= 0 ==> !((#[trigger] events[j]).payload is MlxEvalEntered)
}

/// Every eval that returns is timed, in order: its duration, how it was made, when it
/// returned, and when it was entered where it is the latest one entered.
pub proof fn every_eval_is_timed(events: Seq<Event>, i: int, a: int)
    requires
        0 <= i < events.len(),
        events[i].payload is MlxEvalReturned,
        entered_last(events, a, i),
    ensures
        recs_of(events).len() == count_of(events, events.len() as int, is_return()),
        ({
            let k = count_of(events, i, is_return()) as int;
            let r = recs_of(events)[k];
            let e = events[i];
            &&& k < recs_of(events).len()
            &&& r.call_id == e.payload->MlxEvalReturned_call_id
            &&& r.duration_ns == e.payload->MlxEvalReturned_duration_ns
            &&& r.was_async == e.payload->MlxEvalReturned_was_async
            &&& r.returned_ts == e.ts_mono_ns
            &&& r.seq == e.seq
            &&& r.entered_ts == if a >= 0 && events[a].payload->MlxEvalEntered_call_id == r.call_id {
                Some(events[a].ts_mono_ns)
            } else {
                None
            }
        }),
{
    let n = events.len() as int;
    assert(events.take(n) =~= events);
    lemma_rec_count(events, n);
    lemma_count_grows(events, i, n, is_return());
    lemma_rec_kept(events, i, n);
    lemma_prefix_step(events, i);
    lemma_rec_count(events, i);
    lemma_entered(events, a, i);
}

proof fn lemma_rec_count(events: Seq<Event>, n: int)
    requires
        0 <= n <= events.len(),
    ensures
        rec_scan(events.take(n)).recs.len() == count_of(events, n, is_return()),
    decreases n,
{
    if n > 0 {
        lemma_rec_count(events, n - 1);
        lemma_prefix_step(events, n - 1);
    }
}

proof fn lemma_rec_kept(events: Seq<Event>, i: int, n: int)
    requires
        0 <= i < n <= events.len(),
        events[i].payload is MlxEvalReturned,
    ensures
        rec_scan(events.take(n)).recs[count_of(events, i, is_return()) as int] == rec_scan(
            events.take(i + 1),
        ).recs[count_of(events, i, is_return()) as int],
    decreases n,
{
    if n > i + 1 {
        lemma_rec_kept(events, i, n - 1);
        lemma_prefix_step(events, n - 1);
        lemma_rec_count(events, n - 1);
        lemma_count_grows(events, i, n - 1, is_return());
    }
}

proof fn lemma_entered(events: Seq<Event>, a: int, n: int)
    requires
        0 <= n <= events.len(),
        entered_last(events, a, n),
    ensures
        rec_scan(events.take(n)).entered == if a >= 0 {
            Some((events[a].payload->MlxEvalEntered_call_id, events[a].ts_mono_ns))
        } else {
            None
        },
    decreases n,
{
    if n > 0 {
        lemma_prefix_step(events, n - 1);
        if a < n - 1 {
            assert(entered_last(events, a, n - 1));
            lemma_entered(events, a, n - 1);
        }
    }
}

/// The slowest eval that is told is the slowest of all, and what is listed in front of it
/// is no slower than what follows.
pub proof fn slowest_eval_is_slowest(recs: Seq<Rec>)
    requires
        recs.len() > 0,
    ensures
        ({
            let sorted = ordered(recs, by_duration());
            &&& sorted.len() == recs.len()
            &&& forall|i: int|
                0 <= i < recs.len() ==> (#[trigger] recs[i]).duration_ns
                    <= sorted.last().duration_ns
            &&& recs.contains(sorted.last())
            &&& forall|i: int, j: int|
                0 <= i < j < sorted.len() ==> (#[trigger] sorted[i]).duration_ns <= (
                #[trigger] sorted[j]).duration_ns
        }),
{
    let lt = by_duration();
    let sorted = ordered(recs, lt);
    assert(crate::sort::strict_weak(lt));
    ordered_is_permutation(recs, lt);
    ordered_is_in_order(recs, lt);
    assert forall|i: int, j: int| 0 <= i < j < sorted.len() implies (
    #[trigger] sorted[i]).duration_ns <= (#[trigger] sorted[j]).duration_ns by {
        assert(!lt(sorted[j], sorted[i]));
    }
    assert forall|i: int| 0 <= i < recs.len() implies (#[trigger] recs[i]).duration_ns
        <= sorted.last().duration_ns by {
        assert(recs.contains(recs[i]));
        lemma_ordered_contains(recs, lt, recs[i]);
        let k = choose|k: int| 0 <= k < sorted.len() && sorted[k] == recs[i];
        let last = sorted.len() - 1;
        if k < last {
            assert(sorted[k].duration_ns <= sorted[last].duration_ns);
        }
    }
    assert(sorted.contains(sorted[sorted.len() - 1]));
    lemma_ordered_contains(recs, lt, sorted.last());
}

proof fn lemma_returned_by(recs: Seq<Rec>, crash: u64, r: Rec)
    ensures
        returned_by(recs, crash).contains(r) <==> recs.contains(r) && r.returned_ts <= crash,
    decreases recs.len(),
{
    if recs.len() > 0 {
        let rest = recs.drop_last();
        lemma_returned_by(rest, crash, r);
        let (s, t) = (returned_by(rest, crash), returned_by(recs, crash));
        if s.contains(r) {
            let k = choose|k: int| 0 <= k < s.len() && s[k] == r;
            assert(t[k] == r);
        }
        if rest.contains(r) {
            let k = choose|k: int| 0 <= k < rest.len() && rest[k] == r;
            assert(recs[k] == r);
        }
        if recs.contains(r) {
            let k = choose|k: int| 0 <= k < recs.len() && recs[k] == r;
            if k < rest.len() {
                assert(rest[k] == r);
            } else if r.returned_ts <= crash {
                assert(t[t.len() - 1] == r);
            }
        }
        if t.contains(r) {
            let k = choose|k: int| 0 <= k < t.len() && t[k] == r;
            if k < s.len() {
                assert(s[k] == r);
            } else {
                assert(recs[recs.len() - 1] == r);
            }
        }
    }
}

/// The evals told one by one before a failure are at most five, in the order of their
/// returns; all returned by then, and no other eval that did returned later.
pub proof fn last_evals_are_told(events: Seq<Event>, crash: u64)
    ensures
        ({
            let told = adjacent(events, crash);
            let all = recs_of(events);
            &&& told.len() <= 5
            &&& forall|k: int|
                0 <= k < told.len() ==> (#[trigger] told[k]).returned_ts <= crash && all.contains(
                    told[k],
                )
            &&& forall|i: int, j: int|
                0 <= i < j < told.len() ==> (#[trigger] told[i]).returned_ts <= (
                #[trigger] told[j]).returned_ts
            &&& forall|i: int, k: int|
                0 <= i < all.len() && 0 <= k < told.len() && (#[trigger] all[i]).returned_ts
                    <= crash && !told.contains(all[i]) ==> all[i].returned_ts <= (
                #[trigger] told[k]).returned_ts
            &&& forall|i: int|
                0 <= i < all.len() && (#[trigger] all[i]).returned_ts <= crash && told.len() < 5
                    ==> told.contains(all[i])
        }),
{
    let all = recs_of(events);
    let lt = by_return();
    let s = returned_by(all, crash);
    let o = ordered(s, lt);
    let told = adjacent(events, crash);
    assert(crate::sort::strict_weak(lt));
    ordered_is_permutation(s, lt);
    ordered_is_in_order(s, lt);
    let from = if o.len() <= 5 {
        0
    } else {
        o.len() - 5
    };
    assert forall|k: int| 0 <= k < told.len() implies #[trigger] told[k] == o[from + k] by {}
    assert forall|i: int, j: int| 0 <= i < j < o.len() implies (#[trigger] o[i]).returned_ts <= (
    #[trigger] o[j]).returned_ts by {
        assert(!lt(o[j], o[i]));
    }
    assert forall|k: int| 0 <= k < told.len() implies (#[trigger] told[k]).returned_ts <= crash
        && all.contains(told[k]) by {
        assert(o.contains(o[from + k]));
        lemma_ordered_contains(s, lt, told[k]);
        lemma_returned_by(all, crash, told[k]);
    }
    assert forall|i: int|
        0 <= i < all.len() && (#[trigger] all[i]).returned_ts <= crash implies exists|m: int|
        0 <= m < o.len() && #[trigger] o[m] == all[i] && (m >= from ==> told.contains(all[i])) by {
        assert(all.contains(all[i]));
        lemma_returned_by(all, crash, all[i]);
        lemma_ordered_contains(s, lt, all[i]);
        let m = choose|m: int| 0 <= m < o.len() && o[m] == all[i];
        if m >= from {
            assert(told[m - from] == all[i]);
        }
    }
    assert forall|i: int, k: int|
        0 <= i < all.len() && 0 <= k < told.len() && (#[trigger] all[i]).returned_ts <= crash
            && !told.contains(all[i]) implies all[i].returned_ts <= (
    #[trigger] told[k]).returned_ts by {
        let m = choose|m: int|
            0 <= m < o.len() && #[trigger] o[m] == all[i] && (m >= from ==> told.contains(all[i]));
        assert(o[m].returned_ts <= o[from + k].returned_ts);
    }
}

/// The event loads the model at `path`.
pub open spec fn loads_model(e: Event, path: Seq<char>) -> bool {
    e.payload is ModelLoad && e.payload->ModelLoad_path@ == path
}

/// The event unloads the model at `path`.
pub open spec fn unloads_model(e: Event, path: Seq<char>) -> bool {
    e.payload is ModelUnload && e.payload->ModelUnload_path@ == path
}

/// Up to event `n` the model at `path` is loaded, the latest time by event `a`.
pub open spec fn loaded_since(events: Seq<Event>, a: int, n: int, path: Seq<char>) -> bool {
    &&& 0 <= a < n <= events.len()
    &&& loads_model(events[a], path)
    &&& forall|j: int|
        a < j < n ==> !loads_model(#[trigger] events[j], path) && !unloads_model(events[j], path)
}

/// Event `i` loads a model that is loaded.
pub open spec fn loads_again(events: Seq<Event>, i: int) -> bool {
    events[i].payload is ModelLoad && exists|a: int|
        loaded_since(events, a, i, events[i].payload->ModelLoad_path@)
}

/// How many of the first `n` events load a model that is loaded.
pub open spec fn reloads(events: Seq<Event>, n: int) -> nat
    decreases n,
{
    if n <= 0 {
        0
    } else {
        reloads(events, n - 1) + if loads_again(events, n - 1) {
            1nat
        } else {
            0
        }
    }
}

proof fn lemma_loaded(events: Seq<Event>, n: int, path: Seq<char>)
    requires
        0 <= n <= events.len(),
    ensures
        load_scan(events.take(n)).loaded.contains_key(path) ==> exists|a: int|
            loaded_since(events, a, n, path),
    decreases n,
{
    if n > 0 {
        let m = n - 1;
        lemma_loaded(events, m, path);
        lemma_prefix_step(events, m);
        if load_scan(events.take(n)).loaded.contains_key(path) {
            if loads_model(events[m], path) {
                assert(loaded_since(events, m, n, path));
            } else {
                let a = choose|a: int| loaded_since(events, a, m, path);
                assert(loaded_since(events, a, n, path));
            }
        }
    }
}

proof fn lemma_load_known(events: Seq<Event>, a: int, n: int, path: Seq<char>)
    requires
        loaded_since(events, a, n, path),
    ensures
        load_scan(events.take(n)).loaded.contains_key(path),
        load_scan(events.take(n)).loaded[path] == events[a].payload->ModelLoad_t_start_ns,
    decreases n,
{
    lemma_prefix_step(events, n - 1);
    if n - 1 > a {
        assert(loaded_since(events, a, n - 1, path));
        lemma_load_known(events, a, n - 1, path);
        assert(!loads_model(events[n - 1], path) && !unloads_model(events[n - 1], path));
    }
}

proof fn lemma_reload_count(events: Seq<Event>, n: int)
    requires
        0 <= n <= events.len(),
    ensures
        load_scan(events.take(n)).findings.len() == reloads(events, n),
    decreases n,
{
    if n > 0 {
        let m = n - 1;
        lemma_reload_count(events, m);
        lemma_prefix_step(events, m);
        if events[m].payload is ModelLoad {
            let path = events[m].payload->ModelLoad_path@;
            lemma_loaded(events, m, path);
            if loads_again(events, m) {
                let a = choose|a: int| loaded_since(events, a, m, path);
                lemma_load_known(events, a, m, path);
            }
        }
    }
}

proof fn lemma_reload_kept(events: Seq<Event>, i: int, n: int)
    requires
        0 <= i < n <= events.len(),
        loads_again(events, i),
    ensures
        reloads(events, i) < reloads(events, n),
        load_scan(events.take(n)).findings[reloads(events, i) as int] == load_scan(
            events.take(i + 1),
        ).findings[reloads(events, i) as int],
    decreases n,
{
    if n > i + 1 {
        lemma_reload_kept(events, i, n - 1);
        lemma_prefix_step(events, n - 1);
        lemma_reload_count(events, n - 1);
    }
}

/// Every load of a model that is loaded is told, in order, with the start of its latest
/// load, and no other load is.
pub proof fn every_second_load_is_told(events: Seq<Event>, i: int, a: int)
    requires
        0 <= i < events.len(),
        events[i].payload is ModelLoad,
        loaded_since(events, a, i, events[i].payload->ModelLoad_path@),
    ensures
        load_scan(events).findings.len() == reloads(events, events.len() as int),
        reloads(events, i) < reloads(events, events.len() as int),
        load_scan(events).findings[reloads(events, i) as int] == duplicate(
            events[i],
            events[i].payload->ModelLoad_path@,
            events[i].payload->ModelLoad_size_bytes,
            events[a].payload->ModelLoad_t_start_ns,
            events[i].payload->ModelLoad_t_start_ns,
        ),
        ({
            let f = load_scan(events).findings[reloads(events, i) as int];
            &&& f.evidence.len() == 1
            &&& f.evidence[0].seq == events[i].seq
            &&& f.evidence[0].ts_mono_ns == events[i].payload->ModelLoad_t_start_ns
        }),
{
    let n = events.len() as int;
    assert(events.take(n) =~= events);
    assert(loads_again(events, i));
    lemma_reload_count(events, n);
    lemma_reload_kept(events, i, n);
    lemma_prefix_step(events, i);
    lemma_reload_count(events, i);
    lemma_load_known(events, a, i, events[i].payload->ModelLoad_path@);
}

/// Where no load finds its model loaded, nothing is told.
pub proof fn first_loads_are_not_told(events: Seq<Event>)
    ensures
        load_scan(events).findings.len() == reloads(events, events.len() as int),
{
    assert(events.take(events.len() as int) =~= events);
    lemma_reload_count(events, events.len() as int);
}

/// Command buffer `j` commits within an eval made outside all modules.
pub open spec fn in_lazy_eval(cbs: Seq<CbView>, evals: Seq<EvalView>, j: int) -> bool {
    match last_covering(eval_spans(evals), cbs[j].commit_ts) {
        Some(i) => evals[i].module_stack.len() == 0,
        None => false,
    }
}

/// The GPU time of each command buffer.
pub open spec fn each_time(cbs: Seq<CbView>, sampled: bool) -> spec_fn(int) -> nat {
    |j: int| cb_ns(cbs[j], sampled)
}

/// The GPU time of each command buffer that commits within an eval made outside all
/// modules.
pub open spec fn each_lazy_time(
    cbs: Seq<CbView>,
    sampled: bool,
    evals: Seq<EvalView>,
) -> spec_fn(int) -> nat {
    |j: int|
        if in_lazy_eval(cbs, evals, j) {
            cb_ns(cbs[j], sampled)
        } else {
            0
        }
}

proof fn lemma_sum_same(n: int, f: spec_fn(int) -> nat, g: spec_fn(int) -> nat)
    requires
        forall|i: int| 0 <= i < n ==> #[trigger] f(i) == g(i),
    ensures
        sum(below(n), f) == sum(below(n), g),
    decreases n,
{
    if n > 0 {
        lemma_sum_same(n - 1, f, g);
        assert(below(n) =~= below(n - 1).push(n - 1));
        lemma_sum_push(below(n - 1), n - 1, f);
        lemma_sum_push(below(n - 1), n - 1, g);
        assert(f(n - 1) == g(n - 1));
    } else {
        assert(below(n) =~= Seq::<int>::empty());
    }
}

proof fn lemma_gap_sums(cbs: Seq<CbView>, sampled: bool, evals: Seq<EvalView>)
    ensures
        ({
            let n = cbs.len() as int;
            let s = gap_scan(cbs, sampled, evals);
            &&& s.total == sum(below(n), each_time(cbs, sampled))
            &&& s.gap == sum(below(n), each_lazy_time(cbs, sampled, evals))
            &&& s.gap > 0 <==> s.first is Some
        }),
    decreases cbs.len(),
{
    let n = cbs.len() as int;
    if n > 0 {
        let rest = cbs.drop_last();
        lemma_gap_sums(rest, sampled, evals);
        assert(below(n) =~= below(n - 1).push(n - 1));
        let (f, g) = (each_time(cbs, sampled), each_lazy_time(cbs, sampled, evals));
        let (f0, g0) = (each_time(rest, sampled), each_lazy_time(rest, sampled, evals));
        lemma_sum_push(below(n - 1), n - 1, f);
        lemma_sum_push(below(n - 1), n - 1, g);
        assert forall|i: int| 0 <= i < n - 1 implies #[trigger] f0(i) == f(i) by {
            assert(rest[i] == cbs[i]);
        }
        assert forall|i: int| 0 <= i < n - 1 implies #[trigger] g0(i) == g(i) by {
            assert(rest[i] == cbs[i]);
        }
        lemma_sum_same(n - 1, f0, f);
        lemma_sum_same(n - 1, g0, g);
        assert(cbs.last() == cbs[n - 1]);
    } else {
        assert(below(0) =~= Seq::<int>::empty());
    }
}

/// The gap of a session is the GPU time of the command buffers that commit within evals
/// made outside all modules, and its whole the GPU time of all. It is told exactly where
/// there is one and it is at least half of the whole, rounded down to percents.
pub proof fn lazy_gap_is_the_time_outside_modules(events: Seq<Event>)
    requires
        gaps_of(events).total <= u64::MAX,
        gaps_of(events).gap * 100 <= u64::MAX,
    ensures
        ({
            let (cbs, sampled, evals) = (cbs_of(events), sampled_of(events), evals_of(events));
            let n = cbs.len() as int;
            let gap = sum(below(n), each_lazy_time(cbs, sampled, evals));
            let total = sum(below(n), each_time(cbs, sampled));
            &&& gap_of(events) is Some <==> gap > 0 && total > 0 && (gap * 100) / total >= 50
            &&& gap_of(events) matches Some(g) ==> {
                &&& g.gap_gpu_ns == gap
                &&& g.total_gpu_ns == total
                &&& g.module_call_count == module_calls(events) as u64
            }
        }),
{
    let (cbs, sampled, evals) = (cbs_of(events), sampled_of(events), evals_of(events));
    lemma_gap_sums(cbs, sampled, evals);
    let s = gaps_of(events);
    if s.total > 0 {
        let (a, b) = ((s.gap * 100) as int, s.total as int);
        assert(0 <= a / b <= a) by (nonlinear_arith)
            requires
                0 <= a,
                b >= 1,
        ;
    }
}

/// The module calls of a session are its entries into modules.
pub proof fn module_calls_are_entries(events: Seq<Event>)
    ensures
        module_calls(events) == count_of(
            events,
            events.len() as int,
            |e: Event| e.payload is ModuleEntered,
        ),
    decreases events.len(),
{
    if events.len() > 0 {
        let rest = events.drop_last();
        module_calls_are_entries(rest);
        lemma_count_same(rest, events, events.len() - 1, |e: Event| e.payload is ModuleEntered);
    }
}

/// A process of a sample that counts: flagged, and at or over five percent.
pub open spec fn presses(p: ProcEntry) -> bool {
    flagged(p.name@) && !under_threshold(p.cpu_pct)
}

/// Five percent and more, as single-precision numbers are written: from `0x40A0_0000` up
/// to the sign, with no number counting as over the threshold too.
pub proof fn pressure_starts_at_five_percent(bits: u32)
    ensures
        under_threshold(bits) <==> bits < 0x40A0_0000 || 0x8000_0000 <= bits <= 0xFF80_0000,
{
}

/// How many processes of a list count under a name.
pub open spec fn pressing(top: Seq<ProcEntry>, name: Seq<char>) -> nat
    decreases top.len(),
{
    if top.len() == 0 {
        0
    } else {
        pressing(top.drop_last(), name) + if presses(top.last()) && top.last().name@ == name {
            1nat
        } else {
            0
        }
    }
}

/// How many samples count under a name, over the first `n` events.
pub open spec fn pressing_samples(events: Seq<Event>, n: int, name: Seq<char>) -> nat
    decreases n,
{
    if n <= 0 {
        0
    } else {
        pressing_samples(events, n - 1, name) + match events[n - 1].payload {
            Payload::ProcTop { top, .. } => pressing(top@, name),
            _ => 0,
        }
    }
}

/// What is known of a name.
spec fn known_samples(slots: Seq<SlotView>, name: Seq<char>) -> nat {
    match slot_of(slots, name) {
        Some(i) => slots[i].samples,
        None => 0,
    }
}

/// A slot under a name is the one that is found.
proof fn lemma_slot_found(slots: Seq<SlotView>, name: Seq<char>, k: int)
    requires
        names_distinct(slots),
        0 <= k < slots.len(),
        slots[k].name == name,
    ensures
        slot_of(slots, name) == Some(k),
{
    lemma_slot_of(slots, name);
    let i = slot_of(slots, name)->0;
    if i < k {
        assert(slots[i].name != slots[k].name);
    } else if k < i {
        assert(slots[k].name != slots[i].name);
    }
}

proof fn lemma_slot_step(slots: Seq<SlotView>, p: ProcEntry, e: Event, name: Seq<char>)
    requires
        names_distinct(slots),
        names_distinct(slot_step(slots, p, e)),
        forall|i: int| 0 <= i < slots.len() ==> (#[trigger] slots[i]).samples > 0,
    ensures
        ({
            let t = slot_step(slots, p, e);
            &&& forall|i: int| 0 <= i < t.len() ==> (#[trigger] t[i]).samples > 0
            &&& known_samples(t, name) == known_samples(slots, name) + if presses(p) && p.name@
                == name {
                1nat
            } else {
                0
            }
        }),
{
    let t = slot_step(slots, p, e);
    lemma_slot_of(slots, name);
    lemma_slot_of(t, name);
    lemma_slot_of(slots, p.name@);
    if presses(p) {
        match slot_of(slots, name) {
            Some(i) => {
                assert(t[i].name == name);
                lemma_slot_found(t, name, i);
            },
            None => {
                if p.name@ == name {
                    lemma_slot_found(t, name, slots.len() as int);
                } else if let Some(j) = slot_of(t, name) {
                    if j < slots.len() {
                        assert(slots[j].name == name);
                    }
                }
            },
        }
    }
}

proof fn lemma_sample_step(slots: Seq<SlotView>, top: Seq<ProcEntry>, e: Event, name: Seq<char>)
    requires
        names_distinct(slots),
        forall|i: int| 0 <= i < slots.len() ==> (#[trigger] slots[i]).samples > 0,
    ensures
        ({
            let t = sample_step(slots, top, e);
            &&& forall|i: int| 0 <= i < t.len() ==> (#[trigger] t[i]).samples > 0
            &&& known_samples(t, name) == known_samples(slots, name) + pressing(top, name)
        }),
    decreases top.len(),
{
    if top.len() > 0 {
        lemma_sample_step(slots, top.drop_last(), e, name);
        lemma_sample_distinct(slots, top.drop_last(), e);
        lemma_sample_distinct(slots, top, e);
        lemma_slot_step(sample_step(slots, top.drop_last(), e), top.last(), e, name);
    }
}

proof fn lemma_slots(events: Seq<Event>, n: int, name: Seq<char>)
    requires
        0 <= n <= events.len(),
    ensures
        ({
            let t = slots_of(events.take(n));
            &&& forall|i: int| 0 <= i < t.len() ==> (#[trigger] t[i]).samples > 0
            &&& known_samples(t, name) == pressing_samples(events, n, name)
        }),
    decreases n,
{
    if n > 0 {
        lemma_slots(events, n - 1, name);
        lemma_prefix_step(events, n - 1);
        if let Payload::ProcTop { top, .. } = events[n - 1].payload {
            one_finding_per_process(events.take(n - 1));
            lemma_sample_step(slots_of(events.take(n - 1)), top@, events[n - 1], name);
        }
    }
}

/// A flagged process is told with the number of samples in which it was at or over the
/// threshold, and is told exactly where there is one.
pub proof fn pressing_processes_are_counted(events: Seq<Event>, name: Seq<char>)
    ensures
        match slot_of(slots_of(events), name) {
            Some(i) => 0 <= i < slots_of(events).len() && slots_of(events)[i].name == name
                && slots_of(events)[i].samples == pressing_samples(
                events,
                events.len() as int,
                name,
            ) && slots_of(events)[i].samples > 0,
            None => pressing_samples(events, events.len() as int, name) == 0,
        },
{
    let n = events.len() as int;
    assert(events.take(n) =~= events);
    lemma_slots(events, n, name);
    lemma_slot_of(slots_of(events), name);
}

/// The peaks of the slots are at least `bits` under `name`.
spec fn peaks_at(slots: Seq<SlotView>, name: Seq<char>, bits: u32) -> bool {
    exists|i: int| 0 <= i < slots.len() && (#[trigger] slots[i]).name == name && slots[i].peak >= bits
}

proof fn lemma_slot_peaks(slots: Seq<SlotView>, p: ProcEntry, e: Event)
    requires
        !nan(p.cpu_pct),
        forall|i: int| 0 <= i < slots.len() ==> !nan((#[trigger] slots[i]).peak),
    ensures
        ({
            let t = slot_step(slots, p, e);
            &&& forall|i: int| 0 <= i < t.len() ==> !nan((#[trigger] t[i]).peak)
            &&& forall|name: Seq<char>, bits: u32| #[trigger]
                peaks_at(slots, name, bits) ==> peaks_at(t, name, bits)
            &&& presses(p) ==> peaks_at(t, p.name@, p.cpu_pct)
        }),
{
    let t = slot_step(slots, p, e);
    lemma_slot_of(slots, p.name@);
    if presses(p) {
        match slot_of(slots, p.name@) {
            Some(k) => assert(t[k].name == p.name@ && t[k].peak >= p.cpu_pct),
            None => assert(t[slots.len() as int].name == p.name@),
        }
    }
    assert forall|name: Seq<char>, bits: u32| #[trigger] peaks_at(slots, name, bits) implies
        peaks_at(t, name, bits) by {
        let i = choose|i: int|
            0 <= i < slots.len() && (#[trigger] slots[i]).name == name && slots[i].peak >= bits;
        assert(t[i].name == name && t[i].peak >= bits);
    }
}

proof fn lemma_sample_peaks(slots: Seq<SlotView>, top: Seq<ProcEntry>, e: Event)
    requires
        forall|k: int| 0 <= k < top.len() ==> !nan((#[trigger] top[k]).cpu_pct),
        forall|i: int| 0 <= i < slots.len() ==> !nan((#[trigger] slots[i]).peak),
    ensures
        ({
            let t = sample_step(slots, top, e);
            &&& forall|i: int| 0 <= i < t.len() ==> !nan((#[trigger] t[i]).peak)
            &&& forall|name: Seq<char>, bits: u32| #[trigger]
                peaks_at(slots, name, bits) ==> peaks_at(t, name, bits)
            &&& forall|k: int|
                0 <= k < top.len() && presses(#[trigger] top[k]) ==> peaks_at(
                    t,
                    top[k].name@,
                    top[k].cpu_pct,
                )
        }),
    decreases top.len(),
{
    if top.len() > 0 {
        let rest = top.drop_last();
        assert forall|k: int| 0 <= k < rest.len() implies !nan((#[trigger] rest[k]).cpu_pct) by {
            assert(rest[k] == top[k]);
        }
        lemma_sample_peaks(slots, rest, e);
        let mid = sample_step(slots, rest, e);
        assert(!nan(top[top.len() - 1].cpu_pct));
        lemma_slot_peaks(mid, top.last(), e);
        let t = sample_step(slots, top, e);
        assert forall|k: int| 0 <= k < top.len() && presses(#[trigger] top[k]) implies peaks_at(
            t,
            top[k].name@,
            top[k].cpu_pct,
        ) by {
            if k < rest.len() {
                assert(presses(rest[k]));
                assert(peaks_at(mid, top[k].name@, top[k].cpu_pct));
            }
        }
    }
}

/// No event samples a share that is no number.
pub open spec fn all_numbers(events: Seq<Event>) -> bool {
    forall|i: int, k: int|
        0 <= i < events.len() && (#[trigger] events[i]).payload is ProcTop && 0 <= k
            < events[i].payload->ProcTop_top@.len() ==> !nan(
            (#[trigger] events[i].payload->ProcTop_top@[k]).cpu_pct,
        )
}

proof fn lemma_slot_peak_kept(events: Seq<Event>, n: int, i: int, k: int)
    requires
        0 <= i < n <= events.len(),
        all_numbers(events),
        events[i].payload is ProcTop,
        0 <= k < events[i].payload->ProcTop_top@.len(),
        presses(events[i].payload->ProcTop_top@[k]),
    ensures
        forall|m: int|
            0 <= m < slots_of(events.take(n)).len() ==> !nan(
                (#[trigger] slots_of(events.take(n))[m]).peak,
            ),
        peaks_at(
            slots_of(events.take(n)),
            events[i].payload->ProcTop_top@[k].name@,
            events[i].payload->ProcTop_top@[k].cpu_pct,
        ),
    decreases n,
{
    let p = events[i].payload->ProcTop_top@[k];
    lemma_prefix_step(events, n - 1);
    lemma_slot_numbers(events, n - 1);
    let s = slots_of(events.take(n - 1));
    if events[n - 1].payload is ProcTop {
        lemma_sample_peaks(s, events[n - 1].payload->ProcTop_top@, events[n - 1]);
    }
    if i < n - 1 {
        lemma_slot_peak_kept(events, n - 1, i, k);
    } else {
        assert(presses(events[n - 1].payload->ProcTop_top@[k]));
    }
}

proof fn lemma_slot_numbers(events: Seq<Event>, n: int)
    requires
        0 <= n <= events.len(),
        all_numbers(events),
    ensures
        forall|m: int|
            0 <= m < slots_of(events.take(n)).len() ==> !nan(
                (#[trigger] slots_of(events.take(n))[m]).peak,
            ),
    decreases n,
{
    if n > 0 {
        lemma_slot_numbers(events, n - 1);
        lemma_prefix_step(events, n - 1);
        if events[n - 1].payload is ProcTop {
            lemma_sample_peaks(
                slots_of(events.take(n - 1)),
                events[n - 1].payload->ProcTop_top@,
                events[n - 1],
            );
        }
    }
}

/// No sample of a flagged process exceeds the peak that is told of it.
pub proof fn process_peaks_are_never_exceeded(events: Seq<Event>, i: int, k: int)
    requires
        0 <= i < events.len(),
        all_numbers(events),
        events[i].payload is ProcTop,
        0 <= k < events[i].payload->ProcTop_top@.len(),
        presses(events[i].payload->ProcTop_top@[k]),
    ensures
        exists|m: int|
            0 <= m < slots_of(events).len() && (#[trigger] slots_of(events)[m]).name
                == events[i].payload->ProcTop_top@[k].name@ && slots_of(events)[m].peak
                >= events[i].payload->ProcTop_top@[k].cpu_pct,
{
    let n = events.len() as int;
    assert(events.take(n) =~= events);
    lemma_slot_peak_kept(events, n, i, k);
}

/// The `k`-th command buffer ran on the GPU in the `i`-th eval, which no module entered.
pub open spec fn runs_lazily(
    cbs: Seq<CbView>,
    sampled: bool,
    evals: Seq<EvalView>,
    k: int,
    i: int,
) -> bool {
    &&& 0 <= k < cbs.len()
    &&& last_covering(eval_spans(evals), cbs[k].commit_ts) == Some(i)
    &&& evals[i].module_stack.len() == 0
    &&& cb_ns(cbs[k], sampled) > 0
}

/// `a` comes before `b`, or is the same: by its number, then by its time.
pub open spec fn not_after(a: (u64, u64), b: (u64, u64)) -> bool {
    a.0 < b.0 || (a.0 == b.0 && a.1 <= b.1)
}

/// The evals outside of modules that are told are those with GPU time, and the first of
/// them is the evidence.
pub proof fn lazy_evals_are_told(cbs: Seq<CbView>, sampled: bool, evals: Seq<EvalView>)
    ensures
        ({
            let s = gap_scan(cbs, sampled, evals);
            &&& forall|k: int, i: int| #[trigger]
                runs_lazily(cbs, sampled, evals, k, i) ==> s.evals.contains(i as usize)
                    && s.first is Some && not_after(s.first->0, (evals[i].seq, evals[i].t_in))
            &&& forall|u: usize| #[trigger]
                s.evals.contains(u) ==> exists|k: int, i: int| #[trigger]
                    runs_lazily(cbs, sampled, evals, k, i) && u == i as usize
            &&& s.first is Some ==> exists|k: int, i: int| #[trigger]
                runs_lazily(cbs, sampled, evals, k, i) && s.first->0 == (
                    evals[i].seq,
                    evals[i].t_in,
                )
        }),
    decreases cbs.len(),
{
    if cbs.len() > 0 {
        let rest = cbs.drop_last();
        let last = cbs.len() - 1;
        lazy_evals_are_told(rest, sampled, evals);
        let (p, s) = (gap_scan(rest, sampled, evals), gap_scan(cbs, sampled, evals));
        assert forall|k: int, i: int| #[trigger] runs_lazily(cbs, sampled, evals, k, i) implies
            s.evals.contains(i as usize) && s.first is Some && not_after(
            s.first->0,
            (evals[i].seq, evals[i].t_in),
        ) by {
            if k < last {
                assert(runs_lazily(rest, sampled, evals, k, i));
            }
        }
        assert forall|u: usize| #[trigger] s.evals.contains(u) implies exists|k: int, i: int|
            #[trigger] runs_lazily(cbs, sampled, evals, k, i) && u == i as usize by {
            if p.evals.contains(u) {
                let (k, i) = choose|k: int, i: int| #[trigger]
                    runs_lazily(rest, sampled, evals, k, i) && u == i as usize;
                assert(runs_lazily(cbs, sampled, evals, k, i));
            } else {
                let i = last_covering(eval_spans(evals), cbs[last].commit_ts)->0;
                assert(runs_lazily(cbs, sampled, evals, last, i));
            }
        }
        if s.first is Some {
            if s.first == p.first {
                let (k, i) = choose|k: int, i: int| #[trigger]
                    runs_lazily(rest, sampled, evals, k, i) && p.first->0 == (
                        evals[i].seq,
                        evals[i].t_in,
                    );
                assert(runs_lazily(cbs, sampled, evals, k, i));
            } else {
                let i = last_covering(eval_spans(evals), cbs[last].commit_ts)->0;
                assert(runs_lazily(cbs, sampled, evals, last, i));
            }
        }
    }
}

/// What is told of a gap names its evals and the first of them.
pub proof fn gaps_name_their_evals(events: Seq<Event>)
    ensures
        gap_of(events) matches Some(g) ==> {
            let s = gap_scan(cbs_of(events), sampled_of(events), evals_of(events));
            &&& g.lazy_eval_count == s.evals.len() as u64
            &&& s.first == Some((g.first_seq, g.first_ts_mono_ns))
        },
{
}

/// A session in which nothing was instrumented is told how many events it has, and whether
/// a process was followed.
pub proof fn followed_processes_are_told(events: Seq<Event>)
    ensures
        nothing_of(events) matches Some(n) ==> {
            &&& n.event_count == events.len() as usize
            &&& n.has_proc_footprint <==> exists|i: int|
                0 <= i < events.len() && (#[trigger] events[i]).payload is ProcFootprint
        },
{
}

} // verus!
