//! What the command buffers of a stream are, told by the events of their lifetimes.

use crate::command_buffers::{
    cb_scan, cbs_of, clamped_ops, lemma_cb_scan, sampled_of, strays_of, CbView,
};
use crate::double::Bin;
use crate::event::{lemma_prefix_step, Event, OpSample, OpView, Payload};
use crate::export::{bounds_cb, commits_cb, completes_cb, samples_cb};
use crate::op_clamp::{clamp_scan, scaled, scales_of, window_of};
use crate::text::opt_view;
use vstd::prelude::*;

verus! {

/// Up to event `n` the latest word on the command buffer `id` is its commit at `a`.
pub open spec fn cb_open_since(events: Seq<Event>, a: int, n: int, id: u64) -> bool {
    &&& 0 <= a < n <= events.len()
    &&& commits_cb(events[a], id)
    &&& forall|j: int| a < j < n ==> !bounds_cb(#[trigger] events[j], id)
}

/// The command buffer `id` was committed at `a` and completed at `b`.
pub open spec fn is_lifetime(events: Seq<Event>, a: int, b: int, id: u64) -> bool {
    &&& 0 <= a < b < events.len()
    &&& completes_cb(events[b], id)
    &&& cb_open_since(events, a, b, id)
}

/// Event `b` completes the command buffer `id` after a commit.
pub open spec fn ends_lifetime(events: Seq<Event>, b: int, id: u64) -> bool {
    exists|a: int| is_lifetime(events, a, b, id)
}

/// How many of the first `n` events complete a command buffer after a commit.
pub open spec fn lifetimes(events: Seq<Event>, n: int) -> nat
    decreases n,
{
    if n <= 0 {
        0
    } else {
        lifetimes(events, n - 1) + if events[n - 1].payload is MetalCbCompleted && ends_lifetime(
            events,
            n - 1,
            events[n - 1].payload->MetalCbCompleted_cb_id,
        ) {
            1nat
        } else {
            0
        }
    }
}

/// The kernels of event `c` belong to the lifetime that ends at `b`: it is the latest
/// of their command buffer.
pub open spec fn follows(events: Seq<Event>, b: int, c: int, id: u64) -> bool {
    &&& 0 <= b < c < events.len()
    &&& samples_cb(events[c], id)
    &&& ends_lifetime(events, b, id)
    &&& forall|d: int| b < d < c ==> !#[trigger] ends_lifetime(events, d, id)
}

/// `v` is the kernel `o` with its time clamped by `scales`.
pub open spec fn is_clamped(v: OpView, o: OpSample, scales: Map<u64, Bin>, seq: u64) -> bool {
    &&& v.name == o.name@
    &&& v.symbol == opt_view(o.symbol)
    &&& v.count == o.count
    &&& v.gpu_ns == scaled(scales, seq, o.gpu_ns)
    &&& !scales.contains_key(seq) ==> v.gpu_ns == o.gpu_ns
}

/// `ops` are the kernels that event `c` samples, their times clamped.
pub open spec fn are_kernels(ops: Seq<OpView>, e: Event, scales: Map<u64, Bin>) -> bool {
    &&& ops.len() == e.payload->MetalCbOps_ops@.len()
    &&& forall|k: int|
        0 <= k < ops.len() ==> is_clamped(
            #[trigger] ops[k],
            e.payload->MetalCbOps_ops@[k],
            scales,
            e.seq,
        )
}

proof fn lemma_kernels(e: Event, scales: Map<u64, Bin>)
    requires
        e.payload is MetalCbOps,
    ensures
        are_kernels(clamped_ops(e.payload->MetalCbOps_ops@, scales, e.seq), e, scales),
{
}

proof fn lemma_open(events: Seq<Event>, n: int, id: u64, scales: Map<u64, Bin>)
    requires
        0 <= n <= events.len(),
    ensures
        cb_scan(events.take(n), scales).committed.contains_key(id) ==> exists|a: int|
            cb_open_since(events, a, n, id),
    decreases n,
{
    if n > 0 {
        lemma_open(events, n - 1, id, scales);
        lemma_prefix_step(events, n - 1);
        let m = n - 1;
        if cb_scan(events.take(n), scales).committed.contains_key(id) {
            if commits_cb(events[m], id) {
                assert(cb_open_since(events, m, n, id));
            } else {
                assert(cb_scan(events.take(m), scales).committed.contains_key(id));
                let a = choose|a: int| cb_open_since(events, a, m, id);
                assert(cb_open_since(events, a, n, id));
            }
        }
    }
}

proof fn lemma_opened(events: Seq<Event>, a: int, n: int, id: u64, scales: Map<u64, Bin>)
    requires
        cb_open_since(events, a, n, id),
    ensures
        cb_scan(events.take(n), scales).committed.contains_key(id),
        cb_scan(events.take(n), scales).committed[id] == events[a].ts_mono_ns,
    decreases n,
{
    lemma_prefix_step(events, n - 1);
    if n - 1 > a {
        assert(cb_open_since(events, a, n - 1, id));
        lemma_opened(events, a, n - 1, id, scales);
        assert(!bounds_cb(events[n - 1], id));
    }
}

/// A completion ends a lifetime exactly where its command buffer is open.
proof fn lemma_ends(events: Seq<Event>, b: int, id: u64, scales: Map<u64, Bin>)
    requires
        0 <= b < events.len(),
        completes_cb(events[b], id),
    ensures
        ends_lifetime(events, b, id) == cb_scan(events.take(b), scales).committed.contains_key(id),
{
    lemma_open(events, b, id, scales);
    if cb_scan(events.take(b), scales).committed.contains_key(id) {
        let a = choose|a: int| cb_open_since(events, a, b, id);
        assert(is_lifetime(events, a, b, id));
    }
    if ends_lifetime(events, b, id) {
        let a = choose|a: int| is_lifetime(events, a, b, id);
        lemma_opened(events, a, b, id, scales);
    }
}

proof fn lemma_lifetimes_grow(events: Seq<Event>, x: int, y: int, id: u64)
    requires
        0 <= x < y <= events.len(),
        ends_lifetime(events, x, id),
    ensures
        lifetimes(events, x) < lifetimes(events, y),
    decreases y,
{
    if y == x + 1 {
        let a = choose|a: int| is_lifetime(events, a, x, id);
        assert(completes_cb(events[x], id));
    } else {
        lemma_lifetimes_grow(events, x, y - 1, id);
    }
}

/// The last of the first `n` events whose kernels belong to the lifetime that ends at
/// `b`.
spec fn last_follow(events: Seq<Event>, b: int, n: int, id: u64) -> Option<int>
    decreases n,
{
    if n <= 0 {
        None
    } else if follows(events, b, n - 1, id) {
        Some(n - 1)
    } else {
        last_follow(events, b, n - 1, id)
    }
}

proof fn lemma_last_follow(events: Seq<Event>, b: int, n: int, id: u64)
    ensures
        match last_follow(events, b, n, id) {
            Some(k) => k < n && follows(events, b, k, id) && forall|j: int|
                k < j < n ==> !#[trigger] follows(events, b, j, id),
            None => forall|j: int| j < n ==> !#[trigger] follows(events, b, j, id),
        },
    decreases n,
{
    if n > 0 {
        lemma_last_follow(events, b, n - 1, id);
    }
}

/// What is known of the lifetime that ends at `b`, after `n` events.
spec fn lifetime_ok(
    events: Seq<Event>,
    b: int,
    n: int,
    id: u64,
    c: CbView,
    scales: Map<u64, Bin>,
) -> bool {
    &&& c.cb_id == id
    &&& c.in_flight_ns == events[b].payload->MetalCbCompleted_in_flight_ns
    &&& match last_follow(events, b, n, id) {
        None => c.ops is None,
        Some(k) => c.ops is Some && are_kernels(c.ops->0, events[k], scales),
    }
}

/// Where the latest lifetime of an id stands.
spec fn latest_ok(events: Seq<Event>, n: int, id: u64, scales: Map<u64, Bin>) -> bool {
    let s = cb_scan(events.take(n), scales);
    &&& s.latest.contains_key(id) ==> exists|b: int|
        #![trigger ends_lifetime(events, b, id)]
        b < n && ends_lifetime(events, b, id)
    &&& forall|b: int|
        b < n && #[trigger] ends_lifetime(events, b, id) && (forall|d: int|
            b < d < n ==> !#[trigger] ends_lifetime(events, d, id)) ==> s.latest.contains_key(id)
            && s.latest[id] == lifetimes(events, b)
}

proof fn lemma_latest(events: Seq<Event>, n: int, id: u64, scales: Map<u64, Bin>)
    requires
        0 <= n <= events.len(),
    ensures
        latest_ok(events, n, id, scales),
        cb_scan(events.take(n), scales).completed.len() == lifetimes(events, n),
    decreases n,
{
    if n == 0 {
        assert forall|b: int| b < 0 && #[trigger] ends_lifetime(events, b, id) implies false by {
            let a = choose|a: int| is_lifetime(events, a, b, id);
        }
    } else {
        let m = n - 1;
        lemma_latest(events, m, id, scales);
        lemma_prefix_step(events, m);
        lemma_cb_scan(events.take(m), scales);
        let s = cb_scan(events.take(m), scales);
        let t = cb_scan(events.take(n), scales);
        let e = events[m];
        if e.payload is MetalCbCompleted {
            let x = e.payload->MetalCbCompleted_cb_id;
            lemma_ends(events, m, x, scales);
        }
        if ends_lifetime(events, m, id) {
            let a = choose|a: int| is_lifetime(events, a, m, id);
            assert(completes_cb(e, id));
        }
        if t.latest.contains_key(id) && !ends_lifetime(events, m, id) {
            assert(s.latest.contains_key(id));
            let b = choose|b: int|
                #![trigger ends_lifetime(events, b, id)]
                b < m && ends_lifetime(events, b, id);
            assert(b < n && ends_lifetime(events, b, id));
        }
        assert forall|b: int|
            b < n && #[trigger] ends_lifetime(events, b, id) && (forall|d: int|
                b < d < n ==> !#[trigger] ends_lifetime(events, d, id)) implies
            t.latest.contains_key(id) && t.latest[id] == lifetimes(events, b) by {
            if b < m {
                assert(!ends_lifetime(events, m, id));
                assert(s.latest.contains_key(id) && s.latest[id] == lifetimes(events, b));
            }
        }
    }
}

proof fn lemma_count(events: Seq<Event>, n: int, scales: Map<u64, Bin>)
    requires
        0 <= n <= events.len(),
    ensures
        cb_scan(events.take(n), scales).completed.len() == lifetimes(events, n),
{
    lemma_latest(events, n, 0, scales);
}

proof fn lemma_last_end(events: Seq<Event>, n: int, id: u64) -> (b: int)
    requires
        0 <= n <= events.len(),
        exists|b: int|
            #![trigger ends_lifetime(events, b, id)]
            b < n && ends_lifetime(events, b, id),
    ensures
        0 <= b < n,
        ends_lifetime(events, b, id),
        forall|d: int| b < d < n ==> !#[trigger] ends_lifetime(events, d, id),
    decreases n,
{
    let x = choose|b: int|
        #![trigger ends_lifetime(events, b, id)]
        b < n && ends_lifetime(events, b, id);
    let a = choose|a: int| is_lifetime(events, a, x, id);
    if ends_lifetime(events, n - 1, id) {
        n - 1
    } else {
        assert(x < n - 1);
        lemma_last_end(events, n - 1, id)
    }
}

/// The lifetime that ends at `b`, just then.
proof fn lemma_lifetime_begins(events: Seq<Event>, b: int, id: u64, scales: Map<u64, Bin>)
    requires
        0 <= b < events.len(),
        ends_lifetime(events, b, id),
    ensures
        ({
            let c = cb_scan(events.take(b + 1), scales).completed[lifetimes(events, b) as int];
            &&& c.cb_id == id
            &&& c.in_flight_ns == events[b].payload->MetalCbCompleted_in_flight_ns
            &&& c.ops is None
            &&& forall|a: int| #[trigger]
                is_lifetime(events, a, b, id) ==> c.commit_ts == events[a].ts_mono_ns
        }),
{
    lemma_prefix_step(events, b);
    lemma_count(events, b, scales);
    let a0 = choose|a: int| is_lifetime(events, a, b, id);
    lemma_ends(events, b, id, scales);
    let c = cb_scan(events.take(b + 1), scales).completed[lifetimes(events, b) as int];
    assert forall|a: int| #[trigger] is_lifetime(events, a, b, id) implies c.commit_ts
        == events[a].ts_mono_ns by {
        lemma_opened(events, a, b, id, scales);
    }
}

/// What one event more does to a lifetime.
proof fn lemma_lifetime_step(events: Seq<Event>, b: int, m: int, id: u64, scales: Map<u64, Bin>)
    requires
        0 <= b < m < events.len(),
        ends_lifetime(events, b, id),
    ensures
        ({
            let p = lifetimes(events, b) as int;
            let c0 = cb_scan(events.take(m), scales).completed[p];
            let c = cb_scan(events.take(m + 1), scales).completed[p];
            &&& c.cb_id == c0.cb_id
            &&& c.commit_ts == c0.commit_ts
            &&& c.in_flight_ns == c0.in_flight_ns
            &&& !follows(events, b, m, id) ==> c == c0
            &&& follows(events, b, m, id) ==> c.ops is Some && are_kernels(
                c.ops->0,
                events[m],
                scales,
            )
        }),
{
    lemma_prefix_step(events, m);
    lemma_count(events, m, scales);
    lemma_lifetimes_grow(events, b, m, id);
    if events[m].payload is MetalCbOps {
        lemma_kernels(events[m], scales);
        lemma_cb_scan(events.take(m), scales);
        lemma_latest_place(events, b, m, id, scales);
    }
}

proof fn lemma_lifetime(events: Seq<Event>, b: int, n: int, id: u64, scales: Map<u64, Bin>)
    requires
        0 <= b < n <= events.len(),
        ends_lifetime(events, b, id),
    ensures
        lifetimes(events, b) < cb_scan(events.take(n), scales).completed.len(),
        lifetime_ok(
            events,
            b,
            n,
            id,
            cb_scan(events.take(n), scales).completed[lifetimes(events, b) as int],
            scales,
        ),
        forall|a: int| #[trigger]
            is_lifetime(events, a, b, id) ==> cb_scan(
                events.take(n),
                scales,
            ).completed[lifetimes(events, b) as int].commit_ts == events[a].ts_mono_ns,
    decreases n,
{
    lemma_count(events, n, scales);
    lemma_lifetimes_grow(events, b, n, id);
    if b == n - 1 {
        lemma_lifetime_begins(events, b, id, scales);
        lemma_last_follow(events, b, n, id);
    } else {
        lemma_lifetime(events, b, n - 1, id, scales);
        lemma_lifetime_step(events, b, n - 1, id, scales);
    }
}

/// Kernels find the lifetime that they follow, and no other.
proof fn lemma_latest_place(events: Seq<Event>, b: int, m: int, id: u64, scales: Map<u64, Bin>)
    requires
        0 <= b < m < events.len(),
        ends_lifetime(events, b, id),
        events[m].payload is MetalCbOps,
    ensures
        ({
            let s = cb_scan(events.take(m), scales);
            let x = events[m].payload->MetalCbOps_cb_id;
            follows(events, b, m, id) <==> x == id && s.latest.contains_key(x) && s.latest[x]
                == lifetimes(events, b)
        }),
        follows(events, b, m, id) ==> events[m].payload->MetalCbOps_cb_id == id,
        cb_scan(events.take(m), scales).latest.contains_key(
            events[m].payload->MetalCbOps_cb_id,
        ) && cb_scan(events.take(m), scales).latest[events[m].payload->MetalCbOps_cb_id]
            == lifetimes(events, b) ==> events[m].payload->MetalCbOps_cb_id == id,
{
    let s = cb_scan(events.take(m), scales);
    let x = events[m].payload->MetalCbOps_cb_id;
    lemma_latest(events, m, x, scales);
    if s.latest.contains_key(x) {
        let last = lemma_last_end(events, m, x);
        assert(s.latest[x] == lifetimes(events, last));
        if last < b {
            lemma_lifetimes_grow(events, last, b, x);
        } else if b < last {
            lemma_lifetimes_grow(events, b, last, id);
        } else {
            let u = choose|a: int| is_lifetime(events, a, b, id);
            let v = choose|a: int| is_lifetime(events, a, b, x);
            assert(x == id);
        }
    }
}

/// The completed command buffers of a stream are its lifetimes, one for each pair of a
/// commit and a completion, in the order of the completions.
pub proof fn buffers_are_commits_and_completions(events: Seq<Event>, a: int, b: int, id: u64)
    requires
        is_lifetime(events, a, b, id),
    ensures
        cbs_of(events).len() == lifetimes(events, events.len() as int),
        ({
            let c = cbs_of(events)[lifetimes(events, b) as int];
            &&& lifetimes(events, b) < cbs_of(events).len()
            &&& c.cb_id == id
            &&& c.commit_ts == events[a].ts_mono_ns
            &&& c.in_flight_ns == events[b].payload->MetalCbCompleted_in_flight_ns
        }),
{
    let n = events.len() as int;
    let scales = scales_of(events);
    assert(events.take(n) =~= events);
    assert(ends_lifetime(events, b, id));
    lemma_latest(events, n, id, scales);
    lemma_lifetime(events, b, n, id, scales);
}

/// Where no command buffer ever completes after a commit, there is none.
pub proof fn no_lifetimes_no_buffers(events: Seq<Event>)
    ensures
        cbs_of(events).len() == lifetimes(events, events.len() as int),
{
    assert(events.take(events.len() as int) =~= events);
    lemma_latest(events, events.len() as int, 0, scales_of(events));
}

/// A command buffer has the kernels that were sampled last after its completion and
/// before its next lifetime ends, their times clamped.
pub proof fn buffers_have_the_kernels_that_follow(events: Seq<Event>, b: int, c: int, id: u64)
    requires
        follows(events, b, c, id),
        forall|j: int| c < j < events.len() ==> !#[trigger] follows(events, b, j, id),
    ensures
        ({
            let buffer = cbs_of(events)[lifetimes(events, b) as int];
            buffer.ops is Some && are_kernels(buffer.ops->0, events[c], scales_of(events))
        }),
{
    let n = events.len() as int;
    assert(events.take(n) =~= events);
    lemma_lifetime(events, b, n, id, scales_of(events));
    lemma_last_follow(events, b, n, id);
}

/// A command buffer that no kernels follow has none.
pub proof fn buffers_without_samples_have_no_kernels(events: Seq<Event>, b: int, id: u64)
    requires
        0 <= b < events.len(),
        ends_lifetime(events, b, id),
        forall|j: int| j < events.len() ==> !#[trigger] follows(events, b, j, id),
    ensures
        cbs_of(events)[lifetimes(events, b) as int].ops is None,
{
    let n = events.len() as int;
    assert(events.take(n) =~= events);
    lemma_lifetime(events, b, n, id, scales_of(events));
    lemma_last_follow(events, b, n, id);
}

/// A session is sampled where any of its events samples kernels.
pub proof fn sampled_sessions_hold_samples(events: Seq<Event>)
    ensures
        sampled_of(events) <==> exists|i: int|
            0 <= i < events.len() && (#[trigger] events[i]).payload is MetalCbOps,
{
    lemma_sampled(events, scales_of(events));
}

proof fn lemma_sampled(events: Seq<Event>, scales: Map<u64, Bin>)
    ensures
        cb_scan(events, scales).sampled <==> exists|i: int|
            0 <= i < events.len() && (#[trigger] events[i]).payload is MetalCbOps,
    decreases events.len(),
{
    if events.len() > 0 {
        let rest = events.drop_last();
        lemma_sampled(rest, scales);
        if cb_scan(rest, scales).sampled {
            let i = choose|i: int|
                0 <= i < rest.len() && (#[trigger] rest[i]).payload is MetalCbOps;
            assert(events[i] == rest[i]);
        }
        if events.last().payload is MetalCbOps {
            assert(events[events.len() - 1].payload is MetalCbOps);
        }
        if exists|i: int| 0 <= i < events.len() && (#[trigger] events[i]).payload is MetalCbOps {
            let i = choose|i: int|
                0 <= i < events.len() && (#[trigger] events[i]).payload is MetalCbOps;
            if i < rest.len() {
                assert(rest[i].payload is MetalCbOps);
            }
        }
    }
}

/// Event `c` samples kernels of a command buffer of which nothing else was seen.
pub open spec fn is_stray(events: Seq<Event>, c: int, id: u64) -> bool {
    &&& 0 <= c < events.len()
    &&& samples_cb(events[c], id)
    &&& forall|d: int| d < c ==> !#[trigger] ends_lifetime(events, d, id)
    &&& forall|a: int| !#[trigger] cb_open_since(events, a, c, id)
}

/// `x` is the command buffer `id` of which only the kernels in `e` were seen.
pub open spec fn is_stray_buffer(x: CbView, e: Event, id: u64, scales: Map<u64, Bin>) -> bool {
    &&& x.cb_id == id
    &&& x.commit_ts == e.ts_mono_ns
    &&& x.in_flight_ns == 0
    &&& x.ops is Some
    &&& are_kernels(x.ops->0, e, scales)
}

/// Kernels of a command buffer of which nothing else was seen are kept, as if committed
/// when they arrived.
pub proof fn stray_kernels_are_kept(events: Seq<Event>, c: int, id: u64)
    requires
        is_stray(events, c, id),
    ensures
        exists|i: int|
            0 <= i < strays_of(events).len() && is_stray_buffer(
                #[trigger] strays_of(events)[i],
                events[c],
                id,
                scales_of(events),
            ),
{
    let n = events.len() as int;
    let scales = scales_of(events);
    assert(events.take(n) =~= events);
    lemma_stray(events, c, n, id, scales);
    let s = cb_scan(events, scales).stray;
    let i = choose|i: int|
        0 <= i < s.len() && is_stray_buffer(#[trigger] s[i], events[c], id, scales);
    assert(strays_of(events)[i] == s[i]);
}

proof fn lemma_stray(events: Seq<Event>, c: int, n: int, id: u64, scales: Map<u64, Bin>)
    requires
        is_stray(events, c, id),
        c < n <= events.len(),
    ensures
        exists|i: int|
            0 <= i < cb_scan(events.take(n), scales).stray.len() && is_stray_buffer(
                #[trigger] cb_scan(events.take(n), scales).stray[i],
                events[c],
                id,
                scales,
            ),
    decreases n,
{
    let m = n - 1;
    lemma_prefix_step(events, m);
    let s = cb_scan(events.take(m), scales).stray;
    let t = cb_scan(events.take(n), scales).stray;
    if m == c {
        lemma_latest(events, c, id, scales);
        lemma_open(events, c, id, scales);
        lemma_kernels(events[c], scales);
        let x = t[t.len() - 1];
        assert(is_stray_buffer(x, events[c], id, scales));
    } else {
        lemma_stray(events, c, m, id, scales);
        let i = choose|i: int|
            0 <= i < s.len() && is_stray_buffer(#[trigger] s[i], events[c], id, scales);
        assert(t[i] == s[i]);
    }
}

/// How many events sample kernels of a command buffer of which nothing else was seen.
pub open spec fn strays(events: Seq<Event>, n: int) -> nat
    decreases n,
{
    if n <= 0 {
        0
    } else {
        strays(events, n - 1) + if events[n - 1].payload is MetalCbOps && is_stray(
            events,
            n - 1,
            events[n - 1].payload->MetalCbOps_cb_id,
        ) {
            1nat
        } else {
            0
        }
    }
}

/// No other kernels are kept that way.
pub proof fn only_stray_kernels_are_kept(events: Seq<Event>)
    ensures
        strays_of(events).len() == strays(events, events.len() as int),
{
    let n = events.len() as int;
    assert(events.take(n) =~= events);
    lemma_stray_count(events, n, scales_of(events));
}

proof fn lemma_stray_count(events: Seq<Event>, n: int, scales: Map<u64, Bin>)
    requires
        0 <= n <= events.len(),
    ensures
        cb_scan(events.take(n), scales).stray.len() == strays(events, n),
    decreases n,
{
    if n > 0 {
        let m = n - 1;
        lemma_stray_count(events, m, scales);
        lemma_prefix_step(events, m);
        if let Payload::MetalCbOps { cb_id, .. } = events[m].payload {
            let s = cb_scan(events.take(m), scales);
            lemma_latest(events, m, cb_id, scales);
            lemma_open(events, m, cb_id, scales);
            if is_stray(events, m, cb_id) {
                if s.latest.contains_key(cb_id) {
                    let b = lemma_last_end(events, m, cb_id);
                }
            } else if !s.latest.contains_key(cb_id) && !s.committed.contains_key(cb_id) {
                assert forall|d: int| d < m implies !#[trigger] ends_lifetime(
                    events,
                    d,
                    cb_id,
                ) by {
                    if ends_lifetime(events, d, cb_id) {
                        let b = lemma_last_end(events, m, cb_id);
                    }
                }
                assert forall|a: int| !#[trigger] cb_open_since(events, a, m, cb_id) by {
                    if cb_open_since(events, a, m, cb_id) {
                        lemma_opened(events, a, m, cb_id, scales);
                    }
                }
            }
        }
    }
}

/// The event says that the command buffer `id` was scheduled.
pub open spec fn schedules_cb(e: Event, id: u64) -> bool {
    e.payload is MetalCbScheduled && e.payload->MetalCbScheduled_cb_id == id
}

/// The event completes a command buffer on the queue `q`.
pub open spec fn completes_on(e: Event, q: u64) -> bool {
    e.payload is MetalCbCompleted && e.payload->MetalCbCompleted_queue_id == q
}

proof fn lemma_scheduled(events: Seq<Event>, s: int, n: int, id: u64)
    requires
        0 <= s < n <= events.len(),
        schedules_cb(events[s], id),
        forall|j: int|
            s < j < n ==> !schedules_cb(#[trigger] events[j], id) && !completes_cb(events[j], id),
    ensures
        clamp_scan(events.take(n)).scheduled.contains_key(id),
        clamp_scan(events.take(n)).scheduled[id] == events[s].ts_mono_ns,
    decreases n,
{
    lemma_prefix_step(events, n - 1);
    if n - 1 > s {
        lemma_scheduled(events, s, n - 1, id);
        assert(!schedules_cb(events[n - 1], id) && !completes_cb(events[n - 1], id));
    }
}

proof fn lemma_queue_done(events: Seq<Event>, p: int, n: int, q: u64)
    requires
        0 <= n <= events.len(),
        p < n,
        forall|j: int| p < j < n && j >= 0 ==> !completes_on(#[trigger] events[j], q),
        p >= 0 ==> completes_on(events[p], q),
    ensures
        p < 0 ==> !clamp_scan(events.take(n)).queue_done.contains_key(q),
        p >= 0 ==> clamp_scan(events.take(n)).queue_done.contains_key(q) && clamp_scan(
            events.take(n),
        ).queue_done[q] == events[p].ts_mono_ns,
    decreases n,
{
    if n > 0 {
        lemma_prefix_step(events, n - 1);
        if n - 1 > p {
            lemma_queue_done(events, p, n - 1, q);
            assert(!completes_on(events[n - 1], q));
        }
    }
}

proof fn lemma_window_kept(events: Seq<Event>, d: int, n: int, id: u64)
    requires
        0 <= d < n <= events.len(),
        forall|j: int|
            d < j < n ==> !completes_cb(#[trigger] events[j], id) && !samples_cb(events[j], id),
    ensures
        clamp_scan(events.take(n)).window.contains_key(id) == clamp_scan(
            events.take(d + 1),
        ).window.contains_key(id),
        clamp_scan(events.take(n)).window[id] == clamp_scan(events.take(d + 1)).window[id]
            || !clamp_scan(events.take(n)).window.contains_key(id),
    decreases n,
{
    if n > d + 1 {
        lemma_prefix_step(events, n - 1);
        lemma_window_kept(events, d, n - 1, id);
        assert(!completes_cb(events[n - 1], id) && !samples_cb(events[n - 1], id));
    }
}

/// The window of a command buffer that was scheduled at `s` and completed at `d`, the
/// queue's previous completion being at `p` (none where `p` is negative), reaches from
/// the later of the scheduling and that completion to its own. Its kernels at `k` are
/// held against it.
pub proof fn windows_are_serialized(
    events: Seq<Event>,
    s: int,
    p: int,
    d: int,
    k: int,
    id: u64,
    q: u64,
)
    requires
        0 <= s < d < k < events.len(),
        p < d,
        schedules_cb(events[s], id),
        completes_cb(events[d], id),
        completes_on(events[d], q),
        samples_cb(events[k], id),
        p >= 0 ==> completes_on(events[p], q),
        forall|j: int|
            s < j < d ==> !schedules_cb(#[trigger] events[j], id) && !completes_cb(events[j], id),
        forall|j: int| p < j < d && j >= 0 ==> !completes_on(#[trigger] events[j], q),
        forall|j: int|
            d < j < k ==> !completes_cb(#[trigger] events[j], id) && !samples_cb(events[j], id),
    ensures
        ({
            let end = events[d].ts_mono_ns as int;
            let from = if p >= 0 && events[p].ts_mono_ns > events[s].ts_mono_ns {
                events[p].ts_mono_ns as int
            } else {
                events[s].ts_mono_ns as int
            };
            &&& window_of(events, k) is Some
            &&& window_of(events, k)->0 == if from < end {
                end - from
            } else {
                0
            }
        }),
{
    lemma_scheduled(events, s, d, id);
    lemma_queue_done(events, p, d, q);
    lemma_prefix_step(events, d);
    lemma_window_kept(events, d, k, id);
}

proof fn lemma_unscheduled(events: Seq<Event>, n: int, id: u64)
    requires
        0 <= n <= events.len(),
        forall|j: int| 0 <= j < n ==> !schedules_cb(#[trigger] events[j], id),
    ensures
        !clamp_scan(events.take(n)).scheduled.contains_key(id),
        !clamp_scan(events.take(n)).window.contains_key(id),
    decreases n,
{
    if n > 0 {
        lemma_prefix_step(events, n - 1);
        lemma_unscheduled(events, n - 1, id);
        assert(!schedules_cb(events[n - 1], id));
    }
}

/// A command buffer that was never seen scheduled has no window: its kernels keep their
/// times.
pub proof fn unscheduled_buffers_have_no_window(events: Seq<Event>, k: int, id: u64)
    requires
        0 <= k < events.len(),
        samples_cb(events[k], id),
        forall|j: int| 0 <= j < k ==> !schedules_cb(#[trigger] events[j], id),
    ensures
        window_of(events, k) is None,
{
    lemma_unscheduled(events, k, id);
}

} // verus!
