//! What the memory of a scope is, told by the events of its calls.

use crate::event::{lemma_prefix_step, Event, Payload};
use crate::gauges::{
    board, closed_all, drained, expired, moved, open_ids, readings, swap_removed, Board,
    DrainingView, Gauge, Reading, RunningView,
};
use crate::memory::{
    by_heap_bytes, by_reading_peak, heap_feed, heap_memory_of, heap_row, heaps, memory_of,
    sample_feed, HeapGauge, SampleGauge,
};
use crate::pairing::leaves_call;
use crate::peaks::{
    holds_at_least, larger_kept, larger_kept_stays_distinct, largest_record_stays, Sized64,
};
use crate::sort::{lemma_ordered_contains, ordered, ordered_is_in_order, ordered_is_permutation};
use crate::windows::{graced, last_position, lemma_last_position};
use vstd::prelude::*;

verus! {

/// No call id is entered twice.
pub open spec fn calls_apart(events: Seq<Event>) -> bool {
    forall|i: int, j: int|
        #![trigger events[i], events[j]]
        0 <= i < j < events.len() && events[i].payload is ModuleEntered
            && events[j].payload is ModuleEntered ==> call_of(events[i]) != call_of(events[j])
}

/// The id of the call that an event enters.
pub open spec fn call_of(e: Event) -> u64 {
    e.payload->ModuleEntered_module_call_id
}

/// The name of the module that an event enters.
pub open spec fn name_of(e: Event) -> Seq<char> {
    e.payload->ModuleEntered_qualname@
}

/// The call entered by event `a` first returns at event `b`, or never, where `b` is
/// the number of events.
pub open spec fn call_span(events: Seq<Event>, a: int, b: int) -> bool {
    &&& 0 <= a < b <= events.len()
    &&& events[a].payload is ModuleEntered
    &&& b < events.len() ==> leaves_call(events[b], call_of(events[a]))
    &&& forall|j: int| a < j < b ==> !leaves_call(#[trigger] events[j], call_of(events[a]))
}

/// Up to event `j` the grace after the return at `b` has not passed.
pub open spec fn in_grace(events: Seq<Event>, b: int, j: int) -> bool {
    forall|m: int| b <= m <= j ==> (#[trigger] events[m]).ts_mono_ns <= graced(events[b].ts_mono_ns)
}

/// Event `j` counts towards the call from `a` to `b`: it comes while the call is
/// open, or within the grace after its return.
pub open spec fn in_reach(events: Seq<Event>, a: int, b: int, j: int) -> bool {
    a <= j < events.len() && (j < b || in_grace(events, b, j))
}

/// The gauge of the call from `a` to `b`, after the first `n` events.
pub open spec fn call_gauge<G: Gauge>(
    events: Seq<Event>,
    feed: spec_fn(Seq<Event>) -> Option<(u64, u64)>,
    a: int,
    b: int,
    n: int,
) -> G
    decreases n,
{
    if n <= a || n <= 0 {
        G::fresh()
    } else {
        let g: G = call_gauge(events, feed, a, b, n - 1);
        match feed(events.take(n)) {
            Some(x) => if in_reach(events, a, b, n - 1) {
                g.fed(x.0, x.1)
            } else {
                g
            },
            None => g,
        }
    }
}

spec fn is_running<G: Gauge>(
    events: Seq<Event>,
    feed: spec_fn(Seq<Event>) -> Option<(u64, u64)>,
    r: RunningView<G>,
    n: int,
    a: int,
    b: int,
) -> bool {
    &&& call_span(events, a, b)
    &&& a < n <= b
    &&& r == RunningView {
        id: call_of(events[a]),
        qualname: name_of(events[a]),
        gauge: call_gauge::<G>(events, feed, a, b, n),
    }
}

spec fn is_draining<G: Gauge>(
    events: Seq<Event>,
    feed: spec_fn(Seq<Event>) -> Option<(u64, u64)>,
    d: DrainingView<G>,
    n: int,
    a: int,
    b: int,
) -> bool {
    &&& call_span(events, a, b)
    &&& b < n
    &&& in_grace(events, b, n - 1)
    &&& d == DrainingView {
        qualname: name_of(events[a]),
        gauge: call_gauge::<G>(events, feed, a, b, n),
        deadline_ns: graced(events[b].ts_mono_ns),
    }
}

/// A row is the reading of a call that is over.
spec fn is_row<G: Gauge>(
    events: Seq<Event>,
    feed: spec_fn(Seq<Event>) -> Option<(u64, u64)>,
    row: (Seq<char>, Reading),
    n: int,
    a: int,
    b: int,
) -> bool {
    &&& call_span(events, a, b)
    &&& b < n
    &&& !in_grace(events, b, n - 1)
    &&& row == (name_of(events[a]), call_gauge::<G>(events, feed, a, b, n).shown())
}

spec fn runs<G: Gauge>(
    events: Seq<Event>,
    feed: spec_fn(Seq<Event>) -> Option<(u64, u64)>,
    r: RunningView<G>,
    n: int,
) -> bool {
    exists|a: int, b: int| is_running(events, feed, r, n, a, b)
}

spec fn drains<G: Gauge>(
    events: Seq<Event>,
    feed: spec_fn(Seq<Event>) -> Option<(u64, u64)>,
    d: DrainingView<G>,
    n: int,
) -> bool {
    exists|a: int, b: int| is_draining(events, feed, d, n, a, b)
}

spec fn is_over<G: Gauge>(
    events: Seq<Event>,
    feed: spec_fn(Seq<Event>) -> Option<(u64, u64)>,
    row: (Seq<char>, Reading),
    n: int,
) -> bool {
    exists|a: int, b: int| is_row::<G>(events, feed, row, n, a, b)
}

spec fn all_running<G: Gauge>(
    events: Seq<Event>,
    feed: spec_fn(Seq<Event>) -> Option<(u64, u64)>,
    open: Seq<RunningView<G>>,
    n: int,
) -> bool {
    &&& forall|p: int|
        0 <= p < open.len() ==> runs(events, feed, #[trigger] open[p], n)
    &&& forall|p: int, q: int|
        0 <= p < q < open.len() ==> (#[trigger] open[p]).id != (#[trigger] open[q]).id
}

spec fn all_draining<G: Gauge>(
    events: Seq<Event>,
    feed: spec_fn(Seq<Event>) -> Option<(u64, u64)>,
    draining: Seq<DrainingView<G>>,
    n: int,
) -> bool {
    forall|p: int|
        0 <= p < draining.len() ==> drains(events, feed, #[trigger] draining[p], n)
}

spec fn all_rows<G: Gauge>(
    events: Seq<Event>,
    feed: spec_fn(Seq<Event>) -> Option<(u64, u64)>,
    rows: Seq<(Seq<char>, Reading)>,
    n: int,
) -> bool {
    forall|p: int|
        0 <= p < rows.len() ==> is_over::<G>(events, feed, #[trigger] rows[p], n)
}

/// Every call entered is on the board.
spec fn all_kept<G: Gauge>(
    events: Seq<Event>,
    feed: spec_fn(Seq<Event>) -> Option<(u64, u64)>,
    board: Board<G>,
    n: int,
) -> bool {
    forall|a: int, b: int|
        #![trigger call_span(events, a, b)]
        call_span(events, a, b) && a < n ==> {
            let g = call_gauge::<G>(events, feed, a, b, n);
            if n <= b {
                board.open.contains(
                    RunningView {
                        id: call_of(events[a]),
                        qualname: name_of(events[a]),
                        gauge: g,
                    },
                )
            } else if in_grace(events, b, n - 1) {
                board.draining.contains(
                    DrainingView {
                        qualname: name_of(events[a]),
                        gauge: g,
                        deadline_ns: graced(events[b].ts_mono_ns),
                    },
                )
            } else {
                holds_at_least(board.rows, name_of(events[a]), g.shown().peak)
            }
        }
}

spec fn board_ok<G: Gauge>(
    events: Seq<Event>,
    feed: spec_fn(Seq<Event>) -> Option<(u64, u64)>,
    b: Board<G>,
    n: int,
) -> bool {
    &&& all_running(events, feed, b.open, n)
    &&& all_draining(events, feed, b.draining, n)
    &&& all_rows::<G>(events, feed, b.rows, n)
    &&& all_kept(events, feed, b, n)
}

/// A row that stems from a gauge past its deadline.
spec fn row_of_expired<G: Gauge>(
    draining: Seq<DrainingView<G>>,
    row: (Seq<char>, Reading),
    now: u64,
) -> bool {
    exists|d: DrainingView<G>|
        #[trigger] draining.contains(d) && d.deadline_ns < now && row == (
            d.qualname,
            d.gauge.shown(),
        )
}

/// What sweeping does: it takes down exactly what is past its deadline.
proof fn lemma_expired<G: Gauge>(
    draining: Seq<DrainingView<G>>,
    rows: Seq<(Seq<char>, Reading)>,
    i: int,
    now: u64,
)
    requires
        0 <= i <= draining.len(),
        forall|k: int| 0 <= k < i ==> (#[trigger] draining[k]).deadline_ns >= now,
    ensures
        forall|d: DrainingView<G>| #[trigger]
            expired(draining, rows, i, now).0.contains(d) <==> draining.contains(d)
                && d.deadline_ns >= now,
        forall|n: Seq<char>, size: u64| #[trigger]
            holds_at_least(rows, n, size) ==> holds_at_least(
                expired(draining, rows, i, now).1,
                n,
                size,
            ),
        forall|d: DrainingView<G>| #[trigger]
            draining.contains(d) && d.deadline_ns < now ==> holds_at_least(
                expired(draining, rows, i, now).1,
                d.qualname,
                d.gauge.shown().peak,
            ),
        forall|x: (Seq<char>, Reading)| #[trigger]
            expired(draining, rows, i, now).1.contains(x) ==> rows.contains(x)
                || row_of_expired(draining, x, now),
    decreases draining.len() - i,
{
    let left = expired(draining, rows, i, now).0;
    let kept = expired(draining, rows, i, now).1;
    if i >= draining.len() {
        assert forall|d: DrainingView<G>| #[trigger] draining.contains(d) implies d.deadline_ns
            >= now by {
            let k = choose|k: int| 0 <= k < draining.len() && draining[k] == d;
            assert(draining[k].deadline_ns >= now);
        }
        assert(left == draining && kept == rows);
    } else if draining[i].deadline_ns < now {
        let x = draining[i];
        let rest = swap_removed(draining, i);
        let more = larger_kept(rows, x.qualname, x.gauge.shown());
        largest_record_stays(rows, x.qualname, x.gauge.shown());
        assert(draining.contains(x));
        assert(left == expired(rest, more, i, now).0);
        assert(kept == expired(rest, more, i, now).1);
        lemma_expired(rest, more, i, now);
        assert forall|d: DrainingView<G>| #[trigger] left.contains(d) <==> draining.contains(d)
            && d.deadline_ns >= now by {
            lemma_swap_removed(draining, i, d);
        }
        assert forall|d: DrainingView<G>| #[trigger] draining.contains(d) && d.deadline_ns
            < now implies holds_at_least(kept, d.qualname, d.gauge.shown().peak) by {
            lemma_swap_removed(draining, i, d);
            if d == x {
                assert(holds_at_least(more, x.qualname, x.gauge.shown().size_of()));
            } else {
                assert(rest.contains(d));
            }
        }
        assert forall|y: (Seq<char>, Reading)| #[trigger] kept.contains(y) implies rows.contains(y)
            || row_of_expired(draining, y, now) by {
            if more.contains(y) {
                let m = choose|m: int| 0 <= m < more.len() && more[m] == y;
                assert(more[m] == (x.qualname, x.gauge.shown()) || rows.contains(more[m]));
            } else {
                assert(row_of_expired(rest, y, now));
                let d = choose|d: DrainingView<G>|
                    #[trigger] rest.contains(d) && d.deadline_ns < now && y == (
                        d.qualname,
                        d.gauge.shown(),
                    );
                lemma_swap_removed(draining, i, d);
                assert(draining.contains(d));
            }
        }
    } else {
        assert(left == expired(draining, rows, i + 1, now).0);
        assert(kept == expired(draining, rows, i + 1, now).1);
        lemma_expired(draining, rows, i + 1, now);
        assert forall|d: DrainingView<G>| #[trigger] left.contains(d) <==> draining.contains(d)
            && d.deadline_ns >= now by {}
        assert forall|y: (Seq<char>, Reading)| #[trigger] kept.contains(y) implies rows.contains(y)
            || row_of_expired(draining, y, now) by {}
    }
}

proof fn lemma_swap_removed<A>(s: Seq<A>, i: int, x: A)
    requires
        0 <= i < s.len(),
    ensures
        swap_removed(s, i).contains(x) ==> s.contains(x),
        s.contains(x) && x != s[i] ==> swap_removed(s, i).contains(x),
{
    let r = swap_removed(s, i);
    if r.contains(x) {
        let k = choose|k: int| 0 <= k < r.len() && r[k] == x;
        if i == s.len() - 1 || k != i {
            assert(s[k] == x);
        } else {
            assert(s[s.len() - 1] == x);
        }
    }
    if s.contains(x) && x != s[i] {
        let k = choose|k: int| 0 <= k < s.len() && s[k] == x;
        if k == s.len() - 1 {
            assert(r[i] == x);
        } else {
            assert(r[k] == x);
        }
    }
}

proof fn lemma_grace_step(events: Seq<Event>, b: int, n: int)
    requires
        0 <= b < n < events.len(),
    ensures
        in_grace(events, b, n) == (in_grace(events, b, n - 1) && events[n].ts_mono_ns <= graced(
            events[b].ts_mono_ns,
        )),
{
    if in_grace(events, b, n) {
        assert(events[n].ts_mono_ns <= graced(events[b].ts_mono_ns));
        assert forall|m: int| b <= m <= n - 1 implies (#[trigger] events[m]).ts_mono_ns <= graced(
            events[b].ts_mono_ns,
        ) by {}
    }
}

/// Open calls after one event more.
#[verifier::spinoff_prover]
#[verifier::rlimit(40)]
proof fn lemma_open_step<G: Gauge>(
    events: Seq<Event>,
    feed: spec_fn(Seq<Event>) -> Option<(u64, u64)>,
    n: int,
)
    requires
        calls_apart(events),
        0 < n <= events.len(),
        board_ok(events, feed, board::<G>(events.take(n - 1), feed), n - 1),
    ensures
        all_running(events, feed, board::<G>(events.take(n), feed).open, n),
{
    let m = n - 1;
    lemma_prefix_step(events, m);
    let b: Board<G> = board(events.take(m), feed);
    let e = events[m];
    let left = expired(b.draining, b.rows, 0, e.ts_mono_ns).0;
    let kept = expired(b.draining, b.rows, 0, e.ts_mono_ns).1;
    let mid = moved(Board { open: b.open, draining: left, rows: kept }, e);
    let now: Board<G> = board(events.take(n), feed);
    lemma_expired(b.draining, b.rows, 0, e.ts_mono_ns);
    lemma_ids(b.open);
    if e.payload is ModuleReturned {
        lemma_last_position(open_ids(b.open), e.payload->ModuleReturned_module_call_id);
    }
    assert forall|p: int| 0 <= p < now.open.len() implies runs(events, feed, #[trigger] now.open[p], n) by {
        if p == mid.open.len() - 1 && e.payload is ModuleEntered {
            let c = lemma_return_of(events, m);
            assert(call_gauge::<G>(events, feed, m, c, m) == G::fresh());
            assert(is_running(events, feed, now.open[p], n, m, c));
        } else {
            let q = if e.payload is ModuleReturned && last_position(
                open_ids(b.open),
                e.payload->ModuleReturned_module_call_id,
            ) is Some && p >= last_position(
                open_ids(b.open),
                e.payload->ModuleReturned_module_call_id,
            )->0 {
                p + 1
            } else {
                p
            };
            assert(mid.open[p] == b.open[q]);
            assert(runs(events, feed, b.open[q], m));
                let (a, c) = choose|a: int, c: int| is_running(events, feed, b.open[q], m, a, c);
            assert(open_ids(b.open)[q] == b.open[q].id);
            if c == m {
                // Its return is this event, so it was taken off.
                assert(leaves_call(e, call_of(events[a])));
                let r = last_position(
                    open_ids(b.open),
                    e.payload->ModuleReturned_module_call_id,
                );
                assert(open_ids(b.open).contains(b.open[q].id));
                let k = r->0;
                assert(b.open[k].id == b.open[q].id);
                if k < q {
                    assert(b.open[k].id != b.open[q].id);
                } else {
                    assert(b.open[q].id != b.open[k].id);
                }
            }
            assert(is_running(events, feed, now.open[p], n, a, c));
        }
    }
    assert forall|p: int, q: int| 0 <= p < q < now.open.len() implies (
    #[trigger] now.open[p]).id != (#[trigger] now.open[q]).id by {
        assert(now.open[p].id == mid.open[p].id && now.open[q].id == mid.open[q].id);
        if e.payload is ModuleEntered && q == mid.open.len() - 1 {
            assert(runs(events, feed, b.open[p], m));
                let (a, c) = choose|a: int, c: int| is_running(events, feed, b.open[p], m, a, c);
            assert(call_of(events[a]) != call_of(events[m]));
        } else if e.payload is ModuleReturned {
            let r = last_position(
                open_ids(b.open),
                e.payload->ModuleReturned_module_call_id,
            );
            if r is Some {
                let k = r->0;
                let p0 = if p >= k {
                    p + 1
                } else {
                    p
                };
                let q0 = if q >= k {
                    q + 1
                } else {
                    q
                };
                assert(mid.open[p] == b.open[p0] && mid.open[q] == b.open[q0]);
                assert(b.open[p0].id != b.open[q0].id);
            } else {
                assert(b.open[p].id != b.open[q].id);
            }
        } else {
            assert(b.open[p].id != b.open[q].id);
        }
    }
}

/// Calls within their grace after one event more.
#[verifier::spinoff_prover]
#[verifier::rlimit(40)]
proof fn lemma_draining_step<G: Gauge>(
    events: Seq<Event>,
    feed: spec_fn(Seq<Event>) -> Option<(u64, u64)>,
    n: int,
)
    requires
        calls_apart(events),
        0 < n <= events.len(),
        board_ok(events, feed, board::<G>(events.take(n - 1), feed), n - 1),
    ensures
        all_draining(events, feed, board::<G>(events.take(n), feed).draining, n),
{
    let m = n - 1;
    lemma_prefix_step(events, m);
    let b: Board<G> = board(events.take(m), feed);
    let e = events[m];
    let left = expired(b.draining, b.rows, 0, e.ts_mono_ns).0;
    let kept = expired(b.draining, b.rows, 0, e.ts_mono_ns).1;
    let mid = moved(Board { open: b.open, draining: left, rows: kept }, e);
    let now: Board<G> = board(events.take(n), feed);
    lemma_expired(b.draining, b.rows, 0, e.ts_mono_ns);
    lemma_ids(b.open);
    if e.payload is ModuleReturned {
        lemma_last_position(open_ids(b.open), e.payload->ModuleReturned_module_call_id);
    }
    assert forall|p: int| 0 <= p < now.draining.len() implies drains(events, feed, #[trigger] now.draining[p], n) by {
        if p < left.len() {
            assert(left.contains(left[p]));
            assert(b.draining.contains(left[p]));
            let q = choose|q: int| 0 <= q < b.draining.len() && b.draining[q] == left[p];
            assert(drains(events, feed, b.draining[q], m));
                let (a, c) = choose|a: int, c: int| is_draining(events, feed, b.draining[q], m, a, c);
            lemma_grace_step(events, c, m);
            assert(is_draining(events, feed, now.draining[p], n, a, c));
        } else {
            let k = last_position(
                open_ids(b.open),
                e.payload->ModuleReturned_module_call_id,
            )->0;
            assert(open_ids(b.open)[k] == b.open[k].id);
            assert(runs(events, feed, b.open[k], m));
                let (a, c) = choose|a: int, c: int| is_running(events, feed, b.open[k], m, a, c);
            if c > m {
                assert(!leaves_call(events[m], call_of(events[a])));
            }
            assert(in_grace(events, m, m));
            assert(is_draining(events, feed, now.draining[p], n, a, c));
        }
    }
}

/// Calls that are over after one event more.
#[verifier::spinoff_prover]
#[verifier::rlimit(40)]
proof fn lemma_rows_step<G: Gauge>(
    events: Seq<Event>,
    feed: spec_fn(Seq<Event>) -> Option<(u64, u64)>,
    n: int,
)
    requires
        calls_apart(events),
        0 < n <= events.len(),
        board_ok(events, feed, board::<G>(events.take(n - 1), feed), n - 1),
    ensures
        all_rows::<G>(events, feed, board::<G>(events.take(n), feed).rows, n),
{
    let m = n - 1;
    lemma_prefix_step(events, m);
    let b: Board<G> = board(events.take(m), feed);
    let e = events[m];
    let left = expired(b.draining, b.rows, 0, e.ts_mono_ns).0;
    let kept = expired(b.draining, b.rows, 0, e.ts_mono_ns).1;
    let mid = moved(Board { open: b.open, draining: left, rows: kept }, e);
    let now: Board<G> = board(events.take(n), feed);
    lemma_expired(b.draining, b.rows, 0, e.ts_mono_ns);
    lemma_ids(b.open);
    if e.payload is ModuleReturned {
        lemma_last_position(open_ids(b.open), e.payload->ModuleReturned_module_call_id);
    }
    assert forall|p: int| 0 <= p < now.rows.len() implies is_over::<G>(events, feed, #[trigger] now.rows[p], n) by {
        assert(now.rows[p] == kept[p]);
        assert(kept.contains(kept[p]));
        if b.rows.contains(kept[p]) {
            let q = choose|q: int| 0 <= q < b.rows.len() && b.rows[q] == kept[p];
            assert(is_over::<G>(events, feed, b.rows[q], m));
                let (a, c) = choose|a: int, c: int| is_row::<G>(events, feed, b.rows[q], m, a, c);
            lemma_grace_step(events, c, m);
            assert(is_row::<G>(events, feed, now.rows[p], n, a, c));
        } else {
            assert(row_of_expired(b.draining, kept[p], e.ts_mono_ns));
            let d = choose|d: DrainingView<G>|
                #[trigger] b.draining.contains(d) && d.deadline_ns < e.ts_mono_ns && kept[p]
                    == (d.qualname, d.gauge.shown());
            let q = choose|q: int| 0 <= q < b.draining.len() && b.draining[q] == d;
            assert(drains(events, feed, b.draining[q], m));
                let (a, c) = choose|a: int, c: int| is_draining(events, feed, b.draining[q], m, a, c);
            lemma_grace_step(events, c, m);
            assert(is_row::<G>(events, feed, now.rows[p], n, a, c));
        }
    }
}

/// No call is lost by one event more.
#[verifier::spinoff_prover]
#[verifier::rlimit(40)]
proof fn lemma_kept_step<G: Gauge>(
    events: Seq<Event>,
    feed: spec_fn(Seq<Event>) -> Option<(u64, u64)>,
    n: int,
)
    requires
        calls_apart(events),
        0 < n <= events.len(),
        board_ok(events, feed, board::<G>(events.take(n - 1), feed), n - 1),
    ensures
        all_kept(events, feed, board::<G>(events.take(n), feed), n),
{
    let m = n - 1;
    lemma_prefix_step(events, m);
    let b: Board<G> = board(events.take(m), feed);
    let e = events[m];
    let left = expired(b.draining, b.rows, 0, e.ts_mono_ns).0;
    let kept = expired(b.draining, b.rows, 0, e.ts_mono_ns).1;
    let mid = moved(Board { open: b.open, draining: left, rows: kept }, e);
    let now: Board<G> = board(events.take(n), feed);
    lemma_expired(b.draining, b.rows, 0, e.ts_mono_ns);
    lemma_ids(b.open);
    if e.payload is ModuleReturned {
        lemma_last_position(open_ids(b.open), e.payload->ModuleReturned_module_call_id);
    }
    assert forall|a: int, c: int|
        #![trigger call_span(events, a, c)]
        call_span(events, a, c) && a < n implies {
        let g = call_gauge::<G>(events, feed, a, c, n);
        if n <= c {
            now.open.contains(
                RunningView {
                    id: call_of(events[a]),
                    qualname: name_of(events[a]),
                    gauge: g,
                },
            )
        } else if in_grace(events, c, n - 1) {
            now.draining.contains(
                DrainingView {
                    qualname: name_of(events[a]),
                    gauge: g,
                    deadline_ns: graced(events[c].ts_mono_ns),
                },
            )
        } else {
            holds_at_least(now.rows, name_of(events[a]), g.shown().peak)
        }
    } by {
        let g0 = call_gauge::<G>(events, feed, a, c, m);
        let g = call_gauge::<G>(events, feed, a, c, n);
        let id = call_of(events[a]);
        let name = name_of(events[a]);
        let was = RunningView { id, qualname: name, gauge: g0 };
        let run = RunningView { id, qualname: name, gauge: g };
        if a == m {
            assert(now.open[b.open.len() as int] == run);
        } else if n <= c {
            let q = choose|q: int| 0 <= q < b.open.len() && b.open[q] == was;
            assert(open_ids(b.open)[q] == id);
            if e.payload is ModuleReturned {
                let other = e.payload->ModuleReturned_module_call_id;
                assert(!leaves_call(events[m], id));
                match last_position(open_ids(b.open), other) {
                    Some(k) => {
                        assert(open_ids(b.open)[k] == b.open[k].id);
                        let p = if q > k {
                            q - 1
                        } else {
                            q
                        };
                        assert(mid.open[p] == was);
                        assert(now.open[p] == run);
                    },
                    None => {
                        assert(now.open[q] == run);
                    },
                }
            } else {
                assert(now.open[q] == run);
            }
        } else if c == m {
            let q = choose|q: int| 0 <= q < b.open.len() && b.open[q] == was;
            assert(open_ids(b.open)[q] == id);
            assert(open_ids(b.open).contains(id));
            let k = last_position(open_ids(b.open), id)->0;
            assert(b.open[k].id == id);
            if k < q {
                assert(b.open[k].id != b.open[q].id);
            } else if q < k {
                assert(b.open[q].id != b.open[k].id);
            }
            assert(in_grace(events, m, m));
            let d = DrainingView {
                qualname: name,
                gauge: g,
                deadline_ns: graced(events[c].ts_mono_ns),
            };
            assert(now.draining[left.len() as int] == d);
        } else {
            lemma_grace_step(events, c, m);
            let d0 = DrainingView {
                qualname: name,
                gauge: g0,
                deadline_ns: graced(events[c].ts_mono_ns),
            };
            let d = DrainingView {
                qualname: name,
                gauge: g,
                deadline_ns: graced(events[c].ts_mono_ns),
            };
            if in_grace(events, c, m) {
                assert(b.draining.contains(d0));
                assert(left.contains(d0));
                let q = choose|q: int| 0 <= q < left.len() && left[q] == d0;
                assert(mid.draining[q] == d0);
                assert(now.draining[q] == d);
            } else {
                assert(g == g0);
                if in_grace(events, c, m - 1) {
                    assert(b.draining.contains(d0));
                } else {
                    assert(holds_at_least(b.rows, name, g0.shown().peak));
                }
                assert(holds_at_least(kept, name, g.shown().peak));
            }
        }
    }
}

/// At every point of the stream the board shows the calls entered so far.
proof fn lemma_board<G: Gauge>(
    events: Seq<Event>,
    feed: spec_fn(Seq<Event>) -> Option<(u64, u64)>,
    n: int,
)
    requires
        calls_apart(events),
        0 <= n <= events.len(),
    ensures
        board_ok(events, feed, board::<G>(events.take(n), feed), n),
    decreases n,
{
    if n > 0 {
        lemma_board::<G>(events, feed, n - 1);
        lemma_open_step::<G>(events, feed, n);
        lemma_draining_step::<G>(events, feed, n);
        lemma_rows_step::<G>(events, feed, n);
        lemma_kept_step::<G>(events, feed, n);
    }
}

proof fn lemma_ids<G>(open: Seq<RunningView<G>>)
    ensures
        open_ids(open).len() == open.len(),
        forall|k: int| 0 <= k < open.len() ==> #[trigger] open_ids(open)[k] == open[k].id,
{
}

/// Every call has a first return, or none.
proof fn lemma_return_of(events: Seq<Event>, a: int) -> (b: int)
    requires
        0 <= a < events.len(),
        events[a].payload is ModuleEntered,
    ensures
        call_span(events, a, b),
{
    lemma_return_from(events, a, a + 1)
}

proof fn lemma_return_from(events: Seq<Event>, a: int, j: int) -> (b: int)
    requires
        0 <= a < j <= events.len(),
        events[a].payload is ModuleEntered,
        forall|i: int| a < i < j ==> !leaves_call(#[trigger] events[i], call_of(events[a])),
    ensures
        call_span(events, a, b),
    decreases events.len() - j,
{
    if j == events.len() || leaves_call(events[j], call_of(events[a])) {
        j
    } else {
        lemma_return_from(events, a, j + 1)
    }
}

/// A row is what the gauge of a call shows in the end.
pub open spec fn is_reading<G: Gauge>(
    events: Seq<Event>,
    feed: spec_fn(Seq<Event>) -> Option<(u64, u64)>,
    row: (Seq<char>, Reading),
    a: int,
    b: int,
) -> bool {
    &&& call_span(events, a, b)
    &&& row == (
        name_of(events[a]),
        call_gauge::<G>(events, feed, a, b, events.len() as int).shown(),
    )
}

/// A row is what the gauge of some call shows in the end.
pub open spec fn reads_call<G: Gauge>(
    events: Seq<Event>,
    feed: spec_fn(Seq<Event>) -> Option<(u64, u64)>,
    row: (Seq<char>, Reading),
) -> bool {
    exists|a: int, b: int| is_reading::<G>(events, feed, row, a, b)
}

proof fn lemma_drained<G: Gauge>(
    draining: Seq<DrainingView<G>>,
    rows: Seq<(Seq<char>, Reading)>,
    n: int,
)
    requires
        0 <= n <= draining.len(),
    ensures
        ({
            let now = drained(draining, rows, n);
            &&& forall|k: int|
                0 <= k < n ==> holds_at_least(
                    now,
                    (#[trigger] draining[k]).qualname,
                    draining[k].gauge.shown().peak,
                )
            &&& forall|m: Seq<char>, size: u64| #[trigger]
                holds_at_least(rows, m, size) ==> holds_at_least(now, m, size)
            &&& forall|i: int|
                0 <= i < now.len() ==> rows.contains(#[trigger] now[i]) || exists|k: int|
                    0 <= k < n && now[i] == (
                        (#[trigger] draining[k]).qualname,
                        draining[k].gauge.shown(),
                    )
        }),
    decreases n,
{
    if n > 0 {
        lemma_drained(draining, rows, n - 1);
        let before = drained(draining, rows, n - 1);
        let now = drained(draining, rows, n);
        let d = draining[n - 1];
        largest_record_stays(before, d.qualname, d.gauge.shown());
        assert forall|i: int| 0 <= i < now.len() implies rows.contains(#[trigger] now[i])
            || exists|k: int|
            0 <= k < n && now[i] == ((#[trigger] draining[k]).qualname, draining[k].gauge.shown()) by {
            if now[i] == (d.qualname, d.gauge.shown()) {
                assert(draining[n - 1] == d);
            } else {
                let j = choose|j: int| 0 <= j < before.len() && before[j] == now[i];
                if !rows.contains(before[j]) {
                    let k = choose|k: int|
                        0 <= k < n - 1 && before[j] == (
                            (#[trigger] draining[k]).qualname,
                            draining[k].gauge.shown(),
                        );
                    assert(now[i] == (draining[k].qualname, draining[k].gauge.shown()));
                }
            }
        }
    } else {
        assert forall|i: int| 0 <= i < rows.len() implies rows.contains(#[trigger] rows[i]) by {}
    }
}

proof fn lemma_closed_all<G: Gauge>(
    open: Seq<RunningView<G>>,
    rows: Seq<(Seq<char>, Reading)>,
    n: int,
)
    requires
        0 <= n <= open.len(),
    ensures
        ({
            let now = closed_all(open, rows, n);
            &&& forall|k: int|
                0 <= k < n ==> holds_at_least(
                    now,
                    (#[trigger] open[k]).qualname,
                    open[k].gauge.shown().peak,
                )
            &&& forall|m: Seq<char>, size: u64| #[trigger]
                holds_at_least(rows, m, size) ==> holds_at_least(now, m, size)
            &&& forall|i: int|
                0 <= i < now.len() ==> rows.contains(#[trigger] now[i]) || exists|k: int|
                    0 <= k < n && now[i] == (
                        (#[trigger] open[k]).qualname,
                        open[k].gauge.shown(),
                    )
        }),
    decreases n,
{
    if n > 0 {
        lemma_closed_all(open, rows, n - 1);
        let before = closed_all(open, rows, n - 1);
        let now = closed_all(open, rows, n);
        let d = open[n - 1];
        largest_record_stays(before, d.qualname, d.gauge.shown());
        assert forall|i: int| 0 <= i < now.len() implies rows.contains(#[trigger] now[i])
            || exists|k: int|
            0 <= k < n && now[i] == ((#[trigger] open[k]).qualname, open[k].gauge.shown()) by {
            if now[i] == (d.qualname, d.gauge.shown()) {
                assert(open[n - 1] == d);
            } else {
                let j = choose|j: int| 0 <= j < before.len() && before[j] == now[i];
                if !rows.contains(before[j]) {
                    let k = choose|k: int|
                        0 <= k < n - 1 && before[j] == (
                            (#[trigger] open[k]).qualname,
                            open[k].gauge.shown(),
                        );
                    assert(now[i] == (open[k].qualname, open[k].gauge.shown()));
                }
            }
        }
    } else {
        assert forall|i: int| 0 <= i < rows.len() implies rows.contains(#[trigger] rows[i]) by {}
    }
}

/// The readings of a session are readings of its calls, and no call has a larger
/// one than its name shows.
pub proof fn readings_are_the_largest_of_their_name<G: Gauge>(
    events: Seq<Event>,
    feed: spec_fn(Seq<Event>) -> Option<(u64, u64)>,
)
    requires
        calls_apart(events),
    ensures
        ({
            let rows = readings(board::<G>(events, feed));
            &&& forall|i: int|
                0 <= i < rows.len() ==> reads_call::<G>(events, feed, #[trigger] rows[i])
            &&& forall|a: int, b: int| #[trigger]
                call_span(events, a, b) ==> holds_at_least(
                    rows,
                    name_of(events[a]),
                    call_gauge::<G>(events, feed, a, b, events.len() as int).shown().peak,
                )
        }),
{
    let n = events.len() as int;
    assert(events.take(n) =~= events);
    lemma_board::<G>(events, feed, n);
    let bd: Board<G> = board(events, feed);
    let mid = drained(bd.draining, bd.rows, bd.draining.len() as int);
    let rows = readings(bd);
    lemma_drained(bd.draining, bd.rows, bd.draining.len() as int);
    lemma_closed_all(bd.open, mid, bd.open.len() as int);
    assert forall|i: int| 0 <= i < rows.len() implies reads_call::<G>(events, feed, #[trigger] rows[i]) by {
        if mid.contains(rows[i]) {
            let j = choose|j: int| 0 <= j < mid.len() && mid[j] == rows[i];
            if bd.rows.contains(mid[j]) {
                let k = choose|k: int| 0 <= k < bd.rows.len() && bd.rows[k] == mid[j];
                assert(is_over::<G>(events, feed, bd.rows[k], n));
                let (a, b) = choose|a: int, b: int| is_row::<G>(events, feed, bd.rows[k], n, a, b);
                assert(is_reading::<G>(events, feed, rows[i], a, b));
            } else {
                let k = choose|k: int|
                    0 <= k < bd.draining.len() && mid[j] == (
                        (#[trigger] bd.draining[k]).qualname,
                        bd.draining[k].gauge.shown(),
                    );
                assert(drains(events, feed, bd.draining[k], n));
                let (a, b) = choose|a: int, b: int| is_draining(events, feed, bd.draining[k], n, a, b);
                assert(is_reading::<G>(events, feed, rows[i], a, b));
            }
        } else {
            let k = choose|k: int|
                0 <= k < bd.open.len() && rows[i] == (
                    (#[trigger] bd.open[k]).qualname,
                    bd.open[k].gauge.shown(),
                );
            assert(runs(events, feed, bd.open[k], n));
                let (a, b) = choose|a: int, b: int| is_running(events, feed, bd.open[k], n, a, b);
            assert(is_reading::<G>(events, feed, rows[i], a, b));
        }
    }
    assert forall|a: int, b: int| #[trigger] call_span(events, a, b) implies holds_at_least(
        rows,
        name_of(events[a]),
        call_gauge::<G>(events, feed, a, b, n).shown().peak,
    ) by {
        let g = call_gauge::<G>(events, feed, a, b, n);
        if n <= b {
            let r = RunningView { id: call_of(events[a]), qualname: name_of(events[a]), gauge: g };
            assert(bd.open.contains(r));
            let k = choose|k: int| 0 <= k < bd.open.len() && bd.open[k] == r;
            assert(bd.open[k].qualname == name_of(events[a]));
        } else if in_grace(events, b, n - 1) {
            let d = DrainingView {
                qualname: name_of(events[a]),
                gauge: g,
                deadline_ns: graced(events[b].ts_mono_ns),
            };
            assert(bd.draining.contains(d));
            let k = choose|k: int| 0 <= k < bd.draining.len() && bd.draining[k] == d;
            assert(bd.draining[k].qualname == name_of(events[a]));
            assert(holds_at_least(mid, name_of(events[a]), g.shown().peak));
        } else {
            assert(holds_at_least(bd.rows, name_of(events[a]), g.shown().peak));
            assert(holds_at_least(mid, name_of(events[a]), g.shown().peak));
        }
    }
}

/// No name has two rows.
pub open spec fn names_apart<T>(rows: Seq<(Seq<char>, T)>) -> bool {
    forall|i: int, j: int|
        0 <= i < j < rows.len() ==> (#[trigger] rows[i]).0 != (#[trigger] rows[j]).0
}

proof fn lemma_expired_apart<G: Gauge>(
    draining: Seq<DrainingView<G>>,
    rows: Seq<(Seq<char>, Reading)>,
    i: int,
    now: u64,
)
    requires
        names_apart(rows),
        0 <= i <= draining.len(),
    ensures
        names_apart(expired(draining, rows, i, now).1),
    decreases draining.len() - i,
{
    if i < draining.len() {
        let d = draining[i];
        if d.deadline_ns < now {
            let more = larger_kept(rows, d.qualname, d.gauge.shown());
            larger_kept_stays_distinct(rows, d.qualname, d.gauge.shown());
            assert(names_apart(more));
            lemma_expired_apart(swap_removed(draining, i), more, i, now);
        } else {
            lemma_expired_apart(draining, rows, i + 1, now);
        }
    }
}

proof fn lemma_board_apart<G: Gauge>(
    events: Seq<Event>,
    feed: spec_fn(Seq<Event>) -> Option<(u64, u64)>,
)
    ensures
        names_apart(board::<G>(events, feed).rows),
    decreases events.len(),
{
    if events.len() > 0 {
        lemma_board_apart::<G>(events.drop_last(), feed);
        let b: Board<G> = board(events.drop_last(), feed);
        lemma_expired_apart(b.draining, b.rows, 0, events.last().ts_mono_ns);
    }
}

proof fn lemma_drained_apart<G: Gauge>(
    draining: Seq<DrainingView<G>>,
    rows: Seq<(Seq<char>, Reading)>,
    n: int,
)
    requires
        names_apart(rows),
    ensures
        names_apart(drained(draining, rows, n)),
    decreases n,
{
    if 0 < n <= draining.len() {
        lemma_drained_apart(draining, rows, n - 1);
        let d = draining[n - 1];
        larger_kept_stays_distinct(
            drained(draining, rows, n - 1),
            d.qualname,
            d.gauge.shown(),
        );
    }
}

proof fn lemma_closed_apart<G: Gauge>(
    open: Seq<RunningView<G>>,
    rows: Seq<(Seq<char>, Reading)>,
    n: int,
)
    requires
        names_apart(rows),
    ensures
        names_apart(closed_all(open, rows, n)),
    decreases n,
{
    if 0 < n <= open.len() {
        lemma_closed_apart(open, rows, n - 1);
        let d = open[n - 1];
        larger_kept_stays_distinct(closed_all(open, rows, n - 1), d.qualname, d.gauge.shown());
    }
}

/// Each name has one reading.
pub proof fn readings_are_one_per_name<G: Gauge>(
    events: Seq<Event>,
    feed: spec_fn(Seq<Event>) -> Option<(u64, u64)>,
)
    ensures
        names_apart(readings(board::<G>(events, feed))),
{
    let b: Board<G> = board(events, feed);
    lemma_board_apart::<G>(events, feed);
    lemma_drained_apart(b.draining, b.rows, b.draining.len() as int);
    lemma_closed_apart(
        b.open,
        drained(b.draining, b.rows, b.draining.len() as int),
        b.open.len() as int,
    );
}

/// The event samples the device's memory while the call from `a` to `b` counts.
pub open spec fn samples_call(events: Seq<Event>, a: int, b: int, j: int) -> bool {
    in_reach(events, a, b, j) && events[j].payload is MetalDeviceMemSample
}

/// The samples that count towards the call from `a` to `b`, among the first `n`
/// events.
pub open spec fn call_samples(events: Seq<Event>, a: int, b: int, n: int) -> Seq<u64>
    decreases n,
{
    if n <= 0 {
        seq![]
    } else if samples_call(events, a, b, n - 1) {
        call_samples(events, a, b, n - 1).push(
            events[n - 1].payload->MetalDeviceMemSample_allocated_bytes,
        )
    } else {
        call_samples(events, a, b, n - 1)
    }
}

/// All numbers of a list together.
pub open spec fn total_of(s: Seq<u64>) -> nat
    decreases s.len(),
{
    if s.len() == 0 {
        0
    } else {
        total_of(s.drop_last()) + s.last() as nat
    }
}

/// A reading tells the largest, the last, the number and the rounded-down average of
/// a list of samples, and zeros of none.
pub open spec fn tells(r: Reading, s: Seq<u64>) -> bool {
    &&& r.count == s.len()
    &&& s.len() == 0 ==> r.peak == 0 && r.avg == 0 && r.end == 0
    &&& s.len() > 0 ==> {
        &&& s.contains(r.peak)
        &&& forall|k: int| 0 <= k < s.len() ==> #[trigger] s[k] <= r.peak
        &&& r.end == s[s.len() - 1]
        &&& r.avg * s.len() <= total_of(s) < (r.avg + 1) * s.len()
    }
}

proof fn lemma_samples_hold(events: Seq<Event>, a: int, b: int, n: int, j: int)
    requires
        0 <= j < n <= events.len(),
        samples_call(events, a, b, j),
    ensures
        call_samples(events, a, b, n).contains(
            events[j].payload->MetalDeviceMemSample_allocated_bytes,
        ),
    decreases n,
{
    let x = events[j].payload->MetalDeviceMemSample_allocated_bytes;
    let all = call_samples(events, a, b, n);
    if j == n - 1 {
        assert(all[all.len() - 1] == x);
    } else {
        lemma_samples_hold(events, a, b, n - 1, j);
        let rest = call_samples(events, a, b, n - 1);
        let k = choose|k: int| 0 <= k < rest.len() && rest[k] == x;
        assert(all[k] == x);
    }
}

proof fn lemma_total_bound(s: Seq<u64>)
    ensures
        total_of(s) <= s.len() * u64::MAX,
    decreases s.len(),
{
    if s.len() > 0 {
        lemma_total_bound(s.drop_last());
        assert(s.len() * u64::MAX == (s.len() - 1) * u64::MAX + u64::MAX) by (nonlinear_arith);
    }
}

proof fn lemma_sample_gauge(events: Seq<Event>, a: int, b: int, n: int)
    requires
        0 <= a,
        0 <= n <= events.len() <= u64::MAX,
    ensures
        ({
            let g = call_gauge::<SampleGauge>(events, sample_feed(), a, b, n);
            let s = call_samples(events, a, b, n);
            &&& g.count == s.len() <= n
            &&& g.sum == total_of(s)
            &&& s.len() == 0 ==> g.peak == 0 && g.last == 0
            &&& s.len() > 0 ==> {
                &&& s.contains(g.peak)
                &&& forall|k: int| 0 <= k < s.len() ==> #[trigger] s[k] <= g.peak
                &&& g.last == s[s.len() - 1]
            }
        }),
    decreases n,
{
    if n > 0 {
        lemma_sample_gauge(events, a, b, n - 1);
        let g0 = call_gauge::<SampleGauge>(events, sample_feed(), a, b, n - 1);
        let g = call_gauge::<SampleGauge>(events, sample_feed(), a, b, n);
        let s0 = call_samples(events, a, b, n - 1);
        let s = call_samples(events, a, b, n);
        assert(events.take(n).last() == events[n - 1]);
        lemma_total_bound(s0);
        if samples_call(events, a, b, n - 1) {
            let x = events[n - 1].payload->MetalDeviceMemSample_allocated_bytes;
            assert(s.drop_last() =~= s0);
            assert(g0.sum + x <= u128::MAX) by (nonlinear_arith)
                requires
                    g0.sum <= s0.len() * u64::MAX,
                    s0.len() < u64::MAX,
                    x <= u64::MAX,
            ;
            assert(s[s.len() - 1] == x);
            if g.peak == x {
                assert(s.contains(x));
            } else {
                let k = choose|k: int| 0 <= k < s0.len() && s0[k] == g0.peak;
                assert(s[k] == g0.peak);
            }
            assert forall|k: int| 0 <= k < s.len() implies #[trigger] s[k] <= g.peak by {
                if k < s0.len() {
                    assert(s[k] == s0[k]);
                }
            }
        }
    } else {
        assert(call_samples(events, a, b, 0).len() == 0);
    }
}

proof fn lemma_reading_tells(events: Seq<Event>, a: int, b: int)
    requires
        0 <= a,
        events.len() <= u64::MAX,
    ensures
        ({
            let n = events.len() as int;
            tells(
                call_gauge::<SampleGauge>(events, sample_feed(), a, b, n).shown(),
                call_samples(events, a, b, n),
            )
        }),
{
    let n = events.len() as int;
    let g = call_gauge::<SampleGauge>(events, sample_feed(), a, b, n);
    let s = call_samples(events, a, b, n);
    lemma_sample_gauge(events, a, b, n);
    lemma_total_bound(s);
    if s.len() > 0 {
        let (t, c) = (total_of(s) as int, s.len() as int);
        let q = t / c;
        vstd::arithmetic::div_mod::lemma_fundamental_div_mod(t, c);
        assert(0 <= q <= u64::MAX && q * c <= t < (q + 1) * c) by (nonlinear_arith)
            requires
                t == c * q + t % c,
                0 <= t % c < c,
                c > 0,
                0 <= t <= c * u64::MAX,
        ;
        assert(g.shown().avg == q);
    }
}

/// A row tells the samples of the call from `a` to `b` under its name.
pub open spec fn tells_call(
    events: Seq<Event>,
    row: (Seq<char>, Reading),
    a: int,
    b: int,
) -> bool {
    &&& call_span(events, a, b)
    &&& row.0 == name_of(events[a])
    &&& tells(row.1, call_samples(events, a, b, events.len() as int))
}

/// A row tells the samples of some call under its name.
pub open spec fn tells_a_call(events: Seq<Event>, row: (Seq<char>, Reading)) -> bool {
    exists|a: int, b: int| tells_call(events, row, a, b)
}

/// Device memory per scope: one row for each name, the largest peak first, and each
/// row tells the samples of a call of that name: their peak, average, last and
/// number.
pub proof fn memory_rows_tell_calls(events: Seq<Event>)
    requires
        calls_apart(events),
        events.len() <= u64::MAX,
    ensures
        names_apart(memory_of(events)),
        forall|i: int|
            0 <= i < memory_of(events).len() ==> tells_a_call(
                events,
                #[trigger] memory_of(events)[i],
            ),
        forall|i: int, j: int|
            0 <= i < j < memory_of(events).len() ==> (#[trigger] memory_of(events)[i]).1.peak >= (
            #[trigger] memory_of(events)[j]).1.peak,
{
    let all = readings(board::<SampleGauge>(events, sample_feed()));
    let rows = memory_of(events);
    let lt = by_reading_peak();
    readings_are_the_largest_of_their_name::<SampleGauge>(events, sample_feed());
    readings_are_one_per_name::<SampleGauge>(events, sample_feed());
    assert(crate::sort::strict_weak(lt));
    ordered_is_in_order(all, lt);
    lemma_ordered_names(all, lt);
    assert forall|i: int, j: int| 0 <= i < j < rows.len() implies (#[trigger] rows[i]).1.peak >= (
    #[trigger] rows[j]).1.peak by {
        assert(!lt(rows[j], rows[i]));
    }
    assert forall|i: int| 0 <= i < rows.len() implies tells_a_call(events, #[trigger] rows[i]) by {
        assert(rows.contains(rows[i]));
        lemma_ordered_contains(all, lt, rows[i]);
        let k = choose|k: int| 0 <= k < all.len() && all[k] == rows[i];
        assert(reads_call::<SampleGauge>(events, sample_feed(), all[k]));
        let (a, b) = choose|a: int, b: int|
            is_reading::<SampleGauge>(events, sample_feed(), all[k], a, b);
        lemma_reading_tells(events, a, b);
        assert(tells_call(events, rows[i], a, b));
    }
}

proof fn lemma_memory_row(events: Seq<Event>, a: int, b: int)
    requires
        calls_apart(events),
        call_span(events, a, b),
    ensures
        holds_at_least(
            memory_of(events),
            name_of(events[a]),
            call_gauge::<SampleGauge>(
                events,
                sample_feed(),
                a,
                b,
                events.len() as int,
            ).shown().peak,
        ),
{
    let all = readings(board::<SampleGauge>(events, sample_feed()));
    let rows = memory_of(events);
    let name = name_of(events[a]);
    let size = call_gauge::<SampleGauge>(
        events,
        sample_feed(),
        a,
        b,
        events.len() as int,
    ).shown().peak;
    readings_are_the_largest_of_their_name::<SampleGauge>(events, sample_feed());
    assert(holds_at_least(all, name, size));
    let k = choose|k: int|
        0 <= k < all.len() && (#[trigger] all[k]).0 == name && all[k].1.size_of() >= size;
    assert(all.contains(all[k]));
    lemma_ordered_contains(all, by_reading_peak(), all[k]);
    let i = choose|i: int| 0 <= i < rows.len() && rows[i] == all[k];
    assert(rows[i].0 == name);
}

/// Every scope that is entered has a row, and no sample that counts towards any of
/// its calls exceeds the peak that the row tells.
pub proof fn memory_peaks_are_never_exceeded(events: Seq<Event>, a: int, b: int)
    requires
        calls_apart(events),
        events.len() <= u64::MAX,
        call_span(events, a, b),
    ensures
        holds_at_least(memory_of(events), name_of(events[a]), 0),
        forall|j: int| #[trigger]
            samples_call(events, a, b, j) ==> holds_at_least(
                memory_of(events),
                name_of(events[a]),
                events[j].payload->MetalDeviceMemSample_allocated_bytes,
            ),
{
    let n = events.len() as int;
    let rows = memory_of(events);
    let name = name_of(events[a]);
    let g = call_gauge::<SampleGauge>(events, sample_feed(), a, b, n);
    let s = call_samples(events, a, b, n);
    lemma_memory_row(events, a, b);
    lemma_sample_gauge(events, a, b, n);
    let i = choose|i: int|
        0 <= i < rows.len() && (#[trigger] rows[i]).0 == name && rows[i].1.size_of()
            >= g.shown().peak;
    assert(rows[i].0 == name);
    assert forall|j: int| #[trigger] samples_call(events, a, b, j) implies holds_at_least(
        rows,
        name,
        events[j].payload->MetalDeviceMemSample_allocated_bytes,
    ) by {
        lemma_samples_hold(events, a, b, n, j);
        let x = events[j].payload->MetalDeviceMemSample_allocated_bytes;
        let k = choose|k: int| 0 <= k < s.len() && s[k] == x;
        assert(s[k] <= g.peak);
        assert(rows[i].1.size_of() >= x);
    }
}

proof fn lemma_ordered_names<T>(
    s: Seq<(Seq<char>, T)>,
    lt: spec_fn((Seq<char>, T), (Seq<char>, T)) -> bool,
)
    requires
        names_apart(s),
    ensures
        names_apart(ordered(s, lt)),
{
    let o = ordered(s, lt);
    assert(s.no_duplicates()) by {
        assert forall|i: int, j: int| 0 <= i < s.len() && 0 <= j < s.len() && i != j implies s[i]
            != s[j] by {
            if i < j {
                assert(s[i].0 != s[j].0);
            } else {
                assert(s[j].0 != s[i].0);
            }
        }
    }
    crate::sort::lemma_ordered_no_duplicates(s, lt);
    assert forall|i: int, j: int| 0 <= i < j < o.len() implies (#[trigger] o[i]).0 != (
    #[trigger] o[j]).0 by {
        assert(o.contains(o[i]) && o.contains(o[j]));
        lemma_ordered_contains(s, lt, o[i]);
        lemma_ordered_contains(s, lt, o[j]);
        let a = choose|a: int| 0 <= a < s.len() && s[a] == o[i];
        let b = choose|b: int| 0 <= b < s.len() && s[b] == o[j];
        assert(o[i] != o[j]);
        if a < b {
            assert(s[a].0 != s[b].0);
        } else {
            assert(s[b].0 != s[a].0);
        }
    }
}

/// The event changes the live heaps, or enters a module, while the call from `a` to
/// `b` counts.
pub open spec fn weighs_call(events: Seq<Event>, a: int, b: int, j: int) -> bool {
    in_reach(events, a, b, j) && (events[j].payload is ModuleEntered
        || events[j].payload is MetalHeapAlloc || events[j].payload is MetalHeapFree)
}

/// The bytes of the heaps that are live after the first `n` events.
pub open spec fn live_bytes(events: Seq<Event>, n: int) -> int {
    heaps(events.take(n)).bytes
}

/// The number of the heaps that are live after the first `n` events.
pub open spec fn live_count(events: Seq<Event>, n: int) -> nat {
    heaps(events.take(n)).live.len()
}

proof fn lemma_heap_gauge(events: Seq<Event>, a: int, b: int, n: int)
    requires
        0 <= a,
        0 <= n <= events.len() <= u32::MAX,
        crate::memory::heaps_fit(events),
    ensures
        ({
            let g = call_gauge::<HeapGauge>(events, heap_feed(), a, b, n);
            &&& forall|j: int|
                0 <= j < n && #[trigger] weighs_call(events, a, b, j) ==> live_bytes(events, j + 1)
                    <= g.peak_bytes && live_count(events, j + 1) <= g.peak_count
            &&& g.peak_bytes > 0 ==> exists|j: int|
                0 <= j < n && #[trigger] weighs_call(events, a, b, j) && live_bytes(events, j + 1)
                    == g.peak_bytes
            &&& g.peak_count > 0 ==> exists|j: int|
                0 <= j < n && #[trigger] weighs_call(events, a, b, j) && live_count(events, j + 1)
                    == g.peak_count
        }),
    decreases n,
{
    if n > 0 {
        lemma_heap_gauge(events, a, b, n - 1);
        crate::memory::lemma_heaps(events.take(n));
        assert(events.take(n).last() == events[n - 1]);
        assert(heaps(events.take(n)).bytes <= u64::MAX);
        let g0 = call_gauge::<HeapGauge>(events, heap_feed(), a, b, n - 1);
        let g = call_gauge::<HeapGauge>(events, heap_feed(), a, b, n);
        let (x, y) = (live_count(events, n), live_bytes(events, n));
        assert(x <= events.take(n).len());
        if weighs_call(events, a, b, n - 1) {
            assert(g == g0.fed(x as u64, y as u64));
            assert(x as u64 as u32 == x);
            if g.peak_bytes > 0 && g.peak_bytes == g0.peak_bytes {
                let j = choose|j: int|
                    0 <= j < n - 1 && #[trigger] weighs_call(events, a, b, j) && live_bytes(
                        events,
                        j + 1,
                    ) == g0.peak_bytes;
                assert(weighs_call(events, a, b, j));
            }
            if g.peak_count > 0 && g.peak_count == g0.peak_count {
                let j = choose|j: int|
                    0 <= j < n - 1 && #[trigger] weighs_call(events, a, b, j) && live_count(
                        events,
                        j + 1,
                    ) == g0.peak_count;
                assert(weighs_call(events, a, b, j));
            }
        } else {
            assert(g == g0);
        }
    }
}

/// A row tells the heaps of the call from `a` to `b` under its name: the most bytes
/// and the most heaps that were live while the call counts.
pub open spec fn tells_heaps(events: Seq<Event>, row: (Seq<char>, u32, u64), a: int, b: int) -> bool {
    &&& call_span(events, a, b)
    &&& row.0 == name_of(events[a])
    &&& forall|j: int| #[trigger]
        weighs_call(events, a, b, j) ==> live_bytes(events, j + 1) <= row.2 && live_count(
            events,
            j + 1,
        ) <= row.1
    &&& row.2 > 0 ==> exists|j: int| #[trigger]
        weighs_call(events, a, b, j) && live_bytes(events, j + 1) == row.2
    &&& row.1 > 0 ==> exists|j: int| #[trigger]
        weighs_call(events, a, b, j) && live_count(events, j + 1) == row.1
}

/// A row tells the heaps of some call under its name.
pub open spec fn tells_some_heaps(events: Seq<Event>, row: (Seq<char>, u32, u64)) -> bool {
    exists|a: int, b: int| tells_heaps(events, row, a, b)
}

/// Live heaps per scope: the largest first. A row tells the peaks of a call of its
/// name, and at no point that counts towards any call of the name are more bytes live
/// than the row tells.
pub proof fn heap_rows_tell_the_largest_call(events: Seq<Event>)
    requires
        calls_apart(events),
        events.len() <= u32::MAX,
        crate::memory::heaps_fit(events),
    ensures
        ({
            let rows = heap_memory_of(events);
            &&& forall|i: int| 0 <= i < rows.len() ==> tells_some_heaps(events, #[trigger] rows[i])
            &&& forall|a: int, b: int, j: int| #[trigger]
                call_span(events, a, b) && #[trigger] weighs_call(events, a, b, j) ==> exists|
                    i: int,
                |
                    0 <= i < rows.len() && (#[trigger] rows[i]).0 == name_of(events[a])
                        && rows[i].2 >= live_bytes(events, j + 1)
            &&& forall|i: int, j: int|
                0 <= i < j < rows.len() ==> (#[trigger] rows[i]).2 >= (#[trigger] rows[j]).2
            &&& forall|i: int, j: int|
                0 <= i < j < rows.len() ==> (#[trigger] rows[i]).0 != (#[trigger] rows[j]).0
        }),
{
    let n = events.len() as int;
    let all = readings(board::<HeapGauge>(events, heap_feed()));
    let f = |r: (Seq<char>, Reading)| heap_row(r);
    let mapped = all.map_values(f);
    let rows = heap_memory_of(events);
    let lt = by_heap_bytes();
    readings_are_the_largest_of_their_name::<HeapGauge>(events, heap_feed());
    readings_are_one_per_name::<HeapGauge>(events, heap_feed());
    ordered_is_permutation(mapped, lt);
    assert(crate::sort::strict_weak(lt));
    ordered_is_in_order(mapped, lt);
    assert forall|i: int, j: int| 0 <= i < j < rows.len() implies (#[trigger] rows[i]).2 >= (
    #[trigger] rows[j]).2 by {
        assert(!lt(rows[j], rows[i]));
    }
    assert(mapped.no_duplicates()) by {
        assert forall|i: int, j: int| 0 <= i < mapped.len() && 0 <= j < mapped.len() && i
            != j implies mapped[i] != mapped[j] by {
            if i < j {
                assert(all[i].0 != all[j].0);
            } else {
                assert(all[j].0 != all[i].0);
            }
        }
    }
    crate::sort::lemma_ordered_no_duplicates(mapped, lt);
    assert forall|i: int, j: int| 0 <= i < j < rows.len() implies (#[trigger] rows[i]).0 != (
    #[trigger] rows[j]).0 by {
        assert(rows.contains(rows[i]) && rows.contains(rows[j]));
        lemma_ordered_contains(mapped, lt, rows[i]);
        lemma_ordered_contains(mapped, lt, rows[j]);
        let a = choose|a: int| 0 <= a < mapped.len() && mapped[a] == rows[i];
        let b = choose|b: int| 0 <= b < mapped.len() && mapped[b] == rows[j];
        assert(rows[i] != rows[j]);
        if a < b {
            assert(all[a].0 != all[b].0);
        } else {
            assert(all[b].0 != all[a].0);
        }
    }
    assert forall|i: int| 0 <= i < rows.len() implies tells_some_heaps(
        events,
        #[trigger] rows[i],
    ) by {
        assert(rows.contains(rows[i]));
        lemma_ordered_contains(mapped, lt, rows[i]);
        let k = choose|k: int| 0 <= k < mapped.len() && mapped[k] == rows[i];
        assert(reads_call::<HeapGauge>(events, heap_feed(), all[k]));
        let (a, b) = choose|a: int, b: int|
            is_reading::<HeapGauge>(events, heap_feed(), all[k], a, b);
        lemma_heap_gauge(events, a, b, n);
        assert forall|j: int| #[trigger] weighs_call(events, a, b, j) implies live_bytes(
            events,
            j + 1,
        ) <= rows[i].2 && live_count(events, j + 1) <= rows[i].1 by {}
        assert(tells_heaps(events, rows[i], a, b));
    }
    assert forall|a: int, b: int, j: int| #[trigger] call_span(events, a, b)
        && #[trigger] weighs_call(events, a, b, j) implies exists|i: int|
        0 <= i < rows.len() && (#[trigger] rows[i]).0 == name_of(events[a]) && rows[i].2
            >= live_bytes(events, j + 1) by {
        let g = call_gauge::<HeapGauge>(events, heap_feed(), a, b, n);
        lemma_heap_gauge(events, a, b, n);
        let size = g.shown().peak;
        assert(holds_at_least(all, name_of(events[a]), size));
        let k = choose|k: int|
            0 <= k < all.len() && (#[trigger] all[k]).0 == name_of(events[a])
                && all[k].1.size_of() >= size;
        assert(mapped.contains(mapped[k]));
        lemma_ordered_contains(mapped, lt, mapped[k]);
        let i = choose|i: int| 0 <= i < rows.len() && rows[i] == mapped[k];
        assert(rows[i].0 == name_of(events[a]));
    }
}

/// The event allocates or frees the heap `id`.
pub open spec fn touches_heap(e: Event, id: u64) -> bool {
    match e.payload {
        Payload::MetalHeapAlloc { heap_id, .. } => heap_id == id,
        Payload::MetalHeapFree { heap_id } => heap_id == id,
        _ => false,
    }
}

/// A heap is live where the last word on it is its allocation, with the size that
/// gave it.
pub proof fn heaps_live_until_they_are_freed(events: Seq<Event>, a: int, id: u64)
    requires
        0 <= a < events.len(),
        touches_heap(events[a], id),
        forall|j: int| a < j < events.len() ==> !touches_heap(#[trigger] events[j], id),
    ensures
        events[a].payload matches Payload::MetalHeapAlloc { size_bytes, .. } ==> {
            &&& heaps(events).live.contains_key(id)
            &&& heaps(events).live[id] == size_bytes
        },
        events[a].payload is MetalHeapFree ==> !heaps(events).live.contains_key(id),
    decreases events.len(),
{
    if a < events.len() - 1 {
        let rest = events.drop_last();
        assert(!touches_heap(events[events.len() - 1], id));
        assert forall|j: int| a < j < rest.len() implies !touches_heap(#[trigger] rest[j], id) by {
            assert(rest[j] == events[j]);
        }
        heaps_live_until_they_are_freed(rest, a, id);
    }
}

/// A heap that was never allocated nor freed is not live.
pub proof fn unknown_heaps_are_not_live(events: Seq<Event>, id: u64)
    requires
        forall|j: int| 0 <= j < events.len() ==> !touches_heap(#[trigger] events[j], id),
    ensures
        !heaps(events).live.contains_key(id),
    decreases events.len(),
{
    if events.len() > 0 {
        let rest = events.drop_last();
        assert(!touches_heap(events[events.len() - 1], id));
        assert forall|j: int| 0 <= j < rest.len() implies !touches_heap(#[trigger] rest[j], id) by {
            assert(rest[j] == events[j]);
        }
        unknown_heaps_are_not_live(rest, id);
    }
}

} // verus!
