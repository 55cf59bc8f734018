//! What the windows of a stream are, told by the events that open and close them.

use crate::event::{lemma_prefix_step, Event, Payload, StackFrame};
use crate::sort::{lemma_ordered_contains, ordered_is_in_order, ordered_is_permutation};
use crate::text::{after_last, dec};
use crate::windows::{
    eval_scan, evals_by_entry, evals_of, graced, last_position, last_ts, lemma_last_position,
    lemma_scope_scan, malformed_returns_of, scope_scan, scopes_by_entry, scopes_of, top_frame_text,
    EvalView, ScopeView,
};
use vstd::prelude::*;

verus! {

/// The grace is half a second, and never leads past the end of time.
pub proof fn grace_is_half_a_second(ts: u64)
    ensures
        ts + 500_000_000 <= u64::MAX ==> graced(ts) == ts + 500_000_000,
        ts + 500_000_000 > u64::MAX ==> graced(ts) == u64::MAX,
{
}

/// An eval is told by the first captured frame, whatever stands behind it: by the
/// name of its file and its line.
pub proof fn evals_are_told_by_their_first_frame(frames: Seq<StackFrame>)
    ensures
        frames.len() == 0 ==> top_frame_text(frames) is None,
        frames.len() > 0 ==> {
            &&& top_frame_text(frames) == top_frame_text(frames.take(1))
            &&& top_frame_text(frames) == Some(
                after_last(frames[0].filename@, '/') + seq![':'] + dec(frames[0].lineno as int),
            )
        },
{
    reveal_strlit(":");
    assert(":"@ =~= seq![':']);
}

/// The event enters the eval `id`.
pub open spec fn enters_eval(e: Event, id: u64) -> bool {
    e.payload is MlxEvalEntered && e.payload->MlxEvalEntered_call_id == id
}

/// The event returns from the eval `id`.
pub open spec fn leaves_eval(e: Event, id: u64) -> bool {
    e.payload is MlxEvalReturned && e.payload->MlxEvalReturned_call_id == id
}

/// Up to event `n` the latest word on the eval `id` is its entry at `a`.
pub open spec fn eval_open_since(events: Seq<Event>, a: int, n: int, id: u64) -> bool {
    &&& 0 <= a < n <= events.len()
    &&& enters_eval(events[a], id)
    &&& forall|j: int|
        a < j < n ==> !enters_eval(#[trigger] events[j], id) && !leaves_eval(events[j], id)
}

/// `w` is the window of the eval entered by `enter` and left by `leave`.
pub open spec fn is_eval_window(w: EvalView, enter: Event, leave: Event) -> bool {
    &&& w.t_in == enter.ts_mono_ns
    &&& w.seq == enter.seq
    &&& w.module_stack == enter.payload->MlxEvalEntered_module_stack@
    &&& w.top_frame == top_frame_text(enter.payload->MlxEvalEntered_stack_frames@)
    &&& if !leave.payload->MlxEvalReturned_was_async {
        w.t_out == leave.ts_mono_ns
    } else if leave.ts_mono_ns + 500_000_000 <= u64::MAX {
        w.t_out == leave.ts_mono_ns + 500_000_000
    } else {
        w.t_out == u64::MAX
    }
}

proof fn lemma_eval_open(events: Seq<Event>, n: int, id: u64)
    requires
        0 <= n <= events.len(),
    ensures
        eval_scan(events.take(n)).open.contains_key(id) ==> exists|a: int|
            eval_open_since(events, a, n, id),
    decreases n,
{
    if n > 0 {
        lemma_eval_open(events, n - 1, id);
        lemma_prefix_step(events, n - 1);
        let e = events[n - 1];
        if eval_scan(events.take(n)).open.contains_key(id) {
            if enters_eval(e, id) {
                assert(eval_open_since(events, n - 1, n, id));
            } else {
                assert(eval_scan(events.take(n - 1)).open.contains_key(id));
                let m = n - 1;
                let a = choose|a: int| eval_open_since(events, a, m, id);
                assert(eval_open_since(events, a, n, id));
            }
        }
    }
}

proof fn lemma_eval_opened(events: Seq<Event>, a: int, n: int, id: u64)
    requires
        eval_open_since(events, a, n, id),
    ensures
        ({
            let open = eval_scan(events.take(n)).open;
            let e = events[a];
            &&& open.contains_key(id)
            &&& open[id].t_in == e.ts_mono_ns
            &&& open[id].seq == e.seq
            &&& open[id].module_stack == e.payload->MlxEvalEntered_module_stack@
            &&& open[id].top_frame == top_frame_text(e.payload->MlxEvalEntered_stack_frames@)
        }),
    decreases n,
{
    lemma_prefix_step(events, n - 1);
    if n - 1 > a {
        assert(eval_open_since(events, a, n - 1, id));
        lemma_eval_opened(events, a, n - 1, id);
        let e = events[n - 1];
        assert(!enters_eval(e, id) && !leaves_eval(e, id));
    }
}

/// Event `b` returns from the eval that event `a` entered.
pub open spec fn is_eval_pair(events: Seq<Event>, a: int, b: int) -> bool {
    &&& 0 <= a < b < events.len()
    &&& leaves_eval(events[b], events[a].payload->MlxEvalEntered_call_id)
    &&& eval_open_since(events, a, b, events[a].payload->MlxEvalEntered_call_id)
}

/// Event `b` returns from an eval that was entered.
pub open spec fn ends_eval(events: Seq<Event>, b: int) -> bool {
    exists|a: int| is_eval_pair(events, a, b)
}

/// How many of the first `n` events return from an eval that was entered.
pub open spec fn returned_evals(events: Seq<Event>, n: int) -> nat
    decreases n,
{
    if n <= 0 {
        0
    } else {
        returned_evals(events, n - 1) + if ends_eval(events, n - 1) {
            1nat
        } else {
            0
        }
    }
}

proof fn lemma_eval_closed(events: Seq<Event>, n: int)
    requires
        0 <= n <= events.len(),
    ensures
        eval_scan(events.take(n)).closed.len() == returned_evals(events, n),
        forall|i: int|
            0 <= i < eval_scan(events.take(n)).closed.len() ==> exists|a: int, b: int|
                #![trigger events[a], events[b]]
                b < n && is_eval_pair(events, a, b) && is_eval_window(
                    #[trigger] eval_scan(events.take(n)).closed[i],
                    events[a],
                    events[b],
                ),
    decreases n,
{
    if n > 0 {
        let b = n - 1;
        lemma_eval_closed(events, b);
        lemma_prefix_step(events, b);
        let s = eval_scan(events.take(b));
        let t = eval_scan(events.take(n));
        let e = events[b];
        if e.payload is MlxEvalReturned {
            let id = e.payload->MlxEvalReturned_call_id;
            if s.open.contains_key(id) {
                lemma_eval_open(events, b, id);
                let a = choose|a: int| eval_open_since(events, a, b, id);
                lemma_eval_opened(events, a, b, id);
                assert(is_eval_pair(events, a, b));
                assert(is_eval_window(t.closed[t.closed.len() - 1], events[a], events[b]));
            } else if ends_eval(events, b) {
                let a = choose|a: int| is_eval_pair(events, a, b);
                lemma_eval_opened(events, a, b, id);
            }
        }
        assert forall|i: int| 0 <= i < t.closed.len() implies exists|a: int, b: int|
            #![trigger events[a], events[b]]
            b < n && is_eval_pair(events, a, b) && is_eval_window(
                #[trigger] t.closed[i],
                events[a],
                events[b],
            ) by {
            if i < s.closed.len() {
                assert(t.closed[i] == s.closed[i]);
                let (a, c) = choose|a: int, c: int|
                    #![trigger events[a], events[c]]
                    c < n - 1 && is_eval_pair(events, a, c) && is_eval_window(
                        s.closed[i],
                        events[a],
                        events[c],
                    );
                assert(is_eval_window(t.closed[i], events[a], events[c]));
            } else {
                let id = e.payload->MlxEvalReturned_call_id;
                let a = choose|a: int| eval_open_since(events, a, b, id);
                assert(is_eval_window(t.closed[i], events[a], events[b]));
            }
        }
    }
}

proof fn lemma_eval_pair_closed(events: Seq<Event>, a: int, b: int, n: int)
    requires
        is_eval_pair(events, a, b),
        b < n <= events.len(),
    ensures
        exists|i: int|
            0 <= i < eval_scan(events.take(n)).closed.len() && is_eval_window(
                #[trigger] eval_scan(events.take(n)).closed[i],
                events[a],
                events[b],
            ),
    decreases n,
{
    lemma_prefix_step(events, n - 1);
    let s = eval_scan(events.take(n - 1));
    let t = eval_scan(events.take(n));
    if n == b + 1 {
        lemma_eval_opened(events, a, b, events[a].payload->MlxEvalEntered_call_id);
        assert(is_eval_window(t.closed[t.closed.len() - 1], events[a], events[b]));
    } else {
        lemma_eval_pair_closed(events, a, b, n - 1);
        let i = choose|i: int|
            0 <= i < s.closed.len() && is_eval_window(
                #[trigger] s.closed[i],
                events[a],
                events[b],
            );
        assert(t.closed[i] == s.closed[i]);
    }
}

/// The eval windows of a stream are those of the evals that were entered and left,
/// one for each, in the order of their entries: from the entry to the return, and
/// half a second longer where the eval was asynchronous.
pub proof fn eval_windows_are_entries_and_returns(events: Seq<Event>)
    ensures
        evals_of(events).len() == returned_evals(events, events.len() as int),
        forall|i: int|
            0 <= i < evals_of(events).len() ==> exists|a: int, b: int|
                #![trigger events[a], events[b]]
                is_eval_pair(events, a, b) && is_eval_window(
                    #[trigger] evals_of(events)[i],
                    events[a],
                    events[b],
                ),
        forall|a: int, b: int| #[trigger]
            is_eval_pair(events, a, b) ==> exists|i: int|
                0 <= i < evals_of(events).len() && is_eval_window(
                    #[trigger] evals_of(events)[i],
                    events[a],
                    events[b],
                ),
        forall|i: int, j: int|
            0 <= i < j < evals_of(events).len() ==> (#[trigger] evals_of(events)[i]).t_in <= (
            #[trigger] evals_of(events)[j]).t_in,
{
    let n = events.len() as int;
    assert(events.take(n) =~= events);
    lemma_eval_closed(events, n);
    let s = eval_scan(events).closed;
    let o = evals_of(events);
    ordered_is_permutation(s, evals_by_entry());
    assert(crate::sort::strict_weak(evals_by_entry()));
    ordered_is_in_order(s, evals_by_entry());
    assert forall|i: int, j: int| 0 <= i < j < o.len() implies (#[trigger] o[i]).t_in <= (
    #[trigger] o[j]).t_in by {
        assert(!evals_by_entry()(o[j], o[i]));
    }
    assert forall|i: int| 0 <= i < o.len() implies exists|a: int, b: int|
        #![trigger events[a], events[b]]
        is_eval_pair(events, a, b) && is_eval_window(#[trigger] o[i], events[a], events[b]) by {
        assert(o.contains(o[i]));
        lemma_ordered_contains(s, evals_by_entry(), o[i]);
        let k = choose|k: int| 0 <= k < s.len() && s[k] == o[i];
        let (a, b) = choose|a: int, b: int|
            #![trigger events[a], events[b]]
            b < n && is_eval_pair(events, a, b) && is_eval_window(s[k], events[a], events[b]);
        assert(is_eval_window(o[i], events[a], events[b]));
    }
    assert forall|a: int, b: int| #[trigger] is_eval_pair(events, a, b) implies exists|i: int|
        0 <= i < o.len() && is_eval_window(#[trigger] o[i], events[a], events[b]) by {
        lemma_eval_pair_closed(events, a, b, n);
        let k = choose|k: int|
            0 <= k < s.len() && is_eval_window(#[trigger] s[k], events[a], events[b]);
        assert(s.contains(s[k]));
        lemma_ordered_contains(s, evals_by_entry(), s[k]);
        let i = choose|i: int| 0 <= i < o.len() && o[i] == s[k];
        assert(is_eval_window(o[i], events[a], events[b]));
    }
}

/// The event enters the module call `id`.
pub open spec fn enters_call(e: Event, id: u64) -> bool {
    e.payload is ModuleEntered && e.payload->ModuleEntered_module_call_id == id
}

/// The event returns from the module call `id`.
pub open spec fn leaves_call(e: Event, id: u64) -> bool {
    e.payload is ModuleReturned && e.payload->ModuleReturned_module_call_id == id
}

/// The call `id` is entered once, by event `a`.
pub open spec fn entered_once(events: Seq<Event>, a: int, id: u64) -> bool {
    &&& 0 <= a < events.len()
    &&& enters_call(events[a], id)
    &&& forall|j: int| 0 <= j < events.len() && j != a ==> !enters_call(#[trigger] events[j], id)
}

/// `w` is a window of the call that `enter` enters, up to `t`.
pub open spec fn is_scope_window(w: ScopeView, enter: Event, t: u64) -> bool {
    &&& w.t_in == enter.ts_mono_ns
    &&& w.t_out == t
    &&& w.call_id == enter.payload->ModuleEntered_module_call_id
    &&& w.qualname == enter.payload->ModuleEntered_qualname@
}

/// How many of the first `n` events enter a module.
pub open spec fn entries(events: Seq<Event>, n: int) -> nat
    decreases n,
{
    if n <= 0 {
        0
    } else {
        entries(events, n - 1) + if events[n - 1].payload is ModuleEntered {
            1nat
        } else {
            0
        }
    }
}

/// Before a call is entered nothing is known of it.
proof fn lemma_call_unknown(events: Seq<Event>, n: int, end: u64, id: u64)
    requires
        0 <= n <= events.len(),
        forall|j: int| 0 <= j < n ==> !enters_call(#[trigger] events[j], id),
    ensures
        !scope_scan(events.take(n), end).index.contains_key(id),
        !scope_scan(events.take(n), end).open.contains(id),
    decreases n,
{
    if n > 0 {
        lemma_call_unknown(events, n - 1, end, id);
        lemma_prefix_step(events, n - 1);
        lemma_scope_scan(events.take(n - 1), end);
        let s = scope_scan(events.take(n - 1), end);
        let t = scope_scan(events.take(n), end);
        assert(!enters_call(events[n - 1], id));
        if t.open.contains(id) {
            lemma_open_from(s.open, t.open, events.take(n - 1), events[n - 1], end, id);
        }
    }
}

/// What is open after an event was open before it, or is entered by it.
proof fn lemma_open_from(
    before: Seq<u64>,
    after: Seq<u64>,
    prefix: Seq<Event>,
    e: Event,
    end: u64,
    id: u64,
)
    requires
        before == scope_scan(prefix, end).open,
        after == crate::windows::scope_step(scope_scan(prefix, end), e, end).open,
        !enters_call(e, id),
        after.contains(id),
    ensures
        before.contains(id),
{
    let k = choose|k: int| 0 <= k < after.len() && after[k] == id;
    match e.payload {
        Payload::ModuleReturned { module_call_id } => {
            lemma_last_position(before, module_call_id);
            match last_position(before, module_call_id) {
                Some(p) => {
                    if k < p {
                        assert(before[k] == id);
                    } else {
                        assert(before[k + 1] == id);
                    }
                },
                None => {
                    assert(before[k] == id);
                },
            }
        },
        _ => {
            assert(before[k] == id);
        },
    }
}

/// How often `id` is open.
spec fn times_open(open: Seq<u64>, id: u64) -> nat
    decreases open.len(),
{
    if open.len() == 0 {
        0
    } else {
        times_open(open.drop_last(), id) + if open.last() == id {
            1nat
        } else {
            0
        }
    }
}

proof fn lemma_times_removed(open: Seq<u64>, p: int, id: u64)
    requires
        0 <= p < open.len(),
    ensures
        times_open(open.remove(p), id) + (if open[p] == id {
            1nat
        } else {
            0
        }) == times_open(open, id),
    decreases open.len(),
{
    if p == open.len() - 1 {
        assert(open.remove(p) =~= open.drop_last());
    } else {
        lemma_times_removed(open.drop_last(), p, id);
        assert(open.remove(p).drop_last() =~= open.drop_last().remove(p));
    }
}

proof fn lemma_times_open(open: Seq<u64>, id: u64)
    ensures
        open.contains(id) == (times_open(open, id) > 0),
    decreases open.len(),
{
    if open.len() > 0 {
        let rest = open.drop_last();
        lemma_times_open(rest, id);
        if open.contains(id) && open.last() != id {
            let k = choose|k: int| 0 <= k < open.len() && open[k] == id;
            assert(rest[k] == id);
        }
        if rest.contains(id) {
            let k = choose|k: int| 0 <= k < rest.len() && rest[k] == id;
            assert(open[k] == id);
        }
        if open.last() == id {
            assert(open[open.len() - 1] == id);
        }
    }
}

/// A call that is entered once is open until its first return, and its window is
/// the one of its entry.
proof fn lemma_call_window(events: Seq<Event>, a: int, b: int, n: int, end: u64, id: u64)
    requires
        entered_once(events, a, id),
        a < n <= events.len(),
        a < b <= events.len(),
        b < events.len() ==> leaves_call(events[b], id),
        forall|j: int| a < j < b ==> !leaves_call(#[trigger] events[j], id),
    ensures
        ({
            let s = scope_scan(events.take(n), end);
            let i = s.index[id];
            &&& s.index.contains_key(id)
            &&& 0 <= i < s.windows.len()
            &&& times_open(s.open, id) == (if n <= b {
                1nat
            } else {
                0
            })
            &&& is_scope_window(
                s.windows[i],
                events[a],
                if n <= b {
                    end
                } else {
                    events[b].ts_mono_ns
                },
            )
        }),
    decreases n,
{
    lemma_prefix_step(events, n - 1);
    let prefix = events.take(n - 1);
    let s = scope_scan(prefix, end);
    let t = scope_scan(events.take(n), end);
    let e = events[n - 1];
    if n == a + 1 {
        lemma_call_unknown(events, a, end, id);
        lemma_times_open(s.open, id);
        assert(t.open.drop_last() =~= s.open);
    } else {
        lemma_call_window(events, a, b, n - 1, end, id);
        lemma_scope_scan(prefix, end);
        assert(!enters_call(e, id));
        lemma_times_open(s.open, id);
        match e.payload {
            Payload::ModuleEntered { module_call_id, .. } => {
                assert(t.open.drop_last() =~= s.open);
            },
            Payload::ModuleReturned { module_call_id } => {
                lemma_last_position(s.open, module_call_id);
                if let Some(p) = last_position(s.open, module_call_id) {
                    lemma_times_removed(s.open, p, id);
                    assert(s.index.contains_key(s.open[p]));
                    if module_call_id != id {
                        assert(s.windows[s.index[module_call_id]].call_id == module_call_id);
                    }
                }
                if n - 1 < b {
                    assert(module_call_id != id);
                }
            },
            _ => {},
        }
    }
}

proof fn lemma_windows_are_entries(events: Seq<Event>, n: int, end: u64)
    requires
        0 <= n <= events.len(),
    ensures
        scope_scan(events.take(n), end).windows.len() == entries(events, n),
        forall|i: int|
            0 <= i < scope_scan(events.take(n), end).windows.len() ==> exists|a: int|
                #![trigger events[a]]
                0 <= a < n && events[a].payload is ModuleEntered && is_scope_window(
                    #[trigger] scope_scan(events.take(n), end).windows[i],
                    events[a],
                    scope_scan(events.take(n), end).windows[i].t_out,
                ),
    decreases n,
{
    if n > 0 {
        lemma_windows_are_entries(events, n - 1, end);
        lemma_prefix_step(events, n - 1);
        lemma_scope_scan(events.take(n - 1), end);
        let s = scope_scan(events.take(n - 1), end);
        let t = scope_scan(events.take(n), end);
        let e = events[n - 1];
        if let Payload::ModuleReturned { module_call_id } = e.payload {
            lemma_last_position(s.open, module_call_id);
            if let Some(p) = last_position(s.open, module_call_id) {
                assert(s.index.contains_key(s.open[p]));
            }
        }
        assert forall|i: int| 0 <= i < t.windows.len() implies exists|a: int|
            #![trigger events[a]]
            0 <= a < n && events[a].payload is ModuleEntered && is_scope_window(
                #[trigger] t.windows[i],
                events[a],
                t.windows[i].t_out,
            ) by {
            if i < s.windows.len() {
                let a = choose|a: int|
                    #![trigger events[a]]
                    0 <= a < n - 1 && events[a].payload is ModuleEntered && is_scope_window(
                        s.windows[i],
                        events[a],
                        s.windows[i].t_out,
                    );
                assert(is_scope_window(t.windows[i], events[a], t.windows[i].t_out));
            } else {
                assert(is_scope_window(t.windows[i], events[n - 1], t.windows[i].t_out));
            }
        }
    }
}

/// The module windows of a stream are those of its entries, one for each, in their
/// order.
pub proof fn scope_windows_are_entries(events: Seq<Event>)
    ensures
        scopes_of(events).len() == entries(events, events.len() as int),
        forall|i: int|
            0 <= i < scopes_of(events).len() ==> exists|a: int|
                #![trigger events[a]]
                0 <= a < events.len() && events[a].payload is ModuleEntered && is_scope_window(
                    #[trigger] scopes_of(events)[i],
                    events[a],
                    scopes_of(events)[i].t_out,
                ),
        forall|i: int, j: int|
            0 <= i < j < scopes_of(events).len() ==> (#[trigger] scopes_of(events)[i]).t_in <= (
            #[trigger] scopes_of(events)[j]).t_in,
{
    let n = events.len() as int;
    let end = last_ts(events);
    assert(events.take(n) =~= events);
    lemma_windows_are_entries(events, n, end);
    let s = scope_scan(events, end).windows;
    let o = scopes_of(events);
    ordered_is_permutation(s, scopes_by_entry());
    assert(crate::sort::strict_weak(scopes_by_entry()));
    ordered_is_in_order(s, scopes_by_entry());
    assert forall|i: int, j: int| 0 <= i < j < o.len() implies (#[trigger] o[i]).t_in <= (
    #[trigger] o[j]).t_in by {
        assert(!scopes_by_entry()(o[j], o[i]));
    }
    assert forall|i: int| 0 <= i < o.len() implies exists|a: int|
        #![trigger events[a]]
        0 <= a < events.len() && events[a].payload is ModuleEntered && is_scope_window(
            #[trigger] o[i],
            events[a],
            o[i].t_out,
        ) by {
        assert(o.contains(o[i]));
        lemma_ordered_contains(s, scopes_by_entry(), o[i]);
        let k = choose|k: int| 0 <= k < s.len() && s[k] == o[i];
        let a = choose|a: int|
            #![trigger events[a]]
            0 <= a < n && events[a].payload is ModuleEntered && is_scope_window(
                s[k],
                events[a],
                s[k].t_out,
            );
        assert(is_scope_window(o[i], events[a], o[i].t_out));
    }
}

/// The window of a call that is entered once reaches from its entry to its first
/// return, and to the last event where it never returns.
pub proof fn scope_windows_reach_to_the_return(events: Seq<Event>, a: int, b: int, id: u64)
    requires
        entered_once(events, a, id),
        a < b <= events.len(),
        b < events.len() ==> leaves_call(events[b], id),
        forall|j: int| a < j < b ==> !leaves_call(#[trigger] events[j], id),
    ensures
        exists|i: int|
            0 <= i < scopes_of(events).len() && is_scope_window(
                #[trigger] scopes_of(events)[i],
                events[a],
                if b < events.len() {
                    events[b].ts_mono_ns
                } else {
                    events[events.len() - 1].ts_mono_ns
                },
            ),
{
    let n = events.len() as int;
    let end = last_ts(events);
    assert(events.take(n) =~= events);
    lemma_call_window(events, a, b, n, end, id);
    let s = scope_scan(events, end);
    let w = s.windows[s.index[id]];
    assert(s.windows.contains(w));
    lemma_ordered_contains(s.windows, scopes_by_entry(), w);
    let o = scopes_of(events);
    let i = choose|i: int| 0 <= i < o.len() && o[i] == w;
    assert(is_scope_window(o[i], events[a], w.t_out));
}

proof fn lemma_counters_ignore_the_end(events: Seq<Event>, x: u64, y: u64)
    ensures
        scope_scan(events, x).open == scope_scan(events, y).open,
        scope_scan(events, x).orphans == scope_scan(events, y).orphans,
        scope_scan(events, x).index == scope_scan(events, y).index,
        scope_scan(events, x).windows.len() == scope_scan(events, y).windows.len(),
    decreases events.len(),
{
    if events.len() > 0 {
        let prefix = events.drop_last();
        lemma_counters_ignore_the_end(prefix, x, y);
        lemma_scope_scan(prefix, x);
        let s = scope_scan(prefix, x);
        if let Payload::ModuleReturned { module_call_id } = events.last().payload {
            lemma_last_position(s.open, module_call_id);
            if let Some(p) = last_position(s.open, module_call_id) {
                assert(s.index.contains_key(s.open[p]));
            }
        }
    }
}

/// A call counts as malformed from its entry to its return, and so does a return
/// from a call that was never entered. Nothing else does.
pub proof fn malformed_returns_are_unpaired(events: Seq<Event>, e: Event)
    ensures
        e.payload is ModuleEntered ==> malformed_returns_of(events.push(e))
            == malformed_returns_of(events) + 1,
        forall|id: u64|
            leaves_call(e, id) && (forall|j: int|
                0 <= j < events.len() ==> !#[trigger] enters_call(events[j], id))
                ==> malformed_returns_of(events.push(e)) == malformed_returns_of(events) + 1,
        forall|id: u64, a: int|
            leaves_call(e, id) && #[trigger] entered_once(events, a, id) && (forall|j: int|
                a < j < events.len() ==> !#[trigger] leaves_call(events[j], id))
                ==> malformed_returns_of(events.push(e)) == malformed_returns_of(events) - 1,
        !(e.payload is ModuleEntered) && !(e.payload is ModuleReturned) ==> malformed_returns_of(
            events.push(e),
        ) == malformed_returns_of(events),
        malformed_returns_of(Seq::empty()) == 0,
{
    let all = events.push(e);
    let (x, y) = (last_ts(all), last_ts(events));
    let n = events.len() as int;
    assert(all.drop_last() =~= events);
    assert(events.take(n) =~= events);
    lemma_counters_ignore_the_end(events, x, y);
    assert forall|id: u64|
        leaves_call(e, id) && (forall|j: int|
            0 <= j < events.len() ==> !#[trigger] enters_call(events[j], id)) implies
        malformed_returns_of(all) == malformed_returns_of(events) + 1 by {
        lemma_call_unknown(events, n, x, id);
        lemma_last_position(scope_scan(events, x).open, id);
    }
    assert forall|id: u64, a: int|
        leaves_call(e, id) && #[trigger] entered_once(events, a, id) && (forall|j: int|
            a < j < events.len() ==> !#[trigger] leaves_call(events[j], id)) implies
        malformed_returns_of(all) == malformed_returns_of(events) - 1 by {
        lemma_call_window(events, a, n, n, x, id);
        lemma_times_open(scope_scan(events, x).open, id);
        lemma_last_position(scope_scan(events, x).open, id);
    }
}

} // verus!
