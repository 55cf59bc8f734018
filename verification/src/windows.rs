//! The time windows that every attribution pass builds from an event stream.
//!
//! A window is not simply the span from entry to return. Lazy evaluation
//! schedules GPU work asynchronously: a call returns within milliseconds of
//! queuing, while the driver commits the command buffers up to half a second
//! later. Without a grace tail most command buffers would fall outside every
//! window.

use crate::event::{Event, Payload, StackFrame};
use crate::sort::{ordered, rank, sort, Ranked};
use crate::text::{after_last, dec, opt_view, push_dec, tail_after};
use std::collections::HashMap;
use vstd::prelude::*;

verus! {

broadcast use {
    vstd::std_specs::hash::group_hash_axioms,
    vstd::string::group_string_axioms,
};

/// How far past a scope or eval return a command buffer may still commit and
/// count as that window's work: half a second.
pub const ASYNC_GRACE_NS: u64 = 500_000_000;

/// `ts` plus the grace, or the largest timestamp.
pub open spec fn graced(ts: u64) -> u64 {
    if ts + ASYNC_GRACE_NS > u64::MAX {
        u64::MAX
    } else {
        (ts + ASYNC_GRACE_NS) as u64
    }
}

/// One evaluation call, with its window already widened by the grace.
#[derive(Debug, Clone)]
pub struct EvalWindow {
    pub t_in: u64,
    /// Return timestamp, plus [`ASYNC_GRACE_NS`] when the eval was async.
    pub t_out: u64,
    /// `seq` of the event that entered the eval.
    pub seq: u64,
    /// Module call ids open at the eval, innermost last. Empty means the eval
    /// was made outside any instrumented module.
    pub module_stack: Vec<u64>,
    /// Top Python frame as `file.py:lineno`, when stack capture was on.
    pub top_frame: Option<String>,
}

/// The view of an [`EvalWindow`].
pub ghost struct EvalView {
    pub t_in: u64,
    pub t_out: u64,
    pub seq: u64,
    pub module_stack: Seq<u64>,
    pub top_frame: Option<Seq<char>>,
}

impl View for EvalWindow {
    type V = EvalView;

    open spec fn view(&self) -> EvalView {
        EvalView {
            t_in: self.t_in,
            t_out: self.t_out,
            seq: self.seq,
            module_stack: self.module_stack@,
            top_frame: opt_view(self.top_frame),
        }
    }
}

impl Ranked for EvalWindow {
    open spec fn before(self, other: Self) -> bool {
        self.t_in < other.t_in
    }

    fn comes_before(&self, other: &Self) -> (b: bool) {
        self.t_in < other.t_in
    }
}

/// The views of a list of eval windows.
pub open spec fn eval_views(s: Seq<EvalWindow>) -> Seq<EvalView> {
    s.map_values(|w: EvalWindow| w@)
}

/// Eval windows by the time they were entered.
pub open spec fn evals_by_entry() -> spec_fn(EvalView, EvalView) -> bool {
    |a: EvalView, b: EvalView| a.t_in < b.t_in
}

/// `file.py:lineno` of a frame.
pub open spec fn frame_text(f: StackFrame) -> Seq<char> {
    after_last(f.filename@, '/') + ":"@ + dec(f.lineno as int)
}

/// `file.py:lineno` of the first of `frames`.
pub open spec fn top_frame_text(frames: Seq<StackFrame>) -> Option<Seq<char>> {
    if frames.len() == 0 {
        None
    } else {
        Some(frame_text(frames[0]))
    }
}

/// What pairing evals has found so far.
pub ghost struct EvalScan {
    /// Entered and not yet returned, by call id.
    pub open: Map<u64, EvalView>,
    /// Entered and returned, in the order of the returns.
    pub closed: Seq<EvalView>,
}

/// One event more.
pub open spec fn eval_step(s: EvalScan, e: Event) -> EvalScan {
    match e.payload {
        Payload::MlxEvalEntered { call_id, module_stack, stack_frames, .. } => EvalScan {
            open: s.open.insert(
                call_id,
                EvalView {
                    t_in: e.ts_mono_ns,
                    t_out: e.ts_mono_ns,
                    seq: e.seq,
                    module_stack: module_stack@,
                    top_frame: top_frame_text(stack_frames@),
                },
            ),
            closed: s.closed,
        },
        Payload::MlxEvalReturned { call_id, was_async, .. } => if s.open.contains_key(call_id) {
            let w = s.open[call_id];
            EvalScan {
                open: s.open.remove(call_id),
                closed: s.closed.push(
                    EvalView {
                        t_in: w.t_in,
                        t_out: if was_async {
                            graced(e.ts_mono_ns)
                        } else {
                            e.ts_mono_ns
                        },
                        seq: w.seq,
                        module_stack: w.module_stack,
                        top_frame: w.top_frame,
                    },
                ),
            }
        } else {
            s
        },
        _ => s,
    }
}

/// Pairs entered and returned evals by call id.
pub open spec fn eval_scan(events: Seq<Event>) -> EvalScan
    decreases events.len(),
{
    if events.len() == 0 {
        EvalScan { open: Map::empty(), closed: Seq::empty() }
    } else {
        eval_step(eval_scan(events.drop_last()), events.last())
    }
}

/// The windows of all evals that returned, by the time they were entered.
pub open spec fn evals_of(events: Seq<Event>) -> Seq<EvalView> {
    ordered(eval_scan(events).closed, evals_by_entry())
}

fn top_frame_of(frames: &Vec<StackFrame>) -> (r: Option<String>)
    ensures
        opt_view(r) == top_frame_text(frames@),
{
    if frames.len() == 0 {
        return None;
    }
    let mut s = tail_after(frames[0].filename.as_str(), '/');
    s.append(":");
    push_dec(&mut s, frames[0].lineno as u64);
    Some(s)
}

/// A copy of a list of call ids.
pub fn copied_ids(v: &Vec<u64>) -> (r: Vec<u64>)
    ensures
        r@ == v@,
{
    let r = v.clone();
    assert(r@ =~= v@);
    r
}

/// Paired eval windows, sorted by `t_in`.
///
/// Evals that never returned are dropped: with no return there is no
/// meaningful window end.
pub fn eval_windows(events: &[Event]) -> (r: Vec<EvalWindow>)
    ensures
        eval_views(r@) == evals_of(events@),
{
    let mut open: HashMap<u64, EvalWindow> = HashMap::new();
    let mut out: Vec<EvalWindow> = Vec::new();
    let ghost view = |w: EvalWindow| w@;
    let mut i: usize = 0;
    assert(open@.map_values(view) =~= Map::<u64, EvalView>::empty());
    assert(eval_views(out@) =~= Seq::<EvalView>::empty());
    while i < events.len()
        invariant
            i <= events@.len(),
            view == (|w: EvalWindow| w@),
            open@.map_values(view) == eval_scan(events@.take(i as int)).open,
            eval_views(out@) == eval_scan(events@.take(i as int)).closed,
        decreases events@.len() - i,
    {
        let ev = &events[i];
        proof {
            crate::event::lemma_prefix_step(events@, i as int);
        }
        let ghost old_open = open@;
        let ghost old_out = out@;
        match &ev.payload {
            Payload::MlxEvalEntered { call_id, module_stack, stack_frames, .. } => {
                let w = EvalWindow {
                    t_in: ev.ts_mono_ns,
                    t_out: ev.ts_mono_ns,
                    seq: ev.seq,
                    module_stack: copied_ids(module_stack),
                    top_frame: top_frame_of(stack_frames),
                };
                open.insert(*call_id, w);
                assert(open@.map_values(view) =~= old_open.map_values(view).insert(*call_id, w@));
            },
            Payload::MlxEvalReturned { call_id, was_async, .. } => {
                if let Some(mut w) = open.remove(call_id) {
                    let ghost was = w@;
                    w.t_out = if *was_async {
                        ev.ts_mono_ns.saturating_add(ASYNC_GRACE_NS)
                    } else {
                        ev.ts_mono_ns
                    };
                    out.push(w);
                    assert(open@.map_values(view) =~= old_open.map_values(view).remove(*call_id));
                    assert(eval_views(out@) =~= eval_views(old_out).push(w@));
                    assert(was == old_open.map_values(view)[*call_id]);
                } else {
                    assert(!old_open.map_values(view).contains_key(*call_id));
                    assert(open@.map_values(view) =~= old_open.map_values(view));
                }
            },
            _ => {},
        }
        i = i + 1;
    }
    assert(events@.take(events@.len() as int) =~= events@);
    proof {
        crate::sort::lemma_ordered_map(out@, view, rank::<EvalWindow>(), evals_by_entry());
    }
    sort(&mut out);
    out
}

/// The spans of `t_in` and `t_out`.
pub open spec fn eval_spans(s: Seq<EvalView>) -> Seq<(u64, u64)> {
    s.map_values(|w: EvalView| (w.t_in, w.t_out))
}

/// The last of the `spans` that holds `ts`, ends included.
pub open spec fn last_covering(spans: Seq<(u64, u64)>, ts: u64) -> Option<int>
    decreases spans.len(),
{
    if spans.len() == 0 {
        None
    } else if spans.last().0 <= ts <= spans.last().1 {
        Some(spans.len() - 1)
    } else {
        last_covering(spans.drop_last(), ts)
    }
}

/// What [`last_covering`] finds covers `ts`, and nothing behind it does.
pub proof fn last_covering_is_last(spans: Seq<(u64, u64)>, ts: u64)
    ensures
        match last_covering(spans, ts) {
            Some(i) => {
                &&& 0 <= i < spans.len()
                &&& spans[i].0 <= ts <= spans[i].1
                &&& forall|j: int| i < j < spans.len() ==> !((#[trigger] spans[j]).0 <= ts <= spans[j].1)
            },
            None => forall|j: int|
                0 <= j < spans.len() ==> !((#[trigger] spans[j]).0 <= ts <= spans[j].1),
        },
    decreases spans.len(),
{
    if spans.len() > 0 {
        last_covering_is_last(spans.drop_last(), ts);
        assert forall|j: int| 0 <= j < spans.len() - 1 implies spans.drop_last()[j]
            == #[trigger] spans[j] by {}
    }
}

/// [`last_covering`], told by the property that fixes it.
pub proof fn lemma_last_covering_at(spans: Seq<(u64, u64)>, ts: u64, i: int)
    requires
        0 <= i < spans.len(),
        spans[i].0 <= ts <= spans[i].1,
        forall|j: int| i < j < spans.len() ==> !((#[trigger] spans[j]).0 <= ts <= spans[j].1),
    ensures
        last_covering(spans, ts) == Some(i),
{
    last_covering_is_last(spans, ts);
}

/// The index of the latest window of `evals` covering `ts`.
pub fn eval_at(evals: &[EvalWindow], ts: u64) -> (r: Option<usize>)
    ensures
        match r {
            Some(i) => i < evals@.len() && last_covering(eval_spans(eval_views(evals@)), ts)
                == Some(i as int),
            None => last_covering(eval_spans(eval_views(evals@)), ts) is None,
        },
{
    let ghost spans = eval_spans(eval_views(evals@));
    let mut i: usize = evals.len();
    assert(spans.take(i as int) =~= spans);
    while i > 0
        invariant
            i <= evals@.len(),
            spans == eval_spans(eval_views(evals@)),
            last_covering(spans, ts) == last_covering(spans.take(i as int), ts),
        decreases i,
    {
        assert(spans.take(i as int).drop_last() =~= spans.take(i - 1));
        assert(spans[i - 1] == (evals@[i - 1].t_in, evals@[i - 1].t_out));
        if evals[i - 1].t_in <= ts && ts <= evals[i - 1].t_out {
            return Some(i - 1);
        }
        i = i - 1;
    }
    None
}

/// One module call: a scope block or an instrumented module.
#[derive(Debug, Clone)]
pub struct ScopeWindow {
    pub t_in: u64,
    /// Return timestamp, or the session's last event when the call never
    /// returned. Users add [`ASYNC_GRACE_NS`] themselves, since only some of
    /// them want the tail.
    pub t_out: u64,
    pub call_id: u64,
    pub qualname: String,
}

/// The view of a [`ScopeWindow`].
pub ghost struct ScopeView {
    pub t_in: u64,
    pub t_out: u64,
    pub call_id: u64,
    pub qualname: Seq<char>,
}

impl View for ScopeWindow {
    type V = ScopeView;

    open spec fn view(&self) -> ScopeView {
        ScopeView {
            t_in: self.t_in,
            t_out: self.t_out,
            call_id: self.call_id,
            qualname: self.qualname@,
        }
    }
}

impl Ranked for ScopeWindow {
    open spec fn before(self, other: Self) -> bool {
        self.t_in < other.t_in
    }

    fn comes_before(&self, other: &Self) -> (b: bool) {
        self.t_in < other.t_in
    }
}

/// The views of a list of scope windows.
pub open spec fn scope_views(s: Seq<ScopeWindow>) -> Seq<ScopeView> {
    s.map_values(|w: ScopeWindow| w@)
}

/// Scope windows by the time they were entered.
pub open spec fn scopes_by_entry() -> spec_fn(ScopeView, ScopeView) -> bool {
    |a: ScopeView, b: ScopeView| a.t_in < b.t_in
}

/// All module windows of a session.
pub struct ScopeWindows {
    /// Sorted by `t_in`.
    pub windows: Vec<ScopeWindow>,
    /// Returns naming a call that was never entered, plus calls still open at
    /// the end of the session.
    pub malformed_returns: u64,
}

/// What pairing module calls has found so far.
pub ghost struct ScopeScan {
    /// One window per entry, in the order of the entries.
    pub windows: Seq<ScopeView>,
    /// Where the latest window of a call id stands.
    pub index: Map<u64, int>,
    /// Entered and not yet returned.
    pub open: Seq<u64>,
    /// Returns that named a call never entered.
    pub orphans: nat,
}

/// The last position of `id` in `open`.
pub open spec fn last_position(open: Seq<u64>, id: u64) -> Option<int>
    decreases open.len(),
{
    if open.len() == 0 {
        None
    } else if open.last() == id {
        Some(open.len() - 1)
    } else {
        last_position(open.drop_last(), id)
    }
}

/// `w`, ending at `t`.
pub open spec fn closed_at(w: ScopeView, t: u64) -> ScopeView {
    ScopeView { t_in: w.t_in, t_out: t, call_id: w.call_id, qualname: w.qualname }
}

/// One event more. A call that has not returned ends at `end`.
pub open spec fn scope_step(s: ScopeScan, e: Event, end: u64) -> ScopeScan {
    match e.payload {
        Payload::ModuleEntered { module_call_id, qualname, .. } => ScopeScan {
            windows: s.windows.push(
                ScopeView {
                    t_in: e.ts_mono_ns,
                    t_out: end,
                    call_id: module_call_id,
                    qualname: qualname@,
                },
            ),
            index: s.index.insert(module_call_id, s.windows.len() as int),
            open: s.open.push(module_call_id),
            orphans: s.orphans,
        },
        Payload::ModuleReturned { module_call_id } => match last_position(s.open, module_call_id) {
            Some(p) => ScopeScan {
                windows: s.windows.update(
                    s.index[module_call_id],
                    closed_at(s.windows[s.index[module_call_id]], e.ts_mono_ns),
                ),
                index: s.index,
                open: s.open.remove(p),
                orphans: s.orphans,
            },
            None => ScopeScan {
                windows: s.windows,
                index: s.index,
                open: s.open,
                orphans: if s.index.contains_key(module_call_id) {
                    s.orphans
                } else {
                    s.orphans + 1
                },
            },
        },
        _ => s,
    }
}

/// Pairs module entries and returns by call id.
pub open spec fn scope_scan(events: Seq<Event>, end: u64) -> ScopeScan
    decreases events.len(),
{
    if events.len() == 0 {
        ScopeScan { windows: Seq::empty(), index: Map::empty(), open: Seq::empty(), orphans: 0 }
    } else {
        scope_step(scope_scan(events.drop_last(), end), events.last(), end)
    }
}

/// The timestamp of the last event, zero where there is none.
pub open spec fn last_ts(events: Seq<Event>) -> u64 {
    if events.len() == 0 {
        0
    } else {
        events.last().ts_mono_ns
    }
}

/// The windows of all module calls, by the time they were entered.
pub open spec fn scopes_of(events: Seq<Event>) -> Seq<ScopeView> {
    ordered(scope_scan(events, last_ts(events)).windows, scopes_by_entry())
}

/// Returns naming a call never entered, plus calls never returned.
pub open spec fn malformed_returns_of(events: Seq<Event>) -> nat {
    scope_scan(events, last_ts(events)).orphans + scope_scan(events, last_ts(events)).open.len()
}

/// What holds of the bookkeeping at every point of the stream.
pub open spec fn scope_scan_ok(s: ScopeScan) -> bool {
    &&& forall|id: u64| #[trigger]
        s.index.contains_key(id) ==> 0 <= s.index[id] < s.windows.len()
            && s.windows[s.index[id]].call_id == id
    &&& forall|k: int| 0 <= k < s.open.len() ==> s.index.contains_key(#[trigger] s.open[k])
    &&& forall|k: int|
        0 <= k < s.windows.len() ==> s.index.contains_key((#[trigger] s.windows[k]).call_id)
}

pub proof fn lemma_last_position(open: Seq<u64>, id: u64)
    ensures
        match last_position(open, id) {
            Some(p) => 0 <= p < open.len() && open[p] == id && forall|k: int|
                p < k < open.len() ==> open[k] != id,
            None => !open.contains(id),
        },
    decreases open.len(),
{
    if open.len() > 0 {
        let rest = open.drop_last();
        lemma_last_position(rest, id);
        assert forall|k: int| 0 <= k < rest.len() implies rest[k] == #[trigger] open[k] by {}
        if open.last() != id && last_position(open, id) is None {
            assert forall|k: int| 0 <= k < open.len() implies open[k] != id by {
                if k < open.len() - 1 {
                    assert(rest.contains(rest[k]));
                }
            }
        }
    }
}

/// The bookkeeping of [`scope_scan`] is sound, and no counter exceeds the
/// number of events.
pub proof fn lemma_scope_scan(events: Seq<Event>, end: u64)
    ensures
        scope_scan_ok(scope_scan(events, end)),
        scope_scan(events, end).orphans + scope_scan(events, end).open.len() <= events.len(),
        scope_scan(events, end).windows.len() <= events.len(),
    decreases events.len(),
{
    if events.len() > 0 {
        lemma_scope_scan(events.drop_last(), end);
        let s = scope_scan(events.drop_last(), end);
        let e = events.last();
        let t = scope_step(s, e, end);
        match e.payload {
            Payload::ModuleEntered { module_call_id, .. } => {
                assert forall|k: int| 0 <= k < t.open.len() implies t.index.contains_key(
                    #[trigger] t.open[k],
                ) by {
                    if k < s.open.len() {
                        assert(t.open[k] == s.open[k]);
                    }
                }
                assert forall|k: int| 0 <= k < t.windows.len() implies t.index.contains_key(
                    (#[trigger] t.windows[k]).call_id,
                ) by {
                    if k < s.windows.len() {
                        assert(t.windows[k] == s.windows[k]);
                    }
                }
            },
            Payload::ModuleReturned { module_call_id } => {
                lemma_last_position(s.open, module_call_id);
                match last_position(s.open, module_call_id) {
                    Some(p) => {
                        assert(s.index.contains_key(s.open[p]));
                        assert forall|k: int| 0 <= k < t.open.len() implies t.index.contains_key(
                            #[trigger] t.open[k],
                        ) by {
                            if k < p {
                                assert(t.open[k] == s.open[k]);
                            } else {
                                assert(t.open[k] == s.open[k + 1]);
                            }
                        }
                        assert forall|k: int| 0 <= k < t.windows.len() implies t.index.contains_key(
                            (#[trigger] t.windows[k]).call_id,
                        ) by {
                            assert(t.windows[k].call_id == s.windows[k].call_id);
                        }
                    },
                    None => {},
                }
            },
            _ => {},
        }
    }
}

/// A return closes the call it names, wherever that call sits in the open set,
/// and no other.
pub proof fn return_closes_the_call_it_names(events: Seq<Event>, end: u64, id: u64)
    requires
        events.len() > 0,
        events.last().payload == (Payload::ModuleReturned { module_call_id: id }),
        scope_scan(events.drop_last(), end).open.contains(id),
    ensures
        ({
            let before = scope_scan(events.drop_last(), end);
            let after = scope_scan(events, end);
            let i = before.index[id];
            &&& 0 <= i < before.windows.len()
            &&& after.windows.len() == before.windows.len()
            &&& after.windows[i].call_id == id
            &&& after.windows[i].t_out == events.last().ts_mono_ns
            &&& forall|k: int|
                0 <= k < before.windows.len() && k != i ==> after.windows[k] == before.windows[k]
        }),
{
    let before = scope_scan(events.drop_last(), end);
    lemma_scope_scan(events.drop_last(), end);
    lemma_last_position(before.open, id);
    let p = last_position(before.open, id)->0;
    assert(before.index.contains_key(before.open[p]));
}

/// A return that names a call never entered closes nothing and is counted.
pub proof fn orphan_return_closes_nothing(events: Seq<Event>, end: u64, id: u64)
    requires
        events.len() > 0,
        events.last().payload == (Payload::ModuleReturned { module_call_id: id }),
        !scope_scan(events.drop_last(), end).index.contains_key(id),
    ensures
        scope_scan(events, end).windows == scope_scan(events.drop_last(), end).windows,
        scope_scan(events, end).open == scope_scan(events.drop_last(), end).open,
        scope_scan(events, end).orphans == scope_scan(events.drop_last(), end).orphans + 1,
{
    let before = scope_scan(events.drop_last(), end);
    lemma_scope_scan(events.drop_last(), end);
    lemma_last_position(before.open, id);
    if let Some(p) = last_position(before.open, id) {
        assert(before.index.contains_key(before.open[p]));
    }
}

/// Where the last `id` stands in `open`.
fn position_of(open: &Vec<u64>, id: u64) -> (r: Option<usize>)
    ensures
        match r {
            Some(p) => p < open@.len() && last_position(open@, id) == Some(p as int),
            None => last_position(open@, id) is None,
        },
{
    let mut i: usize = open.len();
    assert(open@.take(i as int) =~= open@);
    while i > 0
        invariant
            i <= open@.len(),
            last_position(open@, id) == last_position(open@.take(i as int), id),
        decreases i,
    {
        assert(open@.take(i as int).drop_last() =~= open@.take(i - 1));
        if open[i - 1] == id {
            return Some(i - 1);
        }
        i = i - 1;
    }
    None
}

/// Builds every module window in the stream.
///
/// A return closes the call it names, wherever that call sits in the open set,
/// never simply the most recent one. Returns for unknown calls are counted and
/// otherwise ignored, so a lost entry cannot evict a live scope.
pub fn scope_windows(events: &[Event]) -> (r: ScopeWindows)
    ensures
        scope_views(r.windows@) == scopes_of(events@),
        by_entry(r.windows@),
        r.malformed_returns == malformed_returns_of(events@),
{
    let end: u64 = if events.len() == 0 {
        0
    } else {
        events[events.len() - 1].ts_mono_ns
    };
    let mut windows: Vec<ScopeWindow> = Vec::new();
    let mut index: HashMap<u64, usize> = HashMap::new();
    let mut open: Vec<u64> = Vec::new();
    let mut orphans: u64 = 0;
    let ghost at = |k: usize| k as int;
    let mut i: usize = 0;
    assert(scope_views(windows@) =~= Seq::<ScopeView>::empty());
    assert(index@.map_values(at) =~= Map::<u64, int>::empty());
    while i < events.len()
        invariant
            i <= events@.len(),
            end == last_ts(events@),
            at == (|k: usize| k as int),
            scope_views(windows@) == scope_scan(events@.take(i as int), end).windows,
            index@.map_values(at) == scope_scan(events@.take(i as int), end).index,
            open@ == scope_scan(events@.take(i as int), end).open,
            orphans == scope_scan(events@.take(i as int), end).orphans,
            orphans + open@.len() <= i,
        decreases events@.len() - i,
    {
        let ev = &events[i];
        proof {
            crate::event::lemma_prefix_step(events@, i as int);
            lemma_scope_scan(events@.take(i as int), end);
        }
        let ghost s = scope_scan(events@.take(i as int), end);
        let ghost old_index = index@;
        match &ev.payload {
            Payload::ModuleEntered { module_call_id, qualname, .. } => {
                index.insert(*module_call_id, windows.len());
                open.push(*module_call_id);
                let w = ScopeWindow {
                    t_in: ev.ts_mono_ns,
                    t_out: end,
                    call_id: *module_call_id,
                    qualname: qualname.clone(),
                };
                windows.push(w);
                proof {
                    assert(scope_views(windows@) =~= s.windows.push(w@));
                    assert(index@.map_values(at) =~= s.index.insert(
                        *module_call_id,
                        s.windows.len() as int,
                    ));
                }
            },
            Payload::ModuleReturned { module_call_id } => {
                match position_of(&open, *module_call_id) {
                    Some(pos) => {
                        let _ = open.remove(pos);
                        proof {
                            lemma_last_position(s.open, *module_call_id);
                            assert(s.index.contains_key(s.open[pos as int]));
                            assert(old_index.contains_key(*module_call_id));
                        }
                        if let Some(k) = index.get(module_call_id) {
                            let k: usize = *k;
                            assert(s.index[*module_call_id] == k as int);
                            windows[k].t_out = ev.ts_mono_ns;
                            assert(scope_views(windows@) =~= s.windows.update(
                                k as int,
                                closed_at(s.windows[k as int], ev.ts_mono_ns),
                            ));
                        }
                    },
                    None => {
                        if !index.contains_key(module_call_id) {
                            assert(!s.index.contains_key(*module_call_id));
                            orphans = orphans + 1;
                        } else {
                            assert(s.index.contains_key(*module_call_id));
                        }
                    },
                }
            },
            _ => {},
        }
        i = i + 1;
    }
    assert(events@.take(events@.len() as int) =~= events@);
    proof {
        let view = |w: ScopeWindow| w@;
        crate::sort::lemma_ordered_map(windows@, view, rank::<ScopeWindow>(), scopes_by_entry());
    }
    let malformed_returns: u64 = orphans + open.len() as u64;
    sort(&mut windows);
    proof {
        let lt = scopes_by_entry();
        let v = scope_views(windows@);
        crate::sort::ordered_is_in_order(scope_scan(events@, end).windows, lt);
        assert forall|i: int, j: int| 0 <= i <= j < windows@.len() implies (
        #[trigger] windows@[i]).t_in <= (#[trigger] windows@[j]).t_in by {
            if i < j {
                assert(!lt(v[j], v[i]));
            }
        }
    }
    ScopeWindows { windows, malformed_returns }
}

/// The spans in which a scope may still own work, grace included.
pub open spec fn scope_spans(s: Seq<ScopeView>) -> Seq<(u64, u64)> {
    s.map_values(|w: ScopeView| (w.t_in, graced(w.t_out)))
}

/// The index of the innermost scope open at `ts`, grace included.
pub open spec fn innermost(s: Seq<ScopeView>, ts: u64) -> Option<int> {
    last_covering(scope_spans(s), ts)
}

/// The index of the innermost of `windows` open at `ts`, grace included. Unlike
/// a sweep this takes timestamps in any order.
pub fn innermost_index(windows: &[ScopeWindow], ts: u64) -> (r: Option<usize>)
    ensures
        match r {
            Some(i) => i < windows@.len() && innermost(scope_views(windows@), ts) == Some(i as int),
            None => innermost(scope_views(windows@), ts) is None,
        },
{
    let ghost spans = scope_spans(scope_views(windows@));
    let mut i: usize = windows.len();
    assert(spans.take(i as int) =~= spans);
    while i > 0
        invariant
            i <= windows@.len(),
            spans == scope_spans(scope_views(windows@)),
            last_covering(spans, ts) == last_covering(spans.take(i as int), ts),
        decreases i,
    {
        assert(spans.take(i as int).drop_last() =~= spans.take(i - 1));
        assert(spans[i - 1] == (windows@[i - 1].t_in, graced(windows@[i - 1].t_out)));
        if windows[i - 1].t_in <= ts && ts <= windows[i - 1].t_out.saturating_add(ASYNC_GRACE_NS) {
            return Some(i - 1);
        }
        i = i - 1;
    }
    None
}

/// Windows sorted by `t_in`.
pub open spec fn by_entry(s: Seq<ScopeWindow>) -> bool {
    forall|i: int, j: int| 0 <= i <= j < s.len() ==> (#[trigger] s[i]).t_in <= (#[trigger] s[j]).t_in
}

/// Walks chronologically ordered timestamps over `t_in`-sorted windows,
/// reporting the innermost scope open at each one.
///
/// Timestamps must be non-decreasing across calls: the sweep never rewinds.
pub struct ScopeSweep<'a> {
    windows: &'a [ScopeWindow],
    next: usize,
    stack: Vec<usize>,
    clock: Ghost<u64>,
}

impl<'a> ScopeSweep<'a> {
    /// The windows swept over.
    pub closed spec fn scopes(&self) -> Seq<ScopeWindow> {
        self.windows@
    }

    /// The latest timestamp asked for.
    pub closed spec fn now(&self) -> u64 {
        self.clock@
    }

    /// Every window passed so far is on the stack or over for good.
    pub closed spec fn wf(&self) -> bool {
        &&& by_entry(self.windows@)
        &&& self.next <= self.windows@.len()
        &&& forall|k: int| 0 <= k < self.stack@.len() ==> (#[trigger] self.stack@[k]) < self.next
        &&& forall|j: int, k: int|
            0 <= j < k < self.stack@.len() ==> (#[trigger] self.stack@[j])
                < (#[trigger] self.stack@[k])
        &&& forall|m: int|
            0 <= m < self.next ==> #[trigger] self.stack@.contains(m as usize) || graced(
                self.windows@[m].t_out,
            ) < self.clock@
        &&& forall|m: int| 0 <= m < self.next ==> (#[trigger] self.windows@[m]).t_in <= self.clock@
    }

    /// A sweep that has not started yet.
    pub fn new(windows: &'a [ScopeWindow]) -> (r: Self)
        requires
            by_entry(windows@),
        ensures
            r.wf(),
            r.scopes() == windows@,
            r.now() == 0,
    {
        ScopeSweep { windows, next: 0, stack: Vec::new(), clock: Ghost(0) }
    }

    /// Innermost scope covering `ts`, allowing each window the grace tail.
    /// `None` when `ts` falls outside every scope.
    pub fn innermost_at(&mut self, ts: u64) -> (r: Option<&'a ScopeWindow>)
        requires
            old(self).wf(),
            old(self).now() <= ts,
        ensures
            final(self).wf(),
            final(self).scopes() == old(self).scopes(),
            final(self).now() == ts,
            match innermost(scope_views(old(self).scopes()), ts) {
                Some(i) => 0 <= i < old(self).scopes().len() && r == Some(
                    &old(self).scopes()[i],
                ),
                None => r is None,
            },
    {
        let ghost was = self.clock@;
        let ghost all = self.windows@;
        while self.next < self.windows.len() && self.windows[self.next].t_in <= ts
            invariant
                self.windows@ == all,
                by_entry(all),
                self.clock@ == was <= ts,
                self.next <= all.len(),
                forall|k: int|
                    0 <= k < self.stack@.len() ==> (#[trigger] self.stack@[k]) < self.next,
                forall|j: int, k: int|
                    0 <= j < k < self.stack@.len() ==> (#[trigger] self.stack@[j])
                        < (#[trigger] self.stack@[k]),
                forall|m: int|
                    0 <= m < self.next ==> #[trigger] self.stack@.contains(m as usize) || graced(
                        all[m].t_out,
                    ) < ts,
                forall|m: int| 0 <= m < self.next ==> (#[trigger] all[m]).t_in <= ts,
            decreases all.len() - self.next,
        {
            let ghost before = self.stack@;
            let k: usize = self.next;
            self.stack.push(k);
            proof {
                assert forall|m: int| 0 <= m < k + 1 implies #[trigger] self.stack@.contains(
                    m as usize,
                ) || graced(all[m].t_out) < ts by {
                    if m == k {
                        assert(self.stack@[before.len() as int] == m as usize);
                    } else if before.contains(m as usize) {
                        let q = choose|q: int| 0 <= q < before.len() && before[q] == m as usize;
                        assert(self.stack@[q] == m as usize);
                    }
                }
            }
            self.next = k + 1;
        }
        while self.stack.len() > 0 && self.windows[self.stack[self.stack.len()
            - 1]].t_out.saturating_add(ASYNC_GRACE_NS) < ts
            invariant
                self.windows@ == all,
                by_entry(all),
                self.clock@ == was <= ts,
                self.next <= all.len(),
                self.next < all.len() ==> all[self.next as int].t_in > ts,
                forall|k: int|
                    0 <= k < self.stack@.len() ==> (#[trigger] self.stack@[k]) < self.next,
                forall|j: int, k: int|
                    0 <= j < k < self.stack@.len() ==> (#[trigger] self.stack@[j])
                        < (#[trigger] self.stack@[k]),
                forall|m: int|
                    0 <= m < self.next ==> #[trigger] self.stack@.contains(m as usize) || graced(
                        all[m].t_out,
                    ) < ts,
                forall|m: int| 0 <= m < self.next ==> (#[trigger] all[m]).t_in <= ts,
            decreases self.stack@.len(),
        {
            let ghost before = self.stack@;
            let _ = self.stack.pop();
            proof {
                assert forall|m: int| 0 <= m < self.next implies #[trigger] self.stack@.contains(
                    m as usize,
                ) || graced(all[m].t_out) < ts by {
                    if before.contains(m as usize) {
                        let q = choose|q: int| 0 <= q < before.len() && before[q] == m as usize;
                        if q < before.len() - 1 {
                            assert(self.stack@[q] == m as usize);
                        }
                    }
                }
            }
        }
        self.clock = Ghost(ts);
        let ghost spans = scope_spans(scope_views(all));
        proof {
            assert forall|m: int| 0 <= m < all.len() implies #[trigger] spans[m] == (
                all[m].t_in,
                graced(all[m].t_out),
            ) by {}
            assert forall|m: int| self.next <= m < all.len() implies (#[trigger] all[m]).t_in
                > ts by {
                assert(all[self.next as int].t_in <= all[m].t_in);
            }
        }
        if self.stack.len() == 0 {
            proof {
                assert forall|m: int| 0 <= m < spans.len() implies !((#[trigger] spans[m]).0 <= ts
                    <= spans[m].1) by {
                    if m < self.next {
                        assert(!self.stack@.contains(m as usize));
                    } else {
                        assert(all[m].t_in > ts);
                    }
                }
                last_covering_is_last(spans, ts);
            }
            None
        } else {
            let top: usize = self.stack[self.stack.len() - 1];
            proof {
                assert(self.stack@[self.stack@.len() - 1] == top);
                assert forall|m: int| top < m < spans.len() implies !((#[trigger] spans[m]).0 <= ts
                    <= spans[m].1) by {
                    if m < self.next {
                        if self.stack@.contains(m as usize) {
                            let q = choose|q: int|
                                0 <= q < self.stack@.len() && self.stack@[q] == m as usize;
                            if q < self.stack@.len() - 1 {
                                assert(self.stack@[q] < self.stack@[self.stack@.len() - 1]);
                            }
                        }
                    } else {
                        assert(all[m].t_in > ts);
                    }
                }
                assert(all[top as int].t_in <= ts);
                lemma_last_covering_at(spans, ts, top as int);
            }
            Some(&self.windows[top])
        }
    }
}

} // verus!
