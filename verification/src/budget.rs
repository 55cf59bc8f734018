//! The spans in which a session ran over its memory budget.

use crate::breakdown::UNSCOPED;
use crate::double::{is_less, less, quotient, ratio, Bin, Double};
use crate::event::{lemma_prefix_step, Event, Payload};
use crate::rounding::comparing_carries_over;
use crate::windows::{
    innermost, innermost_index, scope_views, scope_windows, scopes_of, ScopeView, ScopeWindow,
};
use vstd::prelude::*;

verus! {

broadcast use vstd::string::group_string_axioms;

/// A span of samples over the threshold.
#[derive(Debug, Clone)]
pub struct BudgetWindow {
    pub start_ts_mono_ns: u64,
    pub end_ts_mono_ns: u64,
    /// The sample with the largest share of the budget, the first of equals.
    pub peak_bytes: u64,
    pub recommended_max_bytes: u64,
    /// The innermost scope open at that sample.
    pub peak_scope: String,
    pub peak_seq: u64,
    pub peak_ts_mono_ns: u64,
}

/// The view of a [`BudgetWindow`].
pub ghost struct BudgetView {
    pub start: u64,
    pub end: u64,
    pub peak_bytes: u64,
    pub budget: u64,
    pub scope: Seq<char>,
    pub seq: u64,
    pub peak_ts: u64,
}

impl View for BudgetWindow {
    type V = BudgetView;

    open spec fn view(&self) -> BudgetView {
        BudgetView {
            start: self.start_ts_mono_ns,
            end: self.end_ts_mono_ns,
            peak_bytes: self.peak_bytes,
            budget: self.recommended_max_bytes,
            scope: self.peak_scope@,
            seq: self.peak_seq,
            peak_ts: self.peak_ts_mono_ns,
        }
    }
}

impl BudgetView {
    /// The share of the budget at the peak.
    pub open spec fn share(self) -> Bin {
        ratio(self.peak_bytes as nat, self.budget as nat)
    }
}

impl BudgetWindow {
    /// The share of the budget at the peak.
    pub fn peak_ratio(&self) -> (d: Double)
        requires
            self.recommended_max_bytes > 0,
        ensures
            d@ == self@.share(),
            d@.moderate(),
            d@.exp <= 17,
    {
        quotient(self.peak_bytes, self.recommended_max_bytes)
    }
}

/// The views of a list of windows.
pub open spec fn budget_views(s: Seq<BudgetWindow>) -> Seq<BudgetView> {
    s.map_values(|w: BudgetWindow| w@)
}

/// The name of the innermost scope open at `ts`.
pub open spec fn scope_name_at(scopes: Seq<ScopeView>, ts: u64) -> Seq<char> {
    match innermost(scopes, ts) {
        Some(i) => scopes[i].qualname,
        None => UNSCOPED@,
    }
}

/// How much later than `end` a timestamp is.
pub open spec fn lateness(end: u64, ts: u64) -> int {
    if ts > end {
        ts - end
    } else {
        0
    }
}

/// One event more: a sample over the threshold extends the last window where
/// it follows within the gap, and else opens one.
pub open spec fn budget_step(
    rows: Seq<BudgetView>,
    e: Event,
    scopes: Seq<ScopeView>,
    warn: Bin,
    gap: u64,
) -> Seq<BudgetView> {
    match e.payload {
        Payload::MetalDeviceMemSample {
            allocated_bytes,
            recommended_max_bytes,
            ..
        } => if recommended_max_bytes == 0 || less(
            ratio(allocated_bytes as nat, recommended_max_bytes as nat),
            warn,
        ) {
            rows
        } else {
            let fresh = BudgetView {
                start: e.ts_mono_ns,
                end: e.ts_mono_ns,
                peak_bytes: allocated_bytes,
                budget: recommended_max_bytes,
                scope: scope_name_at(scopes, e.ts_mono_ns),
                seq: e.seq,
                peak_ts: e.ts_mono_ns,
            };
            if rows.len() > 0 && lateness(rows.last().end, e.ts_mono_ns) <= gap {
                let last = rows.last();
                let end = if e.ts_mono_ns > last.end {
                    e.ts_mono_ns
                } else {
                    last.end
                };
                rows.drop_last().push(
                    if less(last.share(), fresh.share()) {
                        BudgetView { start: last.start, end, ..fresh }
                    } else {
                        BudgetView { end, ..last }
                    },
                )
            } else {
                rows.push(fresh)
            }
        },
        _ => rows,
    }
}

/// The windows over the threshold, in the order of the stream.
pub open spec fn budget_scan(
    events: Seq<Event>,
    scopes: Seq<ScopeView>,
    warn: Bin,
    gap: u64,
) -> Seq<BudgetView>
    decreases events.len(),
{
    if events.len() == 0 {
        seq![]
    } else {
        budget_step(
            budget_scan(events.drop_last(), scopes, warn, gap),
            events.last(),
            scopes,
            warn,
            gap,
        )
    }
}

/// Every window has a budget, and its peak reaches the threshold.
pub proof fn windows_are_over_the_threshold(
    events: Seq<Event>,
    scopes: Seq<ScopeView>,
    warn: Bin,
    gap: u64,
)
    ensures
        forall|i: int|
            0 <= i < budget_scan(events, scopes, warn, gap).len() ==> (#[trigger] budget_scan(
                events,
                scopes,
                warn,
                gap,
            )[i]).budget > 0 && !less(budget_scan(events, scopes, warn, gap)[i].share(), warn),
    decreases events.len(),
{
    if events.len() > 0 {
        windows_are_over_the_threshold(events.drop_last(), scopes, warn, gap);
        let rows = budget_scan(events.drop_last(), scopes, warn, gap);
        let next = budget_scan(events, scopes, warn, gap);
        assert forall|i: int| 0 <= i < next.len() implies (#[trigger] next[i]).budget > 0 && !less(
            next[i].share(),
            warn,
        ) by {
            if i < rows.len() {
                assert(rows[i].budget > 0 && !less(rows[i].share(), warn));
            }
            if rows.len() > 0 {
                assert(rows[rows.len() - 1].budget > 0);
            }
        }
    }
}

/// The name of the innermost of `windows` open at `ts`.
pub fn scope_at(windows: &[ScopeWindow], ts: u64) -> (r: String)
    ensures
        r@ == scope_name_at(scope_views(windows@), ts),
{
    match innermost_index(windows, ts) {
        Some(i) => {
            assert(scope_views(windows@)[i as int] == windows@[i as int]@);
            windows[i].qualname.clone()
        },
        None => UNSCOPED.to_owned(),
    }
}

/// Segments the samples at or over the share `warn` of their budget into
/// windows. Samples no further apart than `merge_gap_ns` share a window.
pub fn over_budget_windows(events: &[Event], warn: Double, merge_gap_ns: u64) -> (r: Vec<
    BudgetWindow,
>)
    requires
        warn@.moderate(),
    ensures
        budget_views(r@) == budget_scan(events@, scopes_of(events@), warn@, merge_gap_ns),
        forall|i: int| 0 <= i < r@.len() ==> (#[trigger] r@[i]).recommended_max_bytes > 0,
{
    let scopes = scope_windows(events);
    let ghost sv = scopes_of(events@);
    let mut rows: Vec<BudgetWindow> = Vec::new();
    let mut i: usize = 0;
    assert(budget_views(rows@) =~= Seq::<BudgetView>::empty());
    while i < events.len()
        invariant
            i <= events@.len(),
            warn@.moderate(),
            sv == scope_views(scopes.windows@),
            budget_views(rows@) == budget_scan(
                events@.take(i as int),
                sv,
                warn@,
                merge_gap_ns,
            ),
            forall|k: int| 0 <= k < rows@.len() ==> (#[trigger] rows@[k]).recommended_max_bytes > 0,
        decreases events@.len() - i,
    {
        proof {
            lemma_prefix_step(events@, i as int);
        }
        let ev = &events[i];
        let ts: u64 = ev.ts_mono_ns;
        let ghost before = budget_views(rows@);
        let ghost was = rows@;
        if let Payload::MetalDeviceMemSample { allocated_bytes, recommended_max_bytes, .. } =
            &ev.payload {
            if *recommended_max_bytes > 0 {
                let r = quotient(*allocated_bytes, *recommended_max_bytes);
                if !is_less(r, warn) {
                    let n: usize = rows.len();
                    if n > 0 && ts.saturating_sub(rows[n - 1].end_ts_mono_ns) <= merge_gap_ns {
                        assert(before.last() == was[n - 1]@);
                        if ts > rows[n - 1].end_ts_mono_ns {
                            rows[n - 1].end_ts_mono_ns = ts;
                        }
                        if is_less(rows[n - 1].peak_ratio(), r) {
                            rows[n - 1].peak_bytes = *allocated_bytes;
                            rows[n - 1].recommended_max_bytes = *recommended_max_bytes;
                            rows[n - 1].peak_scope = scope_at(&scopes.windows, ts);
                            rows[n - 1].peak_seq = ev.seq;
                            rows[n - 1].peak_ts_mono_ns = ts;
                        }
                        assert(budget_views(rows@) =~= before.drop_last().push(rows@[n - 1]@));
                    } else {
                        let w = BudgetWindow {
                            start_ts_mono_ns: ts,
                            end_ts_mono_ns: ts,
                            peak_bytes: *allocated_bytes,
                            recommended_max_bytes: *recommended_max_bytes,
                            peak_scope: scope_at(&scopes.windows, ts),
                            peak_seq: ev.seq,
                            peak_ts_mono_ns: ts,
                        };
                        rows.push(w);
                        assert(budget_views(rows@) =~= before.push(w@));
                    }
                }
            }
        }
        i = i + 1;
    }
    assert(events@.take(events@.len() as int) =~= events@);
    rows
}

/// The event samples memory at or over the share `warn` of its budget.
pub open spec fn is_over(e: Event, warn: Bin) -> bool {
    match e.payload {
        Payload::MetalDeviceMemSample { allocated_bytes, recommended_max_bytes, .. } =>
        recommended_max_bytes > 0 && !less(
            ratio(allocated_bytes as nat, recommended_max_bytes as nat),
            warn,
        ),
        _ => false,
    }
}

/// The share of its budget that an event samples.
pub open spec fn share_of(e: Event) -> Bin {
    ratio(
        e.payload->MetalDeviceMemSample_allocated_bytes as nat,
        e.payload->MetalDeviceMemSample_recommended_max_bytes as nat,
    )
}

/// Time never runs backwards.
pub open spec fn in_time(events: Seq<Event>) -> bool {
    forall|i: int, j: int|
        0 <= i < j < events.len() ==> (#[trigger] events[i]).ts_mono_ns <= (
        #[trigger] events[j]).ts_mono_ns
}

/// The peak of a window is a sample of the stream over the threshold, in the scope that was
/// open there.
pub open spec fn peaks_at_sample(
    w: BudgetView,
    e: Event,
    scopes: Seq<ScopeView>,
    warn: Bin,
) -> bool {
    &&& is_over(e, warn)
    &&& w.peak_bytes == e.payload->MetalDeviceMemSample_allocated_bytes
    &&& w.budget == e.payload->MetalDeviceMemSample_recommended_max_bytes
    &&& w.seq == e.seq
    &&& w.peak_ts == e.ts_mono_ns
    &&& w.scope == scope_name_at(scopes, e.ts_mono_ns)
    &&& w.start <= w.peak_ts <= w.end
}

/// A window holds a sample: it reaches over it, and its peak is no smaller.
pub open spec fn holds_sample(w: BudgetView, e: Event) -> bool {
    w.start <= e.ts_mono_ns <= w.end && !less(w.share(), share_of(e))
}

/// Some window holds a sample.
pub open spec fn is_held(rows: Seq<BudgetView>, e: Event) -> bool {
    exists|r: int| 0 <= r < rows.len() && holds_sample(#[trigger] rows[r], e)
}

/// Some sample is the peak of a window.
pub open spec fn has_peak(
    events: Seq<Event>,
    w: BudgetView,
    scopes: Seq<ScopeView>,
    warn: Bin,
) -> bool {
    exists|i: int|
        0 <= i < events.len() && peaks_at_sample(w, #[trigger] events[i], scopes, warn)
}

/// A window of one sample.
spec fn is_fresh(w: BudgetView, e: Event, scopes: Seq<ScopeView>, warn: Bin) -> bool {
    w.start == e.ts_mono_ns && w.end == e.ts_mono_ns && peaks_at_sample(w, e, scopes, warn)
        && w.share() == share_of(e)
}

/// The window `w`, reaching to the sample `e`: with `e` as its peak where its share is
/// larger, and else with its own.
spec fn reaches_to(
    v: BudgetView,
    w: BudgetView,
    e: Event,
    scopes: Seq<ScopeView>,
    warn: Bin,
) -> bool {
    &&& v.start == w.start
    &&& v.end >= w.end && v.end >= e.ts_mono_ns && (v.end == w.end || v.end == e.ts_mono_ns)
    &&& if less(w.share(), share_of(e)) {
        v.share() == share_of(e) && (w.start <= e.ts_mono_ns ==> peaks_at_sample(
            v,
            e,
            scopes,
            warn,
        ))
    } else {
        v == BudgetView { end: v.end, ..w }
    }
}

/// What one sample over the threshold does.
proof fn lemma_step(
    rows: Seq<BudgetView>,
    e: Event,
    scopes: Seq<ScopeView>,
    warn: Bin,
    gap: u64,
)
    ensures
        ({
            let t = budget_step(rows, e, scopes, warn, gap);
            if !is_over(e, warn) {
                t == rows
            } else if rows.len() > 0 && lateness(rows.last().end, e.ts_mono_ns) <= gap {
                &&& t.len() == rows.len()
                &&& forall|r: int| 0 <= r < rows.len() - 1 ==> #[trigger] t[r] == rows[r]
                &&& reaches_to(t.last(), rows.last(), e, scopes, warn)
            } else {
                &&& t.len() == rows.len() + 1
                &&& forall|r: int| 0 <= r < rows.len() ==> #[trigger] t[r] == rows[r]
                &&& is_fresh(t.last(), e, scopes, warn)
            }
        }),
{
}

/// Every sample over the threshold is held.
spec fn all_held(events: Seq<Event>, rows: Seq<BudgetView>, warn: Bin) -> bool {
    forall|i: int|
        0 <= i < events.len() && is_over(#[trigger] events[i], warn) ==> is_held(rows, events[i])
}

/// Every window has a peak.
spec fn all_peaks(
    events: Seq<Event>,
    rows: Seq<BudgetView>,
    scopes: Seq<ScopeView>,
    warn: Bin,
) -> bool {
    forall|r: int| 0 <= r < rows.len() ==> has_peak(events, #[trigger] rows[r], scopes, warn)
}

/// The grown window holds what the old one did, and the new sample.
proof fn lemma_reaches(
    v: BudgetView,
    w: BudgetView,
    e: Event,
    x: Event,
    scopes: Seq<ScopeView>,
    warn: Bin,
)
    requires
        reaches_to(v, w, e, scopes, warn),
    ensures
        holds_sample(w, x) ==> holds_sample(v, x),
        w.start <= e.ts_mono_ns ==> holds_sample(v, e),
{
    let (a, b, c) = (v.share(), w.share(), share_of(x));
    crate::rounding::less_is_strict(share_of(e), share_of(e));
    crate::rounding::less_is_strict(b, share_of(e));
    comparing_carries_over(a, b, c);
}

proof fn lemma_held_step(
    events: Seq<Event>,
    rows: Seq<BudgetView>,
    e: Event,
    scopes: Seq<ScopeView>,
    warn: Bin,
    gap: u64,
)
    requires
        all_held(events, rows, warn),
        rows.len() > 0 ==> rows.last().start <= e.ts_mono_ns,
    ensures
        all_held(events.push(e), budget_step(rows, e, scopes, warn, gap), warn),
{
    let t = budget_step(rows, e, scopes, warn, gap);
    let all = events.push(e);
    lemma_step(rows, e, scopes, warn, gap);
    let merges = is_over(e, warn) && rows.len() > 0 && lateness(rows.last().end, e.ts_mono_ns)
        <= gap;
    assert forall|i: int| 0 <= i < all.len() && is_over(#[trigger] all[i], warn) implies is_held(
        t,
        all[i],
    ) by {
        let x = all[i];
        if i < events.len() {
            assert(x == events[i]);
            assert(is_held(rows, events[i]));
            let r = choose|r: int| 0 <= r < rows.len() && holds_sample(#[trigger] rows[r], x);
            if merges && r == rows.len() - 1 {
                lemma_reaches(t[r], rows[r], e, x, scopes, warn);
            }
            assert(holds_sample(t[r], x));
        } else {
            let r = t.len() - 1;
            if merges {
                lemma_reaches(t[r], rows[r], e, e, scopes, warn);
            } else {
                crate::rounding::less_is_strict(share_of(e), share_of(e));
            }
            assert(holds_sample(t[r], x));
        }
    }
}

proof fn lemma_peak_step(
    events: Seq<Event>,
    rows: Seq<BudgetView>,
    e: Event,
    scopes: Seq<ScopeView>,
    warn: Bin,
    gap: u64,
)
    requires
        all_peaks(events, rows, scopes, warn),
        rows.len() > 0 ==> rows.last().start <= e.ts_mono_ns,
    ensures
        all_peaks(events.push(e), budget_step(rows, e, scopes, warn, gap), scopes, warn),
{
    let t = budget_step(rows, e, scopes, warn, gap);
    let all = events.push(e);
    lemma_step(rows, e, scopes, warn, gap);
    assert forall|r: int| 0 <= r < t.len() implies has_peak(
        all,
        #[trigger] t[r],
        scopes,
        warn,
    ) by {
        if r < rows.len() {
            assert(has_peak(events, rows[r], scopes, warn));
            let i = choose|i: int|
                0 <= i < events.len() && peaks_at_sample(
                    rows[r],
                    #[trigger] events[i],
                    scopes,
                    warn,
                );
            if peaks_at_sample(t[r], events[i], scopes, warn) {
                assert(peaks_at_sample(t[r], all[i], scopes, warn));
            } else {
                assert(peaks_at_sample(t[r], all[events.len() as int], scopes, warn));
            }
        } else {
            assert(peaks_at_sample(t[r], all[events.len() as int], scopes, warn));
        }
    }
}

/// Windows are further apart than the gap.
spec fn all_apart(rows: Seq<BudgetView>, gap: u64) -> bool {
    forall|r: int| 0 <= r < rows.len() - 1 ==> (#[trigger] rows[r + 1]).start - rows[r].end > gap
}

proof fn lemma_apart_step(
    rows: Seq<BudgetView>,
    e: Event,
    scopes: Seq<ScopeView>,
    warn: Bin,
    gap: u64,
)
    requires
        all_apart(rows, gap),
        rows.len() > 0 ==> rows.last().end <= e.ts_mono_ns,
    ensures
        ({
            let t = budget_step(rows, e, scopes, warn, gap);
            &&& all_apart(t, gap)
            &&& t.len() > 0 ==> t.last().end <= e.ts_mono_ns
        }),
{
    let t = budget_step(rows, e, scopes, warn, gap);
    lemma_step(rows, e, scopes, warn, gap);
    assert forall|r: int| 0 <= r < t.len() - 1 implies (#[trigger] t[r + 1]).start - t[r].end
        > gap by {
        if r + 1 < rows.len() {
            assert(rows[r + 1].start - rows[r].end > gap);
        }
    }
}

/// A window starts before it ends.
proof fn lemma_starts(
    events: Seq<Event>,
    rows: Seq<BudgetView>,
    scopes: Seq<ScopeView>,
    warn: Bin,
)
    requires
        all_peaks(events, rows, scopes, warn),
        rows.len() > 0,
    ensures
        rows.last().start <= rows.last().end,
{
    assert(has_peak(events, rows[rows.len() - 1], scopes, warn));
}

proof fn lemma_windows(events: Seq<Event>, scopes: Seq<ScopeView>, warn: Bin, gap: u64)
    requires
        in_time(events),
    ensures
        all_held(events, budget_scan(events, scopes, warn, gap), warn),
        all_peaks(events, budget_scan(events, scopes, warn, gap), scopes, warn),
        all_apart(budget_scan(events, scopes, warn, gap), gap),
        budget_scan(events, scopes, warn, gap).len() > 0 ==> events.len() > 0 && budget_scan(
            events,
            scopes,
            warn,
            gap,
        ).last().end <= events.last().ts_mono_ns,
    decreases events.len(),
{
    if events.len() > 0 {
        let rest = events.drop_last();
        let e = events[events.len() - 1];
        let s = budget_scan(rest, scopes, warn, gap);
        assert(in_time(rest)) by {
            assert forall|i: int, j: int| 0 <= i < j < rest.len() implies (
            #[trigger] rest[i]).ts_mono_ns <= (#[trigger] rest[j]).ts_mono_ns by {
                assert(events[i].ts_mono_ns <= events[j].ts_mono_ns);
            }
        }
        lemma_windows(rest, scopes, warn, gap);
        if s.len() > 0 {
            assert(events[events.len() - 2].ts_mono_ns <= events[events.len() - 1].ts_mono_ns);
            assert(rest.last() == events[events.len() - 2]);
            lemma_starts(rest, s, scopes, warn);
        }
        assert(rest.push(e) =~= events);
        lemma_held_step(rest, s, e, scopes, warn, gap);
        lemma_peak_step(rest, s, e, scopes, warn, gap);
        lemma_apart_step(s, e, scopes, warn, gap);
    }
}

/// The windows of a stream in time hold exactly its samples over the threshold: each is
/// within a window whose peak it does not exceed, and each window's peak is one of them.
/// Windows are further apart than the gap.
pub proof fn windows_hold_the_samples_over_budget(
    events: Seq<Event>,
    scopes: Seq<ScopeView>,
    warn: Bin,
    gap: u64,
)
    requires
        in_time(events),
    ensures
        ({
            let rows = budget_scan(events, scopes, warn, gap);
            &&& forall|i: int|
                0 <= i < events.len() && is_over(#[trigger] events[i], warn) ==> is_held(
                    rows,
                    events[i],
                )
            &&& forall|r: int|
                0 <= r < rows.len() ==> has_peak(events, #[trigger] rows[r], scopes, warn)
            &&& forall|r: int|
                0 <= r < rows.len() - 1 ==> (#[trigger] rows[r + 1]).start - rows[r].end > gap
        }),
{
    lemma_windows(events, scopes, warn, gap);
}

} // verus!
