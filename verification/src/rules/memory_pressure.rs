//! Flags allocated GPU memory that nears or exceeds the device's recommended
//! working set.
//!
//! Allocated memory is the pressure that can be acted upon: where it approaches
//! the budget, the system starts to evict GPU resources and performance falls
//! off a cliff. The samples over the threshold are told window by window, since
//! one percentage for all of them hides that they are unrelated.

use crate::budget::{
    budget_scan, budget_views, has_peak, in_time, is_held, is_over, over_budget_windows,
    peaks_at_sample, windows_hold_the_samples_over_budget, BudgetView, BudgetWindow,
};
use crate::double::{from_int, is_less, less, of_int, percent, percent_of, quotient, ratio};
use crate::event::Event;
use crate::finding::{
    finding_views, lemma_findings_push, Category, EvidenceRef, EvidenceView, Finding, FindingView,
    Severity,
};
use crate::rounding::{comparing_carries_over, less_is_strict};
use crate::rule::Rule;
use crate::text::{dec, joined, push_dec, views};
use crate::windows::scopes_of;
use vstd::prelude::*;

verus! {

broadcast use vstd::string::group_string_axioms;

pub struct MemoryPressureRule;

/// Samples no further apart than five seconds share a window.
pub const MERGE_GAP_NS: u64 = 5_000_000_000;

/// How many windows are told.
pub const MAX_LINES: usize = 8;

/// The windows at or over nine tenths of the budget.
pub open spec fn pressure_windows(events: Seq<Event>) -> Seq<BudgetView> {
    budget_scan(events, scopes_of(events), ratio(9, 10), MERGE_GAP_NS)
}

/// The index of the window with the largest share, the last of equals.
pub open spec fn worst_window(rows: Seq<BudgetView>) -> int
    decreases rows.len(),
{
    if rows.len() <= 1 {
        0
    } else {
        let w = worst_window(rows.drop_last());
        if less(rows.last().share(), rows[w].share()) {
            w
        } else {
            rows.len() - 1
        }
    }
}

/// Whole seconds from the start of the session to `ts`.
pub open spec fn since_start(events: Seq<Event>, ts: u64) -> int {
    let t0 = if events.len() == 0 {
        0
    } else {
        events[0].ts_mono_ns
    };
    if ts < t0 {
        0
    } else {
        (ts - t0) / 1_000_000_000
    }
}

/// The share of a window in percent.
pub open spec fn window_pct(w: BudgetView) -> Seq<char> {
    dec(percent(w.peak_bytes as nat, w.budget as nat) as int)
}

/// What is told of a window.
pub open spec fn window_line(events: Seq<Event>, w: BudgetView) -> Seq<char> {
    "  t+"@ + dec(since_start(events, w.start)) + "s..t+"@ + dec(since_start(events, w.end))
        + "s peak "@ + dec(w.peak_bytes as int) + " bytes ("@ + window_pct(w) + "%) in scope `"@
        + w.scope + "`"@
}

/// What is told of all windows.
pub open spec fn window_lines(events: Seq<Event>, rows: Seq<BudgetView>) -> Seq<Seq<char>> {
    let lines = rows.map_values(|w: BudgetView| window_line(events, w));
    if lines.len() > MAX_LINES {
        lines.take(MAX_LINES as int).push(
            "  ... "@ + dec(lines.len() - MAX_LINES) + " more window(s) elided"@,
        )
    } else {
        lines
    }
}

/// What the rule finds.
pub open spec fn memory_findings(events: Seq<Event>) -> Seq<FindingView> {
    let rows = pressure_windows(events);
    if rows.len() == 0 {
        seq![]
    } else {
        let w = rows[worst_window(rows)];
        let over = less(of_int(1), w.share());
        seq![
            FindingView {
                severity: if over {
                    Severity::Critical
                } else {
                    Severity::Warning
                },
                category: Category::ContributingFactor,
                title: if over {
                    "GPU memory over the recommended working-set budget ("@ + window_pct(w)
                        + "%) in scope `"@ + w.scope + "` — elevated eviction risk"@
                } else {
                    "GPU memory near the recommended working-set budget ("@ + window_pct(w)
                        + "%) in scope `"@ + w.scope + "`"@
                },
                detail: "peak allocated "@ + dec(w.peak_bytes as int)
                    + " bytes vs recommendedMaxWorkingSetSize "@ + dec(w.budget as int)
                    + " bytes; "@ + dec(rows.len() as int) + " over-budget window(s):\n"@ + joined(
                    window_lines(events, rows),
                    "\n"@,
                ),
                evidence: seq![
                    EvidenceView {
                        seq: w.seq,
                        ts_mono_ns: w.peak_ts,
                        description: "MetalDeviceMemSample — worst window's peak at t+"@ + dec(
                            since_start(events, w.peak_ts),
                        ) + "s"@,
                    },
                ],
            },
        ]
    }
}

/// No window has a larger share than the worst one.
fn find_worst(rows: &Vec<BudgetWindow>) -> (w: usize)
    requires
        rows@.len() > 0,
        forall|i: int| 0 <= i < rows@.len() ==> (#[trigger] rows@[i]).recommended_max_bytes > 0,
    ensures
        w == worst_window(budget_views(rows@)),
        w < rows@.len(),
{
    let ghost all = budget_views(rows@);
    let mut w: usize = 0;
    let mut i: usize = 1;
    while i < rows.len()
        invariant
            1 <= i <= rows@.len(),
            w < i,
            all == budget_views(rows@),
            w == worst_window(all.take(i as int)),
            forall|i: int| 0 <= i < rows@.len() ==> (#[trigger] rows@[i]).recommended_max_bytes > 0,
        decreases rows@.len() - i,
    {
        proof {
            assert(all.take(i + 1).drop_last() =~= all.take(i as int));
            assert(all[i as int] == rows@[i as int]@);
            assert(all[w as int] == rows@[w as int]@);
        }
        if !is_less(rows[i].peak_ratio(), rows[w].peak_ratio()) {
            w = i;
        }
        i = i + 1;
    }
    assert(all.take(all.len() as int) =~= all);
    w
}

fn rel_s(events: &[Event], ts: u64) -> (s: u64)
    ensures
        s == since_start(events@, ts),
{
    let t0: u64 = if events.len() == 0 {
        0
    } else {
        events[0].ts_mono_ns
    };
    ts.saturating_sub(t0) / 1_000_000_000
}

fn line_of(events: &[Event], w: &BudgetWindow) -> (s: String)
    requires
        w.recommended_max_bytes > 0,
    ensures
        s@ == window_line(events@, w@),
{
    let mut s = "  t+".to_owned();
    push_dec(&mut s, rel_s(events, w.start_ts_mono_ns));
    s.append("s..t+");
    push_dec(&mut s, rel_s(events, w.end_ts_mono_ns));
    s.append("s peak ");
    push_dec(&mut s, w.peak_bytes);
    s.append(" bytes (");
    push_dec(&mut s, percent_of(w.peak_bytes, w.recommended_max_bytes));
    s.append("%) in scope `");
    s.append(w.peak_scope.as_str());
    s.append("`");
    s
}

fn lines_of(events: &[Event], rows: &Vec<BudgetWindow>) -> (r: Vec<String>)
    requires
        forall|i: int| 0 <= i < rows@.len() ==> (#[trigger] rows@[i]).recommended_max_bytes > 0,
    ensures
        views(r@) == window_lines(events@, budget_views(rows@)),
{
    let n: usize = rows.len();
    let shown: usize = if n < MAX_LINES {
        n
    } else {
        MAX_LINES
    };
    let mut lines: Vec<String> = Vec::new();
    let mut i: usize = 0;
    while i < shown
        invariant
            i <= shown <= rows@.len(),
            lines@.len() == i,
            forall|i: int| 0 <= i < rows@.len() ==> (#[trigger] rows@[i]).recommended_max_bytes > 0,
            forall|k: int| 0 <= k < i ==> (#[trigger] lines@[k])@ == window_line(events@, rows@[k]@),
        decreases shown - i,
    {
        lines.push(line_of(events, &rows[i]));
        i = i + 1;
    }
    if n > MAX_LINES {
        let mut s = "  ... ".to_owned();
        push_dec(&mut s, (n - MAX_LINES) as u64);
        s.append(" more window(s) elided");
        lines.push(s);
    }
    assert(views(lines@) =~= window_lines(events@, budget_views(rows@)));
    lines
}

impl Rule for MemoryPressureRule {
    open spec fn label(&self) -> Seq<char> {
        "memory_pressure"@
    }

    open spec fn accepts(&self, events: Seq<Event>) -> bool {
        true
    }

    open spec fn findings(&self, events: Seq<Event>) -> Seq<FindingView> {
        memory_findings(events)
    }

    fn name(&self) -> (s: &'static str) {
        "memory_pressure"
    }

    fn can_check(&self, events: &[Event]) -> (b: bool) {
        true
    }

    fn check(&self, events: &[Event]) -> (r: Vec<Finding>) {
        let mut out: Vec<Finding> = Vec::new();
        assert(finding_views(out@) =~= Seq::<FindingView>::empty());
        let rows = over_budget_windows(events, quotient(9, 10), MERGE_GAP_NS);
        if rows.len() == 0 {
            return out;
        }
        let w: usize = find_worst(&rows);
        assert(budget_views(rows@)[w as int] == rows@[w as int]@);
        let worst = &rows[w];
        let over: bool = is_less(from_int(1), worst.peak_ratio());
        let pct: u64 = percent_of(worst.peak_bytes, worst.recommended_max_bytes);
        let title = if over {
            let mut t = "GPU memory over the recommended working-set budget (".to_owned();
            push_dec(&mut t, pct);
            t.append("%) in scope `");
            t.append(worst.peak_scope.as_str());
            t.append("` — elevated eviction risk");
            t
        } else {
            let mut t = "GPU memory near the recommended working-set budget (".to_owned();
            push_dec(&mut t, pct);
            t.append("%) in scope `");
            t.append(worst.peak_scope.as_str());
            t.append("`");
            t
        };
        let lines = lines_of(events, &rows);
        let mut detail = "peak allocated ".to_owned();
        push_dec(&mut detail, worst.peak_bytes);
        detail.append(" bytes vs recommendedMaxWorkingSetSize ");
        push_dec(&mut detail, worst.recommended_max_bytes);
        detail.append(" bytes; ");
        push_dec(&mut detail, rows.len() as u64);
        detail.append(" over-budget window(s):\n");
        detail.append(crate::text::join(&lines, "\n").as_str());
        let mut description = "MetalDeviceMemSample — worst window's peak at t+".to_owned();
        push_dec(&mut description, rel_s(events, worst.peak_ts_mono_ns));
        description.append("s");
        let severity = if over {
            Severity::Critical
        } else {
            Severity::Warning
        };
        let f = Finding::new(severity, Category::ContributingFactor, title.as_str()).with_detail(
            detail.as_str(),
        ).with_evidence(
            EvidenceRef { seq: worst.peak_seq, ts_mono_ns: worst.peak_ts_mono_ns, description },
        );
        proof {
            lemma_findings_push(out@, f);
            let v = memory_findings(events@)[0];
            assert(f@.evidence =~= v.evidence);
        }
        out.push(f);
        assert(finding_views(out@) =~= memory_findings(events@));
        out
    }
}

/// The window that is told first is one of them, and none has a larger share of its budget.
pub proof fn worst_window_is_worst(rows: Seq<BudgetView>)
    requires
        rows.len() > 0,
    ensures
        0 <= worst_window(rows) < rows.len(),
        forall|i: int|
            0 <= i < rows.len() ==> !less(
                rows[worst_window(rows)].share(),
                (#[trigger] rows[i]).share(),
            ),
    decreases rows.len(),
{
    let last = rows.len() - 1;
    less_is_strict(rows[last].share(), rows[last].share());
    if rows.len() > 1 {
        let rest = rows.drop_last();
        worst_window_is_worst(rest);
        let (v, w) = (worst_window(rest), worst_window(rows));
        assert forall|i: int| 0 <= i < rows.len() implies !less(
            rows[w].share(),
            (#[trigger] rows[i]).share(),
        ) by {
            if i < last {
                assert(!less(rest[v].share(), rest[i].share()));
                comparing_carries_over(rows[w].share(), rows[v].share(), rows[i].share());
                comparing_carries_over(rows[last].share(), rows[v].share(), rows[i].share());
            } else {
                comparing_carries_over(rows[last].share(), rows[v].share(), rows[last].share());
            }
        }
    }
}

/// Memory pressure is told exactly where some sample is at or over nine tenths of its
/// budget, samples no more than five seconds apart in one window. It is critical exactly
/// where the worst window is over its budget.
pub proof fn memory_pressure_is_told_from_the_threshold_on(events: Seq<Event>)
    requires
        in_time(events),
    ensures
        ({
            let pressed = exists|i: int|
                0 <= i < events.len() && is_over(#[trigger] events[i], ratio(9, 10));
            let rows = budget_scan(events, scopes_of(events), ratio(9, 10), 5_000_000_000);
            let found = memory_findings(events);
            &&& !pressed ==> found.len() == 0
            &&& pressed ==> rows.len() > 0 && found.len() == 1 && {
                let w = rows[worst_window(rows)];
                &&& found[0].evidence.len() == 1
                &&& found[0].evidence[0].seq == w.seq
                &&& found[0].evidence[0].ts_mono_ns == w.peak_ts
                &&& found[0].severity == if less(of_int(1), w.share()) {
                    Severity::Critical
                } else {
                    Severity::Warning
                }
            }
        }),
{
    let rows = pressure_windows(events);
    windows_hold_the_samples_over_budget(
        events,
        scopes_of(events),
        ratio(9, 10),
        5_000_000_000,
    );
    if exists|i: int| 0 <= i < events.len() && is_over(#[trigger] events[i], ratio(9, 10)) {
        let i = choose|i: int|
            0 <= i < events.len() && is_over(#[trigger] events[i], ratio(9, 10));
        assert(is_held(rows, events[i]));
    }
    if rows.len() > 0 {
        assert(has_peak(events, rows[0], scopes_of(events), ratio(9, 10)));
        let i = choose|i: int|
            0 <= i < events.len() && peaks_at_sample(
                rows[0],
                #[trigger] events[i],
                scopes_of(events),
                ratio(9, 10),
            );
        assert(is_over(events[i], ratio(9, 10)));
    }
}

} // verus!
