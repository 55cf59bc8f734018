//! Surfaces the attribution gap of fully lazy programs.
//!
//! A program that evaluates each step's whole graph with one eval outside all
//! modules yields windows with an empty module stack: the modules are
//! instrumented, and still everything is reported as unscoped. What can be done
//! is to detect the pattern and to tell how to fix the attribution.

use crate::command_buffers::{
    cb_ns, cb_views, cbs_of, clamped_command_buffers, sampled_of, try_cb_ns, CbView,
    CommandBuffers,
};
use crate::event::{lemma_prefix_step, Event, Payload};
use crate::finding::{
    finding_views, lemma_findings_push, Category, EvidenceRef, EvidenceView, Finding, FindingView,
    Severity,
};
use crate::op_clamp::{can_clamp, clamp_fits};
use crate::rule::Rule;
use crate::text::{dec, push_dec};
use crate::windows::{
    eval_at, eval_spans, eval_views, eval_windows, evals_of, last_covering, EvalView,
};
use std::collections::HashSet;
use vstd::prelude::*;

verus! {

broadcast use {
    vstd::std_specs::hash::group_hash_axioms,
    vstd::string::group_string_axioms,
};

/// The least share of the GPU time, in percent, that is reported.
pub const LAZY_GAP_THRESHOLD_PCT: u64 = 50;

/// An attribution gap.
#[derive(Debug, Clone, PartialEq, Eq)]
pub struct LazyEvalGap {
    /// GPU time of eval windows whose module stack was empty.
    pub gap_gpu_ns: u64,
    /// GPU time of all completed command buffers.
    pub total_gpu_ns: u64,
    /// Number of module calls in the session.
    pub module_call_count: u64,
    /// Number of evals with an empty stack that received GPU time.
    pub lazy_eval_count: u64,
    /// `seq` of the first of them.
    pub first_seq: u64,
    pub first_ts_mono_ns: u64,
}

pub const ACTIVE_CAUSE: &'static str =
    "module instrumentation is active, but the graph is evaluated lazily by mx.eval() calls made outside any module forward (typically a single eval per step at pipeline level)";

pub const ABSENT_CAUSE: &'static str =
    "the recorded process calls mx.eval() with no module or scope instrumentation around the work";

pub const GAP_ADVICE: &'static str =
    ", so it is reported as <unscoped>. Add smeltr.scope(\"...\") around pipeline stages for semantic attribution, or record with SMELTR_STACK_CAPTURE=1 and use `smeltr origins` for file:line attribution.";

impl LazyEvalGap {
    /// The share of the gap in percent, rounded down; none of nothing.
    pub open spec fn share(self) -> u64 {
        if self.total_gpu_ns == 0 {
            0
        } else {
            ((self.gap_gpu_ns * 100) / self.total_gpu_ns as int) as u64
        }
    }

    /// What to do about the gap.
    pub open spec fn advice_text(self) -> Seq<char> {
        dec(self.share() as int) + "% of GPU time cannot be attributed to modules: "@ + if
            self.module_call_count > 0 {
            ACTIVE_CAUSE@
        } else {
            ABSENT_CAUSE@
        } + GAP_ADVICE@
    }

    pub fn gap_pct(&self) -> (p: u64)
        requires
            self.gap_gpu_ns * 100 <= u64::MAX,
        ensures
            p == self.share(),
    {
        if self.total_gpu_ns == 0 {
            0
        } else {
            proof {
                let (a, b) = (self.gap_gpu_ns * 100, self.total_gpu_ns as int);
                assert(0 <= a / b <= a) by (nonlinear_arith)
                    requires
                        0 <= a,
                        b >= 1,
                ;
            }
            (self.gap_gpu_ns * 100) / self.total_gpu_ns
        }
    }

    /// What to do about the gap.
    pub fn advice(&self) -> (s: String)
        requires
            self.gap_gpu_ns * 100 <= u64::MAX,
        ensures
            s@ == self.advice_text(),
    {
        let mut s = crate::text::dec_text(self.gap_pct());
        s.append("% of GPU time cannot be attributed to modules: ");
        if self.module_call_count > 0 {
            s.append(ACTIVE_CAUSE);
        } else {
            s.append(ABSENT_CAUSE);
        }
        s.append(GAP_ADVICE);
        s
    }
}

/// What adding up command buffers has found so far.
pub ghost struct GapScan {
    pub gap: nat,
    pub total: nat,
    /// The evals with an empty stack that received GPU time.
    pub evals: Set<usize>,
    /// The least sequence number and time of them.
    pub first: Option<(u64, u64)>,
}

/// The lesser of two places in the stream.
pub open spec fn earlier(a: Option<(u64, u64)>, b: (u64, u64)) -> (u64, u64) {
    match a {
        None => b,
        Some(a) => if b.0 < a.0 || (b.0 == a.0 && b.1 < a.1) {
            b
        } else {
            a
        },
    }
}

/// Adds up command buffers. One that commits within an eval with an empty stack
/// belongs to the gap.
pub open spec fn gap_scan(cbs: Seq<CbView>, sampled: bool, evals: Seq<EvalView>) -> GapScan
    decreases cbs.len(),
{
    if cbs.len() == 0 {
        GapScan { gap: 0, total: 0, evals: Set::empty(), first: None }
    } else {
        let s = gap_scan(cbs.drop_last(), sampled, evals);
        let ns = cb_ns(cbs.last(), sampled);
        match last_covering(eval_spans(evals), cbs.last().commit_ts) {
            Some(i) => if evals[i].module_stack.len() == 0 && ns > 0 {
                GapScan {
                    gap: s.gap + ns,
                    total: s.total + ns,
                    evals: s.evals.insert(i as usize),
                    first: Some(earlier(s.first, (evals[i].seq, evals[i].t_in))),
                }
            } else {
                GapScan { total: s.total + ns, ..s }
            },
            None => GapScan { total: s.total + ns, ..s },
        }
    }
}

/// The number of module calls of a stream.
pub open spec fn module_calls(events: Seq<Event>) -> nat
    decreases events.len(),
{
    if events.len() == 0 {
        0
    } else {
        module_calls(events.drop_last()) + if events.last().payload is ModuleEntered {
            1nat
        } else {
            0nat
        }
    }
}

/// The command buffers of a session, added up.
pub open spec fn gaps_of(events: Seq<Event>) -> GapScan {
    gap_scan(cbs_of(events), sampled_of(events), evals_of(events))
}

/// The gap of a session, where it reaches the threshold.
pub open spec fn gap_of(events: Seq<Event>) -> Option<LazyEvalGap> {
    let s = gaps_of(events);
    match s.first {
        None => None,
        Some(first) => {
            let gap = LazyEvalGap {
                gap_gpu_ns: s.gap as u64,
                total_gpu_ns: s.total as u64,
                module_call_count: module_calls(events) as u64,
                lazy_eval_count: s.evals.len() as u64,
                first_seq: first.0,
                first_ts_mono_ns: first.1,
            };
            if gap.share() >= LAZY_GAP_THRESHOLD_PCT {
                Some(gap)
            } else {
                None
            }
        },
    }
}

/// The command buffers can be added up, and the percentage of the gap taken.
pub open spec fn gap_fits(events: Seq<Event>) -> bool {
    &&& clamp_fits(events)
    &&& gaps_of(events).total <= u64::MAX
    &&& gaps_of(events).gap * 100 <= u64::MAX
}

proof fn lemma_gap_scan(cbs: Seq<CbView>, sampled: bool, evals: Seq<EvalView>)
    ensures
        gap_scan(cbs, sampled, evals).gap <= gap_scan(cbs, sampled, evals).total,
    decreases cbs.len(),
{
    if cbs.len() > 0 {
        lemma_gap_scan(cbs.drop_last(), sampled, evals);
    }
}

/// Fewer command buffers take no more time.
proof fn lemma_gap_prefix(cbs: Seq<CbView>, sampled: bool, evals: Seq<EvalView>, i: int)
    requires
        0 <= i <= cbs.len(),
    ensures
        gap_scan(cbs.take(i), sampled, evals).total <= gap_scan(cbs, sampled, evals).total,
    decreases cbs.len() - i,
{
    if i == cbs.len() {
        assert(cbs.take(i) =~= cbs);
    } else {
        lemma_gap_prefix(cbs, sampled, evals, i + 1);
        assert(cbs.take(i + 1).drop_last() =~= cbs.take(i));
    }
}

/// The sums behind a gap.
struct GapSums {
    gap: u64,
    total: u64,
    evals: u64,
    first: Option<(u64, u64)>,
}

/// Adds up the command buffers of a session, or gives `None` where a sum does
/// not fit 64 bits.
fn gap_sums(events: &[Event]) -> (r: Option<GapSums>)
    ensures
        r is Some <==> clamp_fits(events@) && gaps_of(events@).total <= u64::MAX,
        r matches Some(r) ==> {
            &&& r.gap == gaps_of(events@).gap
            &&& r.total == gaps_of(events@).total
            &&& r.evals == gaps_of(events@).evals.len() as u64
            &&& r.first == gaps_of(events@).first
        },
{
    if !can_clamp(events) {
        return None;
    }
    let evals = eval_windows(events);
    let buffers: CommandBuffers = clamped_command_buffers(events);
    let cbs = &buffers.completed;
    let ghost all = cb_views(cbs@);
    let ghost ev = eval_views(evals@);
    let mut gap: u64 = 0;
    let mut total: u64 = 0;
    let mut lazy: HashSet<usize> = HashSet::new();
    let mut first: Option<(u64, u64)> = None;
    let mut i: usize = 0;
    assert(all.take(0) =~= Seq::<CbView>::empty());
    while i < cbs.len()
        invariant
            i <= cbs@.len(),
            all == cb_views(cbs@),
            ev == eval_views(evals@),
            gaps_of(events@) == gap_scan(all, buffers.sampled, ev),
            gap_scan(all.take(i as int), buffers.sampled, ev) == (GapScan {
                gap: gap as nat,
                total: total as nat,
                evals: lazy@,
                first,
            }),
        decreases cbs@.len() - i,
    {
        proof {
            assert(all.take(i + 1).drop_last() =~= all.take(i as int));
            assert(all[i as int] == cbs@[i as int]@);
            lemma_gap_prefix(all, buffers.sampled, ev, i + 1);
            lemma_gap_scan(all.take(i + 1), buffers.sampled, ev);
        }
        let ns: u64 = match try_cb_ns(&cbs[i], buffers.sampled) {
            Some(ns) => ns,
            None => return None,
        };
        total = match total.checked_add(ns) {
            Some(more) => more,
            None => return None,
        };
        if let Some(k) = eval_at(&evals, cbs[i].commit_ts) {
            assert(ev[k as int] == evals@[k as int]@);
            if evals[k].module_stack.len() == 0 && ns > 0 {
                gap = gap + ns;
                lazy.insert(k);
                let (s, t): (u64, u64) = (evals[k].seq, evals[k].t_in);
                first =
                match first {
                    None => Some((s, t)),
                    Some(f) => if s < f.0 || (s == f.0 && t < f.1) {
                        Some((s, t))
                    } else {
                        Some(f)
                    },
                };
            }
        }
        i = i + 1;
    }
    assert(all.take(all.len() as int) =~= all);
    Some(GapSums { gap, total, evals: lazy.len() as u64, first })
}

/// Detects the gap. A command buffer belongs to the eval that covers its
/// commit, as in the breakdown; what no eval covers never counts toward the
/// gap.
pub fn detect(events: &[Event]) -> (r: Option<LazyEvalGap>)
    requires
        gap_fits(events@),
    ensures
        r == gap_of(events@),
{
    let sums = match gap_sums(events) {
        Some(sums) => sums,
        None => return None,
    };
    let (first_seq, first_ts_mono_ns): (u64, u64) = match sums.first {
        Some(f) => f,
        None => {
            return None;
        },
    };
    let mut calls: u64 = 0;
    let mut i: usize = 0;
    while i < events.len()
        invariant
            i <= events@.len(),
            calls <= i,
            calls == module_calls(events@.take(i as int)),
        decreases events@.len() - i,
    {
        proof {
            lemma_prefix_step(events@, i as int);
        }
        if let Payload::ModuleEntered { .. } = &events[i].payload {
            calls = calls + 1;
        }
        i = i + 1;
    }
    assert(events@.take(events@.len() as int) =~= events@);
    let gap = LazyEvalGap {
        gap_gpu_ns: sums.gap,
        total_gpu_ns: sums.total,
        module_call_count: calls,
        lazy_eval_count: sums.evals,
        first_seq,
        first_ts_mono_ns,
    };
    if gap.gap_pct() >= LAZY_GAP_THRESHOLD_PCT {
        Some(gap)
    } else {
        None
    }
}

pub struct LazyEvalAttributionRule;

/// What the rule finds.
pub open spec fn lazy_findings(events: Seq<Event>) -> Seq<FindingView> {
    match gap_of(events) {
        None => seq![],
        Some(g) => seq![
            FindingView {
                severity: Severity::Warning,
                category: Category::ContributingFactor,
                title: "module attribution gap: "@ + dec(g.share() as int)
                    + "% of GPU time evaluated outside module windows (lazy graph)"@,
                detail: g.advice_text(),
                evidence: seq![
                    EvidenceView {
                        seq: g.first_seq,
                        ts_mono_ns: g.first_ts_mono_ns,
                        description:
                            "first empty-module-stack mx.eval that received GPU time ("@ + dec(
                            g.lazy_eval_count as int,
                        ) + " such eval(s), "@ + dec(g.module_call_count as int)
                            + " ModuleEntered in session)"@,
                    },
                ],
            },
        ],
    }
}

impl Rule for LazyEvalAttributionRule {
    open spec fn label(&self) -> Seq<char> {
        "lazy_eval_attribution"@
    }

    open spec fn accepts(&self, events: Seq<Event>) -> bool {
        gap_fits(events)
    }

    open spec fn findings(&self, events: Seq<Event>) -> Seq<FindingView> {
        lazy_findings(events)
    }

    fn name(&self) -> (s: &'static str) {
        "lazy_eval_attribution"
    }

    fn can_check(&self, events: &[Event]) -> (b: bool) {
        match gap_sums(events) {
            Some(sums) => sums.gap <= u64::MAX / 100,
            None => false,
        }
    }

    fn check(&self, events: &[Event]) -> (r: Vec<Finding>) {
        let mut out: Vec<Finding> = Vec::new();
        assert(finding_views(out@) =~= Seq::<FindingView>::empty());
        let gap = match detect(events) {
            Some(gap) => gap,
            None => {
                return out;
            },
        };
        proof {
            lemma_gap_fits_u64(events@);
        }
        let mut title = "module attribution gap: ".to_owned();
        push_dec(&mut title, gap.gap_pct());
        title.append("% of GPU time evaluated outside module windows (lazy graph)");
        let mut description = "first empty-module-stack mx.eval that received GPU time (".to_owned();
        push_dec(&mut description, gap.lazy_eval_count);
        description.append(" such eval(s), ");
        push_dec(&mut description, gap.module_call_count);
        description.append(" ModuleEntered in session)");
        let f = Finding::new(
            Severity::Warning,
            Category::ContributingFactor,
            title.as_str(),
        ).with_detail(gap.advice().as_str()).with_evidence(
            EvidenceRef {
                seq: gap.first_seq,
                ts_mono_ns: gap.first_ts_mono_ns,
                description,
            },
        );
        proof {
            lemma_findings_push(out@, f);
            let v = lazy_findings(events@)[0];
            assert(f@.evidence =~= v.evidence);
        }
        out.push(f);
        assert(finding_views(out@) =~= lazy_findings(events@));
        out
    }
}

/// Where the gap fits, its sum is what the record holds.
proof fn lemma_gap_fits_u64(events: Seq<Event>)
    requires
        gap_fits(events),
    ensures
        gap_of(events) matches Some(g) ==> g.gap_gpu_ns * 100 <= u64::MAX,
{
}

/// A gap is never larger than the whole, and is reported only from the
/// threshold on.
pub proof fn gap_is_a_share(events: Seq<Event>)
    requires
        gap_fits(events),
    ensures
        gap_of(events) matches Some(g) ==> g.gap_gpu_ns <= g.total_gpu_ns && g.gap_gpu_ns > 0
            && LAZY_GAP_THRESHOLD_PCT <= g.share() <= 100,
{
    let cbs = cbs_of(events);
    lemma_gap_scan(cbs, sampled_of(events), evals_of(events));
    lemma_gap_positive(cbs, sampled_of(events), evals_of(events));
    if let Some(g) = gap_of(events) {
        let (a, b) = (g.gap_gpu_ns as int, g.total_gpu_ns as int);
        assert((a * 100) / b <= 100) by (nonlinear_arith)
            requires
                0 <= a <= b,
                b > 0,
        ;
    }
}

proof fn lemma_gap_positive(cbs: Seq<CbView>, sampled: bool, evals: Seq<EvalView>)
    ensures
        gap_scan(cbs, sampled, evals).first is Some ==> gap_scan(cbs, sampled, evals).gap > 0,
    decreases cbs.len(),
{
    if cbs.len() > 0 {
        lemma_gap_positive(cbs.drop_last(), sampled, evals);
    }
}

} // verus!
