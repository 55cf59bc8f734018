//! Flags a resident GPU working set that nears or exceeds the recommended
//! budget.

use crate::double::{from_int, is_less, less, of_int, percent, percent_of, quotient, ratio, Bin};
use crate::event::{lemma_prefix_step, Event, Payload};
use crate::finding::{
    finding_views, lemma_findings_push, Category, EvidenceRef, EvidenceView, Finding, FindingView,
    Severity,
};
use crate::rule::Rule;
use crate::text::{dec, push_dec};
use vstd::prelude::*;

verus! {

broadcast use vstd::string::group_string_axioms;

pub struct ResidencyPressureRule;

/// The sample with the largest share of its budget.
pub ghost struct Worst {
    pub seq: u64,
    pub ts: u64,
    pub resident: u64,
    pub budget: u64,
}

impl Worst {
    /// The share of the budget.
    pub open spec fn share(self) -> Bin {
        ratio(self.resident as nat, self.budget as nat)
    }
}

/// The worst of the samples at or over nine tenths of their budget, the first
/// of equals.
pub open spec fn worst_sample(events: Seq<Event>) -> Option<Worst>
    decreases events.len(),
{
    if events.len() == 0 {
        None
    } else {
        let w = worst_sample(events.drop_last());
        let e = events.last();
        match e.payload {
            Payload::MetalResidencySample { resident_bytes, recommended_max_bytes, .. } => {
                let x = Worst {
                    seq: e.seq,
                    ts: e.ts_mono_ns,
                    resident: resident_bytes,
                    budget: recommended_max_bytes,
                };
                if x.budget == 0 || less(x.share(), ratio(9, 10)) {
                    w
                } else {
                    match w {
                        None => Some(x),
                        Some(y) => if less(y.share(), x.share()) {
                            Some(x)
                        } else {
                            w
                        },
                    }
                }
            },
            _ => w,
        }
    }
}

/// What the rule finds.
pub open spec fn residency_findings(events: Seq<Event>) -> Seq<FindingView> {
    match worst_sample(events) {
        None => seq![],
        Some(w) => {
            let over = less(of_int(1), w.share());
            let pct = dec(percent(w.resident as nat, w.budget as nat) as int);
            seq![
                FindingView {
                    severity: if over {
                        Severity::Critical
                    } else {
                        Severity::Warning
                    },
                    category: Category::ContributingFactor,
                    title: if over {
                        "Resident GPU working set over the recommended budget ("@ + pct
                            + "%) — elevated eviction risk"@
                    } else {
                        "Resident GPU working set near the recommended budget ("@ + pct + "%)"@
                    },
                    detail: "peak resident "@ + dec(w.resident as int)
                        + " bytes vs recommendedMaxWorkingSetSize "@ + dec(w.budget as int)
                        + " bytes"@,
                    evidence: seq![
                        EvidenceView {
                            seq: w.seq,
                            ts_mono_ns: w.ts,
                            description: "MetalResidencySample"@,
                        },
                    ],
                },
            ]
        },
    }
}

/// The worst sample of a stream.
fn find_worst(events: &[Event]) -> (r: Option<(u64, u64, u64, u64)>)
    ensures
        match worst_sample(events@) {
            Some(w) => r == Some((w.seq, w.ts, w.resident, w.budget)) && w.budget > 0,
            None => r is None,
        },
{
    let warn = quotient(9, 10);
    let mut worst: Option<(u64, u64, u64, u64)> = None;
    let mut i: usize = 0;
    while i < events.len()
        invariant
            i <= events@.len(),
            warn@ == ratio(9, 10),
            warn@.moderate(),
            match worst_sample(events@.take(i as int)) {
                Some(w) => worst == Some((w.seq, w.ts, w.resident, w.budget)) && w.budget > 0,
                None => worst is None,
            },
        decreases events@.len() - i,
    {
        proof {
            lemma_prefix_step(events@, i as int);
        }
        let ev = &events[i];
        if let Payload::MetalResidencySample { resident_bytes, recommended_max_bytes, .. } =
            &ev.payload {
            if *recommended_max_bytes > 0 {
                let share = quotient(*resident_bytes, *recommended_max_bytes);
                if !is_less(share, warn) {
                    let worse: bool = match worst {
                        None => true,
                        Some(w) => is_less(quotient(w.2, w.3), share),
                    };
                    if worse {
                        worst =
                        Some((ev.seq, ev.ts_mono_ns, *resident_bytes, *recommended_max_bytes));
                    }
                }
            }
        }
        i = i + 1;
    }
    assert(events@.take(events@.len() as int) =~= events@);
    worst
}

impl Rule for ResidencyPressureRule {
    open spec fn label(&self) -> Seq<char> {
        "residency_pressure"@
    }

    open spec fn accepts(&self, events: Seq<Event>) -> bool {
        true
    }

    open spec fn findings(&self, events: Seq<Event>) -> Seq<FindingView> {
        residency_findings(events)
    }

    fn name(&self) -> (s: &'static str) {
        "residency_pressure"
    }

    fn can_check(&self, events: &[Event]) -> (b: bool) {
        true
    }

    fn check(&self, events: &[Event]) -> (r: Vec<Finding>) {
        let mut out: Vec<Finding> = Vec::new();
        assert(finding_views(out@) =~= Seq::<FindingView>::empty());
        if let Some((seq, ts_mono_ns, resident, budget)) = find_worst(events) {
            let over: bool = is_less(from_int(1), quotient(resident, budget));
            let pct: u64 = percent_of(resident, budget);
            let title = if over {
                let mut t = "Resident GPU working set over the recommended budget (".to_owned();
                push_dec(&mut t, pct);
                t.append("%) — elevated eviction risk");
                t
            } else {
                let mut t = "Resident GPU working set near the recommended budget (".to_owned();
                push_dec(&mut t, pct);
                t.append("%)");
                t
            };
            let mut detail = "peak resident ".to_owned();
            push_dec(&mut detail, resident);
            detail.append(" bytes vs recommendedMaxWorkingSetSize ");
            push_dec(&mut detail, budget);
            detail.append(" bytes");
            let severity = if over {
                Severity::Critical
            } else {
                Severity::Warning
            };
            let f = Finding::new(severity, Category::ContributingFactor, title.as_str()).with_detail(
                detail.as_str(),
            ).with_evidence(
                EvidenceRef { seq, ts_mono_ns, description: "MetalResidencySample".to_owned() },
            );
            proof {
                lemma_findings_push(out@, f);
                let v = residency_findings(events@)[0];
                assert(f@.evidence =~= v.evidence);
            }
            out.push(f);
        }
        assert(finding_views(out@) =~= residency_findings(events@));
        out
    }
}

} // verus!
