//! Surfaces degraded capture of the Metal hook.
//!
//! That kernel attribution was lost for an hour is told in a single event among
//! hundreds of thousands. Disabled sampling, ring corruption
//! and dropped events each yield a warning, so that nobody takes incomplete
//! numbers for complete ones.

use crate::event::{lemma_prefix_step, Event, Payload};
use crate::finding::{
    finding_views, lemma_findings_push, Category, EvidenceRef, EvidenceView, Finding, FindingView,
    Severity,
};
use crate::rule::Rule;
use crate::text::{contains, dec, has, push_dec};
use vstd::prelude::*;

verus! {

broadcast use vstd::string::group_string_axioms;

pub struct HookDegradationRule;

pub const DISABLED_DETAIL: &'static str =
    "Per-op GPU attribution (origins/op-summary/breakdown) is incomplete from this point until sampling is re-enabled.";

pub const CORRUPT_DETAIL: &'static str =
    "Corrupt ring frames were skipped; some Metal events are lost.";

pub const DROPPED_DETAIL: &'static str =
    "The mmap ring filled faster than the daemon drained it; Metal events were dropped at the source.";

/// The reason of an event that tells of something skipped, where it holds
/// `mark`.
pub open spec fn skip_reason(e: Event, mark: Seq<char>) -> Option<Seq<char>> {
    match e.payload {
        Payload::MetalHookSkipped { reason } => if contains(reason@, mark) {
            Some(reason@)
        } else {
            None
        },
        _ => None,
    }
}

/// What is told where sampling was disabled.
pub open spec fn disabled(e: Event, reason: Seq<char>) -> FindingView {
    FindingView {
        severity: Severity::Warning,
        category: Category::ContributingFactor,
        title: "GPU op timing degraded: "@ + reason,
        detail: DISABLED_DETAIL@,
        evidence: seq![
            EvidenceView {
                seq: e.seq,
                ts_mono_ns: e.ts_mono_ns,
                description: "MetalHookSkipped: "@ + reason,
            },
        ],
    }
}

/// One finding for each time sampling was disabled.
pub open spec fn disables(events: Seq<Event>) -> Seq<FindingView>
    decreases events.len(),
{
    if events.len() == 0 {
        seq![]
    } else {
        let rest = disables(events.drop_last());
        match skip_reason(events.last(), "sampling disabled"@) {
            Some(reason) => rest.push(disabled(events.last(), reason)),
            None => rest,
        }
    }
}

/// How often corrupt frames were skipped, and the first such event.
pub ghost struct Corruption {
    pub count: nat,
    pub first: Option<int>,
}

/// The ring corruption of a stream.
pub open spec fn corruption(events: Seq<Event>) -> Corruption
    decreases events.len(),
{
    if events.len() == 0 {
        Corruption { count: 0, first: None }
    } else {
        let c = corruption(events.drop_last());
        match skip_reason(events.last(), "ring decode error"@) {
            Some(_) => Corruption {
                count: c.count + 1,
                first: match c.first {
                    Some(i) => Some(i),
                    None => Some(events.len() - 1),
                },
            },
            None => c,
        }
    }
}

/// How many events were dropped, and the first event that says so.
pub ghost struct Drops {
    pub total: nat,
    pub first: Option<int>,
}

/// The dropped events of a stream.
pub open spec fn drops(events: Seq<Event>) -> Drops
    decreases events.len(),
{
    if events.len() == 0 {
        Drops { total: 0, first: None }
    } else {
        let d = drops(events.drop_last());
        match events.last().payload {
            Payload::MetalHookDropped { count } => Drops {
                total: d.total + count as nat,
                first: match d.first {
                    Some(i) => Some(i),
                    None => Some(events.len() - 1),
                },
            },
            _ => d,
        }
    }
}

/// What is told of ring corruption.
pub open spec fn corrupt_findings(events: Seq<Event>) -> Seq<FindingView> {
    let c = corruption(events);
    match c.first {
        None => seq![],
        Some(i) => seq![
            FindingView {
                severity: Severity::Warning,
                category: Category::ContributingFactor,
                title: "Metal hook ring corruption: "@ + dec(c.count as int)
                    + " corrupt frame report(s) skipped"@,
                detail: CORRUPT_DETAIL@,
                evidence: seq![
                    EvidenceView {
                        seq: events[i].seq,
                        ts_mono_ns: events[i].ts_mono_ns,
                        description: "MetalHookSkipped: "@ + skip_reason(
                            events[i],
                            "ring decode error"@,
                        )->0,
                    },
                ],
            },
        ],
    }
}

/// What is told of dropped events.
pub open spec fn drop_findings(events: Seq<Event>) -> Seq<FindingView> {
    let d = drops(events);
    match d.first {
        None => seq![],
        Some(i) => seq![
            FindingView {
                severity: Severity::Warning,
                category: Category::ContributingFactor,
                title: "Metal hook ring overflow: "@ + dec(d.total as int) + " event(s) dropped"@,
                detail: DROPPED_DETAIL@,
                evidence: seq![
                    EvidenceView {
                        seq: events[i].seq,
                        ts_mono_ns: events[i].ts_mono_ns,
                        description: "first MetalHookDropped event"@,
                    },
                ],
            },
        ],
    }
}

/// What the rule finds.
pub open spec fn degradation_findings(events: Seq<Event>) -> Seq<FindingView> {
    disables(events) + corrupt_findings(events) + drop_findings(events)
}

/// A longer stream drops no less.
proof fn lemma_drops_prefix(events: Seq<Event>, i: int)
    requires
        0 <= i <= events.len(),
    ensures
        drops(events.take(i)).total <= drops(events).total,
    decreases events.len() - i,
{
    if i == events.len() {
        assert(events.take(i) =~= events);
    } else {
        lemma_drops_prefix(events, i + 1);
        assert(events.take(i + 1).drop_last() =~= events.take(i));
    }
}

/// How many events were dropped and the first event that says so; `None` where
/// the number does not fit.
fn count_drops(events: &[Event]) -> (r: Option<(u64, Option<usize>)>)
    ensures
        match r {
            Some(d) => {
                &&& d.0 == drops(events@).total
                &&& match d.1 {
                    Some(i) => i < events@.len() && drops(events@).first == Some(i as int),
                    None => drops(events@).first is None,
                }
            },
            None => drops(events@).total > u64::MAX,
        },
{
    let mut total: u64 = 0;
    let mut first: Option<usize> = None;
    let mut i: usize = 0;
    while i < events.len()
        invariant
            i <= events@.len(),
            total == drops(events@.take(i as int)).total,
            match first {
                Some(k) => k < i && drops(events@.take(i as int)).first == Some(k as int),
                None => drops(events@.take(i as int)).first is None,
            },
        decreases events@.len() - i,
    {
        proof {
            lemma_prefix_step(events@, i as int);
        }
        if let Payload::MetalHookDropped { count } = &events[i].payload {
            if *count > u64::MAX - total {
                proof {
                    lemma_drops_prefix(events@, i + 1);
                }
                return None;
            }
            total = total + *count;
            if first.is_none() {
                first = Some(i);
            }
        }
        i = i + 1;
    }
    assert(events@.take(events@.len() as int) =~= events@);
    Some((total, first))
}

/// The reason of a skip that holds `mark`.
fn skipped<'a>(e: &'a Event, mark: &str) -> (r: Option<&'a String>)
    ensures
        match r {
            Some(s) => skip_reason(*e, mark@) == Some(s@),
            None => skip_reason(*e, mark@) is None,
        },
{
    match &e.payload {
        Payload::MetalHookSkipped { reason } => if has(reason.as_str(), mark) {
            Some(reason)
        } else {
            None
        },
        _ => None,
    }
}

impl Rule for HookDegradationRule {
    open spec fn label(&self) -> Seq<char> {
        "hook_degradation"@
    }

    open spec fn accepts(&self, events: Seq<Event>) -> bool {
        drops(events).total <= u64::MAX
    }

    open spec fn findings(&self, events: Seq<Event>) -> Seq<FindingView> {
        degradation_findings(events)
    }

    fn name(&self) -> (s: &'static str) {
        "hook_degradation"
    }

    fn can_check(&self, events: &[Event]) -> (b: bool) {
        count_drops(events).is_some()
    }

    fn check(&self, events: &[Event]) -> (r: Vec<Finding>) {
        let mut out: Vec<Finding> = Vec::new();
        assert(finding_views(out@) =~= Seq::<FindingView>::empty());
        let mut errors: usize = 0;
        let mut first_error: Option<usize> = None;
        let mut i: usize = 0;
        while i < events.len()
            invariant
                i <= events@.len(),
                finding_views(out@) == disables(events@.take(i as int)),
                errors <= i,
                errors == corruption(events@.take(i as int)).count,
                match first_error {
                    Some(k) => {
                        &&& k < i
                        &&& corruption(events@.take(i as int)).first == Some(k as int)
                        &&& skip_reason(events@[k as int], "ring decode error"@) is Some
                    },
                    None => corruption(events@.take(i as int)).first is None,
                },
            decreases events@.len() - i,
        {
            proof {
                lemma_prefix_step(events@, i as int);
            }
            let ev = &events[i];
            if let Some(reason) = skipped(ev, "sampling disabled") {
                let mut title = "GPU op timing degraded: ".to_owned();
                title.append(reason.as_str());
                let mut description = "MetalHookSkipped: ".to_owned();
                description.append(reason.as_str());
                let f = Finding::new(
                    Severity::Warning,
                    Category::ContributingFactor,
                    title.as_str(),
                ).with_detail(DISABLED_DETAIL).with_evidence(
                    EvidenceRef { seq: ev.seq, ts_mono_ns: ev.ts_mono_ns, description },
                );
                proof {
                    assert(f@.evidence =~= disabled(*ev, reason@).evidence);
                    lemma_findings_push(out@, f);
                }
                out.push(f);
            }
            if skipped(ev, "ring decode error").is_some() {
                errors = errors + 1;
                if first_error.is_none() {
                    first_error = Some(i);
                }
            }
            i = i + 1;
        }
        assert(events@.take(events@.len() as int) =~= events@);
        let ghost told = disables(events@);
        if let Some(k) = first_error {
            if let Some(reason) = skipped(&events[k], "ring decode error") {
                let mut title = "Metal hook ring corruption: ".to_owned();
                push_dec(&mut title, errors as u64);
                title.append(" corrupt frame report(s) skipped");
                let mut description = "MetalHookSkipped: ".to_owned();
                description.append(reason.as_str());
                let f = Finding::new(
                    Severity::Warning,
                    Category::ContributingFactor,
                    title.as_str(),
                ).with_detail(CORRUPT_DETAIL).with_evidence(
                    EvidenceRef {
                        seq: events[k].seq,
                        ts_mono_ns: events[k].ts_mono_ns,
                        description,
                    },
                );
                proof {
                    let v = corrupt_findings(events@)[0];
                    assert(f@.evidence =~= v.evidence);
                    lemma_findings_push(out@, f);
                }
                out.push(f);
            }
        }
        assert(finding_views(out@) =~= told + corrupt_findings(events@));
        if let Some((total, Some(k))) = count_drops(events) {
            let mut title = "Metal hook ring overflow: ".to_owned();
            push_dec(&mut title, total);
            title.append(" event(s) dropped");
            let f = Finding::new(
                Severity::Warning,
                Category::ContributingFactor,
                title.as_str(),
            ).with_detail(DROPPED_DETAIL).with_evidence(
                EvidenceRef {
                    seq: events[k].seq,
                    ts_mono_ns: events[k].ts_mono_ns,
                    description: "first MetalHookDropped event".to_owned(),
                },
            );
            proof {
                let v = drop_findings(events@)[0];
                assert(f@.evidence =~= v.evidence);
                lemma_findings_push(out@, f);
            }
            out.push(f);
        }
        assert(finding_views(out@) =~= degradation_findings(events@));
        out
    }
}

} // verus!
