//! Advisory rule: flags a deep queue or a long time in flight even without a
//! failure. Says nothing where a command buffer failed.

use crate::event::{lemma_prefix_step, Event, Payload};
use crate::finding::{
    finding_views, lemma_findings_push, Category, EvidenceRef, EvidenceView, Finding, FindingView,
    Severity,
};
use crate::rule::Rule;
use crate::rules::metal_error::{find_failure, first_failure};
use crate::text::{dec, push_dec};
use vstd::prelude::*;

verus! {

broadcast use vstd::string::group_string_axioms;

pub struct QueuePressureRule;

pub const DEPTH_THRESHOLD: u32 = 32;

/// One second.
pub const IN_FLIGHT_THRESHOLD_NS: u64 = 1_000_000_000;

/// The deepest queue and the longest time in flight, the first of equals.
pub ghost struct Peaks {
    pub depth: u32,
    pub depth_seq: u64,
    pub depth_ts: u64,
    pub in_flight_ns: u64,
    pub in_flight_cb: u64,
    pub in_flight_seq: u64,
}

/// The peaks of a stream.
pub open spec fn peaks(events: Seq<Event>) -> Peaks
    decreases events.len(),
{
    if events.len() == 0 {
        Peaks {
            depth: 0,
            depth_seq: 0,
            depth_ts: 0,
            in_flight_ns: 0,
            in_flight_cb: 0,
            in_flight_seq: 0,
        }
    } else {
        let p = peaks(events.drop_last());
        let e = events.last();
        match e.payload {
            Payload::MetalCbCommitted { queue_depth, .. } => if queue_depth > p.depth {
                Peaks { depth: queue_depth, depth_seq: e.seq, depth_ts: e.ts_mono_ns, ..p }
            } else {
                p
            },
            Payload::MetalCbCompleted { cb_id, in_flight_ns, .. } => if in_flight_ns
                > p.in_flight_ns {
                Peaks { in_flight_ns, in_flight_cb: cb_id, in_flight_seq: e.seq, ..p }
            } else {
                p
            },
            _ => p,
        }
    }
}

/// The evidence for a deep queue.
pub open spec fn depth_evidence(p: Peaks) -> EvidenceView {
    EvidenceView {
        seq: p.depth_seq,
        ts_mono_ns: p.depth_ts,
        description: "MetalCbCommitted queue_depth="@ + dec(p.depth as int),
    }
}

/// The evidence for a long time in flight.
pub open spec fn in_flight_evidence(p: Peaks) -> EvidenceView {
    EvidenceView {
        seq: p.in_flight_seq,
        ts_mono_ns: 0,
        description: "MetalCbCompleted cb_id="@ + dec(p.in_flight_cb as int) + " in_flight="@ + dec(
            p.in_flight_ns as int / 1_000_000,
        ) + "ms"@,
    }
}

/// What the rule finds.
pub open spec fn pressure_findings(events: Seq<Event>) -> Seq<FindingView> {
    let p = peaks(events);
    let deep = p.depth >= DEPTH_THRESHOLD;
    let long = p.in_flight_ns >= IN_FLIGHT_THRESHOLD_NS;
    if first_failure(events, 0) is Some || (!deep && !long) {
        seq![]
    } else {
        seq![
            FindingView {
                severity: Severity::Warning,
                category: Category::ContributingFactor,
                title: "Queue pressure: peak depth "@ + dec(p.depth as int) + ", max in-flight "@
                    + dec(p.in_flight_ns as int / 1_000_000) + "ms"@,
                detail: "Sustained pressure detected: queue_depth >= "@ + dec(32)
                    + " or in_flight_ns >= "@ + dec(1)
                    + "s. Consider mx.synchronize() between phases or reducing batch concurrency."@,
                evidence: if deep && long {
                    seq![depth_evidence(p), in_flight_evidence(p)]
                } else if deep {
                    seq![depth_evidence(p)]
                } else {
                    seq![in_flight_evidence(p)]
                },
            },
        ]
    }
}

impl Rule for QueuePressureRule {
    open spec fn label(&self) -> Seq<char> {
        "queue_pressure"@
    }

    open spec fn accepts(&self, events: Seq<Event>) -> bool {
        true
    }

    open spec fn findings(&self, events: Seq<Event>) -> Seq<FindingView> {
        pressure_findings(events)
    }

    fn name(&self) -> (s: &'static str) {
        "queue_pressure"
    }

    fn can_check(&self, events: &[Event]) -> (b: bool) {
        true
    }

    fn check(&self, events: &[Event]) -> (r: Vec<Finding>) {
        let mut out: Vec<Finding> = Vec::new();
        assert(finding_views(out@) =~= Seq::<FindingView>::empty());
        if find_failure(events).is_some() {
            return out;
        }
        let mut max_depth: u32 = 0;
        let mut max_depth_seq: u64 = 0;
        let mut max_depth_ts: u64 = 0;
        let mut max_in_flight_ns: u64 = 0;
        let mut max_in_flight_cb: u64 = 0;
        let mut max_in_flight_seq: u64 = 0;
        let mut i: usize = 0;
        while i < events.len()
            invariant
                i <= events@.len(),
                peaks(events@.take(i as int)) == (Peaks {
                    depth: max_depth,
                    depth_seq: max_depth_seq,
                    depth_ts: max_depth_ts,
                    in_flight_ns: max_in_flight_ns,
                    in_flight_cb: max_in_flight_cb,
                    in_flight_seq: max_in_flight_seq,
                }),
            decreases events@.len() - i,
        {
            let e = &events[i];
            proof {
                lemma_prefix_step(events@, i as int);
            }
            match &e.payload {
                Payload::MetalCbCommitted { queue_depth, .. } => {
                    if *queue_depth > max_depth {
                        max_depth = *queue_depth;
                        max_depth_seq = e.seq;
                        max_depth_ts = e.ts_mono_ns;
                    }
                },
                Payload::MetalCbCompleted { cb_id, in_flight_ns, .. } => {
                    if *in_flight_ns > max_in_flight_ns {
                        max_in_flight_ns = *in_flight_ns;
                        max_in_flight_cb = *cb_id;
                        max_in_flight_seq = e.seq;
                    }
                },
                _ => {},
            }
            i = i + 1;
        }
        assert(events@.take(events@.len() as int) =~= events@);
        let ghost p = peaks(events@);
        let depth_alarm: bool = max_depth >= DEPTH_THRESHOLD;
        let in_flight_alarm: bool = max_in_flight_ns >= IN_FLIGHT_THRESHOLD_NS;
        if !depth_alarm && !in_flight_alarm {
            return out;
        }
        let mut title = "Queue pressure: peak depth ".to_owned();
        push_dec(&mut title, max_depth as u64);
        title.append(", max in-flight ");
        push_dec(&mut title, max_in_flight_ns / 1_000_000);
        title.append("ms");
        let mut detail = "Sustained pressure detected: queue_depth >= ".to_owned();
        push_dec(&mut detail, DEPTH_THRESHOLD as u64);
        detail.append(" or in_flight_ns >= ");
        push_dec(&mut detail, IN_FLIGHT_THRESHOLD_NS / 1_000_000_000);
        detail.append(
            "s. Consider mx.synchronize() between phases or reducing batch concurrency.",
        );
        let mut f = Finding::new(
            Severity::Warning,
            Category::ContributingFactor,
            title.as_str(),
        ).with_detail(detail.as_str());
        if depth_alarm {
            let mut description = "MetalCbCommitted queue_depth=".to_owned();
            push_dec(&mut description, max_depth as u64);
            f = f.with_evidence(
                EvidenceRef { seq: max_depth_seq, ts_mono_ns: max_depth_ts, description },
            );
        }
        if in_flight_alarm {
            let mut description = "MetalCbCompleted cb_id=".to_owned();
            push_dec(&mut description, max_in_flight_cb);
            description.append(" in_flight=");
            push_dec(&mut description, max_in_flight_ns / 1_000_000);
            description.append("ms");
            f = f.with_evidence(
                EvidenceRef { seq: max_in_flight_seq, ts_mono_ns: 0, description },
            );
        }
        proof {
            lemma_findings_push(out@, f);
            let v = pressure_findings(events@)[0];
            assert(f@.evidence =~= v.evidence);
        }
        out.push(f);
        assert(finding_views(out@) =~= pressure_findings(events@));
        out
    }
}

/// Queue pressure never adds to a failure: where one command buffer failed, the
/// queue depth rule speaks and this one is silent.
pub proof fn queue_rules_exclude_each_other(events: Seq<Event>)
    ensures
        pressure_findings(events).len() == 0
            || crate::rules::queue_depth::depth_findings(events).len() == 0,
{
}

} // verus!
