//! Reports the maximum command-buffer queue depth observed in the five seconds
//! before the first failed command buffer.

use crate::double::{fixed, push_quotient, ratio};
use crate::event::{lemma_prefix_step, Event, Payload};
use crate::finding::{
    finding_views, lemma_findings_push, Category, EvidenceRef, EvidenceView, Finding, FindingView,
    Severity,
};
use crate::rule::Rule;
use crate::rules::metal_error::{find_failure, first_failure};
use crate::text::{dec, push_dec};
use vstd::prelude::*;

verus! {

broadcast use vstd::string::group_string_axioms;

pub struct QueueDepthRule;

/// How far before a failure the queue is looked at: five seconds.
pub const WINDOW_NS: u64 = 5_000_000_000;

/// Nanoseconds as seconds with two places.
pub open spec fn seconds(ns: nat) -> Seq<char> {
    fixed(ratio(ns, 1_000_000_000), 2)
}

/// The deepest queue seen, and where.
pub ghost struct Deepest {
    pub depth: u32,
    pub at: u64,
    pub cb_id: u64,
}

/// The start of the span that is looked at.
pub open spec fn window_start(crash_ts: u64) -> u64 {
    if crash_ts < WINDOW_NS {
        0
    } else {
        (crash_ts - WINDOW_NS) as u64
    }
}

/// The first deepest queue within the span.
pub open spec fn deepest(events: Seq<Event>, crash_ts: u64) -> Deepest
    decreases events.len(),
{
    if events.len() == 0 {
        Deepest { depth: 0, at: crash_ts, cb_id: 0 }
    } else {
        let d = deepest(events.drop_last(), crash_ts);
        let e = events.last();
        match e.payload {
            Payload::MetalCbCommitted { queue_depth, cb_id, .. } => if window_start(crash_ts)
                <= e.ts_mono_ns <= crash_ts && queue_depth > d.depth {
                Deepest { depth: queue_depth, at: e.ts_mono_ns, cb_id }
            } else {
                d
            },
            _ => d,
        }
    }
}

/// The deepest queue was seen at or before the failure.
proof fn lemma_deepest(events: Seq<Event>, crash_ts: u64)
    ensures
        deepest(events, crash_ts).at <= crash_ts,
    decreases events.len(),
{
    if events.len() > 0 {
        lemma_deepest(events.drop_last(), crash_ts);
    }
}

/// What the rule finds.
pub open spec fn depth_findings(events: Seq<Event>) -> Seq<FindingView> {
    match first_failure(events, 0) {
        None => seq![],
        Some(i) => {
            let crash = events[i];
            let d = deepest(events, crash.ts_mono_ns);
            if d.depth == 0 {
                seq![]
            } else {
                seq![
                    FindingView {
                        severity: Severity::Warning,
                        category: Category::ContributingFactor,
                        title: "Queue depth peaked at "@ + dec(d.depth as int) + " CBs in-flight"@,
                        detail: "Observed at cb_id="@ + dec(d.cb_id as int) + ", "@ + seconds(
                            (crash.ts_mono_ns - d.at) as nat,
                        ) + "s before the failing command buffer."@,
                        evidence: seq![
                            EvidenceView {
                                seq: crash.seq,
                                ts_mono_ns: crash.ts_mono_ns,
                                description: "MetalCbCompleted (failure marker)"@,
                            },
                        ],
                    },
                ]
            }
        },
    }
}

impl Rule for QueueDepthRule {
    open spec fn label(&self) -> Seq<char> {
        "queue_depth"@
    }

    open spec fn accepts(&self, events: Seq<Event>) -> bool {
        true
    }

    open spec fn findings(&self, events: Seq<Event>) -> Seq<FindingView> {
        depth_findings(events)
    }

    fn name(&self) -> (s: &'static str) {
        "queue_depth"
    }

    fn can_check(&self, events: &[Event]) -> (b: bool) {
        true
    }

    fn check(&self, events: &[Event]) -> (r: Vec<Finding>) {
        let mut out: Vec<Finding> = Vec::new();
        assert(finding_views(out@) =~= Seq::<FindingView>::empty());
        let k: usize = match find_failure(events) {
            Some(k) => k,
            None => {
                return out;
            },
        };
        let crash_ts: u64 = events[k].ts_mono_ns;
        let from: u64 = crash_ts.saturating_sub(WINDOW_NS);
        let mut max_depth: u32 = 0;
        let mut max_at: u64 = crash_ts;
        let mut max_cb: u64 = 0;
        let mut i: usize = 0;
        while i < events.len()
            invariant
                i <= events@.len(),
                from == window_start(crash_ts),
                max_depth == deepest(events@.take(i as int), crash_ts).depth,
                max_at == deepest(events@.take(i as int), crash_ts).at,
                max_cb == deepest(events@.take(i as int), crash_ts).cb_id,
            decreases events@.len() - i,
        {
            let e = &events[i];
            proof {
                lemma_prefix_step(events@, i as int);
            }
            if from <= e.ts_mono_ns && e.ts_mono_ns <= crash_ts {
                if let Payload::MetalCbCommitted { queue_depth, cb_id, .. } = &e.payload {
                    if *queue_depth > max_depth {
                        max_depth = *queue_depth;
                        max_at = e.ts_mono_ns;
                        max_cb = *cb_id;
                    }
                }
            }
            i = i + 1;
        }
        proof {
            assert(events@.take(events@.len() as int) =~= events@);
            lemma_deepest(events@, crash_ts);
        }
        if max_depth == 0 {
            return out;
        }
        let mut title = "Queue depth peaked at ".to_owned();
        push_dec(&mut title, max_depth as u64);
        title.append(" CBs in-flight");
        let mut detail = "Observed at cb_id=".to_owned();
        push_dec(&mut detail, max_cb);
        detail.append(", ");
        push_quotient(&mut detail, crash_ts - max_at, 1_000_000_000, 2);
        detail.append("s before the failing command buffer.");
        let f = Finding::new(
            Severity::Warning,
            Category::ContributingFactor,
            title.as_str(),
        ).with_detail(detail.as_str()).with_evidence(
            EvidenceRef {
                seq: events[k].seq,
                ts_mono_ns: crash_ts,
                description: "MetalCbCompleted (failure marker)".to_owned(),
            },
        );
        proof {
            lemma_findings_push(out@, f);
            let v = depth_findings(events@)[0];
            assert(f@.evidence =~= v.evidence);
        }
        out.push(f);
        assert(finding_views(out@) =~= depth_findings(events@));
        out
    }
}

/// The event commits a command buffer within the five seconds before `crash_ts`.
pub open spec fn committed_before(e: Event, crash_ts: u64) -> bool {
    e.payload is MetalCbCommitted && e.ts_mono_ns <= crash_ts && crash_ts <= e.ts_mono_ns
        + 5_000_000_000
}

/// The depth that is told is the largest of the five seconds before the failure,
/// and was seen when and where it is told.
pub proof fn deepest_is_the_maximum(events: Seq<Event>, crash_ts: u64)
    ensures
        ({
            let d = deepest(events, crash_ts);
            &&& forall|i: int|
                0 <= i < events.len() && #[trigger] committed_before(events[i], crash_ts)
                    ==> events[i].payload->MetalCbCommitted_queue_depth <= d.depth
            &&& d.depth > 0 ==> exists|i: int|
                #![trigger events[i]]
                {
                    &&& 0 <= i < events.len()
                    &&& committed_before(events[i], crash_ts)
                    &&& events[i].payload->MetalCbCommitted_queue_depth == d.depth
                    &&& events[i].payload->MetalCbCommitted_cb_id == d.cb_id
                    &&& events[i].ts_mono_ns == d.at
                    &&& forall|j: int|
                        0 <= j < i && #[trigger] committed_before(events[j], crash_ts)
                            ==> events[j].payload->MetalCbCommitted_queue_depth < d.depth
                }
        }),
    decreases events.len(),
{
    if events.len() > 0 {
        let rest = events.drop_last();
        let (d, now) = (deepest(rest, crash_ts), deepest(events, crash_ts));
        let last = events.len() - 1;
        deepest_is_the_maximum(rest, crash_ts);
        assert forall|i: int|
            0 <= i < events.len() && #[trigger] committed_before(events[i], crash_ts) implies
            events[i].payload->MetalCbCommitted_queue_depth <= now.depth by {
            if i < last {
                assert(committed_before(rest[i], crash_ts));
            }
        }
        if now.depth > 0 {
            if now == d {
                let i = choose|i: int|
                    #![trigger rest[i]]
                    {
                        &&& 0 <= i < rest.len()
                        &&& committed_before(rest[i], crash_ts)
                        &&& rest[i].payload->MetalCbCommitted_queue_depth == d.depth
                        &&& rest[i].payload->MetalCbCommitted_cb_id == d.cb_id
                        &&& rest[i].ts_mono_ns == d.at
                        &&& forall|j: int|
                            0 <= j < i && #[trigger] committed_before(rest[j], crash_ts)
                                ==> rest[j].payload->MetalCbCommitted_queue_depth < d.depth
                    };
                assert(events[i] == rest[i]);
                assert forall|j: int|
                    0 <= j < i && #[trigger] committed_before(events[j], crash_ts) implies
                    events[j].payload->MetalCbCommitted_queue_depth < d.depth by {
                    assert(committed_before(rest[j], crash_ts));
                }
            } else {
                assert(committed_before(events[last], crash_ts));
                assert forall|j: int|
                    0 <= j < last && #[trigger] committed_before(events[j], crash_ts) implies
                    events[j].payload->MetalCbCommitted_queue_depth < now.depth by {
                    assert(committed_before(rest[j], crash_ts));
                }
            }
        }
    }
}

} // verus!
