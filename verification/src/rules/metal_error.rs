//! Names the error codes of GPU command buffers and elevates the known
//! watchdog codes to a root cause.

use crate::event::{lemma_prefix_step, Event, Payload};
use crate::finding::{
    finding_views, lemma_findings_push, Category, EvidenceRef, EvidenceView, Finding, FindingView,
    Severity,
};
use crate::rule::Rule;
use crate::text::{dec, push_dec, push_signed};
use vstd::prelude::*;

verus! {

broadcast use vstd::string::group_string_axioms;

pub struct MetalErrorRule;

/// The name of an error code.
pub open spec fn error_name(code: i64) -> Seq<char> {
    if code == 1 {
        "kIOGPUCommandBufferCallbackErrorTimeout"@
    } else if code == 2 {
        "kIOGPUCommandBufferCallbackErrorOutOfMemory"@
    } else if code == 3 {
        "kIOGPUCommandBufferCallbackErrorPageFault"@
    } else if code == 4 {
        "kIOGPUCommandBufferCallbackErrorAccessViolation"@
    } else if code == 5 {
        "kIOGPUCommandBufferCallbackErrorInvalidResource"@
    } else if code == 6 {
        "kIOGPUCommandBufferCallbackErrorBlacklisted"@
    } else if code == 14 {
        "kIOGPUCommandBufferCallbackErrorImpactingInteractivity"@
    } else {
        "kIOGPUCommandBufferCallbackErrorUnknown"@
    }
}

/// The codes of a watchdog.
pub open spec fn watchdog(code: i64) -> bool {
    code == 1 || code == 14
}

/// The error code of an event that completes a command buffer with one.
pub open spec fn failure_code(e: Event) -> Option<i64> {
    match e.payload {
        Payload::MetalCbCompleted { error_code: Some(c), .. } => if c != 0 {
            Some(c)
        } else {
            None
        },
        _ => None,
    }
}

/// What one failed command buffer yields.
pub open spec fn failure(e: Event, cb_id: u64, code: i64, domain: Option<String>) -> FindingView {
    FindingView {
        severity: if watchdog(code) {
            Severity::Critical
        } else {
            Severity::Warning
        },
        category: if watchdog(code) {
            Category::RootCause
        } else {
            Category::ContributingFactor
        },
        title: "Metal command buffer #"@ + dec(cb_id as int) + " failed: "@ + error_name(code)
            + " (code="@ + dec(code as int) + ", domain="@ + match domain {
            Some(d) => d@,
            None => "?"@,
        } + ")"@,
        detail: seq![],
        evidence: seq![
            EvidenceView {
                seq: e.seq,
                ts_mono_ns: e.ts_mono_ns,
                description: "MetalCbCompleted cb_id="@ + dec(cb_id as int) + " error_code="@
                    + dec(code as int),
            },
        ],
    }
}

/// What all failed command buffers yield.
pub open spec fn failures(events: Seq<Event>) -> Seq<FindingView>
    decreases events.len(),
{
    if events.len() == 0 {
        seq![]
    } else {
        let rest = failures(events.drop_last());
        match events.last().payload {
            Payload::MetalCbCompleted { cb_id, error_code: Some(c), error_domain, .. } => if c
                != 0 {
                rest.push(failure(events.last(), cb_id, c, error_domain))
            } else {
                rest
            },
            _ => rest,
        }
    }
}

pub fn name_iogpu_error(code: i64) -> (s: &'static str)
    ensures
        s@ == error_name(code),
{
    if code == 1 {
        "kIOGPUCommandBufferCallbackErrorTimeout"
    } else if code == 2 {
        "kIOGPUCommandBufferCallbackErrorOutOfMemory"
    } else if code == 3 {
        "kIOGPUCommandBufferCallbackErrorPageFault"
    } else if code == 4 {
        "kIOGPUCommandBufferCallbackErrorAccessViolation"
    } else if code == 5 {
        "kIOGPUCommandBufferCallbackErrorInvalidResource"
    } else if code == 6 {
        "kIOGPUCommandBufferCallbackErrorBlacklisted"
    } else if code == 14 {
        "kIOGPUCommandBufferCallbackErrorImpactingInteractivity"
    } else {
        "kIOGPUCommandBufferCallbackErrorUnknown"
    }
}

pub fn is_watchdog_code(code: i64) -> (b: bool)
    ensures
        b == watchdog(code),
{
    code == 1 || code == 14
}

/// The first failed command buffer, at or behind `i`.
pub open spec fn first_failure(events: Seq<Event>, i: int) -> Option<int>
    decreases events.len() - i,
{
    if i < 0 || i >= events.len() {
        None
    } else if failure_code(events[i]) is Some {
        Some(i)
    } else {
        first_failure(events, i + 1)
    }
}

/// The first failed command buffer.
pub fn find_failure(events: &[Event]) -> (r: Option<usize>)
    ensures
        match r {
            Some(i) => i < events@.len() && first_failure(events@, 0) == Some(i as int),
            None => first_failure(events@, 0) is None,
        },
{
    let mut i: usize = 0;
    while i < events.len()
        invariant
            i <= events@.len(),
            first_failure(events@, 0) == first_failure(events@, i as int),
        decreases events@.len() - i,
    {
        if let Payload::MetalCbCompleted { error_code: Some(c), .. } = &events[i].payload {
            if *c != 0 {
                return Some(i);
            }
        }
        i = i + 1;
    }
    None
}

impl Rule for MetalErrorRule {
    open spec fn label(&self) -> Seq<char> {
        "metal_error"@
    }

    open spec fn accepts(&self, events: Seq<Event>) -> bool {
        true
    }

    open spec fn findings(&self, events: Seq<Event>) -> Seq<FindingView> {
        failures(events)
    }

    fn name(&self) -> (s: &'static str) {
        "metal_error"
    }

    fn can_check(&self, events: &[Event]) -> (b: bool) {
        true
    }

    fn check(&self, events: &[Event]) -> (r: Vec<Finding>) {
        let mut out: Vec<Finding> = Vec::new();
        let mut i: usize = 0;
        assert(finding_views(out@) =~= Seq::<FindingView>::empty());
        while i < events.len()
            invariant
                i <= events@.len(),
                finding_views(out@) == failures(events@.take(i as int)),
            decreases events@.len() - i,
        {
            let ev = &events[i];
            proof {
                lemma_prefix_step(events@, i as int);
            }
            if let Payload::MetalCbCompleted { cb_id, error_code: Some(c), error_domain, .. } =
                &ev.payload {
                if *c != 0 {
                    let code: i64 = *c;
                    let (severity, category) = if is_watchdog_code(code) {
                        (Severity::Critical, Category::RootCause)
                    } else {
                        (Severity::Warning, Category::ContributingFactor)
                    };
                    let mut title = "Metal command buffer #".to_owned();
                    push_dec(&mut title, *cb_id);
                    title.append(" failed: ");
                    title.append(name_iogpu_error(code));
                    title.append(" (code=");
                    push_signed(&mut title, code);
                    title.append(", domain=");
                    match error_domain {
                        Some(d) => title.append(d.as_str()),
                        None => title.append("?"),
                    }
                    title.append(")");
                    let mut description = "MetalCbCompleted cb_id=".to_owned();
                    push_dec(&mut description, *cb_id);
                    description.append(" error_code=");
                    push_signed(&mut description, code);
                    let f = Finding::new(severity, category, title.as_str()).with_evidence(
                        EvidenceRef { seq: ev.seq, ts_mono_ns: ev.ts_mono_ns, description },
                    );
                    proof {
                        lemma_findings_push(out@, f);
                        let v = failure(*ev, *cb_id, code, *error_domain);
                        assert(f@.evidence =~= v.evidence);
                    }
                    out.push(f);
                }
            }
            i = i + 1;
        }
        assert(events@.take(events@.len() as int) =~= events@);
        out
    }
}

/// Exactly the watchdog codes are called a root cause.
pub proof fn only_watchdog_codes_are_root_causes(events: Seq<Event>, i: int)
    requires
        0 <= i < failures(events).len(),
    ensures
        failures(events)[i].category == Category::RootCause <==> failures(events)[i].severity
            == Severity::Critical,
        exists|k: int|
            0 <= k < events.len() && #[trigger] failure_code(events[k]) is Some && (
            failures(events)[i].category == Category::RootCause <==> watchdog(
                failure_code(events[k])->0,
            )),
    decreases events.len(),
{
    if events.len() > 0 {
        let rest = events.drop_last();
        if i < failures(rest).len() {
            only_watchdog_codes_are_root_causes(rest, i);
            let k = choose|k: int|
                0 <= k < rest.len() && #[trigger] failure_code(rest[k]) is Some && (
                failures(rest)[i].category == Category::RootCause <==> watchdog(
                    failure_code(rest[k])->0,
                ));
            assert(failure_code(events[k]) is Some);
        } else {
            assert(failure_code(events[events.len() - 1]) is Some);
        }
    }
}

} // verus!
