//! Presumes a kill under memory pressure where no report of one was found.
//!
//! The signal is weaker than a report: the report may be written after the
//! session ended, or its directory may be unreadable. A footprint that rose
//! steeply before a session broke off is worth telling, as a presumption.
//!
//! The slope alone is not enough. The first sample comes before the program has
//! allocated anything, so nearly every run rises. It also takes a session that
//! was never properly ended.

use crate::double::{
    from_int, is_less, lemma_small_int, less, multiply, of_int, push_quotient, times,
};
use crate::event::{lemma_prefix_step, Event, Payload};
use crate::finding::{
    finding_views, lemma_findings_push, Category, EvidenceRef, EvidenceView, Finding, FindingView,
    Severity,
};
use crate::rule::Rule;
use crate::rules::mlx_cache_growth::gigabytes;
use vstd::prelude::*;

verus! {

broadcast use vstd::string::group_string_axioms;

pub struct JetsamRiskRule;

pub const RISE_TITLE: &'static str = "L'empreinte mémoire montait franchement en fin de session";

pub const RISE_DETAIL: &'static str = "L'empreinte du processus tracé est passée de ";

pub const RISE_ADVICE: &'static str =
    " Go avant que la session s'arrête sans fin propre, et aucun rapport jetsam n'a été joint. Une mort par jetsam est possible : le processus disparaît alors sans traceback ni exception. Vérifiez /Library/Logs/DiagnosticReports pour un JetsamEvent-*.ips postérieur à la fin de la session — il peut être écrit après coup. Ceci est une présomption, pas un verdict.";

/// An event that settles how the session ended.
pub open spec fn settles(e: Event) -> bool {
    e.payload is JetsamKill || e.payload is SessionEnded
}

/// Whether some event settles how the session ended.
pub open spec fn settled(events: Seq<Event>) -> bool {
    exists|i: int| 0 <= i < events.len() && settles(#[trigger] events[i])
}

/// One footprint of the traced process.
#[derive(Clone, Copy)]
pub struct Footprint {
    pub seq: u64,
    pub ts: u64,
    pub bytes: u64,
}

/// The footprint of the traced process that an event samples.
pub open spec fn footprint_in(e: Event) -> Option<Footprint> {
    match e.payload {
        Payload::ProcFootprint {
            phys_footprint_bytes,
            is_traced_root: true,
            ..
        } => Some(Footprint { seq: e.seq, ts: e.ts_mono_ns, bytes: phys_footprint_bytes }),
        _ => None,
    }
}

/// The first and the last footprint of the traced process.
pub open spec fn rise(events: Seq<Event>) -> Option<(Footprint, Footprint)>
    decreases events.len(),
{
    if events.len() == 0 {
        None
    } else {
        let r = rise(events.drop_last());
        match footprint_in(events.last()) {
            None => r,
            Some(x) => match r {
                None => Some((x, x)),
                Some(p) => Some((p.0, x)),
            },
        }
    }
}

/// What the rule finds: a footprint that at least doubled in a session that
/// nothing settles.
pub open spec fn rise_findings(events: Seq<Event>) -> Seq<FindingView> {
    match rise(events) {
        None => seq![],
        Some(p) => {
            let (first, last) = (p.0, p.1);
            if settled(events) || first.bytes == 0 || less(
                of_int(last.bytes as nat),
                times(of_int(first.bytes as nat), of_int(2)),
            ) {
                seq![]
            } else {
                seq![
                    FindingView {
                        severity: Severity::Warning,
                        category: Category::ContributingFactor,
                        title: RISE_TITLE@,
                        detail: RISE_DETAIL@ + gigabytes(first.bytes) + " à "@ + gigabytes(
                            last.bytes,
                        ) + RISE_ADVICE@,
                        evidence: seq![
                            EvidenceView {
                                seq: first.seq,
                                ts_mono_ns: first.ts,
                                description: "empreinte initiale "@ + gigabytes(first.bytes)
                                    + " Go"@,
                            },
                            EvidenceView {
                                seq: last.seq,
                                ts_mono_ns: last.ts,
                                description: "dernière empreinte "@ + gigabytes(last.bytes)
                                    + " Go"@,
                            },
                        ],
                    },
                ]
            }
        },
    }
}

/// Whether some event settles how the session ended.
fn is_settled(events: &[Event]) -> (b: bool)
    ensures
        b == settled(events@),
{
    let mut i: usize = 0;
    while i < events.len()
        invariant
            i <= events@.len(),
            forall|k: int| 0 <= k < i ==> !settles(#[trigger] events@[k]),
        decreases events@.len() - i,
    {
        let ends: bool = match &events[i].payload {
            Payload::JetsamKill { .. } => true,
            Payload::SessionEnded { .. } => true,
            _ => false,
        };
        if ends {
            assert(settles(events@[i as int]));
            return true;
        }
        i = i + 1;
    }
    false
}

/// The first and the last footprint of the traced process.
pub fn find_rise(events: &[Event]) -> (r: Option<(Footprint, Footprint)>)
    ensures
        r == rise(events@),
{
    let mut r: Option<(Footprint, Footprint)> = None;
    let mut i: usize = 0;
    while i < events.len()
        invariant
            i <= events@.len(),
            r == rise(events@.take(i as int)),
        decreases events@.len() - i,
    {
        proof {
            lemma_prefix_step(events@, i as int);
        }
        let e = &events[i];
        if let Payload::ProcFootprint { phys_footprint_bytes, is_traced_root, .. } = &e.payload {
            if *is_traced_root {
                let x = Footprint { seq: e.seq, ts: e.ts_mono_ns, bytes: *phys_footprint_bytes };
                r =
                match r {
                    None => Some((x, x)),
                    Some(p) => Some((p.0, x)),
                };
            }
        }
        i = i + 1;
    }
    assert(events@.take(events@.len() as int) =~= events@);
    r
}

/// `last` is under twice `first`, in doubles.
pub fn under_twice(last: u64, first: u64) -> (b: bool)
    ensures
        b == less(of_int(last as nat), times(of_int(first as nat), of_int(2))),
{
    proof {
        vstd::arithmetic::power2::lemma2_to64_rest();
        lemma_small_int(2, 51);
    }
    is_less(from_int(last as u128), multiply(from_int(first as u128), from_int(2)))
}

impl Rule for JetsamRiskRule {
    open spec fn label(&self) -> Seq<char> {
        "jetsam_risk"@
    }

    open spec fn accepts(&self, events: Seq<Event>) -> bool {
        true
    }

    open spec fn findings(&self, events: Seq<Event>) -> Seq<FindingView> {
        rise_findings(events)
    }

    fn name(&self) -> (s: &'static str) {
        "jetsam_risk"
    }

    fn can_check(&self, events: &[Event]) -> (b: bool) {
        true
    }

    fn check(&self, events: &[Event]) -> (r: Vec<Finding>) {
        let mut out: Vec<Finding> = Vec::new();
        assert(finding_views(out@) =~= Seq::<FindingView>::empty());
        if is_settled(events) {
            return out;
        }
        let (first, last): (Footprint, Footprint) = match find_rise(events) {
            Some(p) => p,
            None => {
                return out;
            },
        };
        if first.bytes == 0 || under_twice(last.bytes, first.bytes) {
            return out;
        }
        let mut detail = RISE_DETAIL.to_owned();
        push_quotient(&mut detail, first.bytes, 1_000_000_000, 2);
        detail.append(" à ");
        push_quotient(&mut detail, last.bytes, 1_000_000_000, 2);
        detail.append(RISE_ADVICE);
        let mut initial = "empreinte initiale ".to_owned();
        push_quotient(&mut initial, first.bytes, 1_000_000_000, 2);
        initial.append(" Go");
        let mut latest = "dernière empreinte ".to_owned();
        push_quotient(&mut latest, last.bytes, 1_000_000_000, 2);
        latest.append(" Go");
        let f = Finding::new(
            Severity::Warning,
            Category::ContributingFactor,
            RISE_TITLE,
        ).with_detail(detail.as_str()).with_evidence(
            EvidenceRef { seq: first.seq, ts_mono_ns: first.ts, description: initial },
        ).with_evidence(EvidenceRef { seq: last.seq, ts_mono_ns: last.ts, description: latest });
        proof {
            lemma_findings_push(out@, f);
            let v = rise_findings(events@)[0];
            assert(f@.evidence =~= v.evidence);
        }
        out.push(f);
        assert(finding_views(out@) =~= rise_findings(events@));
        out
    }
}

} // verus!
