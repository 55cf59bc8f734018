//! Flags model files that are loaded again while they are loaded.
//!
//! Loading, unloading and loading again is normal and is not flagged.

use crate::double::{fixed, push_quotient, ratio};
use crate::event::{lemma_prefix_step, Event, Payload};
use crate::finding::{
    finding_views, lemma_findings_push, Category, EvidenceRef, EvidenceView, Finding, FindingView,
    Severity,
};
use crate::paths::{base_name, file_name};
use crate::rule::Rule;
use crate::text::{dec, push_dec};
use vstd::hash_map::StringHashMap;
use vstd::prelude::*;

verus! {

broadcast use {vstd::string::group_string_axioms, vstd::hash_map::group_hash_map_axioms};

pub struct DuplicateModelLoadRule;

/// What reading the loads has found so far.
pub ghost struct LoadScan {
    /// The paths that are loaded, and when their latest load started.
    pub loaded: Map<Seq<char>, u64>,
    pub findings: Seq<FindingView>,
}

/// The name a path is told by: its last component where it has one.
pub open spec fn shown_name(path: Seq<char>) -> Seq<char> {
    match file_name(path) {
        Some(n) => n,
        None => path,
    }
}

/// What is told of a load of a file that is loaded since `first`.
pub open spec fn duplicate(
    e: Event,
    path: Seq<char>,
    size: u64,
    first: u64,
    start: u64,
) -> FindingView {
    FindingView {
        severity: Severity::Warning,
        category: Category::ContributingFactor,
        title: "Model "@ + shown_name(path) + " loaded again without prior unload (size="@ + fixed(
            ratio(size as nat, 1_048_576),
            1,
        ) + " MB)"@,
        detail: "Duplicate load of "@ + path + ": first at t="@ + dec(first as int)
            + " ns, duplicate at t="@ + dec(start as int) + " ns, size="@ + dec(size as int)
            + " bytes"@,
        evidence: seq![
            EvidenceView {
                seq: e.seq,
                ts_mono_ns: start,
                description: "ModelLoad path="@ + path + " size_bytes="@ + dec(size as int),
            },
        ],
    }
}

/// Reads the loads and unloads of a stream.
pub open spec fn load_scan(events: Seq<Event>) -> LoadScan
    decreases events.len(),
{
    if events.len() == 0 {
        LoadScan { loaded: Map::empty(), findings: seq![] }
    } else {
        let s = load_scan(events.drop_last());
        let e = events.last();
        match e.payload {
            Payload::ModelLoad { path, size_bytes, t_start_ns, .. } => LoadScan {
                loaded: s.loaded.insert(path@, t_start_ns),
                findings: if s.loaded.contains_key(path@) {
                    s.findings.push(
                        duplicate(e, path@, size_bytes, s.loaded[path@], t_start_ns),
                    )
                } else {
                    s.findings
                },
            },
            Payload::ModelUnload { path, .. } => LoadScan {
                loaded: s.loaded.remove(path@),
                findings: s.findings,
            },
            _ => s,
        }
    }
}

fn duplicate_finding(ev: &Event, path: &String, size: u64, first: u64, start: u64) -> (f: Finding)
    ensures
        f@ == duplicate(*ev, path@, size, first, start),
{
    let shown = match base_name(path.as_str()) {
        Some(n) => n,
        None => path.clone(),
    };
    let mut title = "Model ".to_owned();
    title.append(shown.as_str());
    title.append(" loaded again without prior unload (size=");
    push_quotient(&mut title, size, 1_048_576, 1);
    title.append(" MB)");
    let mut detail = "Duplicate load of ".to_owned();
    detail.append(path.as_str());
    detail.append(": first at t=");
    push_dec(&mut detail, first);
    detail.append(" ns, duplicate at t=");
    push_dec(&mut detail, start);
    detail.append(" ns, size=");
    push_dec(&mut detail, size);
    detail.append(" bytes");
    let mut description = "ModelLoad path=".to_owned();
    description.append(path.as_str());
    description.append(" size_bytes=");
    push_dec(&mut description, size);
    let f = Finding::new(
        Severity::Warning,
        Category::ContributingFactor,
        title.as_str(),
    ).with_detail(detail.as_str()).with_evidence(
        EvidenceRef { seq: ev.seq, ts_mono_ns: start, description },
    );
    assert(f@.evidence =~= duplicate(*ev, path@, size, first, start).evidence);
    f
}

impl Rule for DuplicateModelLoadRule {
    open spec fn label(&self) -> Seq<char> {
        "duplicate-model-load"@
    }

    open spec fn accepts(&self, events: Seq<Event>) -> bool {
        true
    }

    open spec fn findings(&self, events: Seq<Event>) -> Seq<FindingView> {
        load_scan(events).findings
    }

    fn name(&self) -> (s: &'static str) {
        "duplicate-model-load"
    }

    fn can_check(&self, events: &[Event]) -> (b: bool) {
        true
    }

    fn check(&self, events: &[Event]) -> (r: Vec<Finding>) {
        let mut loaded: StringHashMap<u64> = StringHashMap::new();
        let mut out: Vec<Finding> = Vec::new();
        assert(finding_views(out@) =~= Seq::<FindingView>::empty());
        let mut i: usize = 0;
        while i < events.len()
            invariant
                i <= events@.len(),
                loaded@ == load_scan(events@.take(i as int)).loaded,
                finding_views(out@) == load_scan(events@.take(i as int)).findings,
            decreases events@.len() - i,
        {
            proof {
                lemma_prefix_step(events@, i as int);
            }
            let ev = &events[i];
            match &ev.payload {
                Payload::ModelLoad { path, size_bytes, t_start_ns, .. } => {
                    if let Some(first) = loaded.get(path.as_str()) {
                        let f = duplicate_finding(ev, path, *size_bytes, *first, *t_start_ns);
                        proof {
                            lemma_findings_push(out@, f);
                        }
                        out.push(f);
                    }
                    loaded.insert(path.clone(), *t_start_ns);
                },
                Payload::ModelUnload { path, .. } => {
                    loaded.remove(path.as_str());
                },
                _ => {},
            }
            i = i + 1;
        }
        assert(events@.take(events@.len() as int) =~= events@);
        out
    }
}

/// A load right behind an unload of the same file is never flagged.
pub proof fn reload_is_not_flagged(events: Seq<Event>, unload: Event, load: Event)
    requires
        unload.payload is ModelUnload,
        load.payload is ModelLoad,
        unload.payload->ModelUnload_path@ == load.payload->ModelLoad_path@,
    ensures
        load_scan(events.push(unload).push(load)).findings == load_scan(events).findings,
{
    reveal_with_fuel(load_scan, 3);
    assert(events.push(unload).push(load).drop_last() =~= events.push(unload));
    assert(events.push(unload).drop_last() =~= events);
}

} // verus!
