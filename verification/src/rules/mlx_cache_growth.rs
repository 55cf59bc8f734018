//! The allocator's cache retains more than the real working set.
//!
//! Seen from the GPU, a buffer that the program freed but the allocator kept is
//! working memory like any other. The allocator's own counters tell them apart.
//!
//! The rule compares two peaks, not a ratio at one instant: between two evals
//! the active figure grazes zero while the cache stays full.

use crate::double::{fixed, is_less, less, push_quotient, quotient, ratio};
use crate::event::{lemma_prefix_step, Event, Payload};
use crate::finding::{
    finding_views, lemma_findings_push, Category, EvidenceRef, EvidenceView, Finding, FindingView,
    Severity,
};
use crate::rule::Rule;
use vstd::prelude::*;

verus! {

broadcast use vstd::string::group_string_axioms;

pub struct MlxCacheGrowthRule;

/// Smaller caches are noise.
pub const MIN_CACHE_BYTES: u64 = 1_000_000_000;

/// Bytes in decimal gigabytes with two places.
pub open spec fn gigabytes(bytes: u64) -> Seq<char> {
    fixed(ratio(bytes as nat, 1_000_000_000), 2)
}

/// The peaks of the allocator's counters.
pub ghost struct CachePeaks {
    pub cache: u64,
    pub active: u64,
    /// The sequence number and time of the first sample with the largest cache.
    pub at: Option<(u64, u64)>,
}

/// The peaks of a stream.
pub open spec fn cache_peaks(events: Seq<Event>) -> CachePeaks
    decreases events.len(),
{
    if events.len() == 0 {
        CachePeaks { cache: 0, active: 0, at: None }
    } else {
        let p = cache_peaks(events.drop_last());
        let e = events.last();
        match e.payload {
            Payload::MlxMemoryPoll { active_bytes, cache_bytes, .. } => CachePeaks {
                cache: if cache_bytes > p.cache {
                    cache_bytes
                } else {
                    p.cache
                },
                at: if cache_bytes > p.cache {
                    Some((e.seq, e.ts_mono_ns))
                } else {
                    p.at
                },
                active: if active_bytes > p.active {
                    active_bytes
                } else {
                    p.active
                },
            },
            _ => p,
        }
    }
}

pub const CACHE_TITLE: &'static str = "The MLX allocator cache exceeds the memory actually in use";

pub const CACHE_ADVICE: &'static str =
    "). These are buffers the program freed and MLX kept: seen from Metal they are indistinguishable from working memory, which makes the problem look like a genuine requirement. Check that no component widens a cache limit set upstream — `mx.set_cache_limit()` — and, if memory is tight, consider `mx.clear_cache()` between stages.";

/// What the rule finds: a cache of some size whose peak is at least one and a
/// quarter times the peak of the active memory.
pub open spec fn cache_findings(events: Seq<Event>) -> Seq<FindingView> {
    let p = cache_peaks(events);
    let at = p.at->0;
    if p.at is None || p.cache < MIN_CACHE_BYTES || p.active == 0 || less(
        ratio(p.cache as nat, p.active as nat),
        ratio(5, 4),
    ) {
        seq![]
    } else {
        seq![
            FindingView {
                severity: Severity::Warning,
                category: Category::ContributingFactor,
                title: CACHE_TITLE@,
                detail: "The MLX cache reached "@ + gigabytes(p.cache)
                    + " GB while active memory never went above "@ + gigabytes(p.active)
                    + " GB (x"@ + fixed(ratio(p.cache as nat, p.active as nat), 2) + CACHE_ADVICE@,
                evidence: seq![
                    EvidenceView {
                        seq: at.0,
                        ts_mono_ns: at.1,
                        description: "cache peak "@ + gigabytes(p.cache) + " GB"@,
                    },
                ],
            },
        ]
    }
}

impl Rule for MlxCacheGrowthRule {
    open spec fn label(&self) -> Seq<char> {
        "mlx_cache_growth"@
    }

    open spec fn accepts(&self, events: Seq<Event>) -> bool {
        true
    }

    open spec fn findings(&self, events: Seq<Event>) -> Seq<FindingView> {
        cache_findings(events)
    }

    fn name(&self) -> (s: &'static str) {
        "mlx_cache_growth"
    }

    fn can_check(&self, events: &[Event]) -> (b: bool) {
        true
    }

    fn check(&self, events: &[Event]) -> (r: Vec<Finding>) {
        let mut out: Vec<Finding> = Vec::new();
        assert(finding_views(out@) =~= Seq::<FindingView>::empty());
        let mut peak_cache: u64 = 0;
        let mut peak_active: u64 = 0;
        let mut at_peak: Option<(u64, u64)> = None;
        let mut i: usize = 0;
        while i < events.len()
            invariant
                i <= events@.len(),
                cache_peaks(events@.take(i as int)) == (CachePeaks {
                    cache: peak_cache,
                    active: peak_active,
                    at: at_peak,
                }),
            decreases events@.len() - i,
        {
            proof {
                lemma_prefix_step(events@, i as int);
            }
            let e = &events[i];
            if let Payload::MlxMemoryPoll { active_bytes, cache_bytes, .. } = &e.payload {
                if *cache_bytes > peak_cache {
                    peak_cache = *cache_bytes;
                    at_peak = Some((e.seq, e.ts_mono_ns));
                }
                if *active_bytes > peak_active {
                    peak_active = *active_bytes;
                }
            }
            i = i + 1;
        }
        assert(events@.take(events@.len() as int) =~= events@);
        let (seq, ts_mono_ns): (u64, u64) = match at_peak {
            Some(at) => at,
            None => {
                return out;
            },
        };
        if peak_cache < MIN_CACHE_BYTES || peak_active == 0 {
            return out;
        }
        if is_less(quotient(peak_cache, peak_active), quotient(5, 4)) {
            return out;
        }
        let mut detail = "The MLX cache reached ".to_owned();
        push_quotient(&mut detail, peak_cache, 1_000_000_000, 2);
        detail.append(" GB while active memory never went above ");
        push_quotient(&mut detail, peak_active, 1_000_000_000, 2);
        detail.append(" GB (x");
        push_quotient(&mut detail, peak_cache, peak_active, 2);
        detail.append(CACHE_ADVICE);
        let mut description = "cache peak ".to_owned();
        push_quotient(&mut description, peak_cache, 1_000_000_000, 2);
        description.append(" GB");
        let f = Finding::new(
            Severity::Warning,
            Category::ContributingFactor,
            CACHE_TITLE,
        ).with_detail(detail.as_str()).with_evidence(EvidenceRef { seq, ts_mono_ns, description });
        proof {
            lemma_findings_push(out@, f);
            let v = cache_findings(events@)[0];
            assert(f@.evidence =~= v.evidence);
        }
        out.push(f);
        assert(finding_views(out@) =~= cache_findings(events@));
        out
    }
}

} // verus!
