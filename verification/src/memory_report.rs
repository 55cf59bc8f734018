//! Everything that is known of a session's memory.

use crate::event::{lemma_prefix_step, Event, Payload};
use crate::footprint::{
    compute_footprint_summary, footprint_views, footprints_of, ProcFootprintSummary,
};
use crate::memory::{
    compute_heap_breakdown, compute_memory_breakdown, heap_memory_of, heap_views, heaps_fit,
    memory_of, memory_views, HeapMemory, ScopeMemory,
};
use crate::rules::sidecar_absent::{
    absent_advice, absent_of, detect, detect_nothing_instrumented, nothing_advice, nothing_of,
};
use crate::text::views;
use vstd::prelude::*;

verus! {

/// What the allocator says of itself over a session. Its cache is memory that
/// the device counts as allocated and the allocator would hand back.
#[derive(Debug, Clone, Copy, PartialEq, Eq, Structural)]
pub struct MlxAllocator {
    pub peak_active_bytes: u64,
    /// The largest peak that the allocator itself reported.
    pub peak_reported_bytes: u64,
    pub peak_cache_bytes: u64,
    /// The cache at the last sample.
    pub end_cache_bytes: u64,
    pub sample_count: u64,
}

/// Everything that is known of a session's memory.
#[derive(Debug, Clone, PartialEq, Eq, Default)]
pub struct MemoryReport {
    pub scope_memory: Vec<ScopeMemory>,
    pub heap_memory: Vec<HeapMemory>,
    pub process_footprint: Vec<ProcFootprintSummary>,
    pub mlx_allocator: Option<MlxAllocator>,
    /// Why tables are empty.
    pub notes: Vec<String>,
}

/// What the allocator says of itself over a stream.
pub open spec fn allocator_of(events: Seq<Event>) -> Option<MlxAllocator>
    decreases events.len(),
{
    if events.len() == 0 {
        None
    } else {
        let a = allocator_of(events.drop_last());
        match events.last().payload {
            Payload::MlxMemoryPoll { active_bytes, peak_bytes, cache_bytes } => Some(
                polled(a, active_bytes, peak_bytes, cache_bytes),
            ),
            _ => a,
        }
    }
}

/// One sample more.
pub open spec fn polled(
    a: Option<MlxAllocator>,
    active: u64,
    peak: u64,
    cache: u64,
) -> MlxAllocator {
    match a {
        None => MlxAllocator {
            peak_active_bytes: active,
            peak_reported_bytes: peak,
            peak_cache_bytes: cache,
            end_cache_bytes: cache,
            sample_count: 1,
        },
        Some(a) => MlxAllocator {
            peak_active_bytes: if a.peak_active_bytes > active {
                a.peak_active_bytes
            } else {
                active
            },
            peak_reported_bytes: if a.peak_reported_bytes > peak {
                a.peak_reported_bytes
            } else {
                peak
            },
            peak_cache_bytes: if a.peak_cache_bytes > cache {
                a.peak_cache_bytes
            } else {
                cache
            },
            end_cache_bytes: cache,
            sample_count: (a.sample_count + 1) as u64,
        },
    }
}

/// Why tables are empty, where something explains it.
pub open spec fn notes_of(events: Seq<Event>) -> Seq<Seq<char>> {
    match nothing_of(events) {
        Some(n) => seq![nothing_advice(n.event_count as nat, n.has_proc_footprint)],
        None => match absent_of(events) {
            Some(a) => seq![absent_advice(a.metal_cb_count)],
            None => seq![],
        },
    }
}

fn allocator(events: &[Event]) -> (r: Option<MlxAllocator>)
    ensures
        r == allocator_of(events@),
{
    let mut a: Option<MlxAllocator> = None;
    let mut i: usize = 0;
    while i < events.len()
        invariant
            i <= events@.len(),
            a == allocator_of(events@.take(i as int)),
            a matches Some(m) ==> m.sample_count <= i,
        decreases events@.len() - i,
    {
        proof {
            lemma_prefix_step(events@, i as int);
        }
        if let Payload::MlxMemoryPoll { active_bytes, peak_bytes, cache_bytes } =
            &events[i].payload {
            a =
            Some(
                match a {
                    None => MlxAllocator {
                        peak_active_bytes: *active_bytes,
                        peak_reported_bytes: *peak_bytes,
                        peak_cache_bytes: *cache_bytes,
                        end_cache_bytes: *cache_bytes,
                        sample_count: 1,
                    },
                    Some(m) => MlxAllocator {
                        peak_active_bytes: if m.peak_active_bytes > *active_bytes {
                            m.peak_active_bytes
                        } else {
                            *active_bytes
                        },
                        peak_reported_bytes: if m.peak_reported_bytes > *peak_bytes {
                            m.peak_reported_bytes
                        } else {
                            *peak_bytes
                        },
                        peak_cache_bytes: if m.peak_cache_bytes > *cache_bytes {
                            m.peak_cache_bytes
                        } else {
                            *cache_bytes
                        },
                        end_cache_bytes: *cache_bytes,
                        sample_count: m.sample_count + 1,
                    },
                },
            );
        }
        i = i + 1;
    }
    assert(events@.take(events@.len() as int) =~= events@);
    a
}

/// Puts together everything that is known of a session's memory.
pub fn memory_report(events: &[Event]) -> (r: MemoryReport)
    requires
        heaps_fit(events@),
    ensures
        memory_views(r.scope_memory@) == memory_of(events@),
        heap_views(r.heap_memory@) == heap_memory_of(events@),
        footprint_views(r.process_footprint@) == footprints_of(events@),
        r.mlx_allocator == allocator_of(events@),
        views(r.notes@) == notes_of(events@),
{
    let mut notes: Vec<String> = Vec::new();
    if let Some(nothing) = detect_nothing_instrumented(events) {
        notes.push(nothing.advice());
    } else if let Some(absent) = detect(events) {
        notes.push(absent.advice());
    }
    assert(views(notes@) =~= notes_of(events@));
    MemoryReport {
        scope_memory: compute_memory_breakdown(events),
        heap_memory: compute_heap_breakdown(events),
        process_footprint: compute_footprint_summary(events),
        mlx_allocator: allocator(events),
        notes,
    }
}

} // verus!
