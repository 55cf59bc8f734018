//! Memory per scope: device allocations and live heaps during each scope
//! window.

use crate::event::{lemma_prefix_step, Event, Payload};
use crate::gauges::{board, readings, Gauge, Gauges, Reading};
use crate::peaks::named_views;
use crate::sort::{ordered, rank, sort, Ranked};
use std::collections::HashMap;
use vstd::prelude::*;

verus! {

broadcast use {
    vstd::std_specs::hash::group_hash_axioms,
    vstd::string::group_string_axioms,
};

/// Device memory during a scope.
#[derive(Debug, Clone, PartialEq, Eq, Default)]
pub struct ScopeMemory {
    pub qualname: String,
    pub peak_bytes: u64,
    pub avg_bytes: u64,
    pub end_bytes: u64,
    pub sample_count: u64,
}

impl View for ScopeMemory {
    type V = (Seq<char>, Reading);

    open spec fn view(&self) -> (Seq<char>, Reading) {
        (
            self.qualname@,
            Reading {
                peak: self.peak_bytes,
                avg: self.avg_bytes,
                end: self.end_bytes,
                count: self.sample_count,
            },
        )
    }
}

/// The views of a list of scopes.
pub open spec fn memory_views(s: Seq<ScopeMemory>) -> Seq<(Seq<char>, Reading)> {
    s.map_values(|m: ScopeMemory| m@)
}

impl Ranked for ScopeMemory {
    open spec fn before(self, other: Self) -> bool {
        self.peak_bytes > other.peak_bytes
    }

    fn comes_before(&self, other: &Self) -> (b: bool) {
        self.peak_bytes > other.peak_bytes
    }
}

/// Live heaps during a scope.
#[derive(Debug, Clone, PartialEq, Eq, Default)]
pub struct HeapMemory {
    pub qualname: String,
    pub peak_heap_count: u32,
    pub peak_heap_bytes: u64,
}

impl View for HeapMemory {
    type V = (Seq<char>, u32, u64);

    open spec fn view(&self) -> (Seq<char>, u32, u64) {
        (self.qualname@, self.peak_heap_count, self.peak_heap_bytes)
    }
}

/// The views of a list of scopes.
pub open spec fn heap_views(s: Seq<HeapMemory>) -> Seq<(Seq<char>, u32, u64)> {
    s.map_values(|m: HeapMemory| m@)
}

impl Ranked for HeapMemory {
    open spec fn before(self, other: Self) -> bool {
        self.peak_heap_bytes > other.peak_heap_bytes
    }

    fn comes_before(&self, other: &Self) -> (b: bool) {
        self.peak_heap_bytes > other.peak_heap_bytes
    }
}

/// Peak, sum, number and last of the samples seen.
#[derive(Clone, Copy)]
pub struct SampleGauge {
    pub peak: u64,
    pub sum: u128,
    pub count: u64,
    pub last: u64,
}

impl Gauge for SampleGauge {
    open spec fn fresh() -> Self {
        SampleGauge { peak: 0, sum: 0, count: 0, last: 0 }
    }

    open spec fn fed(self, a: u64, b: u64) -> Self {
        SampleGauge {
            peak: if a > self.peak {
                a
            } else {
                self.peak
            },
            sum: (self.sum + a) as u128,
            count: (self.count + 1) as u64,
            last: a,
        }
    }

    open spec fn shown(self) -> Reading {
        Reading {
            peak: self.peak,
            avg: if self.count > 0 {
                (self.sum / self.count as u128) as u64
            } else {
                0
            },
            end: self.last,
            count: self.count,
        }
    }

    open spec fn within(self, n: nat) -> bool {
        self.count <= n && self.sum <= self.count * u64::MAX
    }

    proof fn lemma_within(self, a: u64, b: u64, n: nat) {
        if self.within(n) && n < u64::MAX {
            assert(self.sum + a <= (self.count + 1) * u64::MAX <= u128::MAX) by (nonlinear_arith)
                requires
                    self.sum <= self.count * u64::MAX,
                    self.count < u64::MAX,
                    a <= u64::MAX,
            ;
        }
    }

    fn start() -> (g: Self) {
        SampleGauge { peak: 0, sum: 0, count: 0, last: 0 }
    }

    fn feed(&mut self, a: u64, b: u64) {
        assert(self.sum + a <= u128::MAX) by (nonlinear_arith)
            requires
                self.sum <= self.count * u64::MAX,
                self.count < u64::MAX,
                a <= u64::MAX,
        ;
        if a > self.peak {
            self.peak = a;
        }
        self.sum = self.sum + a as u128;
        self.count = self.count + 1;
        self.last = a;
    }

    fn show(&self) -> (r: Reading) {
        let avg: u64 = if self.count > 0 {
            (self.sum / self.count as u128) as u64
        } else {
            0
        };
        Reading { peak: self.peak, avg, end: self.last, count: self.count }
    }
}

/// What a sample feeds to the gauges.
pub open spec fn sample_feed() -> spec_fn(Seq<Event>) -> Option<(u64, u64)> {
    |p: Seq<Event>|
        match p.last().payload {
            Payload::MetalDeviceMemSample { allocated_bytes, .. } => Some((allocated_bytes, 0u64)),
            _ => None,
        }
}

/// Scopes by peak, largest first.
pub open spec fn by_reading_peak() -> spec_fn((Seq<char>, Reading), (Seq<char>, Reading)) -> bool {
    |a: (Seq<char>, Reading), b: (Seq<char>, Reading)| a.1.peak > b.1.peak
}

/// Device memory per scope: of several calls under one name the one with the
/// largest peak, largest first.
pub open spec fn memory_of(events: Seq<Event>) -> Seq<(Seq<char>, Reading)> {
    ordered(readings(board::<SampleGauge>(events, sample_feed())), by_reading_peak())
}

/// Computes device memory per scope from the allocation samples. Of several
/// calls under one name the record with the largest peak is kept. Sorted by
/// peak, largest first.
///
/// A scope that has returned still takes samples for [`ASYNC_GRACE_NS`], since
/// those of the work it launched arrive late. A return closes the call it
/// names, wherever that call sits in the open set.
pub fn compute_memory_breakdown(events: &[Event]) -> (r: Vec<ScopeMemory>)
    ensures
        memory_views(r@) == memory_of(events@),
{
    let mut gauges: Gauges<SampleGauge> = Gauges::new();
    let mut i: usize = 0;
    while i < events.len()
        invariant
            i <= events@.len(),
            gauges.within(i as nat),
            gauges.board() == board::<SampleGauge>(events@.take(i as int), sample_feed()),
        decreases events@.len() - i,
    {
        proof {
            lemma_prefix_step(events@, i as int);
        }
        let x: Option<(u64, u64)> = match &events[i].payload {
            Payload::MetalDeviceMemSample { allocated_bytes, .. } => Some((*allocated_bytes, 0)),
            _ => None,
        };
        gauges.advance(events, i, x, Ghost(sample_feed()));
        i = i + 1;
    }
    assert(events@.take(events@.len() as int) =~= events@);
    let rows = gauges.finish(Ghost(i as nat));
    let mut out: Vec<ScopeMemory> = Vec::new();
    let mut k: usize = 0;
    while k < rows.len()
        invariant
            k <= rows@.len(),
            out@.len() == k,
            forall|j: int| 0 <= j < k ==> (#[trigger] out@[j])@ == (rows@[j].0@, rows@[j].1),
        decreases rows@.len() - k,
    {
        let reading: Reading = rows[k].1;
        out.push(
            ScopeMemory {
                qualname: rows[k].0.clone(),
                peak_bytes: reading.peak,
                avg_bytes: reading.avg,
                end_bytes: reading.end,
                sample_count: reading.count,
            },
        );
        k = k + 1;
    }
    proof {
        assert(memory_views(out@) =~= named_views(rows@));
        crate::sort::lemma_ordered_map(
            out@,
            |m: ScopeMemory| m@,
            rank::<ScopeMemory>(),
            by_reading_peak(),
        );
    }
    sort(&mut out);
    out
}

/// The most heaps and the most bytes seen live.
#[derive(Clone, Copy)]
pub struct HeapGauge {
    pub peak_count: u32,
    pub peak_bytes: u64,
}

impl Gauge for HeapGauge {
    open spec fn fresh() -> Self {
        HeapGauge { peak_count: 0, peak_bytes: 0 }
    }

    /// Fed the number of live heaps and their size.
    open spec fn fed(self, a: u64, b: u64) -> Self {
        HeapGauge {
            peak_count: if a as u32 > self.peak_count {
                a as u32
            } else {
                self.peak_count
            },
            peak_bytes: if b > self.peak_bytes {
                b
            } else {
                self.peak_bytes
            },
        }
    }

    open spec fn shown(self) -> Reading {
        Reading { peak: self.peak_bytes, avg: 0, end: 0, count: self.peak_count as u64 }
    }

    open spec fn within(self, n: nat) -> bool {
        true
    }

    proof fn lemma_within(self, a: u64, b: u64, n: nat) {
    }

    fn start() -> (g: Self) {
        HeapGauge { peak_count: 0, peak_bytes: 0 }
    }

    fn feed(&mut self, a: u64, b: u64) {
        let count: u32 = #[verifier::truncate]
        (a as u32);
        if count > self.peak_count {
            self.peak_count = count;
        }
        if b > self.peak_bytes {
            self.peak_bytes = b;
        }
    }

    fn show(&self) -> (r: Reading) {
        Reading { peak: self.peak_bytes, avg: 0, end: 0, count: self.peak_count as u64 }
    }
}

/// The heaps that are live at one point of the stream.
pub ghost struct Heaps {
    /// Their sizes.
    pub live: Map<u64, u64>,
    /// What they add up to.
    pub bytes: int,
}

/// The live heaps after the last of `events`.
pub open spec fn heaps(events: Seq<Event>) -> Heaps
    decreases events.len(),
{
    if events.len() == 0 {
        Heaps { live: Map::empty(), bytes: 0 }
    } else {
        let h = heaps(events.drop_last());
        match events.last().payload {
            Payload::MetalHeapAlloc { heap_id, size_bytes, .. } => Heaps {
                live: h.live.insert(heap_id, size_bytes),
                bytes: h.bytes + size_bytes - if h.live.contains_key(heap_id) {
                    h.live[heap_id] as int
                } else {
                    0
                },
            },
            Payload::MetalHeapFree { heap_id } => Heaps {
                live: h.live.remove(heap_id),
                bytes: h.bytes - if h.live.contains_key(heap_id) {
                    h.live[heap_id] as int
                } else {
                    0
                },
            },
            _ => h,
        }
    }
}

/// At no point do the live heaps add up to more than 64 bits hold.
pub open spec fn heaps_fit(events: Seq<Event>) -> bool {
    forall|i: int| 0 <= i <= events.len() ==> (#[trigger] heaps(events.take(i))).bytes <= u64::MAX
}

/// What an event feeds to the gauges: whenever a scope opens or the heaps
/// change, their number and size.
pub open spec fn heap_feed() -> spec_fn(Seq<Event>) -> Option<(u64, u64)> {
    |p: Seq<Event>|
        match p.last().payload {
            Payload::ModuleEntered { .. }
            | Payload::MetalHeapAlloc { .. }
            | Payload::MetalHeapFree { .. } => Some(
                (heaps(p).live.len() as u64, heaps(p).bytes as u64),
            ),
            _ => None,
        }
}

/// A reading of a heap gauge.
pub open spec fn heap_row(r: (Seq<char>, Reading)) -> (Seq<char>, u32, u64) {
    (r.0, r.1.count as u32, r.1.peak)
}

/// Scopes by heap size, largest first.
pub open spec fn by_heap_bytes() -> spec_fn(
    (Seq<char>, u32, u64),
    (Seq<char>, u32, u64),
) -> bool {
    |a: (Seq<char>, u32, u64), b: (Seq<char>, u32, u64)| a.2 > b.2
}

/// Live heaps per scope: of several calls under one name the one with the
/// largest size, largest first.
pub open spec fn heap_memory_of(events: Seq<Event>) -> Seq<(Seq<char>, u32, u64)> {
    ordered(
        readings(board::<HeapGauge>(events, heap_feed())).map_values(
            |r: (Seq<char>, Reading)| heap_row(r),
        ),
        by_heap_bytes(),
    )
}

/// A live heap is no larger than all of them.
pub proof fn lemma_heaps(events: Seq<Event>)
    ensures
        heaps(events).live.dom().finite(),
        heaps(events).live.len() <= events.len(),
        heaps(events).bytes >= 0,
        heaps(events).bytes == map_total(heaps(events).live),
    decreases events.len(),
{
    if events.len() == 0 {
        lemma_map_total(Map::<u64, u64>::empty(), 0);
    } else {
        lemma_heaps(events.drop_last());
        let h = heaps(events.drop_last());
        match events.last().payload {
            Payload::MetalHeapAlloc { heap_id, size_bytes, .. } => {
                let without = h.live.remove(heap_id);
                let with = h.live.insert(heap_id, size_bytes);
                lemma_map_total(h.live, heap_id);
                lemma_map_total(without, heap_id);
                lemma_map_total(with, heap_id);
                assert(with.remove(heap_id) =~= without);
                if !h.live.contains_key(heap_id) {
                    assert(without =~= h.live);
                }
            },
            Payload::MetalHeapFree { heap_id } => {
                lemma_map_total(h.live, heap_id);
                lemma_map_total(h.live.remove(heap_id), heap_id);
                if !h.live.contains_key(heap_id) {
                    assert(h.live.remove(heap_id) =~= h.live);
                }
            },
            _ => {},
        }
    }
}

/// The values of a finite map added up.
pub open spec fn map_total(m: Map<u64, u64>) -> int
    decreases m.dom().len(),
    when m.dom().finite()
{
    if m.dom().len() == 0 {
        0
    } else {
        let k = m.dom().choose();
        map_total(m.remove(k)) + m[k]
    }
}

/// Any key can be taken out first.
proof fn lemma_map_total(m: Map<u64, u64>, k: u64)
    requires
        m.dom().finite(),
    ensures
        map_total(m) >= 0,
        m.contains_key(k) ==> map_total(m) == map_total(m.remove(k)) + m[k],
        m.dom().len() == 0 ==> map_total(m) == 0,
    decreases m.dom().len(),
{
    if m.dom().len() > 0 {
        let c = m.dom().choose();
        assert(m.dom().contains(c));
        lemma_map_total(m.remove(c), k);
        if m.contains_key(k) && k != c {
            lemma_map_total(m.remove(k), c);
            assert(m.remove(k).remove(c) =~= m.remove(c).remove(k));
        }
    } else if m.contains_key(k) {
        assert(m.dom().contains(k));
        assert(m.dom() =~= Set::empty());
    }
}

/// The bytes that count as live are the sizes of the live heaps: nothing is
/// counted twice, and a free of an unknown heap changes nothing.
pub proof fn live_bytes_are_the_sizes_of_live_heaps(events: Seq<Event>)
    ensures
        heaps(events).live.dom().finite(),
        heaps(events).bytes == map_total(heaps(events).live),
{
    lemma_heaps(events);
}

/// Computes the peak of live heaps per scope. Whenever the heaps change or a
/// scope opens, every open scope takes note; a scope that has returned does so
/// for [`ASYNC_GRACE_NS`]. Of several calls under one name the record with the
/// largest size is kept. Sorted by size, largest first.
pub fn compute_heap_breakdown(events: &[Event]) -> (r: Vec<HeapMemory>)
    requires
        heaps_fit(events@),
    ensures
        heap_views(r@) == heap_memory_of(events@),
{
    let mut gauges: Gauges<HeapGauge> = Gauges::new();
    let mut live: HashMap<u64, u64> = HashMap::new();
    let mut bytes: u64 = 0;
    let mut i: usize = 0;
    while i < events.len()
        invariant
            i <= events@.len(),
            heaps_fit(events@),
            gauges.within(i as nat),
            gauges.board() == board::<HeapGauge>(events@.take(i as int), heap_feed()),
            live@ == heaps(events@.take(i as int)).live,
            bytes == heaps(events@.take(i as int)).bytes,
        decreases events@.len() - i,
    {
        let ghost p = events@.take(i + 1);
        let ghost was = live@;
        proof {
            lemma_prefix_step(events@, i as int);
            lemma_heaps(events@.take(i as int));
            lemma_heaps(p);
            assert(heaps(p).bytes <= u64::MAX);
        }
        let x: Option<(u64, u64)> = match &events[i].payload {
            Payload::ModuleEntered { .. } => Some((live.len() as u64, bytes)),
            Payload::MetalHeapAlloc { heap_id, size_bytes, .. } => {
                proof {
                    lemma_map_total(was, *heap_id);
                    lemma_map_total(was.remove(*heap_id), *heap_id);
                }
                if let Some(old_size) = live.get(heap_id) {
                    bytes = bytes - *old_size;
                }
                live.insert(*heap_id, *size_bytes);
                bytes = bytes + *size_bytes;
                Some((live.len() as u64, bytes))
            },
            Payload::MetalHeapFree { heap_id } => {
                proof {
                    lemma_map_total(was, *heap_id);
                    lemma_map_total(was.remove(*heap_id), *heap_id);
                }
                match live.remove(heap_id) {
                    Some(old_size) => {
                        bytes = bytes - old_size;
                    },
                    None => {
                        assert(live@ =~= was.remove(*heap_id));
                    },
                }
                Some((live.len() as u64, bytes))
            },
            _ => None,
        };
        gauges.advance(events, i, x, Ghost(heap_feed()));
        i = i + 1;
    }
    assert(events@.take(events@.len() as int) =~= events@);
    let rows = gauges.finish(Ghost(i as nat));
    let ghost f = |r: (Seq<char>, Reading)| heap_row(r);
    let mut out: Vec<HeapMemory> = Vec::new();
    let mut k: usize = 0;
    while k < rows.len()
        invariant
            k <= rows@.len(),
            out@.len() == k,
            forall|j: int|
                0 <= j < k ==> (#[trigger] out@[j])@ == heap_row((rows@[j].0@, rows@[j].1)),
        decreases rows@.len() - k,
    {
        let reading: Reading = rows[k].1;
        let peak_heap_count: u32 = #[verifier::truncate]
        (reading.count as u32);
        out.push(
            HeapMemory {
                qualname: rows[k].0.clone(),
                peak_heap_count,
                peak_heap_bytes: reading.peak,
            },
        );
        k = k + 1;
    }
    proof {
        assert(heap_views(out@) =~= named_views(rows@).map_values(f));
        crate::sort::lemma_ordered_map(
            out@,
            |m: HeapMemory| m@,
            rank::<HeapMemory>(),
            by_heap_bytes(),
        );
    }
    sort(&mut out);
    out
}

/// Do the live heaps add up to what 64 bits hold, at every point?
pub fn live_heaps_fit(events: &[Event]) -> (r: bool)
    ensures
        r == heaps_fit(events@),
{
    let mut live: HashMap<u64, u64> = HashMap::new();
    let mut bytes: u64 = 0;
    let mut i: usize = 0;
    while i < events.len()
        invariant
            i <= events@.len(),
            forall|k: int| 0 <= k <= i ==> (#[trigger] heaps(events@.take(k))).bytes <= u64::MAX,
            live@ == heaps(events@.take(i as int)).live,
            bytes == heaps(events@.take(i as int)).bytes,
        decreases events@.len() - i,
    {
        let ghost p = events@.take(i + 1);
        let ghost was = live@;
        proof {
            lemma_prefix_step(events@, i as int);
            lemma_heaps(events@.take(i as int));
            lemma_heaps(p);
        }
        match &events[i].payload {
            Payload::MetalHeapAlloc { heap_id, size_bytes, .. } => {
                proof {
                    lemma_map_total(was, *heap_id);
                    lemma_map_total(was.remove(*heap_id), *heap_id);
                }
                if let Some(old_size) = live.get(heap_id) {
                    bytes = bytes - *old_size;
                }
                live.insert(*heap_id, *size_bytes);
                bytes = match bytes.checked_add(*size_bytes) {
                    Some(b) => b,
                    None => {
                        assert(heaps(events@.take(i + 1)).bytes > u64::MAX);
                        return false;
                    },
                };
            },
            Payload::MetalHeapFree { heap_id } => {
                proof {
                    lemma_map_total(was, *heap_id);
                    lemma_map_total(was.remove(*heap_id), *heap_id);
                }
                match live.remove(heap_id) {
                    Some(old_size) => {
                        bytes = bytes - old_size;
                    },
                    None => {
                        assert(live@ =~= was.remove(*heap_id));
                    },
                }
            },
            _ => {},
        }
        i = i + 1;
    }
    true
}

} // verus!
