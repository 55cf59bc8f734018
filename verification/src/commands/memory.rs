//! The memory of a session as text.

use crate::columns::{
    binary_size, cell_views, cut_note, cut_note_text, empty_note, first_count, firsts, human_bytes,
    left, line, line_of, number, push_lines, right, shortened, stacked, to_left, to_right, truncate,
};
use crate::double::{percent, percent_of, push_quotient, quotient_text};
use crate::footprint::{footprint_views, FootprintView, ProcFootprintSummary};
use crate::gauges::Reading;
use crate::memory::{heap_views, memory_views, HeapMemory, ScopeMemory};
use crate::memory_report::{MemoryReport, MlxAllocator};
use crate::rules::mlx_cache_growth::gigabytes;
use crate::text::{dec, dec_text, push_dec, push_left, push_right, views};
use vstd::prelude::*;

verus! {

broadcast use vstd::string::group_string_axioms;

/// The peaks of one stretch of time.
#[derive(Debug, Clone, Copy, PartialEq, Eq, Structural)]
pub struct MemBucket {
    pub t_start_s: u64,
    pub t_end_s: u64,
    pub active_bytes: u64,
    pub cache_bytes: u64,
    pub device_alloc_bytes: u64,
    pub recommended_max_bytes: u64,
}

/// A span over the budget.
#[derive(Debug, Clone, PartialEq, Eq)]
pub struct TimelineWindow {
    pub t_start_s: u64,
    pub t_end_s: u64,
    pub peak_bytes: u64,
    pub peak_pct: u64,
    pub peak_scope: String,
}

/// Memory over time.
#[derive(Debug, Clone, PartialEq, Eq)]
pub struct MemTimeline {
    pub bucket_seconds: u64,
    pub buckets: Vec<MemBucket>,
    pub windows: Vec<TimelineWindow>,
}

/// The share of the budget, where there is one.
pub open spec fn budget_pct(b: MemBucket) -> Seq<char> {
    if b.recommended_max_bytes > 0 {
        dec(percent(b.device_alloc_bytes as nat, b.recommended_max_bytes as nat) as int) + "%"@
    } else {
        "-"@
    }
}

/// One stretch of time as a line.
pub open spec fn bucket_line(b: MemBucket) -> Seq<char> {
    "t+"@ + crate::text::left_aligned(dec(b.t_start_s as int) + "s"@, 5) + "..t+"@
        + crate::text::left_aligned(dec(b.t_end_s as int) + "s"@, 6) + " "@
        + crate::text::right_aligned(gigabytes(b.active_bytes), 8) + " GB "@
        + crate::text::right_aligned(gigabytes(b.cache_bytes), 8) + " GB "@
        + crate::text::right_aligned(gigabytes(b.device_alloc_bytes), 10) + " GB "@
        + crate::text::right_aligned(budget_pct(b), 8) + "\n"@
}

/// One span over the budget as a line.
pub open spec fn span_line(w: TimelineWindow) -> Seq<char> {
    "  t+"@ + dec(w.t_start_s as int) + "s..t+"@ + dec(w.t_end_s as int) + "s peak "@ + gigabytes(
        w.peak_bytes,
    ) + " GB ("@ + dec(w.peak_pct as int) + "%) in scope `"@ + w.peak_scope@ + "`\n"@
}

pub const NO_WINDOWS: &'static str =
    "no over-budget windows (>=90% of recommended working set)\n";

/// The heading of the timeline.
pub open spec fn timeline_head() -> Seq<char> {
    line_of(
        seq![
            to_left("MEMORY TIMELINE"@, 16),
            to_right("MLX ACTIVE"@, 11),
            to_right("MLX CACHE"@, 11),
            to_right("DEVICE ALLOC"@, 13),
            to_right("BUDGET%"@, 8),
        ],
    )
}

/// The spans over the budget.
pub open spec fn spans_text(windows: Seq<TimelineWindow>) -> Seq<char> {
    if windows.len() == 0 {
        NO_WINDOWS@
    } else {
        dec(windows.len() as int) + " over-budget window(s):\n"@ + stacked(
            windows.map_values(|w: TimelineWindow| span_line(w)),
        )
    }
}

/// Memory over time.
pub open spec fn timeline_text(buckets: Seq<MemBucket>, windows: Seq<TimelineWindow>) -> Seq<char> {
    timeline_head() + stacked(buckets.map_values(|b: MemBucket| bucket_line(b))) + "\n"@
        + spans_text(windows)
}

fn bucket_line_text(b: &MemBucket) -> (s: String)
    ensures
        s@ == bucket_line(*b),
{
    let pct = if b.recommended_max_bytes > 0 {
        let mut p = dec_text(percent_of(b.device_alloc_bytes, b.recommended_max_bytes));
        p.append("%");
        p
    } else {
        "-".to_owned()
    };
    let mut from = dec_text(b.t_start_s);
    from.append("s");
    let mut to = dec_text(b.t_end_s);
    to.append("s");
    let mut s = "t+".to_owned();
    push_left(&mut s, from.as_str(), 5);
    s.append("..t+");
    push_left(&mut s, to.as_str(), 6);
    s.append(" ");
    push_right(&mut s, quotient_text(b.active_bytes, 1_000_000_000, 2).as_str(), 8);
    s.append(" GB ");
    push_right(&mut s, quotient_text(b.cache_bytes, 1_000_000_000, 2).as_str(), 8);
    s.append(" GB ");
    push_right(&mut s, quotient_text(b.device_alloc_bytes, 1_000_000_000, 2).as_str(), 10);
    s.append(" GB ");
    push_right(&mut s, pct.as_str(), 8);
    s.append("\n");
    s
}

fn span_line_text(w: &TimelineWindow) -> (s: String)
    ensures
        s@ == span_line(*w),
{
    let mut s = "  t+".to_owned();
    push_dec(&mut s, w.t_start_s);
    s.append("s..t+");
    push_dec(&mut s, w.t_end_s);
    s.append("s peak ");
    push_quotient(&mut s, w.peak_bytes, 1_000_000_000, 2);
    s.append(" GB (");
    push_dec(&mut s, w.peak_pct);
    s.append("%) in scope `");
    s.append(w.peak_scope.as_str());
    s.append("`\n");
    s
}

/// Renders memory over time: the peaks of each stretch, and the spans over the
/// budget.
pub fn render_timeline(t: &MemTimeline) -> (out: String)
    ensures
        out@ == timeline_text(t.buckets@, t.windows@),
{
    let head = vec![
        left("MEMORY TIMELINE", 16),
        right("MLX ACTIVE", 11),
        right("MLX CACHE", 11),
        right("DEVICE ALLOC", 13),
        right("BUDGET%", 8),
    ];
    assert(cell_views(head@) =~= seq![
        to_left("MEMORY TIMELINE"@, 16),
        to_right("MLX ACTIVE"@, 11),
        to_right("MLX CACHE"@, 11),
        to_right("DEVICE ALLOC"@, 13),
        to_right("BUDGET%"@, 8),
    ]);
    let mut out = line(head);
    let mut lines: Vec<String> = Vec::new();
    let mut i: usize = 0;
    while i < t.buckets.len()
        invariant
            i <= t.buckets@.len(),
            lines@.len() == i,
            forall|k: int| 0 <= k < i ==> (#[trigger] lines@[k])@ == bucket_line(t.buckets@[k]),
        decreases t.buckets@.len() - i,
    {
        lines.push(bucket_line_text(&t.buckets[i]));
        i = i + 1;
    }
    assert(views(lines@) =~= t.buckets@.map_values(|b: MemBucket| bucket_line(b)));
    push_lines(&mut out, &lines);
    out.append("\n");
    if t.windows.len() == 0 {
        out.append(NO_WINDOWS);
    } else {
        let mut s = dec_text(t.windows.len() as u64);
        s.append(" over-budget window(s):\n");
        let mut spans: Vec<String> = Vec::new();
        let mut j: usize = 0;
        while j < t.windows.len()
            invariant
                j <= t.windows@.len(),
                spans@.len() == j,
                forall|k: int| 0 <= k < j ==> (#[trigger] spans@[k])@ == span_line(t.windows@[k]),
            decreases t.windows@.len() - j,
        {
            spans.push(span_line_text(&t.windows[j]));
            j = j + 1;
        }
        assert(views(spans@) =~= t.windows@.map_values(|w: TimelineWindow| span_line(w)));
        push_lines(&mut s, &spans);
        out.append(s.as_str());
    }
    out
}

/// The line of a scope.
pub open spec fn scope_line(r: (Seq<char>, Reading)) -> Seq<char> {
    line_of(
        seq![
            to_left(shortened(r.0, 48), 48),
            to_right(binary_size(r.1.peak), 12),
            to_right(binary_size(r.1.avg), 12),
            to_right(binary_size(r.1.end), 12),
            to_right(dec(r.1.count as int), 10),
        ],
    )
}

/// The heading of the scopes.
pub open spec fn scopes_head() -> Seq<char> {
    line_of(
        seq![
            to_left("SCOPE PEAK MEMORY"@, 48),
            to_right("PEAK"@, 12),
            to_right("AVG"@, 12),
            to_right("END"@, 12),
            to_right("SAMPLES"@, 10),
        ],
    )
}

pub const NO_SAMPLES: &'static str = "(no scopes with memory samples)\n";

/// The scopes.
pub open spec fn scopes_text(rows: Seq<(Seq<char>, Reading)>, top: nat) -> Seq<char> {
    scopes_head() + stacked(
        firsts(rows, top).map_values(|r: (Seq<char>, Reading)| scope_line(r)),
    ) + cut_note(rows.len(), top) + empty_note(rows.len(), NO_SAMPLES@)
}

/// The line of a scope's heaps.
pub open spec fn heap_line(r: (Seq<char>, u32, u64)) -> Seq<char> {
    line_of(
        seq![
            to_left(shortened(r.0, 48), 48),
            to_right(dec(r.1 as int), 10),
            to_right(binary_size(r.2), 16),
        ],
    )
}

/// The heading of the heaps.
pub open spec fn heaps_head() -> Seq<char> {
    line_of(seq![to_left("HEAP PEAK"@, 48), to_right("COUNT"@, 10), to_right("BYTES"@, 16)])
}

pub const NO_HEAPS: &'static str = "(no heap allocations attributed to scopes)\n";

/// The heaps.
pub open spec fn heaps_text(rows: Seq<(Seq<char>, u32, u64)>, top: nat) -> Seq<char> {
    heaps_head() + stacked(
        firsts(rows, top).map_values(|r: (Seq<char>, u32, u64)| heap_line(r)),
    ) + cut_note(rows.len(), top) + empty_note(rows.len(), NO_HEAPS@)
}

/// The line of a process.
pub open spec fn process_line(r: FootprintView) -> Seq<char> {
    line_of(
        seq![
            to_left(
                shortened(
                    if r.is_traced_root {
                        r.name + " (traced)"@
                    } else {
                        r.name
                    },
                    32,
                ),
                32,
            ),
            to_right(dec(r.pid as int), 8),
            to_right(binary_size(r.peak_bytes), 12),
            to_right(binary_size(r.lifetime_max_bytes), 14),
            to_right(dec(r.sample_count as int), 10),
        ],
    )
}

/// The heading of the processes.
pub open spec fn processes_head() -> Seq<char> {
    line_of(
        seq![
            to_left("PROCESS FOOTPRINT"@, 32),
            to_right("PID"@, 8),
            to_right("PEAK"@, 12),
            to_right("LIFETIME MAX"@, 14),
            to_right("SAMPLES"@, 10),
        ],
    )
}

/// The processes.
pub open spec fn processes_text(rows: Seq<FootprintView>, top: nat) -> Seq<char> {
    processes_head() + stacked(firsts(rows, top).map_values(|r: FootprintView| process_line(r)))
        + cut_note(rows.len(), top)
}

/// What the allocator says of itself.
pub open spec fn allocator_text(a: MlxAllocator) -> Seq<char> {
    line_of(
        seq![
            to_left("MLX ALLOCATOR"@, 32),
            to_right("PEAK ACTIVE"@, 12),
            to_right("PEAK CACHE"@, 12),
            to_right("END CACHE"@, 12),
            to_right("SAMPLES"@, 10),
        ],
    ) + line_of(
        seq![
            to_left(""@, 32),
            to_right(binary_size(a.peak_active_bytes), 12),
            to_right(binary_size(a.peak_cache_bytes), 12),
            to_right(binary_size(a.end_cache_bytes), 12),
            to_right(dec(a.sample_count as int), 10),
        ],
    )
}

/// A note as lines.
pub open spec fn note_lines(n: Seq<char>) -> Seq<char> {
    "ℹ "@ + n + "\n\n"@
}

/// Everything that is known of a session's memory.
pub open spec fn memory_text(
    notes: Seq<Seq<char>>,
    scopes: Seq<(Seq<char>, Reading)>,
    heaps: Seq<(Seq<char>, u32, u64)>,
    processes: Seq<FootprintView>,
    allocator: Option<MlxAllocator>,
    top: nat,
) -> Seq<char> {
    stacked(notes.map_values(|n: Seq<char>| note_lines(n))) + scopes_text(scopes, top) + "\n"@
        + heaps_text(heaps, top) + (if processes.len() == 0 {
        seq![]
    } else {
        "\n"@ + processes_text(processes, top)
    }) + (match allocator {
        Some(a) => "\n"@ + allocator_text(a),
        None => seq![],
    })
}

fn scope_line_text(r: &ScopeMemory) -> (s: String)
    ensures
        s@ == scope_line(r@),
{
    let cells = vec![
        left(truncate(r.qualname.as_str(), 48).as_str(), 48),
        right(human_bytes(r.peak_bytes).as_str(), 12),
        right(human_bytes(r.avg_bytes).as_str(), 12),
        right(human_bytes(r.end_bytes).as_str(), 12),
        number(r.sample_count, 10),
    ];
    assert(cell_views(cells@) =~= seq![
        to_left(shortened(r.qualname@, 48), 48),
        to_right(binary_size(r.peak_bytes), 12),
        to_right(binary_size(r.avg_bytes), 12),
        to_right(binary_size(r.end_bytes), 12),
        to_right(dec(r.sample_count as int), 10),
    ]);
    line(cells)
}

fn render_scopes(rows: &[ScopeMemory], top: usize) -> (out: String)
    ensures
        out@ == scopes_text(memory_views(rows@), top as nat),
{
    let head = vec![
        left("SCOPE PEAK MEMORY", 48),
        right("PEAK", 12),
        right("AVG", 12),
        right("END", 12),
        right("SAMPLES", 10),
    ];
    assert(cell_views(head@) =~= seq![
        to_left("SCOPE PEAK MEMORY"@, 48),
        to_right("PEAK"@, 12),
        to_right("AVG"@, 12),
        to_right("END"@, 12),
        to_right("SAMPLES"@, 10),
    ]);
    let mut out = line(head);
    let n: usize = first_count(rows.len(), top);
    let mut lines: Vec<String> = Vec::new();
    let mut i: usize = 0;
    while i < n
        invariant
            i <= n <= rows@.len(),
            lines@.len() == i,
            forall|k: int| 0 <= k < i ==> (#[trigger] lines@[k])@ == scope_line(rows@[k]@),
        decreases n - i,
    {
        lines.push(scope_line_text(&rows[i]));
        i = i + 1;
    }
    assert(views(lines@) =~= firsts(memory_views(rows@), top as nat).map_values(
        |r: (Seq<char>, Reading)| scope_line(r),
    ));
    push_lines(&mut out, &lines);
    out.append(cut_note_text(rows.len(), top).as_str());
    let ghost before = out@;
    if rows.len() == 0 {
        out.append(NO_SAMPLES);
    }
    assert(out@ =~= before + empty_note(rows@.len(), NO_SAMPLES@));
    out
}

fn heap_line_text(r: &HeapMemory) -> (s: String)
    ensures
        s@ == heap_line(r@),
{
    let cells = vec![
        left(truncate(r.qualname.as_str(), 48).as_str(), 48),
        number(r.peak_heap_count as u64, 10),
        right(human_bytes(r.peak_heap_bytes).as_str(), 16),
    ];
    assert(cell_views(cells@) =~= seq![
        to_left(shortened(r.qualname@, 48), 48),
        to_right(dec(r.peak_heap_count as int), 10),
        to_right(binary_size(r.peak_heap_bytes), 16),
    ]);
    line(cells)
}

fn render_heaps(rows: &[HeapMemory], top: usize) -> (out: String)
    ensures
        out@ == heaps_text(heap_views(rows@), top as nat),
{
    let head = vec![left("HEAP PEAK", 48), right("COUNT", 10), right("BYTES", 16)];
    assert(cell_views(head@) =~= seq![
        to_left("HEAP PEAK"@, 48),
        to_right("COUNT"@, 10),
        to_right("BYTES"@, 16),
    ]);
    let mut out = line(head);
    let n: usize = first_count(rows.len(), top);
    let mut lines: Vec<String> = Vec::new();
    let mut i: usize = 0;
    while i < n
        invariant
            i <= n <= rows@.len(),
            lines@.len() == i,
            forall|k: int| 0 <= k < i ==> (#[trigger] lines@[k])@ == heap_line(rows@[k]@),
        decreases n - i,
    {
        lines.push(heap_line_text(&rows[i]));
        i = i + 1;
    }
    assert(views(lines@) =~= firsts(heap_views(rows@), top as nat).map_values(
        |r: (Seq<char>, u32, u64)| heap_line(r),
    ));
    push_lines(&mut out, &lines);
    out.append(cut_note_text(rows.len(), top).as_str());
    let ghost before = out@;
    if rows.len() == 0 {
        out.append(NO_HEAPS);
    }
    assert(out@ =~= before + empty_note(rows@.len(), NO_HEAPS@));
    out
}

fn process_line_text(r: &ProcFootprintSummary) -> (s: String)
    ensures
        s@ == process_line(r@),
{
    let mut name = r.name.clone();
    if r.is_traced_root {
        name.append(" (traced)");
    }
    let cells = vec![
        left(truncate(name.as_str(), 32).as_str(), 32),
        number(r.pid as u64, 8),
        right(human_bytes(r.peak_bytes).as_str(), 12),
        right(human_bytes(r.lifetime_max_bytes).as_str(), 14),
        number(r.sample_count as u64, 10),
    ];
    assert(cell_views(cells@) =~= seq![
        to_left(shortened(name@, 32), 32),
        to_right(dec(r.pid as int), 8),
        to_right(binary_size(r.peak_bytes), 12),
        to_right(binary_size(r.lifetime_max_bytes), 14),
        to_right(dec(r.sample_count as int), 10),
    ]);
    line(cells)
}

fn render_footprint(rows: &[ProcFootprintSummary], top: usize) -> (out: String)
    ensures
        out@ == processes_text(footprint_views(rows@), top as nat),
{
    let head = vec![
        left("PROCESS FOOTPRINT", 32),
        right("PID", 8),
        right("PEAK", 12),
        right("LIFETIME MAX", 14),
        right("SAMPLES", 10),
    ];
    assert(cell_views(head@) =~= seq![
        to_left("PROCESS FOOTPRINT"@, 32),
        to_right("PID"@, 8),
        to_right("PEAK"@, 12),
        to_right("LIFETIME MAX"@, 14),
        to_right("SAMPLES"@, 10),
    ]);
    let mut out = line(head);
    let n: usize = first_count(rows.len(), top);
    let mut lines: Vec<String> = Vec::new();
    let mut i: usize = 0;
    while i < n
        invariant
            i <= n <= rows@.len(),
            lines@.len() == i,
            forall|k: int| 0 <= k < i ==> (#[trigger] lines@[k])@ == process_line(rows@[k]@),
        decreases n - i,
    {
        lines.push(process_line_text(&rows[i]));
        i = i + 1;
    }
    assert(views(lines@) =~= firsts(footprint_views(rows@), top as nat).map_values(
        |r: FootprintView| process_line(r),
    ));
    push_lines(&mut out, &lines);
    out.append(cut_note_text(rows.len(), top).as_str());
    out
}

fn render_allocator(a: &MlxAllocator) -> (out: String)
    ensures
        out@ == allocator_text(*a),
{
    let head = vec![
        left("MLX ALLOCATOR", 32),
        right("PEAK ACTIVE", 12),
        right("PEAK CACHE", 12),
        right("END CACHE", 12),
        right("SAMPLES", 10),
    ];
    assert(cell_views(head@) =~= seq![
        to_left("MLX ALLOCATOR"@, 32),
        to_right("PEAK ACTIVE"@, 12),
        to_right("PEAK CACHE"@, 12),
        to_right("END CACHE"@, 12),
        to_right("SAMPLES"@, 10),
    ]);
    let row = vec![
        left("", 32),
        right(human_bytes(a.peak_active_bytes).as_str(), 12),
        right(human_bytes(a.peak_cache_bytes).as_str(), 12),
        right(human_bytes(a.end_cache_bytes).as_str(), 12),
        number(a.sample_count, 10),
    ];
    assert(cell_views(row@) =~= seq![
        to_left(""@, 32),
        to_right(binary_size(a.peak_active_bytes), 12),
        to_right(binary_size(a.peak_cache_bytes), 12),
        to_right(binary_size(a.end_cache_bytes), 12),
        to_right(dec(a.sample_count as int), 10),
    ]);
    let mut out = line(head);
    out.append(line(row).as_str());
    out
}

fn render_notes(notes: &Vec<String>) -> (out: String)
    ensures
        out@ == stacked(views(notes@).map_values(|n: Seq<char>| note_lines(n))),
{
    let mut lines: Vec<String> = Vec::new();
    let mut i: usize = 0;
    while i < notes.len()
        invariant
            i <= notes@.len(),
            lines@.len() == i,
            forall|k: int| 0 <= k < i ==> (#[trigger] lines@[k])@ == note_lines(notes@[k]@),
        decreases notes@.len() - i,
    {
        let mut s = "ℹ ".to_owned();
        s.append(notes[i].as_str());
        s.append("\n\n");
        lines.push(s);
        i = i + 1;
    }
    assert(views(lines@) =~= views(notes@).map_values(|n: Seq<char>| note_lines(n)));
    let mut out = String::new();
    push_lines(&mut out, &lines);
    assert(out@ =~= stacked(views(lines@)));
    out
}

/// Renders everything that is known of a session's memory, `top` rows of each
/// table.
pub fn render(report: &MemoryReport, top: usize) -> (out: String)
    ensures
        out@ == memory_text(
            views(report.notes@),
            memory_views(report.scope_memory@),
            heap_views(report.heap_memory@),
            footprint_views(report.process_footprint@),
            report.mlx_allocator,
            top as nat,
        ),
{
    let mut out = render_notes(&report.notes);
    out.append(render_scopes(&report.scope_memory, top).as_str());
    out.append("\n");
    out.append(render_heaps(&report.heap_memory, top).as_str());
    let ghost head = out@;
    if report.process_footprint.len() > 0 {
        let mut s = "\n".to_owned();
        s.append(render_footprint(&report.process_footprint, top).as_str());
        out.append(s.as_str());
    } else {
        assert(out@ =~= head + Seq::<char>::empty());
    }
    let ghost body = out@;
    match &report.mlx_allocator {
        Some(alloc) => {
            let mut s = "\n".to_owned();
            s.append(render_allocator(alloc).as_str());
            out.append(s.as_str());
        },
        None => {
            assert(out@ =~= body + Seq::<char>::empty());
        },
    }
    out
}

} // verus!
