//! The listing of dispatch origins.

use crate::columns::{
    cell_views, cut_note, cut_note_text, empty_note, first_count, firsts, fmt_secs, left, line,
    line_of, number, push_lines, right, secs, shortened, stacked, to_left, to_right, truncate,
};
use crate::dispatch_origins::{origin_views, DispatchOrigin, OriginView};
use crate::text::{dec, views};
use vstd::prelude::*;

verus! {

broadcast use vstd::string::group_string_axioms;

pub const NO_ORIGINS: &'static str =
    "(no dispatch origins — was the session recorded with SMELTR_STACK_CAPTURE=1?)\n";

/// The heading of the listing.
pub open spec fn origins_head() -> Seq<char> {
    line_of(
        seq![
            to_left("KIND"@, 32),
            to_left("FILE:LINE"@, 40),
            to_right("GPU_TIME"@, 12),
            to_right("DISPATCHES"@, 12),
        ],
    )
}

/// The line of an origin.
pub open spec fn origin_line(o: OriginView) -> Seq<char> {
    line_of(
        seq![
            to_left(shortened(o.kind, 32), 32),
            to_left(shortened(o.file_line, 40), 40),
            to_right(secs(o.gpu_ns), 12),
            to_right(dec(o.dispatch_count as int), 12),
        ],
    )
}

/// The listing of the first `top` origins.
pub open spec fn origins_text(rows: Seq<OriginView>, top: nat) -> Seq<char> {
    origins_head() + stacked(firsts(rows, top).map_values(|o: OriginView| origin_line(o)))
        + cut_note(rows.len(), top) + empty_note(rows.len(), NO_ORIGINS@)
}

fn line_for(o: &DispatchOrigin) -> (s: String)
    ensures
        s@ == origin_line(o@),
{
    let cells = vec![
        left(truncate(o.kind.as_str(), 32).as_str(), 32),
        left(truncate(o.file_line.as_str(), 40).as_str(), 40),
        right(fmt_secs(o.gpu_ns).as_str(), 12),
        number(o.dispatch_count, 12),
    ];
    assert(cell_views(cells@) =~= seq![
        to_left(shortened(o.kind@, 32), 32),
        to_left(shortened(o.file_line@, 40), 40),
        to_right(secs(o.gpu_ns as nat), 12),
        to_right(dec(o.dispatch_count as int), 12),
    ]);
    line(cells)
}

/// Lists the first `top` origins.
pub fn render(rows: &[DispatchOrigin], top: usize) -> (out: String)
    ensures
        out@ == origins_text(origin_views(rows@), top as nat),
{
    let head = vec![
        left("KIND", 32),
        left("FILE:LINE", 40),
        right("GPU_TIME", 12),
        right("DISPATCHES", 12),
    ];
    assert(cell_views(head@) =~= seq![
        to_left("KIND"@, 32),
        to_left("FILE:LINE"@, 40),
        to_right("GPU_TIME"@, 12),
        to_right("DISPATCHES"@, 12),
    ]);
    let mut out = line(head);
    let n: usize = rows.len();
    let shown: usize = first_count(n, top);
    let ghost all = origin_views(rows@);
    let mut lines: Vec<String> = Vec::new();
    let mut i: usize = 0;
    while i < shown
        invariant
            i <= shown <= rows@.len(),
            lines@.len() == i,
            forall|k: int| 0 <= k < i ==> (#[trigger] lines@[k])@ == origin_line(rows@[k]@),
        decreases shown - i,
    {
        lines.push(line_for(&rows[i]));
        i = i + 1;
    }
    assert(views(lines@) =~= firsts(all, top as nat).map_values(|o: OriginView| origin_line(o)));
    push_lines(&mut out, &lines);
    out.append(cut_note_text(n, top).as_str());
    let ghost before = out@;
    if n == 0 {
        out.append(NO_ORIGINS);
    }
    assert(out@ =~= before + empty_note(n as nat, NO_ORIGINS@));
    out
}

} // verus!
