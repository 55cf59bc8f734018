//! The comparison of two sessions as text.

use crate::columns::{
    cell_views, cut_note, cut_note_text, empty_note, first_count, firsts, fmt_secs, left, line,
    line_of, push_lines, right, secs, shortened, stacked, to_left, to_right, truncate,
};
use crate::diff::{
    aggregate_views, diff_ok, memory_delta_views, op_delta_views, opt_percent, pct_ok,
    scope_delta_views, AmountView, DeltaView, MemoryDelta, OpDelta, Percent, PercentView,
    ScopeAggregate, ScopeDelta, SessionDiff,
};
use crate::double::{fixed, push_fixed, quotient_text, ratio};
use crate::text::{dec, dec_text, push_dec, views};
use vstd::prelude::*;

verus! {

broadcast use vstd::string::group_string_axioms;

/// Bytes with two places.
pub open spec fn sized(b: u64) -> Seq<char> {
    if b >= 0x4000_0000 {
        fixed(ratio(b as nat, 0x4000_0000), 2) + " GB"@
    } else if b >= 0x10_0000 {
        fixed(ratio(b as nat, 0x10_0000), 2) + " MB"@
    } else if b >= 0x400 {
        fixed(ratio(b as nat, 0x400), 2) + " KB"@
    } else {
        dec(b as int) + " B"@
    }
}

/// Bytes with two places.
pub fn fmt_bytes(b: u64) -> (s: String)
    ensures
        s@ == sized(b),
{
    if b >= 0x4000_0000 {
        let mut s = quotient_text(b, 0x4000_0000, 2);
        s.append(" GB");
        s
    } else if b >= 0x10_0000 {
        let mut s = quotient_text(b, 0x10_0000, 2);
        s.append(" MB");
        s
    } else if b >= 0x400 {
        let mut s = quotient_text(b, 0x400, 2);
        s.append(" KB");
        s
    } else {
        let mut s = dec_text(b);
        s.append(" B");
        s
    }
}

/// The size of a number.
pub open spec fn size_of_change(n: int) -> u64 {
    (if n < 0 {
        -n
    } else {
        n
    }) as u64
}

/// The sign of a number; zero has none.
pub open spec fn sign_of(n: int) -> Seq<char> {
    if n < 0 {
        "-"@
    } else if n > 0 {
        "+"@
    } else {
        ""@
    }
}

/// The percentage of a change, in brackets.
pub open spec fn pct_note(pct: Option<PercentView>) -> Seq<char> {
    match pct {
        Some(p) => " ("@ + (if p.negative {
            "-"@
        } else {
            "+"@
        }) + fixed(p.magnitude, 1) + "%)"@,
        None => " (n/a)"@,
    }
}

/// A change of GPU time.
pub open spec fn time_change(d: DeltaView) -> Seq<char> {
    sign_of(d.delta) + secs(size_of_change(d.delta) as nat) + pct_note(d.pct)
}

/// A change of memory.
pub open spec fn size_change(d: DeltaView) -> Seq<char> {
    sign_of(d.delta) + sized(size_of_change(d.delta)) + pct_note(d.pct)
}

fn change_size(n: i64) -> (u: u64)
    ensures
        u == size_of_change(n as int),
{
    if n < 0 {
        (-(n + 1)) as u64 + 1
    } else {
        n as u64
    }
}

fn change_sign(n: i64) -> (s: &'static str)
    ensures
        s@ == sign_of(n as int),
{
    if n < 0 {
        "-"
    } else if n > 0 {
        "+"
    } else {
        ""
    }
}

fn pct_text(pct: &Option<Percent>) -> (s: String)
    requires
        pct_ok(*pct),
    ensures
        s@ == pct_note(opt_percent(*pct)),
{
    match pct {
        Some(p) => {
            let mut s = " (".to_owned();
            if p.negative {
                s.append("-");
            } else {
                s.append("+");
            }
            push_fixed(&mut s, p.magnitude, 1);
            s.append("%)");
            s
        },
        None => " (n/a)".to_owned(),
    }
}

/// A change of GPU time.
pub fn fmt_delta(ns: i64, pct: Option<Percent>) -> (s: String)
    requires
        pct_ok(pct),
    ensures
        s@ == sign_of(ns as int) + secs(size_of_change(ns as int) as nat) + pct_note(
            opt_percent(pct),
        ),
{
    let mut s = change_sign(ns).to_owned();
    s.append(fmt_secs(change_size(ns)).as_str());
    s.append(pct_text(&pct).as_str());
    s
}

/// A change of memory.
pub fn fmt_delta_bytes(bytes: i64, pct: Option<Percent>) -> (s: String)
    requires
        pct_ok(pct),
    ensures
        s@ == sign_of(bytes as int) + sized(size_of_change(bytes as int)) + pct_note(
            opt_percent(pct),
        ),
{
    let mut s = change_sign(bytes).to_owned();
    s.append(fmt_bytes(change_size(bytes)).as_str());
    s.append(pct_text(&pct).as_str());
    s
}

/// The heading of a table of GPU times.
pub open spec fn time_head(title: Seq<char>) -> Seq<char> {
    line_of(
        seq![
            to_left(title, 50),
            to_right("A"@, 10),
            to_right("B"@, 10),
            to_right("DELTA"@, 14),
        ],
    )
}

/// A row of a table of GPU times.
pub open spec fn time_line(d: DeltaView) -> Seq<char> {
    line_of(
        seq![
            to_left(shortened(d.name, 50), 50),
            to_right(secs(d.a as nat), 10),
            to_right(secs(d.b as nat), 10),
            to_right(time_change(d), 14),
        ],
    )
}

/// A table of GPU times.
pub open spec fn time_table(
    title: Seq<char>,
    rows: Seq<DeltaView>,
    top: nat,
    none: Seq<char>,
) -> Seq<char> {
    time_head(title) + stacked(firsts(rows, top).map_values(|d: DeltaView| time_line(d)))
        + cut_note(rows.len(), top) + empty_note(rows.len(), none)
}

/// The heading of the table of memory peaks.
pub open spec fn memory_head() -> Seq<char> {
    line_of(
        seq![
            to_left("MEMORY DELTAS"@, 48),
            to_right("A_PEAK"@, 14),
            to_right("B_PEAK"@, 14),
            to_right("DELTA"@, 16),
        ],
    )
}

/// A row of the table of memory peaks.
pub open spec fn memory_line(d: DeltaView) -> Seq<char> {
    line_of(
        seq![
            to_left(shortened(d.name, 48), 48),
            to_right(sized(d.a), 14),
            to_right(sized(d.b), 14),
            to_right(size_change(d), 16),
        ],
    )
}

/// The table of memory peaks.
pub open spec fn memory_table(rows: Seq<DeltaView>, top: nat) -> Seq<char> {
    memory_head() + stacked(firsts(rows, top).map_values(|d: DeltaView| memory_line(d)))
        + cut_note(rows.len(), top) + empty_note(rows.len(), "(no memory deltas)\n"@)
}

/// A row of a list of scopes.
pub open spec fn only_line(x: AmountView) -> Seq<char> {
    "  "@ + line_of(seq![to_left(shortened(x.name, 48), 48), to_right(secs(x.value as nat), 10)])
}

/// The scopes of one session alone.
pub open spec fn only_section(title: Seq<char>, rows: Seq<AmountView>, top: nat) -> Seq<char> {
    if rows.len() == 0 {
        title + "\n"@ + "(none)\n"@
    } else if rows.len() > top {
        title + "\n"@ + stacked(firsts(rows, top).map_values(|x: AmountView| only_line(x)))
            + "  (showing top "@ + dec(top as int) + " of "@ + dec(rows.len() as int) + ")\n"@
    } else {
        title + "\n"@ + stacked(firsts(rows, top).map_values(|x: AmountView| only_line(x)))
    }
}

pub const NO_SCOPES: &'static str = "(no scopes present in both sessions)\n";

pub const NO_OPS: &'static str = "(no ops in either session)\n";

/// The whole comparison.
pub open spec fn comparison(
    scopes: Seq<DeltaView>,
    ops: Seq<DeltaView>,
    memory: Seq<DeltaView>,
    only_a: Seq<AmountView>,
    only_b: Seq<AmountView>,
    top: nat,
) -> Seq<char> {
    time_table("SCOPE DELTAS"@, scopes, top, NO_SCOPES@) + "\n"@ + time_table(
        "OP KIND DELTAS"@,
        ops,
        top,
        NO_OPS@,
    ) + "\n"@ + memory_table(memory, top) + "\n"@ + only_section("SCOPES ONLY IN A"@, only_a, top)
        + "\n"@ + only_section("SCOPES ONLY IN B"@, only_b, top)
}

fn time_head_text(title: &str) -> (s: String)
    ensures
        s@ == time_head(title@),
{
    let cells = vec![left(title, 50), right("A", 10), right("B", 10), right("DELTA", 14)];
    assert(cell_views(cells@) =~= seq![
        to_left(title@, 50),
        to_right("A"@, 10),
        to_right("B"@, 10),
        to_right("DELTA"@, 14),
    ]);
    line(cells)
}

fn time_line_text(name: &String, a: u64, b: u64, delta: i64, pct: Option<Percent>) -> (s: String)
    requires
        pct_ok(pct),
    ensures
        s@ == time_line(
            DeltaView {
                name: name@,
                place: seq![],
                a,
                b,
                delta: delta as int,
                pct: opt_percent(pct),
            },
        ),
{
    let cells = vec![
        left(truncate(name.as_str(), 50).as_str(), 50),
        right(fmt_secs(a).as_str(), 10),
        right(fmt_secs(b).as_str(), 10),
        right(fmt_delta(delta, pct).as_str(), 14),
    ];
    assert(cell_views(cells@) =~= seq![
        to_left(shortened(name@, 50), 50),
        to_right(secs(a as nat), 10),
        to_right(secs(b as nat), 10),
        to_right(
            sign_of(delta as int) + secs(size_of_change(delta as int) as nat) + pct_note(
                opt_percent(pct),
            ),
            14,
        ),
    ]);
    line(cells)
}

/// Ends a table.
fn finish_table(out: &mut String, lines: &Vec<String>, total: usize, top: usize, none: &str)
    ensures
        final(out)@ == old(out)@ + stacked(views(lines@)) + cut_note(total as nat, top as nat)
            + empty_note(total as nat, none@),
{
    push_lines(out, lines);
    out.append(cut_note_text(total, top).as_str());
    let ghost before = out@;
    if total == 0 {
        out.append(none);
    }
    assert(out@ =~= before + empty_note(total as nat, none@));
}

fn scope_table(rows: &[ScopeDelta], top: usize) -> (out: String)
    requires
        forall|i: int| 0 <= i < rows@.len() ==> pct_ok((#[trigger] rows@[i]).delta_pct),
    ensures
        out@ == time_table("SCOPE DELTAS"@, scope_delta_views(rows@), top as nat, NO_SCOPES@),
{
    let mut out = time_head_text("SCOPE DELTAS");
    let n: usize = first_count(rows.len(), top);
    let mut lines: Vec<String> = Vec::new();
    let mut i: usize = 0;
    while i < n
        invariant
            i <= n <= rows@.len(),
            forall|i: int| 0 <= i < rows@.len() ==> pct_ok((#[trigger] rows@[i]).delta_pct),
            lines@.len() == i,
            forall|k: int| 0 <= k < i ==> (#[trigger] lines@[k])@ == time_line(rows@[k]@),
        decreases n - i,
    {
        let r = &rows[i];
        lines.push(time_line_text(&r.qualname, r.a_gpu_ns, r.b_gpu_ns, r.delta_ns, r.delta_pct));
        i = i + 1;
    }
    assert(views(lines@) =~= firsts(scope_delta_views(rows@), top as nat).map_values(
        |d: DeltaView| time_line(d),
    ));
    finish_table(&mut out, &lines, rows.len(), top, NO_SCOPES);
    out
}

fn op_table(rows: &[OpDelta], top: usize) -> (out: String)
    requires
        forall|i: int| 0 <= i < rows@.len() ==> pct_ok((#[trigger] rows@[i]).delta_pct),
    ensures
        out@ == time_table("OP KIND DELTAS"@, op_delta_views(rows@), top as nat, NO_OPS@),
{
    let mut out = time_head_text("OP KIND DELTAS");
    let n: usize = first_count(rows.len(), top);
    let mut lines: Vec<String> = Vec::new();
    let mut i: usize = 0;
    while i < n
        invariant
            i <= n <= rows@.len(),
            forall|i: int| 0 <= i < rows@.len() ==> pct_ok((#[trigger] rows@[i]).delta_pct),
            lines@.len() == i,
            forall|k: int| 0 <= k < i ==> (#[trigger] lines@[k])@ == time_line(rows@[k]@),
        decreases n - i,
    {
        let r = &rows[i];
        lines.push(time_line_text(&r.kind, r.a_gpu_ns, r.b_gpu_ns, r.delta_ns, r.delta_pct));
        i = i + 1;
    }
    assert(views(lines@) =~= firsts(op_delta_views(rows@), top as nat).map_values(
        |d: DeltaView| time_line(d),
    ));
    finish_table(&mut out, &lines, rows.len(), top, NO_OPS);
    out
}

fn memory_line_text(r: &MemoryDelta) -> (s: String)
    requires
        pct_ok(r.delta_pct),
    ensures
        s@ == memory_line(r@),
{
    let cells = vec![
        left(truncate(r.qualname.as_str(), 48).as_str(), 48),
        right(fmt_bytes(r.a_peak_bytes).as_str(), 14),
        right(fmt_bytes(r.b_peak_bytes).as_str(), 14),
        right(fmt_delta_bytes(r.delta_bytes, r.delta_pct).as_str(), 16),
    ];
    assert(cell_views(cells@) =~= seq![
        to_left(shortened(r.qualname@, 48), 48),
        to_right(sized(r.a_peak_bytes), 14),
        to_right(sized(r.b_peak_bytes), 14),
        to_right(size_change(r@), 16),
    ]);
    line(cells)
}

fn memory_table_text(rows: &[MemoryDelta], top: usize) -> (out: String)
    requires
        forall|i: int| 0 <= i < rows@.len() ==> pct_ok((#[trigger] rows@[i]).delta_pct),
    ensures
        out@ == memory_table(memory_delta_views(rows@), top as nat),
{
    let head = vec![
        left("MEMORY DELTAS", 48),
        right("A_PEAK", 14),
        right("B_PEAK", 14),
        right("DELTA", 16),
    ];
    assert(cell_views(head@) =~= seq![
        to_left("MEMORY DELTAS"@, 48),
        to_right("A_PEAK"@, 14),
        to_right("B_PEAK"@, 14),
        to_right("DELTA"@, 16),
    ]);
    let mut out = line(head);
    let n: usize = first_count(rows.len(), top);
    let mut lines: Vec<String> = Vec::new();
    let mut i: usize = 0;
    while i < n
        invariant
            i <= n <= rows@.len(),
            forall|i: int| 0 <= i < rows@.len() ==> pct_ok((#[trigger] rows@[i]).delta_pct),
            lines@.len() == i,
            forall|k: int| 0 <= k < i ==> (#[trigger] lines@[k])@ == memory_line(rows@[k]@),
        decreases n - i,
    {
        lines.push(memory_line_text(&rows[i]));
        i = i + 1;
    }
    assert(views(lines@) =~= firsts(memory_delta_views(rows@), top as nat).map_values(
        |d: DeltaView| memory_line(d),
    ));
    finish_table(&mut out, &lines, rows.len(), top, "(no memory deltas)\n");
    out
}

/// The scopes of one session alone.
pub fn render_only_section(title: &str, rows: &[ScopeAggregate], top: usize) -> (out: String)
    ensures
        out@ == only_section(title@, aggregate_views(rows@), top as nat),
{
    let mut out = title.to_owned();
    out.append("\n");
    if rows.len() == 0 {
        out.append("(none)\n");
        return out;
    }
    let n: usize = first_count(rows.len(), top);
    let mut lines: Vec<String> = Vec::new();
    let mut i: usize = 0;
    while i < n
        invariant
            i <= n <= rows@.len(),
            lines@.len() == i,
            forall|k: int| 0 <= k < i ==> (#[trigger] lines@[k])@ == only_line(rows@[k]@),
        decreases n - i,
    {
        let r = &rows[i];
        let cells = vec![
            left(truncate(r.qualname.as_str(), 48).as_str(), 48),
            right(fmt_secs(r.gpu_ns).as_str(), 10),
        ];
        assert(cell_views(cells@) =~= seq![
            to_left(shortened(r.qualname@, 48), 48),
            to_right(secs(r.gpu_ns as nat), 10),
        ]);
        let mut s = "  ".to_owned();
        s.append(line(cells).as_str());
        lines.push(s);
        i = i + 1;
    }
    assert(views(lines@) =~= firsts(aggregate_views(rows@), top as nat).map_values(
        |x: AmountView| only_line(x),
    ));
    push_lines(&mut out, &lines);
    if rows.len() > top {
        out.append("  (showing top ");
        push_dec(&mut out, top as u64);
        out.append(" of ");
        push_dec(&mut out, rows.len() as u64);
        out.append(")\n");
    }
    out
}

/// Renders the comparison of two sessions, `top` rows of each table.
pub fn render(diff: &SessionDiff, memory_deltas: &[MemoryDelta], top: usize) -> (out: String)
    requires
        diff_ok(*diff),
        forall|i: int|
            0 <= i < memory_deltas@.len() ==> pct_ok((#[trigger] memory_deltas@[i]).delta_pct),
    ensures
        out@ == comparison(
            diff@.scopes,
            diff@.ops,
            memory_delta_views(memory_deltas@),
            diff@.only_a,
            diff@.only_b,
            top as nat,
        ),
{
    let mut out = scope_table(&diff.scope_deltas, top);
    out.append("\n");
    out.append(op_table(&diff.op_deltas, top).as_str());
    out.append("\n");
    out.append(memory_table_text(memory_deltas, top).as_str());
    out.append("\n");
    out.append(
        render_only_section("SCOPES ONLY IN A", &diff.scopes_only_in_a, top).as_str(),
    );
    out.append("\n");
    out.append(
        render_only_section("SCOPES ONLY IN B", &diff.scopes_only_in_b, top).as_str(),
    );
    out
}

} // verus!
