//! A breakdown as tables and as a trace.

use crate::breakdown::{op_rows, ModuleBreakdown, Node, OpAttribution};
use crate::double::{fixed, of_int, percent_text, quotient_text, ratio, times};
use crate::json::{json_string, json_text};
use crate::op_tables::{
    aggregate_ops_flat, flat_rows, flat_total_fits, flat_views, rows_total, OpFlatRow, OpGroupBy,
};
use crate::sort::{ordered, rank, sort, Ranked};
use crate::tally::{total_ns, Entry};
use crate::text::{
    dec, left_aligned, left_text, push_dec, push_dec_right, push_repeated, push_right, repeated,
    repeated_text, right_aligned,
};
use vstd::prelude::*;

verus! {

broadcast use vstd::string::group_string_axioms;

/// `s`, with dots in place of what lies behind its first `max - 1` characters
/// where it is longer than `max`.
pub open spec fn cut(s: Seq<char>, max: nat) -> Seq<char> {
    if max == 0 {
        seq![]
    } else {
        crate::text::clipped(s, max, "..."@)
    }
}

fn truncate(s: &str, max: usize) -> (r: String)
    ensures
        r@ == cut(s@, max as nat),
{
    if max == 0 {
        let r = String::new();
        assert(r@ =~= seq![]);
        return r;
    }
    crate::text::clip(s, max, "...")
}

/// `n` nanoseconds in microseconds.
pub open spec fn micros(n: nat) -> Seq<char> {
    fixed(ratio(n, 1000), 3)
}

/// `part` of `whole` in percent.
pub open spec fn share(part: nat, whole: nat) -> Seq<char> {
    fixed(times(ratio(part, whole), of_int(100)), 1)
}

/// At least one.
pub open spec fn at_least_one(n: nat) -> nat {
    if n == 0 {
        1
    } else {
        n
    }
}

/// `n` and everything below it down to `max`, each with its depth.
pub open spec fn rows_of(n: Node, depth: int, max: int) -> Seq<(int, Node)>
    decreases n, n.children.len() + 1,
{
    if depth > max {
        seq![]
    } else {
        seq![(depth, n)] + rows_below(n, n.children.len() as int, depth + 1, max)
    }
}

/// The rows of the first `k` children of `n`.
pub open spec fn rows_below(n: Node, k: int, depth: int, max: int) -> Seq<(int, Node)>
    decreases n, k,
{
    if k <= 0 || k > n.children.len() {
        seq![]
    } else {
        rows_below(n, k - 1, depth, max) + rows_of(n.children[k - 1], depth, max)
    }
}

/// Rows by the GPU time of their subtrees, largest first.
pub open spec fn rows_by_subtree() -> spec_fn((int, Node), (int, Node)) -> bool {
    |a: (int, Node), b: (int, Node)| a.1.gpu_ns_subtree > b.1.gpu_ns_subtree
}

/// One kernel of a node, as a line.
pub open spec fn op_line(e: Entry, depth: int) -> Seq<char> {
    left_aligned(cut(repeated(' ', (2 * (depth + 1)) as nat) + "\u{2514} op:"@ + e.key, 48), 48)
        + " "@ + right_aligned(dec(e.count as int), 8) + " "@ + right_aligned(
        micros(e.gpu_ns),
        14,
    ) + " "@ + right_aligned(""@, 14) + " "@ + right_aligned(""@, 5) + "\n"@
}

/// The first `n` kernels of a node, a line each.
pub open spec fn op_lines(ops: Seq<Entry>, depth: int, n: int) -> Seq<char>
    decreases n,
{
    if n <= 0 || n > ops.len() {
        seq![]
    } else {
        op_lines(ops, depth, n - 1) + op_line(ops[n - 1], depth)
    }
}

/// One node, as a line.
pub open spec fn node_line(n: Node, depth: int, total: nat) -> Seq<char> {
    left_aligned(cut(repeated(' ', (2 * depth) as nat) + n.qualname, 48), 48) + " "@
        + right_aligned(dec(n.calls as int), 8) + " "@ + right_aligned(micros(n.gpu_ns_self), 14)
        + " "@ + right_aligned(micros(n.gpu_ns_subtree), 14) + " "@ + right_aligned(
        share(n.gpu_ns_subtree, total),
        5,
    ) + "%\n"@
}

/// The lesser of two lengths.
pub open spec fn lesser(a: int, b: int) -> int {
    if a < b {
        a
    } else {
        b
    }
}

/// The first `n` rows, a line each, with their kernels.
pub open spec fn row_lines(
    rows: Seq<(int, Node)>,
    n: int,
    total: nat,
    top_ops: int,
    show_ops: bool,
) -> Seq<char>
    decreases n,
{
    if n <= 0 || n > rows.len() {
        seq![]
    } else {
        let (depth, node) = rows[n - 1];
        row_lines(rows, n - 1, total, top_ops, show_ops) + row_block(
            node,
            depth,
            total,
            top_ops,
            show_ops,
        )
    }
}

/// One node and its first kernels, as lines.
pub open spec fn row_block(
    node: Node,
    depth: int,
    total: nat,
    top_ops: int,
    show_ops: bool,
) -> Seq<char> {
    node_line(node, depth, total) + if show_ops {
        op_lines(node.ops, depth, lesser(top_ops, node.ops.len() as int))
    } else {
        seq![]
    }
}

/// The headings of the table.
pub open spec fn table_head() -> Seq<char> {
    left_aligned("qualname"@, 48) + " "@ + right_aligned("calls"@, 8) + " "@ + right_aligned(
        "gpu_self_us"@,
        14,
    ) + " "@ + right_aligned("gpu_subtree_us"@, 14) + " "@ + right_aligned("pct"@, 6) + "\n"@
        + repeated('-', 94) + "\n"@
}

/// What the last line of the table says.
pub open spec fn diagnostics_line(n: Node) -> Seq<char> {
    match n.diagnostics {
        Some(d) => "\ndiagnostics: unscoped_gpu_us="@ + micros(d.unscoped_gpu_ns as nat)
            + " unmatched_cb="@ + dec(d.unmatched_cb_count as int) + " malformed_returns="@ + dec(
            d.malformed_returns as int,
        ) + "\n"@,
        None => seq![],
    }
}

/// All rows below the root, by the GPU time of their subtrees.
pub open spec fn table_rows(root: Node, max_depth: int) -> Seq<(int, Node)> {
    ordered(rows_below(root, root.children.len() as int, 0, max_depth), rows_by_subtree())
}

/// The whole table.
pub open spec fn table_text(
    root: Node,
    top: int,
    max_depth: int,
    top_ops: int,
    show_ops: bool,
) -> Seq<char> {
    let rows = table_rows(root, max_depth);
    table_head() + row_lines(
        rows,
        lesser(top, rows.len() as int),
        at_least_one(root.gpu_ns_subtree),
        top_ops,
        show_ops,
    ) + diagnostics_line(root)
}

struct TableRow<'a> {
    depth: u32,
    node: &'a ModuleBreakdown,
}

impl<'a> View for TableRow<'a> {
    type V = (int, Node);

    closed spec fn view(&self) -> (int, Node) {
        (self.depth as int, self.node.tree())
    }
}

impl<'a> Ranked for TableRow<'a> {
    closed spec fn before(self, other: Self) -> bool {
        self.node.gpu_ns_subtree > other.node.gpu_ns_subtree
    }

    fn comes_before(&self, other: &Self) -> (b: bool) {
        self.node.gpu_ns_subtree > other.node.gpu_ns_subtree
    }
}

spec fn table_views(s: Seq<TableRow>) -> Seq<(int, Node)> {
    s.map_values(|r: TableRow| r@)
}

fn collect_rows<'a>(node: &'a ModuleBreakdown, depth: u32, max: u32, out: &mut Vec<TableRow<'a>>)
    requires
        max <= 0xffff,
        depth <= max + 1,
    ensures
        table_views(final(out)@) == table_views(old(out)@) + rows_of(
            node.tree(),
            depth as int,
            max as int,
        ),
    decreases node,
{
    let ghost n = node.tree();
    let ghost start = table_views(out@);
    if depth > max {
        assert(start + rows_of(n, depth as int, max as int) =~= start);
        return ;
    }
    let row = TableRow { depth, node };
    out.push(row);
    let mut i: usize = 0;
    proof {
        assert(table_views(out@) =~= start + seq![(depth as int, n)]);
        assert(start + seq![(depth as int, n)] + rows_below(n, 0, depth + 1, max as int) =~= start
            + seq![(depth as int, n)]);
    }
    while i < node.children.len()
        invariant
            i <= node.children@.len(),
            n == node.tree(),
            depth <= max <= 0xffff,
            table_views(out@) == start + seq![(depth as int, n)] + rows_below(
                n,
                i as int,
                depth + 1,
                max as int,
            ),
        decreases node.children@.len() - i,
    {
        let child = &node.children[i];
        let ghost before = table_views(out@);
        proof {
            assert(n.children[i as int] == child.tree());
            assert(decreases_to!(*node => node.children@[i as int]));
        }
        collect_rows(child, depth + 1, max, out);
        proof {
            assert(before + rows_of(child.tree(), depth + 1, max as int) =~= start + seq![
                (depth as int, n),
            ] + rows_below(n, i + 1, depth + 1, max as int));
        }
        i = i + 1;
    }
    assert(start + seq![(depth as int, n)] + rows_below(
        n,
        node.children@.len() as int,
        depth + 1,
        max as int,
    ) =~= start + rows_of(n, depth as int, max as int));
}

fn op_line_text(op: &OpAttribution, depth: u32) -> (s: String)
    requires
        depth <= 0xffff,
    ensures
        s@ == op_line(op@, depth as int),
{
    let mut name = repeated_text(' ', 2 * (depth as usize + 1));
    name.append("\u{2514} op:");
    name.append(op.name.as_str());
    let mut s = left_text(truncate(name.as_str(), 48).as_str(), 48);
    s.append(" ");
    push_dec_right(&mut s, op.count, 8);
    s.append(" ");
    push_right(&mut s, quotient_text(op.gpu_ns, 1000, 3).as_str(), 14);
    s.append(" ");
    push_right(&mut s, "", 14);
    s.append(" ");
    push_right(&mut s, "", 5);
    s.append("\n");
    s
}

fn node_line_text(n: &ModuleBreakdown, depth: u32, total: u64) -> (s: String)
    requires
        depth <= 0xffff,
        total > 0,
    ensures
        s@ == node_line(n.tree(), depth as int, total as nat),
{
    let mut name = repeated_text(' ', 2 * depth as usize);
    name.append(n.qualname.as_str());
    let mut s = left_text(truncate(name.as_str(), 48).as_str(), 48);
    s.append(" ");
    push_dec_right(&mut s, n.calls, 8);
    s.append(" ");
    push_right(&mut s, quotient_text(n.gpu_ns_self, 1000, 3).as_str(), 14);
    s.append(" ");
    push_right(&mut s, quotient_text(n.gpu_ns_subtree, 1000, 3).as_str(), 14);
    s.append(" ");
    push_right(&mut s, percent_text(n.gpu_ns_subtree, total, 1).as_str(), 5);
    s.append("%\n");
    s
}

/// One node and its first kernels, as lines.
fn row_text(row: &TableRow, total: u64, top_ops: usize, show_ops: bool) -> (out: String)
    requires
        total > 0,
        row.depth <= 0xffff,
    ensures
        out@ == row_block(row@.1, row@.0, total as nat, top_ops as int, show_ops),
{
    let mut out = node_line_text(row.node, row.depth, total);
    let ghost head = out@;
    let ghost ops = row.node.tree().ops;
    if show_ops {
        let m: usize = if top_ops < row.node.ops.len() {
            top_ops
        } else {
            row.node.ops.len()
        };
        let mut j: usize = 0;
        assert(head + op_lines(ops, row.depth as int, 0) =~= head);
        while j < m
            invariant
                j <= m <= row.node.ops@.len(),
                row.depth <= 0xffff,
                ops == op_rows(row.node.ops@),
                out@ == head + op_lines(ops, row.depth as int, j as int),
            decreases m - j,
        {
            let line = op_line_text(&row.node.ops[j], row.depth);
            assert(ops[j as int] == row.node.ops@[j as int]@);
            out.append(line.as_str());
            assert(out@ =~= head + op_lines(ops, row.depth as int, j + 1));
            j = j + 1;
        }
    } else {
        assert(head + Seq::<char>::empty() =~= head);
    }
    out
}

/// Renders a flat table of modules, by the GPU time of their subtrees, largest
/// first.
pub fn render_table(
    root: &ModuleBreakdown,
    top: usize,
    max_depth: u16,
    top_ops: usize,
    show_ops: bool,
) -> (out: String)
    ensures
        out@ == table_text(root.tree(), top as int, max_depth as int, top_ops as int, show_ops),
{
    let ghost n = root.tree();
    let total: u64 = if root.gpu_ns_subtree == 0 {
        1
    } else {
        root.gpu_ns_subtree
    };
    let max: u32 = max_depth as u32;
    let mut rows: Vec<TableRow> = Vec::new();
    let mut i: usize = 0;
    assert(table_views(rows@) =~= rows_below(n, 0, 0, max as int));
    while i < root.children.len()
        invariant
            i <= root.children@.len(),
            n == root.tree(),
            max <= 0xffff,
            table_views(rows@) == rows_below(n, i as int, 0, max as int),
        decreases root.children@.len() - i,
    {
        assert(n.children[i as int] == root.children@[i as int].tree());
        collect_rows(&root.children[i], 0, max, &mut rows);
        i = i + 1;
    }
    proof {
        crate::sort::lemma_ordered_map(
            rows@,
            |r: TableRow| r@,
            rank::<TableRow>(),
            rows_by_subtree(),
        );
        lemma_depths(n, n.children.len() as int, 0, max as int);
    }
    let ghost unsorted = rows@;
    sort(&mut rows);
    let ghost all = table_rows(n, max as int);
    proof {
        assert(table_views(rows@) == all);
        assert forall|k: int| 0 <= k < rows@.len() implies (#[trigger] rows@[k]).depth
            <= 0xffff by {
            assert(all[k] == rows@[k]@);
            assert(all.contains(all[k]));
            crate::sort::lemma_ordered_contains(
                rows_below(n, n.children.len() as int, 0, max as int),
                rows_by_subtree(),
                all[k],
            );
            let raw = rows_below(n, n.children.len() as int, 0, max as int);
            let q = choose|q: int| 0 <= q < raw.len() && raw[q] == all[k];
            assert(raw[q].0 <= max);
        }
    }
    let mut out = left_text("qualname", 48);
    out.append(" ");
    push_right(&mut out, "calls", 8);
    out.append(" ");
    push_right(&mut out, "gpu_self_us", 14);
    out.append(" ");
    push_right(&mut out, "gpu_subtree_us", 14);
    out.append(" ");
    push_right(&mut out, "pct", 6);
    out.append("\n");
    push_repeated(&mut out, '-', 94);
    out.append("\n");
    let shown: usize = if top < rows.len() {
        top
    } else {
        rows.len()
    };
    let mut k: usize = 0;
    assert(table_head() + row_lines(all, 0, total as nat, top_ops as int, show_ops)
        =~= table_head());
    while k < shown
        invariant
            k <= shown <= rows@.len(),
            total > 0,
            all == table_views(rows@),
            forall|k: int| 0 <= k < rows@.len() ==> (#[trigger] rows@[k]).depth <= 0xffff,
            out@ == table_head() + row_lines(
                all,
                k as int,
                total as nat,
                top_ops as int,
                show_ops,
            ),
        decreases shown - k,
    {
        assert(all[k as int] == rows@[k as int]@);
        let block = row_text(&rows[k], total, top_ops, show_ops);
        out.append(block.as_str());
        assert(out@ =~= table_head() + row_lines(
            all,
            k + 1,
            total as nat,
            top_ops as int,
            show_ops,
        ));
        k = k + 1;
    }
    let ghost body = out@;
    if let Some(d) = &root.diagnostics {
        let mut line = "\ndiagnostics: unscoped_gpu_us=".to_owned();
        line.append(quotient_text(d.unscoped_gpu_ns, 1000, 3).as_str());
        line.append(" unmatched_cb=");
        push_dec(&mut line, d.unmatched_cb_count);
        line.append(" malformed_returns=");
        push_dec(&mut line, d.malformed_returns);
        line.append("\n");
        out.append(line.as_str());
    }
    assert(out@ =~= body + diagnostics_line(n));
    out
}

/// No row lies deeper than asked for.
proof fn lemma_depths(n: Node, k: int, depth: int, max: int)
    ensures
        forall|i: int|
            0 <= i < rows_below(n, k, depth, max).len() ==> (#[trigger] rows_below(
                n,
                k,
                depth,
                max,
            )[i]).0 <= max,
    decreases n, k,
{
    if 0 < k <= n.children.len() {
        lemma_depths(n, k - 1, depth, max);
        let c = n.children[k - 1];
        lemma_depths(c, c.children.len() as int, depth + 1, max);
        let a = rows_below(n, k - 1, depth, max);
        let b = rows_of(c, depth, max);
        assert forall|i: int| 0 <= i < rows_below(n, k, depth, max).len() implies (
        #[trigger] rows_below(n, k, depth, max)[i]).0 <= max by {
            if i < a.len() {
                assert(rows_below(n, k, depth, max)[i] == a[i]);
            } else {
                assert(rows_below(n, k, depth, max)[i] == b[i - a.len()]);
                if i > a.len() {
                    assert(b[i - a.len()] == rows_below(
                        c,
                        c.children.len() as int,
                        depth + 1,
                        max,
                    )[i - a.len() - 1]);
                }
            }
        }
    }
}

/// One row of the flat summary, as a line.
pub open spec fn flat_line(e: Entry, total: nat) -> Seq<char> {
    left_aligned(e.key, 32) + " "@ + right_aligned(dec(e.count as int), 8) + " "@ + right_aligned(
        micros(e.gpu_ns),
        14,
    ) + " "@ + right_aligned(share(e.gpu_ns, total), 5) + "%\n"@
}

/// The first `n` rows of the flat summary.
pub open spec fn flat_lines(rows: Seq<Entry>, n: int, total: nat) -> Seq<char>
    decreases n,
{
    if n <= 0 || n > rows.len() {
        seq![]
    } else {
        flat_lines(rows, n - 1, total) + flat_line(rows[n - 1], total)
    }
}

/// The headings of the flat summary.
pub open spec fn flat_head() -> Seq<char> {
    left_aligned("op"@, 32) + " "@ + right_aligned("count"@, 8) + " "@ + right_aligned(
        "gpu_us"@,
        14,
    ) + " "@ + right_aligned("pct"@, 6) + "\n"@ + repeated('-', 64) + "\n"@
}

/// The whole flat summary.
pub open spec fn flat_text(root: Node, group_by: OpGroupBy, top: int) -> Seq<char> {
    let rows = flat_rows(root, group_by);
    flat_head() + flat_lines(
        rows,
        lesser(top, rows.len() as int),
        at_least_one(total_ns(rows)),
    )
}

fn flat_line_text(r: &OpFlatRow, total: u64) -> (s: String)
    requires
        total > 0,
    ensures
        s@ == flat_line(r@, total as nat),
{
    let mut s = left_text(r.key.as_str(), 32);
    s.append(" ");
    push_dec_right(&mut s, r.count, 8);
    s.append(" ");
    push_right(&mut s, quotient_text(r.gpu_ns, 1000, 3).as_str(), 14);
    s.append(" ");
    push_right(&mut s, percent_text(r.gpu_ns, total, 1).as_str(), 5);
    s.append("%\n");
    s
}

/// Renders the kernels of the whole tree as a flat table, largest first.
pub fn render_ops_flat(root: &ModuleBreakdown, group_by: OpGroupBy, top: usize) -> (out: String)
    requires
        flat_total_fits(root.tree(), group_by),
    ensures
        out@ == flat_text(root.tree(), group_by, top as int),
{
    let rows = aggregate_ops_flat(root, group_by);
    let ghost all = flat_rows(root.tree(), group_by);
    let sum: u64 = match rows_total(&rows) {
        Some(sum) => sum,
        None => 0,
    };
    let total: u64 = if sum == 0 {
        1
    } else {
        sum
    };
    let mut out = left_text("op", 32);
    out.append(" ");
    push_right(&mut out, "count", 8);
    out.append(" ");
    push_right(&mut out, "gpu_us", 14);
    out.append(" ");
    push_right(&mut out, "pct", 6);
    out.append("\n");
    push_repeated(&mut out, '-', 64);
    out.append("\n");
    let shown: usize = if top < rows.len() {
        top
    } else {
        rows.len()
    };
    let mut k: usize = 0;
    assert(flat_head() + flat_lines(all, 0, total as nat) =~= flat_head());
    while k < shown
        invariant
            k <= shown <= rows@.len(),
            total > 0,
            all == flat_views(rows@),
            out@ == flat_head() + flat_lines(all, k as int, total as nat),
        decreases shown - k,
    {
        let line = flat_line_text(&rows[k], total);
        assert(all[k as int] == rows@[k as int]@);
        out.append(line.as_str());
        assert(out@ =~= flat_head() + flat_lines(all, k + 1, total as nat));
        k = k + 1;
    }
    out
}

/// The length of a trace slice in microseconds, never zero.
pub open spec fn slice_us(ns: nat) -> nat {
    at_least_one(ns / 1000)
}

/// A module as a trace event.
pub open spec fn node_event(n: Node, depth: int, start: int) -> Seq<char> {
    "{\"args\":{\"calls\":"@ + dec(n.calls as int) + ",\"cb_count\":"@ + dec(n.cb_count as int)
        + ",\"eval_count\":"@ + dec(n.eval_count as int) + ",\"gpu_self_us\":"@ + dec(
        (n.gpu_ns_self / 1000) as int,
    ) + "},\"cat\":"@ + json_string(n.class_name) + ",\"dur\":"@ + dec(
        slice_us(n.gpu_ns_subtree) as int,
    ) + ",\"name\":"@ + json_string(n.qualname) + ",\"ph\":\"X\",\"pid\":0,\"tid\":"@ + dec(depth)
        + ",\"ts\":"@ + dec(start) + "}"@
}

/// A kernel as a trace event.
pub open spec fn op_event(e: Entry, depth: int, start: int) -> Seq<char> {
    "{\"args\":{\"count\":"@ + dec(e.count as int) + ",\"gpu_ns\":"@ + dec(e.gpu_ns as int)
        + "},\"cat\":\"op\",\"dur\":"@ + dec(slice_us(e.gpu_ns) as int) + ",\"name\":"@
        + json_string(e.key) + ",\"ph\":\"X\",\"pid\":0,\"tid\":"@ + dec(depth) + ",\"ts\":"@ + dec(
        start,
    ) + "}"@
}

/// How long the first `k` kernels take, one after the other.
pub open spec fn ops_us(ops: Seq<Entry>, k: int) -> nat
    decreases k,
{
    if k <= 0 || k > ops.len() {
        0
    } else {
        ops_us(ops, k - 1) + slice_us(ops[k - 1].gpu_ns)
    }
}

/// The first `k` kernels, one after the other.
pub open spec fn op_events(ops: Seq<Entry>, k: int, depth: int, start: int) -> Seq<Seq<char>>
    decreases k,
{
    if k <= 0 || k > ops.len() {
        seq![]
    } else {
        op_events(ops, k - 1, depth, start).push(
            op_event(ops[k - 1], depth, start + ops_us(ops, k - 1)),
        )
    }
}

/// `n` and everything below it, from `start` on. The root itself is not shown.
pub open spec fn node_events(n: Node, depth: int, start: int) -> Seq<Seq<char>>
    decreases n, n.children.len() + 1,
{
    if n.qualname == "<root>"@ {
        child_events(n, n.children.len() as int, depth, start)
    } else {
        seq![node_event(n, depth, start)] + op_events(
            n.ops,
            n.ops.len() as int,
            depth + 1,
            start,
        ) + child_events(n, n.children.len() as int, depth + 1, start)
    }
}

/// The first `k` children of `n`, one after the other.
pub open spec fn child_events(n: Node, k: int, depth: int, start: int) -> Seq<Seq<char>>
    decreases n, k,
{
    if k <= 0 || k > n.children.len() {
        seq![]
    } else {
        child_events(n, k - 1, depth, start) + node_events(
            n.children[k - 1],
            depth,
            children_end(n, k - 1, start),
        )
    }
}

/// Where `n` ends when it starts at `start`.
pub open spec fn node_end(n: Node, start: int) -> int
    decreases n, n.children.len() + 1,
{
    if n.qualname == "<root>"@ {
        children_end(n, n.children.len() as int, start)
    } else {
        start + slice_us(n.gpu_ns_subtree)
    }
}

/// Where the first `k` children of `n` end when the first starts at `start`.
pub open spec fn children_end(n: Node, k: int, start: int) -> int
    decreases n, k,
{
    if k <= 0 || k > n.children.len() {
        start
    } else {
        node_end(n.children[k - 1], children_end(n, k - 1, start))
    }
}

/// The whole trace.
pub open spec fn trace_text(root: Node) -> Seq<char> {
    "{\"displayTimeUnit\":\"us\",\"traceEvents\":["@ + crate::text::joined(
        node_events(root, 0, 0),
        ","@,
    ) + "]}"@
}

/// The lengths of all slices of a tree together.
pub open spec fn trace_us(n: Node) -> nat
    decreases n, n.children.len() + 1,
{
    slice_us(n.gpu_ns_subtree) + ops_us(n.ops, n.ops.len() as int) + children_us(
        n,
        n.children.len() as int,
    )
}

/// The lengths of all slices of the first `k` children of `n`.
pub open spec fn children_us(n: Node, k: int) -> nat
    decreases n, k,
{
    if k <= 0 || k > n.children.len() {
        0
    } else {
        children_us(n, k - 1) + trace_us(n.children[k - 1])
    }
}

/// Every timestamp of the trace fits 64 bits.
pub open spec fn trace_fits(root: Node) -> bool {
    trace_us(root) <= u64::MAX
}

proof fn lemma_ops_us(ops: Seq<Entry>, k: int)
    requires
        0 <= k <= ops.len(),
    ensures
        ops_us(ops, k) <= ops_us(ops, ops.len() as int),
    decreases ops.len() - k,
{
    if k < ops.len() {
        lemma_ops_us(ops, k + 1);
    }
}

proof fn lemma_children_us(n: Node, k: int)
    requires
        0 <= k <= n.children.len(),
    ensures
        children_us(n, k) <= children_us(n, n.children.len() as int),
    decreases n.children.len() - k,
{
    if k < n.children.len() {
        lemma_children_us(n, k + 1);
    }
}

/// No slice ends later than all slices together last.
proof fn lemma_node_end(n: Node, start: int)
    ensures
        start <= node_end(n, start) <= start + trace_us(n),
    decreases n, n.children.len() + 1,
{
    lemma_children_end(n, n.children.len() as int, start);
}

proof fn lemma_children_end(n: Node, k: int, start: int)
    ensures
        start <= children_end(n, k, start) <= start + children_us(n, k),
    decreases n, k,
{
    if 0 < k <= n.children.len() {
        lemma_children_end(n, k - 1, start);
        lemma_node_end(n.children[k - 1], children_end(n, k - 1, start));
    }
}

fn slice_of(ns: u64) -> (us: u64)
    ensures
        us == slice_us(ns as nat),
{
    if ns / 1000 == 0 {
        1
    } else {
        ns / 1000
    }
}

fn node_event_text(n: &ModuleBreakdown, depth: u64, start: u64) -> (s: String)
    ensures
        s@ == node_event(n.tree(), depth as int, start as int),
{
    let mut s = "{\"args\":{\"calls\":".to_owned();
    push_dec(&mut s, n.calls);
    s.append(",\"cb_count\":");
    push_dec(&mut s, n.cb_count);
    s.append(",\"eval_count\":");
    push_dec(&mut s, n.eval_count);
    s.append(",\"gpu_self_us\":");
    push_dec(&mut s, n.gpu_ns_self / 1000);
    s.append("},\"cat\":");
    s.append(json_text(n.class_name.as_str()).as_str());
    s.append(",\"dur\":");
    push_dec(&mut s, slice_of(n.gpu_ns_subtree));
    s.append(",\"name\":");
    s.append(json_text(n.qualname.as_str()).as_str());
    s.append(",\"ph\":\"X\",\"pid\":0,\"tid\":");
    push_dec(&mut s, depth);
    s.append(",\"ts\":");
    push_dec(&mut s, start);
    s.append("}");
    s
}

fn op_event_text(e: &OpAttribution, depth: u64, start: u64) -> (s: String)
    ensures
        s@ == op_event(e@, depth as int, start as int),
{
    let mut s = "{\"args\":{\"count\":".to_owned();
    push_dec(&mut s, e.count);
    s.append(",\"gpu_ns\":");
    push_dec(&mut s, e.gpu_ns);
    s.append("},\"cat\":\"op\",\"dur\":");
    push_dec(&mut s, slice_of(e.gpu_ns));
    s.append(",\"name\":");
    s.append(json_text(e.name.as_str()).as_str());
    s.append(",\"ph\":\"X\",\"pid\":0,\"tid\":");
    push_dec(&mut s, depth);
    s.append(",\"ts\":");
    push_dec(&mut s, start);
    s.append("}");
    s
}

/// Appends the events of `n` and gives where it ends.
fn push_events(n: &ModuleBreakdown, depth: u64, start: u64, out: &mut Vec<String>) -> (end: u64)
    requires
        start + trace_us(n.tree()) <= u64::MAX,
        depth + trace_us(n.tree()) <= u64::MAX,
    ensures
        crate::text::views(final(out)@) == crate::text::views(old(out)@) + node_events(
            n.tree(),
            depth as int,
            start as int,
        ),
        end == node_end(n.tree(), start as int),
    decreases n,
{
    let ghost t = n.tree();
    let ghost before = crate::text::views(out@);
    let count: usize = n.children.len();
    let is_root: bool = crate::text::same(n.qualname.as_str(), "<root>");
    let below: u64 = if is_root {
        depth
    } else {
        depth + 1
    };
    let ghost mut head = before;
    if !is_root {
        let own = node_event_text(n, depth, start);
        out.push(own);
        let mut cursor: u64 = start;
        let mut j: usize = 0;
        let ghost ops = t.ops;
        let ghost first = before + seq![node_event(t, depth as int, start as int)];
        proof {
            assert(crate::text::views(out@) =~= first);
            assert(first + op_events(ops, 0, depth + 1, start as int) =~= first);
        }
        while j < n.ops.len()
            invariant
                j <= n.ops@.len(),
                ops == op_rows(n.ops@),
                below == depth + 1,
                start + ops_us(ops, ops.len() as int) <= u64::MAX,
                cursor == start + ops_us(ops, j as int),
                crate::text::views(out@) == first + op_events(
                    ops,
                    j as int,
                    depth + 1,
                    start as int,
                ),
            decreases n.ops@.len() - j,
        {
            let ghost was = crate::text::views(out@);
            let line = op_event_text(&n.ops[j], below, cursor);
            proof {
                assert(ops[j as int] == n.ops@[j as int]@);
                lemma_ops_us(ops, j + 1);
            }
            out.push(line);
            proof {
                assert(crate::text::views(out@) =~= was.push(line@));
                assert(was.push(line@) =~= first + op_events(ops, j + 1, depth + 1, start as int));
            }
            cursor = cursor + slice_of(n.ops[j].gpu_ns);
            j = j + 1;
        }
        proof {
            head = first + op_events(ops, ops.len() as int, depth + 1, start as int);
        }
    }
    let mut at: u64 = start;
    let mut i: usize = 0;
    assert(head + child_events(t, 0, below as int, start as int) =~= head);
    while i < count
        invariant
            i <= count == n.children@.len(),
            t == n.tree(),
            start + trace_us(t) <= u64::MAX,
            depth + trace_us(t) <= u64::MAX,
            below <= depth + 1,
            at == children_end(t, i as int, start as int),
            crate::text::views(out@) == head + child_events(t, i as int, below as int, start as int),
        decreases count - i,
    {
        let child = &n.children[i];
        let ghost was = crate::text::views(out@);
        proof {
            assert(t.children[i as int] == child.tree());
            lemma_children_us(t, i + 1);
            lemma_children_end(t, i as int, start as int);
            assert(decreases_to!(*n => n.children@[i as int]));
        }
        at = push_events(child, below, at, out);
        proof {
            assert(was + node_events(
                child.tree(),
                below as int,
                children_end(t, i as int, start as int),
            ) =~= head + child_events(t, i + 1, below as int, start as int));
        }
        i = i + 1;
    }
    proof {
        assert(crate::text::views(out@) =~= before + node_events(t, depth as int, start as int));
    }
    if is_root {
        at
    } else {
        start + slice_of(n.gpu_ns_subtree)
    }
}

/// Renders the tree as trace events, one slice after the other, in
/// microseconds. The depth in the tree is the `tid`.
pub fn render_chrome_trace(root: &ModuleBreakdown) -> (out: String)
    requires
        trace_fits(root.tree()),
    ensures
        out@ == trace_text(root.tree()),
{
    let mut events: Vec<String> = Vec::new();
    let _ = push_events(root, 0, 0, &mut events);
    assert(crate::text::views(events@) =~= node_events(root.tree(), 0, 0));
    let mut out = "{\"displayTimeUnit\":\"us\",\"traceEvents\":[".to_owned();
    out.append(crate::text::join(&events, ",").as_str());
    out.append("]}");
    out
}

/// Adds up the lengths of all slices, or gives `None` where that does not fit.
fn sum_slices(n: &ModuleBreakdown) -> (r: Option<u64>)
    ensures
        match r {
            Some(us) => us == trace_us(n.tree()),
            None => trace_us(n.tree()) > u64::MAX,
        },
    decreases n,
{
    let ghost t = n.tree();
    let mut us: u64 = slice_of(n.gpu_ns_subtree);
    let mut j: usize = 0;
    while j < n.ops.len()
        invariant
            j <= n.ops@.len(),
            t == n.tree(),
            us == slice_us(t.gpu_ns_subtree) + ops_us(t.ops, j as int),
        decreases n.ops@.len() - j,
    {
        proof {
            assert(t.ops[j as int] == n.ops@[j as int]@);
            lemma_ops_us(t.ops, j + 1);
        }
        us = match us.checked_add(slice_of(n.ops[j].gpu_ns)) {
            Some(v) => v,
            None => {
                return None;
            },
        };
        j = j + 1;
    }
    let mut i: usize = 0;
    while i < n.children.len()
        invariant
            i <= n.children@.len(),
            t == n.tree(),
            us == slice_us(t.gpu_ns_subtree) + ops_us(t.ops, t.ops.len() as int) + children_us(
                t,
                i as int,
            ),
        decreases n.children@.len() - i,
    {
        proof {
            assert(t.children[i as int] == n.children@[i as int].tree());
            lemma_children_us(t, i + 1);
            assert(decreases_to!(*n => n.children@[i as int]));
        }
        let below: u64 = match sum_slices(&n.children[i]) {
            Some(v) => v,
            None => {
                return None;
            },
        };
        us = match us.checked_add(below) {
            Some(v) => v,
            None => {
                return None;
            },
        };
        i = i + 1;
    }
    Some(us)
}

/// Does every timestamp of the trace fit 64 bits?
pub fn trace_time_fits(root: &ModuleBreakdown) -> (r: bool)
    ensures
        r == trace_fits(root.tree()),
{
    sum_slices(root).is_some()
}

} // verus!
