//! What the tables, stacks and slices of a breakdown show.

use crate::attribution::FieldView;
use crate::breakdown::Node;
use crate::breakdown_text::{
    child_events, children_end, node_end, node_event, node_events, op_event, op_events, ops_us,
    rows_below, rows_by_subtree, rows_of, slice_us, table_rows,
};
use crate::commands::breakdown::{
    field_from, folded_children, folded_node, holds_all, pruned, stack_of, survives, survivors,
};
use crate::finding::{Category, FindingView};
use crate::op_tables::{
    by_ns_then_name, children_entries, flat_entries, flat_rows, kind_rows, regrouped_all,
    summary_order_is_strict_weak, OpGroupBy,
};
use crate::ownership::{lemma_keyed_ordered, tally_keeps_every_name};
use crate::regrouping::{keyed_count, keyed_ns};
use crate::report::{first_of, of_category};
use crate::sort::{lemma_ordered_contains, ordered, ordered_is_in_order};
use crate::tally::{tallied, tally_names_are_distinct, Entry};
use crate::text::{dec, text_before};
use crate::tree::{children_sum, tree_sum};
use vstd::prelude::*;

verus! {

/// The name that a kernel goes under in a table.
pub open spec fn table_name(e: Entry, by_kind: bool) -> Seq<char> {
    if by_kind && e.kind is Some {
        e.kind->0
    } else {
        e.key
    }
}

/// The GPU time of the kernels that go under a name.
pub open spec fn under_name_ns(ops: Seq<Entry>, name: Seq<char>, by_kind: bool) -> nat
    decreases ops.len(),
{
    if ops.len() == 0 {
        0
    } else {
        under_name_ns(ops.drop_last(), name, by_kind) + if table_name(ops.last(), by_kind) == name {
            ops.last().gpu_ns
        } else {
            0
        }
    }
}

/// The dispatches of the kernels that go under a name.
pub open spec fn under_name_count(ops: Seq<Entry>, name: Seq<char>, by_kind: bool) -> nat
    decreases ops.len(),
{
    if ops.len() == 0 {
        0
    } else {
        under_name_count(ops.drop_last(), name, by_kind) + if table_name(ops.last(), by_kind)
            == name {
            ops.last().count
        } else {
            0
        }
    }
}

/// Whether a grouping is by kind.
pub open spec fn is_by_kind(group_by: OpGroupBy) -> bool {
    group_by == OpGroupBy::Kind
}

proof fn lemma_regrouped_keyed(ops: Seq<Entry>, group_by: OpGroupBy, name: Seq<char>)
    ensures
        keyed_ns(regrouped_all(ops, group_by), name) == under_name_ns(
            ops,
            name,
            is_by_kind(group_by),
        ),
        keyed_count(regrouped_all(ops, group_by), name) == under_name_count(
            ops,
            name,
            is_by_kind(group_by),
        ),
    decreases ops.len(),
{
    if ops.len() > 0 {
        lemma_regrouped_keyed(ops.drop_last(), group_by, name);
        assert(regrouped_all(ops, group_by).drop_last() =~= regrouped_all(
            ops.drop_last(),
            group_by,
        ));
    }
}

proof fn lemma_keyed_join(a: Seq<Entry>, b: Seq<Entry>, name: Seq<char>)
    ensures
        keyed_ns(a + b, name) == keyed_ns(a, name) + keyed_ns(b, name),
        keyed_count(a + b, name) == keyed_count(a, name) + keyed_count(b, name),
    decreases b.len(),
{
    if b.len() == 0 {
        assert(a + b =~= a);
    } else {
        lemma_keyed_join(a, b.drop_last(), name);
        assert((a + b).drop_last() =~= a + b.drop_last());
    }
}

/// The time of a node's own kernels under a name.
pub open spec fn own_named_ns(name: Seq<char>, by_kind: bool) -> spec_fn(Node) -> nat {
    |n: Node| under_name_ns(n.ops, name, by_kind)
}

/// The dispatches of a node's own kernels under a name.
pub open spec fn own_named_count(name: Seq<char>, by_kind: bool) -> spec_fn(Node) -> nat {
    |n: Node| under_name_count(n.ops, name, by_kind)
}

proof fn lemma_flat_entries(n: Node, group_by: OpGroupBy, name: Seq<char>)
    ensures
        keyed_ns(flat_entries(n, group_by), name) == tree_sum(
            n,
            own_named_ns(name, is_by_kind(group_by)),
        ),
        keyed_count(flat_entries(n, group_by), name) == tree_sum(
            n,
            own_named_count(name, is_by_kind(group_by)),
        ),
    decreases n, n.children.len() + 1,
{
    let k = n.children.len() as int;
    lemma_children_entries(n, k, group_by, name);
    lemma_regrouped_keyed(n.ops, group_by, name);
    lemma_keyed_join(regrouped_all(n.ops, group_by), children_entries(n, k, group_by), name);
}

proof fn lemma_children_entries(n: Node, k: int, group_by: OpGroupBy, name: Seq<char>)
    ensures
        keyed_ns(children_entries(n, k, group_by), name) == children_sum(
            n,
            k,
            own_named_ns(name, is_by_kind(group_by)),
        ),
        keyed_count(children_entries(n, k, group_by), name) == children_sum(
            n,
            k,
            own_named_count(name, is_by_kind(group_by)),
        ),
    decreases n, k,
{
    if 0 < k <= n.children.len() {
        lemma_children_entries(n, k - 1, group_by, name);
        lemma_flat_entries(n.children[k - 1], group_by, name);
        lemma_keyed_join(
            children_entries(n, k - 1, group_by),
            flat_entries(n.children[k - 1], group_by),
            name,
        );
    }
}

/// A row is not behind another: it took longer, or as long and its name does not come
/// later.
pub open spec fn not_behind(a: Entry, b: Entry) -> bool {
    a.gpu_ns > b.gpu_ns || (a.gpu_ns == b.gpu_ns && !text_before(b.key, a.key))
}

/// A flat table holds under each name the time and the dispatches of all kernels of the
/// tree that go under it, in one row each, the longest first and equals by name.
pub proof fn flat_rows_hold_the_whole_tree(n: Node, group_by: OpGroupBy, name: Seq<char>)
    ensures
        keyed_ns(flat_rows(n, group_by), name) == tree_sum(
            n,
            own_named_ns(name, is_by_kind(group_by)),
        ),
        keyed_count(flat_rows(n, group_by), name) == tree_sum(
            n,
            own_named_count(name, is_by_kind(group_by)),
        ),
        forall|i: int, j: int|
            0 <= i < j < flat_rows(n, group_by).len() ==> not_behind(
                #[trigger] flat_rows(n, group_by)[i],
                #[trigger] flat_rows(n, group_by)[j],
            ),
        forall|i: int, j: int|
            0 <= i < j < flat_rows(n, group_by).len() ==> (#[trigger] flat_rows(
                n,
                group_by,
            )[i]).key != (#[trigger] flat_rows(n, group_by)[j]).key,
{
    let s = flat_entries(n, group_by);
    lemma_flat_entries(n, group_by, name);
    tally_keeps_every_name(s, name);
    lemma_keyed_ordered(tallied(s), by_ns_then_name(), name);
    lemma_rows_sorted(s);
}

proof fn lemma_rows_sorted(s: Seq<Entry>)
    ensures
        ({
            let rows = ordered(tallied(s), by_ns_then_name());
            &&& forall|i: int, j: int|
                0 <= i < j < rows.len() ==> not_behind(#[trigger] rows[i], #[trigger] rows[j])
            &&& forall|i: int, j: int|
                0 <= i < j < rows.len() ==> (#[trigger] rows[i]).key != (#[trigger] rows[j]).key
        }),
{
    let lt = by_ns_then_name();
    let t = tallied(s);
    let rows = ordered(t, lt);
    summary_order_is_strict_weak();
    ordered_is_in_order(t, lt);
    tally_names_are_distinct(s);
    assert forall|i: int, j: int| 0 <= i < j < rows.len() implies not_behind(
        #[trigger] rows[i],
        #[trigger] rows[j],
    ) by {
        assert(!lt(rows[j], rows[i]));
    }
    assert(t.no_duplicates()) by {
        assert forall|i: int, j: int| 0 <= i < t.len() && 0 <= j < t.len() && i != j implies t[i]
            != t[j] by {
            if i < j {
                assert(t[i].key != t[j].key);
            } else {
                assert(t[j].key != t[i].key);
            }
        }
    }
    crate::sort::lemma_ordered_no_duplicates(t, lt);
    assert forall|i: int, j: int| 0 <= i < j < rows.len() implies (#[trigger] rows[i]).key != (
    #[trigger] rows[j]).key by {
        assert(rows.contains(rows[i]) && rows.contains(rows[j]));
        lemma_ordered_contains(t, lt, rows[i]);
        lemma_ordered_contains(t, lt, rows[j]);
        let a = choose|a: int| 0 <= a < t.len() && t[a] == rows[i];
        let b = choose|b: int| 0 <= b < t.len() && t[b] == rows[j];
        assert(rows[i] != rows[j]);
        if a < b {
            assert(t[a].key != t[b].key);
        } else {
            assert(t[b].key != t[a].key);
        }
    }
}

/// Regrouped by kind, a list of kernels has under each kind, or name where it has none, the
/// time and dispatches of its kernels, in one row each, the longest first and equals by
/// name.
pub proof fn kind_rows_hold_their_kernels(ops: Seq<Entry>, name: Seq<char>)
    ensures
        keyed_ns(kind_rows(ops), name) == under_name_ns(ops, name, true),
        keyed_count(kind_rows(ops), name) == under_name_count(ops, name, true),
        forall|i: int, j: int|
            0 <= i < j < kind_rows(ops).len() ==> not_behind(
                #[trigger] kind_rows(ops)[i],
                #[trigger] kind_rows(ops)[j],
            ),
        forall|i: int, j: int|
            0 <= i < j < kind_rows(ops).len() ==> (#[trigger] kind_rows(ops)[i]).key != (
            #[trigger] kind_rows(ops)[j]).key,
{
    let s = regrouped_all(ops, OpGroupBy::Kind);
    lemma_regrouped_keyed(ops, OpGroupBy::Kind, name);
    tally_keeps_every_name(s, name);
    lemma_keyed_ordered(tallied(s), by_ns_then_name(), name);
    lemma_rows_sorted(s);
}

/// The table of a tree shows the larger subtree first. It shows every child of the root,
/// and below every row that is not too deep the children of its node, one level deeper.
pub proof fn table_rows_are_the_tree(root: Node, max: int)
    requires
        max >= 0,
    ensures
        ({
            let rows = table_rows(root, max);
            &&& forall|i: int, j: int|
                0 <= i < j < rows.len() ==> (#[trigger] rows[i]).1.gpu_ns_subtree >= (
                #[trigger] rows[j]).1.gpu_ns_subtree
            &&& forall|c: int|
                0 <= c < root.children.len() ==> rows.contains((0int, #[trigger] root.children[c]))
            &&& forall|i: int, c: int|
                0 <= i < rows.len() && rows[i].0 < max && 0 <= c < rows[i].1.children.len()
                    ==> rows.contains((rows[i].0 + 1, #[trigger] rows[i].1.children[c]))
            &&& forall|i: int| 0 <= i < rows.len() ==> 0 <= (#[trigger] rows[i]).0 <= max
        }),
{
    let all = rows_below(root, root.children.len() as int, 0, max);
    let rows = table_rows(root, max);
    let lt = rows_by_subtree();
    assert(crate::sort::strict_weak(lt));
    ordered_is_in_order(all, lt);
    assert forall|i: int, j: int| 0 <= i < j < rows.len() implies (
    #[trigger] rows[i]).1.gpu_ns_subtree >= (#[trigger] rows[j]).1.gpu_ns_subtree by {
        assert(!lt(rows[j], rows[i]));
    }
    lemma_rows_below(root, root.children.len() as int, 0, max);
    assert forall|c: int| 0 <= c < root.children.len() implies rows.contains(
        (0int, #[trigger] root.children[c]),
    ) by {
        lemma_ordered_contains(all, lt, (0int, root.children[c]));
    }
    assert forall|i: int, c: int|
        0 <= i < rows.len() && rows[i].0 < max && 0 <= c < rows[i].1.children.len() implies
        rows.contains((rows[i].0 + 1, #[trigger] rows[i].1.children[c])) by {
        assert(rows.contains(rows[i]));
        lemma_ordered_contains(all, lt, rows[i]);
        let k = choose|k: int| 0 <= k < all.len() && all[k] == rows[i];
        assert(shows_children(all, all[k], max));
        let x = all[k].1.children[c];
        lemma_ordered_contains(all, lt, (rows[i].0 + 1, rows[i].1.children[c]));
    }
    assert forall|i: int| 0 <= i < rows.len() implies 0 <= (#[trigger] rows[i]).0 <= max by {
        assert(rows.contains(rows[i]));
        lemma_ordered_contains(all, lt, rows[i]);
        let k = choose|k: int| 0 <= k < all.len() && all[k] == rows[i];
        assert(0 <= all[k].0 <= max);
    }
}

/// The rows hold the children of a row that is not too deep.
spec fn shows_children(rows: Seq<(int, Node)>, row: (int, Node), max: int) -> bool {
    row.0 < max ==> forall|c: int|
        0 <= c < row.1.children.len() ==> rows.contains((row.0 + 1, #[trigger] row.1.children[c]))
}

proof fn lemma_rows_of(n: Node, depth: int, max: int)
    requires
        depth >= 0,
    ensures
        ({
            let rows = rows_of(n, depth, max);
            &&& depth <= max ==> rows.contains((depth, n))
            &&& forall|i: int|
                0 <= i < rows.len() ==> depth <= (#[trigger] rows[i]).0 <= max && shows_children(
                    rows,
                    rows[i],
                    max,
                )
        }),
    decreases n, n.children.len() + 1,
{
    if depth <= max {
        let k = n.children.len() as int;
        let below = rows_below(n, k, depth + 1, max);
        let rows = rows_of(n, depth, max);
        lemma_rows_below(n, k, depth + 1, max);
        assert(rows[0] == (depth, n));
        assert forall|x: (int, Node)| below.contains(x) implies rows.contains(x) by {
            let i = choose|i: int| 0 <= i < below.len() && below[i] == x;
            assert(rows[i + 1] == x);
        }
        assert forall|i: int| 0 <= i < rows.len() implies depth <= (#[trigger] rows[i]).0 <= max
            && shows_children(rows, rows[i], max) by {
            if i > 0 {
                assert(rows[i] == below[i - 1]);
                assert(shows_children(below, below[i - 1], max));
            }
        }
    }
}

proof fn lemma_rows_below(n: Node, k: int, depth: int, max: int)
    requires
        0 <= k <= n.children.len(),
        depth >= 0,
    ensures
        ({
            let rows = rows_below(n, k, depth, max);
            &&& depth <= max ==> forall|c: int|
                0 <= c < k ==> rows.contains((depth, #[trigger] n.children[c]))
            &&& forall|i: int|
                0 <= i < rows.len() ==> depth <= (#[trigger] rows[i]).0 <= max && shows_children(
                    rows,
                    rows[i],
                    max,
                )
        }),
    decreases n, k,
{
    if k > 0 {
        let a = rows_below(n, k - 1, depth, max);
        let b = rows_of(n.children[k - 1], depth, max);
        let rows = rows_below(n, k, depth, max);
        lemma_rows_below(n, k - 1, depth, max);
        lemma_rows_of(n.children[k - 1], depth, max);
        assert forall|x: (int, Node)| a.contains(x) implies rows.contains(x) by {
            let i = choose|i: int| 0 <= i < a.len() && a[i] == x;
            assert(rows[i] == x);
        }
        assert forall|x: (int, Node)| b.contains(x) implies rows.contains(x) by {
            let i = choose|i: int| 0 <= i < b.len() && b[i] == x;
            assert(rows[a.len() + i] == x);
        }
        assert forall|i: int| 0 <= i < rows.len() implies depth <= (#[trigger] rows[i]).0 <= max
            && shows_children(rows, rows[i], max) by {
            if i < a.len() {
                assert(rows[i] == a[i]);
                assert(shows_children(a, a[i], max));
            } else {
                assert(rows[i] == b[i - a.len()]);
                assert(shows_children(b, b[i - a.len()], max));
            }
        }
    }
}

/// One for a node that takes time itself.
pub open spec fn one_busy() -> spec_fn(Node) -> nat {
    |n: Node|
        if n.gpu_ns_self > 0 {
            1
        } else {
            0
        }
}

/// The folded stacks have a line for each node that takes time itself, in front of those of
/// its children: its path, which is its parent's and its own name, and that time.
pub proof fn stacks_are_paths_with_own_times(n: Node, prefix: Seq<char>, c: int)
    requires
        0 <= c < n.children.len(),
    ensures
        ({
            let lines = folded_node(n, prefix);
            let here = if prefix.len() == 0 {
                n.qualname
            } else {
                prefix + seq![';'] + n.qualname
            };
            &&& lines.len() == tree_sum(n, one_busy())
            &&& n.gpu_ns_self > 0 ==> lines[0] == here + seq![' '] + dec(n.gpu_ns_self as int)
            &&& forall|i: int|
                0 <= i < folded_node(n.children[c], here).len() ==> lines.contains(
                    #[trigger] folded_node(n.children[c], here)[i],
                )
        }),
{
    reveal_strlit(";");
    reveal_strlit(" ");
    assert(";"@ =~= seq![';']);
    assert(" "@ =~= seq![' ']);
    let here = stack_of(n, prefix);
    let k = n.children.len() as int;
    lemma_folded_len(n, prefix);
    let lines = folded_node(n, prefix);
    let below = folded_children(n, k, here);
    assert forall|i: int| 0 <= i < folded_node(n.children[c], here).len() implies lines.contains(
        #[trigger] folded_node(n.children[c], here)[i],
    ) by {
        lemma_folded_children(n, k, here, c, i);
        let x = folded_node(n.children[c], here)[i];
        let j = choose|j: int| 0 <= j < below.len() && below[j] == x;
        assert(lines[lines.len() - below.len() + j] == x);
    }
}

proof fn lemma_folded_len(n: Node, prefix: Seq<char>)
    ensures
        folded_node(n, prefix).len() == tree_sum(n, one_busy()),
    decreases n, n.children.len() + 1,
{
    lemma_folded_children_len(n, n.children.len() as int, stack_of(n, prefix));
}

proof fn lemma_folded_children_len(n: Node, k: int, here: Seq<char>)
    ensures
        folded_children(n, k, here).len() == children_sum(n, k, one_busy()),
    decreases n, k,
{
    if 0 < k <= n.children.len() {
        lemma_folded_children_len(n, k - 1, here);
        lemma_folded_len(n.children[k - 1], here);
    }
}

proof fn lemma_folded_children(n: Node, k: int, here: Seq<char>, c: int, i: int)
    requires
        0 <= c < k <= n.children.len(),
        0 <= i < folded_node(n.children[c], here).len(),
    ensures
        folded_children(n, k, here).contains(folded_node(n.children[c], here)[i]),
    decreases k,
{
    let x = folded_node(n.children[c], here)[i];
    let all = folded_children(n, k, here);
    let rest = folded_children(n, k - 1, here);
    if c == k - 1 {
        assert(all[rest.len() + i] == x);
    } else {
        lemma_folded_children(n, k - 1, here, c, i);
        let j = choose|j: int| 0 <= j < rest.len() && rest[j] == x;
        assert(all[j] == x);
    }
}

/// What the subtrees of a list of nodes take in a trace, in microseconds, each at least
/// one.
pub open spec fn slices(s: Seq<Node>) -> nat
    decreases s.len(),
{
    if s.len() == 0 {
        0
    } else {
        slices(s.drop_last()) + if s.last().gpu_ns_subtree < 1000 {
            1
        } else {
            s.last().gpu_ns_subtree / 1000
        }
    }
}

/// What a list of kernels takes in a trace, in microseconds, each at least one.
pub open spec fn kernel_slices(s: Seq<Entry>) -> nat
    decreases s.len(),
{
    if s.len() == 0 {
        0
    } else {
        kernel_slices(s.drop_last()) + if s.last().gpu_ns < 1000 {
            1
        } else {
            s.last().gpu_ns / 1000
        }
    }
}

proof fn lemma_children_end(n: Node, k: int, start: int)
    requires
        0 <= k <= n.children.len(),
        forall|c: int| 0 <= c < n.children.len() ==> (#[trigger] n.children[c]).qualname != "<root>"@,
    ensures
        children_end(n, k, start) == start + slices(n.children.take(k)),
    decreases k,
{
    if k > 0 {
        lemma_children_end(n, k - 1, start);
        assert(n.children.take(k).drop_last() =~= n.children.take(k - 1));
        let c = n.children[k - 1];
        let e = children_end(n, k - 1, start);
        assert(c.qualname != "<root>"@);
        assert(node_end(c, e) == e + slice_us(c.gpu_ns_subtree));
        assert(children_end(n, k, start) == node_end(c, e));
    }
}

proof fn lemma_ops_us(ops: Seq<Entry>, k: int)
    requires
        0 <= k <= ops.len(),
    ensures
        ops_us(ops, k) == kernel_slices(ops.take(k)),
    decreases k,
{
    if k > 0 {
        lemma_ops_us(ops, k - 1);
        assert(ops.take(k).drop_last() =~= ops.take(k - 1));
    }
}

proof fn lemma_op_events(ops: Seq<Entry>, k: int, depth: int, start: int)
    requires
        0 <= k <= ops.len(),
    ensures
        op_events(ops, k, depth, start).len() == k,
        forall|j: int|
            0 <= j < k ==> #[trigger] op_events(ops, k, depth, start)[j] == op_event(
                ops[j],
                depth,
                start + kernel_slices(ops.take(j)),
            ),
    decreases k,
{
    if k > 0 {
        lemma_op_events(ops, k - 1, depth, start);
        lemma_ops_us(ops, k - 1);
    }
}

/// In the trace of a breakdown a module stands at its start, its kernels one after the
/// other from there on, one level deeper, and so do its children.
pub proof fn slices_stand_one_after_the_other(n: Node, depth: int, start: int, c: int)
    requires
        n.qualname != "<root>"@,
        0 <= c < n.children.len(),
        forall|m: int| 0 <= m < n.children.len() ==> (#[trigger] n.children[m]).qualname != "<root>"@,
    ensures
        ({
            let all = node_events(n, depth, start);
            let at = start + slices(n.children.take(c));
            &&& all.len() > n.ops.len()
            &&& all[0] == node_event(n, depth, start)
            &&& forall|j: int|
                0 <= j < n.ops.len() ==> #[trigger] all[j + 1] == op_event(
                    n.ops[j],
                    depth + 1,
                    start + kernel_slices(n.ops.take(j)),
                )
            &&& forall|i: int|
                0 <= i < node_events(n.children[c], depth + 1, at).len() ==> all.contains(
                    #[trigger] node_events(n.children[c], depth + 1, at)[i],
                )
        }),
{
    let all = node_events(n, depth, start);
    let k = n.children.len() as int;
    let ops = op_events(n.ops, n.ops.len() as int, depth + 1, start);
    let below = child_events(n, k, depth + 1, start);
    lemma_op_events(n.ops, n.ops.len() as int, depth + 1, start);
    assert forall|j: int| 0 <= j < n.ops.len() implies #[trigger] all[j + 1] == op_event(
        n.ops[j],
        depth + 1,
        start + kernel_slices(n.ops.take(j)),
    ) by {
        assert(all[j + 1] == ops[j]);
    }
    lemma_children_end(n, c, start);
    let at = start + slices(n.children.take(c));
    assert forall|i: int| 0 <= i < node_events(n.children[c], depth + 1, at).len() implies
        all.contains(#[trigger] node_events(n.children[c], depth + 1, at)[i]) by {
        lemma_child_events(n, k, depth + 1, start, c, i);
        let x = node_events(n.children[c], depth + 1, at)[i];
        let j = choose|j: int| 0 <= j < below.len() && below[j] == x;
        assert(all[1 + ops.len() + j] == x);
    }
}

proof fn lemma_child_events(n: Node, k: int, depth: int, start: int, c: int, i: int)
    requires
        0 <= c < k <= n.children.len(),
        0 <= i < node_events(n.children[c], depth, children_end(n, c, start)).len(),
    ensures
        child_events(n, k, depth, start).contains(
            node_events(n.children[c], depth, children_end(n, c, start))[i],
        ),
    decreases k,
{
    let x = node_events(n.children[c], depth, children_end(n, c, start))[i];
    let all = child_events(n, k, depth, start);
    let rest = child_events(n, k - 1, depth, start);
    if c == k - 1 {
        assert(all[rest.len() + i] == x);
    } else {
        lemma_child_events(n, k - 1, depth, start, c, i);
        let j = choose|j: int| 0 <= j < rest.len() && rest[j] == x;
        assert(all[j] == x);
    }
}

/// A filter on fields keeps a child exactly where the child or anything below it holds
/// every value, and changes nothing of a node but its children.
pub proof fn filters_keep_what_holds(n: Node, filter: Seq<(Seq<char>, FieldView)>, c: int)
    requires
        0 <= c < n.children.len(),
    ensures
        ({
            let p = pruned(n, filter);
            &&& p == (Node { children: p.children, ..n })
            &&& p.children.len() <= n.children.len()
            &&& survives(n.children[c], filter) ==> p.children.contains(
                pruned(n.children[c], filter),
            )
            &&& forall|i: int|
                0 <= i < p.children.len() ==> exists|k: int|
                    0 <= k < n.children.len() && survives(n.children[k], filter)
                        && #[trigger] p.children[i] == pruned(#[trigger] n.children[k], filter)
        }),
        survives(n, filter) <==> holds_all(n.fields, filter) || exists|i: int|
            0 <= i < n.children.len() && survives(#[trigger] n.children[i], filter),
{
    lemma_survivors(n, n.children.len() as int, filter, c);
}

proof fn lemma_survivors(n: Node, k: int, filter: Seq<(Seq<char>, FieldView)>, c: int)
    requires
        0 <= k <= n.children.len(),
    ensures
        ({
            let s = survivors(n, k, filter);
            &&& s.len() <= k
            &&& 0 <= c < k && survives(n.children[c], filter) ==> s.contains(
                pruned(n.children[c], filter),
            )
            &&& forall|i: int|
                0 <= i < s.len() ==> exists|m: int|
                    0 <= m < n.children.len() && survives(n.children[m], filter)
                        && #[trigger] s[i] == pruned(#[trigger] n.children[m], filter)
        }),
    decreases k,
{
    if k > 0 {
        lemma_survivors(n, k - 1, filter, c);
        let r = survivors(n, k - 1, filter);
        let s = survivors(n, k, filter);
        if 0 <= c < k - 1 && survives(n.children[c], filter) {
            let i = choose|i: int| 0 <= i < r.len() && r[i] == pruned(n.children[c], filter);
            assert(s[i] == r[i]);
        }
        if c == k - 1 && survives(n.children[c], filter) {
            assert(s[s.len() - 1] == pruned(n.children[c], filter));
        }
        assert forall|i: int| 0 <= i < s.len() implies exists|m: int|
            0 <= m < n.children.len() && survives(n.children[m], filter) && #[trigger] s[i]
                == pruned(#[trigger] n.children[m], filter) by {
            if i < r.len() {
                assert(s[i] == r[i]);
                let m = choose|m: int|
                    0 <= m < n.children.len() && survives(n.children[m], filter) && r[i] == pruned(
                        #[trigger] n.children[m],
                        filter,
                    );
                assert(s[i] == pruned(n.children[m], filter));
            } else {
                assert(s[i] == pruned(n.children[k - 1], filter));
            }
        }
    }
}

/// A node holds a value where the first field of that name has it.
pub proof fn first_field_counts(fields: Seq<(Seq<char>, FieldView)>, key: Seq<char>, i: int)
    requires
        0 <= i < fields.len(),
        fields[i].0 == key,
        forall|j: int| 0 <= j < i ==> (#[trigger] fields[j]).0 != key,
    ensures
        field_from(fields, key, 0) == Some(fields[i].1),
{
    lemma_field_from(fields, key, 0, i);
}

proof fn lemma_field_from(fields: Seq<(Seq<char>, FieldView)>, key: Seq<char>, k: int, i: int)
    requires
        0 <= k <= i < fields.len(),
        fields[i].0 == key,
        forall|j: int| k <= j < i ==> (#[trigger] fields[j]).0 != key,
    ensures
        field_from(fields, key, k) == Some(fields[i].1),
    decreases i - k,
{
    if k < i {
        assert(fields[k].0 != key);
        lemma_field_from(fields, key, k + 1, i);
    }
}

/// A section of a report holds exactly the findings of its category, as often and in the
/// order in which they were found.
pub proof fn sections_hold_their_category(s: Seq<FindingView>, c: Category, f: FindingView)
    ensures
        of_category(s, c).contains(f) <==> s.contains(f) && f.category == c,
        of_category(s, c) == s.filter(|x: FindingView| x.category == c),
    decreases s.len(),
{
    let p = |x: FindingView| x.category == c;
    reveal(Seq::filter);
    if s.len() > 0 {
        let rest = s.drop_last();
        sections_hold_their_category(rest, c, f);
        let (a, b) = (of_category(rest, c), of_category(s, c));
        if a.contains(f) {
            let k = choose|k: int| 0 <= k < a.len() && a[k] == f;
            assert(b[k] == f);
        }
        if rest.contains(f) {
            let k = choose|k: int| 0 <= k < rest.len() && rest[k] == f;
            assert(s[k] == f);
        }
        if s.contains(f) && f.category == c {
            let k = choose|k: int| 0 <= k < s.len() && s[k] == f;
            if k < rest.len() {
                assert(rest[k] == f);
            } else {
                assert(b[b.len() - 1] == f);
            }
        }
        if b.contains(f) {
            let k = choose|k: int| 0 <= k < b.len() && b[k] == f;
            if k < a.len() {
                assert(a[k] == f);
            } else {
                assert(s[s.len() - 1] == f);
            }
        }
    }
}

/// The root cause of a report is its first finding of that category.
pub proof fn root_cause_is_the_first(s: Seq<FindingView>, c: Category, i: int)
    requires
        0 <= i < s.len(),
        s[i].category == c,
        forall|j: int| 0 <= j < i ==> (#[trigger] s[j]).category != c,
    ensures
        first_of(s, c, 0) == Some(i),
{
    lemma_first_of(s, c, 0, i);
}

proof fn lemma_first_of(s: Seq<FindingView>, c: Category, k: int, i: int)
    requires
        0 <= k <= i < s.len(),
        s[i].category == c,
        forall|j: int| k <= j < i ==> (#[trigger] s[j]).category != c,
    ensures
        first_of(s, c, k) == Some(i),
    decreases i - k,
{
    if k < i {
        assert(s[k].category != c);
        lemma_first_of(s, c, k + 1, i);
    }
}

} // verus!
