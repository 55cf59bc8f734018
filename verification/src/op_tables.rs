//! Kernels regrouped by kind, and added up over a whole tree.

use crate::breakdown::{op_rows, ModuleBreakdown, Node, OpAttribution};
use crate::sort::{in_order, ordered, rank, sort, strict_weak, Ranked};
use crate::tally::{
    copy_of, lemma_tally_grows, row_views, rows_fit, tallied, total_count, total_ns, Entry, Row,
    Tally,
};
use crate::text::{opt_view, precedes, text_before, text_order_is_total};
use vstd::prelude::*;

verus! {

broadcast use vstd::string::group_string_axioms;

/// Controls how kernels are grouped.
#[derive(Debug, Clone, Copy, PartialEq, Eq, Structural)]
pub enum OpGroupBy {
    /// Group by kernel name.
    Name,
    /// Group by resolved kind, or by kernel name where there is none.
    Kind,
}

/// A single row of the flat kernel summary.
///
/// Grouped by kind, `symbol` is always `None`, because a kind spans many
/// kernels. A kernel without a kind goes under its own name.
#[derive(Debug, Clone)]
pub struct OpFlatRow {
    pub key: String,
    pub gpu_ns: u64,
    pub count: u64,
    /// Representative kernel symbol (grouped by name only).
    pub symbol: Option<String>,
    pub kind: Option<String>,
}

impl View for OpFlatRow {
    type V = Entry;

    open spec fn view(&self) -> Entry {
        Entry {
            key: self.key@,
            gpu_ns: self.gpu_ns as nat,
            count: self.count as nat,
            symbol: opt_view(self.symbol),
            kind: opt_view(self.kind),
        }
    }
}

/// The views of a list of rows.
pub open spec fn flat_views(s: Seq<OpFlatRow>) -> Seq<Entry> {
    s.map_values(|r: OpFlatRow| r@)
}

impl Ranked for OpFlatRow {
    open spec fn before(self, other: Self) -> bool {
        self.gpu_ns > other.gpu_ns || (self.gpu_ns == other.gpu_ns && text_before(
            self.key@,
            other.key@,
        ))
    }

    fn comes_before(&self, other: &Self) -> (b: bool) {
        self.gpu_ns > other.gpu_ns || (self.gpu_ns == other.gpu_ns && precedes(
            self.key.as_str(),
            other.key.as_str(),
        ))
    }
}

/// Rows by GPU time, largest first, then by name.
pub open spec fn by_ns_then_name() -> spec_fn(Entry, Entry) -> bool {
    |a: Entry, b: Entry|
        a.gpu_ns > b.gpu_ns || (a.gpu_ns == b.gpu_ns && text_before(a.key, b.key))
}

/// Rows in a kernel summary are in order: more GPU time first, names in
/// alphabetical order where it is equal.
pub proof fn summary_order_is_strict_weak()
    ensures
        strict_weak(by_ns_then_name()),
{
    let lt = by_ns_then_name();
    assert forall|a: Entry, b: Entry| #[trigger] lt(a, b) implies !lt(b, a) by {
        text_order_is_total(a.key, b.key, b.key);
    }
    assert forall|a: Entry, b: Entry, c: Entry|
        !(#[trigger] lt(a, b)) && !(#[trigger] lt(b, c)) implies !lt(a, c) by {
        text_order_is_total(a.key, b.key, c.key);
        text_order_is_total(c.key, b.key, a.key);
        text_order_is_total(a.key, c.key, b.key);
        text_order_is_total(b.key, c.key, a.key);
    }
}

/// The name that a kernel goes under.
pub open spec fn group_key(e: Entry, group_by: OpGroupBy) -> Seq<char> {
    match group_by {
        OpGroupBy::Name => e.key,
        OpGroupBy::Kind => match e.kind {
            Some(k) => k,
            None => e.key,
        },
    }
}

/// `e` under the name that it goes under.
pub open spec fn regrouped(e: Entry, group_by: OpGroupBy) -> Entry {
    Entry {
        key: group_key(e, group_by),
        gpu_ns: e.gpu_ns,
        count: e.count,
        symbol: match group_by {
            OpGroupBy::Name => e.symbol,
            OpGroupBy::Kind => None,
        },
        kind: e.kind,
    }
}

/// `ops` under the names that they go under.
pub open spec fn regrouped_all(ops: Seq<Entry>, group_by: OpGroupBy) -> Seq<Entry> {
    ops.map_values(|e: Entry| regrouped(e, group_by))
}

/// One row per kind, largest first, ties by name.
pub open spec fn kind_rows(ops: Seq<Entry>) -> Seq<Entry> {
    ordered(tallied(regrouped_all(ops, OpGroupBy::Kind)), by_ns_then_name())
}

/// Books kernels under the names that they go under, unless a row would not
/// fit 64 bits.
fn book_group(
    t: &mut Tally,
    ops: &Vec<OpAttribution>,
    group_by: OpGroupBy,
    Ghost(done): Ghost<Seq<Entry>>,
) -> (ok: bool)
    requires
        old(t).wf(),
        old(t)@ == tallied(done),
    ensures
        final(t).wf(),
        ok == rows_fit(tallied(done + regrouped_all(op_rows(ops@), group_by))),
        ok ==> final(t)@ == tallied(done + regrouped_all(op_rows(ops@), group_by)),
{
    let ghost views = op_rows(ops@);
    let ghost entries = regrouped_all(views, group_by);
    let mut i: usize = 0;
    assert(done + entries.take(0) =~= done);
    while i < ops.len()
        invariant
            i <= ops@.len(),
            views == op_rows(ops@),
            entries == regrouped_all(views, group_by),
            t.wf(),
            t@ == tallied(done + entries.take(i as int)),
        decreases ops@.len() - i,
    {
        let op = &ops[i];
        let ghost longer = done + entries.take(i + 1);
        proof {
            assert(views[i as int] == op@);
            assert(entries[i as int] == regrouped(op@, group_by));
            assert(longer.drop_last() =~= done + entries.take(i as int));
            assert(longer.last() == entries[i as int]);
        }
        let ok: bool = match group_by {
            OpGroupBy::Name => t.try_add(
                op.name.as_str(),
                op.gpu_ns,
                op.count,
                &op.symbol,
                &op.kind,
            ),
            OpGroupBy::Kind => match &op.kind {
                Some(k) => t.try_add(k.as_str(), op.gpu_ns, op.count, &None, &op.kind),
                None => t.try_add(op.name.as_str(), op.gpu_ns, op.count, &None, &op.kind),
            },
        };
        if !ok {
            proof {
                assert(longer + entries.skip(i + 1) =~= done + entries);
                if rows_fit(tallied(done + entries)) {
                    lemma_tally_grows(longer, entries.skip(i + 1));
                }
            }
            return false;
        }
        i = i + 1;
    }
    proof {
        assert(entries.take(entries.len() as int) =~= entries);
        t.lemma_fits();
    }
    true
}

/// Fewer entries add up to no more.
pub proof fn lemma_total_prefix(s: Seq<Entry>, i: int)
    requires
        0 <= i <= s.len(),
    ensures
        total_ns(s.take(i)) <= total_ns(s),
        total_count(s.take(i)) <= total_count(s),
    decreases s.len() - i,
{
    if i == s.len() {
        assert(s.take(i) =~= s);
    } else {
        lemma_total_prefix(s, i + 1);
        assert(s.take(i + 1).drop_last() =~= s.take(i));
    }
}

/// The rows of a tally as summary rows, sorted.
fn finish_rows(rows: Vec<Row>) -> (r: Vec<OpFlatRow>)
    ensures
        flat_views(r@) == ordered(row_views(rows@), by_ns_then_name()),
{
    let mut out: Vec<OpFlatRow> = Vec::new();
    let mut i: usize = 0;
    while i < rows.len()
        invariant
            i <= rows@.len(),
            out@.len() == i,
            forall|k: int| 0 <= k < i ==> (#[trigger] out@[k])@ == rows@[k]@,
        decreases rows@.len() - i,
    {
        let row = &rows[i];
        out.push(
            OpFlatRow {
                key: row.key.clone(),
                gpu_ns: row.gpu_ns,
                count: row.count,
                symbol: copy_of(&row.symbol),
                kind: copy_of(&row.kind),
            },
        );
        i = i + 1;
    }
    proof {
        assert(flat_views(out@) =~= row_views(rows@));
        crate::sort::lemma_ordered_map(
            out@,
            |o: OpFlatRow| o@,
            rank::<OpFlatRow>(),
            by_ns_then_name(),
        );
    }
    sort(&mut out);
    out
}

/// Re-aggregates one node's kernels by resolved kind, falling back to the
/// kernel name. `symbol` is dropped; `kind` is the first one in the group.
/// Sorted by GPU time, largest first, ties by name.
pub fn regroup_ops_by_kind(ops: &Vec<OpAttribution>) -> (r: Vec<OpAttribution>)
    requires
        kinds_fit(op_rows(ops@)),
    ensures
        op_rows(r@) == kind_rows(op_rows(ops@)),
{
    let mut t = Tally::new();
    proof {
        assert(tallied(Seq::<Entry>::empty()) =~= Seq::<Entry>::empty());
        assert(Seq::<Entry>::empty() + regrouped_all(op_rows(ops@), OpGroupBy::Kind)
            =~= regrouped_all(op_rows(ops@), OpGroupBy::Kind));
    }
    book_group(&mut t, ops, OpGroupBy::Kind, Ghost(Seq::empty()));
    let rows = finish_rows(t.into_rows());
    let mut out: Vec<OpAttribution> = Vec::new();
    let mut i: usize = 0;
    while i < rows.len()
        invariant
            i <= rows@.len(),
            out@.len() == i,
            forall|k: int| 0 <= k < i ==> (#[trigger] out@[k])@ == rows@[k]@,
        decreases rows@.len() - i,
    {
        let row = &rows[i];
        out.push(
            OpAttribution {
                name: row.key.clone(),
                gpu_ns: row.gpu_ns,
                count: row.count,
                symbol: copy_of(&row.symbol),
                kind: copy_of(&row.kind),
            },
        );
        i = i + 1;
    }
    assert(op_rows(out@) =~= flat_views(rows@));
    out
}

/// The row of each kind in `ops` fits 64 bits.
pub open spec fn kinds_fit(ops: Seq<Entry>) -> bool {
    rows_fit(tallied(regrouped_all(ops, OpGroupBy::Kind)))
}

/// The row of each kind of every node fits 64 bits.
pub open spec fn ops_fit(n: Node) -> bool
    decreases n,
{
    &&& kinds_fit(n.ops)
    &&& forall|i: int|
        #![trigger n.children[i]]
        0 <= i < n.children.len() ==> ops_fit(n.children[i])
}

/// `n` with the kernels of every node regrouped by kind.
pub open spec fn by_kind(n: Node) -> Node
    decreases n,
{
    Node {
        qualname: n.qualname,
        class_name: n.class_name,
        calls: n.calls,
        gpu_ns_self: n.gpu_ns_self,
        gpu_ns_subtree: n.gpu_ns_subtree,
        eval_count: n.eval_count,
        cb_count: n.cb_count,
        children: Seq::new(
            n.children.len(),
            |i: int|
                if 0 <= i < n.children.len() {
                    by_kind(n.children[i])
                } else {
                    arbitrary()
                },
        ),
        ops: kind_rows(n.ops),
        diagnostics: n.diagnostics,
        fields: n.fields,
    }
}

fn regroup_tree(node: &mut ModuleBreakdown)
    requires
        ops_fit(old(node).tree()),
    ensures
        final(node).tree() == by_kind(old(node).tree()),
    decreases *old(node),
{
    let ghost before = node.tree();
    let ghost was = *node;
    let ops = regroup_ops_by_kind(&node.ops);
    node.ops = ops;
    let mut i: usize = 0;
    let n: usize = node.children.len();
    while i < n
        invariant
            i <= n == was.children@.len() == node.children@.len(),
            before == was.tree(),
            was == *old(node),
            ops_fit(before),
            op_rows(node.ops@) == kind_rows(before.ops),
            node.qualname == was.qualname,
            node.class_name == was.class_name,
            node.calls == was.calls,
            node.gpu_ns_self == was.gpu_ns_self,
            node.gpu_ns_subtree == was.gpu_ns_subtree,
            node.eval_count == was.eval_count,
            node.cb_count == was.cb_count,
            node.diagnostics == was.diagnostics,
            node.fields == was.fields,
            forall|k: int|
                0 <= k < i ==> (#[trigger] node.children@[k]).tree() == by_kind(before.children[k]),
            forall|k: int| i <= k < n ==> node.children@[k] == was.children@[k],
        decreases n - i,
    {
        proof {
            assert(before.children[i as int] == was.children@[i as int].tree());
            assert(decreases_to!(was => was.children@[i as int]));
        }
        regroup_tree(&mut node.children[i]);
        i = i + 1;
    }
    proof {
        assert(node.tree().children =~= by_kind(before).children);
    }
}

/// Can the kernels of every node be grouped by kind?
pub fn can_group(node: &ModuleBreakdown) -> (b: bool)
    ensures
        b == ops_fit(node.tree()),
    decreases node,
{
    let ghost n = node.tree();
    let mut t = Tally::new();
    proof {
        assert(tallied(Seq::<Entry>::empty()) =~= Seq::<Entry>::empty());
        assert(Seq::<Entry>::empty() + regrouped_all(n.ops, OpGroupBy::Kind) =~= regrouped_all(
            n.ops,
            OpGroupBy::Kind,
        ));
    }
    if !book_group(&mut t, &node.ops, OpGroupBy::Kind, Ghost(Seq::empty())) {
        return false;
    }
    let mut i: usize = 0;
    while i < node.children.len()
        invariant
            i <= node.children@.len(),
            n == node.tree(),
            forall|k: int| 0 <= k < i ==> ops_fit(#[trigger] n.children[k]),
        decreases node.children@.len() - i,
    {
        proof {
            assert(n.children[i as int] == node.children@[i as int].tree());
            assert(decreases_to!(*node => node.children@[i as int]));
        }
        if !can_group(&node.children[i]) {
            return false;
        }
        i = i + 1;
    }
    true
}

/// Walks the tree; grouping by kind replaces every node's kernels with the
/// regrouped ones. Grouping by name changes nothing.
pub fn apply_op_group_by(node: &mut ModuleBreakdown, group_by: OpGroupBy)
    requires
        group_by == OpGroupBy::Kind ==> ops_fit(old(node).tree()),
    ensures
        group_by == OpGroupBy::Kind ==> final(node).tree() == by_kind(old(node).tree()),
        group_by == OpGroupBy::Name ==> *final(node) == *old(node),
{
    match group_by {
        OpGroupBy::Kind => regroup_tree(node),
        OpGroupBy::Name => {},
    }
}

/// All kernels of a tree, node by node from the top, under the names that they
/// go under.
pub open spec fn flat_entries(n: Node, group_by: OpGroupBy) -> Seq<Entry>
    decreases n, n.children.len() + 1,
{
    regrouped_all(n.ops, group_by) + children_entries(n, n.children.len() as int, group_by)
}

/// The kernels of the first `k` children of `n`.
pub open spec fn children_entries(n: Node, k: int, group_by: OpGroupBy) -> Seq<Entry>
    decreases n, k,
{
    if k <= 0 || k > n.children.len() {
        seq![]
    } else {
        children_entries(n, k - 1, group_by) + flat_entries(n.children[k - 1], group_by)
    }
}

/// One row per name over the whole tree, largest first, ties by name.
pub open spec fn flat_rows(n: Node, group_by: OpGroupBy) -> Seq<Entry> {
    ordered(tallied(flat_entries(n, group_by)), by_ns_then_name())
}

/// Each row of a flat summary fits 64 bits.
pub open spec fn flat_fits(n: Node, group_by: OpGroupBy) -> bool {
    rows_fit(tallied(flat_entries(n, group_by)))
}

/// Each row of a flat summary fits 64 bits, and so does their GPU time.
pub open spec fn flat_total_fits(n: Node, group_by: OpGroupBy) -> bool {
    flat_fits(n, group_by) && total_ns(flat_rows(n, group_by)) <= u64::MAX
}

/// Regrouping does not change totals.
pub proof fn lemma_regrouped_total(ops: Seq<Entry>, group_by: OpGroupBy)
    ensures
        total_ns(regrouped_all(ops, group_by)) == total_ns(ops),
        total_count(regrouped_all(ops, group_by)) == total_count(ops),
    decreases ops.len(),
{
    if ops.len() > 0 {
        lemma_regrouped_total(ops.drop_last(), group_by);
        assert(regrouped_all(ops, group_by).drop_last() =~= regrouped_all(
            ops.drop_last(),
            group_by,
        ));
    }
}

proof fn lemma_flat_total(n: Node, group_by: OpGroupBy)
    ensures
        total_ns(flat_entries(n, group_by)) == total_ns(flat_entries(n, OpGroupBy::Name)),
        total_count(flat_entries(n, group_by)) == total_count(flat_entries(n, OpGroupBy::Name)),
    decreases n, n.children.len() + 1,
{
    lemma_regrouped_total(n.ops, group_by);
    lemma_regrouped_total(n.ops, OpGroupBy::Name);
    lemma_children_total(n, n.children.len() as int, group_by);
    crate::attribution::lemma_total_add(
        regrouped_all(n.ops, group_by),
        children_entries(n, n.children.len() as int, group_by),
    );
    crate::attribution::lemma_total_add(
        regrouped_all(n.ops, OpGroupBy::Name),
        children_entries(n, n.children.len() as int, OpGroupBy::Name),
    );
}

proof fn lemma_children_total(n: Node, k: int, group_by: OpGroupBy)
    ensures
        total_ns(children_entries(n, k, group_by)) == total_ns(
            children_entries(n, k, OpGroupBy::Name),
        ),
        total_count(children_entries(n, k, group_by)) == total_count(
            children_entries(n, k, OpGroupBy::Name),
        ),
    decreases n, k,
{
    if 0 < k <= n.children.len() {
        lemma_children_total(n, k - 1, group_by);
        lemma_flat_total(n.children[k - 1], group_by);
        crate::attribution::lemma_total_add(
            children_entries(n, k - 1, group_by),
            flat_entries(n.children[k - 1], group_by),
        );
        crate::attribution::lemma_total_add(
            children_entries(n, k - 1, OpGroupBy::Name),
            flat_entries(n.children[k - 1], OpGroupBy::Name),
        );
    }
}

/// Grouping by kind moves GPU time between rows, but neither loses nor invents
/// any.
pub proof fn grouping_keeps_totals(n: Node, group_by: OpGroupBy)
    ensures
        total_ns(tallied(flat_entries(n, group_by))) == total_ns(
            tallied(flat_entries(n, OpGroupBy::Name)),
        ),
        total_count(tallied(flat_entries(n, group_by))) == total_count(
            tallied(flat_entries(n, OpGroupBy::Name)),
        ),
{
    crate::tally::tally_conserves(flat_entries(n, group_by));
    crate::tally::tally_conserves(flat_entries(n, OpGroupBy::Name));
    lemma_flat_total(n, group_by);
}

/// Books the kernels of a tree, unless a row would not fit 64 bits.
fn book_tree(
    t: &mut Tally,
    node: &ModuleBreakdown,
    group_by: OpGroupBy,
    Ghost(done): Ghost<Seq<Entry>>,
) -> (ok: bool)
    requires
        old(t).wf(),
        old(t)@ == tallied(done),
    ensures
        final(t).wf(),
        ok == rows_fit(tallied(done + flat_entries(node.tree(), group_by))),
        ok ==> final(t)@ == tallied(done + flat_entries(node.tree(), group_by)),
    decreases node,
{
    let ghost n = node.tree();
    let ghost own = regrouped_all(n.ops, group_by);
    let ghost count = n.children.len() as int;
    let ghost whole = done + flat_entries(n, group_by);
    proof {
        assert(done + own + children_entries(n, 0, group_by) =~= done + own);
        assert(done + own + children_entries(n, count, group_by) =~= whole);
    }
    if !book_group(t, &node.ops, group_by, Ghost(done)) {
        proof {
            if rows_fit(tallied(whole)) {
                lemma_tally_grows(done + own, children_entries(n, count, group_by));
            }
        }
        return false;
    }
    let mut i: usize = 0;
    while i < node.children.len()
        invariant
            i <= node.children@.len(),
            n == node.tree(),
            count == n.children.len(),
            own == regrouped_all(n.ops, group_by),
            whole == done + own + children_entries(n, count, group_by),
            whole == done + flat_entries(n, group_by),
            t.wf(),
            t@ == tallied(done + own + children_entries(n, i as int, group_by)),
        decreases node.children@.len() - i,
    {
        let child = &node.children[i];
        let ghost so_far = done + own + children_entries(n, i as int, group_by);
        let ghost longer = done + own + children_entries(n, i + 1, group_by);
        proof {
            assert(n.children[i as int] == child.tree());
            assert(decreases_to!(*node => node.children@[i as int]));
            assert(so_far + flat_entries(child.tree(), group_by) =~= longer);
        }
        if !book_tree(t, child, group_by, Ghost(so_far)) {
            proof {
                let rest = lemma_children_prefix(n, i + 1, group_by);
                assert(longer + rest =~= whole);
                if rows_fit(tallied(whole)) {
                    lemma_tally_grows(longer, rest);
                }
            }
            return false;
        }
        i = i + 1;
    }
    proof {
        t.lemma_fits();
    }
    true
}

/// The kernels of more children begin with those of fewer.
proof fn lemma_children_prefix(n: Node, k: int, group_by: OpGroupBy) -> (rest: Seq<Entry>)
    requires
        0 <= k <= n.children.len(),
    ensures
        children_entries(n, n.children.len() as int, group_by) == children_entries(n, k, group_by)
            + rest,
    decreases n.children.len() - k,
{
    let start = children_entries(n, k, group_by);
    if k < n.children.len() {
        let rest = lemma_children_prefix(n, k + 1, group_by);
        let next = flat_entries(n.children[k], group_by);
        assert(start + next + rest =~= start + (next + rest));
        next + rest
    } else {
        assert(start + Seq::<Entry>::empty() =~= start);
        Seq::empty()
    }
}

/// [`aggregate_ops_flat`], or `None` where a row does not fit 64 bits.
pub fn try_aggregate_ops_flat(root: &ModuleBreakdown, group_by: OpGroupBy) -> (r: Option<
    Vec<OpFlatRow>,
>)
    ensures
        match r {
            Some(r) => flat_fits(root.tree(), group_by) && flat_views(r@) == flat_rows(
                root.tree(),
                group_by,
            ),
            None => !flat_fits(root.tree(), group_by),
        },
{
    let mut t = Tally::new();
    proof {
        assert(tallied(Seq::<Entry>::empty()) =~= Seq::<Entry>::empty());
        assert(Seq::<Entry>::empty() + flat_entries(root.tree(), group_by) =~= flat_entries(
            root.tree(),
            group_by,
        ));
    }
    if book_tree(&mut t, root, group_by, Ghost(Seq::empty())) {
        Some(finish_rows(t.into_rows()))
    } else {
        None
    }
}

/// Flattens all kernels of the tree into rows by name or by kind. Returns all
/// rows, largest first: callers add up over the full set before they cut it,
/// so percentages stay correct.
pub fn aggregate_ops_flat(root: &ModuleBreakdown, group_by: OpGroupBy) -> (r: Vec<OpFlatRow>)
    requires
        flat_fits(root.tree(), group_by),
    ensures
        flat_views(r@) == flat_rows(root.tree(), group_by),
{
    match try_aggregate_ops_flat(root, group_by) {
        Some(rows) => rows,
        None => Vec::new(),
    }
}

/// The rows of a flat summary are sorted.
pub proof fn flat_rows_are_sorted(n: Node, group_by: OpGroupBy)
    ensures
        in_order(flat_rows(n, group_by), by_ns_then_name()),
{
    summary_order_is_strict_weak();
    crate::sort::ordered_is_in_order(tallied(flat_entries(n, group_by)), by_ns_then_name());
}

/// The GPU time of a flat summary, or `None` where it does not fit 64 bits.
pub fn rows_total(rows: &Vec<OpFlatRow>) -> (r: Option<u64>)
    ensures
        match r {
            Some(ns) => ns == total_ns(flat_views(rows@)),
            None => total_ns(flat_views(rows@)) > u64::MAX,
        },
{
    let ghost all = flat_views(rows@);
    let mut ns: u64 = 0;
    let mut i: usize = 0;
    assert(all.take(0) =~= Seq::<Entry>::empty());
    while i < rows.len()
        invariant
            i <= rows@.len(),
            all == flat_views(rows@),
            ns == total_ns(all.take(i as int)),
        decreases rows@.len() - i,
    {
        proof {
            assert(all.take(i + 1).drop_last() =~= all.take(i as int));
            assert(all[i as int] == rows@[i as int]@);
            lemma_total_prefix(all, i + 1);
        }
        ns = match ns.checked_add(rows[i].gpu_ns) {
            Some(more) => more,
            None => return None,
        };
        i = i + 1;
    }
    assert(all.take(all.len() as int) =~= all);
    Some(ns)
}

/// Can the kernels of the whole tree be added up?
pub fn kernels_fit(root: &ModuleBreakdown, group_by: OpGroupBy) -> (b: bool)
    ensures
        b == flat_total_fits(root.tree(), group_by),
{
    match try_aggregate_ops_flat(root, group_by) {
        Some(rows) => rows_total(&rows).is_some(),
        None => false,
    }
}

} // verus!
