//! What a comparison of two sessions tells.

use crate::breakdown::{root_of, Node};
use crate::diff::{
    by_change, by_value, change_pct, delta_of, diff_of, either, find, lemma_find, op_amounts,
    op_entries, op_list, op_lists, only, origin_amounts, peak_amounts, scope_amounts, scope_entry,
    scope_list, scope_lists, shared, value_of, AmountView, DeltaView,
};
use crate::dispatch_origins::origins_of;
use crate::event::Event;
use crate::memory::memory_of;
use crate::op_kinds::kind_of;
use crate::ownership::tally_keeps_every_name;
use crate::regrouping::{has_key, keyed_ns};
use crate::sort::{lemma_ordered_contains, ordered_is_in_order};
use crate::tally::{booked, lemma_row_of, row_of, tallied, tally_names_are_distinct, Entry};
use crate::tree::{children_sum, tree_sum};
use vstd::prelude::*;

verus! {

/// The GPU time of a node's subtree, where the node has the name `name`.
pub open spec fn subtree_named(name: Seq<char>) -> spec_fn(Node) -> nat {
    |n: Node|
        if n.qualname == name {
            n.gpu_ns_subtree
        } else {
            0
        }
}

/// One for a node of the name `name`.
pub open spec fn one_named(name: Seq<char>) -> spec_fn(Node) -> nat {
    |n: Node|
        if n.qualname == name {
            1
        } else {
            0
        }
}

/// The GPU time of the kernels of a list that go under `kind`.
pub open spec fn kind_ns(ops: Seq<Entry>, kind: Seq<char>) -> nat
    decreases ops.len(),
{
    if ops.len() == 0 {
        0
    } else {
        kind_ns(ops.drop_last(), kind) + if goes_under(ops.last(), kind) {
            ops.last().gpu_ns
        } else {
            0
        }
    }
}

/// A kernel goes under its kind, else under the kind of its symbol, else under its
/// symbol, else under its name.
pub open spec fn goes_under(op: Entry, kind: Seq<char>) -> bool {
    if op.kind is Some {
        op.kind == Some(kind)
    } else if op.symbol is Some {
        if kind_of(op.symbol->0) is Some {
            kind_of(op.symbol->0) == Some(kind)
        } else {
            op.symbol == Some(kind)
        }
    } else {
        op.key == kind
    }
}

/// The GPU time of a node's own kernels that go under `kind`.
pub open spec fn own_kind(kind: Seq<char>) -> spec_fn(Node) -> nat {
    |n: Node| kind_ns(n.ops, kind)
}

/// How many entries stand under a key.
spec fn hits(s: Seq<Entry>, key: Seq<char>) -> nat
    decreases s.len(),
{
    if s.len() == 0 {
        0
    } else {
        hits(s.drop_last(), key) + if s.last().key == key {
            1nat
        } else {
            0
        }
    }
}

proof fn lemma_hits(s: Seq<Entry>, key: Seq<char>)
    ensures
        has_key(s, key) == (hits(s, key) > 0),
        hits(s, key) == 0 ==> keyed_ns(s, key) == 0,
    decreases s.len(),
{
    if s.len() > 0 {
        let rest = s.drop_last();
        lemma_hits(rest, key);
        if has_key(s, key) && s.last().key != key {
            let i = choose|i: int| 0 <= i < s.len() && (#[trigger] s[i]).key == key;
            assert(rest[i].key == key);
        }
        if has_key(rest, key) {
            let i = choose|i: int| 0 <= i < rest.len() && (#[trigger] rest[i]).key == key;
            assert(s[i].key == key);
        }
        if s.last().key == key {
            assert(s[s.len() - 1].key == key);
        }
    }
}

proof fn lemma_hits_add(a: Seq<Entry>, b: Seq<Entry>, key: Seq<char>)
    ensures
        hits(a + b, key) == hits(a, key) + hits(b, key),
        keyed_ns(a + b, key) == keyed_ns(a, key) + keyed_ns(b, key),
    decreases b.len(),
{
    if b.len() == 0 {
        assert(a + b =~= a);
    } else {
        lemma_hits_add(a, b.drop_last(), key);
        assert((a + b).drop_last() =~= a + b.drop_last());
    }
}

proof fn lemma_scope_list(n: Node, name: Seq<char>)
    ensures
        keyed_ns(scope_list(n), name) == tree_sum(n, subtree_named(name)),
        hits(scope_list(n), name) == tree_sum(n, one_named(name)),
    decreases n, n.children.len() + 1,
{
    let own = seq![scope_entry(n)];
    lemma_scope_lists(n, n.children.len() as int, name);
    lemma_hits_add(own, scope_lists(n, n.children.len() as int), name);
    assert(own.drop_last() =~= Seq::<Entry>::empty());
    reveal_with_fuel(keyed_ns, 2);
    reveal_with_fuel(hits, 2);
}

proof fn lemma_scope_lists(n: Node, k: int, name: Seq<char>)
    ensures
        keyed_ns(scope_lists(n, k), name) == children_sum(n, k, subtree_named(name)),
        hits(scope_lists(n, k), name) == children_sum(n, k, one_named(name)),
    decreases n, k,
{
    if 0 < k <= n.children.len() {
        lemma_scope_lists(n, k - 1, name);
        lemma_scope_list(n.children[k - 1], name);
        lemma_hits_add(scope_lists(n, k - 1), scope_list(n.children[k - 1]), name);
    }
}

proof fn lemma_op_entries(ops: Seq<Entry>, kind: Seq<char>)
    ensures
        keyed_ns(op_entries(ops), kind) == kind_ns(ops, kind),
    decreases ops.len(),
{
    if ops.len() > 0 {
        lemma_op_entries(ops.drop_last(), kind);
        assert(op_entries(ops).drop_last() =~= op_entries(ops.drop_last()));
    }
}

proof fn lemma_op_list(n: Node, kind: Seq<char>)
    ensures
        keyed_ns(op_list(n), kind) == tree_sum(n, own_kind(kind)),
    decreases n, n.children.len() + 1,
{
    lemma_op_lists(n, n.children.len() as int, kind);
    lemma_op_entries(n.ops, kind);
    lemma_hits_add(op_entries(n.ops), op_lists(n, n.children.len() as int), kind);
}

proof fn lemma_op_lists(n: Node, k: int, kind: Seq<char>)
    ensures
        keyed_ns(op_lists(n, k), kind) == children_sum(n, k, own_kind(kind)),
    decreases n, k,
{
    if 0 < k <= n.children.len() {
        lemma_op_lists(n, k - 1, kind);
        lemma_op_list(n.children[k - 1], kind);
        lemma_hits_add(op_lists(n, k - 1), op_list(n.children[k - 1]), kind);
    }
}

/// A row under a name of its own holds all that stands under it.
proof fn lemma_row_alone(rows: Seq<Entry>, k: int)
    requires
        0 <= k < rows.len(),
        forall|i: int, j: int|
            0 <= i < j < rows.len() ==> (#[trigger] rows[i]).key != (#[trigger] rows[j]).key,
    ensures
        keyed_ns(rows, rows[k].key) == rows[k].gpu_ns,
    decreases rows.len(),
{
    let rest = rows.drop_last();
    assert forall|i: int, j: int| 0 <= i < j < rest.len() implies (#[trigger] rest[i]).key != (
    #[trigger] rest[j]).key by {
        assert(rows[i].key != rows[j].key);
    }
    if k < rest.len() {
        lemma_row_alone(rest, k);
        assert(rows[k].key != rows[rows.len() - 1].key);
    } else {
        lemma_hits(rest, rows[k].key);
        if has_key(rest, rows[k].key) {
            let i = choose|i: int| 0 <= i < rest.len() && (#[trigger] rest[i]).key == rows[k].key;
            assert(rows[i].key != rows[k].key);
        }
    }
}

/// A tally has a row for each name booked, and for no other.
pub proof fn tally_has_every_name(s: Seq<Entry>, key: Seq<char>)
    ensures
        has_key(tallied(s), key) == has_key(s, key),
    decreases s.len(),
{
    lemma_hits(s, key);
    lemma_hits(tallied(s), key);
    if s.len() > 0 {
        let rest = s.drop_last();
        let rows = tallied(rest);
        let e = s.last();
        let now = tallied(s);
        tally_has_every_name(rest, key);
        lemma_hits(rest, key);
        lemma_row_of(rows, e.key);
        match row_of(rows, e.key) {
            Some(i) => {
                assert(now[i].key == e.key);
                if has_key(rows, key) {
                    let k = choose|k: int| 0 <= k < rows.len() && (#[trigger] rows[k]).key == key;
                    assert(now[k].key == key);
                }
                if has_key(now, key) {
                    let k = choose|k: int| 0 <= k < now.len() && (#[trigger] now[k]).key == key;
                    assert(rows[k].key == key);
                }
            },
            None => {
                assert(now[rows.len() as int].key == e.key);
                if has_key(rows, key) {
                    let k = choose|k: int| 0 <= k < rows.len() && (#[trigger] rows[k]).key == key;
                    assert(now[k].key == key);
                }
                if has_key(now, key) {
                    let k = choose|k: int| 0 <= k < now.len() && (#[trigger] now[k]).key == key;
                    if k < rows.len() {
                        assert(rows[k].key == key);
                    }
                }
            },
        }
    }
}

proof fn lemma_amounts_find(rows: Seq<Entry>, without: Seq<char>, name: Seq<char>)
    requires
        forall|i: int, j: int|
            0 <= i < j < rows.len() ==> (#[trigger] rows[i]).key != (#[trigger] rows[j]).key,
    ensures
        match find(crate::diff::amounts(rows, without), name, seq![]) {
            Some(i) => name != without && has_key(rows, name) && 0 <= i < crate::diff::amounts(
                rows,
                without,
            ).len() && crate::diff::amounts(rows, without)[i].value == keyed_ns(rows, name) as u64,
            None => name == without || !has_key(rows, name),
        },
    decreases rows.len(),
{
    if rows.len() > 0 {
        let rest = rows.drop_last();
        let last = rows[rows.len() - 1];
        assert forall|i: int, j: int| 0 <= i < j < rest.len() implies (#[trigger] rest[i]).key != (
        #[trigger] rest[j]).key by {
            assert(rows[i].key != rows[j].key);
        }
        lemma_amounts_find(rest, without, name);
        lemma_hits(rest, name);
        lemma_hits(rows, name);
        let x = crate::diff::amounts(rest, without);
        let y = crate::diff::amounts(rows, without);
        if last.key == name {
            lemma_row_alone(rows, rows.len() - 1);
            if has_key(rest, name) {
                let i = choose|i: int| 0 <= i < rest.len() && (#[trigger] rest[i]).key == name;
                assert(rows[i].key != last.key);
            }
        }
        if last.key != without {
            assert(y.drop_last() =~= x);
        }
    }
}

/// The time of a scope in a comparison is that of all subtrees under its name, and a
/// scope is known where any node of the tree has its name. The root is none.
pub proof fn scopes_are_compared_by_their_subtrees(events: Seq<Event>, name: Seq<char>)
    requires
        events.len() > 0,
    ensures
        match find(scope_amounts(events), name, seq![]) {
            Some(i) => {
                &&& 0 <= i < scope_amounts(events).len()
                &&& scope_amounts(events)[i].value == tree_sum(
                    root_of(events),
                    subtree_named(name),
                ) as u64
                &&& tree_sum(root_of(events), one_named(name)) > 0
                &&& name != "<root>"@
            },
            None => name == "<root>"@ || tree_sum(root_of(events), one_named(name)) == 0,
        },
{
    let list = scope_list(root_of(events));
    lemma_scope_list(root_of(events), name);
    tally_names_are_distinct(list);
    lemma_amounts_find(tallied(list), "<root>"@, name);
    tally_keeps_every_name(list, name);
    tally_has_every_name(list, name);
    lemma_hits(list, name);
}

/// The time of a kind of kernel in a comparison is that of all kernels of the tree
/// that go under it.
pub proof fn kinds_are_compared_by_their_kernels(events: Seq<Event>, kind: Seq<char>)
    requires
        events.len() > 0,
    ensures
        value_of(op_amounts(events), kind) == tree_sum(root_of(events), own_kind(kind)) as u64,
{
    let list = op_list(root_of(events));
    let rows = tallied(list);
    let amounts = op_amounts(events);
    lemma_op_list(root_of(events), kind);
    tally_names_are_distinct(list);
    tally_keeps_every_name(list, kind);
    lemma_find(amounts, kind, seq![]);
    match find(amounts, kind, seq![]) {
        Some(i) => {
            assert(rows[i].key == kind);
            lemma_row_alone(rows, i);
        },
        None => {
            lemma_hits(rows, kind);
            if has_key(rows, kind) {
                let i = choose|i: int| 0 <= i < rows.len() && (#[trigger] rows[i]).key == kind;
                assert(amounts[i].name == kind && amounts[i].place == Seq::<char>::empty());
            }
        },
    }
}

/// Empty sessions have nothing to compare.
pub proof fn empty_sessions_do_not_differ(a: Seq<Event>, b: Seq<Event>)
    requires
        a.len() == 0,
        b.len() == 0,
    ensures
        diff_of(a, b).scopes.len() == 0,
        diff_of(a, b).ops.len() == 0,
        diff_of(a, b).only_a.len() == 0,
        diff_of(a, b).only_b.len() == 0,
{
    assert(crate::diff::all_names(op_amounts(a), op_amounts(b)) =~= Seq::<Seq<char>>::empty());
}

/// The size of a change.
pub open spec fn size_of_change(d: DeltaView) -> int {
    if d.delta < 0 {
        -d.delta
    } else {
        d.delta
    }
}

proof fn lemma_change_order(x: DeltaView, y: DeltaView)
    requires
        x.delta == x.b - x.a,
        y.delta == y.b - y.a,
    ensures
        by_change()(x, y) == (size_of_change(x) > size_of_change(y)),
{
}

/// A row compares what the two lists hold under its name and place.
pub open spec fn compares(d: DeltaView, a: Seq<AmountView>, b: Seq<AmountView>) -> bool {
    &&& d.delta == d.b - d.a
    &&& d.pct == change_pct(d.a, d.b)
    &&& exists|i: int|
        #![trigger a[i]]
        0 <= i < a.len() && a[i].name == d.name && a[i].place == d.place && a[i].value == d.a
    &&& exists|k: int|
        #![trigger b[k]]
        0 <= k < b.len() && b[k].name == d.name && b[k].place == d.place && b[k].value == d.b
}

/// What two lists share is compared, each row by what the lists hold, and the largest
/// change comes first.
proof fn lemma_shared_sorted(a: Seq<AmountView>, b: Seq<AmountView>)
    ensures
        ({
            let rows = crate::sort::ordered(shared(a, b), by_change());
            &&& forall|i: int| 0 <= i < rows.len() ==> compares(#[trigger] rows[i], a, b)
            &&& forall|i: int, j: int|
                0 <= i < j < rows.len() ==> size_of_change(#[trigger] rows[i]) >= size_of_change(
                    #[trigger] rows[j],
                )
        }),
{
    let s = shared(a, b);
    let rows = crate::sort::ordered(s, by_change());
    lemma_shared_compares(a, b);
    assert(crate::sort::strict_weak(by_change()));
    ordered_is_in_order(s, by_change());
    assert forall|i: int| 0 <= i < rows.len() implies compares(#[trigger] rows[i], a, b) by {
        assert(rows.contains(rows[i]));
        lemma_ordered_contains(s, by_change(), rows[i]);
        let k = choose|k: int| 0 <= k < s.len() && s[k] == rows[i];
        assert(compares(s[k], a, b));
    }
    assert forall|i: int, j: int| 0 <= i < j < rows.len() implies size_of_change(
        #[trigger] rows[i],
    ) >= size_of_change(#[trigger] rows[j]) by {
        assert(compares(rows[i], a, b) && compares(rows[j], a, b));
        assert(!by_change()(rows[j], rows[i]));
        lemma_change_order(rows[j], rows[i]);
    }
}

proof fn lemma_shared_compares(a: Seq<AmountView>, b: Seq<AmountView>)
    ensures
        forall|i: int| 0 <= i < shared(a, b).len() ==> compares(#[trigger] shared(a, b)[i], a, b),
    decreases a.len(),
{
    if a.len() > 0 {
        let rest = a.drop_last();
        let last = a[a.len() - 1];
        lemma_shared_compares(rest, b);
        lemma_find(b, last.name, last.place);
        let (s, t) = (shared(rest, b), shared(a, b));
        assert forall|i: int| 0 <= i < t.len() implies compares(#[trigger] t[i], a, b) by {
            if i < s.len() {
                assert(t[i] == s[i]);
                assert(compares(s[i], rest, b));
                let k = choose|k: int|
                    #![trigger rest[k]]
                    0 <= k < rest.len() && rest[k].name == s[i].name && rest[k].place
                        == s[i].place && rest[k].value == s[i].a;
                assert(a[k] == rest[k]);
            } else {
                let k = find(b, last.name, last.place)->0;
                assert(b[k].name == t[i].name);
                assert(a[a.len() - 1].name == t[i].name);
            }
        }
    }
}

/// In a comparison of sessions every row holds the times of its scope on both sides
/// and their difference, the largest change comes first, and of the scopes on one
/// side alone the longest.
pub proof fn session_rows_are_differences(a: Seq<Event>, b: Seq<Event>)
    ensures
        forall|i: int|
            0 <= i < diff_of(a, b).scopes.len() ==> compares(
                #[trigger] diff_of(a, b).scopes[i],
                scope_amounts(a),
                scope_amounts(b),
            ),
        forall|i: int, j: int|
            0 <= i < j < diff_of(a, b).scopes.len() ==> size_of_change(
                #[trigger] diff_of(a, b).scopes[i],
            ) >= size_of_change(#[trigger] diff_of(a, b).scopes[j]),
        forall|i: int, j: int|
            0 <= i < j < diff_of(a, b).ops.len() ==> size_of_change(
                #[trigger] diff_of(a, b).ops[i],
            ) >= size_of_change(#[trigger] diff_of(a, b).ops[j]),
        forall|i: int, j: int|
            0 <= i < j < diff_of(a, b).only_a.len() ==> (#[trigger] diff_of(a, b).only_a[i]).value
                >= (#[trigger] diff_of(a, b).only_a[j]).value,
        forall|i: int, j: int|
            0 <= i < j < diff_of(a, b).only_b.len() ==> (#[trigger] diff_of(a, b).only_b[i]).value
                >= (#[trigger] diff_of(a, b).only_b[j]).value,
{
    let (x, y) = (scope_amounts(a), scope_amounts(b));
    let d = diff_of(a, b);
    lemma_shared_sorted(x, y);
    assert(crate::sort::strict_weak(by_value()));
    assert(crate::sort::strict_weak(by_change()));
    ordered_is_in_order(only(x, y), by_value());
    ordered_is_in_order(only(y, x), by_value());
    assert forall|i: int, j: int| 0 <= i < j < d.only_a.len() implies (
    #[trigger] d.only_a[i]).value >= (#[trigger] d.only_a[j]).value by {
        assert(!by_value()(d.only_a[j], d.only_a[i]));
    }
    assert forall|i: int, j: int| 0 <= i < j < d.only_b.len() implies (
    #[trigger] d.only_b[i]).value >= (#[trigger] d.only_b[j]).value by {
        assert(!by_value()(d.only_b[j], d.only_b[i]));
    }
    kind_rows_are_differences(a, b);
    let e = either(op_amounts(a), op_amounts(b));
    ordered_is_in_order(e, by_change());
    assert forall|i: int, j: int| 0 <= i < j < d.ops.len() implies size_of_change(
        #[trigger] d.ops[i],
    ) >= size_of_change(#[trigger] d.ops[j]) by {
        assert(!by_change()(d.ops[j], d.ops[i]));
        assert(d.ops[i].delta == d.ops[i].b - d.ops[i].a);
        assert(d.ops[j].delta == d.ops[j].b - d.ops[j].a);
        lemma_change_order(d.ops[j], d.ops[i]);
    }
}

/// A row of a kind of kernel holds its times on both sides, nothing where a side lacks
/// it, and their difference.
pub proof fn kind_rows_are_differences(a: Seq<Event>, b: Seq<Event>)
    ensures
        forall|i: int|
            0 <= i < diff_of(a, b).ops.len() ==> {
                let d = #[trigger] diff_of(a, b).ops[i];
                &&& d.a == value_of(op_amounts(a), d.name)
                &&& d.b == value_of(op_amounts(b), d.name)
                &&& d.delta == d.b - d.a
                &&& d.pct == change_pct(d.a, d.b)
            },
{
    let e = either(op_amounts(a), op_amounts(b));
    let rows = diff_of(a, b).ops;
    assert forall|i: int| 0 <= i < rows.len() implies {
        let d = #[trigger] rows[i];
        &&& d.a == value_of(op_amounts(a), d.name)
        &&& d.b == value_of(op_amounts(b), d.name)
        &&& d.delta == d.b - d.a
        &&& d.pct == change_pct(d.a, d.b)
    } by {
        assert(rows.contains(rows[i]));
        lemma_ordered_contains(e, by_change(), rows[i]);
        let k = choose|k: int| 0 <= k < e.len() && e[k] == rows[i];
    }
}

/// Every kind of kernel on either side has a row.
pub proof fn every_kind_is_told(a: Seq<Event>, b: Seq<Event>, kind: Seq<char>)
    requires
        find(op_amounts(a), kind, seq![]) is Some || find(op_amounts(b), kind, seq![]) is Some,
    ensures
        exists|i: int|
            0 <= i < diff_of(a, b).ops.len() && (#[trigger] diff_of(a, b).ops[i]).name == kind,
{
    let (o, q) = (op_amounts(a), op_amounts(b));
    let names = crate::diff::all_names(o, q);
    lemma_find(o, kind, seq![]);
    lemma_find(q, kind, seq![]);
    let own = o.map_values(|x: AmountView| x.name);
    let more = only(q, o);
    if find(o, kind, seq![]) is Some {
        let i = find(o, kind, seq![])->0;
        assert(names[i] == kind);
    } else {
        let i = find(q, kind, seq![])->0;
        crate::diff::lemma_only_contains(q, o, i);
        let k = choose|k: int| 0 <= k < more.len() && more[k] == q[i];
        assert(names[own.len() + k] == kind);
    }
    assert(names.contains(kind));
    lemma_ordered_contains(names, crate::diff::by_name(), kind);
    let sorted = crate::sort::ordered(names, crate::diff::by_name());
    let k = choose|k: int| 0 <= k < sorted.len() && sorted[k] == kind;
    let e = either(o, q);
    assert(e[k].name == kind);
    assert(e.contains(e[k]));
    lemma_ordered_contains(e, by_change(), e[k]);
    let rows = diff_of(a, b).ops;
    let i = choose|i: int| 0 <= i < rows.len() && rows[i] == e[k];
    assert(rows[i].name == kind);
}

/// Memory is compared by the peaks of the scopes, and origins by the GPU time of a
/// kind at a place: each row holds both sides and their difference, and the largest
/// change comes first.
pub proof fn memory_and_origin_rows_are_differences(a: Seq<Event>, b: Seq<Event>)
    ensures
        ({
            let rows = crate::sort::ordered(shared(peak_amounts(a), peak_amounts(b)), by_change());
            &&& forall|i: int|
                0 <= i < rows.len() ==> compares(
                    #[trigger] rows[i],
                    peak_amounts(a),
                    peak_amounts(b),
                )
            &&& forall|i: int, j: int|
                0 <= i < j < rows.len() ==> size_of_change(#[trigger] rows[i]) >= size_of_change(
                    #[trigger] rows[j],
                )
        }),
        ({
            let rows = crate::sort::ordered(
                shared(origin_amounts(a), origin_amounts(b)),
                by_change(),
            );
            &&& forall|i: int|
                0 <= i < rows.len() ==> compares(
                    #[trigger] rows[i],
                    origin_amounts(a),
                    origin_amounts(b),
                )
            &&& forall|i: int, j: int|
                0 <= i < j < rows.len() ==> size_of_change(#[trigger] rows[i]) >= size_of_change(
                    #[trigger] rows[j],
                )
        }),
        peak_amounts(a).len() == memory_of(a).len(),
        forall|i: int|
            0 <= i < peak_amounts(a).len() ==> (#[trigger] peak_amounts(a)[i]).name == memory_of(
                a,
            )[i].0 && peak_amounts(a)[i].value == memory_of(a)[i].1.peak && peak_amounts(
                a,
            )[i].place.len() == 0,
        origin_amounts(a).len() == origins_of(a).len(),
        forall|i: int|
            0 <= i < origin_amounts(a).len() ==> (#[trigger] origin_amounts(a)[i]).name
                == origins_of(a)[i].kind && origin_amounts(a)[i].place == origins_of(
                a,
            )[i].file_line && (origins_of(a)[i].gpu_ns <= u64::MAX ==> origin_amounts(a)[i].value
                == origins_of(a)[i].gpu_ns),
{
    lemma_shared_sorted(peak_amounts(a), peak_amounts(b));
    lemma_shared_sorted(origin_amounts(a), origin_amounts(b));
}

/// What stands on both sides is compared.
pub proof fn shared_things_are_compared(a: Seq<AmountView>, b: Seq<AmountView>, i: int, k: int)
    requires
        0 <= i < a.len(),
        find(b, a[i].name, a[i].place) == Some(k),
    ensures
        crate::sort::ordered(shared(a, b), by_change()).contains(
            delta_of(a[i].name, a[i].place, a[i].value, b[k].value),
        ),
{
    lemma_shared_holds(a, b, i, k);
    lemma_ordered_contains(
        shared(a, b),
        by_change(),
        delta_of(a[i].name, a[i].place, a[i].value, b[k].value),
    );
}

proof fn lemma_shared_holds(a: Seq<AmountView>, b: Seq<AmountView>, i: int, k: int)
    requires
        0 <= i < a.len(),
        find(b, a[i].name, a[i].place) == Some(k),
    ensures
        shared(a, b).contains(delta_of(a[i].name, a[i].place, a[i].value, b[k].value)),
    decreases a.len(),
{
    let d = delta_of(a[i].name, a[i].place, a[i].value, b[k].value);
    let t = shared(a, b);
    if i == a.len() - 1 {
        assert(t[t.len() - 1] == d);
    } else {
        let rest = a.drop_last();
        assert(rest[i] == a[i]);
        lemma_shared_holds(rest, b, i, k);
        let s = shared(rest, b);
        let j = choose|j: int| 0 <= j < s.len() && s[j] == d;
        assert(t[j] == d);
    }
}

} // verus!
