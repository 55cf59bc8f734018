//! Regrouping kernels by kind: the order of the kernels does not matter, doing it
//! twice changes nothing more, and no time is lost.

use crate::breakdown::Node;
use crate::op_tables::{
    by_kind, by_ns_then_name, kind_rows, kinds_fit, lemma_regrouped_total, ops_fit, regrouped,
    regrouped_all, summary_order_is_strict_weak, OpGroupBy,
};
use crate::sort::{
    lemma_ordered_contains, lemma_ordered_no_duplicates, order_is_unique, ordered,
    ordered_is_in_order, ordered_keeps_order, placed,
};
use crate::tally::{
    lemma_row_of, row_of, rows_fit, tallied, tally_conserves, tally_names_are_distinct,
    total_count, total_ns, Entry,
};
use crate::text::text_order_is_total;
use vstd::prelude::*;

verus! {

/// A kernel under its kind, or under its name where it has no kind.
pub open spec fn under_kind(e: Entry) -> bool {
    e.symbol is None && (e.kind matches Some(k) ==> k == e.key)
}

/// The GPU time under a key.
pub open spec fn keyed_ns(s: Seq<Entry>, key: Seq<char>) -> nat
    decreases s.len(),
{
    if s.len() == 0 {
        0
    } else {
        keyed_ns(s.drop_last(), key) + if s.last().key == key {
            s.last().gpu_ns
        } else {
            0
        }
    }
}

/// The dispatches under a key.
pub open spec fn keyed_count(s: Seq<Entry>, key: Seq<char>) -> nat
    decreases s.len(),
{
    if s.len() == 0 {
        0
    } else {
        keyed_count(s.drop_last(), key) + if s.last().key == key {
            s.last().count
        } else {
            0
        }
    }
}

/// Something stands under a key.
pub open spec fn has_key(s: Seq<Entry>, key: Seq<char>) -> bool {
    exists|i: int| 0 <= i < s.len() && (#[trigger] s[i]).key == key
}

/// Something of a known kind stands under a key.
pub open spec fn has_kind(s: Seq<Entry>, key: Seq<char>) -> bool {
    exists|i: int| 0 <= i < s.len() && (#[trigger] s[i]).key == key && s[i].kind is Some
}

/// The row of a key: the sums of what stands under it, and the key as the kind
/// where any of it has one.
pub open spec fn row_for(s: Seq<Entry>, key: Seq<char>) -> Entry {
    Entry {
        key,
        gpu_ns: keyed_ns(s, key),
        count: keyed_count(s, key),
        symbol: None,
        kind: if has_kind(s, key) {
            Some(key)
        } else {
            None
        },
    }
}

/// All entries stand under their kinds.
pub open spec fn all_under_kind(s: Seq<Entry>) -> bool {
    forall|i: int| 0 <= i < s.len() ==> under_kind(#[trigger] s[i])
}

proof fn lemma_no_key(s: Seq<Entry>, key: Seq<char>)
    requires
        !has_key(s, key),
    ensures
        keyed_ns(s, key) == 0,
        keyed_count(s, key) == 0,
        !has_kind(s, key),
    decreases s.len(),
{
    if s.len() > 0 {
        let rest = s.drop_last();
        assert(s[s.len() - 1].key != key);
        if has_key(rest, key) {
            let i = choose|i: int| 0 <= i < rest.len() && (#[trigger] rest[i]).key == key;
            assert(s[i].key == key);
        }
        lemma_no_key(rest, key);
    }
}

/// What one more entry does to a key.
proof fn lemma_one_more(s: Seq<Entry>, key: Seq<char>)
    requires
        s.len() > 0,
    ensures
        has_key(s, key) == (has_key(s.drop_last(), key) || s.last().key == key),
        has_kind(s, key) == (has_kind(s.drop_last(), key) || (s.last().key == key
            && s.last().kind is Some)),
{
    let rest = s.drop_last();
    if has_key(rest, key) {
        let i = choose|i: int| 0 <= i < rest.len() && (#[trigger] rest[i]).key == key;
        assert(s[i].key == key);
    }
    if has_kind(rest, key) {
        let i = choose|i: int|
            0 <= i < rest.len() && (#[trigger] rest[i]).key == key && rest[i].kind is Some;
        assert(s[i].key == key && s[i].kind is Some);
    }
    if s.last().key == key {
        assert(s[s.len() - 1].key == key);
    }
    if has_key(s, key) && s.last().key != key {
        let i = choose|i: int| 0 <= i < s.len() && (#[trigger] s[i]).key == key;
        assert(rest[i].key == key);
    }
    if has_kind(s, key) && !(s.last().key == key && s.last().kind is Some) {
        let i = choose|i: int|
            0 <= i < s.len() && (#[trigger] s[i]).key == key && s[i].kind is Some;
        assert(rest[i].key == key && rest[i].kind is Some);
    }
}

/// The rows of a tally are the rows of its keys.
pub proof fn rows_are_sums(s: Seq<Entry>)
    requires
        all_under_kind(s),
    ensures
        forall|i: int|
            0 <= i < tallied(s).len() ==> #[trigger] tallied(s)[i] == row_for(s, tallied(s)[i].key)
                && has_key(s, tallied(s)[i].key),
        forall|key: Seq<char>| #[trigger] has_key(s, key) ==> tallied(s).contains(row_for(s, key)),
    decreases s.len(),
{
    if s.len() > 0 {
        let rest = s.drop_last();
        let e = s.last();
        let before = tallied(rest);
        let now = tallied(s);
        assert(all_under_kind(rest)) by {
            assert forall|i: int| 0 <= i < rest.len() implies under_kind(#[trigger] rest[i]) by {
                assert(under_kind(s[i]));
            }
        }
        assert(under_kind(s[s.len() - 1]));
        rows_are_sums(rest);
        tally_names_are_distinct(rest);
        lemma_row_of(before, e.key);
        assert forall|i: int| 0 <= i < now.len() implies #[trigger] now[i] == row_for(
            s,
            now[i].key,
        ) && has_key(s, now[i].key) by {
            lemma_one_more(s, now[i].key);
            match row_of(before, e.key) {
                Some(k) => {
                    assert(before[i] == row_for(rest, before[i].key));
                    assert(before[k] == row_for(rest, before[k].key));
                    if i != k {
                        if i < k {
                            assert(before[i].key != before[k].key);
                        } else {
                            assert(before[k].key != before[i].key);
                        }
                    }
                },
                None => {
                    if i < before.len() {
                        assert(before[i] == row_for(rest, before[i].key));
                        assert(before[i].key != e.key);
                    } else {
                        if has_key(rest, e.key) {
                            assert(before.contains(row_for(rest, e.key)));
                            let m = choose|m: int|
                                0 <= m < before.len() && before[m] == row_for(rest, e.key);
                            assert(before[m].key == e.key);
                        }
                        lemma_no_key(rest, e.key);
                    }
                },
            }
        }
        assert forall|key: Seq<char>| #[trigger] has_key(s, key) implies now.contains(
            row_for(s, key),
        ) by {
            lemma_one_more(s, key);
            if key == e.key {
                match row_of(before, e.key) {
                    Some(k) => {
                        assert(now[k].key == key);
                    },
                    None => {
                        assert(now[before.len() as int].key == key);
                    },
                }
            } else {
                assert(has_key(rest, key));
                let m = choose|m: int| 0 <= m < before.len() && before[m] == row_for(rest, key);
                assert(now[m].key == key);
            }
        }
    }
}

proof fn lemma_keyed_remove(s: Seq<Entry>, i: int, key: Seq<char>)
    requires
        0 <= i < s.len(),
    ensures
        keyed_ns(s, key) == keyed_ns(s.remove(i), key) + if s[i].key == key {
            s[i].gpu_ns
        } else {
            0
        },
        keyed_count(s, key) == keyed_count(s.remove(i), key) + if s[i].key == key {
            s[i].count
        } else {
            0
        },
    decreases s.len(),
{
    let t = s.remove(i);
    if i == s.len() - 1 {
        assert(t =~= s.drop_last());
    } else {
        lemma_keyed_remove(s.drop_last(), i, key);
        assert(t.drop_last() =~= s.drop_last().remove(i));
        assert(t.last() == s.last());
    }
}

/// A reordering, one element taken off both.
proof fn lemma_reordered<A>(s: Seq<A>, t: Seq<A>) -> (i: int)
    requires
        s.len() > 0,
        s.to_multiset() == t.to_multiset(),
    ensures
        0 <= i < t.len(),
        t[i] == s.last(),
        s.drop_last().to_multiset() == t.remove(i).to_multiset(),
{
    broadcast use vstd::seq_lib::group_to_multiset_ensures;

    assert(s.contains(s[s.len() - 1]));
    lemma_contains_reordered(s, t, s.last());
    let i = choose|i: int| 0 <= i < t.len() && t[i] == s.last();
    assert(s.drop_last() =~= s.remove(s.len() - 1));
    i
}

proof fn lemma_sums_reordered(s: Seq<Entry>, t: Seq<Entry>, key: Seq<char>)
    requires
        s.to_multiset() == t.to_multiset(),
    ensures
        keyed_ns(s, key) == keyed_ns(t, key),
        keyed_count(s, key) == keyed_count(t, key),
    decreases s.len(),
{
    broadcast use vstd::seq_lib::group_to_multiset_ensures;

    if s.len() == 0 {
        assert(s.to_multiset().len() == s.len());
        assert(t.to_multiset().len() == t.len());
    } else {
        let i = lemma_reordered(s, t);
        lemma_keyed_remove(t, i, key);
        lemma_sums_reordered(s.drop_last(), t.remove(i), key);
    }
}

proof fn lemma_contains_reordered<A>(s: Seq<A>, t: Seq<A>, x: A)
    requires
        s.to_multiset() == t.to_multiset(),
    ensures
        s.contains(x) == t.contains(x),
{
    broadcast use vstd::seq_lib::group_to_multiset_ensures;

    assert(s.contains(x) <==> s.to_multiset().count(x) > 0);
    assert(t.contains(x) <==> t.to_multiset().count(x) > 0);
}

proof fn lemma_keys_reordered(s: Seq<Entry>, t: Seq<Entry>, key: Seq<char>)
    requires
        s.to_multiset() == t.to_multiset(),
    ensures
        has_key(s, key) ==> has_key(t, key),
        has_kind(s, key) ==> has_kind(t, key),
{
    if has_key(s, key) {
        let i = choose|i: int| 0 <= i < s.len() && (#[trigger] s[i]).key == key;
        lemma_contains_reordered(s, t, s[i]);
        assert(s.contains(s[i]));
        let j = choose|j: int| 0 <= j < t.len() && t[j] == s[i];
        assert(t[j].key == key);
    }
    if has_kind(s, key) {
        let i = choose|i: int|
            0 <= i < s.len() && (#[trigger] s[i]).key == key && s[i].kind is Some;
        lemma_contains_reordered(s, t, s[i]);
        assert(s.contains(s[i]));
        let j = choose|j: int| 0 <= j < t.len() && t[j] == s[i];
        assert(t[j].key == key && t[j].kind is Some);
    }
}

proof fn lemma_map_reordered<A, B>(s: Seq<A>, t: Seq<A>, f: spec_fn(A) -> B)
    requires
        s.to_multiset() == t.to_multiset(),
    ensures
        s.map_values(f).to_multiset() == t.map_values(f).to_multiset(),
    decreases s.len(),
{
    broadcast use vstd::seq_lib::group_to_multiset_ensures;

    if s.len() == 0 {
        assert(s.to_multiset().len() == s.len());
        assert(t.to_multiset().len() == t.len());
        assert(s.map_values(f) =~= t.map_values(f));
    } else {
        let i = lemma_reordered(s, t);
        lemma_map_reordered(s.drop_last(), t.remove(i), f);
        let (a, b) = (s.map_values(f), t.map_values(f));
        assert(a =~= s.drop_last().map_values(f).push(f(s.last())));
        assert(t.remove(i).map_values(f) =~= b.remove(i));
        assert(b.remove(i).to_multiset() =~= b.to_multiset().remove(b[i]));
        assert(b.contains(b[i]));
        assert(b.to_multiset().count(b[i]) > 0);
        assert(a.to_multiset() =~= b.to_multiset());
    }
}

proof fn lemma_regrouped_under_kind(ops: Seq<Entry>)
    ensures
        all_under_kind(regrouped_all(ops, OpGroupBy::Kind)),
{
    let s = regrouped_all(ops, OpGroupBy::Kind);
    assert forall|i: int| 0 <= i < s.len() implies under_kind(#[trigger] s[i]) by {
        assert(s[i] == regrouped(ops[i], OpGroupBy::Kind));
    }
}

proof fn lemma_rows_apart(rows: Seq<Entry>)
    requires
        forall|i: int, j: int|
            0 <= i < j < rows.len() ==> (#[trigger] rows[i]).key != (#[trigger] rows[j]).key,
    ensures
        rows.no_duplicates(),
        ordered(rows, by_ns_then_name()).no_duplicates(),
        in_one_order(ordered(rows, by_ns_then_name())),
{
    let lt = by_ns_then_name();
    assert(rows.no_duplicates()) by {
        assert forall|i: int, j: int| 0 <= i < rows.len() && 0 <= j < rows.len() && i != j implies
            rows[i] != rows[j] by {
            if i < j {
                assert(rows[i].key != rows[j].key);
            } else {
                assert(rows[j].key != rows[i].key);
            }
        }
    }
    lemma_ordered_no_duplicates(rows, lt);
    let o = ordered(rows, lt);
    assert forall|i: int, j: int|
        0 <= i < o.len() && 0 <= j < o.len() && !lt(#[trigger] o[i], #[trigger] o[j]) && !lt(
            o[j],
            o[i],
        ) implies i == j by {
        lemma_ordered_contains(rows, lt, o[i]);
        lemma_ordered_contains(rows, lt, o[j]);
        assert(o.contains(o[i]) && o.contains(o[j]));
        let a = choose|a: int| 0 <= a < rows.len() && rows[a] == o[i];
        let b = choose|b: int| 0 <= b < rows.len() && rows[b] == o[j];
        text_order_is_total(o[i].key, o[j].key, o[i].key);
        if a < b {
            assert(rows[a].key != rows[b].key);
        } else if b < a {
            assert(rows[b].key != rows[a].key);
        }
    }
}

/// No two rows share a rank.
spec fn in_one_order(o: Seq<Entry>) -> bool {
    let lt = by_ns_then_name();
    forall|i: int, j: int|
        0 <= i < o.len() && 0 <= j < o.len() && !lt(#[trigger] o[i], #[trigger] o[j]) && !lt(
            o[j],
            o[i],
        ) ==> i == j
}

/// The rows of a regrouping are rows of 64-bit numbers exactly where they fit.
proof fn lemma_kind_rows_fit(ops: Seq<Entry>)
    ensures
        kinds_fit(ops) == rows_fit(kind_rows(ops)),
{
    let lt = by_ns_then_name();
    let (t, o) = (tallied(regrouped_all(ops, OpGroupBy::Kind)), kind_rows(ops));
    if rows_fit(t) {
        assert forall|i: int| 0 <= i < o.len() implies (#[trigger] o[i]).gpu_ns <= u64::MAX
            && o[i].count <= u64::MAX by {
            assert(o.contains(o[i]));
            lemma_ordered_contains(t, lt, o[i]);
            let k = choose|k: int| 0 <= k < t.len() && t[k] == o[i];
            assert(t[k].gpu_ns <= u64::MAX);
        }
    }
    if rows_fit(o) {
        assert forall|i: int| 0 <= i < t.len() implies (#[trigger] t[i]).gpu_ns <= u64::MAX
            && t[i].count <= u64::MAX by {
            assert(t.contains(t[i]));
            lemma_ordered_contains(t, lt, t[i]);
            let k = choose|k: int| 0 <= k < o.len() && o[k] == t[i];
            assert(o[k].gpu_ns <= u64::MAX);
        }
    }
}

/// However the kernels are ordered, they can be regrouped or not, and regrouping
/// them gives the same rows.
pub proof fn regrouping_ignores_order(ops: Seq<Entry>, other: Seq<Entry>)
    requires
        ops.to_multiset() == other.to_multiset(),
    ensures
        kinds_fit(ops) == kinds_fit(other),
        kind_rows(ops) == kind_rows(other),
{
    lemma_kind_rows_fit(ops);
    lemma_kind_rows_fit(other);
    let lt = by_ns_then_name();
    let f = |e: Entry| regrouped(e, OpGroupBy::Kind);
    let (s, t) = (regrouped_all(ops, OpGroupBy::Kind), regrouped_all(other, OpGroupBy::Kind));
    lemma_map_reordered(ops, other, f);
    assert(s =~= ops.map_values(f));
    assert(t =~= other.map_values(f));
    lemma_regrouped_under_kind(ops);
    lemma_regrouped_under_kind(other);
    rows_are_sums(s);
    rows_are_sums(t);
    tally_names_are_distinct(s);
    tally_names_are_distinct(t);
    lemma_rows_apart(tallied(s));
    lemma_rows_apart(tallied(t));
    summary_order_is_strict_weak();
    ordered_is_in_order(tallied(s), lt);
    ordered_is_in_order(tallied(t), lt);
    assert forall|x: Entry| kind_rows(ops).contains(x) <==> #[trigger] kind_rows(other).contains(
        x,
    ) by {
        lemma_ordered_contains(tallied(s), lt, x);
        lemma_ordered_contains(tallied(t), lt, x);
        if tallied(s).contains(x) {
            lemma_same_rows(s, t, x);
        }
        if tallied(t).contains(x) {
            lemma_same_rows(t, s, x);
        }
    }
    order_is_unique(kind_rows(ops), kind_rows(other), lt);
}

proof fn lemma_same_rows(s: Seq<Entry>, t: Seq<Entry>, x: Entry)
    requires
        s.to_multiset() == t.to_multiset(),
        all_under_kind(s),
        all_under_kind(t),
        tallied(s).contains(x),
    ensures
        tallied(t).contains(x),
{
    rows_are_sums(s);
    rows_are_sums(t);
    let i = choose|i: int| 0 <= i < tallied(s).len() && tallied(s)[i] == x;
    assert(tallied(s)[i] == row_for(s, x.key));
    lemma_sums_reordered(s, t, x.key);
    lemma_keys_reordered(s, t, x.key);
    lemma_keys_reordered(t, s, x.key);
    assert(has_key(t, x.key));
    assert(row_for(t, x.key) == x);
}

/// Rows under names of their own are not added up any further.
proof fn lemma_tallied_apart(rows: Seq<Entry>)
    requires
        forall|i: int, j: int|
            0 <= i < j < rows.len() ==> (#[trigger] rows[i]).key != (#[trigger] rows[j]).key,
    ensures
        tallied(rows) == rows,
    decreases rows.len(),
{
    if rows.len() == 0 {
        assert(tallied(rows) =~= rows);
    } else {
        let rest = rows.drop_last();
        assert forall|i: int, j: int| 0 <= i < j < rest.len() implies (#[trigger] rest[i]).key != (
        #[trigger] rest[j]).key by {
            assert(rows[i].key != rows[j].key);
        }
        lemma_tallied_apart(rest);
        lemma_row_of(rest, rows.last().key);
        if row_of(rest, rows.last().key) is Some {
            let k = row_of(rest, rows.last().key)->0;
            assert(rows[k].key != rows[rows.len() - 1].key);
        }
        assert(rows =~= rest.push(rows.last()));
    }
}

proof fn lemma_placed_totals(s: Seq<Entry>, x: Entry, lt: spec_fn(Entry, Entry) -> bool)
    ensures
        total_ns(placed(s, x, lt)) == total_ns(s) + x.gpu_ns,
        total_count(placed(s, x, lt)) == total_count(s) + x.count,
    decreases s.len(),
{
    if s.len() == 0 || !lt(x, s.last()) {
        assert(s.push(x).drop_last() =~= s);
    } else {
        lemma_placed_totals(s.drop_last(), x, lt);
        let p = placed(s.drop_last(), x, lt);
        assert(p.push(s.last()).drop_last() =~= p);
    }
}

proof fn lemma_ordered_totals(s: Seq<Entry>, lt: spec_fn(Entry, Entry) -> bool)
    ensures
        total_ns(ordered(s, lt)) == total_ns(s),
        total_count(ordered(s, lt)) == total_count(s),
    decreases s.len(),
{
    if s.len() > 0 {
        lemma_ordered_totals(s.drop_last(), lt);
        lemma_placed_totals(ordered(s.drop_last(), lt), s.last(), lt);
    }
}

/// Regrouping a list of kernels neither loses nor invents time or dispatches. Its
/// rows can be regrouped again, which changes nothing.
pub proof fn regrouping_twice_is_regrouping_once(ops: Seq<Entry>)
    ensures
        kinds_fit(ops) ==> kinds_fit(kind_rows(ops)),
        kind_rows(kind_rows(ops)) == kind_rows(ops),
        total_ns(kind_rows(ops)) == total_ns(ops),
        total_count(kind_rows(ops)) == total_count(ops),
{
    let lt = by_ns_then_name();
    let s = regrouped_all(ops, OpGroupBy::Kind);
    let rows = kind_rows(ops);
    lemma_regrouped_total(ops, OpGroupBy::Kind);
    tally_conserves(s);
    lemma_ordered_totals(tallied(s), lt);
    lemma_regrouped_under_kind(ops);
    rows_are_sums(s);
    tally_names_are_distinct(s);
    lemma_rows_apart(tallied(s));
    summary_order_is_strict_weak();
    ordered_is_in_order(tallied(s), lt);
    assert forall|i: int| 0 <= i < rows.len() implies tallied(s).contains(#[trigger] rows[i]) by {
        lemma_ordered_contains(tallied(s), lt, rows[i]);
        assert(rows.contains(rows[i]));
    }
    assert forall|i: int, j: int| 0 <= i < j < rows.len() implies (#[trigger] rows[i]).key != (
    #[trigger] rows[j]).key by {
        assert(tallied(s).contains(rows[i]) && tallied(s).contains(rows[j]));
        let a = choose|a: int| 0 <= a < tallied(s).len() && tallied(s)[a] == rows[i];
        let b = choose|b: int| 0 <= b < tallied(s).len() && tallied(s)[b] == rows[j];
        assert(rows[i] != rows[j]);
        if a < b {
            assert(tallied(s)[a].key != tallied(s)[b].key);
        } else {
            assert(tallied(s)[b].key != tallied(s)[a].key);
        }
    }
    assert(regrouped_all(rows, OpGroupBy::Kind) =~= rows) by {
        assert forall|i: int| 0 <= i < rows.len() implies regrouped(
            #[trigger] rows[i],
            OpGroupBy::Kind,
        ) == rows[i] by {
            assert(tallied(s).contains(rows[i]));
            let a = choose|a: int| 0 <= a < tallied(s).len() && tallied(s)[a] == rows[i];
            assert(tallied(s)[a] == row_for(s, tallied(s)[a].key));
        }
    }
    lemma_tallied_apart(rows);
    ordered_keeps_order(rows, lt);
    lemma_kind_rows_fit(ops);
}

/// The two trees differ in the rows of their kernels alone, and every node's rows
/// add up to the same time and dispatches.
pub open spec fn same_but_rows(a: Node, b: Node) -> bool
    decreases a,
{
    &&& a.qualname == b.qualname
    &&& a.class_name == b.class_name
    &&& a.calls == b.calls
    &&& a.gpu_ns_self == b.gpu_ns_self
    &&& a.gpu_ns_subtree == b.gpu_ns_subtree
    &&& a.eval_count == b.eval_count
    &&& a.cb_count == b.cb_count
    &&& a.diagnostics == b.diagnostics
    &&& a.fields == b.fields
    &&& total_ns(a.ops) == total_ns(b.ops)
    &&& total_count(a.ops) == total_count(b.ops)
    &&& a.children.len() == b.children.len()
    &&& forall|i: int|
        #![trigger a.children[i]]
        0 <= i < a.children.len() ==> same_but_rows(a.children[i], b.children[i])
}

/// Regrouping a tree by kind changes the rows of kernels alone, and at every depth
/// they add up to what they did. The tree can be regrouped again, which changes
/// nothing.
pub proof fn grouping_a_tree_twice_is_grouping_it_once(n: Node)
    ensures
        ops_fit(n) ==> ops_fit(by_kind(n)),
        same_but_rows(n, by_kind(n)),
        by_kind(by_kind(n)) == by_kind(n),
    decreases n,
{
    let once = by_kind(n);
    let twice = by_kind(once);
    regrouping_twice_is_regrouping_once(n.ops);
    assert forall|i: int|
        #![trigger n.children[i]]
        0 <= i < n.children.len() implies same_but_rows(n.children[i], once.children[i])
        && twice.children[i] == once.children[i] by {
        grouping_a_tree_twice_is_grouping_it_once(n.children[i]);
        assert(once.children[i] == by_kind(n.children[i]));
        assert(twice.children[i] == by_kind(once.children[i]));
    }
    if ops_fit(n) {
        assert forall|i: int|
            #![trigger once.children[i]]
            0 <= i < once.children.len() implies ops_fit(once.children[i]) by {
            grouping_a_tree_twice_is_grouping_it_once(n.children[i]);
            assert(once.children[i] == by_kind(n.children[i]));
        }
    }
    assert(twice.children =~= once.children) by {
        assert forall|i: int| 0 <= i < once.children.len() implies twice.children[i]
            == #[trigger] once.children[i] by {
            let c = n.children[i];
        }
    }
}

} // verus!
