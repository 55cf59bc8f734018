//! What a node of the tree holds: exactly what the command buffers of its call do.

use crate::attribution::{latest, lemma_latest, op_entries, session_of, Session};
use crate::breakdown::{by_ns, op_table, root_of, with_kind};
use crate::event::{Event, OpView};
use crate::regrouping::{keyed_count, keyed_ns};
use crate::select::{below, kept, lemma_sum_add, sum};
use crate::sort::{lemma_ordered_contains, ordered, placed};
use crate::tally::{
    booked, lemma_row_of, merged, row_of, tallied, tally_names_are_distinct, total_count, total_ns,
    Entry,
};
use crate::tree::{everywhere, kernels_apart, kernels_are_own_time};
use crate::windows::{
    eval_spans, graced, innermost, last_covering, last_covering_is_last, scope_spans,
};
use vstd::prelude::*;

verus! {

/// The GPU time of the kernels of a command buffer under a name.
pub open spec fn named_ns(ops: Option<Seq<OpView>>, name: Seq<char>) -> nat
    decreases
            match ops {
                Some(o) => o.len(),
                None => 0,
            },
{
    match ops {
        Some(o) => if o.len() == 0 {
            0
        } else {
            named_ns(Some(o.drop_last()), name) + if o.last().name == name {
                o.last().gpu_ns
            } else {
                0
            }
        },
        None => 0,
    }
}

/// The dispatches of the kernels of a command buffer under a name.
pub open spec fn named_count(ops: Option<Seq<OpView>>, name: Seq<char>) -> nat
    decreases
            match ops {
                Some(o) => o.len(),
                None => 0,
            },
{
    match ops {
        Some(o) => if o.len() == 0 {
            0
        } else {
            named_count(Some(o.drop_last()), name) + if o.last().name == name {
                o.last().count
            } else {
                0
            }
        },
        None => 0,
    }
}

/// The GPU time of all kernels of a command buffer.
pub open spec fn all_ns(ops: Seq<OpView>) -> nat
    decreases ops.len(),
{
    if ops.len() == 0 {
        0
    } else {
        all_ns(ops.drop_last()) + ops.last().gpu_ns
    }
}

proof fn lemma_keyed_add(a: Seq<Entry>, b: Seq<Entry>, key: Seq<char>)
    ensures
        keyed_ns(a + b, key) == keyed_ns(a, key) + keyed_ns(b, key),
        keyed_count(a + b, key) == keyed_count(a, key) + keyed_count(b, key),
    decreases b.len(),
{
    if b.len() == 0 {
        assert(a + b =~= a);
    } else {
        lemma_keyed_add(a, b.drop_last(), key);
        assert((a + b).drop_last() =~= a + b.drop_last());
    }
}

/// What one entry holds under a key.
spec fn at_key(e: Entry, key: Seq<char>) -> (nat, nat) {
    if e.key == key {
        (e.gpu_ns, e.count)
    } else {
        (0, 0)
    }
}

proof fn lemma_keyed_update(s: Seq<Entry>, i: int, e: Entry, key: Seq<char>)
    requires
        0 <= i < s.len(),
    ensures
        keyed_ns(s.update(i, e), key) + at_key(s[i], key).0 == keyed_ns(s, key) + at_key(e, key).0,
        keyed_count(s.update(i, e), key) + at_key(s[i], key).1 == keyed_count(s, key) + at_key(
            e,
            key,
        ).1,
    decreases s.len(),
{
    let t = s.update(i, e);
    if i == s.len() - 1 {
        assert(t.drop_last() =~= s.drop_last());
    } else {
        lemma_keyed_update(s.drop_last(), i, e, key);
        assert(t.drop_last() =~= s.drop_last().update(i, e));
    }
}

/// A tally holds under each name exactly what was booked under it.
pub proof fn tally_keeps_every_name(s: Seq<Entry>, key: Seq<char>)
    ensures
        keyed_ns(tallied(s), key) == keyed_ns(s, key),
        keyed_count(tallied(s), key) == keyed_count(s, key),
    decreases s.len(),
{
    if s.len() > 0 {
        let rest = s.drop_last();
        let rows = tallied(rest);
        let e = s.last();
        tally_keeps_every_name(rest, key);
        lemma_row_of(rows, e.key);
        match row_of(rows, e.key) {
            Some(i) => lemma_keyed_update(rows, i, merged(rows[i], e), key),
            None => assert(rows.push(e).drop_last() =~= rows),
        }
    }
}

proof fn lemma_keyed_placed(s: Seq<Entry>, x: Entry, lt: spec_fn(Entry, Entry) -> bool, key: Seq<
    char,
>)
    ensures
        keyed_ns(placed(s, x, lt), key) == keyed_ns(s, key) + at_key(x, key).0,
        keyed_count(placed(s, x, lt), key) == keyed_count(s, key) + at_key(x, key).1,
        total_ns(placed(s, x, lt)) == total_ns(s) + x.gpu_ns,
        total_count(placed(s, x, lt)) == total_count(s) + x.count,
    decreases s.len(),
{
    if s.len() == 0 || !lt(x, s.last()) {
        assert(s.push(x).drop_last() =~= s);
    } else {
        lemma_keyed_placed(s.drop_last(), x, lt, key);
        let p = placed(s.drop_last(), x, lt);
        assert(p.push(s.last()).drop_last() =~= p);
    }
}

/// Sorting rows keeps what stands under each name, and the totals.
pub proof fn lemma_keyed_ordered(s: Seq<Entry>, lt: spec_fn(Entry, Entry) -> bool, key: Seq<char>)
    ensures
        keyed_ns(ordered(s, lt), key) == keyed_ns(s, key),
        keyed_count(ordered(s, lt), key) == keyed_count(s, key),
        total_ns(ordered(s, lt)) == total_ns(s),
        total_count(ordered(s, lt)) == total_count(s),
    decreases s.len(),
{
    if s.len() > 0 {
        lemma_keyed_ordered(s.drop_last(), lt, key);
        lemma_keyed_placed(ordered(s.drop_last(), lt), s.last(), lt, key);
    }
}

proof fn lemma_keyed_with_kind(s: Seq<Entry>, key: Seq<char>)
    ensures
        keyed_ns(s.map_values(|e: Entry| with_kind(e)), key) == keyed_ns(s, key),
        keyed_count(s.map_values(|e: Entry| with_kind(e)), key) == keyed_count(s, key),
        total_ns(s.map_values(|e: Entry| with_kind(e))) == total_ns(s),
        total_count(s.map_values(|e: Entry| with_kind(e))) == total_count(s),
    decreases s.len(),
{
    let f = |e: Entry| with_kind(e);
    if s.len() > 0 {
        lemma_keyed_with_kind(s.drop_last(), key);
        assert(s.map_values(f).drop_last() =~= s.drop_last().map_values(f));
    }
}

/// A table of kernels holds under each name what its entries do, and all of it.
proof fn lemma_table(entries: Seq<Entry>, key: Seq<char>)
    ensures
        keyed_ns(op_table(entries), key) == keyed_ns(entries, key),
        keyed_count(op_table(entries), key) == keyed_count(entries, key),
        total_ns(op_table(entries)) == total_ns(entries),
        total_count(op_table(entries)) == total_count(entries),
{
    let rows = tallied(entries);
    tally_keeps_every_name(entries, key);
    crate::tally::tally_conserves(entries);
    lemma_keyed_with_kind(rows, key);
    lemma_keyed_ordered(rows.map_values(|e: Entry| with_kind(e)), by_ns(), key);
}

proof fn lemma_op_entries(ops: Option<Seq<OpView>>, name: Seq<char>)
    ensures
        keyed_ns(op_entries(ops), name) == named_ns(ops, name),
        keyed_count(op_entries(ops), name) == named_count(ops, name),
        ops matches Some(o) ==> total_ns(op_entries(ops)) == all_ns(o),
        ops is None ==> op_entries(ops).len() == 0,
    decreases
            match ops {
                Some(o) => o.len(),
                None => 0,
            },
{
    if let Some(o) = ops {
        if o.len() > 0 {
            lemma_op_entries(Some(o.drop_last()), name);
            assert(op_entries(ops).drop_last() =~= op_entries(Some(o.drop_last())));
        }
    }
}

/// The time of a command buffer is that of its kernels. One without kernels takes
/// its time in flight where nothing at all was sampled, and none otherwise.
pub proof fn buffer_time_is_kernel_time(s: Session, j: int)
    ensures
        s.cb_time()(j) == match s.cbs[j].ops {
            Some(ops) => all_ns(ops),
            None => if s.sampled {
                0
            } else {
                s.cbs[j].in_flight_ns
            },
        },
{
    if let Some(ops) = s.cbs[j].ops {
        lemma_all_ns(ops);
    }
}

proof fn lemma_all_ns(ops: Seq<OpView>)
    ensures
        all_ns(ops) == crate::event::ops_ns(ops),
    decreases ops.len(),
{
    if ops.len() > 0 {
        lemma_all_ns(ops.drop_last());
    }
}

proof fn lemma_sum_kept(s: Seq<int>, p: spec_fn(int) -> bool, f: spec_fn(int) -> nat, g: spec_fn(
    int,
) -> nat)
    requires
        forall|j: int| #[trigger]
            g(j) == if p(j) {
                f(j)
            } else {
                0
            },
    ensures
        sum(kept(s, p), f) == sum(s, g),
    decreases s.len(),
{
    if s.len() > 0 {
        lemma_sum_kept(s.drop_last(), p, f, g);
        let x = s.last();
        assert(g(x) == if p(x) {
            f(x)
        } else {
            0
        });
        if p(x) {
            assert(kept(s, p).drop_last() =~= kept(s.drop_last(), p));
        }
    }
}

/// Only what belongs to `id`, or to nobody.
pub open spec fn only_of(s: Session, id: Option<u64>, f: spec_fn(int) -> nat) -> spec_fn(
    int,
) -> nat {
    |j: int|
        if s.owner(j) == id {
            f(j)
        } else {
            0
        }
}

impl Session {
    /// What the command buffers of one owner add up to.
    proof fn lemma_owned_sum(self, id: Option<u64>, f: spec_fn(int) -> nat)
        ensures
            sum(kept(self.covered(), self.owned_by(id)), f) + sum(
                kept(self.uncovered(), self.owned_by(id)),
                f,
            ) == sum(below(self.cbs.len() as int), only_of(self, id, f)),
    {
        let g = only_of(self, id, f);
        lemma_sum_kept(self.covered(), self.owned_by(id), f, g);
        lemma_sum_kept(self.uncovered(), self.owned_by(id), f, g);
        self.covered_and_uncovered_are_all(g);
    }

    proof fn lemma_entries_keyed(self, list: Seq<int>, name: Seq<char>)
        ensures
            keyed_ns(self.entries(list), name) == sum(
                list,
                |j: int| named_ns(self.cbs[j].ops, name),
            ),
            keyed_count(self.entries(list), name) == sum(
                list,
                |j: int| named_count(self.cbs[j].ops, name),
            ),
            self.sampled ==> total_ns(self.entries(list)) == self.ns(list),
        decreases list.len(),
    {
        if list.len() > 0 {
            self.lemma_entries_keyed(list.drop_last(), name);
            let j = list.last();
            let a = self.entries(list.drop_last());
            let b = op_entries(self.cbs[j].ops);
            lemma_keyed_add(a, b, name);
            crate::attribution::lemma_total_add(a, b);
            lemma_op_entries(self.cbs[j].ops, name);
            buffer_time_is_kernel_time(self, j);
        }
    }
}

proof fn lemma_sum_ones(s: Seq<int>)
    ensures
        sum(s, |j: int| 1) == s.len(),
    decreases s.len(),
{
    if s.len() > 0 {
        lemma_sum_ones(s.drop_last());
    }
}

/// A call takes itself the time of exactly the command buffers that belong to it,
/// and counts them.
pub proof fn calls_take_the_time_of_their_buffers(events: Seq<Event>, k: int)
    ensures
        ({
            let s = session_of(events);
            let n = s.cbs.len() as int;
            let id = Some(s.calls[k].id);
            &&& s.node(k).gpu_ns_self == sum(below(n), only_of(s, id, s.cb_time()))
            &&& s.node(k).cb_count == sum(below(n), only_of(s, id, |j: int| 1))
        }),
{
    let s = session_of(events);
    let id = Some(s.calls[k].id);
    let a = kept(s.covered(), s.owned_by(id));
    let b = kept(s.uncovered(), s.owned_by(id));
    s.lemma_owned_sum(id, s.cb_time());
    lemma_sum_add(a, b, s.cb_time());
    s.lemma_owned_sum(id, |j: int| 1);
    lemma_sum_ones(a);
    lemma_sum_ones(b);
}

/// Under each name a call shows the kernels of exactly the command buffers that
/// belong to it.
pub proof fn calls_show_the_kernels_of_their_buffers(events: Seq<Event>, k: int, name: Seq<char>)
    ensures
        ({
            let s = session_of(events);
            let n = s.cbs.len() as int;
            let id = Some(s.calls[k].id);
            &&& keyed_ns(s.node(k).ops, name) == sum(
                below(n),
                only_of(s, id, |j: int| named_ns(s.cbs[j].ops, name)),
            )
            &&& keyed_count(s.node(k).ops, name) == sum(
                below(n),
                only_of(s, id, |j: int| named_count(s.cbs[j].ops, name)),
            )
        }),
{
    let s = session_of(events);
    let id = Some(s.calls[k].id);
    let a = kept(s.covered(), s.owned_by(id));
    let b = kept(s.uncovered(), s.owned_by(id));
    let f = |j: int| named_ns(s.cbs[j].ops, name);
    let g = |j: int| named_count(s.cbs[j].ops, name);
    lemma_table(s.entries(a + b), name);
    s.lemma_entries_keyed(a + b, name);
    lemma_sum_add(a, b, f);
    lemma_sum_add(a, b, g);
    s.lemma_owned_sum(id, f);
    s.lemma_owned_sum(id, g);
}

/// The unscoped node takes the time and shows the kernels of exactly the command
/// buffers that belong to nobody, and the root tells that time.
pub proof fn unscoped_time_is_that_of_nobodys_buffers(events: Seq<Event>, name: Seq<char>)
    ensures
        ({
            let s = session_of(events);
            let n = s.cbs.len() as int;
            let u = s.unscoped_node();
            &&& u.gpu_ns_self == sum(below(n), only_of(s, None, s.cb_time()))
            &&& u.gpu_ns_subtree == u.gpu_ns_self
            &&& u.cb_count == sum(below(n), only_of(s, None, |j: int| 1))
            &&& keyed_ns(u.ops, name) == sum(
                below(n),
                only_of(s, None, |j: int| named_ns(s.cbs[j].ops, name)),
            )
            &&& keyed_count(u.ops, name) == sum(
                below(n),
                only_of(s, None, |j: int| named_count(s.cbs[j].ops, name)),
            )
            &&& u.gpu_ns_self <= u64::MAX ==> root_of(events).diagnostics->0.unscoped_gpu_ns
                == u.gpu_ns_self
        }),
{
    let s = session_of(events);
    let a = s.cbs_of_nobody();
    let b = s.cbs_unmatched();
    let f = |j: int| named_ns(s.cbs[j].ops, name);
    let g = |j: int| named_count(s.cbs[j].ops, name);
    s.lemma_owned_sum(None, s.cb_time());
    s.lemma_owned_sum(None, |j: int| 1);
    lemma_sum_ones(a);
    lemma_sum_ones(b);
    lemma_table(s.entries(b + a), name);
    s.lemma_entries_keyed(b + a, name);
    lemma_sum_add(b, a, f);
    lemma_sum_add(b, a, g);
    s.lemma_owned_sum(None, f);
    s.lemma_owned_sum(None, g);
}

/// Where kernels were sampled, the kernels of every node take together what the
/// node takes itself.
pub proof fn kernels_take_the_time_of_their_node(events: Seq<Event>)
    requires
        session_of(events).sampled,
    ensures
        everywhere(root_of(events), kernels_are_own_time()),
{
    let s = session_of(events);
    let p = kernels_are_own_time();
    assert forall|k: int| 0 <= k < s.calls.len() implies p(#[trigger] s.node(k)) by {
        let list = s.cbs_owned(s.calls[k].id);
        lemma_table(s.entries(list), seq![]);
        s.lemma_entries_keyed(list, seq![]);
    }
    let (a, b) = (s.cbs_unmatched(), s.cbs_of_nobody());
    lemma_table(s.entries(a + b), seq![]);
    s.lemma_entries_keyed(a + b, seq![]);
    lemma_sum_add(a, b, s.cb_time());
    s.lemma_everywhere_below_top(p);
}

/// No node shows two rows under one kernel name.
pub proof fn kernels_have_one_row_each(events: Seq<Event>)
    ensures
        everywhere(root_of(events), kernels_apart()),
{
    let s = session_of(events);
    let p = kernels_apart();
    assert forall|k: int| 0 <= k < s.calls.len() implies p(#[trigger] s.node(k)) by {
        lemma_table_apart(s.entries(s.cbs_owned(s.calls[k].id)));
    }
    lemma_table_apart(s.entries(s.cbs_unscoped()));
    s.lemma_everywhere_below_top(p);
}

proof fn lemma_table_apart(entries: Seq<Entry>)
    ensures
        forall|i: int, j: int|
            0 <= i < j < op_table(entries).len() ==> (#[trigger] op_table(entries)[i]).key != (
            #[trigger] op_table(entries)[j]).key,
{
    let rows = tallied(entries);
    let f = |e: Entry| with_kind(e);
    let t = rows.map_values(f);
    let o = op_table(entries);
    tally_names_are_distinct(entries);
    assert(t.no_duplicates()) by {
        assert forall|i: int, j: int| 0 <= i < t.len() && 0 <= j < t.len() && i != j implies t[i]
            != t[j] by {
            if i < j {
                assert(rows[i].key != rows[j].key);
            } else {
                assert(rows[j].key != rows[i].key);
            }
        }
    }
    crate::sort::lemma_ordered_no_duplicates(t, by_ns());
    assert forall|i: int, j: int| 0 <= i < j < o.len() implies (#[trigger] o[i]).key != (
    #[trigger] o[j]).key by {
        assert(o.contains(o[i]) && o.contains(o[j]));
        lemma_ordered_contains(t, by_ns(), o[i]);
        lemma_ordered_contains(t, by_ns(), o[j]);
        let a = choose|a: int| 0 <= a < t.len() && t[a] == o[i];
        let b = choose|b: int| 0 <= b < t.len() && t[b] == o[j];
        assert(o[i] != o[j]);
        if a < b {
            assert(rows[a].key != rows[b].key);
        } else {
            assert(rows[b].key != rows[a].key);
        }
    }
}

/// A command buffer that commits within an eval belongs to the innermost module of
/// the latest such eval, or to nobody where that module is unknown. One that no
/// eval covers belongs to the module that was entered last among those open at the
/// commit, or closed within the grace before it, and to nobody where there is none.
pub proof fn buffers_belong_to_what_was_open(s: Session, j: int)
    ensures
        ({
            let ts = s.cbs[j].commit_ts;
            let in_eval = |i: int| 0 <= i < s.evals.len() && s.evals[i].t_in <= ts <= s.evals[i].t_out;
            let in_scope = |w: int|
                0 <= w < s.scopes.len() && s.scopes[w].t_in <= ts <= graced(s.scopes[w].t_out);
            &&& forall|i: int|
                #![trigger s.evals[i]]
                in_eval(i) && (forall|m: int| i < m ==> !#[trigger] in_eval(m)) ==> {
                    let stack = s.evals[i].module_stack;
                    s.owner(j) == if stack.len() > 0 && exists|c: int|
                        0 <= c < s.calls.len() && (#[trigger] s.calls[c]).id == stack[stack.len()
                            - 1] {
                        Some(stack[stack.len() - 1])
                    } else {
                        None
                    }
                }
            &&& (forall|i: int| !#[trigger] in_eval(i)) ==> {
                &&& forall|w: int|
                    #![trigger s.scopes[w]]
                    in_scope(w) && (forall|m: int| w < m ==> !#[trigger] in_scope(m)) ==> s.owner(j)
                        == Some(s.scopes[w].call_id)
                &&& (forall|w: int| !#[trigger] in_scope(w)) ==> s.owner(j) is None
            }
        }),
{
    let ts = s.cbs[j].commit_ts;
    let in_eval = |i: int| 0 <= i < s.evals.len() && s.evals[i].t_in <= ts <= s.evals[i].t_out;
    let in_scope = |w: int|
        0 <= w < s.scopes.len() && s.scopes[w].t_in <= ts <= graced(s.scopes[w].t_out);
    let e = eval_spans(s.evals);
    let c = scope_spans(s.scopes);
    last_covering_is_last(e, ts);
    last_covering_is_last(c, ts);
    assert forall|i: int|
        #![trigger s.evals[i]]
        in_eval(i) && (forall|m: int| i < m ==> !#[trigger] in_eval(m)) implies {
        let stack = s.evals[i].module_stack;
        s.owner(j) == if stack.len() > 0 && exists|c: int|
            0 <= c < s.calls.len() && (#[trigger] s.calls[c]).id == stack[stack.len() - 1] {
            Some(stack[stack.len() - 1])
        } else {
            None
        }
    } by {
        assert(e[i].0 <= ts <= e[i].1);
        let m = last_covering(e, ts)->0;
        if m > i {
            assert(in_eval(m));
        }
        assert(s.eval_for(j) == Some(i));
        let stack = s.evals[i].module_stack;
        if stack.len() > 0 {
            lemma_latest(s.calls, stack.last());
        }
    }
    if forall|i: int| !#[trigger] in_eval(i) {
        if let Some(m) = last_covering(e, ts) {
            assert(in_eval(m));
        }
        assert forall|w: int|
            #![trigger s.scopes[w]]
            in_scope(w) && (forall|m: int| w < m ==> !#[trigger] in_scope(m)) implies s.owner(j)
            == Some(s.scopes[w].call_id) by {
            assert(c[w].0 <= ts <= c[w].1);
            let m = last_covering(c, ts)->0;
            if m > w {
                assert(in_scope(m));
            }
        }
        if forall|w: int| !#[trigger] in_scope(w) {
            if let Some(m) = last_covering(c, ts) {
                assert(in_scope(m));
            }
        }
    }
}

} // verus!
