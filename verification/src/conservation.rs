//! No GPU time is lost or counted twice.

use crate::attribution::{
    calls_of, latest, lemma_latest, lemma_scope_is_known, session_of, CallView, Session,
};
use crate::event::Event;
use crate::select::{
    below, class_below, class_sum, is_class, kept, lemma_kept_below, lemma_kept_same,
    lemma_sum_add, lemma_sum_by_class, lemma_sum_plus, lemma_sum_push, lemma_sum_split, sum,
};
use vstd::prelude::*;

verus! {

/// Every call has an id of its own.
pub open spec fn ids_distinct(calls: Seq<CallView>) -> bool {
    forall|i: int, j: int|
        0 <= i < j < calls.len() ==> (#[trigger] calls[i]).id != (#[trigger] calls[j]).id
}

/// Every parent was entered before its children.
pub open spec fn parents_known(calls: Seq<CallView>) -> bool {
    forall|j: int|
        #![trigger calls[j]]
        0 <= j < calls.len() ==> match calls[j].parent {
            Some(p) => latest(calls.take(j), p) is Some,
            None => true,
        }
}

impl Session {
    /// The GPU time of all command buffers.
    pub open spec fn total(self) -> nat {
        self.ns(below(self.cbs.len() as int))
    }

    /// Every owner is a call of the session.
    pub open spec fn owners_known(self) -> bool {
        forall|j: int|
            #![trigger self.owner(j)]
            match self.owner(j) {
                Some(id) => latest(self.calls, id) is Some,
                None => true,
            }
    }

    /// The call that command buffer `j` belongs to, by its position.
    spec fn owner_slot(self) -> spec_fn(int) -> Option<int> {
        |j: int|
            match self.owner(j) {
                Some(id) => latest(self.calls, id),
                None => None,
            }
    }

    spec fn own_time(self) -> spec_fn(int) -> nat {
        |k: int| self.self_ns(k)
    }

    spec fn subtree_time(self) -> spec_fn(int) -> nat {
        |k: int| self.subtree_ns(k)
    }

    /// The position of the parent of call `j`.
    spec fn parent_slot(self) -> spec_fn(int) -> Option<int> {
        |j: int|
            match self.calls[j].parent {
                Some(p) => latest(self.calls.take(j), p),
                None => None,
            }
    }

    /// The calls whose parent was never entered before them.
    spec fn is_orphan(self) -> spec_fn(int) -> bool {
        |j: int| self.calls[j].parent is Some && (self.parent_slot())(j) is None
    }

    proof fn lemma_latest_is_self(self, k: int)
        requires
            ids_distinct(self.calls),
            0 <= k < self.calls.len(),
        ensures
            latest(self.calls, self.calls[k].id) == Some(k),
    {
        lemma_latest(self.calls, self.calls[k].id);
        let m = latest(self.calls, self.calls[k].id)->0;
        if m < k {
            assert(self.calls[m].id != self.calls[k].id);
        } else if k < m {
            assert(self.calls[k].id != self.calls[m].id);
        }
    }

    /// Handing a list of command buffers out to their owners hands out each
    /// once.
    proof fn lemma_list_is_partitioned(self, list: Seq<int>)
        requires
            ids_distinct(self.calls),
            self.owners_known(),
        ensures
            sum(
                below(self.calls.len() as int),
                class_sum(list, self.owner_slot(), self.cb_time()),
            ) + self.ns(kept(list, self.owned_by(None))) == self.ns(list),
    {
        let n = self.calls.len() as int;
        let all = |j: int| true;
        lemma_sum_by_class(list, self.owner_slot(), n, self.cb_time());
        assert forall|j: int| #[trigger] all(j) == (class_below(self.owner_slot(), n)(j)
            || self.owned_by(None)(j)) by {
            match self.owner(j) {
                Some(id) => lemma_latest(self.calls, id),
                None => {},
            }
        }
        assert forall|j: int| !(#[trigger] class_below(self.owner_slot(), n)(j) && self.owned_by(
            None,
        )(j)) by {}
        lemma_sum_split(
            list,
            all,
            class_below(self.owner_slot(), n),
            self.owned_by(None),
            self.cb_time(),
        );
        crate::select::lemma_kept_all(list, all);
    }

    /// Calls and nobody together own all GPU time.
    proof fn lemma_owned_is_all(self)
        requires
            ids_distinct(self.calls),
            self.owners_known(),
        ensures
            sum(below(self.calls.len() as int), self.own_time()) + self.unscoped_ns()
                == self.total(),
    {
        let n = self.calls.len() as int;
        let a = class_sum(self.covered(), self.owner_slot(), self.cb_time());
        let b = class_sum(self.uncovered(), self.owner_slot(), self.cb_time());
        self.lemma_list_is_partitioned(self.covered());
        self.lemma_list_is_partitioned(self.uncovered());
        self.covered_and_uncovered_are_all(self.cb_time());
        assert forall|i: int| 0 <= i < below(n).len() implies self.own_time()(#[trigger] below(n)[i])
            == a(below(n)[i]) + b(below(n)[i]) by {
            let k = below(n)[i];
            let id = self.calls[k].id;
            self.lemma_latest_is_self(k);
            assert forall|j: int| #[trigger] self.owned_by(Some(id))(j) == is_class(
                self.owner_slot(),
                k,
            )(j) by {
                if let Some(x) = self.owner(j) {
                    lemma_latest(self.calls, x);
                }
            }
            lemma_kept_same(
                self.covered(),
                self.owned_by(Some(id)),
                is_class(self.owner_slot(), k),
            );
            lemma_kept_same(
                self.uncovered(),
                self.owned_by(Some(id)),
                is_class(self.owner_slot(), k),
            );
            lemma_sum_add(
                kept(self.covered(), self.owned_by(Some(id))),
                kept(self.uncovered(), self.owned_by(Some(id))),
                self.cb_time(),
            );
        }
        lemma_sum_plus(below(n), a, b, self.own_time());
    }

    /// Adding up subtrees is adding up a list.
    proof fn lemma_subtrees_are_sum(self, k: int, list: Seq<int>, n: int)
        requires
            0 <= n <= list.len(),
            forall|i: int| 0 <= i < list.len() ==> k < #[trigger] list[i] < self.calls.len(),
        ensures
            self.subtrees_ns(k, list, n) == sum(list.take(n), self.subtree_time()),
        decreases n,
    {
        if n > 0 {
            self.lemma_subtrees_are_sum(k, list, n - 1);
            assert(list.take(n) =~= list.take(n - 1).push(list[n - 1]));
            lemma_sum_push(list.take(n - 1), list[n - 1], self.subtree_time());
        } else {
            assert(list.take(0) =~= Seq::<int>::empty());
        }
    }

    /// The children of a call are the calls whose parent it is.
    proof fn lemma_children(self, k: int, n: int)
        requires
            ids_distinct(self.calls),
            0 <= n <= self.calls.len(),
        ensures
            self.kids(k, n).map_values(|id: u64| latest(self.calls, id)->0) == kept(
                below(n),
                is_class(self.parent_slot(), k),
            ),
            forall|i: int|
                0 <= i < kept(below(n), is_class(self.parent_slot(), k)).len() ==> k
                    < #[trigger] kept(below(n), is_class(self.parent_slot(), k))[i] < n,
        decreases n,
    {
        let f = |id: u64| latest(self.calls, id)->0;
        let p = is_class(self.parent_slot(), k);
        if n > 0 {
            self.lemma_children(k, n - 1);
            lemma_kept_below(n - 1, p);
            self.lemma_latest_is_self(n - 1);
            if let Some(id) = self.calls[n - 1].parent {
                lemma_latest(self.calls.take(n - 1), id);
            }
            let rest = self.kids(k, n - 1);
            assert(rest.push(self.calls[n - 1].id).map_values(f) =~= rest.map_values(f).push(n - 1));
        } else {
            assert(below(0) =~= Seq::<int>::empty());
            assert(self.kids(k, 0).map_values(f) =~= Seq::<int>::empty());
        }
    }

    /// The time below a call is that of the calls whose parent it is.
    proof fn lemma_below_call(self, k: int)
        requires
            ids_distinct(self.calls),
        ensures
            self.subtrees_ns(k, self.children(k), self.children(k).len() as int) == class_sum(
                below(self.calls.len() as int),
                self.parent_slot(),
                self.subtree_time(),
            )(k),
    {
        let n = self.calls.len() as int;
        let list = self.children(k);
        self.lemma_children(k, n);
        self.lemma_subtrees_are_sum(k, list, list.len() as int);
        assert(list.take(list.len() as int) =~= list);
    }

    /// Roots and orphans together hold what all calls own.
    proof fn lemma_forest_holds_all(self)
        requires
            ids_distinct(self.calls),
        ensures
            self.subtrees_ns(-1, self.roots(), self.roots().len() as int) + sum(
                kept(below(self.calls.len() as int), self.is_orphan()),
                self.subtree_time(),
            ) == sum(below(self.calls.len() as int), self.own_time()),
    {
        let n = self.calls.len() as int;
        let all = below(n);
        let t = self.subtree_time();
        let ps = self.parent_slot();
        let children = class_sum(all, ps, t);
        // Each call is itself plus its children.
        assert forall|i: int| 0 <= i < all.len() implies t(#[trigger] all[i]) == self.own_time()(
            all[i],
        ) + children(all[i]) by {
            self.lemma_below_call(all[i]);
        }
        lemma_sum_plus(all, self.own_time(), children, t);
        lemma_sum_by_class(all, ps, n, t);
        // Each call is a root, an orphan or a child.
        let every = |j: int| true;
        let rootless = |j: int| self.calls[j].parent is Some;
        let root = |j: int| self.calls[j].parent is None;
        let child = |j: int| self.calls[j].parent is Some && ps(j) is Some;
        lemma_sum_split(all, every, root, rootless, t);
        lemma_sum_split(all, rootless, child, self.is_orphan(), t);
        crate::select::lemma_kept_all(all, every);
        assert forall|i: int| 0 <= i < all.len() implies root(#[trigger] all[i]) == self.is_root()(
            all[i],
        ) by {
            self.lemma_latest_is_self(all[i]);
        }
        lemma_kept_same(all, root, self.is_root());
        assert forall|i: int| 0 <= i < all.len() implies child(#[trigger] all[i]) == class_below(
            ps,
            n,
        )(all[i]) by {
            if let Some(p) = self.calls[all[i]].parent {
                lemma_latest(self.calls.take(all[i]), p);
            }
        }
        lemma_kept_same(all, child, class_below(ps, n));
        crate::select::lemma_kept_holds(all, self.is_root());
        let roots = self.roots();
        assert forall|i: int| 0 <= i < roots.len() implies -1 < #[trigger] roots[i] < n by {
            assert(all.contains(roots[i]));
        }
        self.lemma_subtrees_are_sum(-1, roots, roots.len() as int);
        assert(roots.take(roots.len() as int) =~= roots);
    }
}

proof fn lemma_owners_known(events: Seq<Event>)
    ensures
        session_of(events).owners_known(),
{
    let s = session_of(events);
    assert forall|j: int|
        #![trigger s.owner(j)]
        match s.owner(j) {
            Some(id) => latest(s.calls, id) is Some,
            None => true,
        } by {
        if s.eval_for(j) is None {
            if let Some(w) = crate::windows::innermost(s.scopes, s.cbs[j].commit_ts) {
                crate::windows::last_covering_is_last(
                    crate::windows::scope_spans(s.scopes),
                    s.cbs[j].commit_ts,
                );
                lemma_scope_is_known(events, w);
            }
        }
    }
}

/// The tree holds the GPU time of every command buffer exactly once: where
/// every call has its own id and was entered after its parent, the total of
/// the tree is the total of the command buffers.
pub proof fn gpu_time_is_conserved(events: Seq<Event>)
    requires
        ids_distinct(calls_of(events)),
        parents_known(calls_of(events)),
    ensures
        session_of(events).grand_total() == session_of(events).total(),
{
    let s = session_of(events);
    let n = s.calls.len() as int;
    lemma_owners_known(events);
    s.lemma_owned_is_all();
    s.lemma_forest_holds_all();
    assert forall|i: int| 0 <= i < below(n).len() implies !s.is_orphan()(
        #[trigger] below(n)[i],
    ) by {
        assert(s.calls[below(n)[i]] == calls_of(events)[i]);
    }
    crate::select::lemma_kept_none(below(n), s.is_orphan());
}

/// A call that names a parent never entered hides its time, but nothing is
/// ever counted twice: where every call has its own id, the total of the tree
/// is at most the total of the command buffers.
pub proof fn gpu_time_is_never_counted_twice(events: Seq<Event>)
    requires
        ids_distinct(calls_of(events)),
    ensures
        session_of(events).grand_total() <= session_of(events).total(),
{
    let s = session_of(events);
    lemma_owners_known(events);
    s.lemma_owned_is_all();
    s.lemma_forest_holds_all();
}

} // verus!
