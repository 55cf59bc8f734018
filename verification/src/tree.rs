//! What holds at every node of a breakdown.

use crate::attribution::{
    calls_of, field_views, latest, lemma_latest, session_of, Session,
};
use crate::breakdown::{by_ns, by_subtree, root_of, with_kind, Node, UNSCOPED};
use crate::conservation::{gpu_time_is_conserved, ids_distinct, parents_known};
use crate::event::Event;
use crate::pairing::entries;
use crate::select::{below, kept};
use crate::sort::{lemma_ordered_contains, ordered, ordered_is_in_order, ordered_is_permutation,
    placed};
use crate::tally::{tallied, total_ns, Entry};
use vstd::prelude::*;

verus! {

/// What the nodes of a list add up to.
pub open spec fn list_sum(s: Seq<Node>, f: spec_fn(Node) -> nat) -> nat
    decreases s.len(),
{
    if s.len() == 0 {
        0
    } else {
        list_sum(s.drop_last(), f) + f(s.last())
    }
}

/// What a node and all nodes below it add up to.
pub open spec fn tree_sum(n: Node, f: spec_fn(Node) -> nat) -> nat
    decreases n, n.children.len() + 1,
{
    f(n) + children_sum(n, n.children.len() as int, f)
}

/// What the first `k` children of a node and all nodes below them add up to.
pub open spec fn children_sum(n: Node, k: int, f: spec_fn(Node) -> nat) -> nat
    decreases n, k,
{
    if k <= 0 || k > n.children.len() {
        0
    } else {
        children_sum(n, k - 1, f) + tree_sum(n.children[k - 1], f)
    }
}

/// `p` holds of a node and of all nodes below it.
pub open spec fn everywhere(n: Node, p: spec_fn(Node) -> bool) -> bool
    decreases n,
{
    &&& p(n)
    &&& forall|i: int|
        #![trigger n.children[i]]
        0 <= i < n.children.len() ==> everywhere(n.children[i], p)
}

/// The GPU time of a node's subtree.
pub open spec fn subtree() -> spec_fn(Node) -> nat {
    |n: Node| n.gpu_ns_subtree
}

/// The GPU time of a node itself.
pub open spec fn own() -> spec_fn(Node) -> nat {
    |n: Node| n.gpu_ns_self
}

/// A subtree takes what its node takes itself and what its children's subtrees
/// take.
pub open spec fn adds_up() -> spec_fn(Node) -> bool {
    |n: Node| n.gpu_ns_subtree == n.gpu_ns_self + list_sum(n.children, subtree())
}

/// Of two children the one with the larger subtree comes first, and of two
/// kernels the longer one.
pub open spec fn sorted() -> spec_fn(Node) -> bool {
    |n: Node|
        {
            &&& forall|i: int, j: int|
                0 <= i < j < n.children.len() ==> (#[trigger] n.children[i]).gpu_ns_subtree >= (
                #[trigger] n.children[j]).gpu_ns_subtree
            &&& forall|i: int, j: int|
                0 <= i < j < n.ops.len() ==> (#[trigger] n.ops[i]).gpu_ns >= (
                #[trigger] n.ops[j]).gpu_ns
        }
}

/// No kernel has two rows.
pub open spec fn kernels_apart() -> spec_fn(Node) -> bool {
    |n: Node|
        forall|i: int, j: int|
            0 <= i < j < n.ops.len() ==> (#[trigger] n.ops[i]).key != (#[trigger] n.ops[j]).key
}

/// The kernels of a node take the time that the node takes itself.
pub open spec fn kernels_are_own_time() -> spec_fn(Node) -> bool {
    |n: Node| total_ns(n.ops) == n.gpu_ns_self
}

proof fn lemma_list_placed(s: Seq<Node>, x: Node, lt: spec_fn(Node, Node) -> bool, f: spec_fn(
    Node,
) -> nat)
    ensures
        list_sum(placed(s, x, lt), f) == list_sum(s, f) + f(x),
    decreases s.len(),
{
    if s.len() == 0 || !lt(x, s.last()) {
        assert(s.push(x).drop_last() =~= s);
    } else {
        lemma_list_placed(s.drop_last(), x, lt, f);
        let p = placed(s.drop_last(), x, lt);
        assert(p.push(s.last()).drop_last() =~= p);
    }
}

/// Sorting keeps sums.
pub proof fn lemma_list_ordered(s: Seq<Node>, lt: spec_fn(Node, Node) -> bool, f: spec_fn(
    Node,
) -> nat)
    ensures
        list_sum(ordered(s, lt), f) == list_sum(s, f),
    decreases s.len(),
{
    if s.len() > 0 {
        lemma_list_ordered(s.drop_last(), lt, f);
        lemma_list_placed(ordered(s.drop_last(), lt), s.last(), lt, f);
    }
}

/// The children of a node, each with what is below it, as a list.
proof fn lemma_children_are_list(n: Node, k: int, f: spec_fn(Node) -> nat)
    requires
        0 <= k <= n.children.len(),
    ensures
        children_sum(n, k, f) == list_sum(n.children.take(k), |c: Node| tree_sum(c, f)),
    decreases k,
{
    if k > 0 {
        lemma_children_are_list(n, k - 1, f);
        assert(n.children.take(k).drop_last() =~= n.children.take(k - 1));
    }
}

proof fn lemma_tree_sum(n: Node, f: spec_fn(Node) -> nat)
    ensures
        tree_sum(n, f) == f(n) + list_sum(n.children, |c: Node| tree_sum(c, f)),
{
    lemma_children_are_list(n, n.children.len() as int, f);
    assert(n.children.take(n.children.len() as int) =~= n.children);
}

proof fn lemma_list_same(s: Seq<Node>, f: spec_fn(Node) -> nat, g: spec_fn(Node) -> nat)
    requires
        forall|i: int| 0 <= i < s.len() ==> f(#[trigger] s[i]) == g(s[i]),
    ensures
        list_sum(s, f) == list_sum(s, g),
    decreases s.len(),
{
    if s.len() > 0 {
        lemma_list_same(s.drop_last(), f, g);
        assert(f(s[s.len() - 1]) == g(s[s.len() - 1]));
    }
}

/// Where every subtree is its node and its children, the nodes of a tree take
/// together what its subtree takes.
pub proof fn lemma_own_times_are_the_subtree(n: Node)
    requires
        everywhere(n, adds_up()),
    ensures
        tree_sum(n, own()) == n.gpu_ns_subtree,
    decreases n,
{
    let f = |c: Node| tree_sum(c, own());
    assert forall|i: int| 0 <= i < n.children.len() implies f(#[trigger] n.children[i])
        == subtree()(n.children[i]) by {
        lemma_own_times_are_the_subtree(n.children[i]);
    }
    lemma_tree_sum(n, own());
    lemma_list_same(n.children, f, subtree());
    assert(adds_up()(n));
}

impl Session {
    /// A list of nodes takes what its calls take.
    proof fn lemma_nodes_subtree(self, k: int, list: Seq<int>, n: int)
        requires
            0 <= n <= list.len(),
        ensures
            list_sum(self.nodes(k, list, n), subtree()) == self.subtrees_ns(k, list, n),
        decreases n,
    {
        if n > 0 {
            self.lemma_nodes_subtree(k, list, n - 1);
            let rest = self.nodes(k, list, n - 1);
            if k < list[n - 1] < self.calls.len() {
                assert(rest.push(self.node(list[n - 1])).drop_last() =~= rest);
            }
        }
    }

    /// Each node of a list is that of a later call.
    proof fn lemma_nodes_are_later(self, k: int, list: Seq<int>, n: int)
        requires
            0 <= n <= list.len(),
        ensures
            forall|x: Node| #[trigger]
                self.nodes(k, list, n).contains(x) ==> exists|i: int|
                    0 <= i < n && k < #[trigger] list[i] < self.calls.len() && x == self.node(
                        list[i],
                    ),
        decreases n,
    {
        if n > 0 {
            self.lemma_nodes_are_later(k, list, n - 1);
            let rest = self.nodes(k, list, n - 1);
            let all = self.nodes(k, list, n);
            assert forall|x: Node| #[trigger] all.contains(x) implies exists|i: int|
                0 <= i < n && k < #[trigger] list[i] < self.calls.len() && x == self.node(
                    list[i],
                ) by {
                let p = choose|p: int| 0 <= p < all.len() && all[p] == x;
                if p < rest.len() {
                    assert(rest[p] == x);
                    assert(rest.contains(x));
                    let i = choose|i: int|
                        0 <= i < n - 1 && k < #[trigger] list[i] < self.calls.len() && x
                            == self.node(list[i]);
                    assert(k < list[i] < self.calls.len());
                } else {
                    assert(k < list[n - 1] < self.calls.len());
                }
            }
        }
    }

    /// Every later call of a list has its node.
    proof fn lemma_nodes_hold(self, k: int, list: Seq<int>, n: int, i: int)
        requires
            0 <= i < n <= list.len(),
            k < list[i] < self.calls.len(),
        ensures
            self.nodes(k, list, n).contains(self.node(list[i])),
        decreases n,
    {
        let all = self.nodes(k, list, n);
        if i == n - 1 {
            assert(all[all.len() - 1] == self.node(list[i]));
        } else {
            self.lemma_nodes_hold(k, list, n - 1, i);
            let rest = self.nodes(k, list, n - 1);
            let p = choose|p: int| 0 <= p < rest.len() && rest[p] == self.node(list[i]);
            assert(all[p] == self.node(list[i]));
        }
    }

    /// Something that holds of the node of each call holds everywhere below it.
    proof fn lemma_everywhere(self, k: int, p: spec_fn(Node) -> bool)
        requires
            forall|j: int| 0 <= j < self.calls.len() ==> p(#[trigger] self.node(j)),
            0 <= k < self.calls.len(),
        ensures
            everywhere(self.node(k), p),
        decreases self.calls.len() - k,
    {
        let list = self.children(k);
        let n = list.len() as int;
        let node = self.node(k);
        self.lemma_nodes_are_later(k, list, n);
        assert forall|i: int|
            #![trigger node.children[i]]
            0 <= i < node.children.len() implies everywhere(node.children[i], p) by {
            let x = node.children[i];
            assert(node.children.contains(x));
            lemma_ordered_contains(self.nodes(k, list, n), by_subtree(), x);
            assert(self.nodes(k, list, n).contains(x));
            let c = choose|c: int|
                0 <= c < n && k < #[trigger] list[c] < self.calls.len() && x == self.node(list[c]);
            self.lemma_everywhere(list[c], p);
        }
        assert(p(self.node(k)));
    }

    /// What holds of the node of each call and of what belongs to nobody holds of
    /// everything below the root.
    pub proof fn lemma_everywhere_below_top(self, p: spec_fn(Node) -> bool)
        requires
            forall|j: int| 0 <= j < self.calls.len() ==> p(#[trigger] self.node(j)),
            self.shows_unscoped() ==> p(self.unscoped_node()),
        ensures
            forall|i: int|
                0 <= i < ordered(self.top(), by_subtree()).len() ==> everywhere(
                    #[trigger] ordered(self.top(), by_subtree())[i],
                    p,
                ),
    {
        let roots = self.roots();
        let n = roots.len() as int;
        let forest = self.nodes(-1, roots, n);
        let children = ordered(self.top(), by_subtree());
        self.lemma_nodes_are_later(-1, roots, n);
        assert forall|i: int| 0 <= i < children.len() implies everywhere(
            #[trigger] children[i],
            p,
        ) by {
            let x = children[i];
            assert(children.contains(x));
            lemma_ordered_contains(self.top(), by_subtree(), x);
            let q = choose|q: int| 0 <= q < self.top().len() && self.top()[q] == x;
            if q < forest.len() {
                assert(forest[q] == x);
                assert(forest.contains(x));
                let c = choose|c: int|
                    0 <= c < n && -1 < #[trigger] roots[c] < self.calls.len() && x == self.node(
                        roots[c],
                    );
                self.lemma_everywhere(roots[c], p);
            }
        }
    }
}

proof fn lemma_subtree_order()
    ensures
        crate::sort::strict_weak(by_subtree()),
        crate::sort::strict_weak(by_ns()),
{
}

/// At every node of the tree, root and unscoped time included, the time of the
/// subtree is the time of the node itself and of the subtrees of its children.
pub proof fn every_node_adds_up(events: Seq<Event>)
    ensures
        everywhere(root_of(events), adds_up()),
{
    let s = session_of(events);
    let root = root_of(events);
    assert forall|k: int| 0 <= k < s.calls.len() implies adds_up()(#[trigger] s.node(k)) by {
        let list = s.children(k);
        let n = list.len() as int;
        s.lemma_nodes_subtree(k, list, n);
        lemma_list_ordered(s.nodes(k, list, n), by_subtree(), subtree());
    }
    s.lemma_everywhere_below_top(adds_up());
    let roots = s.roots();
    let n = roots.len() as int;
    let forest = s.nodes(-1, roots, n);
    s.lemma_nodes_subtree(-1, roots, n);
    lemma_list_ordered(s.top(), by_subtree(), subtree());
    if s.shows_unscoped() {
        assert(s.top().drop_last() =~= forest);
    }
    assert(adds_up()(root));
}

/// At every node the children and the kernels come largest first.
pub proof fn every_node_is_sorted(events: Seq<Event>)
    ensures
        everywhere(root_of(events), sorted()),
{
    let s = session_of(events);
    lemma_subtree_order();
    assert forall|k: int| 0 <= k < s.calls.len() implies sorted()(#[trigger] s.node(k)) by {
        let list = s.children(k);
        let n = list.len() as int;
        let x = s.node(k);
        ordered_is_in_order(s.nodes(k, list, n), by_subtree());
        let entries = tallied(s.entries(s.cbs_owned(s.calls[k].id)));
        ordered_is_in_order(entries.map_values(|e: Entry| with_kind(e)), by_ns());
        assert forall|i: int, j: int| 0 <= i < j < x.children.len() implies (
        #[trigger] x.children[i]).gpu_ns_subtree >= (#[trigger] x.children[j]).gpu_ns_subtree by {
            assert(!by_subtree()(x.children[j], x.children[i]));
        }
        assert forall|i: int, j: int| 0 <= i < j < x.ops.len() implies (#[trigger] x.ops[i]).gpu_ns
            >= (#[trigger] x.ops[j]).gpu_ns by {
            assert(!by_ns()(x.ops[j], x.ops[i]));
        }
    }
    let u = s.unscoped_node();
    ordered_is_in_order(
        tallied(s.entries(s.cbs_unscoped())).map_values(|e: Entry| with_kind(e)),
        by_ns(),
    );
    assert forall|i: int, j: int| 0 <= i < j < u.ops.len() implies (#[trigger] u.ops[i]).gpu_ns >= (
    #[trigger] u.ops[j]).gpu_ns by {
        assert(!by_ns()(u.ops[j], u.ops[i]));
    }
    assert(sorted()(u));
    s.lemma_everywhere_below_top(sorted());
    let root = root_of(events);
    ordered_is_in_order(s.top(), by_subtree());
    assert forall|i: int, j: int| 0 <= i < j < root.children.len() implies (
    #[trigger] root.children[i]).gpu_ns_subtree >= (
    #[trigger] root.children[j]).gpu_ns_subtree by {
        assert(!by_subtree()(root.children[j], root.children[i]));
    }
    assert(sorted()(root));
}

/// No time is lost or invented between the command buffers and the nodes of the
/// tree: where every call has its own id and was entered after its parent, what
/// the nodes take themselves adds up to what the command buffers take.
pub proof fn own_times_are_the_measured_time(events: Seq<Event>)
    requires
        ids_distinct(calls_of(events)),
        parents_known(calls_of(events)),
    ensures
        tree_sum(root_of(events), own()) == session_of(events).total(),
        root_of(events).gpu_ns_subtree == session_of(events).total(),
{
    every_node_adds_up(events);
    lemma_own_times_are_the_subtree(root_of(events));
    gpu_time_is_conserved(events);
}

/// The calls of a session are its entries into modules, in order: each with its id, its
/// names, its parent and its fields.
pub proof fn calls_are_entries(events: Seq<Event>, i: int)
    requires
        0 <= i < events.len(),
        events[i].payload is ModuleEntered,
    ensures
        calls_of(events).len() == entries(events, events.len() as int),
        ({
            let c = calls_of(events)[entries(events, i) as int];
            let e = events[i].payload;
            &&& entries(events, i) < calls_of(events).len()
            &&& c.id == e->ModuleEntered_module_call_id
            &&& c.qualname == e->ModuleEntered_qualname@
            &&& c.class_name == e->ModuleEntered_class_name@
            &&& c.parent == e->ModuleEntered_parent_call_id
            &&& c.fields == field_views(e->ModuleEntered_fields@)
        }),
{
    let n = events.len() as int;
    assert(events.take(n) =~= events);
    lemma_call_kept(events, i, n);
    lemma_call_count(events, n);
    lemma_call_count(events, i);
    crate::event::lemma_prefix_step(events, i);
}

proof fn lemma_call_count(events: Seq<Event>, n: int)
    requires
        0 <= n <= events.len(),
    ensures
        calls_of(events.take(n)).len() == entries(events, n),
    decreases n,
{
    if n > 0 {
        lemma_call_count(events, n - 1);
        crate::event::lemma_prefix_step(events, n - 1);
    }
}

proof fn lemma_call_kept(events: Seq<Event>, i: int, n: int)
    requires
        0 <= i < n <= events.len(),
        events[i].payload is ModuleEntered,
    ensures
        entries(events, i) < entries(events, n),
        calls_of(events.take(n))[entries(events, i) as int] == calls_of(
            events.take(i + 1),
        )[entries(events, i) as int],
    decreases n,
{
    if n > i + 1 {
        lemma_call_kept(events, i, n - 1);
        lemma_call_count(events, n - 1);
        crate::event::lemma_prefix_step(events, n - 1);
    }
}

/// Every call has a node with its names and fields: below the root where it has no
/// parent, and else below the node of its parent. A node stands for one call.
pub proof fn calls_stand_below_their_parents(events: Seq<Event>, k: int)
    requires
        ids_distinct(calls_of(events)),
        parents_known(calls_of(events)),
        0 <= k < calls_of(events).len(),
    ensures
        ({
            let s = session_of(events);
            let c = calls_of(events)[k];
            let n = s.node(k);
            &&& n.qualname == c.qualname && n.class_name == c.class_name && n.fields == c.fields
            &&& n.calls == 1 && n.diagnostics is None
            &&& c.parent is None ==> root_of(events).children.contains(n)
            &&& forall|p: int|
                0 <= p < k && Some((#[trigger] calls_of(events)[p]).id) == c.parent ==> s.node(
                    p,
                ).children.contains(n)
        }),
{
    let s = session_of(events);
    let c = s.calls[k];
    let count = s.calls.len() as int;
    lemma_latest(s.calls, c.id);
    let m = latest(s.calls, c.id)->0;
    if m != k {
        assert(s.calls[m].id == s.calls[k].id);
        if m < k {
            assert(calls_of(events)[m].id != calls_of(events)[k].id);
        } else {
            assert(calls_of(events)[k].id != calls_of(events)[m].id);
        }
    }
    if c.parent is None {
        let roots = s.roots();
        assert(s.is_root()(k));
        assert(below(count)[k] == k);
        lemma_kept_contains(below(count), s.is_root(), k);
        let i = choose|i: int| 0 <= i < roots.len() && roots[i] == k;
        s.lemma_nodes_hold(-1, roots, roots.len() as int, i);
        let forest = s.nodes(-1, roots, roots.len() as int);
        let q = choose|q: int| 0 <= q < forest.len() && forest[q] == s.node(k);
        assert(s.top()[q] == s.node(k));
        assert(s.top().contains(s.node(k)));
        lemma_ordered_contains(s.top(), by_subtree(), s.node(k));
    }
    assert forall|p: int|
        0 <= p < k && Some((#[trigger] calls_of(events)[p]).id) == c.parent implies s.node(
        p,
    ).children.contains(s.node(k)) by {
        let earlier = s.calls.take(k);
        let id = s.calls[p].id;
        lemma_latest(earlier, id);
        assert(earlier[p].id == id);
        let q = latest(earlier, id)->0;
        assert(latest(earlier, id) is Some);
        if q != p {
            assert(earlier[q].id == id);
            if q < p {
                assert(calls_of(events)[q].id != calls_of(events)[p].id);
            } else {
                assert(calls_of(events)[p].id != calls_of(events)[q].id);
            }
        }
        s.lemma_kid(p, k, count);
        let ids = s.kids(p, count);
        let i = choose|i: int| 0 <= i < ids.len() && ids[i] == c.id;
        let list = s.children(p);
        assert(list[i] == k);
        s.lemma_nodes_hold(p, list, list.len() as int, i);
        lemma_ordered_contains(s.nodes(p, list, list.len() as int), by_subtree(), s.node(k));
    }
}

proof fn lemma_kept_contains(s: Seq<int>, p: spec_fn(int) -> bool, x: int)
    requires
        s.contains(x),
        p(x),
    ensures
        kept(s, p).contains(x),
    decreases s.len(),
{
    let all = kept(s, p);
    if s.last() == x {
        assert(all[all.len() - 1] == x);
    } else {
        let i = choose|i: int| 0 <= i < s.len() && s[i] == x;
        assert(s.drop_last()[i] == x);
        lemma_kept_contains(s.drop_last(), p, x);
        let rest = kept(s.drop_last(), p);
        let k = choose|k: int| 0 <= k < rest.len() && rest[k] == x;
        assert(all[k] == x);
    }
}

impl Session {
    proof fn lemma_kid(self, p: int, k: int, n: int)
        requires
            0 <= k < n <= self.calls.len(),
            self.calls[k].parent is Some,
            latest(self.calls.take(k), self.calls[k].parent->0) == Some(p),
        ensures
            self.kids(p, n).contains(self.calls[k].id),
        decreases n,
    {
        let all = self.kids(p, n);
        if k == n - 1 {
            assert(all[all.len() - 1] == self.calls[k].id);
        } else {
            self.lemma_kid(p, k, n - 1);
            let rest = self.kids(p, n - 1);
            let i = choose|i: int| 0 <= i < rest.len() && rest[i] == self.calls[k].id;
            assert(all[i] == self.calls[k].id);
        }
    }
}

/// Nothing stands below the root but the nodes of calls and what belongs to nobody. That
/// has a node where it took time, where an eval belongs to nobody, or a command buffer
/// that no eval covers does.
pub proof fn unscoped_time_is_shown(events: Seq<Event>)
    ensures
        ({
            let s = session_of(events);
            let root = root_of(events);
            &&& s.unscoped_ns() > 0 ==> root.children.contains(s.unscoped_node())
            &&& s.unscoped_node().qualname == UNSCOPED@
            &&& root.gpu_ns_self == 0 && root.ops.len() == 0 && root.diagnostics is Some
            &&& root.qualname == "<root>"@
            &&& root.children.len() == s.roots().len() + if s.shows_unscoped() {
                1int
            } else {
                0
            }
        }),
{
    let s = session_of(events);
    let roots = s.roots();
    let n = roots.len() as int;
    let forest = s.nodes(-1, roots, n);
    crate::select::lemma_kept_holds(below(s.calls.len() as int), s.is_root());
    assert forall|i: int| 0 <= i < n implies -1 < #[trigger] roots[i] < s.calls.len() by {
        assert(below(s.calls.len() as int).contains(roots[i]));
    }
    s.lemma_nodes_len(-1, roots, n);
    ordered_is_permutation(s.top(), by_subtree());
    if s.shows_unscoped() {
        assert(s.top()[forest.len() as int] == s.unscoped_node());
        assert(s.top().contains(s.unscoped_node()));
        lemma_ordered_contains(s.top(), by_subtree(), s.unscoped_node());
    }
}

impl Session {
    proof fn lemma_nodes_len(self, k: int, list: Seq<int>, n: int)
        requires
            0 <= n <= list.len(),
            forall|i: int| 0 <= i < list.len() ==> k < #[trigger] list[i] < self.calls.len(),
        ensures
            self.nodes(k, list, n).len() == n,
        decreases n,
    {
        if n > 0 {
            self.lemma_nodes_len(k, list, n - 1);
            assert(k < list[n - 1] < self.calls.len());
        }
    }
}

} // verus!
