//! GPU time per module, computed from a session's events.

use crate::attribution::{
    attribute, copy_fields, field_views, latest, lemma_latest, op_entries, session_of, Attribution,
    CallView, FieldView, Session,
};
use crate::command_buffers::try_cb_ns;
use crate::event::{op_views, Event, FieldValue, OpSample};
use crate::op_clamp::{can_clamp, clamp_fits};
use crate::op_kinds::{kind_of, resolve_kind};
use crate::select::{ints, kept, lemma_sum_prefix, lemma_sum_push};
use crate::sort::{ordered, rank, sort, Ranked};
use crate::tally::{
    copy_of, lemma_tally_grows, row_views, rows_fit, tallied, Entry, Row, Tally,
};
use crate::text::opt_view;
use vstd::prelude::*;

verus! {

broadcast use vstd::string::group_string_axioms;

/// Reserved name for time not attributable to any module call.
pub const UNSCOPED: &'static str = "<unscoped>";

/// GPU time of one kernel.
#[derive(Debug, Clone, PartialEq, Eq, Default)]
pub struct OpAttribution {
    pub name: String,
    pub gpu_ns: u64,
    pub count: u64,
    pub symbol: Option<String>,
    pub kind: Option<String>,
}

impl View for OpAttribution {
    type V = Entry;

    open spec fn view(&self) -> Entry {
        Entry {
            key: self.name@,
            gpu_ns: self.gpu_ns as nat,
            count: self.count as nat,
            symbol: opt_view(self.symbol),
            kind: opt_view(self.kind),
        }
    }
}

/// The views of a list of kernels.
pub open spec fn op_rows(s: Seq<OpAttribution>) -> Seq<Entry> {
    s.map_values(|o: OpAttribution| o@)
}

/// What did not fit into the tree, and how much of it.
#[derive(Debug, Clone, Copy, PartialEq, Eq, Structural, Default)]
pub struct Diagnostics {
    pub unscoped_gpu_ns: u64,
    pub unmatched_cb_count: u64,
    pub malformed_returns: u64,
    pub ops_cbs_without_samples: u64,
    /// Command buffers attributed by the module open at their commit, no eval
    /// window containing it.
    pub cbs_scope_attributed: u64,
}

/// GPU time of one module call and everything below it.
#[derive(Debug, PartialEq)]
pub struct ModuleBreakdown {
    pub qualname: String,
    pub class_name: String,
    pub calls: u64,
    pub gpu_ns_self: u64,
    pub gpu_ns_subtree: u64,
    pub eval_count: u64,
    pub cb_count: u64,
    pub children: Vec<ModuleBreakdown>,
    pub ops: Vec<OpAttribution>,
    pub diagnostics: Option<Diagnostics>,
    pub fields: Vec<(String, FieldValue)>,
}

/// Why there is no breakdown.
#[derive(Debug, Clone, Copy, PartialEq, Eq, Structural)]
pub enum BreakdownError {
    /// The session contains no events.
    EmptySession,
}

impl BreakdownError {
    /// The error in words.
    pub fn message(&self) -> (m: &'static str)
        ensures
            m@ == "session contains no events"@,
    {
        "session contains no events"
    }
}

/// The view of a [`ModuleBreakdown`].
pub ghost struct Node {
    pub qualname: Seq<char>,
    pub class_name: Seq<char>,
    pub calls: nat,
    pub gpu_ns_self: nat,
    pub gpu_ns_subtree: nat,
    pub eval_count: nat,
    pub cb_count: nat,
    pub children: Seq<Node>,
    pub ops: Seq<Entry>,
    pub diagnostics: Option<Diagnostics>,
    pub fields: Seq<(Seq<char>, FieldView)>,
}

impl ModuleBreakdown {
    /// The tree as a value.
    pub open spec fn tree(&self) -> Node
        decreases self,
    {
        Node {
            qualname: self.qualname@,
            class_name: self.class_name@,
            calls: self.calls as nat,
            gpu_ns_self: self.gpu_ns_self as nat,
            gpu_ns_subtree: self.gpu_ns_subtree as nat,
            eval_count: self.eval_count as nat,
            cb_count: self.cb_count as nat,
            children: Seq::new(
                self.children@.len(),
                |i: int|
                    if 0 <= i < self.children@.len() {
                        self.children@[i].tree()
                    } else {
                        arbitrary()
                    },
            ),
            ops: op_rows(self.ops@),
            diagnostics: self.diagnostics,
            fields: field_views(self.fields@),
        }
    }
}

/// The trees of a list of nodes.
pub open spec fn trees(s: Seq<ModuleBreakdown>) -> Seq<Node> {
    s.map_values(|m: ModuleBreakdown| m.tree())
}

impl Ranked for ModuleBreakdown {
    open spec fn before(self, other: Self) -> bool {
        self.gpu_ns_subtree > other.gpu_ns_subtree
    }

    fn comes_before(&self, other: &Self) -> (b: bool) {
        self.gpu_ns_subtree > other.gpu_ns_subtree
    }
}

/// Modules by the GPU time of their subtrees, largest first.
pub open spec fn by_subtree() -> spec_fn(Node, Node) -> bool {
    |a: Node, b: Node| a.gpu_ns_subtree > b.gpu_ns_subtree
}

impl Ranked for OpAttribution {
    open spec fn before(self, other: Self) -> bool {
        self.gpu_ns > other.gpu_ns
    }

    fn comes_before(&self, other: &Self) -> (b: bool) {
        self.gpu_ns > other.gpu_ns
    }
}

/// Kernels by GPU time, largest first.
pub open spec fn by_ns() -> spec_fn(Entry, Entry) -> bool {
    |a: Entry, b: Entry| a.gpu_ns > b.gpu_ns
}

/// `e` with the kind of its symbol.
pub open spec fn with_kind(e: Entry) -> Entry {
    Entry {
        key: e.key,
        gpu_ns: e.gpu_ns,
        count: e.count,
        symbol: e.symbol,
        kind: match e.symbol {
            Some(s) => kind_of(s),
            None => None,
        },
    }
}

/// The kernels of the given entries, one row per name, largest first.
pub open spec fn op_table(entries: Seq<Entry>) -> Seq<Entry> {
    ordered(tallied(entries).map_values(|e: Entry| with_kind(e)), by_ns())
}

impl Session {
    /// The ids entered below call `k`: those whose parent was, when they were
    /// entered, call `k`. Only the first `n` entries are looked at.
    pub open spec fn kids(self, k: int, n: int) -> Seq<u64>
        decreases n,
    {
        if n <= 0 {
            seq![]
        } else {
            let rest = self.kids(k, n - 1);
            match self.calls[n - 1].parent {
                Some(p) => if latest(self.calls.take(n - 1), p) == Some(k) {
                    rest.push(self.calls[n - 1].id)
                } else {
                    rest
                },
                None => rest,
            }
        }
    }

    /// The calls that are shown below call `k`.
    pub open spec fn children(self, k: int) -> Seq<int> {
        self.kids(k, self.calls.len() as int).map_values(|id: u64| latest(self.calls, id)->0)
    }

    /// The GPU time of call `k` itself.
    pub open spec fn self_ns(self, k: int) -> nat {
        self.ns(self.cbs_owned(self.calls[k].id))
    }

    /// The GPU time of call `k` and everything below it.
    pub open spec fn subtree_ns(self, k: int) -> nat
        decreases self.calls.len() - k, self.children(k).len() + 1,
    {
        self.self_ns(k) + self.subtrees_ns(k, self.children(k), self.children(k).len() as int)
    }

    /// The GPU time of the first `n` of `list`, all of them calls behind `k`.
    pub open spec fn subtrees_ns(self, k: int, list: Seq<int>, n: int) -> nat
        decreases self.calls.len() - k, n,
    {
        if n <= 0 || n > list.len() {
            0
        } else {
            self.subtrees_ns(k, list, n - 1) + if k < list[n - 1] < self.calls.len() {
                self.subtree_ns(list[n - 1])
            } else {
                0
            }
        }
    }
}

impl Session {
    /// Call `k` and everything below it.
    pub open spec fn node(self, k: int) -> Node
        decreases self.calls.len() - k, self.children(k).len() + 1,
    {
        let mine = self.cbs_owned(self.calls[k].id);
        Node {
            qualname: self.calls[k].qualname,
            class_name: self.calls[k].class_name,
            calls: 1,
            gpu_ns_self: self.self_ns(k),
            gpu_ns_subtree: self.subtree_ns(k),
            eval_count: self.evals_with_leaf(Some(self.calls[k].id)),
            cb_count: mine.len(),
            children: ordered(
                self.nodes(k, self.children(k), self.children(k).len() as int),
                by_subtree(),
            ),
            ops: op_table(self.entries(mine)),
            diagnostics: None,
            fields: self.calls[k].fields,
        }
    }

    /// The first `n` of `list`, all of them calls behind `k`, with everything
    /// below them.
    pub open spec fn nodes(self, k: int, list: Seq<int>, n: int) -> Seq<Node>
        decreases self.calls.len() - k, n,
    {
        if n <= 0 || n > list.len() {
            seq![]
        } else if k < list[n - 1] < self.calls.len() {
            self.nodes(k, list, n - 1).push(self.node(list[n - 1]))
        } else {
            self.nodes(k, list, n - 1)
        }
    }

    /// The calls without a parent that are the latest of their id.
    pub open spec fn is_root(self) -> spec_fn(int) -> bool {
        |k: int| self.calls[k].parent is None && latest(self.calls, self.calls[k].id) == Some(k)
    }

    /// The roots of the forest of calls.
    pub open spec fn roots(self) -> Seq<int> {
        kept(crate::select::below(self.calls.len() as int), self.is_root())
    }

    /// The GPU time that belongs to nobody.
    pub open spec fn unscoped_ns(self) -> nat {
        self.ns(self.cbs_unmatched()) + self.ns(self.cbs_of_nobody())
    }

    /// The GPU time of the whole tree.
    pub open spec fn grand_total(self) -> nat {
        self.subtrees_ns(-1, self.roots(), self.roots().len() as int) + self.unscoped_ns()
    }

    /// What belongs to nobody, as a node.
    pub open spec fn unscoped_node(self) -> Node {
        Node {
            qualname: UNSCOPED@,
            class_name: seq![],
            calls: 0,
            gpu_ns_self: self.unscoped_ns(),
            gpu_ns_subtree: self.unscoped_ns(),
            eval_count: self.evals_with_leaf(None),
            cb_count: self.cbs_unmatched().len() + self.cbs_of_nobody().len(),
            children: seq![],
            ops: op_table(self.entries(self.cbs_unscoped())),
            diagnostics: None,
            fields: seq![],
        }
    }

    /// Is there anything that belongs to nobody?
    pub open spec fn shows_unscoped(self) -> bool {
        self.unscoped_ns() > 0 || self.evals_with_leaf(None) > 0 || self.cbs_unmatched().len() > 0
    }

    /// The top of the tree, not yet sorted.
    pub open spec fn top(self) -> Seq<Node> {
        let forest = self.nodes(-1, self.roots(), self.roots().len() as int);
        if self.shows_unscoped() {
            forest.push(self.unscoped_node())
        } else {
            forest
        }
    }
}

/// The whole tree of a session.
pub open spec fn root_of(events: Seq<Event>) -> Node {
    let s = session_of(events);
    Node {
        qualname: "<root>"@,
        class_name: seq![],
        calls: 0,
        gpu_ns_self: 0,
        gpu_ns_subtree: s.grand_total(),
        eval_count: 0,
        cb_count: 0,
        children: ordered(s.top(), by_subtree()),
        ops: seq![],
        diagnostics: Some(
            Diagnostics {
                unscoped_gpu_ns: s.unscoped_ns() as u64,
                unmatched_cb_count: s.cbs_unmatched().len() as u64,
                malformed_returns: crate::windows::malformed_returns_of(events) as u64,
                ops_cbs_without_samples: s.without_samples() as u64,
                cbs_scope_attributed: s.scope_attributed() as u64,
            },
        ),
        fields: seq![],
    }
}

impl Session {
    /// Under each name, the kernels of the command buffers in `list` add up to
    /// 64-bit numbers.
    pub open spec fn kernels_fit(self, list: Seq<int>) -> bool {
        rows_fit(tallied(self.entries(list)))
    }

    /// Call `k` is the latest of its id.
    pub open spec fn is_live(self, k: int) -> bool {
        0 <= k < self.calls.len() && latest(self.calls, self.calls[k].id) == Some(k)
    }

    /// What each call did itself adds up to 64-bit numbers.
    pub open spec fn calls_fit(self) -> bool {
        forall|k: int| #[trigger]
            self.is_live(k) ==> self.self_ns(k) <= u64::MAX && self.kernels_fit(
                self.cbs_owned(self.calls[k].id),
            )
    }
}

/// Every sum that a breakdown shows fits 64 bits: the time and the kernels of
/// each call and of nobody, and the time of the whole tree.
pub open spec fn sums_fit(events: Seq<Event>) -> bool {
    let s = session_of(events);
    &&& clamp_fits(events)
    &&& s.calls_fit()
    &&& s.kernels_fit(s.cbs_unscoped())
    &&& s.grand_total() <= u64::MAX
}

/// `list` holds indices of command buffers.
spec fn in_range(s: Session, list: Seq<int>) -> bool {
    forall|i: int| 0 <= i < list.len() ==> 0 <= #[trigger] list[i] < s.cbs.len()
}

/// Adds up the GPU time of the command buffers in `list`, or gives `None`
/// where it does not fit 64 bits.
fn try_list_ns(
    a: &Attribution,
    list: &Vec<usize>,
    Ghost(events): Ghost<Seq<Event>>,
) -> (ns: Option<u64>)
    requires
        a.describes(events),
        in_range(session_of(events), ints(list@)),
    ensures
        match ns {
            Some(ns) => ns == session_of(events).ns(ints(list@)),
            None => session_of(events).ns(ints(list@)) > u64::MAX,
        },
{
    let ghost s = session_of(events);
    let ghost all = ints(list@);
    let mut ns: u64 = 0;
    let mut i: usize = 0;
    assert(all.take(0) =~= Seq::<int>::empty());
    while i < list.len()
        invariant
            i <= list@.len(),
            s == session_of(events),
            all == ints(list@),
            a.describes(events),
            in_range(s, all),
            ns == s.ns(all.take(i as int)),
        decreases list@.len() - i,
    {
        let j: usize = list[i];
        proof {
            assert(all[i as int] == j);
            assert(all.take(i + 1) =~= all.take(i as int).push(j as int));
            lemma_sum_push(all.take(i as int), j as int, s.cb_time());
            lemma_sum_prefix(all, i + 1, s.cb_time());
            assert(s.cbs[j as int] == a.cbs@[j as int]@);
        }
        let one: u64 = match try_cb_ns(&a.cbs[j], a.sampled) {
            Some(one) => one,
            None => return None,
        };
        ns = match ns.checked_add(one) {
            Some(more) => more,
            None => return None,
        };
        i = i + 1;
    }
    assert(all.take(all.len() as int) =~= all);
    Some(ns)
}

/// Adds up the GPU time of the command buffers in `list`.
fn list_ns(a: &Attribution, list: &Vec<usize>, Ghost(events): Ghost<Seq<Event>>) -> (ns: u64)
    requires
        a.describes(events),
        in_range(session_of(events), ints(list@)),
        session_of(events).ns(ints(list@)) <= u64::MAX,
    ensures
        ns == session_of(events).ns(ints(list@)),
{
    match try_list_ns(a, list, Ghost(events)) {
        Some(ns) => ns,
        None => 0,
    }
}

/// Books the kernels of a command buffer, unless a row would not fit 64 bits.
fn try_book_ops(t: &mut Tally, ops: &Vec<OpSample>, Ghost(before): Ghost<Seq<Entry>>) -> (ok: bool)
    requires
        old(t).wf(),
        old(t)@ == tallied(before),
    ensures
        final(t).wf(),
        ok == rows_fit(tallied(before + op_entries(Some(op_views(ops@))))),
        ok ==> final(t)@ == tallied(before + op_entries(Some(op_views(ops@)))),
{
    let ghost views = op_views(ops@);
    let ghost entries = op_entries(Some(views));
    let mut i: usize = 0;
    assert(before + entries.take(0) =~= before);
    while i < ops.len()
        invariant
            i <= ops@.len(),
            views == op_views(ops@),
            entries == op_entries(Some(views)),
            t.wf(),
            t@ == tallied(before + entries.take(i as int)),
        decreases ops@.len() - i,
    {
        let op = &ops[i];
        proof {
            assert(views[i as int] == op@);
            assert(entries[i as int] == (Entry {
                key: op.name@,
                gpu_ns: op.gpu_ns as nat,
                count: op.count as nat,
                symbol: opt_view(op.symbol),
                kind: None,
            }));
            let longer = before + entries.take(i + 1);
            assert(longer.drop_last() =~= before + entries.take(i as int));
            assert(longer.last() == entries[i as int]);
            assert(longer + entries.skip(i + 1) =~= before + entries);
        }
        if !t.try_add(op.name.as_str(), op.gpu_ns, op.count as u64, &op.symbol, &None) {
            proof {
                if rows_fit(tallied(before + entries)) {
                    lemma_tally_grows(before + entries.take(i + 1), entries.skip(i + 1));
                }
            }
            return false;
        }
        i = i + 1;
    }
    proof {
        assert(entries.take(entries.len() as int) =~= entries);
        t.lemma_fits();
    }
    true
}

/// Turns the rows of a tally into kernels with kinds, largest first.
fn finish_ops(rows: Vec<Row>) -> (r: Vec<OpAttribution>)
    ensures
        op_rows(r@) == ordered(
            row_views(rows@).map_values(|e: Entry| with_kind(e)),
            by_ns(),
        ),
{
    let mut out: Vec<OpAttribution> = Vec::new();
    let mut i: usize = 0;
    while i < rows.len()
        invariant
            i <= rows@.len(),
            out@.len() == i,
            forall|k: int| 0 <= k < i ==> (#[trigger] out@[k])@ == with_kind(rows@[k]@),
        decreases rows@.len() - i,
    {
        let row = &rows[i];
        let kind: Option<String> = match &row.symbol {
            Some(s) => match resolve_kind(s.as_str()) {
                Some(k) => Some(k.to_owned()),
                None => None,
            },
            None => None,
        };
        out.push(
            OpAttribution {
                name: row.key.clone(),
                gpu_ns: row.gpu_ns,
                count: row.count,
                symbol: copy_of(&row.symbol),
                kind,
            },
        );
        i = i + 1;
    }
    proof {
        assert(op_rows(out@) =~= row_views(rows@).map_values(|e: Entry| with_kind(e)));
        crate::sort::lemma_ordered_map(
            out@,
            |o: OpAttribution| o@,
            rank::<OpAttribution>(),
            by_ns(),
        );
    }
    sort(&mut out);
    out
}

/// Books the kernels of the command buffers in `list`, unless a row would not
/// fit 64 bits.
fn try_book_list(
    t: &mut Tally,
    a: &Attribution,
    list: &Vec<usize>,
    Ghost(events): Ghost<Seq<Event>>,
    Ghost(done): Ghost<Seq<int>>,
) -> (ok: bool)
    requires
        a.describes(events),
        old(t).wf(),
        old(t)@ == tallied(session_of(events).entries(done)),
        in_range(session_of(events), ints(list@)),
    ensures
        final(t).wf(),
        ok == session_of(events).kernels_fit(done + ints(list@)),
        ok ==> final(t)@ == tallied(session_of(events).entries(done + ints(list@))),
{
    let ghost s = session_of(events);
    let ghost all = ints(list@);
    let mut i: usize = 0;
    proof {
        assert(done + all.take(0) =~= done);
    }
    while i < list.len()
        invariant
            i <= list@.len(),
            s == session_of(events),
            all == ints(list@),
            a.describes(events),
            in_range(s, all),
            t.wf(),
            t@ == tallied(s.entries(done + all.take(i as int))),
        decreases list@.len() - i,
    {
        let j: usize = list[i];
        let ghost before = done + all.take(i as int);
        let ghost after = done + all.take(i + 1);
        proof {
            assert(all[i as int] == j);
            assert(after.drop_last() =~= before);
            assert(after.last() == j);
            assert(s.cbs[j as int] == a.cbs@[j as int]@);
            let ops = s.cbs[j as int].ops;
            assert(s.entries(after) == s.entries(before) + op_entries(ops));
            if ops is None {
                assert(s.entries(before) + op_entries(ops) =~= s.entries(before));
            }
        }
        let ok: bool = match &a.cbs[j].ops {
            Some(ops) => try_book_ops(t, ops, Ghost(s.entries(before))),
            None => true,
        };
        if !ok {
            proof {
                assert(after + all.skip(i + 1) =~= done + all);
                s.lemma_entries_add(after, all.skip(i + 1));
                if s.kernels_fit(done + all) {
                    lemma_tally_grows(s.entries(after), s.entries(all.skip(i + 1)));
                }
            }
            return false;
        }
        i = i + 1;
    }
    proof {
        assert(all.take(all.len() as int) =~= all);
        t.lemma_fits();
    }
    true
}

impl Session {
    /// A child of call `k` is a later call, and the latest of its id.
    proof fn lemma_kids(self, k: int, n: int)
        requires
            0 <= n <= self.calls.len(),
        ensures
            forall|i: int|
                0 <= i < self.kids(k, n).len() ==> {
                    let id = #[trigger] self.kids(k, n)[i];
                    &&& latest(self.calls, id) is Some
                    &&& k < latest(self.calls, id)->0 < self.calls.len()
                    &&& self.calls[latest(self.calls, id)->0].id == id
                },
        decreases n,
    {
        if n > 0 {
            self.lemma_kids(k, n - 1);
            let j = n - 1;
            if let Some(p) = self.calls[j].parent {
                lemma_latest(self.calls.take(j), p);
                lemma_latest(self.calls, self.calls[j].id);
            }
        }
    }

    /// Fewer subtrees take no more time.
    proof fn lemma_subtrees_prefix(self, k: int, list: Seq<int>, n: int)
        requires
            0 <= n <= list.len(),
        ensures
            self.subtrees_ns(k, list, n) <= self.subtrees_ns(k, list, list.len() as int),
        decreases list.len() - n,
    {
        if n < list.len() {
            self.lemma_subtrees_prefix(k, list, n + 1);
        }
    }

    /// The command buffers of a call are command buffers of the session.
    proof fn lemma_owned_ok(self, id: u64)
        ensures
            in_range(self, self.cbs_owned(id)),
            self.cbs_owned(id).len() <= self.cbs.len(),
    {
        self.lemma_owned_count(Some(id));
        self.lemma_lists(Some(id));
    }

    /// The lists of command buffers hold indices of command buffers.
    proof fn lemma_lists(self, id: Option<u64>)
        ensures
            forall|i: int|
                0 <= i < kept(self.covered(), self.owned_by(id)).len() ==> 0 <= #[trigger] kept(
                    self.covered(),
                    self.owned_by(id),
                )[i] < self.cbs.len(),
            forall|i: int|
                0 <= i < kept(self.uncovered(), self.owned_by(id)).len() ==> 0 <= #[trigger] kept(
                    self.uncovered(),
                    self.owned_by(id),
                )[i] < self.cbs.len(),
    {
        let n = self.evals.len() as int;
        let all = crate::select::below(self.cbs.len() as int);
        let raw = kept(all, self.in_eval(None));
        self.lemma_evals_cbs(n);
        crate::select::lemma_kept_holds(self.covered(), self.owned_by(id));
        crate::select::lemma_kept_holds(self.uncovered(), self.owned_by(id));
        crate::select::lemma_kept_holds(all, self.in_eval(None));
        assert forall|i: int| 0 <= i < kept(self.uncovered(), self.owned_by(id)).len() implies 0
            <= #[trigger] kept(self.uncovered(), self.owned_by(id))[i] < self.cbs.len() by {
            let x = kept(self.uncovered(), self.owned_by(id))[i];
            assert(self.uncovered().contains(x));
            crate::sort::lemma_ordered_contains(raw, self.by_commit(), x);
            let q = choose|q: int| 0 <= q < raw.len() && raw[q] == x;
            assert(all.contains(raw[q]));
        }
        assert forall|i: int| 0 <= i < kept(self.covered(), self.owned_by(id)).len() implies 0
            <= #[trigger] kept(self.covered(), self.owned_by(id))[i] < self.cbs.len() by {
            let x = kept(self.covered(), self.owned_by(id))[i];
            assert(self.covered().contains(x));
            let q = choose|q: int| 0 <= q < self.covered().len() && self.covered()[q] == x;
            assert(0 <= self.evals_cbs(n)[q] < self.cbs.len());
        }
    }

    proof fn lemma_evals_cbs(self, n: int)
        ensures
            forall|i: int|
                0 <= i < self.evals_cbs(n).len() ==> 0 <= #[trigger] self.evals_cbs(n)[i]
                    < self.cbs.len(),
        decreases n,
    {
        if n > 0 {
            self.lemma_evals_cbs(n - 1);
            let all = crate::select::below(self.cbs.len() as int);
            let mine = self.eval_cbs(n - 1);
            crate::select::lemma_kept_holds(all, self.in_eval(Some(n - 1)));
            assert forall|i: int| 0 <= i < self.evals_cbs(n).len() implies 0
                <= #[trigger] self.evals_cbs(n)[i] < self.cbs.len() by {
                let before = self.evals_cbs(n - 1).len();
                if i >= before {
                    let x = mine[i - before];
                    assert(all.contains(x));
                } else {
                    assert(self.evals_cbs(n)[i] == self.evals_cbs(n - 1)[i]);
                }
            }
        }
    }
}

/// The ids entered below each call.
fn kids_of(a: &Attribution, Ghost(events): Ghost<Seq<Event>>) -> (r: Vec<Vec<u64>>)
    requires
        a.describes(events),
    ensures
        r@.len() == a.calls@.len(),
        forall|k: int|
            0 <= k < r@.len() ==> (#[trigger] r@[k])@ == session_of(events).kids(
                k,
                a.calls@.len() as int,
            ),
{
    let ghost s = session_of(events);
    let n: usize = a.calls.len();
    let mut kids: Vec<Vec<u64>> = Vec::new();
    let mut index: std::collections::HashMap<u64, usize> = std::collections::HashMap::new();
    let mut j: usize = 0;
    proof {
        assert(s.calls.take(0) =~= Seq::<CallView>::empty());
    }
    broadcast use vstd::std_specs::hash::group_hash_axioms;

    while j < n
        invariant
            j <= n == a.calls@.len(),
            s == session_of(events),
            a.describes(events),
            kids@.len() == j,
            crate::attribution::index_ok(index@, s.calls.take(j as int)),
            forall|k: int| 0 <= k < j ==> (#[trigger] kids@[k])@ == s.kids(k, j as int),
        decreases n - j,
    {
        let ghost old_kids = kids@;
        let id: u64 = a.calls[j].id;
        proof {
            assert(s.calls[j as int] == a.calls@[j as int]@);
            assert(s.calls.take(j + 1) =~= s.calls.take(j as int).push(s.calls[j as int]));
            assert(s.calls.take(j + 1).drop_last() =~= s.calls.take(j as int));
            s.lemma_no_kids_yet(j as int, j as int);
        }
        if let Some(p) = a.calls[j].parent {
            if let Some(k) = index.get(&p) {
                let k: usize = *k;
                proof {
                    lemma_latest(s.calls.take(j as int), p);
                }
                kids[k].push(id);
            }
        }
        kids.push(Vec::new());
        index.insert(id, j);
        proof {
            assert forall|k: int| 0 <= k < j + 1 implies (#[trigger] kids@[k])@ == s.kids(
                k,
                j + 1,
            ) by {
                if k < j {
                    assert(old_kids[k]@ == s.kids(k, j as int));
                } else {
                    if let Some(p) = s.calls[j as int].parent {
                        lemma_latest(s.calls.take(j as int), p);
                    }
                    assert(kids@[k]@ =~= Seq::<u64>::empty());
                }
            }
        }
        j = j + 1;
    }
    kids
}

impl Session {
    /// A call has nothing below it before it is entered.
    proof fn lemma_no_kids_yet(self, k: int, n: int)
        requires
            0 <= n <= k,
            n <= self.calls.len(),
        ensures
            self.kids(k, n) == Seq::<u64>::empty(),
        decreases n,
    {
        if n > 0 {
            self.lemma_no_kids_yet(k, n - 1);
            if let Some(p) = self.calls[n - 1].parent {
                lemma_latest(self.calls.take(n - 1), p);
            }
        }
    }
}

/// Builds call `k` with everything below it.
fn build(
    a: &Attribution,
    kids: &Vec<Vec<u64>>,
    k: usize,
    Ghost(events): Ghost<Seq<Event>>,
) -> (r: ModuleBreakdown)
    requires
        a.describes(events),
        kids@.len() == a.calls@.len(),
        forall|m: int|
            0 <= m < kids@.len() ==> (#[trigger] kids@[m])@ == session_of(events).kids(
                m,
                a.calls@.len() as int,
            ),
        k < a.calls@.len(),
        latest(session_of(events).calls, session_of(events).calls[k as int].id) == Some(k as int),
        session_of(events).calls_fit(),
        session_of(events).subtree_ns(k as int) <= u64::MAX,
    ensures
        r.tree() == session_of(events).node(k as int),
    decreases a.calls@.len() - k,
{
    let ghost s = session_of(events);
    let ghost id = s.calls[k as int].id;
    let ghost list = s.children(k as int);
    let n: usize = kids[k].len();
    proof {
        assert(s.calls[k as int] == a.calls@[k as int]@);
        assert(ints(a.owned@[k as int]@) == s.cbs_owned(id));
        assert(a.eval_counts@[k as int] == s.evals_with_leaf(Some(id)));
        s.lemma_owned_ok(id);
        s.lemma_kids(k as int, s.calls.len() as int);
        assert(s.is_live(k as int));
    }
    let gpu_ns_self: u64 = list_ns(a, &a.owned[k], Ghost(events));
    let mut subtree: u64 = gpu_ns_self;
    let mut children: Vec<ModuleBreakdown> = Vec::new();
    let mut i: usize = 0;
    assert(trees(children@) =~= Seq::<Node>::empty());
    while i < n
        invariant
            i <= n == kids@[k as int]@.len() == list.len(),
            k < a.calls@.len() == s.calls.len(),
            s == session_of(events),
            a.describes(events),
            list == s.children(k as int),
            kids@.len() == a.calls@.len(),
            forall|m: int|
                0 <= m < kids@.len() ==> (#[trigger] kids@[m])@ == session_of(events).kids(
                    m,
                    a.calls@.len() as int,
                ),
            s.calls_fit(),
            s.subtree_ns(k as int) <= u64::MAX,
            gpu_ns_self == s.self_ns(k as int),
            subtree == gpu_ns_self + s.subtrees_ns(k as int, list, i as int),
            trees(children@) == s.nodes(k as int, list, i as int),
            forall|m: int|
                0 <= m < kids@[k as int]@.len() ==> {
                    let x = #[trigger] kids@[k as int]@[m];
                    &&& latest(s.calls, x) is Some
                    &&& k < latest(s.calls, x)->0 < s.calls.len()
                    &&& s.calls[latest(s.calls, x)->0].id == x
                },
        decreases n - i,
    {
        let x: u64 = kids[k][i];
        proof {
            assert(list[i as int] == latest(s.calls, x)->0);
            s.lemma_subtrees_prefix(k as int, list, i + 1);
        }
        broadcast use vstd::std_specs::hash::group_hash_axioms;

        if let Some(c) = a.index.get(&x) {
            let c: usize = *c;
            let ghost before = children@;
            let child = build(a, kids, c, Ghost(events));
            subtree = subtree + child.gpu_ns_subtree;
            children.push(child);
            assert(trees(children@) =~= trees(before).push(child.tree()));
        }
        i = i + 1;
    }
    let mut t = Tally::new();
    proof {
        assert(Seq::<int>::empty() + s.cbs_owned(id) =~= s.cbs_owned(id));
    }
    try_book_list(&mut t, a, &a.owned[k], Ghost(events), Ghost(Seq::empty()));
    let ops = finish_ops(t.into_rows());
    proof {
        crate::sort::lemma_ordered_map(
            children@,
            |m: ModuleBreakdown| m.tree(),
            rank::<ModuleBreakdown>(),
            by_subtree(),
        );
    }
    sort(&mut children);
    let r = ModuleBreakdown {
        qualname: a.calls[k].qualname.clone(),
        class_name: a.calls[k].class_name.clone(),
        calls: 1,
        gpu_ns_self,
        gpu_ns_subtree: subtree,
        eval_count: a.eval_counts[k],
        cb_count: a.owned[k].len() as u64,
        children,
        ops,
        diagnostics: None,
        fields: copy_fields(&a.calls[k].fields),
    };
    proof {
        assert(r.tree().children =~= trees(children@));
    }
    r
}

/// The roots of the forest, as indices.
fn root_slots(a: &Attribution, Ghost(events): Ghost<Seq<Event>>) -> (r: Vec<usize>)
    requires
        a.describes(events),
    ensures
        ints(r@) == session_of(events).roots(),
{
    let ghost s = session_of(events);
    let mut r: Vec<usize> = Vec::new();
    let mut k: usize = 0;
    proof {
        assert(crate::select::below(0) =~= Seq::<int>::empty());
        assert(ints(r@) =~= Seq::<int>::empty());
    }
    broadcast use vstd::std_specs::hash::group_hash_axioms;

    while k < a.calls.len()
        invariant
            k <= a.calls@.len() == s.calls.len(),
            s == session_of(events),
            a.describes(events),
            ints(r@) == kept(crate::select::below(k as int), s.is_root()),
        decreases a.calls@.len() - k,
    {
        let ghost before = r@;
        proof {
            assert(s.calls[k as int] == a.calls@[k as int]@);
            lemma_latest(s.calls, s.calls[k as int].id);
            crate::select::lemma_kept_below(k as int, s.is_root());
            crate::select::lemma_ints_push(before, k);
        }
        if a.calls[k].parent.is_none() {
            if let Some(m) = a.index.get(&a.calls[k].id) {
                if *m == k {
                    r.push(k);
                }
            }
        }
        k = k + 1;
    }
    r
}

/// Counts the command buffers without kernels.
fn count_unsampled(a: &Attribution, Ghost(events): Ghost<Seq<Event>>) -> (n: u64)
    requires
        a.describes(events),
    ensures
        n == session_of(events).without_samples(),
{
    let ghost s = session_of(events);
    if !a.sampled {
        return 0;
    }
    let mut n: u64 = 0;
    let mut j: usize = 0;
    assert(crate::select::below(0) =~= Seq::<int>::empty());
    while j < a.cbs.len()
        invariant
            j <= a.cbs@.len() == s.cbs.len(),
            s == session_of(events),
            a.describes(events),
            n == kept(crate::select::below(j as int), s.unsampled()).len(),
            n <= j,
        decreases a.cbs@.len() - j,
    {
        proof {
            assert(s.cbs[j as int] == a.cbs@[j as int]@);
            crate::select::lemma_kept_below(j as int, s.unsampled());
        }
        if a.cbs[j].ops.is_none() {
            n = n + 1;
        }
        j = j + 1;
    }
    n
}

impl Session {
    /// What belongs to nobody are command buffers of the session.
    proof fn lemma_unscoped_ok(self)
        ensures
            in_range(self, self.cbs_unmatched()),
            in_range(self, self.cbs_of_nobody()),
            self.cbs_unmatched().len() + self.cbs_of_nobody().len() <= self.cbs.len(),
    {
        self.lemma_owned_count(None);
        self.lemma_lists(None);
    }
}

/// Computes the GPU time per module.
///
/// Each completed command buffer is attributed at its commit, to the latest
/// eval window covering it and through that to the innermost module open at
/// the eval; failing that, to the innermost module window open at the commit.
/// The kernel times are clamped to the serialized execution window of their
/// command buffer.
pub fn compute(events: &[Event]) -> (r: Result<ModuleBreakdown, BreakdownError>)
    requires
        sums_fit(events@),
    ensures
        match r {
            Ok(root) => events@.len() > 0 && root.tree() == root_of(events@),
            Err(e) => events@.len() == 0 && e == BreakdownError::EmptySession,
        },
{
    if events.len() == 0 {
        return Err(BreakdownError::EmptySession);
    }
    let ghost s = session_of(events@);
    let a = attribute(events);
    let kids = kids_of(&a, Ghost(events@));
    let roots = root_slots(&a, Ghost(events@));
    let ghost list = s.roots();
    let n: usize = roots.len();
    proof {
        s.lemma_unscoped_ok();
        crate::select::lemma_kept_holds(
            crate::select::below(s.calls.len() as int),
            s.is_root(),
        );
        assert(n == list.len());
    }
    let unmatched_ns: u64 = list_ns(&a, &a.unmatched, Ghost(events@));
    let nobody_ns: u64 = list_ns(&a, &a.of_nobody, Ghost(events@));
    let unscoped_gpu_ns: u64 = unmatched_ns + nobody_ns;
    let mut total: u64 = unscoped_gpu_ns;
    let mut children: Vec<ModuleBreakdown> = Vec::new();
    let mut i: usize = 0;
    assert(trees(children@) =~= Seq::<Node>::empty());
    while i < n
        invariant
            i <= n == roots@.len() == list.len(),
            s == session_of(events@),
            a.describes(events@),
            list == s.roots(),
            list == ints(roots@),
            kids@.len() == a.calls@.len(),
            forall|m: int|
                0 <= m < kids@.len() ==> (#[trigger] kids@[m])@ == session_of(events@).kids(
                    m,
                    a.calls@.len() as int,
                ),
            forall|m: int|
                0 <= m < list.len() ==> s.is_root()(#[trigger] list[m]) && crate::select::below(
                    s.calls.len() as int,
                ).contains(list[m]),
            s.calls_fit(),
            s.grand_total() <= u64::MAX,
            unscoped_gpu_ns == s.unscoped_ns(),
            total == unscoped_gpu_ns + s.subtrees_ns(-1, list, i as int),
            trees(children@) == s.nodes(-1, list, i as int),
        decreases n - i,
    {
        let k: usize = roots[i];
        proof {
            assert(list[i as int] == k);
            s.lemma_subtrees_prefix(-1, list, i + 1);
        }
        let ghost before = children@;
        let child = build(&a, &kids, k, Ghost(events@));
        total = total + child.gpu_ns_subtree;
        children.push(child);
        assert(trees(children@) =~= trees(before).push(child.tree()));
        i = i + 1;
    }
    if unscoped_gpu_ns > 0 || a.unscoped_evals > 0 || a.unmatched.len() > 0 {
        let mut t = Tally::new();
        proof {
            assert(Seq::<int>::empty() + s.cbs_unmatched() =~= s.cbs_unmatched());
        }
        proof {
            s.lemma_entries_add(s.cbs_unmatched(), s.cbs_of_nobody());
            lemma_tally_grows(s.entries(s.cbs_unmatched()), s.entries(s.cbs_of_nobody()));
        }
        try_book_list(&mut t, &a, &a.unmatched, Ghost(events@), Ghost(Seq::empty()));
        try_book_list(&mut t, &a, &a.of_nobody, Ghost(events@), Ghost(s.cbs_unmatched()));
        let ops = finish_ops(t.into_rows());
        let ghost before = children@;
        let node = ModuleBreakdown {
            qualname: UNSCOPED.to_owned(),
            class_name: String::new(),
            calls: 0,
            gpu_ns_self: unscoped_gpu_ns,
            gpu_ns_subtree: unscoped_gpu_ns,
            eval_count: a.unscoped_evals,
            cb_count: a.unmatched.len() as u64 + a.of_nobody.len() as u64,
            children: Vec::new(),
            ops,
            diagnostics: None,
            fields: Vec::new(),
        };
        proof {
            assert(node.tree().children =~= Seq::<Node>::empty());
            assert(node.tree().fields =~= Seq::<(Seq<char>, FieldView)>::empty());
            assert(node.tree().class_name =~= Seq::<char>::empty());
            assert(node.tree() == s.unscoped_node());
        }
        children.push(node);
        assert(trees(children@) =~= trees(before).push(node.tree()));
    }
    proof {
        crate::sort::lemma_ordered_map(
            children@,
            |m: ModuleBreakdown| m.tree(),
            rank::<ModuleBreakdown>(),
            by_subtree(),
        );
    }
    sort(&mut children);
    let root = ModuleBreakdown {
        qualname: "<root>".to_owned(),
        class_name: String::new(),
        calls: 0,
        gpu_ns_self: 0,
        gpu_ns_subtree: total,
        eval_count: 0,
        cb_count: 0,
        children,
        ops: Vec::new(),
        diagnostics: Some(
            Diagnostics {
                unscoped_gpu_ns,
                unmatched_cb_count: a.unmatched.len() as u64,
                malformed_returns: a.malformed_returns,
                ops_cbs_without_samples: count_unsampled(&a, Ghost(events@)),
                cbs_scope_attributed: a.scope_attributed,
            },
        ),
        fields: Vec::new(),
    };
    proof {
        assert(root.tree().children =~= trees(children@));
        assert(root.tree().fields =~= Seq::<(Seq<char>, FieldView)>::empty());
        assert(root.tree().class_name =~= Seq::<char>::empty());
        assert(root.tree().ops =~= Seq::<Entry>::empty());
    }
    Ok(root)
}

/// The first number too large for 64 bits.
const CAP: u128 = 0x1_0000_0000_0000_0000;

spec fn capped(n: nat) -> nat {
    if n > CAP {
        CAP as nat
    } else {
        n
    }
}

/// Adds up the capped subtree times of `list[..]`.
fn capped_sum(
    a: &Attribution,
    ids: &Vec<u64>,
    totals: &Vec<u128>,
    start: u128,
    Ghost(events): Ghost<Seq<Event>>,
    Ghost(k): Ghost<int>,
) -> (r: u128)
    requires
        a.describes(events),
        start <= CAP,
        totals@.len() == a.calls@.len(),
        ids@ == session_of(events).kids(k, a.calls@.len() as int),
        forall|m: int|
            k < m < totals@.len() && latest(
                session_of(events).calls,
                session_of(events).calls[m].id,
            ) == Some(m) ==> (#[trigger] totals@[m]) == capped(session_of(events).subtree_ns(m)),
    ensures
        r == capped(
            start as nat + session_of(events).subtrees_ns(
                k,
                session_of(events).children(k),
                session_of(events).children(k).len() as int,
            ),
        ),
{
    let ghost s = session_of(events);
    let ghost list = s.children(k);
    let mut acc: u128 = start;
    let mut i: usize = 0;
    proof {
        s.lemma_kids(k, s.calls.len() as int);
    }
    broadcast use vstd::std_specs::hash::group_hash_axioms;

    while i < ids.len()
        invariant
            i <= ids@.len() == list.len(),
            s == session_of(events),
            list == s.children(k),
            a.describes(events),
            start <= CAP,
            totals@.len() == a.calls@.len() == s.calls.len(),
            ids@ == s.kids(k, s.calls.len() as int),
            forall|m: int|
                k < m < totals@.len() && latest(s.calls, s.calls[m].id) == Some(m) ==> (
                #[trigger] totals@[m]) == capped(s.subtree_ns(m)),
            forall|m: int|
                0 <= m < ids@.len() ==> {
                    let x = #[trigger] ids@[m];
                    &&& latest(s.calls, x) is Some
                    &&& k < latest(s.calls, x)->0 < s.calls.len()
                    &&& s.calls[latest(s.calls, x)->0].id == x
                },
            acc == capped(start as nat + s.subtrees_ns(k, list, i as int)),
        decreases ids@.len() - i,
    {
        let x: u64 = ids[i];
        assert(list[i as int] == latest(s.calls, x)->0);
        if let Some(c) = a.index.get(&x) {
            let t: u128 = totals[*c];
            acc = if acc + t > CAP {
                CAP
            } else {
                acc + t
            };
        }
        i = i + 1;
    }
    acc
}

/// Does every sum of the breakdown fit 64 bits?
pub fn can_compute(events: &[Event]) -> (r: bool)
    ensures
        r == sums_fit(events@),
{
    if !can_clamp(events) {
        return false;
    }
    let ghost s = session_of(events@);
    let a = attribute(events);
    let kids = kids_of(&a, Ghost(events@));
    let roots = root_slots(&a, Ghost(events@));
    let n: usize = a.calls.len();
    let mut totals: Vec<u128> = Vec::new();
    let mut i: usize = 0;
    while i < n
        invariant
            i <= n,
            totals@.len() == i,
        decreases n - i,
    {
        totals.push(0);
        i = i + 1;
    }
    let mut k: usize = n;
    broadcast use vstd::std_specs::hash::group_hash_axioms;

    while k > 0
        invariant
            k <= n == totals@.len() == a.calls@.len() == s.calls.len(),
            s == session_of(events@),
            a.describes(events@),
            kids@.len() == n,
            forall|m: int|
                0 <= m < kids@.len() ==> (#[trigger] kids@[m])@ == session_of(events@).kids(
                    m,
                    a.calls@.len() as int,
                ),
            forall|m: int|
                k <= m < n && latest(s.calls, s.calls[m].id) == Some(m) ==> (
                #[trigger] totals@[m]) == capped(s.subtree_ns(m)),
            forall|m: int|
                k <= m && #[trigger] s.is_live(m) ==> s.self_ns(m) <= u64::MAX && s.kernels_fit(
                    s.cbs_owned(s.calls[m].id),
                ),
        decreases k,
    {
        k = k - 1;
        proof {
            assert(s.calls[k as int] == a.calls@[k as int]@);
            lemma_latest(s.calls, s.calls[k as int].id);
        }
        let mut live: bool = false;
        if let Some(m) = a.index.get(&a.calls[k].id) {
            live = *m == k;
        }
        if live {
            proof {
                assert(ints(a.owned@[k as int]@) == s.cbs_owned(s.calls[k as int].id));
                s.lemma_owned_ok(s.calls[k as int].id);
                assert(s.is_live(k as int));
            }
            let own: u64 = match try_list_ns(&a, &a.owned[k], Ghost(events@)) {
                Some(own) => own,
                None => return false,
            };
            let mut rows = Tally::new();
            proof {
                assert(Seq::<int>::empty() + s.cbs_owned(s.calls[k as int].id) =~= s.cbs_owned(
                    s.calls[k as int].id,
                ));
            }
            if !try_book_list(&mut rows, &a, &a.owned[k], Ghost(events@), Ghost(Seq::empty())) {
                return false;
            }
            let t: u128 = capped_sum(
                &a,
                &kids[k],
                &totals,
                own as u128,
                Ghost(events@),
                Ghost(k as int),
            );
            totals[k] = t;
        }
    }
    proof {
        s.lemma_unscoped_ok();
        crate::select::lemma_kept_holds(
            crate::select::below(s.calls.len() as int),
            s.is_root(),
        );
    }
    let unmatched_ns: u64 = match try_list_ns(&a, &a.unmatched, Ghost(events@)) {
        Some(ns) => ns,
        None => return false,
    };
    let nobody_ns: u64 = match try_list_ns(&a, &a.of_nobody, Ghost(events@)) {
        Some(ns) => ns,
        None => return false,
    };
    let mut rows = Tally::new();
    proof {
        assert(Seq::<int>::empty() + s.cbs_unmatched() =~= s.cbs_unmatched());
        s.lemma_entries_add(s.cbs_unmatched(), s.cbs_of_nobody());
        if s.kernels_fit(s.cbs_unscoped()) {
            lemma_tally_grows(s.entries(s.cbs_unmatched()), s.entries(s.cbs_of_nobody()));
        }
    }
    if !try_book_list(&mut rows, &a, &a.unmatched, Ghost(events@), Ghost(Seq::empty())) {
        return false;
    }
    if !try_book_list(&mut rows, &a, &a.of_nobody, Ghost(events@), Ghost(s.cbs_unmatched())) {
        return false;
    }
    let ghost list = s.roots();
    let mut acc: u128 = unmatched_ns as u128 + nobody_ns as u128;
    if acc > CAP {
        acc = CAP;
    }
    let mut j: usize = 0;
    while j < roots.len()
        invariant
            j <= roots@.len() == list.len(),
            s == session_of(events@),
            list == s.roots(),
            list == ints(roots@),
            n == totals@.len() == s.calls.len(),
            forall|m: int|
                0 <= m < n && latest(s.calls, s.calls[m].id) == Some(m) ==> (
                #[trigger] totals@[m]) == capped(s.subtree_ns(m)),
            forall|m: int|
                0 <= m < list.len() ==> s.is_root()(#[trigger] list[m]) && crate::select::below(
                    s.calls.len() as int,
                ).contains(list[m]),
            acc == capped(s.unscoped_ns() + s.subtrees_ns(-1, list, j as int)),
        decreases roots@.len() - j,
    {
        assert(list[j as int] == roots@[j as int]);
        let t: u128 = totals[roots[j]];
        acc = if acc + t > CAP {
            CAP
        } else {
            acc + t
        };
        j = j + 1;
    }
    acc < CAP
}

/// [`compute`], or `None` where a total does not fit 64 bits.
pub fn try_compute(events: &[Event]) -> (r: Option<Result<ModuleBreakdown, BreakdownError>>)
    ensures
        r is None <==> !sums_fit(events@),
        match r {
            Some(Ok(root)) => events@.len() > 0 && root.tree() == root_of(events@),
            Some(Err(e)) => events@.len() == 0 && e == BreakdownError::EmptySession,
            None => true,
        },
{
    if can_compute(events) {
        Some(compute(events))
    } else {
        None
    }
}

} // verus!
