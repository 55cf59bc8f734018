//! Which module call each command buffer belongs to.
//!
//! A command buffer belongs to the eval whose window covers its commit, the
//! latest one where several do, and through it to the innermost module open at
//! that eval. A command buffer that no eval covers belongs to the innermost
//! module open at its commit: lazy programs hardly ever evaluate explicitly.
//! Only what lies outside every window belongs to nobody.

use crate::command_buffers::{
    cb_ns, cb_views, cbs_of, clamped_command_buffers, sampled_of, CbView, CommandBuffer,
};
use crate::event::{lemma_prefix_step, Event, FieldValue, OpView, Payload};
use crate::op_clamp::clamp_fits;
use crate::select::{
    below, ints, kept, lemma_ints_add, lemma_ints_push, lemma_kept_add, lemma_kept_all,
    lemma_kept_below, lemma_kept_holds, lemma_kept_none, lemma_kept_push, lemma_kept_same,
    lemma_sum_add, lemma_sum_ordered, lemma_sum_split, sum,
};
use crate::sort::{ordered, rank, sort, Ranked};
use crate::tally::{total_count, total_ns, Entry};
use crate::windows::{
    eval_at, eval_spans, eval_views, eval_windows, evals_of, innermost, last_covering, scope_views,
    scope_windows, scopes_of, EvalView, EvalWindow, ScopeSweep, ScopeView,
};
use std::collections::HashMap;
use vstd::prelude::*;

verus! {

broadcast use vstd::std_specs::hash::group_hash_axioms;

/// The view of a [`FieldValue`].
pub ghost enum FieldView {
    Bool(bool),
    Int(i64),
    Float(u64),
    Text(Seq<char>),
}

impl View for FieldValue {
    type V = FieldView;

    open spec fn view(&self) -> FieldView {
        match *self {
            FieldValue::Bool(b) => FieldView::Bool(b),
            FieldValue::Int(i) => FieldView::Int(i),
            FieldValue::Float(f) => FieldView::Float(f),
            FieldValue::String(s) => FieldView::Text(s@),
        }
    }
}

/// The view of a list of named values.
pub open spec fn field_views(s: Seq<(String, FieldValue)>) -> Seq<(Seq<char>, FieldView)> {
    s.map_values(|f: (String, FieldValue)| (f.0@, f.1@))
}

/// A copy of a list of named values.
pub fn copy_fields(v: &Vec<(String, FieldValue)>) -> (r: Vec<(String, FieldValue)>)
    ensures
        field_views(r@) == field_views(v@),
{
    let mut r: Vec<(String, FieldValue)> = Vec::new();
    let mut i: usize = 0;
    while i < v.len()
        invariant
            i <= v@.len(),
            r@.len() == i,
            forall|k: int| 0 <= k < i ==> (#[trigger] r@[k]).0@ == v@[k].0@ && r@[k].1@ == v@[k].1@,
        decreases v@.len() - i,
    {
        let value = match &v[i].1 {
            FieldValue::Bool(b) => FieldValue::Bool(*b),
            FieldValue::Int(n) => FieldValue::Int(*n),
            FieldValue::Float(f) => FieldValue::Float(*f),
            FieldValue::String(s) => FieldValue::String(s.clone()),
        };
        r.push((v[i].0.clone(), value));
        i = i + 1;
    }
    assert(field_views(r@) =~= field_views(v@));
    r
}

/// One entry into a module.
pub struct Call {
    pub id: u64,
    pub qualname: String,
    pub class_name: String,
    pub parent: Option<u64>,
    pub fields: Vec<(String, FieldValue)>,
}

/// The view of a [`Call`].
pub ghost struct CallView {
    pub id: u64,
    pub qualname: Seq<char>,
    pub class_name: Seq<char>,
    pub parent: Option<u64>,
    pub fields: Seq<(Seq<char>, FieldView)>,
}

impl View for Call {
    type V = CallView;

    open spec fn view(&self) -> CallView {
        CallView {
            id: self.id,
            qualname: self.qualname@,
            class_name: self.class_name@,
            parent: self.parent,
            fields: field_views(self.fields@),
        }
    }
}

/// The views of a list of calls.
pub open spec fn call_views(s: Seq<Call>) -> Seq<CallView> {
    s.map_values(|c: Call| c@)
}

/// All entries into modules, in order.
pub open spec fn calls_of(events: Seq<Event>) -> Seq<CallView>
    decreases events.len(),
{
    if events.len() == 0 {
        seq![]
    } else {
        let rest = calls_of(events.drop_last());
        match events.last().payload {
            Payload::ModuleEntered {
                module_call_id,
                qualname,
                class_name,
                parent_call_id,
                fields,
                ..
            } => rest.push(
                CallView {
                    id: module_call_id,
                    qualname: qualname@,
                    class_name: class_name@,
                    parent: parent_call_id,
                    fields: field_views(fields@),
                },
            ),
            _ => rest,
        }
    }
}

/// The latest call with the id `id`.
pub open spec fn latest(calls: Seq<CallView>, id: u64) -> Option<int>
    decreases calls.len(),
{
    if calls.len() == 0 {
        None
    } else if calls.last().id == id {
        Some(calls.len() - 1)
    } else {
        latest(calls.drop_last(), id)
    }
}

pub proof fn lemma_latest(calls: Seq<CallView>, id: u64)
    ensures
        match latest(calls, id) {
            Some(k) => 0 <= k < calls.len() && calls[k].id == id && forall|j: int|
                k < j < calls.len() ==> (#[trigger] calls[j]).id != id,
            None => forall|j: int| 0 <= j < calls.len() ==> (#[trigger] calls[j]).id != id,
        },
    decreases calls.len(),
{
    if calls.len() > 0 {
        let rest = calls.drop_last();
        lemma_latest(rest, id);
        assert forall|j: int| 0 <= j < rest.len() implies rest[j] == #[trigger] calls[j] by {}
    }
}

/// Everything that attribution goes by.
pub ghost struct Session {
    pub calls: Seq<CallView>,
    pub evals: Seq<EvalView>,
    pub scopes: Seq<ScopeView>,
    pub cbs: Seq<CbView>,
    pub sampled: bool,
}

/// What attribution goes by, for a stream of events.
pub open spec fn session_of(events: Seq<Event>) -> Session {
    Session {
        calls: calls_of(events),
        evals: evals_of(events),
        scopes: scopes_of(events),
        cbs: cbs_of(events),
        sampled: sampled_of(events),
    }
}

impl Session {
    /// The eval whose window covers the commit of command buffer `j`.
    pub open spec fn eval_for(self, j: int) -> Option<int> {
        last_covering(eval_spans(self.evals), self.cbs[j].commit_ts)
    }

    /// The innermost known module that was open at eval `i`.
    pub open spec fn leaf(self, i: int) -> Option<u64> {
        let stack = self.evals[i].module_stack;
        if stack.len() > 0 && latest(self.calls, stack.last()) is Some {
            Some(stack.last())
        } else {
            None
        }
    }

    /// The module call that command buffer `j` belongs to.
    pub open spec fn owner(self, j: int) -> Option<u64> {
        match self.eval_for(j) {
            Some(i) => self.leaf(i),
            None => match innermost(self.scopes, self.cbs[j].commit_ts) {
                Some(w) => Some(self.scopes[w].call_id),
                None => None,
            },
        }
    }

    /// The command buffers whose commit eval `i` covers, or none does.
    pub open spec fn in_eval(self, i: Option<int>) -> spec_fn(int) -> bool {
        |j: int| self.eval_for(j) == i
    }

    /// The command buffers that belong to `id`, or to nobody.
    pub open spec fn owned_by(self, id: Option<u64>) -> spec_fn(int) -> bool {
        |j: int| self.owner(j) == id
    }

    /// The evals with the leaf `leaf`, or with none.
    pub open spec fn has_leaf(self, leaf: Option<u64>) -> spec_fn(int) -> bool {
        |i: int| self.leaf(i) == leaf
    }

    /// The command buffers without kernels.
    pub open spec fn unsampled(self) -> spec_fn(int) -> bool {
        |j: int| self.cbs[j].ops is None
    }

    /// The command buffers of eval `i`, in the order of their completions.
    pub open spec fn eval_cbs(self, i: int) -> Seq<int> {
        kept(below(self.cbs.len() as int), self.in_eval(Some(i)))
    }

    /// The command buffers of the first `n` evals, eval by eval.
    pub open spec fn evals_cbs(self, n: int) -> Seq<int>
        decreases n,
    {
        if n <= 0 {
            seq![]
        } else {
            self.evals_cbs(n - 1) + self.eval_cbs(n - 1)
        }
    }

    /// The command buffers that an eval covers, eval by eval.
    pub open spec fn covered(self) -> Seq<int> {
        self.evals_cbs(self.evals.len() as int)
    }

    /// Command buffers by the time of their commit.
    pub open spec fn by_commit(self) -> spec_fn(int, int) -> bool {
        |a: int, b: int| self.cbs[a].commit_ts < self.cbs[b].commit_ts
    }

    /// The command buffers that no eval covers, by the time of their commit.
    pub open spec fn uncovered(self) -> Seq<int> {
        ordered(
            kept(below(self.cbs.len() as int), self.in_eval(None)),
            self.by_commit(),
        )
    }

    /// The command buffers of the call `id`: first those of evals, then the
    /// rest.
    pub open spec fn cbs_owned(self, id: u64) -> Seq<int> {
        kept(self.covered(), self.owned_by(Some(id))) + kept(
            self.uncovered(),
            self.owned_by(Some(id)),
        )
    }

    /// The command buffers that no eval covers and that belong to nobody.
    pub open spec fn cbs_unmatched(self) -> Seq<int> {
        kept(self.uncovered(), self.owned_by(None))
    }

    /// The command buffers of evals that belong to nobody.
    pub open spec fn cbs_of_nobody(self) -> Seq<int> {
        kept(self.covered(), self.owned_by(None))
    }

    /// The command buffers that belong to nobody.
    pub open spec fn cbs_unscoped(self) -> Seq<int> {
        self.cbs_unmatched() + self.cbs_of_nobody()
    }

    /// The GPU time of each command buffer.
    pub open spec fn cb_time(self) -> spec_fn(int) -> nat {
        |j: int| cb_ns(self.cbs[j], self.sampled)
    }

    /// The GPU time of a list of command buffers.
    pub open spec fn ns(self, list: Seq<int>) -> nat {
        sum(list, self.cb_time())
    }

    /// The kernels of a list of command buffers, one entry each.
    pub open spec fn entries(self, list: Seq<int>) -> Seq<Entry>
        decreases list.len(),
    {
        if list.len() == 0 {
            seq![]
        } else {
            self.entries(list.drop_last()) + op_entries(self.cbs[list.last()].ops)
        }
    }

    /// How many evals have the leaf `leaf`.
    pub open spec fn evals_with_leaf(self, leaf: Option<u64>) -> nat {
        kept(below(self.evals.len() as int), self.has_leaf(leaf)).len()
    }

    /// How many completed command buffers carry no kernels although kernels
    /// were sampled.
    pub open spec fn without_samples(self) -> nat {
        if self.sampled {
            kept(below(self.cbs.len() as int), self.unsampled()).len()
        } else {
            0
        }
    }

    /// How many command buffers were attributed by the module open at their
    /// commit.
    pub open spec fn scope_attributed(self) -> nat {
        (self.uncovered().len() - self.cbs_unmatched().len()) as nat
    }
}

/// Each kernel as an entry under its name.
pub open spec fn op_entries(ops: Option<Seq<OpView>>) -> Seq<Entry> {
    match ops {
        Some(ops) => ops.map_values(
            |o: OpView|
                Entry { key: o.name, gpu_ns: o.gpu_ns, count: o.count, symbol: o.symbol, kind: None },
        ),
        None => seq![],
    }
}

impl Session {
    /// The evals from `m` on, or none.
    spec fn in_eval_from(self, m: int) -> spec_fn(int) -> bool {
        |j: int|
            match self.eval_for(j) {
                Some(i) => i >= m,
                None => true,
            }
    }

    proof fn lemma_sum_evals(self, m: int, f: spec_fn(int) -> nat)
        requires
            m >= 0,
        ensures
            sum(self.evals_cbs(m), f) + sum(
                kept(below(self.cbs.len() as int), self.in_eval_from(m)),
                f,
            ) == sum(below(self.cbs.len() as int), f),
            self.evals_cbs(m).len() + kept(
                below(self.cbs.len() as int),
                self.in_eval_from(m),
            ).len() == self.cbs.len(),
        decreases m,
    {
        let all = below(self.cbs.len() as int);
        if m == 0 {
            assert forall|k: int| 0 <= k < all.len() implies self.in_eval_from(0)(
                #[trigger] all[k],
            ) by {
                crate::windows::last_covering_is_last(
                    eval_spans(self.evals),
                    self.cbs[all[k]].commit_ts,
                );
            }
            lemma_kept_all(all, self.in_eval_from(0));
        } else {
            self.lemma_sum_evals(m - 1, f);
            lemma_sum_split(
                all,
                self.in_eval_from(m - 1),
                self.in_eval(Some(m - 1)),
                self.in_eval_from(m),
                f,
            );
            lemma_sum_add(self.evals_cbs(m - 1), self.eval_cbs(m - 1), f);
        }
    }

    /// Every command buffer is either covered by exactly one eval or by none:
    /// the two lists together hold each once.
    pub proof fn covered_and_uncovered_are_all(self, f: spec_fn(int) -> nat)
        ensures
            sum(self.covered(), f) + sum(self.uncovered(), f) == sum(
                below(self.cbs.len() as int),
                f,
            ),
            self.covered().len() + self.uncovered().len() == self.cbs.len(),
    {
        let all = below(self.cbs.len() as int);
        let n = self.evals.len() as int;
        self.lemma_sum_evals(n, f);
        assert forall|k: int| 0 <= k < all.len() implies self.in_eval_from(n)(#[trigger] all[k])
            == self.in_eval(None)(all[k]) by {
            crate::windows::last_covering_is_last(
                eval_spans(self.evals),
                self.cbs[all[k]].commit_ts,
            );
        }
        lemma_kept_same(all, self.in_eval_from(n), self.in_eval(None));
        lemma_sum_ordered(kept(all, self.in_eval(None)), self.by_commit(), f);
        crate::sort::ordered_is_permutation(kept(all, self.in_eval(None)), self.by_commit());
    }

    /// The kernels of two lists follow each other.
    pub proof fn lemma_entries_add(self, a: Seq<int>, b: Seq<int>)
        ensures
            self.entries(a + b) == self.entries(a) + self.entries(b),
        decreases b.len(),
    {
        if b.len() == 0 {
            assert(a + b =~= a);
            assert(self.entries(a) + self.entries(b) =~= self.entries(a));
        } else {
            let last = op_entries(self.cbs[b.last()].ops);
            self.lemma_entries_add(a, b.drop_last());
            assert((a + b).drop_last() =~= a + b.drop_last());
            assert(self.entries(a) + self.entries(b.drop_last()) + last =~= self.entries(a) + (
            self.entries(b.drop_last()) + last));
        }
    }

    /// One owner has no more command buffers than there are.
    pub proof fn lemma_owned_count(self, id: Option<u64>)
        ensures
            kept(self.covered(), self.owned_by(id)).len() + kept(
                self.uncovered(),
                self.owned_by(id),
            ).len() <= self.cbs.len(),
    {
        self.covered_and_uncovered_are_all(self.cb_time());
        lemma_kept_holds(self.covered(), self.owned_by(id));
        lemma_kept_holds(self.uncovered(), self.owned_by(id));
    }
}

/// Totals of entries add up.
pub proof fn lemma_total_add(a: Seq<Entry>, b: Seq<Entry>)
    ensures
        total_ns(a + b) == total_ns(a) + total_ns(b),
        total_count(a + b) == total_count(a) + total_count(b),
    decreases b.len(),
{
    if b.len() == 0 {
        assert(a + b =~= a);
    } else {
        lemma_total_add(a, b.drop_last());
        assert((a + b).drop_last() =~= a + b.drop_last());
    }
}

/// Each scope window belongs to a call.
proof fn lemma_scopes_are_calls(events: Seq<Event>, end: u64)
    ensures
        crate::windows::scope_scan(events, end).windows.len() == calls_of(events).len(),
        forall|k: int|
            0 <= k < calls_of(events).len() ==> (#[trigger] crate::windows::scope_scan(
                events,
                end,
            ).windows[k]).call_id == calls_of(events)[k].id,
    decreases events.len(),
{
    if events.len() > 0 {
        lemma_scopes_are_calls(events.drop_last(), end);
        crate::windows::lemma_scope_scan(events.drop_last(), end);
        let s = crate::windows::scope_scan(events.drop_last(), end);
        let t = crate::windows::scope_scan(events, end);
        match events.last().payload {
            Payload::ModuleReturned { module_call_id } => {
                crate::windows::lemma_last_position(s.open, module_call_id);
                if let Some(p) = crate::windows::last_position(s.open, module_call_id) {
                    assert(s.index.contains_key(s.open[p]));
                    assert forall|k: int| 0 <= k < t.windows.len() implies (
                    #[trigger] t.windows[k]).call_id == s.windows[k].call_id by {}
                }
            },
            _ => {},
        }
    }
}

/// Every scope window belongs to a known call.
pub proof fn lemma_scope_is_known(events: Seq<Event>, w: int)
    requires
        0 <= w < scopes_of(events).len(),
    ensures
        latest(calls_of(events), scopes_of(events)[w].call_id) is Some,
{
    let end = crate::windows::last_ts(events);
    let raw = crate::windows::scope_scan(events, end).windows;
    let x = scopes_of(events)[w];
    lemma_scopes_are_calls(events, end);
    assert(scopes_of(events).contains(x));
    crate::sort::lemma_ordered_contains(raw, crate::windows::scopes_by_entry(), x);
    let k = choose|k: int| 0 <= k < raw.len() && raw[k] == x;
    lemma_latest(calls_of(events), x.call_id);
    assert(calls_of(events)[k].id == x.call_id);
}

/// A command buffer awaiting a scope, with the time of its commit.
struct Late {
    ts: u64,
    cb: usize,
}

impl Ranked for Late {
    closed spec fn before(self, other: Self) -> bool {
        self.ts < other.ts
    }

    fn comes_before(&self, other: &Self) -> (b: bool) {
        self.ts < other.ts
    }
}

spec fn late_cbs(s: Seq<Late>) -> Seq<int> {
    s.map_values(|l: Late| l.cb as int)
}

/// The index finds the latest call of every id.
pub open spec fn index_ok(index: Map<u64, usize>, calls: Seq<CallView>) -> bool {
    forall|id: u64|
        #![trigger index.contains_key(id)]
        #![trigger latest(calls, id)]
        {
            &&& index.contains_key(id) <==> latest(calls, id) is Some
            &&& index.contains_key(id) ==> latest(calls, id) == Some(index[id] as int)
        }
}

/// Lists all module calls.
fn index_calls(events: &[Event]) -> (r: (Vec<Call>, HashMap<u64, usize>))
    ensures
        call_views(r.0@) == calls_of(events@),
        index_ok(r.1@, calls_of(events@)),
        r.0@.len() <= events@.len(),
{
    let mut calls: Vec<Call> = Vec::new();
    let mut index: HashMap<u64, usize> = HashMap::new();
    let mut i: usize = 0;
    assert(call_views(calls@) =~= Seq::<CallView>::empty());
    while i < events.len()
        invariant
            i <= events@.len(),
            calls@.len() <= i,
            call_views(calls@) == calls_of(events@.take(i as int)),
            index_ok(index@, calls_of(events@.take(i as int))),
        decreases events@.len() - i,
    {
        proof {
            lemma_prefix_step(events@, i as int);
        }
        let ghost before = calls_of(events@.take(i as int));
        match &events[i].payload {
            Payload::ModuleEntered {
                module_call_id,
                qualname,
                class_name,
                parent_call_id,
                fields,
                ..
            } => {
                let c = Call {
                    id: *module_call_id,
                    qualname: qualname.clone(),
                    class_name: class_name.clone(),
                    parent: *parent_call_id,
                    fields: copy_fields(fields),
                };
                index.insert(*module_call_id, calls.len());
                calls.push(c);
                proof {
                    assert(call_views(calls@) =~= before.push(c@));
                    assert(before.push(c@).drop_last() =~= before);
                }
            },
            _ => {},
        }
        i = i + 1;
    }
    assert(events@.take(events@.len() as int) =~= events@);
    (calls, index)
}

/// Where every command buffer of a session went.
pub struct Attribution {
    /// All module calls, in the order of their entries.
    pub calls: Vec<Call>,
    /// The latest call of each id.
    pub index: HashMap<u64, usize>,
    pub cbs: Vec<CommandBuffer>,
    pub sampled: bool,
    /// The command buffers of each call that is the latest of its id.
    pub owned: Vec<Vec<usize>>,
    /// How many evals each such call was the innermost module of.
    pub eval_counts: Vec<u64>,
    /// Command buffers outside every window.
    pub unmatched: Vec<usize>,
    /// Command buffers of evals outside every known module.
    pub of_nobody: Vec<usize>,
    pub unscoped_evals: u64,
    pub scope_attributed: u64,
    pub malformed_returns: u64,
}

impl Attribution {
    /// This is the attribution of `events`.
    pub open spec fn describes(&self, events: Seq<Event>) -> bool {
        let s = session_of(events);
        &&& call_views(self.calls@) == s.calls
        &&& index_ok(self.index@, s.calls)
        &&& cb_views(self.cbs@) == s.cbs
        &&& s.cbs.len() <= events.len()
        &&& s.evals.len() <= usize::MAX
        &&& self.sampled == s.sampled
        &&& self.owned@.len() == s.calls.len()
        &&& self.eval_counts@.len() == s.calls.len()
        &&& forall|k: int|
            0 <= k < s.calls.len() && latest(s.calls, s.calls[k].id) == Some(k) ==> ints(
                (#[trigger] self.owned@[k])@,
            ) == s.cbs_owned(s.calls[k].id)
        &&& forall|k: int|
            0 <= k < s.calls.len() && latest(s.calls, s.calls[k].id) == Some(k) ==> (
            #[trigger] self.eval_counts@[k]) == s.evals_with_leaf(Some(s.calls[k].id))
        &&& ints(self.unmatched@) == s.cbs_unmatched()
        &&& ints(self.of_nobody@) == s.cbs_of_nobody()
        &&& self.unscoped_evals == s.evals_with_leaf(None)
        &&& self.scope_attributed == s.scope_attributed()
        &&& self.malformed_returns == crate::windows::malformed_returns_of(events)
    }
}

/// Sorts the command buffers into those of each eval and the rest.
fn by_eval(evals: &Vec<EvalWindow>, cbs: &Vec<CommandBuffer>, Ghost(s): Ghost<Session>) -> (r: (
    Vec<Vec<usize>>,
    Vec<Late>,
))
    requires
        eval_views(evals@) == s.evals,
        cb_views(cbs@) == s.cbs,
    ensures
        r.0@.len() == evals@.len(),
        forall|i: int| 0 <= i < evals@.len() ==> ints((#[trigger] r.0@[i])@) == s.eval_cbs(i),
        late_cbs(r.1@) == s.uncovered(),
        forall|k: int|
            0 <= k < r.1@.len() ==> (#[trigger] r.1@[k]).cb < cbs@.len() && r.1@[k].ts
                == s.cbs[r.1@[k].cb as int].commit_ts,
        forall|i: int, j: int| 0 <= i <= j < r.1@.len() ==> (#[trigger] r.1@[i]).ts <= (
        #[trigger] r.1@[j]).ts,
{
    let mut buckets: Vec<Vec<usize>> = Vec::new();
    let mut late: Vec<Late> = Vec::new();
    let mut i: usize = 0;
    while i < evals.len()
        invariant
            i <= evals@.len(),
            buckets@.len() == i,
            forall|k: int| 0 <= k < i ==> (#[trigger] buckets@[k])@ == Seq::<usize>::empty(),
        decreases evals@.len() - i,
    {
        buckets.push(Vec::new());
        i = i + 1;
    }
    let mut j: usize = 0;
    proof {
        assert forall|k: int| 0 <= k < evals@.len() implies ints((#[trigger] buckets@[k])@) == kept(
            below(0),
            s.in_eval(Some(k)),
        ) by {
            assert(ints(buckets@[k]@) =~= Seq::<int>::empty());
            assert(below(0) =~= Seq::<int>::empty());
        }
        assert(late_cbs(late@) =~= Seq::<int>::empty());
        assert(below(0) =~= Seq::<int>::empty());
    }
    while j < cbs.len()
        invariant
            j <= cbs@.len(),
            eval_views(evals@) == s.evals,
            cb_views(cbs@) == s.cbs,
            buckets@.len() == evals@.len(),
            forall|k: int|
                0 <= k < evals@.len() ==> ints((#[trigger] buckets@[k])@) == kept(
                    below(j as int),
                    s.in_eval(Some(k)),
                ),
            late_cbs(late@) == kept(below(j as int), s.in_eval(None)),
            forall|k: int|
                0 <= k < late@.len() ==> (#[trigger] late@[k]).cb < cbs@.len() && late@[k].ts
                    == s.cbs[late@[k].cb as int].commit_ts,
        decreases cbs@.len() - j,
    {
        let ts: u64 = cbs[j].commit_ts;
        let ghost old_buckets = buckets@;
        let ghost old_late = late@;
        assert(s.cbs[j as int].commit_ts == ts);
        match eval_at(evals, ts) {
            Some(i) => {
                buckets[i].push(j);
                proof {
                    assert(s.eval_for(j as int) == Some(i as int));
                    lemma_ints_push(old_buckets[i as int]@, j);
                    assert forall|k: int| 0 <= k < evals@.len() implies ints(
                        (#[trigger] buckets@[k])@,
                    ) == kept(below(j + 1), s.in_eval(Some(k))) by {
                        lemma_kept_below(j as int, s.in_eval(Some(k)));
                        assert(ints(old_buckets[k]@) == kept(below(j as int), s.in_eval(Some(k))));
                    }
                    lemma_kept_below(j as int, s.in_eval(None));
                }
            },
            None => {
                late.push(Late { ts, cb: j });
                proof {
                    assert(s.eval_for(j as int) is None);
                    assert(late_cbs(late@) =~= late_cbs(old_late).push(j as int));
                    assert forall|k: int| 0 <= k < evals@.len() implies ints(
                        (#[trigger] buckets@[k])@,
                    ) == kept(below(j + 1), s.in_eval(Some(k))) by {
                        lemma_kept_below(j as int, s.in_eval(Some(k)));
                    }
                    lemma_kept_below(j as int, s.in_eval(None));
                    assert forall|k: int| 0 <= k < late@.len() implies (#[trigger] late@[k]).cb
                        < cbs@.len() && late@[k].ts == s.cbs[late@[k].cb as int].commit_ts by {
                        if k < old_late.len() {
                            assert(late@[k] == old_late[k]);
                        }
                    }
                }
            },
        }
        j = j + 1;
    }
    let ghost unsorted = late@;
    sort(&mut late);
    proof {
        let ok = |l: Late| l.cb < cbs@.len() && l.ts == s.cbs[l.cb as int].commit_ts;
        crate::sort::lemma_ordered_map_where(
            unsorted,
            |l: Late| l.cb as int,
            rank::<Late>(),
            s.by_commit(),
            ok,
        );
        crate::sort::ordered_is_in_order(unsorted, rank::<Late>());
        assert forall|i: int, j: int| 0 <= i <= j < late@.len() implies (#[trigger] late@[i]).ts
            <= (#[trigger] late@[j]).ts by {
            if i < j {
                assert(!rank::<Late>()(late@[j], late@[i]));
            }
        }
        assert forall|k: int| 0 <= k < late@.len() implies (#[trigger] late@[k]).cb < cbs@.len()
            && late@[k].ts == s.cbs[late@[k].cb as int].commit_ts by {
            assert(ok(late@[k]));
        }
    }
    (buckets, late)
}

/// Finds the owner of every command buffer.
pub fn attribute(events: &[Event]) -> (r: Attribution)
    requires
        clamp_fits(events@),
    ensures
        r.describes(events@),
{
    let (calls, index) = index_calls(events);
    let evals = eval_windows(events);
    let scopes = scope_windows(events);
    let buffers = clamped_command_buffers(events);
    let cbs = buffers.completed;
    let ghost s = session_of(events@);
    let (buckets, late) = by_eval(&evals, &cbs, Ghost(s));

    let n: usize = calls.len();
    let mut owned: Vec<Vec<usize>> = Vec::new();
    let mut eval_counts: Vec<u64> = Vec::new();
    let mut k: usize = 0;
    while k < n
        invariant
            k <= n,
            owned@.len() == k,
            eval_counts@.len() == k,
            forall|m: int| 0 <= m < k ==> (#[trigger] owned@[m])@ == Seq::<usize>::empty(),
            forall|m: int| 0 <= m < k ==> (#[trigger] eval_counts@[m]) == 0,
        decreases n - k,
    {
        owned.push(Vec::new());
        eval_counts.push(0);
        k = k + 1;
    }
    let mut of_nobody: Vec<usize> = Vec::new();
    let mut unscoped_evals: u64 = 0;
    let mut i: usize = 0;
    proof {
        assert(below(0) =~= Seq::<int>::empty());
        assert(ints(of_nobody@) =~= Seq::<int>::empty());
        assert forall|m: int| 0 <= m < n implies ints((#[trigger] owned@[m])@) == Seq::<
            int,
        >::empty() by {
            assert(ints(owned@[m]@) =~= Seq::<int>::empty());
        }
        lemma_len_views(evals@, s);
    }
    // Each eval hands its command buffers to its leaf.
    while i < evals.len()
        invariant
            i <= evals@.len() == s.evals.len(),
            s == session_of(events@),
            n == s.calls.len(),
            eval_views(evals@) == s.evals,
            index_ok(index@, s.calls),
            buckets@.len() == evals@.len(),
            forall|m: int| 0 <= m < evals@.len() ==> ints((#[trigger] buckets@[m])@) == s.eval_cbs(m),
            owned@.len() == n,
            eval_counts@.len() == n,
            forall|m: int|
                0 <= m < n && latest(s.calls, s.calls[m].id) == Some(m) ==> ints(
                    (#[trigger] owned@[m])@,
                ) == kept(s.evals_cbs(i as int), s.owned_by(Some(s.calls[m].id))),
            forall|m: int|
                0 <= m < n && latest(s.calls, s.calls[m].id) == Some(m) ==> (
                #[trigger] eval_counts@[m]) == kept(
                    below(i as int),
                    s.has_leaf(Some(s.calls[m].id)),
                ).len(),
            forall|m: int| 0 <= m < n ==> (#[trigger] eval_counts@[m]) <= i,
            ints(of_nobody@) == kept(s.evals_cbs(i as int), s.owned_by(None)),
            unscoped_evals == kept(below(i as int), s.has_leaf(None)).len(),
            unscoped_evals <= i,
        decreases evals@.len() - i,
    {
        let w = &evals[i];
        assert(s.evals[i as int] == w@);
        let slot: Option<usize> = if w.module_stack.len() == 0 {
            None
        } else {
            match index.get(&w.module_stack[w.module_stack.len() - 1]) {
                Some(k) => Some(*k),
                None => None,
            }
        };
        let ghost old_owned = owned@;
        let ghost old_counts = eval_counts@;
        let ghost old_nobody = of_nobody@;
        let ghost mine = s.eval_cbs(i as int);
        proof {
            lemma_kept_holds(below(s.cbs.len() as int), s.in_eval(Some(i as int)));
            assert forall|t: int| 0 <= t < mine.len() implies s.owner(#[trigger] mine[t]) == s.leaf(
                i as int,
            ) by {
                assert(s.in_eval(Some(i as int))(mine[t]));
            }
            assert(s.evals_cbs(i + 1) == s.evals_cbs(i as int) + mine);
            lemma_kept_below(i as int, s.has_leaf(None));
            lemma_kept_add(s.evals_cbs(i as int), mine, s.owned_by(None));
            assert forall|m: int| 0 <= m < n && latest(s.calls, s.calls[m].id) == Some(m) implies {
                &&& kept(s.evals_cbs(i + 1), s.owned_by(Some(s.calls[m].id))) == kept(
                    s.evals_cbs(i as int),
                    s.owned_by(Some(s.calls[m].id)),
                ) + if s.leaf(i as int) == Some(s.calls[m].id) {
                    mine
                } else {
                    seq![]
                }
                &&& kept(below(i + 1), s.has_leaf(Some(s.calls[m].id))).len() == kept(
                    below(i as int),
                    s.has_leaf(Some(s.calls[m].id)),
                ).len() + if s.leaf(i as int) == Some(#[trigger] s.calls[m].id) {
                    1nat
                } else {
                    0nat
                }
            } by {
                let id = s.calls[m].id;
                lemma_kept_below(i as int, s.has_leaf(Some(id)));
                lemma_kept_add(s.evals_cbs(i as int), mine, s.owned_by(Some(id)));
                if s.leaf(i as int) == Some(id) {
                    lemma_kept_all(mine, s.owned_by(Some(id)));
                } else {
                    lemma_kept_none(mine, s.owned_by(Some(id)));
                }
            }
        }
        match slot {
            Some(k) => {
                let ghost leaf = w.module_stack@.last();
                proof {
                    lemma_latest(s.calls, leaf);
                    assert(s.leaf(i as int) == Some(leaf));
                    lemma_kept_none(mine, s.owned_by(None));
                }
                let mut t: usize = 0;
                while t < buckets[i].len()
                    invariant
                        t <= buckets@[i as int]@.len(),
                        i < buckets@.len(),
                        k < owned@.len() == old_owned.len(),
                        owned@[k as int]@ == old_owned[k as int]@ + buckets@[i as int]@.take(
                            t as int,
                        ),
                        forall|m: int|
                            0 <= m < owned@.len() && m != k ==> owned@[m] == old_owned[m],
                    decreases buckets@[i as int]@.len() - t,
                {
                    let x: usize = buckets[i][t];
                    owned[k].push(x);
                    proof {
                        let b = buckets@[i as int]@;
                        assert(b.take(t + 1) =~= b.take(t as int).push(x));
                        assert(owned@[k as int]@ =~= old_owned[k as int]@ + b.take(t + 1));
                    }
                    t = t + 1;
                }
                eval_counts[k] = eval_counts[k] + 1;
                proof {
                    let b = buckets@[i as int]@;
                    assert(b.take(b.len() as int) =~= b);
                    lemma_ints_add(old_owned[k as int]@, b);
                    assert(kept(s.evals_cbs(i as int), s.owned_by(None)) + Seq::<int>::empty()
                        =~= kept(s.evals_cbs(i as int), s.owned_by(None)));
                    assert forall|m: int|
                        0 <= m < n && latest(s.calls, s.calls[m].id) == Some(m) implies ints(
                        (#[trigger] owned@[m])@,
                    ) == kept(s.evals_cbs(i + 1), s.owned_by(Some(s.calls[m].id))) by {
                        let before = kept(
                            s.evals_cbs(i as int),
                            s.owned_by(Some(s.calls[m].id)),
                        );
                        assert(ints(old_owned[m]@) == before);
                        if m != k {
                            assert(s.calls[m].id != leaf);
                            assert(before + Seq::<int>::empty() =~= before);
                        }
                    }
                    assert forall|m: int|
                        0 <= m < n && latest(s.calls, s.calls[m].id) == Some(m) implies (
                    #[trigger] eval_counts@[m]) == kept(
                        below(i + 1),
                        s.has_leaf(Some(s.calls[m].id)),
                    ).len() by {
                        assert(old_counts[m] == kept(
                            below(i as int),
                            s.has_leaf(Some(s.calls[m].id)),
                        ).len());
                        if m != k {
                            assert(s.calls[m].id != leaf);
                        }
                    }
                    assert forall|m: int| 0 <= m < n implies (#[trigger] eval_counts@[m]) <= i
                        + 1 by {
                        assert(old_counts[m] <= i);
                    }
                }
            },
            None => {
                proof {
                    assert(s.leaf(i as int) is None);
                    lemma_kept_all(mine, s.owned_by(None));
                }
                let mut t: usize = 0;
                while t < buckets[i].len()
                    invariant
                        t <= buckets@[i as int]@.len(),
                        i < buckets@.len(),
                        of_nobody@ == old_nobody + buckets@[i as int]@.take(t as int),
                    decreases buckets@[i as int]@.len() - t,
                {
                    let x: usize = buckets[i][t];
                    of_nobody.push(x);
                    proof {
                        let b = buckets@[i as int]@;
                        assert(b.take(t + 1) =~= b.take(t as int).push(x));
                        assert(of_nobody@ =~= old_nobody + b.take(t + 1));
                    }
                    t = t + 1;
                }
                unscoped_evals = unscoped_evals + 1;
                proof {
                    let b = buckets@[i as int]@;
                    assert(b.take(b.len() as int) =~= b);
                    lemma_ints_add(old_nobody, b);
                    assert forall|m: int|
                        0 <= m < n && latest(s.calls, s.calls[m].id) == Some(m) implies ints(
                        (#[trigger] owned@[m])@,
                    ) == kept(s.evals_cbs(i + 1), s.owned_by(Some(s.calls[m].id))) by {
                        let before = kept(
                            s.evals_cbs(i as int),
                            s.owned_by(Some(s.calls[m].id)),
                        );
                        assert(s.calls[m].id == s.calls[m].id);
                        assert(before + Seq::<int>::empty() =~= before);
                    }
                    assert forall|m: int|
                        0 <= m < n && latest(s.calls, s.calls[m].id) == Some(m) implies (
                    #[trigger] eval_counts@[m]) == kept(
                        below(i + 1),
                        s.has_leaf(Some(s.calls[m].id)),
                    ).len() by {
                        assert(s.calls[m].id == s.calls[m].id);
                    }
                }
            },
        }
        i = i + 1;
    }

    // The rest goes to the innermost scope open at the commit.
    let ghost with_evals = owned@;
    let mut unmatched: Vec<usize> = Vec::new();
    let mut scope_attributed: u64 = 0;
    let mut sweep = ScopeSweep::new(&scopes.windows);
    let ghost rest = s.uncovered();
    let mut j: usize = 0;
    proof {
        assert(rest.take(0) =~= Seq::<int>::empty());
        assert(ints(unmatched@) =~= Seq::<int>::empty());
        assert forall|m: int| 0 <= m < n && latest(s.calls, s.calls[m].id) == Some(m) implies ints(
            (#[trigger] owned@[m])@,
        ) == kept(s.covered(), s.owned_by(Some(s.calls[m].id))) + kept(
            rest.take(0),
            s.owned_by(Some(s.calls[m].id)),
        ) by {
            let a = kept(s.covered(), s.owned_by(Some(s.calls[m].id)));
            assert(a + Seq::<int>::empty() =~= a);
        }
    }
    while j < late.len()
        invariant
            j <= late@.len(),
            s == session_of(events@),
            n == s.calls.len(),
            index_ok(index@, s.calls),
            rest == s.uncovered(),
            late_cbs(late@) == rest,
            forall|k: int|
                0 <= k < late@.len() ==> (#[trigger] late@[k]).cb < s.cbs.len() && late@[k].ts
                    == s.cbs[late@[k].cb as int].commit_ts,
            forall|i: int, j: int|
                0 <= i <= j < late@.len() ==> (#[trigger] late@[i]).ts <= (#[trigger] late@[j]).ts,
            sweep.wf(),
            scope_views(sweep.scopes()) == s.scopes,
            j > 0 ==> sweep.now() <= late@[j - 1].ts,
            j == 0 ==> sweep.now() == 0,
            owned@.len() == n,
            forall|m: int|
                0 <= m < n && latest(s.calls, s.calls[m].id) == Some(m) ==> ints(
                    (#[trigger] owned@[m])@,
                ) == kept(s.covered(), s.owned_by(Some(s.calls[m].id))) + kept(
                    rest.take(j as int),
                    s.owned_by(Some(s.calls[m].id)),
                ),
            ints(unmatched@) == kept(rest.take(j as int), s.owned_by(None)),
            scope_attributed + unmatched@.len() == j,
        decreases late@.len() - j,
    {
        let x: usize = late[j].cb;
        let ts: u64 = late[j].ts;
        let ghost old_owned = owned@;
        let ghost old_unmatched = unmatched@;
        proof {
            if j > 0 {
                assert(late@[j - 1].ts <= late@[j as int].ts);
            }
            assert(rest[j as int] == x);
            assert(rest.take(j + 1) =~= rest.take(j as int).push(x as int));
            lemma_kept_push(rest.take(j as int), x as int, s.owned_by(None));
            // Nothing that an eval covers is left here.
            let raw = kept(below(s.cbs.len() as int), s.in_eval(None));
            lemma_kept_holds(below(s.cbs.len() as int), s.in_eval(None));
            assert(rest.contains(x as int));
            crate::sort::lemma_ordered_contains(raw, s.by_commit(), x as int);
            let q = choose|q: int| 0 <= q < raw.len() && raw[q] == x;
            assert(s.in_eval(None)(raw[q]));
            assert(s.eval_for(x as int) is None);
        }
        match sweep.innermost_at(ts) {
            Some(win) => {
                proof {
                    let w = innermost(s.scopes, ts)->0;
                    assert(s.scopes[w] == win@);
                    lemma_scope_is_known(events@, w);
                    assert(s.owner(x as int) == Some(win.call_id));
                    lemma_latest(s.calls, win.call_id);
                }
                if let Some(k) = index.get(&win.call_id) {
                    let k: usize = *k;
                    owned[k].push(x);
                    proof {
                        lemma_ints_push(old_owned[k as int]@, x);
                        assert forall|m: int|
                            0 <= m < n && latest(s.calls, s.calls[m].id) == Some(m) implies ints(
                            (#[trigger] owned@[m])@,
                        ) == kept(s.covered(), s.owned_by(Some(s.calls[m].id))) + kept(
                            rest.take(j + 1),
                            s.owned_by(Some(s.calls[m].id)),
                        ) by {
                            let id = s.calls[m].id;
                            let a = kept(s.covered(), s.owned_by(Some(id)));
                            let b = kept(rest.take(j as int), s.owned_by(Some(id)));
                            assert(ints(old_owned[m]@) == a + b);
                            lemma_kept_push(rest.take(j as int), x as int, s.owned_by(Some(id)));
                            if m == k {
                                assert((a + b).push(x as int) =~= a + b.push(x as int));
                            } else {
                                assert(id != win.call_id);
                            }
                        }
                    }
                }
                scope_attributed = scope_attributed + 1;
            },
            None => {
                unmatched.push(x);
                proof {
                    lemma_ints_push(old_unmatched, x);
                    assert(s.owner(x as int) is None);
                    assert forall|m: int|
                        0 <= m < n && latest(s.calls, s.calls[m].id) == Some(m) implies ints(
                        (#[trigger] owned@[m])@,
                    ) == kept(s.covered(), s.owned_by(Some(s.calls[m].id))) + kept(
                        rest.take(j + 1),
                        s.owned_by(Some(s.calls[m].id)),
                    ) by {
                        let id = s.calls[m].id;
                        lemma_kept_push(rest.take(j as int), x as int, s.owned_by(Some(id)));
                    }
                }
            },
        }
        j = j + 1;
    }
    proof {
        assert(rest.take(rest.len() as int) =~= rest);
    }
    Attribution {
        calls,
        index,
        cbs,
        sampled: buffers.sampled,
        owned,
        eval_counts,
        unmatched,
        of_nobody,
        unscoped_evals,
        scope_attributed,
        malformed_returns: scopes.malformed_returns,
    }
}

proof fn lemma_len_views(evals: Seq<EvalWindow>, s: Session)
    requires
        eval_views(evals) == s.evals,
    ensures
        evals.len() == s.evals.len(),
{
}

} // verus!
