//! Which Python source line dispatched which kernels.
//!
//! Joins the top frame of each eval with the command buffers committed within
//! the eval's window, adding up per kind and `file:line`.

use crate::command_buffers::{
    cb_views, cbs_of, clamped_command_buffers, strays_of, CbView, CommandBuffer,
};
use crate::event::{op_views, Event, OpSample, OpView};
use crate::op_clamp::{can_clamp, clamp_fits};
use crate::op_kinds::{kind_of, resolve_kind};
use crate::sort::{ordered, rank, sort, Ranked};
use crate::text::opt_view;
use crate::windows::{
    eval_at, eval_spans, eval_views, eval_windows, evals_of, innermost, last_covering, scope_views,
    scope_windows, scopes_of, EvalView, EvalWindow, ScopeSweep, ScopeView,
};
use vstd::prelude::*;

verus! {

broadcast use vstd::string::group_string_axioms;

/// GPU time of one kind of kernel dispatched from one place.
#[derive(Debug, Clone, PartialEq, Eq, Default)]
pub struct DispatchOrigin {
    pub kind: String,
    pub file_line: String,
    pub gpu_ns: u64,
    pub dispatch_count: u64,
}

/// The view of a [`DispatchOrigin`].
pub ghost struct OriginView {
    pub kind: Seq<char>,
    pub file_line: Seq<char>,
    pub gpu_ns: nat,
    pub dispatch_count: nat,
}

impl View for DispatchOrigin {
    type V = OriginView;

    open spec fn view(&self) -> OriginView {
        OriginView {
            kind: self.kind@,
            file_line: self.file_line@,
            gpu_ns: self.gpu_ns as nat,
            dispatch_count: self.dispatch_count as nat,
        }
    }
}

/// The views of a list of origins.
pub open spec fn origin_views(s: Seq<DispatchOrigin>) -> Seq<OriginView> {
    s.map_values(|o: DispatchOrigin| o@)
}

impl Ranked for DispatchOrigin {
    open spec fn before(self, other: Self) -> bool {
        self.gpu_ns > other.gpu_ns
    }

    fn comes_before(&self, other: &Self) -> (b: bool) {
        self.gpu_ns > other.gpu_ns
    }
}

/// Origins by GPU time, largest first.
pub open spec fn origins_by_ns() -> spec_fn(OriginView, OriginView) -> bool {
    |a: OriginView, b: OriginView| a.gpu_ns > b.gpu_ns
}

/// The evals of which a frame was captured.
pub open spec fn framed(s: Seq<EvalView>) -> Seq<EvalView>
    decreases s.len(),
{
    if s.len() == 0 {
        seq![]
    } else if s.last().top_frame is Some {
        framed(s.drop_last()).push(s.last())
    } else {
        framed(s.drop_last())
    }
}

/// Where a command buffer committed at `ts` came from: the frame of the latest
/// framed eval covering it, else the innermost scope open at it.
pub open spec fn origin_at(
    evals: Seq<EvalView>,
    scopes: Seq<ScopeView>,
    ts: u64,
) -> Option<Seq<char>> {
    match last_covering(eval_spans(evals), ts) {
        Some(i) => evals[i].top_frame,
        None => match innermost(scopes, ts) {
            Some(w) => Some("scope:"@ + scopes[w].qualname),
            None => None,
        },
    }
}

/// The kind of a kernel: that of its symbol, else the symbol, else its name.
pub open spec fn op_kind_of(o: OpView) -> Seq<char> {
    match o.symbol {
        Some(s) => match kind_of(s) {
            Some(k) => k,
            None => s,
        },
        None => o.name,
    }
}

/// The kernels of a command buffer, dispatched from `at`.
pub open spec fn dispatches(ops: Seq<OpView>, at: Seq<char>) -> Seq<OriginView> {
    ops.map_values(
        |o: OpView|
            OriginView {
                kind: op_kind_of(o),
                file_line: at,
                gpu_ns: o.gpu_ns,
                dispatch_count: o.count,
            },
    )
}

/// The command buffers with kernels.
pub open spec fn with_kernels(s: Seq<CbView>) -> Seq<CbView>
    decreases s.len(),
{
    if s.len() == 0 {
        seq![]
    } else if s.last().ops is Some {
        with_kernels(s.drop_last()).push(s.last())
    } else {
        with_kernels(s.drop_last())
    }
}

/// Command buffers by the time of their commit.
pub open spec fn cbs_by_commit() -> spec_fn(CbView, CbView) -> bool {
    |a: CbView, b: CbView| a.commit_ts < b.commit_ts
}

/// Every dispatch of the command buffers `cbs` that comes from somewhere.
pub open spec fn all_dispatches(
    cbs: Seq<CbView>,
    evals: Seq<EvalView>,
    scopes: Seq<ScopeView>,
) -> Seq<OriginView>
    decreases cbs.len(),
{
    if cbs.len() == 0 {
        seq![]
    } else {
        all_dispatches(cbs.drop_last(), evals, scopes) + match origin_at(
            evals,
            scopes,
            cbs.last().commit_ts,
        ) {
            Some(at) => dispatches(cbs.last().ops->0, at),
            None => seq![],
        }
    }
}

/// Where the row of a kind and place stands.
pub open spec fn origin_row(
    rows: Seq<OriginView>,
    kind: Seq<char>,
    file_line: Seq<char>,
) -> Option<int>
    decreases rows.len(),
{
    if rows.len() == 0 {
        None
    } else if origin_row(rows.drop_last(), kind, file_line) is Some {
        origin_row(rows.drop_last(), kind, file_line)
    } else if rows.last().kind == kind && rows.last().file_line == file_line {
        Some(rows.len() - 1)
    } else {
        None
    }
}

/// `rows` with the dispatch `d` booked.
pub open spec fn origin_booked(rows: Seq<OriginView>, d: OriginView) -> Seq<OriginView> {
    match origin_row(rows, d.kind, d.file_line) {
        Some(i) => rows.update(
            i,
            OriginView {
                kind: d.kind,
                file_line: d.file_line,
                gpu_ns: rows[i].gpu_ns + d.gpu_ns,
                dispatch_count: rows[i].dispatch_count + d.dispatch_count,
            },
        ),
        None => rows.push(d),
    }
}

/// One row per kind and place, in the order in which they first occur.
pub open spec fn origin_tally(s: Seq<OriginView>) -> Seq<OriginView>
    decreases s.len(),
{
    if s.len() == 0 {
        seq![]
    } else {
        origin_booked(origin_tally(s.drop_last()), s.last())
    }
}

/// The command buffers of a session with kernels.
pub open spec fn kernels_of(events: Seq<Event>) -> Seq<CbView> {
    with_kernels(cbs_of(events)) + with_kernels(strays_of(events))
}

/// The dispatches that the origins of a session are made of.
pub open spec fn dispatches_of(events: Seq<Event>) -> Seq<OriginView> {
    all_dispatches(
        ordered(kernels_of(events), cbs_by_commit()),
        framed(evals_of(events)),
        scopes_of(events),
    )
}

/// The dispatch origins of a session.
pub open spec fn origins_of(events: Seq<Event>) -> Seq<OriginView> {
    ordered(origin_tally(dispatches_of(events)), origins_by_ns())
}

/// Every row is a row of 64-bit numbers.
pub open spec fn origin_rows_fit(rows: Seq<OriginView>) -> bool {
    forall|i: int|
        0 <= i < rows.len() ==> (#[trigger] rows[i]).gpu_ns <= u64::MAX && rows[i].dispatch_count
            <= u64::MAX
}

/// Each row of the origins of a session fits 64 bits.
pub open spec fn origins_fit(events: Seq<Event>) -> bool {
    clamp_fits(events) && origin_rows_fit(origin_tally(dispatches_of(events)))
}

/// The GPU time of a list of origins.
pub open spec fn origins_ns(s: Seq<OriginView>) -> nat
    decreases s.len(),
{
    if s.len() == 0 {
        0
    } else {
        origins_ns(s.drop_last()) + s.last().gpu_ns
    }
}

/// The dispatches of a list of origins.
pub open spec fn origins_count(s: Seq<OriginView>) -> nat
    decreases s.len(),
{
    if s.len() == 0 {
        0
    } else {
        origins_count(s.drop_last()) + s.last().dispatch_count
    }
}

pub proof fn lemma_origin_row(rows: Seq<OriginView>, kind: Seq<char>, file_line: Seq<char>)
    ensures
        match origin_row(rows, kind, file_line) {
            Some(i) => {
                &&& 0 <= i < rows.len()
                &&& rows[i].kind == kind && rows[i].file_line == file_line
                &&& forall|j: int|
                    0 <= j < i ==> !((#[trigger] rows[j]).kind == kind && rows[j].file_line
                        == file_line)
            },
            None => forall|j: int|
                0 <= j < rows.len() ==> !((#[trigger] rows[j]).kind == kind && rows[j].file_line
                    == file_line),
        },
    decreases rows.len(),
{
    if rows.len() > 0 {
        let rest = rows.drop_last();
        lemma_origin_row(rest, kind, file_line);
        assert forall|j: int| 0 <= j < rest.len() implies rest[j] == #[trigger] rows[j] by {}
    }
}

proof fn lemma_origins_update(s: Seq<OriginView>, i: int, d: OriginView)
    requires
        0 <= i < s.len(),
    ensures
        origins_ns(s.update(i, d)) == origins_ns(s) - s[i].gpu_ns + d.gpu_ns,
        origins_count(s.update(i, d)) == origins_count(s) - s[i].dispatch_count + d.dispatch_count,
        s[i].gpu_ns <= origins_ns(s),
        s[i].dispatch_count <= origins_count(s),
    decreases s.len(),
{
    let t = s.update(i, d);
    if i == s.len() - 1 {
        assert(t.drop_last() =~= s.drop_last());
    } else {
        lemma_origins_update(s.drop_last(), i, d);
        assert(t.drop_last() =~= s.drop_last().update(i, d));
    }
}

proof fn lemma_origin_booked(rows: Seq<OriginView>, d: OriginView)
    ensures
        origins_ns(origin_booked(rows, d)) == origins_ns(rows) + d.gpu_ns,
        origins_count(origin_booked(rows, d)) == origins_count(rows) + d.dispatch_count,
{
    lemma_origin_row(rows, d.kind, d.file_line);
    match origin_row(rows, d.kind, d.file_line) {
        Some(i) => lemma_origins_update(
            rows,
            i,
            OriginView {
                kind: d.kind,
                file_line: d.file_line,
                gpu_ns: rows[i].gpu_ns + d.gpu_ns,
                dispatch_count: rows[i].dispatch_count + d.dispatch_count,
            },
        ),
        None => assert(rows.push(d).drop_last() =~= rows),
    }
}

/// The rows of the origins add up to exactly the dispatches they are made of.
pub proof fn origins_conserve(s: Seq<OriginView>)
    ensures
        origins_ns(origin_tally(s)) == origins_ns(s),
        origins_count(origin_tally(s)) == origins_count(s),
    decreases s.len(),
{
    if s.len() > 0 {
        origins_conserve(s.drop_last());
        lemma_origin_booked(origin_tally(s.drop_last()), s.last());
    }
}

/// Origins and the breakdown pick the same eval for a command buffer, wherever
/// the eval has a frame: the latest one covering the commit.
pub proof fn origins_follow_the_breakdown(events: Seq<Event>, j: int)
    requires
        0 <= j < cbs_of(events).len(),
        forall|i: int|
            0 <= i < evals_of(events).len() ==> (#[trigger] evals_of(events)[i]).top_frame is Some,
    ensures
        match crate::attribution::session_of(events).eval_for(j) {
            Some(i) => origin_at(
                framed(evals_of(events)),
                scopes_of(events),
                cbs_of(events)[j].commit_ts,
            ) == evals_of(events)[i].top_frame,
            None => origin_at(
                framed(evals_of(events)),
                scopes_of(events),
                cbs_of(events)[j].commit_ts,
            ) == match innermost(scopes_of(events), cbs_of(events)[j].commit_ts) {
                Some(w) => Some("scope:"@ + scopes_of(events)[w].qualname),
                None => None,
            },
        },
{
    lemma_all_framed(evals_of(events));
}

proof fn lemma_all_framed(s: Seq<EvalView>)
    requires
        forall|i: int| 0 <= i < s.len() ==> (#[trigger] s[i]).top_frame is Some,
    ensures
        framed(s) == s,
    decreases s.len(),
{
    if s.len() > 0 {
        lemma_all_framed(s.drop_last());
        assert(s[s.len() - 1].top_frame is Some);
        assert(s =~= s.drop_last().push(s.last()));
    }
}

/// The kind of a kernel.
pub fn op_kind(op: &OpSample) -> (k: String)
    ensures
        k@ == op_kind_of(op@),
{
    match &op.symbol {
        Some(s) => match resolve_kind(s.as_str()) {
            Some(k) => k.to_owned(),
            None => s.clone(),
        },
        None => op.name.clone(),
    }
}

proof fn lemma_origins_grow(a: Seq<OriginView>, b: Seq<OriginView>)
    requires
        origin_rows_fit(origin_tally(a + b)),
    ensures
        origin_rows_fit(origin_tally(a)),
    decreases b.len(),
{
    if b.len() == 0 {
        assert(a + b =~= a);
    } else {
        let rows = origin_tally(a + b.drop_last());
        let d = b.last();
        assert((a + b).drop_last() =~= a + b.drop_last());
        lemma_origin_row(rows, d.kind, d.file_line);
        assert forall|i: int| 0 <= i < rows.len() implies (#[trigger] rows[i]).gpu_ns <= u64::MAX
            && rows[i].dispatch_count <= u64::MAX by {
            let row = origin_booked(rows, d)[i];
            assert(row.gpu_ns >= rows[i].gpu_ns && row.dispatch_count >= rows[i].dispatch_count);
        }
        lemma_origins_grow(a, b.drop_last());
    }
}

proof fn lemma_origins_fit(rows: Seq<DispatchOrigin>)
    ensures
        origin_rows_fit(origin_views(rows)),
{
    assert forall|i: int| 0 <= i < rows.len() implies (#[trigger] origin_views(rows)[i]).gpu_ns
        <= u64::MAX && origin_views(rows)[i].dispatch_count <= u64::MAX by {
        assert(origin_views(rows)[i] == rows[i]@);
    }
}

/// Books one dispatch, unless its row would not fit 64 bits.
fn try_book(
    rows: &mut Vec<DispatchOrigin>,
    kind: String,
    file_line: &str,
    gpu_ns: u64,
    count: u64,
) -> (ok: bool)
    ensures
        ({
            let booked = origin_booked(
                origin_views(old(rows)@),
                OriginView {
                    kind: kind@,
                    file_line: file_line@,
                    gpu_ns: gpu_ns as nat,
                    dispatch_count: count as nat,
                },
            );
            &&& ok == origin_rows_fit(booked)
            &&& ok ==> origin_views(final(rows)@) == booked
        }),
{
    let ghost before = origin_views(rows@);
    let ghost d = OriginView {
        kind: kind@,
        file_line: file_line@,
        gpu_ns: gpu_ns as nat,
        dispatch_count: count as nat,
    };
    let place = file_line.to_owned();
    let mut i: usize = 0;
    proof {
        lemma_origin_row(before, kind@, file_line@);
    }
    while i < rows.len()
        invariant
            i <= rows@.len(),
            rows@ == old(rows)@,
            before == origin_views(rows@),
            place@ == file_line@,
            d == (OriginView {
                kind: kind@,
                file_line: file_line@,
                gpu_ns: gpu_ns as nat,
                dispatch_count: count as nat,
            }),
            forall|j: int|
                0 <= j < i ==> !((#[trigger] before[j]).kind == kind@ && before[j].file_line
                    == file_line@),
            match origin_row(before, kind@, file_line@) {
                Some(k) => {
                    &&& 0 <= k < before.len()
                    &&& before[k].kind == kind@ && before[k].file_line == file_line@
                    &&& forall|j: int|
                        0 <= j < k ==> !((#[trigger] before[j]).kind == kind@ && before[j].file_line
                            == file_line@)
                },
                None => forall|j: int|
                    0 <= j < before.len() ==> !((#[trigger] before[j]).kind == kind@
                        && before[j].file_line == file_line@),
            },
        decreases rows@.len() - i,
    {
        assert(before[i as int] == rows@[i as int]@);
        if rows[i].kind == kind && rows[i].file_line == place {
            let ghost row = origin_booked(before, d)[i as int];
            proof {
                assert(row.gpu_ns == before[i as int].gpu_ns + gpu_ns);
                assert(row.dispatch_count == before[i as int].dispatch_count + count);
            }
            match (rows[i].gpu_ns.checked_add(gpu_ns), rows[i].dispatch_count.checked_add(count)) {
                (Some(gpu_ns), Some(count)) => {
                    rows[i].gpu_ns = gpu_ns;
                    rows[i].dispatch_count = count;
                    proof {
                        assert(origin_views(rows@) =~= before.update(i as int, rows@[i as int]@));
                        lemma_origins_fit(rows@);
                    }
                    return true;
                },
                _ => return false,
            }
        }
        i = i + 1;
    }
    let row = DispatchOrigin { kind, file_line: place, gpu_ns, dispatch_count: count };
    rows.push(row);
    proof {
        assert(origin_views(rows@) =~= before.push(row@));
        lemma_origins_fit(rows@);
    }
    true
}

/// Books the kernels of one command buffer, unless a row would not fit 64
/// bits.
fn try_book_all(
    rows: &mut Vec<DispatchOrigin>,
    ops: &Vec<OpSample>,
    at: &str,
    Ghost(s): Ghost<Seq<OriginView>>,
) -> (ok: bool)
    requires
        origin_views(old(rows)@) == origin_tally(s),
    ensures
        ok == origin_rows_fit(origin_tally(s + dispatches(op_views(ops@), at@))),
        ok ==> origin_views(final(rows)@) == origin_tally(s + dispatches(op_views(ops@), at@)),
{
    let ghost ops_v = op_views(ops@);
    let ghost list = dispatches(ops_v, at@);
    let mut i: usize = 0;
    assert(s + list.take(0) =~= s);
    while i < ops.len()
        invariant
            i <= ops@.len(),
            ops_v == op_views(ops@),
            list == dispatches(ops_v, at@),
            origin_views(rows@) == origin_tally(s + list.take(i as int)),
        decreases ops@.len() - i,
    {
        let ghost longer = s + list.take(i + 1);
        proof {
            assert(ops_v[i as int] == ops@[i as int]@);
            assert(longer.drop_last() =~= s + list.take(i as int));
            assert(longer.last() == list[i as int]);
        }
        if !try_book(rows, op_kind(&ops[i]), at, ops[i].gpu_ns, ops[i].count as u64) {
            proof {
                assert(longer + list.skip(i + 1) =~= s + list);
                if origin_rows_fit(origin_tally(s + list)) {
                    lemma_origins_grow(longer, list.skip(i + 1));
                }
            }
            return false;
        }
        i = i + 1;
    }
    proof {
        assert(list.take(list.len() as int) =~= list);
        lemma_origins_fit(rows@);
    }
    true
}

/// Keeps the evals of which a frame was captured.
fn keep_framed(evals: Vec<EvalWindow>) -> (r: Vec<EvalWindow>)
    ensures
        eval_views(r@) == framed(eval_views(evals@)),
{
    let ghost all = eval_views(evals@);
    let mut rest = evals;
    let mut picked: Vec<EvalWindow> = Vec::new();
    // Taken from the back, then turned round.
    assert(all.take(all.len() as int) =~= all);
    assert(framed(all) =~= framed(all) + eval_views(picked@).reverse());
    while rest.len() > 0
        invariant
            rest@.len() <= all.len(),
            eval_views(rest@) == all.take(rest@.len() as int),
            framed(all) == framed(all.take(rest@.len() as int)) + eval_views(picked@).reverse(),
        decreases rest@.len(),
    {
        let ghost n = rest@.len();
        let ghost head = all.take(n as int);
        let ghost before = picked@;
        assert(head.drop_last() =~= all.take(n - 1));
        if let Some(w) = rest.pop() {
            assert(head.last() == w@);
            assert(eval_views(rest@) =~= all.take(n - 1));
            if w.top_frame.is_some() {
                picked.push(w);
                proof {
                    let a = framed(all.take(n - 1));
                    assert(eval_views(picked@) =~= eval_views(before).push(w@));
                    assert(eval_views(before).push(w@).reverse() =~= seq![w@] + eval_views(
                        before,
                    ).reverse());
                    assert(a.push(w@) + eval_views(before).reverse() =~= a + eval_views(
                        picked@,
                    ).reverse());
                }
            }
        }
    }
    let mut out: Vec<EvalWindow> = Vec::new();
    let ghost turned = eval_views(picked@).reverse();
    assert(framed(all) =~= turned);
    assert(eval_views(out@) =~= turned.take(0));
    while picked.len() > 0
        invariant
            turned.len() == out@.len() + picked@.len(),
            eval_views(out@) == turned.take(out@.len() as int),
            forall|k: int|
                0 <= k < picked@.len() ==> (#[trigger] picked@[k])@ == turned[turned.len() - 1 - k],
        decreases picked@.len(),
    {
        let ghost before = out@;
        let ghost m = picked@.len();
        if let Some(w) = picked.pop() {
            assert(w@ == turned[turned.len() - m]);
            out.push(w);
            assert(eval_views(out@) =~= turned.take((before.len() + 1) as int));
        }
    }
    assert(turned.take(turned.len() as int) =~= turned);
    out
}

/// A command buffer with kernels, ranked by its commit.
struct Committed<'a> {
    ts: u64,
    ops: &'a Vec<OpSample>,
    cb: Ghost<CbView>,
}

impl<'a> Ranked for Committed<'a> {
    closed spec fn before(self, other: Self) -> bool {
        self.ts < other.ts
    }

    fn comes_before(&self, other: &Self) -> (b: bool) {
        self.ts < other.ts
    }
}

spec fn committed_views(s: Seq<Committed>) -> Seq<CbView> {
    s.map_values(|c: Committed| c.cb@)
}

spec fn committed_ok(c: Committed) -> bool {
    c.cb@.commit_ts == c.ts && c.cb@.ops == Some(op_views(c.ops@))
}

/// Adds the command buffers with kernels to `out`.
fn push_kernels<'a>(out: &mut Vec<Committed<'a>>, cbs: &'a Vec<CommandBuffer>)
    requires
        forall|i: int| 0 <= i < old(out)@.len() ==> committed_ok(#[trigger] old(out)@[i]),
    ensures
        committed_views(final(out)@) == committed_views(old(out)@) + with_kernels(cb_views(cbs@)),
        forall|i: int| 0 <= i < final(out)@.len() ==> committed_ok(#[trigger] final(out)@[i]),
{
    let ghost all = cb_views(cbs@);
    let ghost start = committed_views(out@);
    let mut i: usize = 0;
    assert(all.take(0) =~= Seq::<CbView>::empty());
    assert(committed_views(out@) =~= start + Seq::<CbView>::empty());
    while i < cbs.len()
        invariant
            i <= cbs@.len(),
            all == cb_views(cbs@),
            committed_views(out@) == start + with_kernels(all.take(i as int)),
            forall|i: int| 0 <= i < out@.len() ==> committed_ok(#[trigger] out@[i]),
        decreases cbs@.len() - i,
    {
        assert(all.take(i + 1).drop_last() =~= all.take(i as int));
        assert(all[i as int] == cbs@[i as int]@);
        let c = &cbs[i];
        let ghost before = out@;
        if let Some(ops) = &c.ops {
            let item = Committed { ts: c.commit_ts, ops, cb: Ghost(c@) };
            out.push(item);
            assert(committed_views(out@) =~= committed_views(before).push(c@));
            assert(committed_views(out@) =~= start + with_kernels(all.take(i as int)).push(c@));
        }
        i = i + 1;
    }
    assert(all.take(all.len() as int) =~= all);
}

/// The command buffers with kernels, by the time of their commit.
fn by_commit<'a>(cbs: &'a Vec<CommandBuffer>, stray: &'a Vec<CommandBuffer>) -> (r: Vec<
    Committed<'a>,
>)
    ensures
        committed_views(r@) == ordered(
            with_kernels(cb_views(cbs@)) + with_kernels(cb_views(stray@)),
            cbs_by_commit(),
        ),
        forall|i: int| 0 <= i < r@.len() ==> committed_ok(#[trigger] r@[i]),
        forall|i: int, j: int|
            0 <= i <= j < r@.len() ==> (#[trigger] r@[i]).ts <= (#[trigger] r@[j]).ts,
{
    let mut out: Vec<Committed> = Vec::new();
    push_kernels(&mut out, cbs);
    assert(committed_views(out@) =~= with_kernels(cb_views(cbs@)));
    push_kernels(&mut out, stray);
    let ghost unsorted = out@;
    sort(&mut out);
    proof {
        let ok = |c: Committed| committed_ok(c);
        crate::sort::lemma_ordered_map_where(
            unsorted,
            |c: Committed| c.cb@,
            rank::<Committed>(),
            cbs_by_commit(),
            ok,
        );
        crate::sort::ordered_is_in_order(unsorted, rank::<Committed>());
        assert forall|i: int, j: int| 0 <= i <= j < out@.len() implies (#[trigger] out@[i]).ts
            <= (#[trigger] out@[j]).ts by {
            if i < j {
                assert(!rank::<Committed>()(out@[j], out@[i]));
            }
        }
        assert forall|i: int| 0 <= i < out@.len() implies committed_ok(#[trigger] out@[i]) by {
            assert(ok(out@[i]));
        }
    }
    out
}

/// The dispatches of a longer list begin with those of a shorter one.
proof fn lemma_dispatches_prefix(
    cbs: Seq<CbView>,
    evals: Seq<EvalView>,
    scopes: Seq<ScopeView>,
    i: int,
) -> (rest: Seq<OriginView>)
    requires
        0 <= i <= cbs.len(),
    ensures
        all_dispatches(cbs, evals, scopes) == all_dispatches(cbs.take(i), evals, scopes) + rest,
    decreases cbs.len(),
{
    if i == cbs.len() {
        assert(cbs.take(i) =~= cbs);
        let rest = Seq::<OriginView>::empty();
        assert(all_dispatches(cbs, evals, scopes) + rest =~= all_dispatches(cbs, evals, scopes));
        rest
    } else {
        let most = cbs.drop_last();
        assert(most.take(i) =~= cbs.take(i));
        let first = lemma_dispatches_prefix(most, evals, scopes, i);
        let last = match origin_at(evals, scopes, cbs.last().commit_ts) {
            Some(at) => dispatches(cbs.last().ops->0, at),
            None => seq![],
        };
        let start = all_dispatches(cbs.take(i), evals, scopes);
        assert(start + first + last =~= start + (first + last));
        first + last
    }
}

/// [`compute_dispatch_origins`], or `None` where a row does not fit 64 bits.
pub fn try_dispatch_origins(events: &[Event]) -> (r: Option<Vec<DispatchOrigin>>)
    ensures
        match r {
            Some(r) => origins_fit(events@) && origin_views(r@) == origins_of(events@),
            None => !origins_fit(events@),
        },
{
    if !can_clamp(events) {
        return None;
    }
    let evals = keep_framed(eval_windows(events));
    let scopes = scope_windows(events);
    let buffers = clamped_command_buffers(events);
    let cbs = by_commit(&buffers.completed, &buffers.stray);
    let ghost all = ordered(kernels_of(events@), cbs_by_commit());
    let ghost ev = framed(evals_of(events@));
    let ghost sc = scopes_of(events@);
    let mut rows: Vec<DispatchOrigin> = Vec::new();
    let mut sweep = ScopeSweep::new(&scopes.windows);
    let mut i: usize = 0;
    proof {
        assert(all.take(0) =~= Seq::<CbView>::empty());
        assert(origin_views(rows@) =~= Seq::<OriginView>::empty());
    }
    while i < cbs.len()
        invariant
            i <= cbs@.len(),
            all == committed_views(cbs@),
            ev == eval_views(evals@),
            ev == framed(evals_of(events@)),
            clamp_fits(events@),
            sc == scopes_of(events@),
            all == ordered(kernels_of(events@), cbs_by_commit()),
            forall|i: int| 0 <= i < cbs@.len() ==> committed_ok(#[trigger] cbs@[i]),
            forall|i: int, j: int|
                0 <= i <= j < cbs@.len() ==> (#[trigger] cbs@[i]).ts <= (#[trigger] cbs@[j]).ts,
            sweep.wf(),
            scope_views(sweep.scopes()) == sc,
            i > 0 ==> sweep.now() <= cbs@[i - 1].ts,
            i == 0 ==> sweep.now() == 0,
            origin_views(rows@) == origin_tally(all_dispatches(all.take(i as int), ev, sc)),
        decreases cbs@.len() - i,
    {
        let ts: u64 = cbs[i].ts;
        let ghost so_far = all_dispatches(all.take(i as int), ev, sc);
        proof {
            if i > 0 {
                assert(cbs@[i - 1].ts <= cbs@[i as int].ts);
            }
            assert(committed_ok(cbs@[i as int]));
            assert(all[i as int] == cbs@[i as int].cb@);
            assert(all.take(i + 1).drop_last() =~= all.take(i as int));
            assert(so_far + Seq::<OriginView>::empty() =~= so_far);
        }
        let frame: Option<String> = match eval_at(&evals, ts) {
            Some(k) => {
                proof {
                    assert(ev[k as int] == evals@[k as int]@);
                    lemma_framed_has_frame(evals_of(events@), k as int);
                }
                match &evals[k].top_frame {
                    Some(f) => Some(f.clone()),
                    None => None,
                }
            },
            None => match sweep.innermost_at(ts) {
                Some(win) => {
                    let mut s = "scope:".to_owned();
                    s.append(win.qualname.as_str());
                    Some(s)
                },
                None => None,
            },
        };
        assert(opt_view(frame) == origin_at(ev, sc, ts));
        if let Some(at) = &frame {
            if !try_book_all(&mut rows, cbs[i].ops, at.as_str(), Ghost(so_far)) {
                proof {
                    let rest = lemma_dispatches_prefix(all, ev, sc, i + 1);
                    if origins_fit(events@) {
                        lemma_origins_grow(all_dispatches(all.take(i + 1), ev, sc), rest);
                    }
                }
                return None;
            }
        }
        i = i + 1;
    }
    proof {
        assert(all.take(all.len() as int) =~= all);
        lemma_origins_fit(rows@);
        crate::sort::lemma_ordered_map(
            rows@,
            |o: DispatchOrigin| o@,
            rank::<DispatchOrigin>(),
            origins_by_ns(),
        );
    }
    sort(&mut rows);
    Some(rows)
}

/// Computes the GPU time per kind and `file:line`.
///
/// Each completed command buffer is attributed at its commit, by the same
/// rules as the breakdown: the latest eval window covering it names the
/// `file:line`; failing that, the innermost open scope (`scope:<qualname>`).
/// Evals without a captured frame are left out, for they would shadow an
/// enclosing eval that has one. Kernels of a command buffer that was neither
/// committed nor completed count as committed when they arrive.
pub fn compute_dispatch_origins(events: &[Event]) -> (r: Vec<DispatchOrigin>)
    requires
        origins_fit(events@),
    ensures
        origin_views(r@) == origins_of(events@),
{
    match try_dispatch_origins(events) {
        Some(rows) => rows,
        None => Vec::new(),
    }
}

proof fn lemma_framed_has_frame(s: Seq<EvalView>, k: int)
    requires
        0 <= k < framed(s).len(),
    ensures
        framed(s)[k].top_frame is Some,
    decreases s.len(),
{
    if s.len() > 0 {
        if k < framed(s.drop_last()).len() {
            lemma_framed_has_frame(s.drop_last(), k);
        }
    }
}

} // verus!
