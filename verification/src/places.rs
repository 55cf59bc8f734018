//! Which place each kernel is told to come from, and what the places add up to.

use crate::command_buffers::{cbs_of, strays_of, CbView};
use crate::dispatch_origins::{
    all_dispatches, cbs_by_commit, dispatches, dispatches_of, framed, kernels_of, lemma_origin_row,
    origin_at, origin_row, origin_tally, origins_by_ns, origins_of, with_kernels, OriginView,
};
use crate::event::{Event, OpView};
use crate::op_kinds::{kind_of, kind_table, table_kind};
use crate::sort::{lemma_ordered_contains, ordered, ordered_is_in_order, placed};
use crate::text::starts_with;
use crate::windows::{
    eval_spans, evals_of, graced, last_covering, last_covering_is_last, scope_spans, scopes_of,
    EvalView, ScopeView,
};
use vstd::prelude::*;

verus! {

/// The GPU time that a list of origins holds for a kind at a place.
pub open spec fn at_place_ns(s: Seq<OriginView>, kind: Seq<char>, place: Seq<char>) -> nat
    decreases s.len(),
{
    if s.len() == 0 {
        0
    } else {
        at_place_ns(s.drop_last(), kind, place) + if s.last().kind == kind && s.last().file_line
            == place {
            s.last().gpu_ns
        } else {
            0
        }
    }
}

/// The dispatches that a list of origins holds for a kind at a place.
pub open spec fn at_place_count(s: Seq<OriginView>, kind: Seq<char>, place: Seq<char>) -> nat
    decreases s.len(),
{
    if s.len() == 0 {
        0
    } else {
        at_place_count(s.drop_last(), kind, place) + if s.last().kind == kind && s.last().file_line
            == place {
            s.last().dispatch_count
        } else {
            0
        }
    }
}

/// A kernel is of the kind of its symbol, else of its symbol, else of its name.
pub open spec fn is_of_kind(o: OpView, kind: Seq<char>) -> bool {
    if o.symbol is None {
        o.name == kind
    } else if kind_of(o.symbol->0) is None {
        o.symbol == Some(kind)
    } else {
        kind_of(o.symbol->0) == Some(kind)
    }
}

/// The GPU time of the kernels of a kind.
pub open spec fn of_kind_ns(ops: Seq<OpView>, kind: Seq<char>) -> nat
    decreases ops.len(),
{
    if ops.len() == 0 {
        0
    } else {
        of_kind_ns(ops.drop_last(), kind) + if is_of_kind(ops.last(), kind) {
            ops.last().gpu_ns
        } else {
            0
        }
    }
}

/// The dispatches of the kernels of a kind.
pub open spec fn of_kind_count(ops: Seq<OpView>, kind: Seq<char>) -> nat
    decreases ops.len(),
{
    if ops.len() == 0 {
        0
    } else {
        of_kind_count(ops.drop_last(), kind) + if is_of_kind(ops.last(), kind) {
            ops.last().count
        } else {
            0
        }
    }
}

/// What is committed at `ts` comes from `place`.
pub open spec fn comes_from(
    evals: Seq<EvalView>,
    scopes: Seq<ScopeView>,
    ts: u64,
    place: Seq<char>,
) -> bool {
    origin_at(framed(evals), scopes, ts) == Some(place)
}

/// The GPU time and dispatches of the kernels of a kind that come from a place, over a
/// list of command buffers.
pub open spec fn buffers_at_place(
    cbs: Seq<CbView>,
    evals: Seq<EvalView>,
    scopes: Seq<ScopeView>,
    kind: Seq<char>,
    place: Seq<char>,
) -> (nat, nat)
    decreases cbs.len(),
{
    if cbs.len() == 0 {
        (0, 0)
    } else {
        let rest = buffers_at_place(cbs.drop_last(), evals, scopes, kind, place);
        let c = cbs.last();
        if c.ops is Some && comes_from(evals, scopes, c.commit_ts, place) {
            (rest.0 + of_kind_ns(c.ops->0, kind), rest.1 + of_kind_count(c.ops->0, kind))
        } else {
            rest
        }
    }
}

/// What one command buffer adds.
spec fn one_at_place(
    c: CbView,
    evals: Seq<EvalView>,
    scopes: Seq<ScopeView>,
    kind: Seq<char>,
    place: Seq<char>,
) -> (nat, nat) {
    if c.ops is Some && comes_from(evals, scopes, c.commit_ts, place) {
        (of_kind_ns(c.ops->0, kind), of_kind_count(c.ops->0, kind))
    } else {
        (0, 0)
    }
}

proof fn lemma_at_place_add(
    a: Seq<OriginView>,
    b: Seq<OriginView>,
    kind: Seq<char>,
    place: Seq<char>,
)
    ensures
        at_place_ns(a + b, kind, place) == at_place_ns(a, kind, place) + at_place_ns(
            b,
            kind,
            place,
        ),
        at_place_count(a + b, kind, place) == at_place_count(a, kind, place) + at_place_count(
            b,
            kind,
            place,
        ),
    decreases b.len(),
{
    if b.len() == 0 {
        assert(a + b =~= a);
    } else {
        lemma_at_place_add(a, b.drop_last(), kind, place);
        assert((a + b).drop_last() =~= a + b.drop_last());
    }
}

spec fn held_at(d: OriginView, kind: Seq<char>, place: Seq<char>) -> (nat, nat) {
    if d.kind == kind && d.file_line == place {
        (d.gpu_ns, d.dispatch_count)
    } else {
        (0, 0)
    }
}

proof fn lemma_at_place_update(
    s: Seq<OriginView>,
    i: int,
    d: OriginView,
    kind: Seq<char>,
    place: Seq<char>,
)
    requires
        0 <= i < s.len(),
    ensures
        at_place_ns(s.update(i, d), kind, place) + held_at(s[i], kind, place).0 == at_place_ns(
            s,
            kind,
            place,
        ) + held_at(d, kind, place).0,
        at_place_count(s.update(i, d), kind, place) + held_at(s[i], kind, place).1
            == at_place_count(s, kind, place) + held_at(d, kind, place).1,
    decreases s.len(),
{
    let t = s.update(i, d);
    if i == s.len() - 1 {
        assert(t.drop_last() =~= s.drop_last());
    } else {
        lemma_at_place_update(s.drop_last(), i, d, kind, place);
        assert(t.drop_last() =~= s.drop_last().update(i, d));
    }
}

proof fn lemma_tally_at_place(s: Seq<OriginView>, kind: Seq<char>, place: Seq<char>)
    ensures
        at_place_ns(origin_tally(s), kind, place) == at_place_ns(s, kind, place),
        at_place_count(origin_tally(s), kind, place) == at_place_count(s, kind, place),
    decreases s.len(),
{
    if s.len() > 0 {
        let rows = origin_tally(s.drop_last());
        let d = s.last();
        lemma_tally_at_place(s.drop_last(), kind, place);
        lemma_origin_row(rows, d.kind, d.file_line);
        match origin_row(rows, d.kind, d.file_line) {
            Some(i) => lemma_at_place_update(
                rows,
                i,
                OriginView {
                    kind: d.kind,
                    file_line: d.file_line,
                    gpu_ns: rows[i].gpu_ns + d.gpu_ns,
                    dispatch_count: rows[i].dispatch_count + d.dispatch_count,
                },
                kind,
                place,
            ),
            None => assert(rows.push(d).drop_last() =~= rows),
        }
    }
}

/// No kind has two rows at one place.
pub open spec fn origins_apart(rows: Seq<OriginView>) -> bool {
    forall|i: int, j: int|
        0 <= i < j < rows.len() ==> !((#[trigger] rows[i]).kind == (#[trigger] rows[j]).kind
            && rows[i].file_line == rows[j].file_line)
}

proof fn lemma_tally_apart(s: Seq<OriginView>)
    ensures
        origins_apart(origin_tally(s)),
    decreases s.len(),
{
    if s.len() > 0 {
        let rows = origin_tally(s.drop_last());
        let d = s.last();
        let now = origin_tally(s);
        lemma_tally_apart(s.drop_last());
        lemma_origin_row(rows, d.kind, d.file_line);
        assert forall|i: int, j: int| 0 <= i < j < now.len() implies !((
        #[trigger] now[i]).kind == (#[trigger] now[j]).kind && now[i].file_line
            == now[j].file_line) by {
            match origin_row(rows, d.kind, d.file_line) {
                Some(k) => {
                    assert(now[i].kind == rows[i].kind && now[i].file_line == rows[i].file_line);
                    assert(now[j].kind == rows[j].kind && now[j].file_line == rows[j].file_line);
                },
                None => {
                    assert(now[i] == rows[i]);
                    if j < rows.len() {
                        assert(now[j] == rows[j]);
                    }
                },
            }
        }
    }
}

proof fn lemma_at_place_placed(
    s: Seq<OriginView>,
    x: OriginView,
    lt: spec_fn(OriginView, OriginView) -> bool,
    kind: Seq<char>,
    place: Seq<char>,
)
    ensures
        at_place_ns(placed(s, x, lt), kind, place) == at_place_ns(s, kind, place) + held_at(
            x,
            kind,
            place,
        ).0,
        at_place_count(placed(s, x, lt), kind, place) == at_place_count(s, kind, place) + held_at(
            x,
            kind,
            place,
        ).1,
    decreases s.len(),
{
    if s.len() == 0 || !lt(x, s.last()) {
        assert(s.push(x).drop_last() =~= s);
    } else {
        lemma_at_place_placed(s.drop_last(), x, lt, kind, place);
        let p = placed(s.drop_last(), x, lt);
        assert(p.push(s.last()).drop_last() =~= p);
    }
}

proof fn lemma_at_place_ordered(
    s: Seq<OriginView>,
    lt: spec_fn(OriginView, OriginView) -> bool,
    kind: Seq<char>,
    place: Seq<char>,
)
    ensures
        at_place_ns(ordered(s, lt), kind, place) == at_place_ns(s, kind, place),
        at_place_count(ordered(s, lt), kind, place) == at_place_count(s, kind, place),
    decreases s.len(),
{
    if s.len() > 0 {
        lemma_at_place_ordered(s.drop_last(), lt, kind, place);
        lemma_at_place_placed(ordered(s.drop_last(), lt), s.last(), lt, kind, place);
    }
}

proof fn lemma_dispatches(ops: Seq<OpView>, at: Seq<char>, kind: Seq<char>, place: Seq<char>)
    ensures
        at_place_ns(dispatches(ops, at), kind, place) == if at == place {
            of_kind_ns(ops, kind)
        } else {
            0
        },
        at_place_count(dispatches(ops, at), kind, place) == if at == place {
            of_kind_count(ops, kind)
        } else {
            0
        },
    decreases ops.len(),
{
    if ops.len() > 0 {
        lemma_dispatches(ops.drop_last(), at, kind, place);
        assert(dispatches(ops, at).drop_last() =~= dispatches(ops.drop_last(), at));
    }
}

/// All of `cbs` have kernels.
spec fn have_kernels(cbs: Seq<CbView>) -> bool {
    forall|i: int| 0 <= i < cbs.len() ==> (#[trigger] cbs[i]).ops is Some
}

proof fn lemma_all_dispatches(
    cbs: Seq<CbView>,
    evals: Seq<EvalView>,
    scopes: Seq<ScopeView>,
    kind: Seq<char>,
    place: Seq<char>,
)
    requires
        have_kernels(cbs),
    ensures
        ({
            let s = all_dispatches(cbs, framed(evals), scopes);
            let sums = buffers_at_place(cbs, evals, scopes, kind, place);
            at_place_ns(s, kind, place) == sums.0 && at_place_count(s, kind, place) == sums.1
        }),
    decreases cbs.len(),
{
    if cbs.len() > 0 {
        let rest = cbs.drop_last();
        let c = cbs[cbs.len() - 1];
        assert(have_kernels(rest)) by {
            assert forall|i: int| 0 <= i < rest.len() implies (#[trigger] rest[i]).ops is Some by {
                assert(rest[i] == cbs[i]);
            }
        }
        lemma_all_dispatches(rest, evals, scopes, kind, place);
        let a = all_dispatches(rest, framed(evals), scopes);
        match origin_at(framed(evals), scopes, c.commit_ts) {
            Some(at) => {
                lemma_dispatches(c.ops->0, at, kind, place);
                lemma_at_place_add(a, dispatches(c.ops->0, at), kind, place);
            },
            None => {
                assert(a + Seq::<OriginView>::empty() =~= a);
            },
        }
    }
}

proof fn lemma_buffers_placed(
    s: Seq<CbView>,
    x: CbView,
    lt: spec_fn(CbView, CbView) -> bool,
    evals: Seq<EvalView>,
    scopes: Seq<ScopeView>,
    kind: Seq<char>,
    place: Seq<char>,
)
    ensures
        ({
            let p = buffers_at_place(placed(s, x, lt), evals, scopes, kind, place);
            let q = buffers_at_place(s, evals, scopes, kind, place);
            let o = one_at_place(x, evals, scopes, kind, place);
            p.0 == q.0 + o.0 && p.1 == q.1 + o.1
        }),
        have_kernels(s) && x.ops is Some ==> have_kernels(placed(s, x, lt)),
    decreases s.len(),
{
    if s.len() == 0 || !lt(x, s.last()) {
        assert(s.push(x).drop_last() =~= s);
    } else {
        let rest = s.drop_last();
        lemma_buffers_placed(rest, x, lt, evals, scopes, kind, place);
        let p = placed(rest, x, lt);
        assert(p.push(s.last()).drop_last() =~= p);
        if have_kernels(s) && x.ops is Some {
            assert forall|i: int| 0 <= i < rest.len() implies (#[trigger] rest[i]).ops is Some by {
                assert(rest[i] == s[i]);
            }
            assert(s[s.len() - 1].ops is Some);
        }
    }
}

proof fn lemma_buffers_ordered(
    s: Seq<CbView>,
    lt: spec_fn(CbView, CbView) -> bool,
    evals: Seq<EvalView>,
    scopes: Seq<ScopeView>,
    kind: Seq<char>,
    place: Seq<char>,
)
    requires
        have_kernels(s),
    ensures
        buffers_at_place(ordered(s, lt), evals, scopes, kind, place) == buffers_at_place(
            s,
            evals,
            scopes,
            kind,
            place,
        ),
        have_kernels(ordered(s, lt)),
    decreases s.len(),
{
    if s.len() > 0 {
        let rest = s.drop_last();
        assert forall|i: int| 0 <= i < rest.len() implies (#[trigger] rest[i]).ops is Some by {
            assert(rest[i] == s[i]);
        }
        assert(s[s.len() - 1].ops is Some);
        lemma_buffers_ordered(rest, lt, evals, scopes, kind, place);
        lemma_buffers_placed(ordered(rest, lt), s.last(), lt, evals, scopes, kind, place);
    }
}

proof fn lemma_with_kernels(
    s: Seq<CbView>,
    evals: Seq<EvalView>,
    scopes: Seq<ScopeView>,
    kind: Seq<char>,
    place: Seq<char>,
)
    ensures
        have_kernels(with_kernels(s)),
        buffers_at_place(with_kernels(s), evals, scopes, kind, place) == buffers_at_place(
            s,
            evals,
            scopes,
            kind,
            place,
        ),
    decreases s.len(),
{
    if s.len() > 0 {
        lemma_with_kernels(s.drop_last(), evals, scopes, kind, place);
        let r = with_kernels(s.drop_last());
        assert(r.push(s.last()).drop_last() =~= r);
    }
}

proof fn lemma_buffers_add(
    a: Seq<CbView>,
    b: Seq<CbView>,
    evals: Seq<EvalView>,
    scopes: Seq<ScopeView>,
    kind: Seq<char>,
    place: Seq<char>,
)
    ensures
        ({
            let p = buffers_at_place(a + b, evals, scopes, kind, place);
            let x = buffers_at_place(a, evals, scopes, kind, place);
            let y = buffers_at_place(b, evals, scopes, kind, place);
            p.0 == x.0 + y.0 && p.1 == x.1 + y.1
        }),
    decreases b.len(),
{
    if b.len() == 0 {
        assert(a + b =~= a);
    } else {
        lemma_buffers_add(a, b.drop_last(), evals, scopes, kind, place);
        assert((a + b).drop_last() =~= a + b.drop_last());
    }
}

/// The origins of a session hold for each kind and place the time and the dispatches of
/// exactly the kernels of that kind whose command buffer comes from there, those seen
/// without their command buffer included. There is one row for each, and the longest
/// comes first.
pub proof fn origins_hold_the_kernels_of_their_place(
    events: Seq<Event>,
    kind: Seq<char>,
    place: Seq<char>,
)
    ensures
        ({
            let (evals, scopes) = (evals_of(events), scopes_of(events));
            let a = buffers_at_place(cbs_of(events), evals, scopes, kind, place);
            let b = buffers_at_place(strays_of(events), evals, scopes, kind, place);
            &&& at_place_ns(origins_of(events), kind, place) == a.0 + b.0
            &&& at_place_count(origins_of(events), kind, place) == a.1 + b.1
        }),
        origins_apart(origins_of(events)),
        forall|i: int, j: int|
            0 <= i < j < origins_of(events).len() ==> (#[trigger] origins_of(events)[i]).gpu_ns >= (
            #[trigger] origins_of(events)[j]).gpu_ns,
{
    let (evals, scopes) = (evals_of(events), scopes_of(events));
    let (c, t) = (cbs_of(events), strays_of(events));
    let (x, y) = (with_kernels(c), with_kernels(t));
    lemma_with_kernels(c, evals, scopes, kind, place);
    lemma_with_kernels(t, evals, scopes, kind, place);
    lemma_buffers_add(x, y, evals, scopes, kind, place);
    assert(have_kernels(x + y));
    lemma_buffers_ordered(x + y, cbs_by_commit(), evals, scopes, kind, place);
    let cbs = ordered(kernels_of(events), cbs_by_commit());
    lemma_all_dispatches(cbs, evals, scopes, kind, place);
    let d = dispatches_of(events);
    lemma_tally_at_place(d, kind, place);
    lemma_tally_apart(d);
    let rows = origin_tally(d);
    let o = origins_of(events);
    let lt = origins_by_ns();
    lemma_at_place_ordered(rows, lt, kind, place);
    assert(crate::sort::strict_weak(lt));
    ordered_is_in_order(rows, lt);
    assert forall|i: int, j: int| 0 <= i < j < o.len() implies (#[trigger] o[i]).gpu_ns >= (
    #[trigger] o[j]).gpu_ns by {
        assert(!lt(o[j], o[i]));
    }
    assert(rows.no_duplicates()) by {
        assert forall|i: int, j: int| 0 <= i < rows.len() && 0 <= j < rows.len() && i
            != j implies rows[i] != rows[j] by {
            if i < j {
                assert(!(rows[i].kind == rows[j].kind && rows[i].file_line == rows[j].file_line));
            } else {
                assert(!(rows[j].kind == rows[i].kind && rows[j].file_line == rows[i].file_line));
            }
        }
    }
    crate::sort::lemma_ordered_no_duplicates(rows, lt);
    assert forall|i: int, j: int| 0 <= i < j < o.len() implies !((#[trigger] o[i]).kind == (
    #[trigger] o[j]).kind && o[i].file_line == o[j].file_line) by {
        assert(o.contains(o[i]) && o.contains(o[j]));
        lemma_ordered_contains(rows, lt, o[i]);
        lemma_ordered_contains(rows, lt, o[j]);
        let a = choose|a: int| 0 <= a < rows.len() && rows[a] == o[i];
        let b = choose|b: int| 0 <= b < rows.len() && rows[b] == o[j];
        assert(o[i] != o[j]);
        if a < b {
            assert(!(rows[a].kind == rows[b].kind && rows[a].file_line == rows[b].file_line));
        } else {
            assert(!(rows[b].kind == rows[a].kind && rows[b].file_line == rows[a].file_line));
        }
    }
}

proof fn lemma_framed(s: Seq<EvalView>, ts: u64)
    ensures
        match last_covering(eval_spans(framed(s)), ts) {
            Some(i) => 0 <= i < framed(s).len() && exists|k: int|
                #![trigger s[k]]
                {
                    &&& 0 <= k < s.len()
                    &&& s[k].top_frame is Some
                    &&& s[k].t_in <= ts <= s[k].t_out
                    &&& framed(s)[i] == s[k]
                    &&& forall|m: int|
                        k < m < s.len() && (#[trigger] s[m]).top_frame is Some ==> !(s[m].t_in <= ts
                            <= s[m].t_out)
                },
            None => forall|m: int|
                0 <= m < s.len() && (#[trigger] s[m]).top_frame is Some ==> !(s[m].t_in <= ts
                    <= s[m].t_out),
        },
    decreases s.len(),
{
    if s.len() > 0 {
        let rest = s.drop_last();
        let last = s[s.len() - 1];
        lemma_framed(rest, ts);
        let f = framed(rest);
        let covers = last.top_frame is Some && last.t_in <= ts <= last.t_out;
        if last.top_frame is Some {
            assert(eval_spans(f.push(last)).drop_last() =~= eval_spans(f));
        }
        if covers {
            assert(framed(s)[f.len() as int] == s[s.len() - 1]);
        } else if let Some(i) = last_covering(eval_spans(f), ts) {
            let k = choose|k: int|
                #![trigger rest[k]]
                {
                    &&& 0 <= k < rest.len()
                    &&& rest[k].top_frame is Some
                    &&& rest[k].t_in <= ts <= rest[k].t_out
                    &&& f[i] == rest[k]
                    &&& forall|m: int|
                        k < m < rest.len() && (#[trigger] rest[m]).top_frame is Some ==> !(
                        rest[m].t_in <= ts <= rest[m].t_out)
                };
            assert(s[k] == rest[k]);
            assert forall|m: int|
                k < m < s.len() && (#[trigger] s[m]).top_frame is Some implies !(s[m].t_in <= ts
                <= s[m].t_out) by {
                if m < rest.len() {
                    assert(rest[m] == s[m]);
                }
            }
        } else {
            assert forall|m: int|
                0 <= m < s.len() && (#[trigger] s[m]).top_frame is Some implies !(s[m].t_in <= ts
                <= s[m].t_out) by {
                if m < rest.len() {
                    assert(rest[m] == s[m]);
                }
            }
        }
    }
}

/// A command buffer comes from the frame of the latest eval with a frame that covers its
/// commit.
pub proof fn buffers_come_from_the_latest_frame(
    evals: Seq<EvalView>,
    scopes: Seq<ScopeView>,
    ts: u64,
    k: int,
)
    requires
        0 <= k < evals.len(),
        evals[k].top_frame is Some,
        evals[k].t_in <= ts <= evals[k].t_out,
        forall|m: int|
            k < m < evals.len() && (#[trigger] evals[m]).top_frame is Some ==> !(evals[m].t_in <= ts
                <= evals[m].t_out),
    ensures
        origin_at(framed(evals), scopes, ts) == evals[k].top_frame,
{
    lemma_framed(evals, ts);
    match last_covering(eval_spans(framed(evals)), ts) {
        Some(i) => {
            let j = choose|j: int|
                #![trigger evals[j]]
                {
                    &&& 0 <= j < evals.len()
                    &&& evals[j].top_frame is Some
                    &&& evals[j].t_in <= ts <= evals[j].t_out
                    &&& framed(evals)[i] == evals[j]
                    &&& forall|m: int|
                        j < m < evals.len() && (#[trigger] evals[m]).top_frame is Some ==> !(
                        evals[m].t_in <= ts <= evals[m].t_out)
                };
            if j < k {
                assert(evals[k].top_frame is Some);
            }
        },
        None => {},
    }
}

/// A command buffer that no eval with a frame covers comes from the module that was
/// entered last among those open at its commit, or closed within the grace before it,
/// and from nowhere where there is none.
pub proof fn buffers_come_from_the_innermost_scope(
    evals: Seq<EvalView>,
    scopes: Seq<ScopeView>,
    ts: u64,
)
    requires
        forall|m: int|
            0 <= m < evals.len() && (#[trigger] evals[m]).top_frame is Some ==> !(evals[m].t_in <= ts
                <= evals[m].t_out),
    ensures
        forall|w: int|
            #![trigger scopes[w]]
            0 <= w < scopes.len() && scopes[w].t_in <= ts <= graced(scopes[w].t_out) && (forall|
                m: int,
            |
                w < m < scopes.len() ==> !((#[trigger] scopes[m]).t_in <= ts <= graced(
                    scopes[m].t_out,
                ))) ==> origin_at(framed(evals), scopes, ts) == Some(
                "scope:"@ + scopes[w].qualname,
            ),
        (forall|w: int|
            0 <= w < scopes.len() ==> !((#[trigger] scopes[w]).t_in <= ts <= graced(
                scopes[w].t_out,
            ))) ==> origin_at(framed(evals), scopes, ts) is None,
{
    lemma_framed(evals, ts);
    let c = scope_spans(scopes);
    last_covering_is_last(c, ts);
    if let Some(i) = last_covering(eval_spans(framed(evals)), ts) {
        let j = choose|j: int|
            #![trigger evals[j]]
            {
                &&& 0 <= j < evals.len()
                &&& evals[j].top_frame is Some
                &&& evals[j].t_in <= ts <= evals[j].t_out
                &&& framed(evals)[i] == evals[j]
                &&& forall|m: int|
                    j < m < evals.len() && (#[trigger] evals[m]).top_frame is Some ==> !(
                    evals[m].t_in <= ts <= evals[m].t_out)
            };
        assert(evals[j].top_frame is Some);
    }
    if let Some(m) = last_covering(c, ts) {
        assert(scopes[m].t_in <= ts <= graced(scopes[m].t_out));
        assert forall|w: int|
            #![trigger scopes[w]]
            0 <= w < scopes.len() && scopes[w].t_in <= ts <= graced(scopes[w].t_out) && (forall|
                m: int,
            |
                w < m < scopes.len() ==> !((#[trigger] scopes[m]).t_in <= ts <= graced(
                    scopes[m].t_out,
                ))) implies m == w by {
            assert(c[w].0 <= ts <= c[w].1);
        }
    } else {
        assert forall|w: int| 0 <= w < scopes.len() implies !((#[trigger] scopes[w]).t_in <= ts
            <= graced(scopes[w].t_out)) by {
            assert(!(c[w].0 <= ts <= c[w].1));
        }
    }
}

/// A shader is of the kind of the first prefix in the table that its name begins with.
pub proof fn first_prefix_decides(symbol: Seq<char>, i: int)
    requires
        0 <= i < kind_table().len(),
        starts_with(symbol, kind_table()[i].0),
        forall|j: int| 0 <= j < i ==> !starts_with(symbol, (#[trigger] kind_table()[j]).0),
    ensures
        kind_of(symbol) == Some(kind_table()[i].1),
{
    lemma_table_kind(symbol, 0, i);
}

proof fn lemma_table_kind(symbol: Seq<char>, k: int, i: int)
    requires
        0 <= k <= i < kind_table().len(),
        starts_with(symbol, kind_table()[i].0),
        forall|j: int| k <= j < i ==> !starts_with(symbol, (#[trigger] kind_table()[j]).0),
    ensures
        table_kind(symbol, k) == Some(kind_table()[i].1),
    decreases i - k,
{
    if k < i {
        lemma_table_kind(symbol, k + 1, i);
    }
}

} // verus!
