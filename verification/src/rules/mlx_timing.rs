//! Relates eval timing to the first failed command buffer.

use crate::double::{
    from_int, lemma_ratio_at_most_one, lemma_scaled_int, multiply, of_int, push_quotient, quotient,
    ratio, round, rounded, saturated, times, HIGH,
};
use crate::event::{lemma_prefix_step, Event, Payload};
use crate::finding::{
    finding_views, lemma_findings_push, Category, EvidenceRef, EvidenceView, Finding, FindingView,
    Severity,
};
use crate::rule::Rule;
use crate::rules::metal_error::{find_failure, first_failure};
use crate::rules::queue_depth::seconds;
use crate::sort::{ordered, rank, sort, Ranked};
use crate::text::{dec, joined, push_dec, views};
use vstd::prelude::*;

verus! {

broadcast use vstd::string::group_string_axioms;

pub struct MlxTimingRule;

/// How many evals before a failure are told one by one.
pub const CRASH_ADJACENT_EVALS: usize = 5;

/// One eval that returned.
#[derive(Clone, Copy)]
pub struct Rec {
    pub call_id: u64,
    pub duration_ns: u64,
    pub was_async: bool,
    pub entered_ts: Option<u64>,
    pub returned_ts: u64,
    pub seq: u64,
}

/// What reading the evals has found so far.
pub ghost struct RecScan {
    /// The id and time of the latest eval entered.
    pub entered: Option<(u64, u64)>,
    pub recs: Seq<Rec>,
}

/// Reads the evals. An eval that was not the latest one entered when it
/// returned has no known entry.
pub open spec fn rec_scan(events: Seq<Event>) -> RecScan
    decreases events.len(),
{
    if events.len() == 0 {
        RecScan { entered: None, recs: seq![] }
    } else {
        let s = rec_scan(events.drop_last());
        let e = events.last();
        match e.payload {
            Payload::MlxEvalEntered { call_id, .. } => RecScan {
                entered: Some((call_id, e.ts_mono_ns)),
                recs: s.recs,
            },
            Payload::MlxEvalReturned { call_id, duration_ns, was_async } => RecScan {
                entered: s.entered,
                recs: s.recs.push(
                    Rec {
                        call_id,
                        duration_ns,
                        was_async,
                        entered_ts: match s.entered {
                            Some(x) => if x.0 == call_id {
                                Some(x.1)
                            } else {
                                None
                            },
                            None => None,
                        },
                        returned_ts: e.ts_mono_ns,
                        seq: e.seq,
                    },
                ),
            },
            _ => s,
        }
    }
}

/// The evals of a stream, in the order of their returns.
pub open spec fn recs_of(events: Seq<Event>) -> Seq<Rec> {
    rec_scan(events).recs
}

/// The evals that returned by `crash`.
pub open spec fn returned_by(recs: Seq<Rec>, crash: u64) -> Seq<Rec>
    decreases recs.len(),
{
    if recs.len() == 0 {
        seq![]
    } else if recs.last().returned_ts <= crash {
        returned_by(recs.drop_last(), crash).push(recs.last())
    } else {
        returned_by(recs.drop_last(), crash)
    }
}

/// Evals by the time of their return.
pub open spec fn by_return() -> spec_fn(Rec, Rec) -> bool {
    |a: Rec, b: Rec| a.returned_ts < b.returned_ts
}

/// Evals by duration.
pub open spec fn by_duration() -> spec_fn(Rec, Rec) -> bool {
    |a: Rec, b: Rec| a.duration_ns < b.duration_ns
}

/// The last `n` elements.
pub open spec fn tail<A>(s: Seq<A>, n: int) -> Seq<A> {
    if s.len() <= n {
        s
    } else {
        s.skip(s.len() - n)
    }
}

/// The last evals before the failure.
pub open spec fn adjacent(events: Seq<Event>, crash: u64) -> Seq<Rec> {
    tail(ordered(returned_by(recs_of(events), crash), by_return()), CRASH_ADJACENT_EVALS as int)
}

/// What is told of an eval before a failure.
pub open spec fn eval_finding(r: Rec, crash: u64) -> FindingView {
    FindingView {
        severity: Severity::Info,
        category: Category::Timing,
        title: "mx.eval call_id="@ + dec(r.call_id as int) + " returned ("@ + if r.was_async {
            "async, "@
        } else {
            "sync, "@
        } + dec(r.duration_ns as int / 1_000_000) + "ms)"@,
        detail: match r.entered_ts {
            Some(t) => "entered "@ + seconds((crash - t) as nat) + "s before crash, returned "@
                + seconds((crash - r.returned_ts) as nat) + "s before crash"@,
            None => "returned "@ + seconds((crash - r.returned_ts) as nat) + "s before crash"@,
        },
        evidence: seq![
            EvidenceView {
                seq: r.seq,
                ts_mono_ns: r.returned_ts,
                description: "MlxEvalReturned call_id="@ + dec(r.call_id as int),
            },
        ],
    }
}

/// The duration that the share `part / whole` of the evals stays under.
pub open spec fn percentile(sorted: Seq<Rec>, part: nat, whole: nat) -> u64 {
    let at = saturated(rounded(times(of_int((sorted.len() - 1) as nat), ratio(part, whole))));
    sorted[at as int].duration_ns
}

/// How many evals were async.
pub open spec fn async_count(recs: Seq<Rec>) -> nat
    decreases recs.len(),
{
    if recs.len() == 0 {
        0
    } else {
        async_count(recs.drop_last()) + if recs.last().was_async {
            1nat
        } else {
            0nat
        }
    }
}

/// One of the slowest evals.
pub open spec fn slow_text(r: Rec) -> Seq<char> {
    "call_id="@ + dec(r.call_id as int) + " "@ + dec(r.duration_ns as int / 1_000_000) + "ms ("@
        + if r.was_async {
        "async"@
    } else {
        "sync"@
    } + ")"@
}

/// The `n` slowest evals, slowest first.
pub open spec fn slowest(sorted: Seq<Rec>, n: int) -> Seq<Seq<char>> {
    Seq::new(
        if sorted.len() < n {
            sorted.len()
        } else {
            n as nat
        },
        |i: int| slow_text(sorted[sorted.len() - 1 - i]),
    )
}

/// The one finding on all evals.
pub open spec fn summary(recs: Seq<Rec>) -> FindingView {
    let sorted = ordered(recs, by_duration());
    let max = sorted.last();
    FindingView {
        severity: Severity::Info,
        category: Category::Timing,
        title: "mx.eval timing: "@ + dec(recs.len() as int) + " calls ("@ + dec(
            recs.len() - async_count(recs),
        ) + " sync, "@ + dec(async_count(recs) as int) + " async) — p50 "@ + dec(
            percentile(sorted, 1, 2) as int / 1_000_000,
        ) + "ms, p95 "@ + dec(percentile(sorted, 19, 20) as int / 1_000_000) + "ms, max "@ + dec(
            max.duration_ns as int / 1_000_000,
        ) + "ms"@,
        detail: "slowest: "@ + joined(slowest(sorted, 5), ", "@),
        evidence: seq![
            EvidenceView {
                seq: max.seq,
                ts_mono_ns: max.returned_ts,
                description: "slowest MlxEvalReturned call_id="@ + dec(max.call_id as int),
            },
        ],
    }
}

/// What the rule finds: the last evals before a failure, one by one, then all
/// evals at once.
pub open spec fn timing_findings(events: Seq<Event>) -> Seq<FindingView> {
    let recs = recs_of(events);
    if recs.len() == 0 {
        seq![]
    } else {
        match first_failure(events, 0) {
            Some(i) => adjacent(events, events[i].ts_mono_ns).map_values(
                |r: Rec| eval_finding(r, events[i].ts_mono_ns),
            ).push(summary(recs)),
            None => seq![summary(recs)],
        }
    }
}

/// None of the last evals before a failure was entered after it, and there are
/// few enough events for a percentile.
pub open spec fn timing_ok(events: Seq<Event>) -> bool {
    &&& events.len() <= HIGH
    &&& match first_failure(events, 0) {
        Some(i) => forall|k: int|
            #![trigger adjacent(events, events[i].ts_mono_ns)[k]]
            0 <= k < adjacent(events, events[i].ts_mono_ns).len() ==> match adjacent(
                events,
                events[i].ts_mono_ns,
            )[k].entered_ts {
                Some(t) => t <= events[i].ts_mono_ns,
                None => true,
            },
        None => true,
    }
}

struct ByReturn {
    rec: Rec,
}

impl Ranked for ByReturn {
    closed spec fn before(self, other: Self) -> bool {
        self.rec.returned_ts < other.rec.returned_ts
    }

    fn comes_before(&self, other: &Self) -> (b: bool) {
        self.rec.returned_ts < other.rec.returned_ts
    }
}

struct ByDuration {
    rec: Rec,
}

impl Ranked for ByDuration {
    closed spec fn before(self, other: Self) -> bool {
        self.rec.duration_ns < other.rec.duration_ns
    }

    fn comes_before(&self, other: &Self) -> (b: bool) {
        self.rec.duration_ns < other.rec.duration_ns
    }
}

/// Reads the evals.
fn read_evals(events: &[Event]) -> (r: Vec<Rec>)
    ensures
        r@ == recs_of(events@),
        r@.len() <= events@.len(),
{
    let mut recs: Vec<Rec> = Vec::new();
    let mut entered: Option<(u64, u64)> = None;
    let mut i: usize = 0;
    while i < events.len()
        invariant
            i <= events@.len(),
            recs@ == rec_scan(events@.take(i as int)).recs,
            recs@.len() <= i,
            entered == rec_scan(events@.take(i as int)).entered,
        decreases events@.len() - i,
    {
        let ev = &events[i];
        proof {
            lemma_prefix_step(events@, i as int);
        }
        match &ev.payload {
            Payload::MlxEvalEntered { call_id, .. } => {
                entered = Some((*call_id, ev.ts_mono_ns));
            },
            Payload::MlxEvalReturned { call_id, duration_ns, was_async } => {
                let entered_ts: Option<u64> = match entered {
                    Some((id, ts)) => if id == *call_id {
                        Some(ts)
                    } else {
                        None
                    },
                    None => None,
                };
                recs.push(
                    Rec {
                        call_id: *call_id,
                        duration_ns: *duration_ns,
                        was_async: *was_async,
                        entered_ts,
                        returned_ts: ev.ts_mono_ns,
                        seq: ev.seq,
                    },
                );
            },
            _ => {},
        }
        i = i + 1;
    }
    assert(events@.take(events@.len() as int) =~= events@);
    recs
}

/// The last evals before a failure.
fn adjacent_evals(recs: &Vec<Rec>, crash: u64) -> (r: Vec<Rec>)
    ensures
        r@ == tail(
            ordered(returned_by(recs@, crash), by_return()),
            CRASH_ADJACENT_EVALS as int,
        ),
        forall|k: int| 0 <= k < r@.len() ==> (#[trigger] r@[k]).returned_ts <= crash,
{
    let ghost f = |b: ByReturn| b.rec;
    let mut list: Vec<ByReturn> = Vec::new();
    let mut i: usize = 0;
    assert(recs@.take(0) =~= Seq::<Rec>::empty());
    assert(list@.map_values(f) =~= Seq::<Rec>::empty());
    while i < recs.len()
        invariant
            i <= recs@.len(),
            f == (|b: ByReturn| b.rec),
            list@.map_values(f) == returned_by(recs@.take(i as int), crash),
            forall|k: int| 0 <= k < list@.len() ==> (#[trigger] list@[k]).rec.returned_ts <= crash,
        decreases recs@.len() - i,
    {
        assert(recs@.take(i + 1).drop_last() =~= recs@.take(i as int));
        let ghost before = list@;
        if recs[i].returned_ts <= crash {
            list.push(ByReturn { rec: recs[i] });
            assert(list@.map_values(f) =~= before.map_values(f).push(recs@[i as int]));
        }
        i = i + 1;
    }
    assert(recs@.take(recs@.len() as int) =~= recs@);
    let ghost unsorted = list@;
    sort(&mut list);
    proof {
        let ok = |b: ByReturn| b.rec.returned_ts <= crash;
        crate::sort::lemma_ordered_map_where(unsorted, f, rank::<ByReturn>(), by_return(), ok);
        assert forall|k: int| 0 <= k < list@.len() implies (#[trigger] list@[k]).rec.returned_ts
            <= crash by {
            assert(ok(list@[k]));
        }
    }
    let ghost all = ordered(returned_by(recs@, crash), by_return());
    let skip: usize = list.len().saturating_sub(CRASH_ADJACENT_EVALS);
    let mut out: Vec<Rec> = Vec::new();
    let mut j: usize = skip;
    while j < list.len()
        invariant
            skip <= j <= list@.len(),
            all == list@.map_values(f),
            f == (|b: ByReturn| b.rec),
            out@ == all.subrange(skip as int, j as int),
            forall|k: int| 0 <= k < list@.len() ==> (#[trigger] list@[k]).rec.returned_ts <= crash,
            forall|k: int| 0 <= k < out@.len() ==> (#[trigger] out@[k]).returned_ts <= crash,
        decreases list@.len() - j,
    {
        let ghost before = out@;
        out.push(list[j].rec);
        assert(all[j as int] == list@[j as int].rec);
        assert(out@ =~= all.subrange(skip as int, j + 1));
        j = j + 1;
    }
    assert(out@ =~= tail(all, CRASH_ADJACENT_EVALS as int));
    out
}

/// All evals by duration.
fn sorted_evals(recs: &Vec<Rec>) -> (r: Vec<Rec>)
    ensures
        r@ == ordered(recs@, by_duration()),
        r@.len() == recs@.len(),
{
    let ghost f = |b: ByDuration| b.rec;
    let mut list: Vec<ByDuration> = Vec::new();
    let mut i: usize = 0;
    while i < recs.len()
        invariant
            i <= recs@.len(),
            list@.len() == i,
            forall|k: int| 0 <= k < i ==> (#[trigger] list@[k]).rec == recs@[k],
        decreases recs@.len() - i,
    {
        list.push(ByDuration { rec: recs[i] });
        i = i + 1;
    }
    proof {
        assert(list@.map_values(f) =~= recs@);
        crate::sort::lemma_ordered_map(list@, f, rank::<ByDuration>(), by_duration());
        crate::sort::ordered_is_permutation(list@, rank::<ByDuration>());
    }
    sort(&mut list);
    let mut out: Vec<Rec> = Vec::new();
    let mut j: usize = 0;
    while j < list.len()
        invariant
            j <= list@.len(),
            out@.len() == j,
            forall|k: int| 0 <= k < j ==> (#[trigger] out@[k]) == list@[k].rec,
        decreases list@.len() - j,
    {
        out.push(list[j].rec);
        j = j + 1;
    }
    assert(out@ =~= list@.map_values(f));
    out
}

/// The duration that the share `part / whole` of the evals stays under.
fn percentile_of(sorted: &Vec<Rec>, part: u64, whole: u64) -> (d: u64)
    requires
        0 < sorted@.len() <= HIGH,
        0 < part <= whole,
    ensures
        d == percentile(sorted@, part as nat, whole as nat),
{
    let last: usize = sorted.len() - 1;
    let n = from_int(last as u128);
    let q = quotient(part, whole);
    proof {
        lemma_ratio_at_most_one(part as nat, whole as nat);
        lemma_scaled_int(last as nat, q@);
    }
    let at: u64 = round(multiply(n, q));
    sorted[at as usize].duration_ns
}

fn eval_finding_of(r: &Rec, crash: u64) -> (f: Finding)
    requires
        r.returned_ts <= crash,
        r.entered_ts matches Some(t) ==> t <= crash,
    ensures
        f@ == eval_finding(*r, crash),
{
    let mut title = "mx.eval call_id=".to_owned();
    push_dec(&mut title, r.call_id);
    title.append(" returned (");
    if r.was_async {
        title.append("async, ");
    } else {
        title.append("sync, ");
    }
    push_dec(&mut title, r.duration_ns / 1_000_000);
    title.append("ms)");
    let detail = match r.entered_ts {
        Some(t) => {
            let mut d = "entered ".to_owned();
            push_quotient(&mut d, crash - t, 1_000_000_000, 2);
            d.append("s before crash, returned ");
            push_quotient(&mut d, crash - r.returned_ts, 1_000_000_000, 2);
            d.append("s before crash");
            d
        },
        None => {
            let mut d = "returned ".to_owned();
            push_quotient(&mut d, crash - r.returned_ts, 1_000_000_000, 2);
            d.append("s before crash");
            d
        },
    };
    let mut description = "MlxEvalReturned call_id=".to_owned();
    push_dec(&mut description, r.call_id);
    let f = Finding::new(Severity::Info, Category::Timing, title.as_str()).with_detail(
        detail.as_str(),
    ).with_evidence(EvidenceRef { seq: r.seq, ts_mono_ns: r.returned_ts, description });
    assert(f@.evidence =~= eval_finding(*r, crash).evidence);
    f
}

fn slow_line(r: &Rec) -> (s: String)
    ensures
        s@ == slow_text(*r),
{
    let mut s = "call_id=".to_owned();
    push_dec(&mut s, r.call_id);
    s.append(" ");
    push_dec(&mut s, r.duration_ns / 1_000_000);
    s.append("ms (");
    if r.was_async {
        s.append("async");
    } else {
        s.append("sync");
    }
    s.append(")");
    s
}

fn summary_of(recs: &Vec<Rec>) -> (f: Finding)
    requires
        0 < recs@.len() <= HIGH,
    ensures
        f@ == summary(recs@),
{
    let sorted = sorted_evals(recs);
    let n: usize = sorted.len();
    let mut n_async: usize = 0;
    let mut i: usize = 0;
    assert(recs@.take(0) =~= Seq::<Rec>::empty());
    while i < recs.len()
        invariant
            i <= recs@.len(),
            n_async == async_count(recs@.take(i as int)),
            n_async <= i,
        decreases recs@.len() - i,
    {
        assert(recs@.take(i + 1).drop_last() =~= recs@.take(i as int));
        if recs[i].was_async {
            n_async = n_async + 1;
        }
        i = i + 1;
    }
    assert(recs@.take(recs@.len() as int) =~= recs@);
    let max: Rec = sorted[n - 1];
    let mut title = "mx.eval timing: ".to_owned();
    push_dec(&mut title, n as u64);
    title.append(" calls (");
    push_dec(&mut title, (n - n_async) as u64);
    title.append(" sync, ");
    push_dec(&mut title, n_async as u64);
    title.append(" async) — p50 ");
    push_dec(&mut title, percentile_of(&sorted, 1, 2) / 1_000_000);
    title.append("ms, p95 ");
    push_dec(&mut title, percentile_of(&sorted, 19, 20) / 1_000_000);
    title.append("ms, max ");
    push_dec(&mut title, max.duration_ns / 1_000_000);
    title.append("ms");
    let shown: usize = if n < 5 {
        n
    } else {
        5
    };
    let mut lines: Vec<String> = Vec::new();
    let mut k: usize = 0;
    while k < shown
        invariant
            k <= shown <= n == sorted@.len(),
            lines@.len() == k,
            forall|j: int| 0 <= j < k ==> (#[trigger] lines@[j])@ == slow_text(sorted@[n - 1 - j]),
        decreases shown - k,
    {
        lines.push(slow_line(&sorted[n - 1 - k]));
        k = k + 1;
    }
    assert(views(lines@) =~= slowest(sorted@, 5));
    let mut detail = "slowest: ".to_owned();
    detail.append(crate::text::join(&lines, ", ").as_str());
    let mut description = "slowest MlxEvalReturned call_id=".to_owned();
    push_dec(&mut description, max.call_id);
    let f = Finding::new(Severity::Info, Category::Timing, title.as_str()).with_detail(
        detail.as_str(),
    ).with_evidence(EvidenceRef { seq: max.seq, ts_mono_ns: max.returned_ts, description });
    assert(f@.evidence =~= summary(recs@).evidence);
    f
}

impl Rule for MlxTimingRule {
    open spec fn label(&self) -> Seq<char> {
        "mlx_timing"@
    }

    open spec fn accepts(&self, events: Seq<Event>) -> bool {
        timing_ok(events)
    }

    open spec fn findings(&self, events: Seq<Event>) -> Seq<FindingView> {
        timing_findings(events)
    }

    fn name(&self) -> (s: &'static str) {
        "mlx_timing"
    }

    fn can_check(&self, events: &[Event]) -> (b: bool) {
        if events.len() as u64 > HIGH {
            return false;
        }
        match find_failure(events) {
            Some(k) => {
                let crash: u64 = events[k].ts_mono_ns;
                let recs = read_evals(events);
                let near = adjacent_evals(&recs, crash);
                let mut i: usize = 0;
                while i < near.len()
                    invariant
                        i <= near@.len(),
                        near@ == adjacent(events@, crash),
                        first_failure(events@, 0) == Some(k as int),
                        crash == events@[k as int].ts_mono_ns,
                        forall|j: int|
                            0 <= j < i ==> match (#[trigger] near@[j]).entered_ts {
                                Some(t) => t <= crash,
                                None => true,
                            },
                    decreases near@.len() - i,
                {
                    if let Some(t) = near[i].entered_ts {
                        if t > crash {
                            assert(adjacent(events@, crash)[i as int].entered_ts == Some(t));
                            return false;
                        }
                    }
                    i = i + 1;
                }
                true
            },
            None => true,
        }
    }

    fn check(&self, events: &[Event]) -> (r: Vec<Finding>) {
        let recs = read_evals(events);
        let mut out: Vec<Finding> = Vec::new();
        assert(finding_views(out@) =~= Seq::<FindingView>::empty());
        if recs.len() == 0 {
            return out;
        }
        let ghost mut told: Seq<FindingView> = seq![];
        if let Some(k) = find_failure(events) {
            let crash: u64 = events[k].ts_mono_ns;
            let near = adjacent_evals(&recs, crash);
            let ghost all = near@.map_values(|r: Rec| eval_finding(r, crash));
            let mut i: usize = 0;
            assert(all.take(0) =~= Seq::<FindingView>::empty());
            while i < near.len()
                invariant
                    i <= near@.len(),
                    near@ == adjacent(events@, crash),
                    all == near@.map_values(|r: Rec| eval_finding(r, crash)),
                    forall|j: int|
                        0 <= j < near@.len() ==> (#[trigger] near@[j]).returned_ts <= crash,
                    forall|j: int|
                        #![trigger adjacent(events@, crash)[j]]
                        0 <= j < adjacent(events@, crash).len() ==> match adjacent(
                            events@,
                            crash,
                        )[j].entered_ts {
                            Some(t) => t <= crash,
                            None => true,
                        },
                    finding_views(out@) == all.take(i as int),
                decreases near@.len() - i,
            {
                assert(adjacent(events@, crash)[i as int] == near@[i as int]);
                let f = eval_finding_of(&near[i], crash);
                proof {
                    lemma_findings_push(out@, f);
                    assert(all.take(i + 1) =~= all.take(i as int).push(f@));
                }
                out.push(f);
                i = i + 1;
            }
            proof {
                assert(all.take(all.len() as int) =~= all);
                told = all;
            }
        }
        let f = summary_of(&recs);
        proof {
            lemma_findings_push(out@, f);
            assert(told.push(f@) =~= timing_findings(events@));
        }
        out.push(f);
        out
    }
}

/// However many evals there are, at most five of them are told one by one, and
/// one more finding sums all of them up.
pub proof fn timing_findings_are_few(events: Seq<Event>)
    ensures
        timing_findings(events).len() <= CRASH_ADJACENT_EVALS + 1,
{
}

} // verus!
