//! Serialization clamp for the GPU times of kernels.
//!
//! The time of a kernel is the span between two counter samples. The GPU
//! pipelines adjacent encoders and command buffers, so those spans overlap and
//! their sum counts the overlap twice.
//!
//! The truth about a command buffer is its serialized execution window: from
//! the later of its scheduling and the previous completion on its queue, to
//! its own completion. Where the kernel times of a command buffer add up to
//! more than that window, each is scaled down in proportion. None is ever
//! scaled up.
//!
//! A command buffer's id is a recycled pointer, so windows are paired with
//! kernel samples chronologically and consumed once.

use crate::double::{
    at_most_one, from_int, lemma_ratio_at_most_one, lemma_scaled_int, multiply, of_int, quotient,
    ratio, saturated, times, truncate, truncated, Bin, Double, HIGH,
};
use crate::event::{
    lemma_ops_prefix, lemma_prefix_step, op_views, ops_ns, Event, OpSample, Payload,
};
use std::collections::HashMap;
use vstd::prelude::*;

verus! {

broadcast use vstd::std_specs::hash::group_hash_axioms;

/// Scale factors for kernel-sample events whose sum exceeded the window, by
/// the `seq` of the event. Events without a factor keep their raw values.
pub struct OpTimeScales {
    scales: HashMap<u64, Double>,
}

impl View for OpTimeScales {
    type V = Map<u64, Bin>;

    closed spec fn view(&self) -> Map<u64, Bin> {
        self.scales@.map_values(|d: Double| d@)
    }
}

/// The corrected time of a kernel of the event `seq`.
pub open spec fn scaled(scales: Map<u64, Bin>, seq: u64, gpu_ns: u64) -> u64 {
    if scales.contains_key(seq) {
        saturated(truncated(times(of_int(gpu_ns as nat), scales[seq])))
    } else {
        gpu_ns
    }
}

impl OpTimeScales {
    /// Every factor is a double that can be multiplied with.
    pub closed spec fn wf(&self) -> bool {
        forall|seq: u64| #[trigger]
            self.scales@.contains_key(seq) ==> self.scales@[seq]@.moderate()
                && self.scales@[seq]@.exp <= 17
    }

    /// Number of command buffers whose kernel times were clamped.
    pub fn clamped_cb_count(&self) -> (n: u64)
        ensures
            n == self@.len(),
    {
        assert(self@.dom() =~= self.scales@.dom());
        self.scales.len() as u64
    }

    /// Corrected time of one kernel of the event `seq`.
    pub fn scaled_gpu_ns(&self, seq: u64, gpu_ns: u64) -> (r: u64)
        requires
            self.wf(),
        ensures
            r == scaled(self@, seq, gpu_ns),
    {
        match self.scales.get(&seq) {
            Some(s) => truncate(multiply(from_int(gpu_ns as u128), *s)),
            None => gpu_ns,
        }
    }
}

/// What the clamp has found so far.
pub ghost struct ClampScan {
    /// When a command buffer was scheduled, until it completes.
    pub scheduled: Map<u64, u64>,
    /// The latest completion on a queue.
    pub queue_done: Map<u64, u64>,
    /// The window of a completed command buffer, until its kernels arrive.
    pub window: Map<u64, u64>,
    pub scales: Map<u64, Bin>,
}

/// The later of `sched` and the latest completion on `queue_id`.
pub open spec fn window_start(queue_done: Map<u64, u64>, queue_id: u64, sched: u64) -> u64 {
    if queue_done.contains_key(queue_id) && queue_done[queue_id] > sched {
        queue_done[queue_id]
    } else {
        sched
    }
}

/// One event more.
pub open spec fn clamp_step(s: ClampScan, e: Event) -> ClampScan {
    let ts = e.ts_mono_ns;
    match e.payload {
        Payload::MetalCbScheduled { cb_id, .. } => ClampScan {
            scheduled: s.scheduled.insert(cb_id, ts),
            queue_done: s.queue_done,
            window: s.window,
            scales: s.scales,
        },
        Payload::MetalCbCompleted { cb_id, queue_id, .. } => ClampScan {
            scheduled: s.scheduled.remove(cb_id),
            queue_done: s.queue_done.insert(queue_id, ts),
            window: if s.scheduled.contains_key(cb_id) {
                let start = window_start(s.queue_done, queue_id, s.scheduled[cb_id]);
                s.window.insert(
                    cb_id,
                    if start < ts {
                        (ts - start) as u64
                    } else {
                        0
                    },
                )
            } else {
                s.window.remove(cb_id)
            },
            scales: s.scales,
        },
        Payload::MetalCbOps { cb_id, ops } => ClampScan {
            scheduled: s.scheduled,
            queue_done: s.queue_done,
            window: s.window.remove(cb_id),
            scales: if s.window.contains_key(cb_id) && ops_ns(op_views(ops@)) > s.window[cb_id] {
                s.scales.insert(e.seq, ratio(s.window[cb_id] as nat, ops_ns(op_views(ops@))))
            } else {
                s.scales
            },
        },
        _ => s,
    }
}

/// Follows every command buffer through the stream.
pub open spec fn clamp_scan(events: Seq<Event>) -> ClampScan
    decreases events.len(),
{
    if events.len() == 0 {
        ClampScan {
            scheduled: Map::empty(),
            queue_done: Map::empty(),
            window: Map::empty(),
            scales: Map::empty(),
        }
    } else {
        clamp_step(clamp_scan(events.drop_last()), events.last())
    }
}

/// The scale factors of a session.
pub open spec fn scales_of(events: Seq<Event>) -> Map<u64, Bin> {
    clamp_scan(events).scales
}

/// The window of the kernels that the event `k` holds, where one is known.
pub open spec fn window_of(events: Seq<Event>, k: int) -> Option<u64> {
    match events[k].payload {
        Payload::MetalCbOps { cb_id, .. } => {
            let window = clamp_scan(events.take(k)).window;
            if window.contains_key(cb_id) {
                Some(window[cb_id])
            } else {
                None
            }
        },
        _ => None,
    }
}

/// The GPU time of the kernels that an event holds.
pub open spec fn raw_ns(e: Event) -> nat {
    match e.payload {
        Payload::MetalCbOps { ops, .. } => ops_ns(op_views(ops@)),
        _ => 0,
    }
}

/// The kernel times that are held against a window can be added up.
pub open spec fn clamp_fits(events: Seq<Event>) -> bool {
    forall|k: int|
        0 <= k < events.len() && #[trigger] window_of(events, k) is Some ==> raw_ns(events[k])
            <= u64::MAX
}

/// Adds up the GPU times of `ops`, or gives `None` where the sum does not fit
/// 64 bits.
pub fn try_sum_ops(ops: &Vec<OpSample>) -> (sum: Option<u64>)
    ensures
        match sum {
            Some(sum) => sum == ops_ns(op_views(ops@)),
            None => ops_ns(op_views(ops@)) > u64::MAX,
        },
{
    let ghost views = op_views(ops@);
    let mut sum: u64 = 0;
    let mut i: usize = 0;
    while i < ops.len()
        invariant
            i <= ops@.len(),
            views == op_views(ops@),
            sum == ops_ns(views.take(i as int)),
        decreases ops@.len() - i,
    {
        proof {
            assert(views.take(i + 1).drop_last() =~= views.take(i as int));
            lemma_ops_prefix(views, i + 1);
        }
        match sum.checked_add(ops[i].gpu_ns) {
            Some(more) => sum = more,
            None => return None,
        }
        i = i + 1;
    }
    assert(views.take(ops@.len() as int) =~= views);
    Some(sum)
}

/// The scale factors, or `None` where kernel times that are held against a
/// window do not add up to a 64-bit number.
pub fn try_op_time_scales(events: &[Event]) -> (r: Option<OpTimeScales>)
    ensures
        match r {
            Some(r) => clamp_fits(events@) && r.wf() && r@ == scales_of(events@),
            None => !clamp_fits(events@),
        },
{
    let mut scheduled: HashMap<u64, u64> = HashMap::new();
    let mut queue_done: HashMap<u64, u64> = HashMap::new();
    let mut window: HashMap<u64, u64> = HashMap::new();
    let mut r = OpTimeScales { scales: HashMap::new() };
    let mut i: usize = 0;
    assert(r@ =~= Map::<u64, Bin>::empty());
    while i < events.len()
        invariant
            i <= events@.len(),
            forall|k: int|
                0 <= k < i && #[trigger] window_of(events@, k) is Some ==> raw_ns(events@[k])
                    <= u64::MAX,
            r.wf(),
            scheduled@ == clamp_scan(events@.take(i as int)).scheduled,
            queue_done@ == clamp_scan(events@.take(i as int)).queue_done,
            window@ == clamp_scan(events@.take(i as int)).window,
            r@ == clamp_scan(events@.take(i as int)).scales,
        decreases events@.len() - i,
    {
        let ev = &events[i];
        let ts: u64 = ev.ts_mono_ns;
        proof {
            lemma_prefix_step(events@, i as int);
        }
        let ghost s = clamp_scan(events@.take(i as int));
        match &ev.payload {
            Payload::MetalCbScheduled { cb_id, .. } => {
                scheduled.insert(*cb_id, ts);
            },
            Payload::MetalCbCompleted { cb_id, queue_id, .. } => {
                // A command buffer never seen scheduled gets no window, rather
                // than a guessed one.
                match scheduled.remove(cb_id) {
                    Some(sched) => {
                        let start: u64 = match queue_done.get(queue_id) {
                            Some(done) => if *done > sched {
                                *done
                            } else {
                                sched
                            },
                            None => sched,
                        };
                        window.insert(*cb_id, ts.saturating_sub(start));
                    },
                    None => {
                        window.remove(cb_id);
                        assert(scheduled@ =~= s.scheduled.remove(*cb_id));
                    },
                }
                queue_done.insert(*queue_id, ts);
            },
            Payload::MetalCbOps { cb_id, ops } => {
                match window.remove(cb_id) {
                    Some(w) => {
                        assert(window_of(events@, i as int) is Some);
                        let sum: u64 = match try_sum_ops(ops) {
                            Some(sum) => sum,
                            None => return None,
                        };
                        if sum > w {
                            let ghost before = r@;
                            let d = quotient(w, sum);
                            r.scales.insert(ev.seq, d);
                            assert(r@ =~= before.insert(ev.seq, d@));
                        }
                    },
                    None => {
                        assert(window@ =~= s.window.remove(*cb_id));
                    },
                }
            },
            _ => {},
        }
        i = i + 1;
    }
    assert(events@.take(events@.len() as int) =~= events@);
    Some(r)
}

/// Can the kernel times that are held against a window be added up?
pub fn can_clamp(events: &[Event]) -> (r: bool)
    ensures
        r == clamp_fits(events@),
{
    try_op_time_scales(events).is_some()
}

/// Computes the scale factors in one chronological pass.
pub fn compute_op_time_scales(events: &[Event]) -> (r: OpTimeScales)
    requires
        clamp_fits(events@),
    ensures
        r.wf(),
        r@ == scales_of(events@),
{
    match try_op_time_scales(events) {
        Some(r) => r,
        None => OpTimeScales { scales: HashMap::new() },
    }
}

/// `after` is `before` with the time of each kernel corrected.
pub open spec fn rescaled(
    before: OpSample,
    after: OpSample,
    scales: Map<u64, Bin>,
    seq: u64,
) -> bool {
    &&& after.name == before.name
    &&& after.symbol == before.symbol
    &&& after.count == before.count
    &&& after.gpu_ns == scaled(scales, seq, before.gpu_ns)
}

/// The corrected copies of `ops`, the kernels of the event `seq`.
pub fn scaled_ops(ops: &Vec<OpSample>, scales: &OpTimeScales, seq: u64) -> (r: Vec<OpSample>)
    requires
        scales.wf(),
    ensures
        r@.len() == ops@.len(),
        forall|k: int| 0 <= k < ops@.len() ==> rescaled(ops@[k], #[trigger] r@[k], scales@, seq),
{
    let mut r: Vec<OpSample> = Vec::new();
    let mut i: usize = 0;
    while i < ops.len()
        invariant
            i <= ops@.len(),
            r@.len() == i,
            scales.wf(),
            forall|k: int| 0 <= k < i ==> rescaled(ops@[k], #[trigger] r@[k], scales@, seq),
        decreases ops@.len() - i,
    {
        let symbol = match &ops[i].symbol {
            Some(s) => Some(s.clone()),
            None => None,
        };
        r.push(
            OpSample {
                name: ops[i].name.clone(),
                symbol,
                gpu_ns: scales.scaled_gpu_ns(seq, ops[i].gpu_ns),
                count: ops[i].count,
            },
        );
        i = i + 1;
    }
    r
}

/// `after` is `before` with every kernel time corrected and nothing else
/// changed.
pub open spec fn event_rescaled(before: Event, after: Event, scales: Map<u64, Bin>) -> bool {
    match before.payload {
        Payload::MetalCbOps { cb_id, ops } => {
            &&& after.ts_mono_ns == before.ts_mono_ns
            &&& after.ts_wall_ns == before.ts_wall_ns
            &&& after.session_id == before.session_id
            &&& after.source == before.source
            &&& after.pid == before.pid
            &&& after.seq == before.seq
            &&& match after.payload {
                Payload::MetalCbOps { cb_id: id, ops: new } => {
                    &&& id == cb_id
                    &&& new@.len() == ops@.len()
                    &&& forall|k: int|
                        0 <= k < ops@.len() ==> rescaled(
                            ops@[k],
                            #[trigger] new@[k],
                            scales,
                            before.seq,
                        )
                },
                _ => false,
            }
        },
        _ => after == before,
    }
}

/// Rewrites the kernel times in place with the clamped values.
pub fn apply_op_time_scales(events: &mut Vec<Event>, scales: &OpTimeScales)
    requires
        scales.wf(),
    ensures
        final(events)@.len() == old(events)@.len(),
        forall|k: int|
            0 <= k < old(events)@.len() ==> event_rescaled(
                old(events)@[k],
                #[trigger] final(events)@[k],
                scales@,
            ),
{
    let mut i: usize = 0;
    while i < events.len()
        invariant
            i <= events@.len() == old(events)@.len(),
            scales.wf(),
            forall|k: int|
                0 <= k < i ==> event_rescaled(old(events)@[k], #[trigger] events@[k], scales@),
            forall|k: int| i <= k < events@.len() ==> events@[k] == old(events)@[k],
        decreases events@.len() - i,
    {
        let seq: u64 = events[i].seq;
        let replaced: Option<Payload> = match &events[i].payload {
            Payload::MetalCbOps { cb_id, ops } => Some(
                Payload::MetalCbOps { cb_id: *cb_id, ops: scaled_ops(ops, scales, seq) },
            ),
            _ => None,
        };
        if let Some(payload) = replaced {
            events[i].payload = payload;
        }
        i = i + 1;
    }
}

/// Every scale factor of a session is at most one.
pub proof fn lemma_scales_at_most_one(events: Seq<Event>, seq: u64)
    requires
        scales_of(events).contains_key(seq),
    ensures
        at_most_one(scales_of(events)[seq]),
        scales_of(events)[seq].wf(),
    decreases events.len(),
{
    if events.len() > 0 {
        let s = clamp_scan(events.drop_last());
        let e = events.last();
        if s.scales.contains_key(seq) {
            lemma_scales_at_most_one(events.drop_last(), seq);
        }
        match e.payload {
            Payload::MetalCbOps { cb_id, ops } => {
                if s.window.contains_key(cb_id) && ops_ns(op_views(ops@)) > s.window[cb_id] {
                    lemma_ratio_at_most_one(s.window[cb_id] as nat, ops_ns(op_views(ops@)));
                }
            },
            _ => {},
        }
    }
}

/// No kernel time is ever scaled up. (Below 53 bits, that is: a larger time is
/// first rounded to a double, which may exceed it.)
pub proof fn kernels_are_never_scaled_up(events: Seq<Event>, seq: u64, gpu_ns: u64)
    requires
        gpu_ns < HIGH,
    ensures
        scaled(scales_of(events), seq, gpu_ns) <= gpu_ns,
{
    if scales_of(events).contains_key(seq) {
        lemma_scales_at_most_one(events, seq);
        lemma_scaled_int(gpu_ns as nat, scales_of(events)[seq]);
    }
}

} // verus!
