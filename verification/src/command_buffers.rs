//! Command buffers, followed from commit to completion.
//!
//! A command buffer's id is a pointer, and allocations are recycled, so one id
//! spans many lifetimes. Kernel samples are attached chronologically, to the
//! latest completion of their id, never through a session-wide index.

use crate::double::Bin;
use crate::event::{
    lemma_prefix_step, op_views, ops_ns, Event, OpSample, OpView, Payload,
};
use crate::op_clamp::{
    clamp_fits, compute_op_time_scales, scaled, scaled_ops, scales_of, try_sum_ops,
};
use crate::text::opt_view;
use std::collections::HashMap;
use vstd::prelude::*;

verus! {

broadcast use vstd::std_specs::hash::group_hash_axioms;

/// One lifetime of a command buffer that completed.
#[derive(Debug, Clone)]
pub struct CommandBuffer {
    pub cb_id: u64,
    pub commit_ts: u64,
    pub in_flight_ns: u64,
    /// Its kernels, where they were sampled.
    pub ops: Option<Vec<OpSample>>,
}

/// The view of a [`CommandBuffer`].
pub ghost struct CbView {
    pub cb_id: u64,
    pub commit_ts: u64,
    pub in_flight_ns: nat,
    pub ops: Option<Seq<OpView>>,
}

impl View for CommandBuffer {
    type V = CbView;

    open spec fn view(&self) -> CbView {
        CbView {
            cb_id: self.cb_id,
            commit_ts: self.commit_ts,
            in_flight_ns: self.in_flight_ns as nat,
            ops: match self.ops {
                Some(ops) => Some(op_views(ops@)),
                None => None,
            },
        }
    }
}

/// The views of a list of command buffers.
pub open spec fn cb_views(s: Seq<CommandBuffer>) -> Seq<CbView> {
    s.map_values(|c: CommandBuffer| c@)
}

/// All command buffers of a session that completed.
pub struct CommandBuffers {
    /// In the order of the completions.
    pub completed: Vec<CommandBuffer>,
    /// Those of which only the kernels were seen, as if committed when these
    /// arrived.
    pub stray: Vec<CommandBuffer>,
    /// Whether any kernels were sampled at all.
    pub sampled: bool,
}

/// What pairing command buffers has found so far.
pub ghost struct CbScan {
    /// When a command buffer was committed, until it completes.
    pub committed: Map<u64, u64>,
    pub completed: Seq<CbView>,
    /// Where the latest completion of an id stands.
    pub latest: Map<u64, int>,
    /// Command buffers of which only the kernels were seen.
    pub stray: Seq<CbView>,
    pub sampled: bool,
}

/// One kernel of the event `seq`, its time clamped.
pub open spec fn clamped_op(o: OpSample, scales: Map<u64, Bin>, seq: u64) -> OpView {
    OpView {
        name: o.name@,
        symbol: opt_view(o.symbol),
        gpu_ns: scaled(scales, seq, o.gpu_ns) as nat,
        count: o.count as nat,
    }
}

/// The kernels of the event `seq`, their times clamped.
pub open spec fn clamped_ops(ops: Seq<OpSample>, scales: Map<u64, Bin>, seq: u64) -> Seq<OpView> {
    ops.map_values(|o: OpSample| clamped_op(o, scales, seq))
}

/// `c` with the kernels `ops`.
pub open spec fn with_ops(c: CbView, ops: Seq<OpView>) -> CbView {
    CbView {
        cb_id: c.cb_id,
        commit_ts: c.commit_ts,
        in_flight_ns: c.in_flight_ns,
        ops: Some(ops),
    }
}

/// A command buffer of which only the kernels `ops` were seen, at `ts`.
pub open spec fn stray_cb(cb_id: u64, ts: u64, ops: Seq<OpView>) -> CbView {
    CbView { cb_id, commit_ts: ts, in_flight_ns: 0, ops: Some(ops) }
}

/// One event more.
pub open spec fn cb_step(s: CbScan, e: Event, scales: Map<u64, Bin>) -> CbScan {
    match e.payload {
        Payload::MetalCbCommitted { cb_id, .. } => CbScan {
            committed: s.committed.insert(cb_id, e.ts_mono_ns),
            completed: s.completed,
            latest: s.latest,
            stray: s.stray,
            sampled: s.sampled,
        },
        Payload::MetalCbCompleted { cb_id, in_flight_ns, .. } => if s.committed.contains_key(
            cb_id,
        ) {
            CbScan {
                committed: s.committed.remove(cb_id),
                completed: s.completed.push(
                    CbView {
                        cb_id,
                        commit_ts: s.committed[cb_id],
                        in_flight_ns: in_flight_ns as nat,
                        ops: None,
                    },
                ),
                latest: s.latest.insert(cb_id, s.completed.len() as int),
                stray: s.stray,
                sampled: s.sampled,
            }
        } else {
            s
        },
        Payload::MetalCbOps { cb_id, ops } => CbScan {
            committed: s.committed,
            completed: if s.latest.contains_key(cb_id) {
                s.completed.update(
                    s.latest[cb_id],
                    with_ops(s.completed[s.latest[cb_id]], clamped_ops(ops@, scales, e.seq)),
                )
            } else {
                s.completed
            },
            latest: s.latest,
            stray: if s.latest.contains_key(cb_id) || s.committed.contains_key(cb_id) {
                s.stray
            } else {
                s.stray.push(stray_cb(cb_id, e.ts_mono_ns, clamped_ops(ops@, scales, e.seq)))
            },
            sampled: true,
        },
        _ => s,
    }
}

/// Follows every command buffer through the stream.
pub open spec fn cb_scan(events: Seq<Event>, scales: Map<u64, Bin>) -> CbScan
    decreases events.len(),
{
    if events.len() == 0 {
        CbScan {
            committed: Map::empty(),
            completed: Seq::empty(),
            latest: Map::empty(),
            stray: Seq::empty(),
            sampled: false,
        }
    } else {
        cb_step(cb_scan(events.drop_last(), scales), events.last(), scales)
    }
}

/// The command buffers of a session, their kernel times clamped.
pub open spec fn cbs_of(events: Seq<Event>) -> Seq<CbView> {
    cb_scan(events, scales_of(events)).completed
}

/// The command buffers of a session of which only the kernels were seen.
pub open spec fn strays_of(events: Seq<Event>) -> Seq<CbView> {
    cb_scan(events, scales_of(events)).stray
}

/// Whether a session sampled any kernels at all.
pub open spec fn sampled_of(events: Seq<Event>) -> bool {
    cb_scan(events, scales_of(events)).sampled
}

/// The GPU time of a command buffer.
///
/// It is the sum of its kernel times and not its time in flight: pipelined
/// command buffers overlap in flight. Once any kernels were sampled, a command
/// buffer without kernels takes no time. The time in flight counts only where
/// nothing was sampled in the whole session.
pub open spec fn cb_ns(c: CbView, sampled: bool) -> nat {
    match c.ops {
        Some(ops) => ops_ns(ops),
        None => if sampled {
            0
        } else {
            c.in_flight_ns
        },
    }
}

/// The bookkeeping of [`cb_scan`] is sound.
pub proof fn lemma_cb_scan(events: Seq<Event>, scales: Map<u64, Bin>)
    ensures
        forall|id: u64| #[trigger]
            cb_scan(events, scales).latest.contains_key(id) ==> 0 <= cb_scan(
                events,
                scales,
            ).latest[id] < cb_scan(events, scales).completed.len(),
        cb_scan(events, scales).completed.len() <= events.len(),
    decreases events.len(),
{
    if events.len() > 0 {
        lemma_cb_scan(events.drop_last(), scales);
    }
}

/// Pairs commits with completions and attaches clamped kernels to the
/// completions they belong to.
pub fn clamped_command_buffers(events: &[Event]) -> (r: CommandBuffers)
    requires
        clamp_fits(events@),
    ensures
        cb_views(r.completed@) == cbs_of(events@),
        cb_views(r.stray@) == strays_of(events@),
        r.sampled == sampled_of(events@),
        r.completed@.len() <= events@.len(),
{
    let scales = compute_op_time_scales(events);
    let mut committed: HashMap<u64, u64> = HashMap::new();
    let mut latest: HashMap<u64, usize> = HashMap::new();
    let mut completed: Vec<CommandBuffer> = Vec::new();
    let mut stray: Vec<CommandBuffer> = Vec::new();
    let mut sampled: bool = false;
    let ghost at = |k: usize| k as int;
    let mut i: usize = 0;
    assert(cb_views(completed@) =~= Seq::<CbView>::empty());
    assert(cb_views(stray@) =~= Seq::<CbView>::empty());
    assert(latest@.map_values(at) =~= Map::<u64, int>::empty());
    while i < events.len()
        invariant
            i <= events@.len(),
            at == (|k: usize| k as int),
            scales.wf(),
            scales@ == scales_of(events@),
            committed@ == cb_scan(events@.take(i as int), scales@).committed,
            cb_views(completed@) == cb_scan(events@.take(i as int), scales@).completed,
            latest@.map_values(at) == cb_scan(events@.take(i as int), scales@).latest,
            cb_views(stray@) == cb_scan(events@.take(i as int), scales@).stray,
            sampled == cb_scan(events@.take(i as int), scales@).sampled,
        decreases events@.len() - i,
    {
        let ev = &events[i];
        proof {
            lemma_prefix_step(events@, i as int);
            lemma_cb_scan(events@.take(i as int), scales@);
        }
        let ghost s = cb_scan(events@.take(i as int), scales@);
        match &ev.payload {
            Payload::MetalCbCommitted { cb_id, .. } => {
                committed.insert(*cb_id, ev.ts_mono_ns);
            },
            Payload::MetalCbCompleted { cb_id, in_flight_ns, .. } => {
                if let Some(commit_ts) = committed.remove(cb_id) {
                    latest.insert(*cb_id, completed.len());
                    let c = CommandBuffer {
                        cb_id: *cb_id,
                        commit_ts,
                        in_flight_ns: *in_flight_ns,
                        ops: None,
                    };
                    completed.push(c);
                    proof {
                        assert(cb_views(completed@) =~= s.completed.push(c@));
                        assert(latest@.map_values(at) =~= s.latest.insert(
                            *cb_id,
                            s.completed.len() as int,
                        ));
                    }
                }
            },
            Payload::MetalCbOps { cb_id, ops } => {
                sampled = true;
                if let Some(k) = latest.get(cb_id) {
                    let k: usize = *k;
                    let new = scaled_ops(ops, &scales, ev.seq);
                    proof {
                        assert(s.latest.contains_key(*cb_id));
                        assert(s.latest[*cb_id] == k as int);
                        assert(op_views(new@) =~= clamped_ops(ops@, scales@, ev.seq));
                    }
                    completed[k].ops = Some(new);
                    assert(cb_views(completed@) =~= s.completed.update(
                        k as int,
                        with_ops(s.completed[k as int], clamped_ops(ops@, scales@, ev.seq)),
                    ));
                } else {
                    assert(!s.latest.contains_key(*cb_id));
                    if !committed.contains_key(cb_id) {
                        let new = scaled_ops(ops, &scales, ev.seq);
                        assert(op_views(new@) =~= clamped_ops(ops@, scales@, ev.seq));
                        let c = CommandBuffer {
                            cb_id: *cb_id,
                            commit_ts: ev.ts_mono_ns,
                            in_flight_ns: 0,
                            ops: Some(new),
                        };
                        stray.push(c);
                        assert(cb_views(stray@) =~= s.stray.push(c@));
                    }
                }
            },
            _ => {},
        }
        i = i + 1;
    }
    proof {
        assert(events@.take(events@.len() as int) =~= events@);
        lemma_cb_scan(events@, scales@);
    }
    CommandBuffers { completed, stray, sampled }
}

/// The GPU time of a command buffer, or `None` where it does not fit 64 bits.
pub fn try_cb_ns(c: &CommandBuffer, sampled: bool) -> (ns: Option<u64>)
    ensures
        match ns {
            Some(ns) => ns == cb_ns(c@, sampled),
            None => cb_ns(c@, sampled) > u64::MAX,
        },
{
    match &c.ops {
        Some(ops) => try_sum_ops(ops),
        None => Some(
            if sampled {
                0
            } else {
                c.in_flight_ns
            },
        ),
    }
}

} // verus!
