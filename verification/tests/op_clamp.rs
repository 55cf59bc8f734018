//! Kernel times within the window of their command buffer.

use smeltr::event::{Event, OpSample, Payload, Source, Uuid};
use smeltr::op_clamp::{apply_op_time_scales, compute_op_time_scales};

fn ev(seq: u64, ts: u64, payload: Payload) -> Event {
    Event {
        ts_mono_ns: ts,
        ts_wall_ns: ts,
        session_id: Uuid::nil(),
        source: Source::MetalHook,
        pid: None,
        seq,
        payload,
    }
}

fn sched(seq: u64, ts: u64, cb_id: u64, queue_id: u64) -> Event {
    ev(seq, ts, Payload::MetalCbScheduled { cb_id, queue_id })
}

fn done(seq: u64, ts: u64, cb_id: u64, queue_id: u64) -> Event {
    ev(
        seq,
        ts,
        Payload::MetalCbCompleted {
            cb_id,
            queue_id,
            status: 4,
            error_code: None,
            error_domain: None,
            in_flight_ns: 0,
        },
    )
}

fn cbops(seq: u64, ts: u64, cb_id: u64, gpu_ns: &[u64]) -> Event {
    ev(
        seq,
        ts,
        Payload::MetalCbOps {
            cb_id,
            ops: gpu_ns
                .iter()
                .enumerate()
                .map(|(i, ns)| OpSample {
                    name: format!("K_{i}"),
                    gpu_ns: *ns,
                    count: 1,
                    symbol: None,
                })
                .collect(),
        },
    )
}

fn op_sums(events: &[Event]) -> Vec<Vec<u64>> {
    events
        .iter()
        .filter_map(|e| match &e.payload {
            Payload::MetalCbOps { ops, .. } => Some(ops.iter().map(|o| o.gpu_ns).collect()),
            _ => None,
        })
        .collect()
}

#[test]
fn ops_exceeding_window_are_rescaled_proportionally() {
    // window = 100 (sched 0 -> done 100); ops sum 400 -> scale 0.25.
    let mut events = vec![
        sched(1, 0, 1, 9),
        done(2, 100, 1, 9),
        cbops(3, 101, 1, &[300, 100]),
    ];
    let scales = compute_op_time_scales(&events);
    assert_eq!(scales.clamped_cb_count(), 1);
    apply_op_time_scales(&mut events, &scales);
    assert_eq!(op_sums(&events), vec![vec![75, 25]]);
}

#[test]
fn ops_within_window_are_untouched() {
    let mut events = vec![
        sched(1, 0, 1, 9),
        done(2, 1000, 1, 9),
        cbops(3, 1001, 1, &[300, 100]),
    ];
    let scales = compute_op_time_scales(&events);
    assert_eq!(scales.clamped_cb_count(), 0);
    apply_op_time_scales(&mut events, &scales);
    assert_eq!(op_sums(&events), vec![vec![300, 100]]);
}

#[test]
fn window_shrinks_behind_previous_completion_on_same_queue() {
    // CB 2 is scheduled at t=0 but the queue is busy with CB 1 until
    // t=900: its window is 1000-900=100, not 1000.
    let mut events = vec![
        sched(1, 0, 1, 9),
        sched(2, 0, 2, 9),
        done(3, 900, 1, 9),
        cbops(4, 901, 1, &[900]),
        done(5, 1000, 2, 9),
        cbops(6, 1001, 2, &[400]),
    ];
    let scales = compute_op_time_scales(&events);
    assert_eq!(scales.clamped_cb_count(), 1);
    apply_op_time_scales(&mut events, &scales);
    assert_eq!(op_sums(&events), vec![vec![900], vec![100]]);
}

#[test]
fn distinct_queues_do_not_serialize_each_other() {
    let mut events = vec![
        sched(1, 0, 1, 9),
        sched(2, 0, 2, 8),
        done(3, 900, 1, 9),
        cbops(4, 901, 1, &[900]),
        done(5, 1000, 2, 8),
        cbops(6, 1001, 2, &[400]),
    ];
    let scales = compute_op_time_scales(&events);
    assert_eq!(scales.clamped_cb_count(), 0);
    apply_op_time_scales(&mut events, &scales);
    assert_eq!(op_sums(&events), vec![vec![900], vec![400]]);
}

#[test]
fn recycled_cb_id_pairs_windows_chronologically() {
    // Same cb pointer, two lifetimes: first window 100 (clamps 400->100),
    // second window 1000 (no clamp for sum 400).
    let mut events = vec![
        sched(1, 0, 1, 9),
        done(2, 100, 1, 9),
        cbops(3, 101, 1, &[400]),
        sched(4, 200, 1, 9),
        done(5, 1200, 1, 9),
        cbops(6, 1201, 1, &[400]),
    ];
    let scales = compute_op_time_scales(&events);
    assert_eq!(scales.clamped_cb_count(), 1);
    apply_op_time_scales(&mut events, &scales);
    assert_eq!(op_sums(&events), vec![vec![100], vec![400]]);
}

#[test]
fn missing_scheduled_event_skips_the_clamp() {
    let mut events = vec![done(1, 100, 1, 9), cbops(2, 101, 1, &[400])];
    let scales = compute_op_time_scales(&events);
    assert_eq!(scales.clamped_cb_count(), 0);
    apply_op_time_scales(&mut events, &scales);
    assert_eq!(op_sums(&events), vec![vec![400]]);
}

#[test]
fn scaled_gpu_ns_reads_without_mutation() {
    let events = vec![
        sched(1, 0, 1, 9),
        done(2, 100, 1, 9),
        cbops(3, 101, 1, &[300, 100]),
    ];
    let scales = compute_op_time_scales(&events);
    assert_eq!(scales.scaled_gpu_ns(3, 300), 75);
    assert_eq!(scales.scaled_gpu_ns(3, 100), 25);
    // Unknown seq: identity.
    assert_eq!(scales.scaled_gpu_ns(42, 300), 300);
}
