//! What a trace shows, told by the events of the session.

use crate::event::{Event, Payload};
use crate::export::{
    cb_span, cumulated, field_args, finite, load_end, load_size, load_span, model_key, module_span,
    shown, size_counters, trace_of, trace_scan, unload_instant, ArgView, Duration, Phase,
    ThreadView,
};
use crate::lifetimes::{cb_open_since, is_lifetime};
use crate::pairing::{enters_call, leaves_call};
use crate::rules::duplicate_model_load::shown_name;
use crate::text::dec;
use vstd::prelude::*;

verus! {

/// What is in the trace after some events is in the trace in the end.
proof fn lemma_shown_stays(events: Seq<Event>, n: int, k: int)
    requires
        0 <= n <= events.len(),
        0 <= k < trace_scan(events, n).out.len(),
    ensures
        trace_of(events).contains(trace_scan(events, n).out[k]),
{
    let end = events.len() as int;
    crate::export::lemma_out_grows(events, n, end);
    assert(trace_of(events)[k] == trace_scan(events, end).out[k]);
}

/// Up to event `n` the latest word on the module call `id` is its entry at `a`.
pub open spec fn call_open_since(events: Seq<Event>, a: int, n: int, id: u64) -> bool {
    &&& 0 <= a < n <= events.len()
    &&& enters_call(events[a], id)
    &&& forall|j: int|
        a < j < n ==> !enters_call(#[trigger] events[j], id) && !leaves_call(events[j], id)
}

proof fn lemma_module_open(events: Seq<Event>, a: int, n: int, id: u64)
    requires
        call_open_since(events, a, n, id),
    ensures
        trace_scan(events, n).modules.contains_key(id),
        trace_scan(events, n).modules[id] == a,
    decreases n,
{
    if n - 1 > a {
        assert(call_open_since(events, a, n - 1, id));
        lemma_module_open(events, a, n - 1, id);
        assert(!enters_call(events[n - 1], id) && !leaves_call(events[n - 1], id));
    }
}

/// A module call that is entered and left is shown as a span from its entry to its
/// return, under its name, in the row of its depth, with its class, its id and its fields.
pub proof fn module_calls_are_shown(events: Seq<Event>, a: int, b: int, id: u64)
    requires
        0 <= a < b < events.len(),
        call_open_since(events, a, b, id),
        leaves_call(events[b], id),
    ensures
        exists|k: int|
            0 <= k < trace_of(events).len() && {
                let t = #[trigger] trace_of(events)[k];
                let e = events[a].payload;
                &&& t.phase == Phase::Complete && t.pid == 1
                &&& t.name == e->ModuleEntered_qualname@
                &&& t.thread == Some(ThreadView::Number(e->ModuleEntered_depth as u64))
                &&& t.ts_ns == Some(events[a].ts_mono_ns)
                &&& t.duration == Some(
                    Duration::Between {
                        from_ns: events[a].ts_mono_ns,
                        to_ns: events[b].ts_mono_ns,
                    },
                )
                &&& t.args is Some
                &&& t.args->0.len() == 2 + e->ModuleEntered_fields@.len()
                &&& t.args->0[0] == ("class_name"@, ArgView::Text(e->ModuleEntered_class_name@))
                &&& t.args->0[1] == ("module_call_id"@, ArgView::Number(id))
                &&& forall|f: int|
                    0 <= f < e->ModuleEntered_fields@.len() ==> #[trigger] t.args->0[f + 2] == (
                        e->ModuleEntered_fields@[f].0@,
                        ArgView::Field(e->ModuleEntered_fields@[f].1@),
                    )
            },
{
    lemma_module_open(events, a, b, id);
    let (s, t) = (trace_scan(events, b), trace_scan(events, b + 1));
    let k = s.out.len() as int;
    let x = module_span(events[a], events[b].ts_mono_ns);
    assert(t.out[k] == x);
    lemma_shown_stays(events, b + 1, k);
    let j = choose|j: int| 0 <= j < trace_of(events).len() && trace_of(events)[j] == x;
    let fields = events[a].payload->ModuleEntered_fields@;
    assert forall|f: int| 0 <= f < fields.len() implies #[trigger] x.args->0[f + 2] == (
        fields[f].0@,
        ArgView::Field(fields[f].1@),
    ) by {
        assert(field_args(fields)[f] == (fields[f].0@, ArgView::Field(fields[f].1@)));
    }
    assert(trace_of(events)[j].args == x.args);
}

proof fn lemma_cb_open(events: Seq<Event>, a: int, n: int, id: u64)
    requires
        cb_open_since(events, a, n, id),
    ensures
        trace_scan(events, n).cbs.contains_key(id),
        trace_scan(events, n).cbs[id] == a,
    decreases n,
{
    if n - 1 > a {
        assert(cb_open_since(events, a, n - 1, id));
        lemma_cb_open(events, a, n - 1, id);
        assert(!crate::export::bounds_cb(events[n - 1], id));
    }
}

/// A command buffer that is committed and completes is shown as a span from its commit, as
/// long as it was in flight, in the row of its queue, under its label where it has one.
pub proof fn command_buffers_are_shown(events: Seq<Event>, a: int, b: int, id: u64)
    requires
        is_lifetime(events, a, b, id),
    ensures
        exists|k: int|
            0 <= k < trace_of(events).len() && {
                let t = #[trigger] trace_of(events)[k];
                let (c, d) = (events[a].payload, events[b].payload);
                &&& t.phase == Phase::Complete && t.pid == 2
                &&& t.name == match c->MetalCbCommitted_label {
                    Some(l) => l@,
                    None => "cb_"@ + dec(id as int),
                }
                &&& t.thread == Some(
                    ThreadView::Name("queue_"@ + dec(c->MetalCbCommitted_queue_id as int)),
                )
                &&& t.ts_ns == Some(events[a].ts_mono_ns)
                &&& t.duration == Some(
                    Duration::Nanoseconds(d->MetalCbCompleted_in_flight_ns),
                )
                &&& t.args == Some(
                    seq![
                        ("cb_id"@, ArgView::Number(id)),
                        ("status"@, ArgView::Number(d->MetalCbCompleted_status as u64)),
                        (
                            "error_code"@,
                            match d->MetalCbCompleted_error_code {
                                Some(x) => ArgView::Signed(x),
                                None => ArgView::Missing,
                            },
                        ),
                        (
                            "error_domain"@,
                            match d->MetalCbCompleted_error_domain {
                                Some(x) => ArgView::Text(x@),
                                None => ArgView::Missing,
                            },
                        ),
                    ],
                )
            },
{
    lemma_cb_open(events, a, b, id);
    let (s, t) = (trace_scan(events, b), trace_scan(events, b + 1));
    let k = s.out.len() as int;
    let x = cb_span(events[a], events[b]);
    assert(t.out[k] == x);
    lemma_shown_stays(events, b + 1, k);
    let j = choose|j: int| 0 <= j < trace_of(events).len() && trace_of(events)[j] == x;
    assert(trace_of(events)[j] == x);
}

/// Where what an event shows by itself stands.
proof fn lemma_shown_alone(events: Seq<Event>, i: int, k: int)
    requires
        0 <= i < events.len(),
        0 <= k < shown(events[i]).len(),
    ensures
        trace_of(events).contains(shown(events[i])[k]),
{
    let (s, t) = (trace_scan(events, i), trace_scan(events, i + 1));
    let at = s.out.len() + k;
    assert(t.out == s.out + shown(events[i]));
    assert(t.out[at] == shown(events[i])[k]);
    lemma_shown_stays(events, i + 1, at);
}

/// Marks are shown where and as they were made, and so are the start and the end of the
/// session.
pub proof fn marks_are_shown(events: Seq<Event>, i: int)
    requires
        0 <= i < events.len(),
        events[i].payload is Mark || events[i].payload is SessionStarted
            || events[i].payload is SessionEnded,
    ensures
        exists|k: int|
            0 <= k < trace_of(events).len() && {
                let t = #[trigger] trace_of(events)[k];
                &&& t.phase == Phase::Instant && t.pid == 1 && t.ts_ns == Some(
                    events[i].ts_mono_ns,
                )
                &&& t.thread == Some(ThreadView::Number(0)) && t.scope == Some("g"@)
                &&& match events[i].payload {
                    Payload::Mark { label, fields } => {
                        &&& t.name == label@
                        &&& fields@.len() == 0 ==> t.args is None
                        &&& fields@.len() > 0 ==> t.args is Some && t.args->0.len() == fields@.len()
                            && forall|f: int|
                            0 <= f < fields@.len() ==> #[trigger] t.args->0[f] == (
                                fields@[f].0@,
                                ArgView::Field(fields@[f].1@),
                            )
                    },
                    Payload::SessionStarted { .. } => t.name == "session-started"@,
                    Payload::SessionEnded { reason, .. } => t.name == "session-ended ("@ + reason@
                        + ")"@,
                    _ => false,
                }
            },
{
    let x = shown(events[i])[0];
    lemma_shown_alone(events, i, 0);
    let j = choose|j: int| 0 <= j < trace_of(events).len() && trace_of(events)[j] == x;
    if let Payload::Mark { label, fields } = events[i].payload {
        assert forall|f: int| 0 <= f < fields@.len() implies #[trigger] x.args->0[f] == (
            fields@[f].0@,
            ArgView::Field(fields@[f].1@),
        ) by {
            assert(field_args(fields@)[f] == (fields@[f].0@, ArgView::Field(fields@[f].1@)));
        }
    }
    assert(trace_of(events)[j] == x);
}

/// A number of the trace at the time of an event.
pub open spec fn shows_counter(
    events: Seq<Event>,
    i: int,
    name: Seq<char>,
    args: Seq<(Seq<char>, ArgView)>,
) -> bool {
    exists|k: int|
        0 <= k < trace_of(events).len() && {
            let t = #[trigger] trace_of(events)[k];
            &&& t.phase == Phase::Counter && t.pid == 0 && t.thread is None
            &&& t.ts_ns == Some(events[i].ts_mono_ns)
            &&& t.name == name
            &&& t.args == Some(args)
        }
}

/// Samples of memory and temperature are shown as numbers at their time.
pub proof fn samples_are_shown(events: Seq<Event>, i: int)
    requires
        0 <= i < events.len(),
    ensures
        match events[i].payload {
            Payload::MetalDeviceMemSample { allocated_bytes, recommended_max_bytes, .. } =>
            shows_counter(
                events,
                i,
                "gpu_memory"@,
                seq![
                    ("allocated_bytes"@, ArgView::Number(allocated_bytes)),
                    ("budget_bytes"@, ArgView::Number(recommended_max_bytes)),
                ],
            ),
            Payload::VmSample {
                wired_bytes,
                active_bytes,
                compressed_bytes,
                swap_used_bytes,
                ..
            } => shows_counter(
                events,
                i,
                "system_memory"@,
                seq![
                    ("wired_bytes"@, ArgView::Number(wired_bytes)),
                    ("active_bytes"@, ArgView::Number(active_bytes)),
                    ("compressed_bytes"@, ArgView::Number(compressed_bytes)),
                    ("swap_used_bytes"@, ArgView::Number(swap_used_bytes)),
                ],
            ),
            Payload::ThermalState { level } => shows_counter(
                events,
                i,
                "thermal_level"@,
                seq![("level"@, ArgView::Number(level as u64))],
            ),
            _ => true,
        },
{
    let e = events[i].payload;
    if e is MetalDeviceMemSample || e is VmSample || e is ThermalState {
        let x = shown(events[i])[0];
        lemma_shown_alone(events, i, 0);
        let j = choose|j: int| 0 <= j < trace_of(events).len() && trace_of(events)[j] == x;
        assert(trace_of(events)[j] == x);
    }
}

/// Power and frequency of the GPU are shown where they were sampled.
pub proof fn power_is_shown(events: Seq<Event>, i: int)
    requires
        0 <= i < events.len(),
    ensures
        events[i].payload matches Payload::IoReportSample { gpu_power_mw: Some(mw), .. }
            ==> shows_counter(
            events,
            i,
            "gpu_power_mw"@,
            seq![("mw"@, ArgView::Number(mw as u64))],
        ),
        events[i].payload matches Payload::IoReportSample { gpu_freq_mhz: Some(mhz), .. }
            ==> shows_counter(
            events,
            i,
            "gpu_freq_mhz"@,
            seq![("mhz"@, ArgView::Number(mhz as u64))],
        ),
{
    if let Payload::IoReportSample { gpu_power_mw, gpu_freq_mhz, .. } = events[i].payload {
        let all = shown(events[i]);
        if let Some(mw) = gpu_power_mw {
            let k = all.len() - 1 - if gpu_freq_mhz is Some {
                1int
            } else {
                0
            };
            lemma_shown_alone(events, i, k);
            let x = all[k];
            let j = choose|j: int| 0 <= j < trace_of(events).len() && trace_of(events)[j] == x;
            assert(trace_of(events)[j] == x);
        }
        if let Some(mhz) = gpu_freq_mhz {
            let k = all.len() - 1;
            lemma_shown_alone(events, i, k);
            let x = all[k];
            let j = choose|j: int| 0 <= j < trace_of(events).len() && trace_of(events)[j] == x;
            assert(trace_of(events)[j] == x);
        }
    }
}

proof fn lemma_models_taken(events: Seq<Event>, n: int, i: int)
    requires
        0 <= i < n <= events.len(),
    ensures
        events[i].payload is ModelLoad ==> trace_scan(events, n).loads.contains(i),
        events[i].payload is ModelUnload ==> trace_scan(events, n).unloads.contains(i),
    decreases n,
{
    let (s, t) = (trace_scan(events, n - 1), trace_scan(events, n));
    if i < n - 1 {
        lemma_models_taken(events, n - 1, i);
        if events[i].payload is ModelLoad {
            let k = choose|k: int| 0 <= k < s.loads.len() && s.loads[k] == i;
            assert(t.loads[k] == i);
        }
        if events[i].payload is ModelUnload {
            let k = choose|k: int| 0 <= k < s.unloads.len() && s.unloads[k] == i;
            assert(t.unloads[k] == i);
        }
    } else {
        if events[i].payload is ModelLoad {
            assert(t.loads[t.loads.len() - 1] == i);
        }
        if events[i].payload is ModelUnload {
            assert(t.unloads[t.unloads.len() - 1] == i);
        }
    }
}

/// A model that is loaded is shown as a span from the start to the end of its loading, with
/// its path and size, and one that is unloaded as a point in time.
pub proof fn models_are_shown(events: Seq<Event>, i: int)
    requires
        0 <= i < events.len(),
    ensures
        events[i].payload matches Payload::ModelLoad {
            path,
            size_bytes,
            t_start_ns,
            t_end_ns,
            ..
        } ==> exists|k: int|
            0 <= k < trace_of(events).len() && {
                let t = #[trigger] trace_of(events)[k];
                &&& t.phase == Phase::Complete && t.pid == 4
                &&& t.name == shown_name(path@)
                &&& t.category == Some("model-load"@)
                &&& t.ts_ns == Some(t_start_ns)
                &&& t_start_ns <= t_end_ns ==> t.duration == Some(
                    Duration::Nanoseconds((t_end_ns - t_start_ns) as u64),
                )
                &&& t.args is Some && t.args->0.len() >= 2
                &&& t.args->0[0] == ("path"@, ArgView::Text(path@))
                &&& t.args->0[1] == ("size_bytes"@, ArgView::Number(size_bytes))
            },
        events[i].payload matches Payload::ModelUnload { path, t_ns, .. } ==> exists|k: int|
            0 <= k < trace_of(events).len() && {
                let t = #[trigger] trace_of(events)[k];
                &&& t.phase == Phase::Instant && t.pid == 4
                &&& t.name == "unload:"@ + shown_name(path@)
                &&& t.category == Some("model-unload"@)
                &&& t.ts_ns == Some(t_ns)
                &&& t.args is Some && t.args->0.len() >= 1
                &&& t.args->0[0] == ("path"@, ArgView::Text(path@))
            },
{
    let n = events.len() as int;
    let s = trace_scan(events, n);
    lemma_models_taken(events, n, i);
    if events[i].payload is ModelLoad {
        let k = choose|k: int| 0 <= k < s.loads.len() && s.loads[k] == i;
        let at = s.out.len() + s.unloads.len() + k;
        assert(trace_of(events)[at] == load_span(events[i]));
    }
    if events[i].payload is ModelUnload {
        let k = choose|k: int| 0 <= k < s.unloads.len() && s.unloads[k] == i;
        let at = s.out.len() + k;
        assert(trace_of(events)[at] == unload_instant(events[i]));
    }
}

/// The bytes that the loads of `list` of one model add up to.
pub open spec fn bytes_of_model(events: Seq<Event>, list: Seq<int>, key: Seq<char>) -> nat
    decreases list.len(),
{
    if list.len() == 0 {
        0
    } else {
        bytes_of_model(events, list.drop_last(), key) + if model_key(events[list.last()]) == key {
            load_size(events[list.last()]) as nat
        } else {
            0
        }
    }
}

proof fn lemma_cumulated(events: Seq<Event>, list: Seq<int>, key: Seq<char>)
    ensures
        cumulated(events, list).contains_key(key) ==> cumulated(events, list)[key].1
            == bytes_of_model(events, list, key),
        !cumulated(events, list).contains_key(key) ==> bytes_of_model(events, list, key) == 0,
    decreases list.len(),
{
    if list.len() > 0 {
        lemma_cumulated(events, list.drop_last(), key);
    }
}

/// Two loads with a digest are loads of one model exactly where the digests are the same,
/// and two without one where the paths are.
pub proof fn models_are_told_by_their_digests(e: Event, f: Event)
    requires
        e.payload is ModelLoad,
        f.payload is ModelLoad,
    ensures
        match (e.payload->ModelLoad_sha8, f.payload->ModelLoad_sha8) {
            (Some(a), Some(b)) => model_key(e) == model_key(f) <==> a@ == b@,
            (None, None) => model_key(e) == model_key(f) <==> e.payload->ModelLoad_path@
                == f.payload->ModelLoad_path@,
            _ => true,
        },
{
}

/// A single is a number unless all bits of its exponent are set, whatever its sign and its
/// fraction.
pub proof fn singles_are_numbers_by_their_exponent(sign: int, exponent: int, fraction: int)
    requires
        0 <= sign < 2,
        0 <= exponent < 256,
        0 <= fraction < 0x80_0000,
    ensures
        finite((sign * 0x8000_0000 + exponent * 0x80_0000 + fraction) as u32) <==> exponent < 255,
{
    let bits: int = sign * 0x8000_0000 + exponent * 0x80_0000 + fraction;
    assert(bits / 0x80_0000 == sign * 256 + exponent);
}

/// After each load, in the order in which the loads ended, the trace shows what the loads
/// of that model so far add up to, at the end of the load.
pub proof fn model_bytes_add_up(events: Seq<Event>, list: Seq<int>, i: int)
    requires
        0 <= i < list.len(),
    ensures
        size_counters(events, list).len() == list.len(),
        ({
            let t = size_counters(events, list)[i];
            let e = events[list[i]];
            &&& t.phase == Phase::Counter && t.pid == 0
            &&& t.ts_ns == Some(load_end(e))
            &&& bytes_of_model(events, list.take(i + 1), model_key(e)) <= u64::MAX ==> t.args
                == Some(
                seq![
                    (
                        "bytes"@,
                        ArgView::Number(
                            bytes_of_model(events, list.take(i + 1), model_key(e)) as u64,
                        ),
                    ),
                ],
            )
        }),
    decreases list.len(),
{
    let rest = list.drop_last();
    lemma_counters_len(events, list);
    lemma_counters_len(events, rest);
    if i < rest.len() {
        assert(rest[i] == list[i]);
        model_bytes_add_up(events, rest, i);
        assert(rest.take(i + 1) =~= list.take(i + 1));
    } else {
        assert(list.take(i + 1) =~= list);
        let e = events[list.last()];
        lemma_cumulated(events, list, model_key(e));
    }
}

proof fn lemma_counters_len(events: Seq<Event>, list: Seq<int>)
    ensures
        size_counters(events, list).len() == list.len(),
    decreases list.len(),
{
    if list.len() > 0 {
        lemma_counters_len(events, list.drop_last());
    }
}

} // verus!
