//! A recorded session as trace events, the form that trace viewers read.
//!
//! Times are kept in nanoseconds: viewers count in microseconds, as doubles.

use crate::attribution::FieldView;
use crate::event::{op_views, Event, FieldValue, OpSample, OpView, Payload, SessionMetadata};
use crate::rules::duplicate_model_load::shown_name;
use crate::paths::base_name;
use crate::select::ints;
use crate::sort::{ordered, rank, sort, Ranked};
use crate::text::{dec, opt_view, push_dec};
use std::collections::HashMap;
use vstd::hash_map::StringHashMap;
use vstd::prelude::*;

verus! {

broadcast use {
    vstd::std_specs::hash::group_hash_axioms,
    vstd::hash_map::group_hash_map_axioms,
    vstd::string::group_string_axioms,
};

/// What a trace event shows.
#[derive(Clone, Copy, Debug, PartialEq, Eq, Structural)]
pub enum Phase {
    /// The name of a lane.
    Metadata,
    /// A span.
    Complete,
    /// A point in time.
    Instant,
    /// A number that changes over time.
    Counter,
}

/// The row of a lane that an event is shown in.
#[derive(Clone, Debug, PartialEq, Eq)]
pub enum Thread {
    Number(u64),
    Name(String),
}

/// How long a span is.
#[derive(Clone, Copy, Debug, PartialEq, Eq, Structural)]
pub enum Duration {
    /// From one timestamp to another.
    Between { from_ns: u64, to_ns: u64 },
    Nanoseconds(u64),
}

/// What is told of an event.
#[derive(Clone, Debug, PartialEq)]
pub enum Arg {
    Text(String),
    Number(u64),
    Signed(i64),
    /// The bits of a single-precision number.
    Single(u32),
    Field(FieldValue),
    Missing,
}

/// One event of a trace.
#[derive(Clone, Debug, PartialEq)]
pub struct TraceEvent {
    pub phase: Phase,
    pub name: String,
    pub category: Option<String>,
    pub pid: u32,
    pub thread: Option<Thread>,
    pub ts_ns: Option<u64>,
    pub duration: Option<Duration>,
    /// How far an instant reaches.
    pub scope: Option<String>,
    /// In order. A later value under the same name replaces an earlier one.
    pub args: Option<Vec<(String, Arg)>>,
}

/// The view of a [`Thread`].
pub ghost enum ThreadView {
    Number(u64),
    Name(Seq<char>),
}

/// The view of an [`Arg`].
pub ghost enum ArgView {
    Text(Seq<char>),
    Number(u64),
    Signed(i64),
    Single(u32),
    Field(FieldView),
    Missing,
}

/// The view of a [`TraceEvent`].
pub ghost struct TraceView {
    pub phase: Phase,
    pub name: Seq<char>,
    pub category: Option<Seq<char>>,
    pub pid: u32,
    pub thread: Option<ThreadView>,
    pub ts_ns: Option<u64>,
    pub duration: Option<Duration>,
    pub scope: Option<Seq<char>>,
    pub args: Option<Seq<(Seq<char>, ArgView)>>,
}

impl View for Thread {
    type V = ThreadView;

    open spec fn view(&self) -> ThreadView {
        match *self {
            Thread::Number(n) => ThreadView::Number(n),
            Thread::Name(s) => ThreadView::Name(s@),
        }
    }
}

impl View for Arg {
    type V = ArgView;

    open spec fn view(&self) -> ArgView {
        match *self {
            Arg::Text(s) => ArgView::Text(s@),
            Arg::Number(n) => ArgView::Number(n),
            Arg::Signed(n) => ArgView::Signed(n),
            Arg::Single(b) => ArgView::Single(b),
            Arg::Field(f) => ArgView::Field(f@),
            Arg::Missing => ArgView::Missing,
        }
    }
}

/// The views of a list of arguments.
pub open spec fn arg_views(s: Seq<(String, Arg)>) -> Seq<(Seq<char>, ArgView)> {
    s.map_values(|a: (String, Arg)| (a.0@, a.1@))
}

impl View for TraceEvent {
    type V = TraceView;

    open spec fn view(&self) -> TraceView {
        TraceView {
            phase: self.phase,
            name: self.name@,
            category: opt_view(self.category),
            pid: self.pid,
            thread: match self.thread {
                Some(t) => Some(t@),
                None => None,
            },
            ts_ns: self.ts_ns,
            duration: self.duration,
            scope: opt_view(self.scope),
            args: match self.args {
                Some(a) => Some(arg_views(a@)),
                None => None,
            },
        }
    }
}

/// The views of a list of trace events.
pub open spec fn trace_views(s: Seq<TraceEvent>) -> Seq<TraceView> {
    s.map_values(|e: TraceEvent| e@)
}

/// The name of the lane `pid`.
pub open spec fn lane(pid: u32, name: Seq<char>) -> TraceView {
    TraceView {
        phase: Phase::Metadata,
        name: "process_name"@,
        category: None,
        pid,
        thread: Some(ThreadView::Number(0)),
        ts_ns: None,
        duration: None,
        scope: None,
        args: Some(seq![("name"@, ArgView::Text(name))]),
    }
}

/// The names of all lanes.
pub open spec fn lanes() -> Seq<TraceView> {
    seq![lane(1, "Python"@), lane(2, "Metal CBs"@), lane(3, "Kernels"@), lane(4, "Model Loads"@)]
}

/// A number at a time.
pub open spec fn counter(
    name: Seq<char>,
    ts: u64,
    args: Seq<(Seq<char>, ArgView)>,
) -> TraceView {
    TraceView {
        phase: Phase::Counter,
        name,
        category: None,
        pid: 0,
        thread: None,
        ts_ns: Some(ts),
        duration: None,
        scope: None,
        args: Some(args),
    }
}

/// A point in time of the program.
pub open spec fn instant(
    name: Seq<char>,
    ts: u64,
    args: Option<Seq<(Seq<char>, ArgView)>>,
) -> TraceView {
    TraceView {
        phase: Phase::Instant,
        name,
        category: None,
        pid: 1,
        thread: Some(ThreadView::Number(0)),
        ts_ns: Some(ts),
        duration: None,
        scope: Some("g"@),
        args,
    }
}

/// A span.
pub open spec fn span(
    name: Seq<char>,
    pid: u32,
    thread: ThreadView,
    ts: u64,
    duration: Duration,
    args: Seq<(Seq<char>, ArgView)>,
) -> TraceView {
    TraceView {
        phase: Phase::Complete,
        name,
        category: None,
        pid,
        thread: Some(thread),
        ts_ns: Some(ts),
        duration: Some(duration),
        scope: None,
        args: Some(args),
    }
}

/// The values that a user attached.
pub open spec fn field_args(fields: Seq<(String, FieldValue)>) -> Seq<(Seq<char>, ArgView)> {
    fields.map_values(|f: (String, FieldValue)| (f.0@, ArgView::Field(f.1@)))
}

/// A text, or nothing.
pub open spec fn text_arg(o: Option<Seq<char>>) -> ArgView {
    match o {
        Some(s) => ArgView::Text(s),
        None => ArgView::Missing,
    }
}

/// A module call that was entered by `enter` and returned at `ts`.
pub open spec fn module_span(enter: Event, ts: u64) -> TraceView {
    match enter.payload {
        Payload::ModuleEntered {
            module_call_id,
            qualname,
            class_name,
            depth,
            fields,
            ..
        } => span(
            qualname@,
            1,
            ThreadView::Number(depth as u64),
            enter.ts_mono_ns,
            Duration::Between { from_ns: enter.ts_mono_ns, to_ns: ts },
            seq![
                ("class_name"@, ArgView::Text(class_name@)),
                ("module_call_id"@, ArgView::Number(module_call_id)),
            ] + field_args(fields@),
        ),
        _ => arbitrary(),
    }
}

/// A command buffer that was committed by `commit` and completed by `done`.
pub open spec fn cb_span(commit: Event, done: Event) -> TraceView {
    match (commit.payload, done.payload) {
        (
            Payload::MetalCbCommitted { queue_id, label, .. },
            Payload::MetalCbCompleted { cb_id, status, error_code, error_domain, in_flight_ns, .. },
        ) => span(
            match label {
                Some(l) => l@,
                None => "cb_"@ + dec(cb_id as int),
            },
            2,
            ThreadView::Name("queue_"@ + dec(queue_id as int)),
            commit.ts_mono_ns,
            Duration::Nanoseconds(in_flight_ns),
            seq![
                ("cb_id"@, ArgView::Number(cb_id)),
                ("status"@, ArgView::Number(status as u64)),
                (
                    "error_code"@,
                    match error_code {
                        Some(c) => ArgView::Signed(c),
                        None => ArgView::Missing,
                    },
                ),
                ("error_domain"@, text_arg(opt_view(error_domain))),
            ],
        ),
        _ => arbitrary(),
    }
}

/// A kernel of the command buffer `cb_id`, committed at `ts`.
pub open spec fn op_span(op: OpView, cb_id: u64, ts: u64) -> TraceView {
    span(
        match op.symbol {
            Some(s) => s,
            None => op.name,
        },
        3,
        ThreadView::Name("cb_"@ + dec(cb_id as int)),
        ts,
        Duration::Nanoseconds(op.gpu_ns as u64),
        seq![
            ("raw_name"@, ArgView::Text(op.name)),
            ("symbol"@, text_arg(op.symbol)),
            ("count"@, ArgView::Number(op.count as u64)),
        ],
    )
}

/// The kernels that an event samples.
pub open spec fn ops_in(e: Event) -> Seq<OpView> {
    match e.payload {
        Payload::MetalCbOps { ops, .. } => op_views(ops@),
        _ => seq![],
    }
}

/// The kernels that the events `list` sample.
pub open spec fn op_spans(events: Seq<Event>, list: Seq<int>, cb_id: u64, ts: u64) -> Seq<TraceView>
    decreases list.len(),
{
    if list.len() == 0 {
        seq![]
    } else {
        op_spans(events, list.drop_last(), cb_id, ts) + ops_in(events[list.last()]).map_values(
            |o: OpView| op_span(o, cb_id, ts),
        )
    }
}

/// The bits of a number, as opposed to infinity and no number.
pub open spec fn finite(bits: u32) -> bool {
    (bits / 0x80_0000) % 256 != 255
}

/// A percentage, where there is one.
pub open spec fn pct_args(name: Seq<char>, o: Option<u32>) -> Seq<(Seq<char>, ArgView)> {
    match o {
        Some(b) => if finite(b) {
            seq![(name, ArgView::Single(b))]
        } else {
            seq![]
        },
        None => seq![],
    }
}

/// The counters that a sample of the power probe shows.
pub open spec fn io_counters(
    ts: u64,
    gpu: Option<u32>,
    ane: Option<u32>,
    cpu: Option<u32>,
    power: Option<u32>,
    freq: Option<u32>,
) -> Seq<TraceView> {
    let util = pct_args("gpu"@, gpu) + pct_args("ane"@, ane) + pct_args("cpu"@, cpu);
    (if util.len() == 0 {
        seq![]
    } else {
        seq![counter("utilization_pct"@, ts, util)]
    }) + (match power {
        Some(mw) => seq![
            counter("gpu_power_mw"@, ts, seq![("mw"@, ArgView::Number(mw as u64))]),
        ],
        None => seq![],
    }) + (match freq {
        Some(mhz) => seq![
            counter("gpu_freq_mhz"@, ts, seq![("mhz"@, ArgView::Number(mhz as u64))]),
        ],
        None => seq![],
    })
}

/// What an event shows by itself.
pub open spec fn shown(e: Event) -> Seq<TraceView> {
    let ts = e.ts_mono_ns;
    match e.payload {
        Payload::Mark { label, fields } => seq![
            instant(
                label@,
                ts,
                if fields@.len() == 0 {
                    None
                } else {
                    Some(field_args(fields@))
                },
            ),
        ],
        Payload::SessionStarted { .. } => seq![instant("session-started"@, ts, None)],
        Payload::SessionEnded { reason, .. } => seq![
            instant("session-ended ("@ + reason@ + ")"@, ts, None),
        ],
        Payload::MetalDeviceMemSample { allocated_bytes, recommended_max_bytes, .. } => seq![
            counter(
                "gpu_memory"@,
                ts,
                seq![
                    ("allocated_bytes"@, ArgView::Number(allocated_bytes)),
                    ("budget_bytes"@, ArgView::Number(recommended_max_bytes)),
                ],
            ),
        ],
        Payload::VmSample {
            wired_bytes,
            active_bytes,
            compressed_bytes,
            swap_used_bytes,
            page_outs_per_sec,
        } => {
            let memory = counter(
                "system_memory"@,
                ts,
                seq![
                    ("wired_bytes"@, ArgView::Number(wired_bytes)),
                    ("active_bytes"@, ArgView::Number(active_bytes)),
                    ("compressed_bytes"@, ArgView::Number(compressed_bytes)),
                    ("swap_used_bytes"@, ArgView::Number(swap_used_bytes)),
                ],
            );
            if finite(page_outs_per_sec) {
                seq![
                    memory,
                    counter(
                        "vm_page_outs_per_sec"@,
                        ts,
                        seq![("rate"@, ArgView::Single(page_outs_per_sec))],
                    ),
                ]
            } else {
                seq![memory]
            }
        },
        Payload::ThermalState { level } => seq![
            counter("thermal_level"@, ts, seq![("level"@, ArgView::Number(level as u64))]),
        ],
        Payload::IoReportSample {
            gpu_residency_pct,
            ane_residency_pct,
            cpu_residency_pct,
            gpu_power_mw,
            gpu_freq_mhz,
        } => io_counters(
            ts,
            gpu_residency_pct,
            ane_residency_pct,
            cpu_residency_pct,
            gpu_power_mw,
            gpu_freq_mhz,
        ),
        _ => seq![],
    }
}

/// What reading a stream has found so far. Events are told by where they stand.
pub ghost struct TraceScan {
    pub out: Seq<TraceView>,
    /// The latest entry of each open module call.
    pub modules: Map<u64, int>,
    /// The latest commit of each open command buffer.
    pub cbs: Map<u64, int>,
    /// The kernels that wait for a completion of their command buffer.
    pub pending: Map<u64, Seq<int>>,
    /// The commit of the latest completed lifetime of each command buffer.
    pub done: Map<u64, int>,
    pub loads: Seq<int>,
    pub unloads: Seq<int>,
}

/// The event at `i` more.
pub open spec fn trace_step(s: TraceScan, events: Seq<Event>, i: int) -> TraceScan {
    let e = events[i];
    match e.payload {
        Payload::ModuleEntered { module_call_id, .. } => TraceScan {
            modules: s.modules.insert(module_call_id, i),
            ..s
        },
        Payload::ModuleReturned { module_call_id } => if s.modules.contains_key(module_call_id) {
            TraceScan {
                out: s.out.push(module_span(events[s.modules[module_call_id]], e.ts_mono_ns)),
                modules: s.modules.remove(module_call_id),
                ..s
            }
        } else {
            s
        },
        Payload::MetalCbCommitted { cb_id, .. } => TraceScan {
            cbs: s.cbs.insert(cb_id, i),
            ..s
        },
        Payload::MetalCbCompleted { cb_id, .. } => if s.cbs.contains_key(cb_id) {
            let commit = events[s.cbs[cb_id]];
            TraceScan {
                out: s.out.push(cb_span(commit, e)) + (if s.pending.contains_key(cb_id) {
                    op_spans(events, s.pending[cb_id], cb_id, commit.ts_mono_ns)
                } else {
                    seq![]
                }),
                cbs: s.cbs.remove(cb_id),
                pending: s.pending.remove(cb_id),
                done: s.done.insert(cb_id, s.cbs[cb_id]),
                ..s
            }
        } else {
            s
        },
        // Kernels that follow the completion of their command buffer, as the hook
        // writes them, are shown at once. Others wait for a completion.
        Payload::MetalCbOps { cb_id, .. } => if !s.cbs.contains_key(cb_id) && s.done.contains_key(
            cb_id,
        ) {
            TraceScan {
                out: s.out + op_spans(
                    events,
                    seq![i],
                    cb_id,
                    events[s.done[cb_id]].ts_mono_ns,
                ),
                ..s
            }
        } else {
            TraceScan {
                pending: s.pending.insert(
                    cb_id,
                    (if s.pending.contains_key(cb_id) {
                        s.pending[cb_id]
                    } else {
                        seq![]
                    }).push(i),
                ),
                ..s
            }
        },
        Payload::ModelLoad { .. } => TraceScan { loads: s.loads.push(i), ..s },
        Payload::ModelUnload { .. } => TraceScan { unloads: s.unloads.push(i), ..s },
        _ => TraceScan { out: s.out + shown(e), ..s },
    }
}

/// Reads the first `n` events.
pub open spec fn trace_scan(events: Seq<Event>, n: int) -> TraceScan
    decreases n,
{
    if n <= 0 {
        TraceScan {
            out: lanes(),
            modules: Map::empty(),
            cbs: Map::empty(),
            pending: Map::empty(),
            done: Map::empty(),
            loads: seq![],
            unloads: seq![],
        }
    } else {
        trace_step(trace_scan(events, n - 1), events, n - 1)
    }
}

/// A digest as an argument, where there is one.
pub open spec fn digest_args(name: Seq<char>, o: Option<Seq<char>>) -> Seq<(Seq<char>, ArgView)> {
    match o {
        Some(s) => seq![(name, ArgView::Text(s))],
        None => seq![],
    }
}

/// The unloading of a model.
pub open spec fn unload_instant(e: Event) -> TraceView {
    match e.payload {
        Payload::ModelUnload { path, t_ns, sha8 } => TraceView {
            phase: Phase::Instant,
            name: "unload:"@ + shown_name(path@),
            category: Some("model-unload"@),
            pid: 4,
            thread: Some(ThreadView::Number(0)),
            ts_ns: Some(t_ns),
            duration: None,
            scope: Some("p"@),
            args: Some(
                seq![("path"@, ArgView::Text(path@))] + digest_args("sha8"@, opt_view(sha8)),
            ),
        },
        _ => arbitrary(),
    }
}

/// The loading of a model.
pub open spec fn load_span(e: Event) -> TraceView {
    match e.payload {
        Payload::ModelLoad { path, size_bytes, t_start_ns, t_end_ns, sha8, framework } => TraceView {
            phase: Phase::Complete,
            name: shown_name(path@),
            category: Some("model-load"@),
            pid: 4,
            thread: Some(ThreadView::Number(0)),
            ts_ns: Some(t_start_ns),
            duration: Some(Duration::Nanoseconds((t_end_ns - t_start_ns) as u64)),
            scope: None,
            args: Some(
                seq![
                    ("path"@, ArgView::Text(path@)),
                    ("size_bytes"@, ArgView::Number(size_bytes)),
                ] + digest_args("sha8"@, opt_view(sha8)) + digest_args(
                    "framework"@,
                    opt_view(framework),
                ),
            ),
        },
        _ => arbitrary(),
    }
}

/// The path of a model that is loaded.
pub open spec fn load_path(e: Event) -> Seq<char> {
    match e.payload {
        Payload::ModelLoad { path, .. } => path@,
        _ => arbitrary(),
    }
}

/// What tells one model from another: its digest, else its path.
pub open spec fn model_key(e: Event) -> Seq<char> {
    match e.payload {
        Payload::ModelLoad { path, sha8, .. } => match sha8 {
            Some(s) => s@,
            None => path@,
        },
        _ => arbitrary(),
    }
}

/// When a model was loaded.
pub open spec fn load_end(e: Event) -> u64 {
    match e.payload {
        Payload::ModelLoad { t_end_ns, .. } => t_end_ns,
        _ => arbitrary(),
    }
}

/// How large a model is.
pub open spec fn load_size(e: Event) -> u64 {
    match e.payload {
        Payload::ModelLoad { size_bytes, .. } => size_bytes,
        _ => arbitrary(),
    }
}

/// Loads by the time of their end.
pub open spec fn by_end(events: Seq<Event>) -> spec_fn(int, int) -> bool {
    |i: int, j: int| load_end(events[i]) < load_end(events[j])
}

/// The bytes of each model so far, and its first load.
pub open spec fn cumulated(events: Seq<Event>, list: Seq<int>) -> Map<Seq<char>, (int, nat)>
    decreases list.len(),
{
    if list.len() == 0 {
        Map::empty()
    } else {
        let m = cumulated(events, list.drop_last());
        let i = list.last();
        let key = model_key(events[i]);
        let size = load_size(events[i]) as nat;
        if m.contains_key(key) {
            m.insert(key, (m[key].0, m[key].1 + size))
        } else {
            m.insert(key, (i, size))
        }
    }
}

/// The bytes of its model after each load.
pub open spec fn size_counters(events: Seq<Event>, list: Seq<int>) -> Seq<TraceView>
    decreases list.len(),
{
    if list.len() == 0 {
        seq![]
    } else {
        let e = events[list.last()];
        let now = cumulated(events, list)[model_key(e)];
        size_counters(events, list.drop_last()).push(
            counter(
                "model:"@ + shown_name(load_path(events[now.0])),
                load_end(e),
                seq![("bytes"@, ArgView::Number(now.1 as u64))],
            ),
        )
    }
}

/// The trace of a session: the lanes, what happened, the models unloaded, the
/// models loaded, and the bytes of each model over time.
pub open spec fn trace_of(events: Seq<Event>) -> Seq<TraceView> {
    let s = trace_scan(events, events.len() as int);
    s.out + s.unloads.map_values(|i: int| unload_instant(events[i])) + s.loads.map_values(
        |i: int| load_span(events[i]),
    ) + size_counters(events, ordered(s.loads, by_end(events)))
}

/// No model is loaded backwards in time, and the bytes of each fit.
pub open spec fn loads_fit(events: Seq<Event>) -> bool {
    let loads = trace_scan(events, events.len() as int).loads;
    let list = ordered(loads, by_end(events));
    &&& forall|k: int|
        0 <= k < loads.len() ==> match (#[trigger] events[loads[k]]).payload {
            Payload::ModelLoad { t_start_ns, t_end_ns, .. } => t_start_ns <= t_end_ns,
            _ => true,
        }
    &&& sizes_fit(events, list)
}

/// An argument.
fn arg(name: &str, a: Arg) -> (r: (String, Arg))
    ensures
        r.0@ == name@,
        r.1 == a,
{
    (name.to_owned(), a)
}

fn lane_event(pid: u32, name: &str) -> (r: TraceEvent)
    ensures
        r@ == lane(pid, name@),
{
    let args = vec![arg("name", Arg::Text(name.to_owned()))];
    assert(arg_views(args@) =~= seq![("name"@, ArgView::Text(name@))]);
    TraceEvent {
        phase: Phase::Metadata,
        name: "process_name".to_owned(),
        category: None,
        pid,
        thread: Some(Thread::Number(0)),
        ts_ns: None,
        duration: None,
        scope: None,
        args: Some(args),
    }
}

fn counter_event(name: &str, ts: u64, args: Vec<(String, Arg)>) -> (r: TraceEvent)
    ensures
        r@ == counter(name@, ts, arg_views(args@)),
{
    TraceEvent {
        phase: Phase::Counter,
        name: name.to_owned(),
        category: None,
        pid: 0,
        thread: None,
        ts_ns: Some(ts),
        duration: None,
        scope: None,
        args: Some(args),
    }
}

fn instant_event(name: &str, ts: u64, args: Option<Vec<(String, Arg)>>) -> (r: TraceEvent)
    ensures
        r@ == instant(
            name@,
            ts,
            match args {
                Some(a) => Some(arg_views(a@)),
                None => None,
            },
        ),
{
    TraceEvent {
        phase: Phase::Instant,
        name: name.to_owned(),
        category: None,
        pid: 1,
        thread: Some(Thread::Number(0)),
        ts_ns: Some(ts),
        duration: None,
        scope: Some("g".to_owned()),
        args,
    }
}

fn span_event(
    name: &str,
    pid: u32,
    thread: Thread,
    ts: u64,
    duration: Duration,
    args: Vec<(String, Arg)>,
) -> (r: TraceEvent)
    ensures
        r@ == span(name@, pid, thread@, ts, duration, arg_views(args@)),
{
    TraceEvent {
        phase: Phase::Complete,
        name: name.to_owned(),
        category: None,
        pid,
        thread: Some(thread),
        ts_ns: Some(ts),
        duration: Some(duration),
        scope: None,
        args: Some(args),
    }
}

fn copied_field(f: &FieldValue) -> (r: FieldValue)
    ensures
        r@ == f@,
{
    match f {
        FieldValue::Bool(b) => FieldValue::Bool(*b),
        FieldValue::Int(i) => FieldValue::Int(*i),
        FieldValue::Float(x) => FieldValue::Float(*x),
        FieldValue::String(s) => FieldValue::String(s.clone()),
    }
}

/// Appends the values that a user attached.
fn push_fields(args: &mut Vec<(String, Arg)>, fields: &Vec<(String, FieldValue)>)
    ensures
        arg_views(final(args)@) == arg_views(old(args)@) + field_args(fields@),
{
    let ghost before = arg_views(args@);
    let ghost all = field_args(fields@);
    let mut i: usize = 0;
    assert(before + all.take(0) =~= before);
    while i < fields.len()
        invariant
            i <= fields@.len(),
            all == field_args(fields@),
            arg_views(args@) == before + all.take(i as int),
        decreases fields@.len() - i,
    {
        let ghost was = args@;
        let f = &fields[i];
        let a = (f.0.clone(), Arg::Field(copied_field(&f.1)));
        args.push(a);
        proof {
            assert(all[i as int] == (f.0@, ArgView::Field(f.1@)));
            assert(arg_views(args@) =~= arg_views(was).push((a.0@, a.1@)));
            assert(before + all.take(i + 1) =~= (before + all.take(i as int)).push(all[i as int]));
        }
        i = i + 1;
    }
    assert(all.take(all.len() as int) =~= all);
}

fn text_of(o: &Option<String>) -> (a: Arg)
    ensures
        a@ == text_arg(opt_view(*o)),
{
    match o {
        Some(s) => Arg::Text(s.clone()),
        None => Arg::Missing,
    }
}

fn module_event(enter: &Event, ts: u64) -> (r: Option<TraceEvent>)
    ensures
        enter.payload is ModuleEntered ==> (r matches Some(t) && t@ == module_span(*enter, ts)),
{
    match &enter.payload {
        Payload::ModuleEntered { module_call_id, qualname, class_name, depth, fields, .. } => {
            let mut args = vec![
                arg("class_name", Arg::Text(class_name.clone())),
                arg("module_call_id", Arg::Number(*module_call_id)),
            ];
            assert(arg_views(args@) =~= seq![
                ("class_name"@, ArgView::Text(class_name@)),
                ("module_call_id"@, ArgView::Number(*module_call_id)),
            ]);
            push_fields(&mut args, fields);
            Some(
                span_event(
                    qualname.as_str(),
                    1,
                    Thread::Number(*depth as u64),
                    enter.ts_mono_ns,
                    Duration::Between { from_ns: enter.ts_mono_ns, to_ns: ts },
                    args,
                ),
            )
        },
        _ => None,
    }
}

fn cb_event(commit: &Event, done: &Event) -> (r: Option<TraceEvent>)
    ensures
        commit.payload is MetalCbCommitted && done.payload is MetalCbCompleted
            ==> (r matches Some(t) && t@ == cb_span(*commit, *done)),
{
    if let Payload::MetalCbCommitted { queue_id, label, .. } = &commit.payload {
        if let Payload::MetalCbCompleted {
            cb_id,
            status,
            error_code,
            error_domain,
            in_flight_ns,
            ..
        } = &done.payload {
            let name = match label {
                Some(l) => l.clone(),
                None => {
                    let mut s = "cb_".to_owned();
                    push_dec(&mut s, *cb_id);
                    s
                },
            };
            let mut queue = "queue_".to_owned();
            push_dec(&mut queue, *queue_id);
            let code = match error_code {
                Some(c) => Arg::Signed(*c),
                None => Arg::Missing,
            };
            let args = vec![
                arg("cb_id", Arg::Number(*cb_id)),
                arg("status", Arg::Number(*status as u64)),
                arg("error_code", code),
                arg("error_domain", text_of(error_domain)),
            ];
            assert(arg_views(args@) =~= cb_span(*commit, *done).args->0);
            return Some(
                span_event(
                    name.as_str(),
                    2,
                    Thread::Name(queue),
                    commit.ts_mono_ns,
                    Duration::Nanoseconds(*in_flight_ns),
                    args,
                ),
            );
        }
    }
    None
}

fn op_event(op: &OpSample, cb_id: u64, ts: u64) -> (r: TraceEvent)
    ensures
        r@ == op_span(op@, cb_id, ts),
{
    let name = match &op.symbol {
        Some(s) => s.clone(),
        None => op.name.clone(),
    };
    let mut row = "cb_".to_owned();
    push_dec(&mut row, cb_id);
    let args = vec![
        arg("raw_name", Arg::Text(op.name.clone())),
        arg("symbol", text_of(&op.symbol)),
        arg("count", Arg::Number(op.count as u64)),
    ];
    assert(arg_views(args@) =~= seq![
        ("raw_name"@, ArgView::Text(op.name@)),
        ("symbol"@, text_arg(opt_view(op.symbol))),
        ("count"@, ArgView::Number(op.count as u64)),
    ]);
    span_event(
        name.as_str(),
        3,
        Thread::Name(row),
        ts,
        Duration::Nanoseconds(op.gpu_ns),
        args,
    )
}

proof fn lemma_trace_push(s: Seq<TraceEvent>, e: TraceEvent)
    ensures
        trace_views(s.push(e)) == trace_views(s).push(e@),
{
    assert(trace_views(s.push(e)) =~= trace_views(s).push(e@));
}

/// Appends the kernels that the events `list` sample.
fn push_ops(out: &mut Vec<TraceEvent>, events: &[Event], list: &Vec<usize>, cb_id: u64, ts: u64)
    requires
        forall|k: int| 0 <= k < list@.len() ==> #[trigger] list@[k] < events@.len(),
    ensures
        trace_views(final(out)@) == trace_views(old(out)@) + op_spans(
            events@,
            ints(list@),
            cb_id,
            ts,
        ),
{
    let ghost before = trace_views(out@);
    let ghost all = ints(list@);
    let mut i: usize = 0;
    assert(all.take(0) =~= Seq::<int>::empty());
    assert(before + op_spans(events@, all.take(0), cb_id, ts) =~= before);
    while i < list.len()
        invariant
            i <= list@.len(),
            all == ints(list@),
            forall|k: int| 0 <= k < list@.len() ==> #[trigger] list@[k] < events@.len(),
            trace_views(out@) == before + op_spans(events@, all.take(i as int), cb_id, ts),
        decreases list@.len() - i,
    {
        let at: usize = list[i];
        let ghost so_far = trace_views(out@);
        let ghost more = ops_in(events@[at as int]).map_values(|o: OpView| op_span(o, cb_id, ts));
        proof {
            assert(all[i as int] == at);
            assert(all.take(i + 1).drop_last() =~= all.take(i as int));
        }
        if let Payload::MetalCbOps { ops, .. } = &events[at].payload {
            let mut j: usize = 0;
            assert(so_far + more.take(0) =~= so_far);
            while j < ops.len()
                invariant
                    j <= ops@.len(),
                    more == op_views(ops@).map_values(|o: OpView| op_span(o, cb_id, ts)),
                    trace_views(out@) == so_far + more.take(j as int),
                decreases ops@.len() - j,
            {
                let e = op_event(&ops[j], cb_id, ts);
                proof {
                    lemma_trace_push(out@, e);
                    assert(more[j as int] == op_span(ops@[j as int]@, cb_id, ts));
                    assert(so_far + more.take(j + 1) =~= (so_far + more.take(j as int)).push(
                        more[j as int],
                    ));
                }
                out.push(e);
                j = j + 1;
            }
            assert(more.take(more.len() as int) =~= more);
        }
        assert(trace_views(out@) =~= so_far + more);
        assert(so_far + more =~= before + op_spans(events@, all.take(i + 1), cb_id, ts));
        i = i + 1;
    }
    assert(all.take(all.len() as int) =~= all);
}

fn is_finite(bits: u32) -> (b: bool)
    ensures
        b == finite(bits),
{
    (bits / 0x80_0000) % 256 != 255
}

fn push_pct(args: &mut Vec<(String, Arg)>, name: &str, o: Option<u32>)
    ensures
        arg_views(final(args)@) == arg_views(old(args)@) + pct_args(name@, o),
{
    let ghost was = args@;
    if let Some(b) = o {
        if is_finite(b) {
            args.push(arg(name, Arg::Single(b)));
        }
    }
    assert(arg_views(args@) =~= arg_views(was) + pct_args(name@, o));
}

/// Appends what an event shows by itself.
fn push_shown(out: &mut Vec<TraceEvent>, e: &Event)
    ensures
        trace_views(final(out)@) == trace_views(old(out)@) + shown(*e),
{
    let ghost was = out@;
    let ts: u64 = e.ts_mono_ns;
    match &e.payload {
        Payload::Mark { label, fields } => {
            let args: Option<Vec<(String, Arg)>> = if fields.len() == 0 {
                None
            } else {
                let mut a: Vec<(String, Arg)> = Vec::new();
                assert(arg_views(a@) =~= seq![]);
                push_fields(&mut a, fields);
                assert(arg_views(a@) =~= field_args(fields@));
                Some(a)
            };
            out.push(instant_event(label.as_str(), ts, args));
        },
        Payload::SessionStarted { .. } => {
            out.push(instant_event("session-started", ts, None));
        },
        Payload::SessionEnded { reason, .. } => {
            let mut name = "session-ended (".to_owned();
            name.append(reason.as_str());
            name.append(")");
            out.push(instant_event(name.as_str(), ts, None));
        },
        Payload::MetalDeviceMemSample { allocated_bytes, recommended_max_bytes, .. } => {
            let args = vec![
                arg("allocated_bytes", Arg::Number(*allocated_bytes)),
                arg("budget_bytes", Arg::Number(*recommended_max_bytes)),
            ];
            assert(arg_views(args@) =~= seq![
                ("allocated_bytes"@, ArgView::Number(*allocated_bytes)),
                ("budget_bytes"@, ArgView::Number(*recommended_max_bytes)),
            ]);
            out.push(counter_event("gpu_memory", ts, args));
        },
        Payload::VmSample {
            wired_bytes,
            active_bytes,
            compressed_bytes,
            swap_used_bytes,
            page_outs_per_sec,
        } => {
            let args = vec![
                arg("wired_bytes", Arg::Number(*wired_bytes)),
                arg("active_bytes", Arg::Number(*active_bytes)),
                arg("compressed_bytes", Arg::Number(*compressed_bytes)),
                arg("swap_used_bytes", Arg::Number(*swap_used_bytes)),
            ];
            assert(arg_views(args@) =~= seq![
                ("wired_bytes"@, ArgView::Number(*wired_bytes)),
                ("active_bytes"@, ArgView::Number(*active_bytes)),
                ("compressed_bytes"@, ArgView::Number(*compressed_bytes)),
                ("swap_used_bytes"@, ArgView::Number(*swap_used_bytes)),
            ]);
            out.push(counter_event("system_memory", ts, args));
            if is_finite(*page_outs_per_sec) {
                let rate = vec![arg("rate", Arg::Single(*page_outs_per_sec))];
                assert(arg_views(rate@) =~= seq![("rate"@, ArgView::Single(*page_outs_per_sec))]);
                out.push(counter_event("vm_page_outs_per_sec", ts, rate));
            }
        },
        Payload::ThermalState { level } => {
            let args = vec![arg("level", Arg::Number(*level as u64))];
            assert(arg_views(args@) =~= seq![("level"@, ArgView::Number(*level as u64))]);
            out.push(counter_event("thermal_level", ts, args));
        },
        Payload::IoReportSample {
            gpu_residency_pct,
            ane_residency_pct,
            cpu_residency_pct,
            gpu_power_mw,
            gpu_freq_mhz,
        } => {
            let mut util: Vec<(String, Arg)> = Vec::new();
            assert(arg_views(util@) =~= seq![]);
            push_pct(&mut util, "gpu", *gpu_residency_pct);
            push_pct(&mut util, "ane", *ane_residency_pct);
            push_pct(&mut util, "cpu", *cpu_residency_pct);
            let ghost all = pct_args("gpu"@, *gpu_residency_pct) + pct_args(
                "ane"@,
                *ane_residency_pct,
            ) + pct_args("cpu"@, *cpu_residency_pct);
            assert(arg_views(util@) =~= all);
            if util.len() > 0 {
                out.push(counter_event("utilization_pct", ts, util));
            }
            if let Some(mw) = gpu_power_mw {
                let args = vec![arg("mw", Arg::Number(*mw as u64))];
                assert(arg_views(args@) =~= seq![("mw"@, ArgView::Number(*mw as u64))]);
                out.push(counter_event("gpu_power_mw", ts, args));
            }
            if let Some(mhz) = gpu_freq_mhz {
                let args = vec![arg("mhz", Arg::Number(*mhz as u64))];
                assert(arg_views(args@) =~= seq![("mhz"@, ArgView::Number(*mhz as u64))]);
                out.push(counter_event("gpu_freq_mhz", ts, args));
            }
        },
        _ => {},
    }
    assert(trace_views(out@) =~= trace_views(was) + shown(*e));
}

fn digest_arg(args: &mut Vec<(String, Arg)>, name: &str, o: &Option<String>)
    ensures
        arg_views(final(args)@) == arg_views(old(args)@) + digest_args(name@, opt_view(*o)),
{
    let ghost was = args@;
    if let Some(s) = o {
        args.push(arg(name, Arg::Text(s.clone())));
    }
    assert(arg_views(args@) =~= arg_views(was) + digest_args(name@, opt_view(*o)));
}

/// The name that a path is told by.
fn name_of(path: &String) -> (s: String)
    ensures
        s@ == shown_name(path@),
{
    match base_name(path.as_str()) {
        Some(n) => n,
        None => path.clone(),
    }
}

fn unload_event(e: &Event) -> (r: Option<TraceEvent>)
    ensures
        e.payload is ModelUnload ==> (r matches Some(t) && t@ == unload_instant(*e)),
{
    match &e.payload {
        Payload::ModelUnload { path, t_ns, sha8 } => {
            let mut name = "unload:".to_owned();
            name.append(name_of(path).as_str());
            let mut args = vec![arg("path", Arg::Text(path.clone()))];
            assert(arg_views(args@) =~= seq![("path"@, ArgView::Text(path@))]);
            digest_arg(&mut args, "sha8", sha8);
            Some(
                TraceEvent {
                    phase: Phase::Instant,
                    name,
                    category: Some("model-unload".to_owned()),
                    pid: 4,
                    thread: Some(Thread::Number(0)),
                    ts_ns: Some(*t_ns),
                    duration: None,
                    scope: Some("p".to_owned()),
                    args: Some(args),
                },
            )
        },
        _ => None,
    }
}

fn load_event(e: &Event) -> (r: Option<TraceEvent>)
    requires
        match e.payload {
            Payload::ModelLoad { t_start_ns, t_end_ns, .. } => t_start_ns <= t_end_ns,
            _ => true,
        },
    ensures
        e.payload is ModelLoad ==> (r matches Some(t) && t@ == load_span(*e)),
{
    match &e.payload {
        Payload::ModelLoad { path, size_bytes, t_start_ns, t_end_ns, sha8, framework } => {
            let mut args = vec![
                arg("path", Arg::Text(path.clone())),
                arg("size_bytes", Arg::Number(*size_bytes)),
            ];
            assert(arg_views(args@) =~= seq![
                ("path"@, ArgView::Text(path@)),
                ("size_bytes"@, ArgView::Number(*size_bytes)),
            ]);
            digest_arg(&mut args, "sha8", sha8);
            digest_arg(&mut args, "framework", framework);
            Some(
                TraceEvent {
                    phase: Phase::Complete,
                    name: name_of(path),
                    category: Some("model-load".to_owned()),
                    pid: 4,
                    thread: Some(Thread::Number(0)),
                    ts_ns: Some(*t_start_ns),
                    duration: Some(Duration::Nanoseconds(*t_end_ns - *t_start_ns)),
                    scope: None,
                    args: Some(args),
                },
            )
        },
        _ => None,
    }
}

/// Where a load stands, and when it ended.
struct Load {
    at: usize,
    end: u64,
}

impl Ranked for Load {
    closed spec fn before(self, other: Self) -> bool {
        self.end < other.end
    }

    fn comes_before(&self, other: &Self) -> (b: bool) {
        self.end < other.end
    }
}

/// The events at these places are loads.
spec fn are_loads(events: Seq<Event>, list: Seq<int>) -> bool {
    forall|k: int|
        0 <= k < list.len() ==> 0 <= #[trigger] list[k] < events.len()
            && events[list[k]].payload is ModelLoad
}

/// The events at these places are unloads.
spec fn are_unloads(events: Seq<Event>, list: Seq<int>) -> bool {
    forall|k: int|
        0 <= k < list.len() ==> 0 <= #[trigger] list[k] < events.len()
            && events[list[k]].payload is ModelUnload
}

/// The loads by the time of their end.
fn sorted_loads(events: &[Event], loads: &Vec<usize>) -> (r: Vec<usize>)
    requires
        are_loads(events@, ints(loads@)),
    ensures
        ints(r@) == ordered(ints(loads@), by_end(events@)),
        are_loads(events@, ints(r@)),
{
    let ghost all = ints(loads@);
    let ghost at = |l: Load| l.at as int;
    let ghost ok = |l: Load|
        l.at < events@.len() && events@[l.at as int].payload is ModelLoad && l.end == load_end(
            events@[l.at as int],
        );
    let mut list: Vec<Load> = Vec::new();
    let mut i: usize = 0;
    while i < loads.len()
        invariant
            i <= loads@.len(),
            all == ints(loads@),
            are_loads(events@, all),
            ok == (|l: Load|
                l.at < events@.len() && events@[l.at as int].payload is ModelLoad && l.end
                    == load_end(events@[l.at as int])),
            list@.len() == i,
            forall|k: int| 0 <= k < i ==> (#[trigger] list@[k]).at == loads@[k] && ok(list@[k]),
        decreases loads@.len() - i,
    {
        let k: usize = loads[i];
        assert(all[i as int] == k);
        let end: u64 = match &events[k].payload {
            Payload::ModelLoad { t_end_ns, .. } => *t_end_ns,
            _ => 0,
        };
        let l = Load { at: k, end };
        assert(ok(l));
        list.push(l);
        i = i + 1;
    }
    proof {
        assert(list@.map_values(at) =~= all);
        crate::sort::lemma_ordered_map_where(list@, at, rank::<Load>(), by_end(events@), ok);
    }
    sort(&mut list);
    let mut r: Vec<usize> = Vec::new();
    let mut j: usize = 0;
    while j < list.len()
        invariant
            j <= list@.len(),
            r@.len() == j,
            forall|k: int| 0 <= k < j ==> #[trigger] r@[k] == list@[k].at,
        decreases list@.len() - j,
    {
        r.push(list[j].at);
        j = j + 1;
    }
    proof {
        assert(ints(r@) =~= list@.map_values(at));
        assert forall|k: int| 0 <= k < ints(r@).len() implies 0 <= #[trigger] ints(r@)[k]
            < events@.len() && events@[ints(r@)[k]].payload is ModelLoad by {
            assert(ok(list@[k]));
        }
    }
    r
}

/// The bytes of each model after the loads `list`; `None` where they do not fit.
fn size_events(events: &[Event], list: &Vec<usize>) -> (r: Option<Vec<TraceEvent>>)
    requires
        are_loads(events@, ints(list@)),
    ensures
        match r {
            Some(v) => {
                &&& trace_views(v@) == size_counters(events@, ints(list@))
                &&& sizes_fit(events@, ints(list@))
            },
            None => !sizes_fit(events@, ints(list@)),
        },
{
    let ghost all = ints(list@);
    let ghost shape = |v: (usize, u64)| (v.0 as int, v.1 as nat);
    let mut out: Vec<TraceEvent> = Vec::new();
    let mut sums: StringHashMap<(usize, u64)> = StringHashMap::new();
    let mut i: usize = 0;
    proof {
        assert(all.take(0) =~= Seq::<int>::empty());
        assert(trace_views(out@) =~= Seq::<TraceView>::empty());
        assert(sums@.map_values(shape) =~= Map::<Seq<char>, (int, nat)>::empty());
    }
    while i < list.len()
        invariant
            i <= list@.len(),
            all == ints(list@),
            are_loads(events@, all),
            shape == (|v: (usize, u64)| (v.0 as int, v.1 as nat)),
            sums@.map_values(shape) == cumulated(events@, all.take(i as int)),
            forall|k: Seq<char>| #[trigger]
                sums@.contains_key(k) ==> sums@[k].0 < events@.len()
                    && events@[sums@[k].0 as int].payload is ModelLoad,
            trace_views(out@) == size_counters(events@, all.take(i as int)),
            forall|k: int|
                0 < k <= i ==> (#[trigger] cumulated(events@, all.take(k)))[model_key(
                    events@[all[k - 1]],
                )].1 <= u64::MAX,
        decreases list@.len() - i,
    {
        let at: usize = list[i];
        let ghost before = cumulated(events@, all.take(i as int));
        proof {
            assert(all[i as int] == at);
            assert(all.take(i + 1).drop_last() =~= all.take(i as int));
        }
        if let Payload::ModelLoad { path, size_bytes, t_end_ns, sha8, .. } = &events[at].payload {
            let key = match sha8 {
                Some(s) => s.clone(),
                None => path.clone(),
            };
            let (first, sum): (usize, u64) = match sums.get(key.as_str()) {
                Some(v) => *v,
                None => (at, 0),
            };
            proof {
                assert(before.contains_key(key@) == sums@.contains_key(key@));
                if sums@.contains_key(key@) {
                    assert(before[key@] == shape(sums@[key@]));
                }
            }
            if *size_bytes > u64::MAX - sum {
                proof {
                    let k = i + 1;
                    assert(cumulated(events@, all.take(k))[model_key(events@[all[k - 1]])].1
                        > u64::MAX);
                }
                return None;
            }
            let now: u64 = sum + *size_bytes;
            let ghost was = sums@;
            sums.insert(key, (first, now));
            proof {
                let after = cumulated(events@, all.take(i + 1));
                assert(sums@.map_values(shape) =~= after);
                assert(after[model_key(events@[at as int])] == (first as int, now as nat));
            }
            let mut name = "model:".to_owned();
            if let Payload::ModelLoad { path: p, .. } = &events[first].payload {
                name.append(name_of(p).as_str());
            }
            let args = vec![arg("bytes", Arg::Number(now))];
            assert(arg_views(args@) =~= seq![("bytes"@, ArgView::Number(now))]);
            let e = counter_event(name.as_str(), *t_end_ns, args);
            proof {
                lemma_trace_push(out@, e);
            }
            out.push(e);
        }
        i = i + 1;
    }
    assert(all.take(all.len() as int) =~= all);
    Some(out)
}

/// The bytes of each model fit, after each of the loads `list`.
pub open spec fn sizes_fit(events: Seq<Event>, list: Seq<int>) -> bool {
    forall|k: int|
        0 < k <= list.len() ==> (#[trigger] cumulated(events, list.take(k)))[model_key(
            events[list[k - 1]],
        )].1 <= u64::MAX
}

/// What reading a stream has found so far.
struct Scan {
    out: Vec<TraceEvent>,
    modules: HashMap<u64, usize>,
    cbs: HashMap<u64, usize>,
    pending: HashMap<u64, Vec<usize>>,
    done: HashMap<u64, usize>,
    loads: Vec<usize>,
    unloads: Vec<usize>,
}

impl Scan {
    spec fn view_as(&self) -> TraceScan {
        TraceScan {
            out: trace_views(self.out@),
            modules: self.modules@.map_values(|k: usize| k as int),
            cbs: self.cbs@.map_values(|k: usize| k as int),
            pending: self.pending@.map_values(|v: Vec<usize>| ints(v@)),
            done: self.done@.map_values(|k: usize| k as int),
            loads: ints(self.loads@),
            unloads: ints(self.unloads@),
        }
    }

    /// Every place is one of an event of the right sort.
    spec fn wf(&self, events: Seq<Event>) -> bool {
        &&& forall|k: u64| #[trigger]
            self.modules@.contains_key(k) ==> self.modules@[k] < events.len()
                && events[self.modules@[k] as int].payload is ModuleEntered
        &&& forall|k: u64| #[trigger]
            self.cbs@.contains_key(k) ==> self.cbs@[k] < events.len()
                && events[self.cbs@[k] as int].payload is MetalCbCommitted
        &&& forall|k: u64| #[trigger]
            self.pending@.contains_key(k) ==> places_ok(self.pending@[k]@, events.len())
        &&& forall|k: u64| #[trigger]
            self.done@.contains_key(k) ==> self.done@[k] < events.len()
        &&& are_loads(events, ints(self.loads@))
        &&& are_unloads(events, ints(self.unloads@))
    }
}

/// All places are below `n`.
spec fn places_ok(v: Seq<usize>, n: nat) -> bool {
    forall|k: int| 0 <= k < v.len() ==> #[trigger] v[k] < n
}

/// Takes a module call that returned.
fn close_module(s: &mut Scan, events: &[Event], i: usize, id: u64)
    requires
        old(s).wf(events@),
        i < events@.len(),
        events@[i as int].payload == (Payload::ModuleReturned { module_call_id: id }),
    ensures
        final(s).wf(events@),
        final(s).view_as() == trace_step(old(s).view_as(), events@, i as int),
{
    let ghost was = s.view_as();
    if let Some(k) = s.modules.remove(&id) {
        if let Some(e) = module_event(&events[k], events[i].ts_mono_ns) {
            proof {
                lemma_trace_push(s.out@, e);
            }
            s.out.push(e);
        }
        assert(s.view_as().modules =~= was.modules.remove(id));
    } else {
        assert(s.view_as().modules =~= was.modules);
    }
}

/// Takes a command buffer that completed.
fn close_cb(s: &mut Scan, events: &[Event], i: usize, id: u64)
    requires
        old(s).wf(events@),
        i < events@.len(),
        events@[i as int].payload is MetalCbCompleted,
        events@[i as int].payload->MetalCbCompleted_cb_id == id,
    ensures
        final(s).wf(events@),
        final(s).view_as() == trace_step(old(s).view_as(), events@, i as int),
{
    let ghost was = s.view_as();
    if let Some(k) = s.cbs.remove(&id) {
        let ts: u64 = events[k].ts_mono_ns;
        assert(s.view_as().cbs =~= was.cbs.remove(id));
        s.done.insert(id, k);
        assert(s.view_as().done =~= was.done.insert(id, k as int));
        if let Some(e) = cb_event(&events[k], &events[i]) {
            proof {
                lemma_trace_push(s.out@, e);
            }
            s.out.push(e);
        }
        match s.pending.remove(&id) {
            Some(list) => {
                assert(was.pending[id] == ints(list@));
                push_ops(&mut s.out, events, &list, id, ts);
                assert(s.view_as().pending =~= was.pending.remove(id));
            },
            None => {
                assert(s.view_as().pending =~= was.pending.remove(id));
                assert(s.view_as().out =~= was.out.push(
                    cb_span(events@[k as int], events@[i as int]),
                ) + Seq::<TraceView>::empty());
            },
        }
    } else {
        assert(s.view_as().cbs =~= was.cbs);
    }
}

/// Takes the kernels of a command buffer.
fn take_ops(s: &mut Scan, events: &[Event], i: usize, id: u64)
    requires
        old(s).wf(events@),
        i < events@.len(),
        events@[i as int].payload is MetalCbOps,
        events@[i as int].payload->MetalCbOps_cb_id == id,
    ensures
        final(s).wf(events@),
        final(s).view_as() == trace_step(old(s).view_as(), events@, i as int),
{
    let ghost was = s.view_as();
    let at: Option<usize> = if s.cbs.contains_key(&id) {
        None
    } else {
        match s.done.get(&id) {
            Some(k) => Some(*k),
            None => None,
        }
    };
    match at {
        Some(k) => {
            assert(was.done[id] == k as int);
            let list: Vec<usize> = vec![i];
            assert(ints(list@) =~= seq![i as int]);
            push_ops(&mut s.out, events, &list, id, events[k].ts_mono_ns);
        },
        None => {
            assert(was.cbs.contains_key(id) || !was.done.contains_key(id));
            let mut list: Vec<usize> = match s.pending.remove(&id) {
                Some(list) => list,
                None => Vec::new(),
            };
            let ghost before = list@;
            proof {
                if was.pending.contains_key(id) {
                    assert(was.pending[id] == ints(before));
                } else {
                    assert(ints(before) =~= Seq::<int>::empty());
                }
            }
            list.push(i);
            proof {
                crate::select::lemma_ints_push(before, i);
            }
            s.pending.insert(id, list);
            assert(s.view_as().pending =~= trace_step(was, events@, i as int).pending);
        },
    }
}

/// Reads a stream.
fn scan(events: &[Event]) -> (s: Scan)
    ensures
        s.wf(events@),
        s.view_as() == trace_scan(events@, events@.len() as int),
{
    let mut s = Scan {
        out: vec![
            lane_event(1, "Python"),
            lane_event(2, "Metal CBs"),
            lane_event(3, "Kernels"),
            lane_event(4, "Model Loads"),
        ],
        modules: HashMap::new(),
        cbs: HashMap::new(),
        pending: HashMap::new(),
        done: HashMap::new(),
        loads: Vec::new(),
        unloads: Vec::new(),
    };
    proof {
        let z = trace_scan(events@, 0);
        assert(s.view_as().out =~= z.out);
        assert(s.view_as().modules =~= z.modules);
        assert(s.view_as().cbs =~= z.cbs);
        assert(s.view_as().pending =~= z.pending);
        assert(s.view_as().done =~= z.done);
        assert(s.view_as().loads =~= z.loads);
        assert(s.view_as().unloads =~= z.unloads);
    }
    let mut i: usize = 0;
    while i < events.len()
        invariant
            i <= events@.len(),
            s.wf(events@),
            s.view_as() == trace_scan(events@, i as int),
        decreases events@.len() - i,
    {
        let ghost was = s.view_as();
        let ghost next = trace_scan(events@, i + 1);
        assert(next == trace_step(was, events@, i as int));
        match &events[i].payload {
            Payload::ModuleEntered { module_call_id, .. } => {
                s.modules.insert(*module_call_id, i);
                assert(s.view_as().modules =~= next.modules);
            },
            Payload::ModuleReturned { module_call_id } => {
                close_module(&mut s, events, i, *module_call_id);
            },
            Payload::MetalCbCommitted { cb_id, .. } => {
                s.cbs.insert(*cb_id, i);
                assert(s.view_as().cbs =~= next.cbs);
            },
            Payload::MetalCbCompleted { cb_id, .. } => {
                close_cb(&mut s, events, i, *cb_id);
            },
            Payload::MetalCbOps { cb_id, .. } => {
                take_ops(&mut s, events, i, *cb_id);
            },
            Payload::ModelLoad { .. } => {
                let ghost before = s.loads@;
                s.loads.push(i);
                proof {
                    crate::select::lemma_ints_push(before, i);
                }
            },
            Payload::ModelUnload { .. } => {
                let ghost before = s.unloads@;
                s.unloads.push(i);
                proof {
                    crate::select::lemma_ints_push(before, i);
                }
            },
            _ => {
                push_shown(&mut s.out, &events[i]);
            },
        }
        i = i + 1;
    }
    s
}

/// No load ends before it starts.
spec fn forward(events: Seq<Event>, list: Seq<int>) -> bool {
    forall|k: int|
        0 <= k < list.len() ==> match (#[trigger] events[list[k]]).payload {
            Payload::ModelLoad { t_start_ns, t_end_ns, .. } => t_start_ns <= t_end_ns,
            _ => true,
        }
}

/// Does no load end before it starts?
fn is_forward(events: &[Event], list: &Vec<usize>) -> (b: bool)
    requires
        are_loads(events@, ints(list@)),
    ensures
        b == forward(events@, ints(list@)),
{
    let ghost all = ints(list@);
    let mut i: usize = 0;
    while i < list.len()
        invariant
            i <= list@.len(),
            all == ints(list@),
            are_loads(events@, all),
            forall|k: int|
                0 <= k < i ==> match (#[trigger] events@[all[k]]).payload {
                    Payload::ModelLoad { t_start_ns, t_end_ns, .. } => t_start_ns <= t_end_ns,
                    _ => true,
                },
        decreases list@.len() - i,
    {
        let k: usize = list[i];
        assert(all[i as int] == k);
        if let Payload::ModelLoad { t_start_ns, t_end_ns, .. } = &events[k].payload {
            if *t_start_ns > *t_end_ns {
                assert(!forward(events@, all)) by {
                    let e = events@[all[i as int]];
                    assert(e.payload->ModelLoad_t_start_ns > e.payload->ModelLoad_t_end_ns);
                }
                return false;
            }
        }
        i = i + 1;
    }
    true
}

/// Can [`to_chrome_trace`] be asked about a session?
pub fn can_trace(events: &[Event]) -> (b: bool)
    ensures
        b == loads_fit(events@),
{
    let s = scan(events);
    if !is_forward(events, &s.loads) {
        return false;
    }
    let list = sorted_loads(events, &s.loads);
    size_events(events, &list).is_some()
}

/// The events of the trace of a session.
fn trace_events(events: &[Event]) -> (r: Vec<TraceEvent>)
    requires
        loads_fit(events@),
    ensures
        trace_views(r@) == trace_of(events@),
{
    let s = scan(events);
    let ghost z = trace_scan(events@, events@.len() as int);
    let Scan { out, loads, unloads, .. } = s;
    let mut out: Vec<TraceEvent> = out;
    let ghost shown_all = z.unloads.map_values(|i: int| unload_instant(events@[i]));
    let mut i: usize = 0;
    assert(z.out + shown_all.take(0) =~= z.out);
    while i < unloads.len()
        invariant
            i <= unloads@.len(),
            z.unloads == ints(unloads@),
            are_unloads(events@, z.unloads),
            shown_all == z.unloads.map_values(|i: int| unload_instant(events@[i])),
            trace_views(out@) == z.out + shown_all.take(i as int),
        decreases unloads@.len() - i,
    {
        assert(z.unloads[i as int] == unloads@[i as int]);
        if let Some(e) = unload_event(&events[unloads[i]]) {
            proof {
                lemma_trace_push(out@, e);
                assert(shown_all[i as int] == e@);
                assert(z.out + shown_all.take(i + 1) =~= (z.out + shown_all.take(i as int)).push(
                    e@,
                ));
            }
            out.push(e);
        }
        i = i + 1;
    }
    let ghost base = z.out + shown_all;
    let ghost spans = z.loads.map_values(|i: int| load_span(events@[i]));
    let mut j: usize = 0;
    assert(shown_all.take(shown_all.len() as int) =~= shown_all);
    assert(base + spans.take(0) =~= base);
    while j < loads.len()
        invariant
            j <= loads@.len(),
            z.loads == ints(loads@),
            are_loads(events@, z.loads),
            forward(events@, z.loads),
            spans == z.loads.map_values(|i: int| load_span(events@[i])),
            trace_views(out@) == base + spans.take(j as int),
        decreases loads@.len() - j,
    {
        assert(z.loads[j as int] == loads@[j as int]);
        assert(events@[z.loads[j as int]] == events@[loads@[j as int] as int]);
        if let Some(e) = load_event(&events[loads[j]]) {
            proof {
                lemma_trace_push(out@, e);
                assert(spans[j as int] == e@);
                assert(base + spans.take(j + 1) =~= (base + spans.take(j as int)).push(e@));
            }
            out.push(e);
        }
        j = j + 1;
    }
    assert(spans.take(spans.len() as int) =~= spans);
    let list = sorted_loads(events, &loads);
    if let Some(mut more) = size_events(events, &list) {
        let ghost (was, added) = (out@, more@);
        out.append(&mut more);
        assert(trace_views(out@) =~= trace_views(was) + trace_views(added));
    }
    out
}

/// A session in the form that trace viewers read.
#[derive(Debug, PartialEq)]
pub struct ChromeTrace<'a> {
    pub trace_events: Vec<TraceEvent>,
    /// The unit in which a viewer shows times.
    pub display_time_unit: &'static str,
    pub metadata: &'a SessionMetadata,
}

/// The trace of a session.
///
/// Module calls and command buffers are shown where both their ends were
/// recorded, and kernels at the commit of their command buffer, whether they
/// were sampled before or after its completion. Kernels that arrive ahead of
/// every completion wait for the first one. Where none comes, they are not shown.
pub fn to_chrome_trace<'a>(events: &[Event], meta: &'a SessionMetadata) -> (r: ChromeTrace<'a>)
    requires
        loads_fit(events@),
    ensures
        trace_views(r.trace_events@) == trace_of(events@),
        r.display_time_unit@ == "ms"@,
        r.metadata == meta,
{
    ChromeTrace { trace_events: trace_events(events), display_time_unit: "ms", metadata: meta }
}

/// A session as it was recorded.
#[derive(Debug, PartialEq)]
pub struct RawSession<'a> {
    pub metadata: &'a SessionMetadata,
    pub events: &'a [Event],
}

/// A session as it was recorded.
pub fn to_json_raw<'a>(events: &'a [Event], meta: &'a SessionMetadata) -> (r: RawSession<'a>)
    ensures
        r.metadata == meta,
        r.events@ == events@,
{
    RawSession { metadata: meta, events }
}

/// A trace opens with the names of its lanes, whatever was recorded.
pub proof fn trace_opens_with_its_lanes(events: Seq<Event>)
    ensures
        trace_of(events).len() >= 4,
        trace_of(events).take(4) == lanes(),
{
    lemma_scan_opens(events, events.len() as int);
    let s = trace_scan(events, events.len() as int);
    assert(trace_of(events).take(4) =~= s.out.take(4));
}

proof fn lemma_scan_opens(events: Seq<Event>, n: int)
    ensures
        trace_scan(events, n).out.len() >= 4,
        trace_scan(events, n).out.take(4) == lanes(),
    decreases n,
{
    if n > 0 {
        lemma_scan_opens(events, n - 1);
        assert(trace_scan(events, n).out.take(4) =~= trace_scan(events, n - 1).out.take(4));
    } else {
        assert(lanes().take(4) =~= lanes());
    }
}

/// What was shown stays shown.
pub proof fn lemma_out_grows(events: Seq<Event>, m: int, n: int)
    requires
        0 <= m <= n,
    ensures
        trace_scan(events, m).out.len() <= trace_scan(events, n).out.len(),
        forall|k: int|
            0 <= k < trace_scan(events, m).out.len() ==> #[trigger] trace_scan(events, n).out[k]
                == trace_scan(events, m).out[k],
    decreases n - m,
{
    if m < n {
        lemma_out_grows(events, m, n - 1);
    }
}

/// The event is the commit or the completion of the command buffer `id`.
pub open spec fn bounds_cb(e: Event, id: u64) -> bool {
    commits_cb(e, id) || completes_cb(e, id)
}

/// A command buffer stays open until it completes, and done until it is committed
/// again.
proof fn lemma_lifetime(events: Seq<Event>, a: int, b: int, n: int, id: u64)
    requires
        0 <= a < b < events.len(),
        a < n <= events.len(),
        commits_cb(events[a], id),
        completes_cb(events[b], id),
        forall|j: int| a < j < n && j != b ==> !bounds_cb(#[trigger] events[j], id),
    ensures
        n <= b ==> trace_scan(events, n).cbs.contains_key(id) && trace_scan(events, n).cbs[id] == a,
        n > b ==> {
            &&& !trace_scan(events, n).cbs.contains_key(id)
            &&& trace_scan(events, n).done.contains_key(id)
            &&& trace_scan(events, n).done[id] == a
        },
    decreases n,
{
    if n > a + 1 {
        lemma_lifetime(events, a, b, n - 1, id);
        let e = events[n - 1];
        if n - 1 != b {
            assert(!bounds_cb(e, id));
        }
    }
}

/// The event samples kernels of the command buffer `id`.
pub open spec fn samples_cb(e: Event, id: u64) -> bool {
    e.payload is MetalCbOps && e.payload->MetalCbOps_cb_id == id
}

/// The event is a commit of the command buffer `id`.
pub open spec fn commits_cb(e: Event, id: u64) -> bool {
    e.payload is MetalCbCommitted && e.payload->MetalCbCommitted_cb_id == id
}

/// The event is a completion of the command buffer `id`.
pub open spec fn completes_cb(e: Event, id: u64) -> bool {
    e.payload is MetalCbCompleted && e.payload->MetalCbCompleted_cb_id == id
}

/// The kernels of a list show each kernel of each of its events.
proof fn lemma_op_spans_hold(
    events: Seq<Event>,
    list: Seq<int>,
    id: u64,
    ts: u64,
    c: int,
    k: int,
)
    requires
        list.contains(c),
        0 <= k < ops_in(events[c]).len(),
    ensures
        op_spans(events, list, id, ts).contains(op_span(ops_in(events[c])[k], id, ts)),
    decreases list.len(),
{
    let rest = op_spans(events, list.drop_last(), id, ts);
    let all = op_spans(events, list, id, ts);
    let want = op_span(ops_in(events[c])[k], id, ts);
    if list.last() == c {
        assert(all[rest.len() + k] == want);
    } else {
        let i = choose|i: int| 0 <= i < list.len() && list[i] == c;
        assert(list.drop_last()[i] == c);
        lemma_op_spans_hold(events, list.drop_last(), id, ts, c, k);
        let j = choose|j: int| 0 <= j < rest.len() && rest[j] == want;
        assert(all[j] == want);
    }
}

/// Kernels that are not shown at once wait until a completion.
proof fn lemma_waiting(events: Seq<Event>, c: int, n: int, id: u64)
    requires
        0 <= c < n <= events.len(),
        samples_cb(events[c], id),
        trace_scan(events, c).cbs.contains_key(id) || !trace_scan(events, c).done.contains_key(id),
        forall|j: int| c < j < n ==> !completes_cb(#[trigger] events[j], id),
    ensures
        trace_scan(events, n).pending.contains_key(id),
        trace_scan(events, n).pending[id].contains(c),
    decreases n,
{
    let s = trace_scan(events, n - 1);
    let t = trace_scan(events, n);
    if n == c + 1 {
        let list = t.pending[id];
        assert(list[list.len() - 1] == c);
    } else {
        lemma_waiting(events, c, n - 1, id);
        assert(!completes_cb(events[n - 1], id));
        let i = choose|i: int| 0 <= i < s.pending[id].len() && s.pending[id][i] == c;
        assert(t.pending[id][i] == c);
    }
}

/// Nothing is done before a completion.
proof fn lemma_not_done(events: Seq<Event>, n: int, id: u64)
    requires
        0 <= n <= events.len(),
        forall|j: int| 0 <= j < n ==> !completes_cb(#[trigger] events[j], id),
    ensures
        !trace_scan(events, n).done.contains_key(id),
    decreases n,
{
    if n > 0 {
        lemma_not_done(events, n - 1, id);
        assert(!completes_cb(events[n - 1], id));
    }
}

/// What waits for a completion is shown there.
proof fn lemma_shown_at_completion(events: Seq<Event>, a: int, b: int, c: int, id: u64, k: int)
    requires
        0 <= a < b < events.len(),
        0 <= c < b,
        completes_cb(events[b], id),
        samples_cb(events[c], id),
        trace_scan(events, b).cbs.contains_key(id),
        trace_scan(events, b).cbs[id] == a,
        trace_scan(events, b).pending.contains_key(id),
        trace_scan(events, b).pending[id].contains(c),
        0 <= k < ops_in(events[c]).len(),
    ensures
        trace_of(events).contains(op_span(ops_in(events[c])[k], id, events[a].ts_mono_ns)),
{
    let ts = events[a].ts_mono_ns;
    let want = op_span(ops_in(events[c])[k], id, ts);
    let (s, t) = (trace_scan(events, b), trace_scan(events, b + 1));
    let more = op_spans(events, s.pending[id], id, ts);
    lemma_op_spans_hold(events, s.pending[id], id, ts, c, k);
    let j = choose|j: int| 0 <= j < more.len() && more[j] == want;
    let at = s.out.len() + 1 + j;
    assert(t.out[at] == want);
    lemma_out_grows(events, b + 1, events.len() as int);
    assert(trace_of(events)[at] == want);
}

/// The kernels of a completed command buffer are shown at the commit of that
/// lifetime, on the thread of the command buffer, whether they were sampled
/// before its completion or follow it, as the hook writes them.
pub proof fn kernels_are_shown_at_their_commit(
    events: Seq<Event>,
    a: int,
    b: int,
    c: int,
    id: u64,
    k: int,
)
    requires
        0 <= a < b < events.len(),
        a < c < events.len(),
        commits_cb(events[a], id),
        completes_cb(events[b], id),
        samples_cb(events[c], id),
        forall|j: int| a < j < b || a < j < c ==> j == b || !bounds_cb(#[trigger] events[j], id),
        0 <= k < ops_in(events[c]).len(),
    ensures
        trace_of(events).contains(op_span(ops_in(events[c])[k], id, events[a].ts_mono_ns)),
{
    let n = events.len() as int;
    let ts = events[a].ts_mono_ns;
    let want = op_span(ops_in(events[c])[k], id, ts);
    lemma_lifetime(events, a, b, c, id);
    if c < b {
        lemma_lifetime(events, a, b, b, id);
        assert forall|j: int| c < j < b implies !completes_cb(#[trigger] events[j], id) by {
            assert(!bounds_cb(events[j], id));
        }
        lemma_waiting(events, c, b, id);
        lemma_shown_at_completion(events, a, b, c, id, k);
    } else {
        let before = trace_scan(events, c);
        let now = trace_scan(events, c + 1);
        let list = seq![c];
        assert(list[0] == c);
        lemma_op_spans_hold(events, list, id, ts, c, k);
        let more = op_spans(events, list, id, ts);
        let j = choose|j: int| 0 <= j < more.len() && more[j] == want;
        let at = before.out.len() + j;
        assert(now.out[at] == want);
        lemma_out_grows(events, c + 1, n);
        assert(trace_of(events)[at] == want);
    }
}

/// Kernels that arrive ahead of every completion of their command buffer, be it
/// before its commit or before it was committed again, are shown once it
/// completes, at its latest commit.
pub proof fn early_kernels_are_shown_at_the_first_completion(
    events: Seq<Event>,
    a: int,
    b: int,
    c: int,
    id: u64,
    k: int,
)
    requires
        0 <= a < b < events.len(),
        0 <= c < b,
        commits_cb(events[a], id),
        completes_cb(events[b], id),
        samples_cb(events[c], id),
        forall|j: int| 0 <= j < b ==> !completes_cb(#[trigger] events[j], id),
        forall|j: int| a < j < b ==> !commits_cb(#[trigger] events[j], id),
        0 <= k < ops_in(events[c]).len(),
    ensures
        trace_of(events).contains(op_span(ops_in(events[c])[k], id, events[a].ts_mono_ns)),
{
    assert forall|j: int| a < j < b && j != b implies !bounds_cb(#[trigger] events[j], id) by {
        assert(!completes_cb(events[j], id) && !commits_cb(events[j], id));
    }
    lemma_lifetime(events, a, b, b, id);
    lemma_not_done(events, c, id);
    lemma_waiting(events, c, b, id);
    lemma_shown_at_completion(events, a, b, c, id, k);
}

/// `t` is kernel `k` of the event `c`, shown at the commit `a` of its command
/// buffer, which completed at `b`.
pub open spec fn shows_kernel(
    events: Seq<Event>,
    t: TraceView,
    a: int,
    b: int,
    c: int,
    id: u64,
    k: int,
) -> bool {
    &&& 0 <= a < b < events.len()
    &&& 0 <= c < events.len()
    &&& commits_cb(events[a], id)
    &&& completes_cb(events[b], id)
    &&& samples_cb(events[c], id)
    &&& 0 <= k < ops_in(events[c]).len()
    &&& t == op_span(ops_in(events[c])[k], id, events[a].ts_mono_ns)
}

/// `t` is a kernel of a command buffer that was committed and completed.
pub open spec fn is_sampled(events: Seq<Event>, t: TraceView) -> bool {
    exists|a: int, b: int, c: int, id: u64, k: int|
        shows_kernel(events, t, a, b, c, id, k)
}

/// The spans of the lane of kernels.
pub open spec fn in_kernel_lane(t: TraceView) -> bool {
    t.pid == 3 && t.phase == Phase::Complete
}

/// What is open was entered or committed, what is done was completed as well, and
/// what waits was sampled.
proof fn lemma_scan_is_sound(events: Seq<Event>, n: int)
    requires
        0 <= n <= events.len(),
    ensures
        forall|id: u64| #[trigger]
            trace_scan(events, n).modules.contains_key(id) ==> events[trace_scan(
                events,
                n,
            ).modules[id]].payload is ModuleEntered,
        forall|id: u64| #[trigger]
            trace_scan(events, n).cbs.contains_key(id) ==> {
                let a = trace_scan(events, n).cbs[id];
                0 <= a < n && commits_cb(events[a], id)
            },
        forall|id: u64| #[trigger]
            trace_scan(events, n).done.contains_key(id) ==> {
                let a = trace_scan(events, n).done[id];
                &&& 0 <= a < n && commits_cb(events[a], id)
                &&& exists|b: int| a < b < n && completes_cb(#[trigger] events[b], id)
            },
        forall|id: u64, i: int|
            trace_scan(events, n).pending.contains_key(id) && 0 <= i < trace_scan(
                events,
                n,
            ).pending[id].len() ==> {
                let c = #[trigger] trace_scan(events, n).pending[id][i];
                0 <= c < n && samples_cb(events[c], id)
            },
    decreases n,
{
    if n > 0 {
        lemma_scan_is_sound(events, n - 1);
        let (s, t) = (trace_scan(events, n - 1), trace_scan(events, n));
        let e = events[n - 1];
        assert forall|id: u64| #[trigger] t.done.contains_key(id) implies {
            let a = t.done[id];
            &&& 0 <= a < n && commits_cb(events[a], id)
            &&& exists|b: int| a < b < n && completes_cb(#[trigger] events[b], id)
        } by {
            let a = t.done[id];
            if completes_cb(e, id) && s.cbs.contains_key(id) {
                assert(a < n - 1 < n && completes_cb(events[n - 1], id));
            } else {
                assert(s.done.contains_key(id) && s.done[id] == a);
                let b = choose|b: int| a < b < n - 1 && completes_cb(#[trigger] events[b], id);
                assert(a < b < n);
            }
        }
        assert forall|id: u64, i: int|
            t.pending.contains_key(id) && 0 <= i < t.pending[id].len() implies {
            let c = #[trigger] t.pending[id][i];
            0 <= c < n && samples_cb(events[c], id)
        } by {
            let c = t.pending[id][i];
            if s.pending.contains_key(id) && i < s.pending[id].len() {
                assert(s.pending[id][i] == c);
            }
        }
    }
}

/// What a list of samples shows are kernels of its events.
proof fn lemma_op_spans_are_sampled(
    events: Seq<Event>,
    list: Seq<int>,
    id: u64,
    a: int,
    b: int,
    j: int,
)
    requires
        0 <= a < b < events.len(),
        commits_cb(events[a], id),
        completes_cb(events[b], id),
        forall|i: int|
            0 <= i < list.len() ==> 0 <= #[trigger] list[i] < events.len() && samples_cb(
                events[list[i]],
                id,
            ),
        0 <= j < op_spans(events, list, id, events[a].ts_mono_ns).len(),
    ensures
        is_sampled(events, op_spans(events, list, id, events[a].ts_mono_ns)[j]),
    decreases list.len(),
{
    let ts = events[a].ts_mono_ns;
    let rest = op_spans(events, list.drop_last(), id, ts);
    let t = op_spans(events, list, id, ts)[j];
    if j < rest.len() {
        assert forall|i: int| 0 <= i < list.drop_last().len() implies 0
            <= #[trigger] list.drop_last()[i] < events.len() && samples_cb(
            events[list.drop_last()[i]],
            id,
        ) by {
            assert(list.drop_last()[i] == list[i]);
        }
        lemma_op_spans_are_sampled(events, list.drop_last(), id, a, b, j);
    } else {
        let c = list[list.len() - 1];
        assert(shows_kernel(events, t, a, b, c, id, j - rest.len()));
    }
}

proof fn lemma_kernels_are_sampled(events: Seq<Event>, n: int, j: int)
    requires
        0 <= n <= events.len(),
        0 <= j < trace_scan(events, n).out.len(),
        in_kernel_lane(trace_scan(events, n).out[j]),
    ensures
        is_sampled(events, trace_scan(events, n).out[j]),
    decreases n,
{
    if n > 0 {
        let (s, t) = (trace_scan(events, n - 1), trace_scan(events, n));
        let m = s.out.len();
        lemma_scan_is_sound(events, n - 1);
        if j < m {
            lemma_out_grows(events, n - 1, n);
            lemma_kernels_are_sampled(events, n - 1, j);
        } else {
            match events[n - 1].payload {
                Payload::MetalCbCompleted { cb_id, .. } => {
                    let a = s.cbs[cb_id];
                    assert(s.cbs.contains_key(cb_id));
                    assert(commits_cb(events[a], cb_id));
                    assert(j > m && s.pending.contains_key(cb_id));
                    let list = s.pending[cb_id];
                    assert forall|i: int| 0 <= i < list.len() implies 0 <= #[trigger] list[i]
                        < events.len() && samples_cb(events[list[i]], cb_id) by {
                        assert(s.pending[cb_id][i] == list[i]);
                    }
                    lemma_op_spans_are_sampled(events, list, cb_id, a, n - 1, j - m - 1);
                },
                Payload::MetalCbOps { cb_id, .. } => {
                    let a = s.done[cb_id];
                    assert(s.done.contains_key(cb_id));
                    let b = choose|b: int|
                        a < b < n - 1 && completes_cb(#[trigger] events[b], cb_id);
                    lemma_op_spans_are_sampled(events, seq![n - 1], cb_id, a, b, j - m);
                },
                Payload::ModuleReturned { module_call_id } => {
                    assert(s.modules.contains_key(module_call_id));
                },
                _ => {
                    assert(t.out[j] == shown(events[n - 1])[j - m]);
                },
            }
        }
    }
}

proof fn lemma_counters_only(events: Seq<Event>, list: Seq<int>)
    ensures
        forall|j: int|
            0 <= j < size_counters(events, list).len() ==> !in_kernel_lane(
                #[trigger] size_counters(events, list)[j],
            ),
    decreases list.len(),
{
    if list.len() > 0 {
        let rest = size_counters(events, list.drop_last());
        lemma_counters_only(events, list.drop_last());
        assert forall|j: int| 0 <= j < size_counters(events, list).len() implies !in_kernel_lane(
            #[trigger] size_counters(events, list)[j],
        ) by {
            if j < rest.len() {
                assert(size_counters(events, list)[j] == rest[j]);
            }
        }
    }
}

/// Every kernel shown was sampled for a command buffer that was committed and
/// completed, and stands at such a commit: what never completes is not shown.
pub proof fn shown_kernels_belong_to_a_completed_buffer(events: Seq<Event>, j: int)
    requires
        0 <= j < trace_of(events).len(),
        in_kernel_lane(trace_of(events)[j]),
    ensures
        is_sampled(events, trace_of(events)[j]),
{
    let n = events.len() as int;
    let s = trace_scan(events, n);
    lemma_scan_models(events, n);
    let unloads = s.unloads.map_values(|i: int| unload_instant(events[i]));
    let loads = s.loads.map_values(|i: int| load_span(events[i]));
    let list = ordered(s.loads, by_end(events));
    lemma_counters_only(events, list);
    let m = s.out.len() as int;
    let t = trace_of(events)[j];
    if j < m {
        lemma_kernels_are_sampled(events, n, j);
    } else if j < m + unloads.len() {
        assert(t == unload_instant(events[s.unloads[j - m]]));
    } else if j < m + unloads.len() + loads.len() {
        assert(t == load_span(events[s.loads[j - m - unloads.len()]]));
    } else {
        assert(t == size_counters(events, list)[j - m - unloads.len() - loads.len()]);
    }
}

/// What is gathered of models are their loads and unloads.
proof fn lemma_scan_models(events: Seq<Event>, n: int)
    requires
        0 <= n <= events.len(),
    ensures
        forall|i: int|
            0 <= i < trace_scan(events, n).loads.len() ==> (#[trigger] events[trace_scan(
                events,
                n,
            ).loads[i]]).payload is ModelLoad,
        forall|i: int|
            0 <= i < trace_scan(events, n).unloads.len() ==> (#[trigger] events[trace_scan(
                events,
                n,
            ).unloads[i]]).payload is ModelUnload,
    decreases n,
{
    if n > 0 {
        lemma_scan_models(events, n - 1);
        let (s, t) = (trace_scan(events, n - 1), trace_scan(events, n));
        assert forall|i: int| 0 <= i < t.loads.len() implies (
        #[trigger] events[t.loads[i]]).payload is ModelLoad by {
            if i < s.loads.len() {
                assert(t.loads[i] == s.loads[i]);
            }
        }
        assert forall|i: int| 0 <= i < t.unloads.len() implies (
        #[trigger] events[t.unloads[i]]).payload is ModelUnload by {
            if i < s.unloads.len() {
                assert(t.unloads[i] == s.unloads[i]);
            }
        }
    }
}

} // verus!
