//! What a recorded session consists of: a stream of events and its metadata.
//!
//! Floating-point samples are held by their bit patterns.

use vstd::prelude::*;

verus! {

/// A 128-bit identifier.
#[derive(Clone, Copy, Debug, PartialEq, Eq, Hash, Structural)]
pub struct Uuid(pub u128);

impl Uuid {
    /// The identifier of all zeros.
    pub fn nil() -> (id: Uuid)
        ensures
            id.0 == 0,
    {
        Uuid(0)
    }

    /// The identifier with the value `v`.
    pub fn from_u128(v: u128) -> (id: Uuid)
        ensures
            id.0 == v,
    {
        Uuid(v)
    }
}

/// Where an event came from.
#[derive(Clone, Copy, Debug, PartialEq, Eq, Structural)]
pub enum Source {
    System,
    Mark,
    PythonSidecar,
    MetalHook,
    Vm,
    Proc,
    Thermal,
    IoReport,
    OsLog,
    CrashReport,
    MachException,
}

/// A value that a user attached to a scope or a mark.
#[derive(Clone, Debug, PartialEq)]
pub enum FieldValue {
    Bool(bool),
    Int(i64),
    /// The bits of a double.
    Float(u64),
    String(String),
}

/// One kernel of a command buffer.
#[derive(Clone, Debug, PartialEq)]
pub struct OpSample {
    pub name: String,
    pub symbol: Option<String>,
    pub gpu_ns: u64,
    pub count: u32,
}

/// One Python frame.
#[derive(Clone, Debug, PartialEq)]
pub struct StackFrame {
    pub filename: String,
    pub lineno: u32,
    pub funcname: String,
}

/// One process of a process listing.
#[derive(Clone, Debug, PartialEq)]
pub struct ProcEntry {
    pub pid: u32,
    pub name: String,
    /// The bits of a single-precision number.
    pub cpu_pct: u32,
}

/// What an event says.
#[derive(Clone, Debug, PartialEq)]
pub enum Payload {
    SessionStarted { wall_unix_ns: u64 },
    SessionEnded { wall_unix_ns: u64, reason: String },
    Mark { label: String, fields: Vec<(String, FieldValue)> },
    PythonSidecarHello { python_version: String, mlx_version: Option<String>, argv: Vec<String> },
    ModuleEntered {
        module_call_id: u64,
        module_def_id: u64,
        qualname: String,
        class_name: String,
        parent_call_id: Option<u64>,
        depth: u16,
        fields: Vec<(String, FieldValue)>,
    },
    ModuleReturned { module_call_id: u64 },
    MlxEvalEntered {
        call_id: u64,
        array_count: u32,
        stream: String,
        module_stack: Vec<u64>,
        stack_frames: Vec<StackFrame>,
    },
    MlxEvalReturned { call_id: u64, duration_ns: u64, was_async: bool },
    MlxMemoryPoll { active_bytes: u64, peak_bytes: u64, cache_bytes: u64 },
    MlxArrayAlive {
        array_id: u64,
        size_bytes: u64,
        dtype: String,
        shape: Vec<u64>,
        stream: String,
    },
    MlxArrayFreed { array_id: u64 },
    MlxSnapshot {
        live_arrays: u64,
        total_array_bytes: u64,
        streams: Vec<String>,
        mlx_version: Option<String>,
    },
    MlxPanicTriggered { condition: String },
    ModelLoad {
        path: String,
        size_bytes: u64,
        t_start_ns: u64,
        t_end_ns: u64,
        sha8: Option<String>,
        framework: Option<String>,
    },
    ModelUnload { path: String, t_ns: u64, sha8: Option<String> },
    MetalCbCommitted { cb_id: u64, queue_id: u64, queue_depth: u32, label: Option<String> },
    MetalCbScheduled { cb_id: u64, queue_id: u64 },
    MetalCbCompleted {
        cb_id: u64,
        queue_id: u64,
        status: u32,
        error_code: Option<i64>,
        error_domain: Option<String>,
        in_flight_ns: u64,
    },
    MetalCbWarning { cb_id: u64, queue_id: u64, elapsed_ns: u64 },
    MetalCbOps { cb_id: u64, ops: Vec<OpSample> },
    MetalDeviceMemSample { allocated_bytes: u64, recommended_max_bytes: u64, at_event: String },
    MetalResidencySample {
        resident_bytes: u64,
        recommended_max_bytes: u64,
        set_count: u32,
        at_event: String,
    },
    MetalHeapAlloc { heap_id: u64, size_bytes: u64, label: Option<String> },
    MetalHeapFree { heap_id: u64 },
    MetalBufferAlloc { buffer_id: u64, heap_id: Option<u64>, size_bytes: u64, label: Option<String> },
    MetalBufferFree { buffer_id: u64 },
    MetalTextureAlloc {
        texture_id: u64,
        heap_id: Option<u64>,
        size_bytes: u64,
        label: Option<String>,
    },
    MetalTextureFree { texture_id: u64 },
    MetalHookSkipped { reason: String },
    MetalHookDropped { count: u64 },
    ProcFootprint {
        pid: u32,
        name: String,
        phys_footprint_bytes: u64,
        lifetime_max_phys_footprint_bytes: u64,
        is_traced_root: bool,
    },
    ProcTop { top: Vec<ProcEntry>, flagged: Vec<String> },
    VmSample {
        wired_bytes: u64,
        active_bytes: u64,
        compressed_bytes: u64,
        swap_used_bytes: u64,
        /// The bits of a single-precision number.
        page_outs_per_sec: u32,
    },
    ThermalState { level: u32 },
    IoReportSample {
        /// The bits of a single-precision number, as are the next two.
        gpu_residency_pct: Option<u32>,
        ane_residency_pct: Option<u32>,
        cpu_residency_pct: Option<u32>,
        gpu_power_mw: Option<u32>,
        gpu_freq_mhz: Option<u32>,
    },
    CrashReportEmitted {
        path: String,
        crashed_pid: Option<u32>,
        signal: Option<String>,
        exception_codes: Vec<String>,
        summary: String,
    },
    JetsamKill {
        path: String,
        killed_pid: Option<u32>,
        killed_name: String,
        footprint_bytes: u64,
        lifetime_max_bytes: u64,
        page_size: u64,
        reason: Option<String>,
    },
    PostMortemFlushed { reason: String, source_session: String, event_count: u64 },
}

/// One entry of the event stream.
#[derive(Clone, Debug, PartialEq)]
pub struct Event {
    pub ts_mono_ns: u64,
    pub ts_wall_ns: u64,
    pub session_id: Uuid,
    pub source: Source,
    pub pid: Option<u32>,
    pub seq: u64,
    pub payload: Payload,
}

/// What a session was recorded for.
#[derive(Clone, Debug, PartialEq)]
pub enum SessionKind {
    /// The daemon's own session, open for its whole life.
    Ambient,
    /// One recorded command.
    Scoped { pid: u32, argv: Vec<String> },
}

/// What is known of a session besides its events.
#[derive(Clone, Debug, PartialEq)]
pub struct SessionMetadata {
    pub session_id: Uuid,
    pub kind: SessionKind,
    pub name: Option<String>,
    pub host: String,
    pub started_rfc3339: String,
    pub ended_rfc3339: Option<String>,
    pub exit_code: Option<i32>,
    pub term_signal: Option<i32>,
    /// The token that leads markers to it, while it is recorded.
    pub scope_token: Option<String>,
}

/// The view of one kernel sample.
pub ghost struct OpView {
    pub name: Seq<char>,
    pub symbol: Option<Seq<char>>,
    pub gpu_ns: nat,
    pub count: nat,
}

impl View for OpSample {
    type V = OpView;

    open spec fn view(&self) -> OpView {
        OpView {
            name: self.name@,
            symbol: crate::text::opt_view(self.symbol),
            gpu_ns: self.gpu_ns as nat,
            count: self.count as nat,
        }
    }
}

/// The views of a list of kernel samples.
pub open spec fn op_views(ops: Seq<OpSample>) -> Seq<OpView> {
    ops.map_values(|o: OpSample| o@)
}

/// The GPU time of a list of kernels.
pub open spec fn ops_ns(ops: Seq<OpView>) -> nat
    decreases ops.len(),
{
    if ops.len() == 0 {
        0
    } else {
        ops_ns(ops.drop_last()) + ops.last().gpu_ns
    }
}

/// The next event of a stream, split off its prefix.
pub proof fn lemma_prefix_step(events: Seq<Event>, i: int)
    requires
        0 <= i < events.len(),
    ensures
        events.take(i + 1).drop_last() == events.take(i),
        events.take(i + 1).last() == events[i],
        events.take(i + 1).len() > 0,
{
    assert(events.take(i + 1).drop_last() =~= events.take(i));
}

/// A shorter prefix of kernels takes no more time.
pub proof fn lemma_ops_prefix(ops: Seq<OpView>, i: int)
    requires
        0 <= i <= ops.len(),
    ensures
        ops_ns(ops.take(i)) <= ops_ns(ops),
    decreases ops.len() - i,
{
    if i == ops.len() {
        assert(ops.take(i) =~= ops);
    } else {
        lemma_ops_prefix(ops, i + 1);
        assert(ops.take(i + 1).drop_last() =~= ops.take(i));
    }
}

} // verus!
