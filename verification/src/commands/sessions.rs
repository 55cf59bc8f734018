//! Listing and showing sessions.

use crate::columns::{binary_size, human_bytes, push_lines, stacked};
use crate::event::{Event, Payload, SessionKind, SessionMetadata, Source, Uuid};
use crate::ids::{hyphenated, hyphenated_text};
use crate::quoted::{bracket, bracketed, quoted_list, quoted_texts};
use crate::session_resolver::SessionEntry;
use crate::text::{
    dec, dec_text, ends_with, finishes, hex, join, joined, push_dec, push_dec_right, push_hex,
    push_signed, right_aligned, views,
};
use vstd::prelude::*;

verus! {

broadcast use vstd::string::group_string_axioms;

/// `o`, or `none` where there is nothing.
pub open spec fn or_else(o: Option<String>, none: Seq<char>) -> Seq<char> {
    match o {
        Some(s) => s@,
        None => none,
    }
}

/// An error code, where there is one.
pub open spec fn code_text(o: Option<i64>) -> Seq<char> {
    match o {
        Some(c) => dec(c as int),
        None => "-"@,
    }
}

/// The heap of a resource, where it has one.
pub open spec fn heap_text(o: Option<u64>) -> Seq<char> {
    match o {
        Some(h) => "0x"@ + hex(h as nat),
        None => "-"@,
    }
}

/// A truth value in a word.
pub open spec fn bool_text(b: bool) -> Seq<char> {
    if b {
        "true"@
    } else {
        "false"@
    }
}

/// Numbers in brackets.
pub open spec fn numbers_text(s: Seq<u64>) -> Seq<char> {
    bracketed(s.map_values(|n: u64| dec(n as int)))
}

/// What an event says, in a line. `quoted` is the list of texts that it holds,
/// where it holds one, and `other` what is said of events without words of
/// their own.
pub open spec fn kind_text(p: Payload, quoted: Seq<char>, other: Seq<char>) -> Seq<char> {
    match p {
        Payload::SessionStarted { .. } => "session-started"@,
        Payload::Mark { label, .. } => "mark    "@ + label@,
        Payload::SessionEnded { reason, .. } => "session-ended ("@ + reason@ + ")"@,
        Payload::PythonSidecarHello { python_version, mlx_version, .. } => {
            "PythonSidecarHello python="@ + python_version@ + " mlx="@
                + or_else(mlx_version, "none"@) + " argv="@ + quoted
        },
        Payload::MetalCbCommitted { cb_id, queue_id, queue_depth, label, .. } => {
            "MetalCbCommitted cb_id=0x"@ + hex(cb_id as nat) + " queue_id="@
                + dec(queue_id as int) + " queue_depth="@ + dec(queue_depth as int) + " label="@
                + or_else(label, "-"@)
        },
        Payload::MetalCbScheduled { cb_id, queue_id, .. } => "MetalCbScheduled cb_id=0x"@
            + hex(cb_id as nat) + " queue_id="@ + dec(queue_id as int),
        Payload::MetalCbCompleted {
            cb_id,
            queue_id,
            status,
            error_code,
            error_domain,
            in_flight_ns,
            ..
        } => "MetalCbCompleted cb_id=0x"@ + hex(cb_id as nat) + " queue_id="@
            + dec(queue_id as int) + " status="@ + dec(status as int) + " error_code="@
            + code_text(error_code) + " domain="@ + or_else(error_domain, "-"@) + " in_flight="@
            + dec(in_flight_ns as int / 1_000_000) + "ms"@,
        Payload::MetalCbWarning { cb_id, queue_id, elapsed_ns, .. } => "MetalCbWarning cb_id=0x"@
            + hex(cb_id as nat) + " queue_id="@ + dec(queue_id as int) + " elapsed="@
            + dec(elapsed_ns as int / 1_000_000) + "ms"@,
        Payload::MetalHeapAlloc { heap_id, size_bytes, label, .. } => "MetalHeapAlloc heap_id=0x"@
            + hex(heap_id as nat) + " size="@ + binary_size(size_bytes) + " label="@
            + or_else(label, "-"@),
        Payload::MetalHeapFree { heap_id, .. } => "MetalHeapFree heap_id=0x"@ + hex(heap_id as nat),
        Payload::MetalBufferAlloc { buffer_id, heap_id, size_bytes, label, .. } => {
            "MetalBufferAlloc buf=0x"@ + hex(buffer_id as nat) + " heap="@ + heap_text(heap_id)
                + " size="@ + binary_size(size_bytes) + " label="@ + or_else(label, "-"@)
        },
        Payload::MetalBufferFree { buffer_id, .. } => "MetalBufferFree buf=0x"@
            + hex(buffer_id as nat),
        Payload::MetalTextureAlloc { texture_id, heap_id, size_bytes, label, .. } => {
            "MetalTextureAlloc tex=0x"@ + hex(texture_id as nat) + " heap="@ + heap_text(heap_id)
                + " size="@ + binary_size(size_bytes) + " label="@ + or_else(label, "-"@)
        },
        Payload::MetalTextureFree { texture_id, .. } => "MetalTextureFree tex=0x"@
            + hex(texture_id as nat),
        Payload::MetalHookDropped { count, .. } => "MetalHookDropped count="@ + dec(count as int),
        Payload::MetalHookSkipped { reason, .. } => "MetalHookSkipped reason="@ + reason@,
        Payload::MlxEvalEntered { call_id, array_count, stream, .. } => "MlxEvalEntered call_id="@
            + dec(call_id as int) + " arrays="@ + dec(array_count as int) + " stream="@ + stream@,
        Payload::MlxEvalReturned { call_id, duration_ns, was_async, .. } => {
            "MlxEvalReturned call_id="@ + dec(call_id as int) + " duration="@
                + dec(duration_ns as int / 1_000_000) + "ms async="@ + bool_text(was_async)
        },
        Payload::MlxMemoryPoll { active_bytes, peak_bytes, cache_bytes, .. } => {
            "MlxMemoryPoll active="@ + binary_size(active_bytes) + " peak="@
                + binary_size(peak_bytes) + " cache="@ + binary_size(cache_bytes)
        },
        Payload::MlxArrayAlive { array_id, size_bytes, dtype, shape, stream, .. } => {
            "MlxArrayAlive id=0x"@ + hex(array_id as nat) + " size="@ + binary_size(size_bytes)
                + " dtype="@ + dtype@ + " shape="@ + numbers_text(shape@) + " stream="@ + stream@
        },
        Payload::MlxArrayFreed { array_id, .. } => "MlxArrayFreed id=0x"@ + hex(array_id as nat),
        Payload::MlxSnapshot { live_arrays, total_array_bytes, mlx_version, .. } => {
            "MlxSnapshot arrays="@ + dec(live_arrays as int) + " total="@
                + binary_size(total_array_bytes) + " streams="@ + quoted + " mlx="@
                + or_else(mlx_version, "none"@)
        },
        Payload::MlxPanicTriggered { condition, .. } => "MlxPanicTriggered condition="@
            + condition@,
        Payload::PostMortemFlushed { reason, source_session, event_count, .. } => {
            "PostMortemFlushed reason="@ + reason@ + " src="@ + source_session@ + " events="@
                + dec(event_count as int)
        },
        _ => other,
    }
}

/// The list of texts that an event holds.
pub open spec fn texts_in(p: Payload) -> Seq<Seq<char>> {
    match p {
        Payload::PythonSidecarHello { argv, .. } => views(argv@),
        Payload::MlxSnapshot { streams, .. } => views(streams@),
        _ => seq![],
    }
}

fn text_or(o: &Option<String>, none: &str) -> (s: String)
    ensures
        s@ == or_else(*o, none@),
{
    match o {
        Some(s) => s.clone(),
        None => none.to_owned(),
    }
}

fn code_of(o: &Option<i64>) -> (s: String)
    ensures
        s@ == code_text(*o),
{
    match o {
        Some(c) => {
            let mut s = String::new();
            push_signed(&mut s, *c);
            assert(s@ =~= dec(*c as int));
            s
        },
        None => "-".to_owned(),
    }
}

fn heap_of(o: &Option<u64>) -> (s: String)
    ensures
        s@ == heap_text(*o),
{
    match o {
        Some(h) => {
            let mut s = "0x".to_owned();
            push_hex(&mut s, *h);
            s
        },
        None => "-".to_owned(),
    }
}

fn word_of(b: bool) -> (s: &'static str)
    ensures
        s@ == bool_text(b),
{
    if b {
        "true"
    } else {
        "false"
    }
}

fn numbers_of(v: &Vec<u64>) -> (s: String)
    ensures
        s@ == numbers_text(v@),
{
    let mut list: Vec<String> = Vec::new();
    let mut i: usize = 0;
    while i < v.len()
        invariant
            i <= v@.len(),
            list@.len() == i,
            forall|k: int| 0 <= k < i ==> (#[trigger] list@[k])@ == dec(v@[k] as int),
        decreases v@.len() - i,
    {
        list.push(dec_text(v[i]));
        i = i + 1;
    }
    assert(views(list@) =~= v@.map_values(|n: u64| dec(n as int)));
    bracket(&list)
}

/// What an event says, in a line, given the list of texts that it holds in
/// quotation marks.
pub fn kind_with(payload: &Payload, quoted: &str, other: &str) -> (s: String)
    ensures
        s@ == kind_text(*payload, quoted@, other@),
{
    match payload {
        Payload::SessionStarted { .. } => "session-started".to_owned(),
        Payload::Mark { label, .. } => {
            let mut s = "mark    ".to_owned();
            s.append(label.as_str());
            s
        },
        Payload::SessionEnded { reason, .. } => {
            let mut s = "session-ended (".to_owned();
            s.append(reason.as_str());
            s.append(")");
            s
        },
        Payload::PythonSidecarHello { python_version, mlx_version, .. } => {
            let mut s = "PythonSidecarHello python=".to_owned();
            s.append(python_version.as_str());
            s.append(" mlx=");
            s.append(text_or(mlx_version, "none").as_str());
            s.append(" argv=");
            s.append(quoted);
            s
        },
        Payload::MetalCbCommitted { cb_id, queue_id, queue_depth, label, .. } => {
            let mut s = "MetalCbCommitted cb_id=0x".to_owned();
            push_hex(&mut s, *cb_id);
            s.append(" queue_id=");
            push_dec(&mut s, *queue_id);
            s.append(" queue_depth=");
            push_dec(&mut s, *queue_depth as u64);
            s.append(" label=");
            s.append(text_or(label, "-").as_str());
            s
        },
        Payload::MetalCbScheduled { cb_id, queue_id, .. } => {
            let mut s = "MetalCbScheduled cb_id=0x".to_owned();
            push_hex(&mut s, *cb_id);
            s.append(" queue_id=");
            push_dec(&mut s, *queue_id);
            s
        },
        Payload::MetalCbCompleted {
            cb_id,
            queue_id,
            status,
            error_code,
            error_domain,
            in_flight_ns,
            ..
        } => {
            let mut s = "MetalCbCompleted cb_id=0x".to_owned();
            push_hex(&mut s, *cb_id);
            s.append(" queue_id=");
            push_dec(&mut s, *queue_id);
            s.append(" status=");
            push_dec(&mut s, *status as u64);
            s.append(" error_code=");
            s.append(code_of(error_code).as_str());
            s.append(" domain=");
            s.append(text_or(error_domain, "-").as_str());
            s.append(" in_flight=");
            push_dec(&mut s, *in_flight_ns / 1_000_000);
            s.append("ms");
            s
        },
        Payload::MetalCbWarning { cb_id, queue_id, elapsed_ns, .. } => {
            let mut s = "MetalCbWarning cb_id=0x".to_owned();
            push_hex(&mut s, *cb_id);
            s.append(" queue_id=");
            push_dec(&mut s, *queue_id);
            s.append(" elapsed=");
            push_dec(&mut s, *elapsed_ns / 1_000_000);
            s.append("ms");
            s
        },
        Payload::MetalHeapAlloc { heap_id, size_bytes, label, .. } => {
            let mut s = "MetalHeapAlloc heap_id=0x".to_owned();
            push_hex(&mut s, *heap_id);
            s.append(" size=");
            s.append(human_bytes(*size_bytes).as_str());
            s.append(" label=");
            s.append(text_or(label, "-").as_str());
            s
        },
        Payload::MetalHeapFree { heap_id, .. } => {
            let mut s = "MetalHeapFree heap_id=0x".to_owned();
            push_hex(&mut s, *heap_id);
            s
        },
        Payload::MetalBufferAlloc { buffer_id, heap_id, size_bytes, label, .. } => {
            let mut s = "MetalBufferAlloc buf=0x".to_owned();
            push_hex(&mut s, *buffer_id);
            s.append(" heap=");
            s.append(heap_of(heap_id).as_str());
            s.append(" size=");
            s.append(human_bytes(*size_bytes).as_str());
            s.append(" label=");
            s.append(text_or(label, "-").as_str());
            s
        },
        Payload::MetalBufferFree { buffer_id, .. } => {
            let mut s = "MetalBufferFree buf=0x".to_owned();
            push_hex(&mut s, *buffer_id);
            s
        },
        Payload::MetalTextureAlloc { texture_id, heap_id, size_bytes, label, .. } => {
            let mut s = "MetalTextureAlloc tex=0x".to_owned();
            push_hex(&mut s, *texture_id);
            s.append(" heap=");
            s.append(heap_of(heap_id).as_str());
            s.append(" size=");
            s.append(human_bytes(*size_bytes).as_str());
            s.append(" label=");
            s.append(text_or(label, "-").as_str());
            s
        },
        Payload::MetalTextureFree { texture_id, .. } => {
            let mut s = "MetalTextureFree tex=0x".to_owned();
            push_hex(&mut s, *texture_id);
            s
        },
        Payload::MetalHookDropped { count, .. } => {
            let mut s = "MetalHookDropped count=".to_owned();
            push_dec(&mut s, *count);
            s
        },
        Payload::MetalHookSkipped { reason, .. } => {
            let mut s = "MetalHookSkipped reason=".to_owned();
            s.append(reason.as_str());
            s
        },
        Payload::MlxEvalEntered { call_id, array_count, stream, .. } => {
            let mut s = "MlxEvalEntered call_id=".to_owned();
            push_dec(&mut s, *call_id);
            s.append(" arrays=");
            push_dec(&mut s, *array_count as u64);
            s.append(" stream=");
            s.append(stream.as_str());
            s
        },
        Payload::MlxEvalReturned { call_id, duration_ns, was_async, .. } => {
            let mut s = "MlxEvalReturned call_id=".to_owned();
            push_dec(&mut s, *call_id);
            s.append(" duration=");
            push_dec(&mut s, *duration_ns / 1_000_000);
            s.append("ms async=");
            s.append(word_of(*was_async));
            s
        },
        Payload::MlxMemoryPoll { active_bytes, peak_bytes, cache_bytes, .. } => {
            let mut s = "MlxMemoryPoll active=".to_owned();
            s.append(human_bytes(*active_bytes).as_str());
            s.append(" peak=");
            s.append(human_bytes(*peak_bytes).as_str());
            s.append(" cache=");
            s.append(human_bytes(*cache_bytes).as_str());
            s
        },
        Payload::MlxArrayAlive { array_id, size_bytes, dtype, shape, stream, .. } => {
            let mut s = "MlxArrayAlive id=0x".to_owned();
            push_hex(&mut s, *array_id);
            s.append(" size=");
            s.append(human_bytes(*size_bytes).as_str());
            s.append(" dtype=");
            s.append(dtype.as_str());
            s.append(" shape=");
            s.append(numbers_of(shape).as_str());
            s.append(" stream=");
            s.append(stream.as_str());
            s
        },
        Payload::MlxArrayFreed { array_id, .. } => {
            let mut s = "MlxArrayFreed id=0x".to_owned();
            push_hex(&mut s, *array_id);
            s
        },
        Payload::MlxSnapshot { live_arrays, total_array_bytes, mlx_version, .. } => {
            let mut s = "MlxSnapshot arrays=".to_owned();
            push_dec(&mut s, *live_arrays);
            s.append(" total=");
            s.append(human_bytes(*total_array_bytes).as_str());
            s.append(" streams=");
            s.append(quoted);
            s.append(" mlx=");
            s.append(text_or(mlx_version, "none").as_str());
            s
        },
        Payload::MlxPanicTriggered { condition, .. } => {
            let mut s = "MlxPanicTriggered condition=".to_owned();
            s.append(condition.as_str());
            s
        },
        Payload::PostMortemFlushed { reason, source_session, event_count, .. } => {
            let mut s = "PostMortemFlushed reason=".to_owned();
            s.append(reason.as_str());
            s.append(" src=");
            s.append(source_session.as_str());
            s.append(" events=");
            push_dec(&mut s, *event_count);
            s
        },
        _ => other.to_owned(),
    }
}

/// What an event says, in a line.
pub fn event_kind(payload: &Payload, other: &str) -> (s: String)
    ensures
        s@ == kind_text(*payload, quoted_texts(texts_in(*payload)), other@),
{
    let none: Vec<String> = Vec::new();
    assert(views(none@) =~= Seq::<Seq<char>>::empty());
    let quoted = match payload {
        Payload::PythonSidecarHello { argv, .. } => quoted_list(argv),
        Payload::MlxSnapshot { streams, .. } => quoted_list(streams),
        _ => quoted_list(&none),
    };
    kind_with(payload, quoted.as_str(), other)
}

/// Where an event came from, in a word.
pub open spec fn source_word(s: Source) -> Seq<char> {
    match s {
        Source::System => "System"@,
        Source::Mark => "Mark"@,
        Source::PythonSidecar => "PythonSidecar"@,
        Source::MetalHook => "MetalHook"@,
        Source::Vm => "Vm"@,
        Source::Proc => "Proc"@,
        Source::Thermal => "Thermal"@,
        Source::IoReport => "IoReport"@,
        Source::OsLog => "OsLog"@,
        Source::CrashReport => "CrashReport"@,
        Source::MachException => "MachException"@,
    }
}

/// Where an event came from, in a word.
pub fn source_name(s: Source) -> (r: &'static str)
    ensures
        r@ == source_word(s),
{
    match s {
        Source::System => "System",
        Source::Mark => "Mark",
        Source::PythonSidecar => "PythonSidecar",
        Source::MetalHook => "MetalHook",
        Source::Vm => "Vm",
        Source::Proc => "Proc",
        Source::Thermal => "Thermal",
        Source::IoReport => "IoReport",
        Source::OsLog => "OsLog",
        Source::CrashReport => "CrashReport",
        Source::MachException => "MachException",
    }
}

/// An event as a line.
pub open spec fn event_line(e: Event, other: Seq<char>) -> Seq<char> {
    "  +"@ + right_aligned(dec(e.ts_mono_ns as int), 10) + "ns  seq="@ + right_aligned(
        dec(e.seq as int),
        4,
    ) + "  src="@ + source_word(e.source) + "  "@ + kind_text(
        e.payload,
        quoted_texts(texts_in(e.payload)),
        other,
    ) + "\n"@
}

/// The metadata of a session as lines.
pub open spec fn session_head(meta: SessionMetadata, count: nat) -> Seq<char> {
    "session    "@ + hyphenated(meta.session_id) + "\n"@ + "started    "@ + meta.started_rfc3339@
        + "\n"@ + (match meta.ended_rfc3339 {
        Some(end) => "ended      "@ + end@ + "\n"@,
        None => seq![],
    }) + "host       "@ + meta.host@ + "\n"@ + (match meta.exit_code {
        Some(c) => "exit_code  "@ + dec(c as int) + "\n"@,
        None => seq![],
    }) + "events     "@ + dec(count as int) + "\n"@ + "\n"@
}

/// A session as lines.
pub open spec fn session_text(
    meta: SessionMetadata,
    events: Seq<Event>,
    others: Seq<Seq<char>>,
) -> Seq<char> {
    session_head(meta, events.len()) + stacked(
        Seq::new(events.len(), |i: int| event_line(events[i], others[i])),
    )
}

fn event_text(e: &Event, other: &str) -> (s: String)
    ensures
        s@ == event_line(*e, other@),
{
    let mut s = "  +".to_owned();
    push_dec_right(&mut s, e.ts_mono_ns, 10);
    s.append("ns  seq=");
    push_dec_right(&mut s, e.seq, 4);
    s.append("  src=");
    s.append(source_name(e.source));
    s.append("  ");
    s.append(event_kind(&e.payload, other).as_str());
    s.append("\n");
    s
}

fn head_text(meta: &SessionMetadata, count: usize) -> (out: String)
    ensures
        out@ == session_head(*meta, count as nat),
{
    let mut out = "session    ".to_owned();
    out.append(hyphenated_text(meta.session_id).as_str());
    out.append("\n");
    out.append("started    ");
    out.append(meta.started_rfc3339.as_str());
    out.append("\n");
    let ghost a = out@;
    match &meta.ended_rfc3339 {
        Some(end) => {
            let mut s = "ended      ".to_owned();
            s.append(end.as_str());
            s.append("\n");
            out.append(s.as_str());
        },
        None => {
            assert(out@ =~= a + Seq::<char>::empty());
        },
    }
    out.append("host       ");
    out.append(meta.host.as_str());
    out.append("\n");
    let ghost b = out@;
    match meta.exit_code {
        Some(c) => {
            let mut s = "exit_code  ".to_owned();
            push_signed(&mut s, c as i64);
            s.append("\n");
            out.append(s.as_str());
        },
        None => {
            assert(out@ =~= b + Seq::<char>::empty());
        },
    }
    out.append("events     ");
    push_dec(&mut out, count as u64);
    out.append("\n");
    out.append("\n");
    out
}

/// Shows a session. `others` is what is said of each event where it has no words
/// of its own.
pub fn show_session(meta: &SessionMetadata, events: &[Event], others: &[String]) -> (out: String)
    requires
        others@.len() == events@.len(),
    ensures
        out@ == session_text(*meta, events@, views(others@)),
{
    let mut out = head_text(meta, events.len());
    let mut lines: Vec<String> = Vec::new();
    let mut i: usize = 0;
    while i < events.len()
        invariant
            i <= events@.len(),
            others@.len() == events@.len(),
            lines@.len() == i,
            forall|k: int|
                0 <= k < i ==> (#[trigger] lines@[k])@ == event_line(events@[k], others@[k]@),
        decreases events@.len() - i,
    {
        lines.push(event_text(&events[i], others[i].as_str()));
        i = i + 1;
    }
    assert(views(lines@) =~= Seq::new(
        events@.len(),
        |i: int| event_line(events@[i], views(others@)[i]),
    ));
    push_lines(&mut out, &lines);
    out
}

/// What a session was recorded for, behind its name.
pub open spec fn kind_note(meta: Option<SessionMetadata>) -> Seq<char> {
    match meta {
        Some(m) => match m.kind {
            SessionKind::Ambient => " [ambient]"@,
            SessionKind::Scoped { pid, argv } => " [scoped pid="@ + dec(pid as int) + " cmd="@
                + joined(views(argv@), " "@) + "]"@,
        },
        None => seq![],
    }
}

/// One line of the list of sessions.
pub open spec fn listed_line(e: SessionEntry) -> Seq<char> {
    e.dir@ + kind_note(e.meta) + "\n"@
}

/// All sessions as lines.
pub open spec fn listing(sessions: Seq<SessionEntry>) -> Seq<char> {
    if sessions.len() == 0 {
        "(no sessions)\n"@
    } else {
        stacked(sessions.map_values(|e: SessionEntry| listed_line(e)))
    }
}

fn kind_note_text(meta: &Option<SessionMetadata>) -> (s: String)
    ensures
        s@ == kind_note(*meta),
{
    match meta {
        Some(m) => match &m.kind {
            SessionKind::Ambient => " [ambient]".to_owned(),
            SessionKind::Scoped { pid, argv } => {
                let mut s = " [scoped pid=".to_owned();
                push_dec(&mut s, *pid as u64);
                s.append(" cmd=");
                s.append(join(argv, " ").as_str());
                s.append("]");
                s
            },
        },
        None => {
            let s = String::new();
            assert(s@ =~= seq![]);
            s
        },
    }
}

/// Lists sessions, each with what it was recorded for where that is known.
pub fn list_text(sessions: &[SessionEntry]) -> (out: String)
    ensures
        out@ == listing(sessions@),
{
    if sessions.len() == 0 {
        return "(no sessions)\n".to_owned();
    }
    let mut lines: Vec<String> = Vec::new();
    let mut i: usize = 0;
    while i < sessions.len()
        invariant
            i <= sessions@.len(),
            lines@.len() == i,
            forall|k: int| 0 <= k < i ==> (#[trigger] lines@[k])@ == listed_line(sessions@[k]),
        decreases sessions@.len() - i,
    {
        let mut s = sessions[i].dir.clone();
        s.append(kind_note_text(&sessions[i].meta).as_str());
        s.append("\n");
        lines.push(s);
        i = i + 1;
    }
    assert(views(lines@) =~= sessions@.map_values(|e: SessionEntry| listed_line(e)));
    let mut out = String::new();
    push_lines(&mut out, &lines);
    assert(out@ =~= stacked(views(lines@)));
    out
}

/// Tells that there is no such session.
pub fn not_found_error(id: &str) -> (s: String)
    ensures
        s@ == "session "@ + id@ + " not found"@,
{
    let mut s = "session ".to_owned();
    s.append(id);
    s.append(" not found");
    s
}

/// Tells that a text leads to no session, given the text in small letters.
pub fn unresolved_with(small: &str) -> (s: String)
    ensures
        s@ == "could not resolve session id `"@ + small@ + "`"@,
{
    let mut s = "could not resolve session id `".to_owned();
    s.append(small);
    s.append("`");
    s
}

/// Tells that a text leads to no session.
pub fn unresolved_error(id: &str) -> (s: String)
    ensures
        s@ == "could not resolve session id `"@ + small_letters(id@) + "`"@,
{
    unresolved_with(lowercase(id).as_str())
}

/// What a name of a session leads to.
#[derive(Debug, Clone, Copy, PartialEq, Eq, Structural)]
pub enum Resolved {
    /// The session with this identifier.
    Id(Uuid),
    /// A directory whose metadata cannot be read.
    Unreadable(usize),
    Unknown,
}

/// What `uuid` reads in a text.
pub uninterp spec fn read_uuid(s: Seq<char>) -> Option<u128>;

/// Calls `uuid::Uuid::parse_str`. Which texts are identifiers is the crate's to
/// say: several notations are. The result depends on the text alone.
#[verifier::external_body]
fn parse_uuid(s: &str) -> (r: Option<u128>)
    ensures
        r == read_uuid(s@),
{
    match uuid::Uuid::parse_str(s) {
        Ok(id) => Some(id.as_u128()),
        Err(_) => None,
    }
}

/// What std makes of a text in small letters.
pub uninterp spec fn small_letters(s: Seq<char>) -> Seq<char>;

/// Calls std's `str::to_lowercase`, which goes by Unicode's tables. The result
/// depends on the text alone.
#[verifier::external_body]
fn lowercase(s: &str) -> (r: String)
    ensures
        r@ == small_letters(s@),
{
    s.to_lowercase()
}

/// The first session, from `i` on, whose directory ends in `suffix`.
pub open spec fn by_suffix(s: Seq<SessionEntry>, suffix: Seq<char>, i: int) -> Resolved
    decreases s.len() - i,
{
    if i < 0 || i >= s.len() {
        Resolved::Unknown
    } else if ends_with(s[i].dir@, suffix) {
        match s[i].meta {
            Some(m) => Resolved::Id(m.session_id),
            None => Resolved::Unreadable(i as usize),
        }
    } else {
        by_suffix(s, suffix, i + 1)
    }
}

/// What a name leads to: to an identifier where it is one, else to the first
/// session whose directory ends in it.
pub open spec fn leads_to(
    parsed: Option<u128>,
    suffix: Seq<char>,
    s: Seq<SessionEntry>,
) -> Resolved {
    match parsed {
        Some(id) => Resolved::Id(Uuid(id)),
        None => by_suffix(s, suffix, 0),
    }
}

/// What a name leads to, given the identifier that it reads as and its small
/// letters.
pub fn resolve_with(parsed: Option<u128>, suffix: &str, sessions: &[SessionEntry]) -> (r: Resolved)
    ensures
        r == leads_to(parsed, suffix@, sessions@),
{
    if let Some(id) = parsed {
        return Resolved::Id(Uuid(id));
    }
    let mut i: usize = 0;
    while i < sessions.len()
        invariant
            i <= sessions@.len(),
            parsed is None,
            by_suffix(sessions@, suffix@, 0) == by_suffix(sessions@, suffix@, i as int),
        decreases sessions@.len() - i,
    {
        if finishes(sessions[i].dir.as_str(), suffix) {
            return match &sessions[i].meta {
                Some(m) => Resolved::Id(m.session_id),
                None => Resolved::Unreadable(i),
            };
        }
        i = i + 1;
    }
    Resolved::Unknown
}

/// What a name leads to: a full identifier, or the end of a directory's name.
pub fn resolve_id(s: &str, sessions: &[SessionEntry]) -> (r: Resolved)
    ensures
        r == leads_to(read_uuid(s@), small_letters(s@), sessions@),
{
    resolve_with(parse_uuid(s), lowercase(s).as_str(), sessions)
}

} // verus!
