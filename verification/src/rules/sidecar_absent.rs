//! Surfaces a session with captured GPU work and no Python sidecar, and one
//! with neither.
//!
//! After a fresh installation the Metal hook works at the first recording, but
//! the package is often missing from the environment of the program: the
//! session then holds command buffers and not a single event of the sidecar,
//! and nothing else points at the missing package.

use crate::event::{lemma_prefix_step, Event, Payload};
use crate::finding::{
    finding_views, lemma_findings_push, Category, EvidenceRef, EvidenceView, Finding, FindingView,
    Severity,
};
use crate::rule::Rule;
use crate::text::{dec, push_dec};
use vstd::prelude::*;

verus! {

broadcast use vstd::string::group_string_axioms;

/// GPU work without a sidecar.
#[derive(Debug, Clone, PartialEq, Eq)]
pub struct SidecarAbsent {
    /// Number of completed command buffers.
    pub metal_cb_count: u64,
    /// `seq` of the first completed command buffer.
    pub first_seq: u64,
    pub first_ts_mono_ns: u64,
}

pub const ABSENT_TITLE: &'static str =
    "Python sidecar never attached: GPU time cannot be attributed to modules/scopes";

pub const ABSENT_ADVICE: &'static str =
    " command buffer(s) but the Python sidecar never attached (no PythonSidecarHello, module or eval events), so nothing can be attributed to modules or scopes. If the target is a Python/MLX workload, install the `smeltr` package in ITS environment (`pip install -e python/` from the smeltr repo) — `smeltr record` then auto-attaches it and enables module/scope attribution, eval windows and `smeltr origins`. For pure Metal/C++ targets this is expected.";

/// What to do about GPU work without a sidecar.
pub open spec fn absent_advice(count: u64) -> Seq<char> {
    "Metal capture recorded "@ + dec(count as int) + ABSENT_ADVICE@
}

impl SidecarAbsent {
    /// What to do about it.
    pub fn advice(&self) -> (s: String)
        ensures
            s@ == absent_advice(self.metal_cb_count),
    {
        let mut s = "Metal capture recorded ".to_owned();
        push_dec(&mut s, self.metal_cb_count);
        s.append(ABSENT_ADVICE);
        s
    }
}

/// An event that only the sidecar sends.
pub open spec fn of_sidecar(e: Event) -> bool {
    e.payload is PythonSidecarHello || e.payload is ModuleEntered || e.payload is MlxEvalEntered
}

/// A completed command buffer.
pub open spec fn of_gpu(e: Event) -> bool {
    e.payload is MetalCbCompleted
}

/// Whether some event came from the sidecar.
pub open spec fn has_sidecar(events: Seq<Event>) -> bool {
    exists|i: int| 0 <= i < events.len() && of_sidecar(#[trigger] events[i])
}

/// Whether some command buffer completed.
pub open spec fn has_gpu(events: Seq<Event>) -> bool {
    exists|i: int| 0 <= i < events.len() && of_gpu(#[trigger] events[i])
}

/// The number of completed command buffers, and the first of them.
pub open spec fn gpu_work(events: Seq<Event>) -> (nat, Option<int>)
    decreases events.len(),
{
    if events.len() == 0 {
        (0, None)
    } else {
        let w = gpu_work(events.drop_last());
        if of_gpu(events.last()) {
            (
                w.0 + 1,
                match w.1 {
                    Some(i) => Some(i),
                    None => Some(events.len() - 1),
                },
            )
        } else {
            w
        }
    }
}

/// What a session with GPU work and without a sidecar tells.
pub open spec fn absent_of(events: Seq<Event>) -> Option<SidecarAbsent> {
    if has_sidecar(events) {
        None
    } else {
        match gpu_work(events).1 {
            None => None,
            Some(i) => Some(
                SidecarAbsent {
                    metal_cb_count: gpu_work(events).0 as u64,
                    first_seq: events[i].seq,
                    first_ts_mono_ns: events[i].ts_mono_ns,
                },
            ),
        }
    }
}

/// Returns `Some` where command buffers completed and no event came from the
/// sidecar.
pub fn detect(events: &[Event]) -> (r: Option<SidecarAbsent>)
    ensures
        r == absent_of(events@),
{
    let mut count: u64 = 0;
    let mut first: Option<usize> = None;
    let mut i: usize = 0;
    while i < events.len()
        invariant
            i <= events@.len(),
            count <= i,
            count == gpu_work(events@.take(i as int)).0,
            match first {
                Some(k) => k < i && gpu_work(events@.take(i as int)).1 == Some(k as int),
                None => gpu_work(events@.take(i as int)).1 is None,
            },
            forall|k: int| 0 <= k < i ==> !of_sidecar(#[trigger] events@[k]),
        decreases events@.len() - i,
    {
        proof {
            lemma_prefix_step(events@, i as int);
        }
        match &events[i].payload {
            Payload::PythonSidecarHello { .. }
            | Payload::ModuleEntered { .. }
            | Payload::MlxEvalEntered { .. } => {
                assert(of_sidecar(events@[i as int]));
                return None;
            },
            Payload::MetalCbCompleted { .. } => {
                count = count + 1;
                if first.is_none() {
                    first = Some(i);
                }
            },
            _ => {},
        }
        i = i + 1;
    }
    assert(events@.take(events@.len() as int) =~= events@);
    match first {
        Some(k) => Some(
            SidecarAbsent {
                metal_cb_count: count,
                first_seq: events[k].seq,
                first_ts_mono_ns: events[k].ts_mono_ns,
            },
        ),
        None => None,
    }
}

/// Neither GPU work nor a sidecar: typically the daemon's own session, which
/// records the system probes only.
#[derive(Debug, Clone, PartialEq, Eq)]
pub struct NothingInstrumented {
    /// Number of events of the session, all of them from probes.
    pub event_count: usize,
    /// Whether the session samples the footprint of a process. The daemon's own
    /// sessions never do: such samples show that a run was recorded.
    pub has_proc_footprint: bool,
}

pub const NOTHING_TITLE: &'static str = "Aucune charge GPU instrumentée dans cette session";

pub const NOTHING_ADVICE: &'static str =
    " événement(s), tous issus des sondes système : aucune capture Metal et aucun événement du sidecar Python. Il n'y a donc rien à ventiler par scope ou par module — les tableaux vides signifient « rien n'a été instrumenté », pas « rien à signaler ». ";

pub const FOLLOWED_ADVICE: &'static str =
    "Un processus a bien été suivi (échantillons d'empreinte présents), mais ni le hook Metal ni le sidecar Python n'ont produit d'événement : lancé avec `--no-hook`, sur une cible non Metal, ou sans le paquet `smeltr` installé dans l'environnement Python de la cible.";

pub const AMBIENT_ADVICE: &'static str =
    "C'est la forme attendue de la session ambiante que le daemon ouvre à chaque démarrage. Pour analyser un run réel, enregistrez-le avec `smeltr record -- <commande>` puis ciblez-le avec `--last` ou avec le nom donné via SMELTR_SESSION_NAME.";

/// What to do about a session in which nothing was instrumented.
pub open spec fn nothing_advice(count: nat, followed: bool) -> Seq<char> {
    "Cette session contient "@ + dec(count as int) + NOTHING_ADVICE@ + if followed {
        FOLLOWED_ADVICE@
    } else {
        AMBIENT_ADVICE@
    }
}

impl NothingInstrumented {
    /// What to do about it. The daemon's own session is told apart from a
    /// recorded run by what is known, not guessed.
    pub fn advice(&self) -> (s: String)
        ensures
            s@ == nothing_advice(self.event_count as nat, self.has_proc_footprint),
    {
        let mut s = "Cette session contient ".to_owned();
        push_dec(&mut s, self.event_count as u64);
        s.append(NOTHING_ADVICE);
        if self.has_proc_footprint {
            s.append(FOLLOWED_ADVICE);
        } else {
            s.append(AMBIENT_ADVICE);
        }
        s
    }
}

/// Whether some event samples the footprint of a process.
pub open spec fn has_footprint(events: Seq<Event>) -> bool {
    exists|i: int| 0 <= i < events.len() && (#[trigger] events[i]).payload is ProcFootprint
}

/// What a session tells in which nothing was instrumented.
pub open spec fn nothing_of(events: Seq<Event>) -> Option<NothingInstrumented> {
    if events.len() == 0 || has_sidecar(events) || has_gpu(events) {
        None
    } else {
        Some(
            NothingInstrumented {
                event_count: events.len() as usize,
                has_proc_footprint: has_footprint(events),
            },
        )
    }
}

/// Returns `Some` where there are events, no command buffer completed and no
/// event came from the sidecar.
pub fn detect_nothing_instrumented(events: &[Event]) -> (r: Option<NothingInstrumented>)
    ensures
        r == nothing_of(events@),
{
    if events.len() == 0 {
        return None;
    }
    let mut has_proc_footprint: bool = false;
    let mut i: usize = 0;
    while i < events.len()
        invariant
            i <= events@.len(),
            forall|k: int| 0 <= k < i ==> !of_sidecar(#[trigger] events@[k]),
            forall|k: int| 0 <= k < i ==> !of_gpu(#[trigger] events@[k]),
            has_proc_footprint == exists|k: int|
                0 <= k < i && (#[trigger] events@[k]).payload is ProcFootprint,
        decreases events@.len() - i,
    {
        match &events[i].payload {
            Payload::PythonSidecarHello { .. }
            | Payload::ModuleEntered { .. }
            | Payload::MlxEvalEntered { .. } => {
                assert(of_sidecar(events@[i as int]));
                return None;
            },
            Payload::MetalCbCompleted { .. } => {
                assert(of_gpu(events@[i as int]));
                return None;
            },
            Payload::ProcFootprint { .. } => {
                has_proc_footprint = true;
                assert(events@[i as int].payload is ProcFootprint);
            },
            _ => {
                assert(!(events@[i as int].payload is ProcFootprint));
            },
        }
        i = i + 1;
    }
    Some(NothingInstrumented { event_count: events.len(), has_proc_footprint })
}

pub struct SidecarAbsentRule;

/// What the rule finds.
pub open spec fn sidecar_findings(events: Seq<Event>) -> Seq<FindingView> {
    match nothing_of(events) {
        Some(n) => seq![
            FindingView {
                severity: Severity::Info,
                category: Category::ContributingFactor,
                title: NOTHING_TITLE@,
                detail: nothing_advice(n.event_count as nat, n.has_proc_footprint),
                evidence: seq![],
            },
        ],
        None => match absent_of(events) {
            Some(a) => seq![
                FindingView {
                    severity: Severity::Info,
                    category: Category::ContributingFactor,
                    title: ABSENT_TITLE@,
                    detail: absent_advice(a.metal_cb_count),
                    evidence: seq![
                        EvidenceView {
                            seq: a.first_seq,
                            ts_mono_ns: a.first_ts_mono_ns,
                            description: "first of "@ + dec(a.metal_cb_count as int)
                                + " completed Metal CB(s) in a session with zero Python-sidecar events"@,
                        },
                    ],
                },
            ],
            None => seq![],
        },
    }
}

impl Rule for SidecarAbsentRule {
    open spec fn label(&self) -> Seq<char> {
        "sidecar_absent"@
    }

    open spec fn accepts(&self, events: Seq<Event>) -> bool {
        true
    }

    open spec fn findings(&self, events: Seq<Event>) -> Seq<FindingView> {
        sidecar_findings(events)
    }

    fn name(&self) -> (s: &'static str) {
        "sidecar_absent"
    }

    fn can_check(&self, events: &[Event]) -> (b: bool) {
        true
    }

    fn check(&self, events: &[Event]) -> (r: Vec<Finding>) {
        let mut out: Vec<Finding> = Vec::new();
        assert(finding_views(out@) =~= Seq::<FindingView>::empty());
        let f = if let Some(nothing) = detect_nothing_instrumented(events) {
            Finding::new(
                Severity::Info,
                Category::ContributingFactor,
                NOTHING_TITLE,
            ).with_detail(nothing.advice().as_str())
        } else if let Some(absent) = detect(events) {
            let mut description = "first of ".to_owned();
            push_dec(&mut description, absent.metal_cb_count);
            description.append(
                " completed Metal CB(s) in a session with zero Python-sidecar events",
            );
            Finding::new(
                Severity::Info,
                Category::ContributingFactor,
                ABSENT_TITLE,
            ).with_detail(absent.advice().as_str()).with_evidence(
                EvidenceRef {
                    seq: absent.first_seq,
                    ts_mono_ns: absent.first_ts_mono_ns,
                    description,
                },
            )
        } else {
            return out;
        };
        proof {
            lemma_findings_push(out@, f);
            let v = sidecar_findings(events@)[0];
            assert(f@.evidence =~= v.evidence);
        }
        out.push(f);
        assert(finding_views(out@) =~= sidecar_findings(events@));
        out
    }
}

proof fn lemma_gpu_work(events: Seq<Event>)
    ensures
        gpu_work(events).1 is Some <==> has_gpu(events),
        match gpu_work(events).1 {
            Some(i) => 0 <= i < events.len() && of_gpu(events[i]),
            None => true,
        },
    decreases events.len(),
{
    if events.len() > 0 {
        let rest = events.drop_last();
        lemma_gpu_work(rest);
        if of_gpu(events.last()) {
            assert(of_gpu(events[events.len() - 1]));
        } else if has_gpu(events) {
            let i = choose|i: int| 0 <= i < events.len() && of_gpu(#[trigger] events[i]);
            assert(of_gpu(rest[i]));
        }
    }
}

/// The two shapes exclude each other: a session is never told both that its
/// GPU work lacks a sidecar and that nothing was instrumented. And every
/// session with events and without a sidecar has one of them.
pub proof fn shapes_are_exclusive(events: Seq<Event>)
    ensures
        !(absent_of(events) is Some && nothing_of(events) is Some),
        events.len() > 0 && !has_sidecar(events) ==> absent_of(events) is Some || nothing_of(
            events,
        ) is Some,
{
    lemma_gpu_work(events);
}

} // verus!
