//! Flags processes that are known to aggravate crashes and take notable CPU.

use crate::double::{decimal, div_half_even, fixed, push_decimal, Bin};
use crate::event::{lemma_prefix_step, Event, Payload, ProcEntry};
use crate::finding::{
    finding_views, Category, EvidenceRef, EvidenceView, Finding, FindingView, Severity,
};
use crate::rule::Rule;
use crate::text::{contains, dec, has, push_dec, push_numeral};
use vstd::arithmetic::power2::pow2;
use vstd::prelude::*;

verus! {

broadcast use vstd::string::group_string_axioms;

pub struct SystemPressureRule;

/// Five percent, as the bits of a single-precision number.
pub const CPU_THRESHOLD: u32 = 0x40A0_0000;

/// Infinity, as the bits of a single-precision number.
pub const INFINITY: u32 = 0x7F80_0000;

/// The names by which a process is flagged.
pub open spec fn flagged(name: Seq<char>) -> bool {
    contains(name, "ReportCrash"@) || contains(name, "diagnosticservicesd"@) || contains(
        name,
        "UserNotificationCenter"@,
    ) || contains(name, "spindump"@)
}

/// The names by which a process is flagged.
pub fn pressure_process_names() -> (v: Vec<&'static str>)
    ensures
        forall|name: Seq<char>|
            flagged(name) == exists|k: int|
                0 <= k < v@.len() && contains(name, #[trigger] v@[k]@),
{
    let v = vec!["ReportCrash", "diagnosticservicesd", "UserNotificationCenter", "spindump"];
    proof {
        assert forall|name: Seq<char>|
            flagged(name) == exists|k: int|
                0 <= k < v@.len() && contains(name, #[trigger] v@[k]@) by {
            assert(v@[0]@ == "ReportCrash"@);
            assert(v@[1]@ == "diagnosticservicesd"@);
            assert(v@[2]@ == "UserNotificationCenter"@);
            assert(v@[3]@ == "spindump"@);
        }
    }
    v
}

/// The bits of no number.
pub open spec fn nan(bits: u32) -> bool {
    bits % 0x8000_0000 > INFINITY
}

/// The number is under the threshold.
pub open spec fn under_threshold(bits: u32) -> bool {
    !nan(bits) && (bits >= 0x8000_0000 || bits < CPU_THRESHOLD)
}

/// A number at or over the threshold, with one place.
pub open spec fn cpu_text(bits: u32) -> Seq<char> {
    if nan(bits) {
        "NaN"@
    } else if bits == INFINITY {
        "inf"@
    } else {
        fixed(
            Bin {
                mant: (0x80_0000 + bits % 0x80_0000) as nat,
                exp: bits as int / 0x80_0000 - 150,
            },
            1,
        )
    }
}

/// What was seen of one process.
pub ghost struct SlotView {
    pub name: Seq<char>,
    pub samples: nat,
    pub peak: u32,
    pub seq: u64,
    pub ts: u64,
}

/// Where a name stands.
pub open spec fn slot_of(slots: Seq<SlotView>, name: Seq<char>) -> Option<int>
    decreases slots.len(),
{
    if slots.len() == 0 {
        None
    } else {
        match slot_of(slots.drop_last(), name) {
            Some(i) => Some(i),
            None => if slots.last().name == name {
                Some(slots.len() - 1)
            } else {
                None
            },
        }
    }
}

/// One process of one sample more.
pub open spec fn slot_step(slots: Seq<SlotView>, p: ProcEntry, e: Event) -> Seq<SlotView> {
    if under_threshold(p.cpu_pct) || !flagged(p.name@) {
        slots
    } else {
        match slot_of(slots, p.name@) {
            Some(i) => {
                let s = slots[i];
                slots.update(
                    i,
                    if !nan(p.cpu_pct) && !nan(s.peak) && p.cpu_pct > s.peak {
                        SlotView {
                            samples: s.samples + 1,
                            peak: p.cpu_pct,
                            seq: e.seq,
                            ts: e.ts_mono_ns,
                            ..s
                        }
                    } else {
                        SlotView { samples: s.samples + 1, ..s }
                    },
                )
            },
            None => slots.push(
                SlotView {
                    name: p.name@,
                    samples: 1,
                    peak: p.cpu_pct,
                    seq: e.seq,
                    ts: e.ts_mono_ns,
                },
            ),
        }
    }
}

/// The processes of one sample more.
pub open spec fn sample_step(slots: Seq<SlotView>, top: Seq<ProcEntry>, e: Event) -> Seq<SlotView>
    decreases top.len(),
{
    if top.len() == 0 {
        slots
    } else {
        slot_step(sample_step(slots, top.drop_last(), e), top.last(), e)
    }
}

/// The flagged processes of a stream, in the order in which they were first
/// seen.
pub open spec fn slots_of(events: Seq<Event>) -> Seq<SlotView>
    decreases events.len(),
{
    if events.len() == 0 {
        seq![]
    } else {
        let s = slots_of(events.drop_last());
        match events.last().payload {
            Payload::ProcTop { top, .. } => sample_step(s, top@, events.last()),
            _ => s,
        }
    }
}

/// What is told of one process.
pub open spec fn slot_finding(s: SlotView) -> FindingView {
    FindingView {
        severity: Severity::Warning,
        category: Category::SystemPressure,
        title: if s.samples == 1 {
            s.name + " consuming "@ + cpu_text(s.peak) + "% CPU"@
        } else {
            s.name + " consuming up to "@ + cpu_text(s.peak) + "% CPU ("@ + dec(s.samples as int)
                + " samples)"@
        },
        detail: seq![],
        evidence: seq![
            EvidenceView {
                seq: s.seq,
                ts_mono_ns: s.ts,
                description: "peak ProcTop at ts="@ + dec(s.ts as int),
            },
        ],
    }
}

/// What the rule finds: one finding per process, not per sample.
pub open spec fn pressure_findings(events: Seq<Event>) -> Seq<FindingView> {
    slots_of(events).map_values(|s: SlotView| slot_finding(s))
}

/// Every number of samples fits.
pub open spec fn samples_fit(slots: Seq<SlotView>) -> bool {
    forall|k: int| 0 <= k < slots.len() ==> (#[trigger] slots[k]).samples <= u32::MAX
}

struct Slot {
    name: String,
    samples: u32,
    peak: u32,
    seq: u64,
    ts: u64,
}

impl View for Slot {
    type V = SlotView;

    closed spec fn view(&self) -> SlotView {
        SlotView {
            name: self.name@,
            samples: self.samples as nat,
            peak: self.peak,
            seq: self.seq,
            ts: self.ts,
        }
    }
}

spec fn slot_views(s: Seq<Slot>) -> Seq<SlotView> {
    s.map_values(|x: Slot| x@)
}

pub proof fn lemma_slot_of(slots: Seq<SlotView>, name: Seq<char>)
    ensures
        match slot_of(slots, name) {
            Some(i) => 0 <= i < slots.len() && slots[i].name == name,
            None => forall|k: int| 0 <= k < slots.len() ==> (#[trigger] slots[k]).name != name,
        },
    decreases slots.len(),
{
    if slots.len() > 0 {
        lemma_slot_of(slots.drop_last(), name);
        assert forall|k: int| 0 <= k < slots.len() - 1 implies slots.drop_last()[k]
            == #[trigger] slots[k] by {}
    }
}

/// Later is never less.
spec fn grown(a: Seq<SlotView>, b: Seq<SlotView>) -> bool {
    a.len() <= b.len() && forall|k: int|
        0 <= k < a.len() ==> a[k].samples <= (#[trigger] b[k]).samples
}

proof fn lemma_slot_step_grows(slots: Seq<SlotView>, p: ProcEntry, e: Event)
    ensures
        grown(slots, slot_step(slots, p, e)),
{
    lemma_slot_of(slots, p.name@);
}

proof fn lemma_sample_step_grows(slots: Seq<SlotView>, top: Seq<ProcEntry>, e: Event, i: int)
    requires
        0 <= i <= top.len(),
    ensures
        grown(sample_step(slots, top.take(i), e), sample_step(slots, top, e)),
    decreases top.len() - i,
{
    if i == top.len() {
        assert(top.take(i) =~= top);
    } else {
        lemma_sample_step_grows(slots, top, e, i + 1);
        assert(top.take(i + 1).drop_last() =~= top.take(i));
        let a = sample_step(slots, top.take(i), e);
        let b = sample_step(slots, top.take(i + 1), e);
        let c = sample_step(slots, top, e);
        lemma_slot_step_grows(a, top[i], e);
        assert forall|k: int| 0 <= k < a.len() implies a[k].samples <= (#[trigger] c[k]).samples by {
            assert(a[k].samples <= b[k].samples);
        }
    }
}

proof fn lemma_slots_grow(events: Seq<Event>, i: int)
    requires
        0 <= i <= events.len(),
    ensures
        grown(slots_of(events.take(i)), slots_of(events)),
    decreases events.len() - i,
{
    if i == events.len() {
        assert(events.take(i) =~= events);
    } else {
        lemma_slots_grow(events, i + 1);
        assert(events.take(i + 1).drop_last() =~= events.take(i));
        let a = slots_of(events.take(i));
        let b = slots_of(events.take(i + 1));
        let c = slots_of(events);
        if let Payload::ProcTop { top, .. } = events[i].payload {
            lemma_sample_step_grows(a, top@, events[i], 0);
            assert(sample_step(a, top@.take(0), events[i]) == a);
        }
        assert forall|k: int| 0 <= k < a.len() implies a[k].samples <= (#[trigger] c[k]).samples by {
            assert(a[k].samples <= b[k].samples);
        }
    }
}

fn is_nan(bits: u32) -> (b: bool)
    ensures
        b == nan(bits),
{
    bits % 0x8000_0000 > INFINITY
}

fn is_flagged(name: &str) -> (b: bool)
    ensures
        b == flagged(name@),
{
    has(name, "ReportCrash") || has(name, "diagnosticservicesd") || has(
        name,
        "UserNotificationCenter",
    ) || has(name, "spindump")
}

fn find_slot(slots: &Vec<Slot>, name: &str) -> (r: Option<usize>)
    ensures
        match r {
            Some(i) => i < slots@.len() && slot_of(slot_views(slots@), name@) == Some(i as int),
            None => slot_of(slot_views(slots@), name@) is None,
        },
{
    let ghost all = slot_views(slots@);
    let mut i: usize = 0;
    assert(all.take(0) =~= Seq::<SlotView>::empty());
    while i < slots.len()
        invariant
            i <= slots@.len(),
            all == slot_views(slots@),
            slot_of(all.take(i as int), name@) is None,
        decreases slots@.len() - i,
    {
        assert(all.take(i + 1).drop_last() =~= all.take(i as int));
        if crate::text::same(slots[i].name.as_str(), name) {
            proof {
                lemma_slot_of_prefix(all, i + 1, name@);
            }
            return Some(i);
        }
        i = i + 1;
    }
    assert(all.take(all.len() as int) =~= all);
    None
}

proof fn lemma_slot_of_prefix(slots: Seq<SlotView>, i: int, name: Seq<char>)
    requires
        0 <= i <= slots.len(),
        slot_of(slots.take(i), name) is Some,
    ensures
        slot_of(slots, name) == slot_of(slots.take(i), name),
    decreases slots.len() - i,
{
    if i == slots.len() {
        assert(slots.take(i) =~= slots);
    } else {
        assert(slots.take(i + 1).drop_last() =~= slots.take(i));
        lemma_slot_of_prefix(slots, i + 1, name);
    }
}

/// Books one process; `false` where its samples no longer fit.
fn book(slots: &mut Vec<Slot>, p: &ProcEntry, e: &Event) -> (ok: bool)
    ensures
        ok ==> slot_views(final(slots)@) == slot_step(slot_views(old(slots)@), *p, *e),
        !ok ==> !samples_fit(slot_step(slot_views(old(slots)@), *p, *e)),
{
    let ghost before = slot_views(slots@);
    proof {
        lemma_slot_of(before, p.name@);
    }
    if (!is_nan(p.cpu_pct) && (p.cpu_pct >= 0x8000_0000 || p.cpu_pct < CPU_THRESHOLD))
        || !is_flagged(p.name.as_str()) {
        return true;
    }
    match find_slot(slots, p.name.as_str()) {
        Some(i) => {
            assert(before[i as int] == slots@[i as int]@);
            if slots[i].samples == u32::MAX {
                assert(slot_step(before, *p, *e)[i as int].samples > u32::MAX);
                return false;
            }
            let peak: u32 = slots[i].peak;
            slots[i].samples = slots[i].samples + 1;
            if !is_nan(p.cpu_pct) && !is_nan(peak) && p.cpu_pct > peak {
                slots[i].peak = p.cpu_pct;
                slots[i].seq = e.seq;
                slots[i].ts = e.ts_mono_ns;
            }
            assert(slot_views(slots@) =~= slot_step(before, *p, *e));
        },
        None => {
            slots.push(
                Slot {
                    name: p.name.clone(),
                    samples: 1,
                    peak: p.cpu_pct,
                    seq: e.seq,
                    ts: e.ts_mono_ns,
                },
            );
            assert(slot_views(slots@) =~= slot_step(before, *p, *e));
        },
    }
    true
}

/// The flagged processes of a stream; `None` where their samples do not fit.
fn find_slots(events: &[Event]) -> (r: Option<Vec<Slot>>)
    ensures
        match r {
            Some(v) => slot_views(v@) == slots_of(events@) && samples_fit(slots_of(events@)),
            None => !samples_fit(slots_of(events@)),
        },
{
    let mut slots: Vec<Slot> = Vec::new();
    let mut i: usize = 0;
    assert(slot_views(slots@) =~= Seq::<SlotView>::empty());
    while i < events.len()
        invariant
            i <= events@.len(),
            slot_views(slots@) == slots_of(events@.take(i as int)),
        decreases events@.len() - i,
    {
        proof {
            lemma_prefix_step(events@, i as int);
        }
        let ghost before = slot_views(slots@);
        if let Payload::ProcTop { top, .. } = &events[i].payload {
            let mut j: usize = 0;
            assert(top@.take(0) =~= Seq::<ProcEntry>::empty());
            while j < top.len()
                invariant
                    j <= top@.len(),
                    i < events@.len(),
                    before == slots_of(events@.take(i as int)),
                    sample_step(before, top@, events@[i as int]) == slots_of(events@.take(i + 1)),
                    slot_views(slots@) == sample_step(
                        before,
                        top@.take(j as int),
                        events@[i as int],
                    ),
                decreases top@.len() - j,
            {
                assert(top@.take(j + 1).drop_last() =~= top@.take(j as int));
                if !book(&mut slots, &top[j], &events[i]) {
                    proof {
                        lemma_sample_step_grows(before, top@, events@[i as int], j + 1);
                        lemma_slots_grow(events@, i + 1);
                        let a = sample_step(before, top@.take(j + 1), events@[i as int]);
                        let b = slots_of(events@.take(i + 1));
                        let c = slots_of(events@);
                        let k = choose|k: int|
                            0 <= k < a.len() && (#[trigger] a[k]).samples > u32::MAX;
                        assert(a[k].samples <= b[k].samples);
                        assert(b[k].samples <= c[k].samples);
                    }
                    return None;
                }
                j = j + 1;
            }
            assert(top@.take(top@.len() as int) =~= top@);
        }
        i = i + 1;
    }
    proof {
        assert(events@.take(events@.len() as int) =~= events@);
        assert forall|k: int| 0 <= k < slots@.len() implies (#[trigger] slots_of(
            events@,
        )[k]).samples <= u32::MAX by {
            assert(slot_views(slots@)[k] == slots@[k]@);
        }
    }
    Some(slots)
}

proof fn lemma_exact_tenths(n: nat)
    ensures
        decimal(n * 10, 1) == dec(n as int) + seq!['.'] + seq!['0'],
{
    reveal_with_fuel(crate::double::ten_to, 2);
    reveal_with_fuel(crate::text::numeral, 2);
    assert((n * 10) / 10 == n);
    assert((n * 10) % 10 == 0);
    assert(dec(0) =~= seq!['0']);
    assert(crate::text::zero_filled(dec(0), 1) =~= seq!['0']);
}

/// Two to the power of `e`.
fn power(e: u32) -> (p: u128)
    requires
        e <= 104,
    ensures
        p == pow2(e as nat),
        p <= 0x100_0000_0000_0000_0000_0000_0000,
{
    let mut p: u128 = 1;
    let mut i: u32 = 0;
    assert(pow2(0) == 1) by {
        vstd::arithmetic::power2::lemma2_to64();
    }
    proof {
        lemma_power_104();
    }
    while i < e
        invariant
            i <= e <= 104,
            p == pow2(i as nat),
            pow2(104) == 0x100_0000_0000_0000_0000_0000_0000,
        decreases e - i,
    {
        proof {
            vstd::arithmetic::power2::lemma_pow2_unfold((i + 1) as nat);
            lemma_power_order((i + 1) as nat, 104);
        }
        p = p * 2;
        i = i + 1;
    }
    proof {
        lemma_power_order(e as nat, 104);
    }
    p
}

proof fn lemma_power_order(a: nat, b: nat)
    requires
        a <= b,
    ensures
        pow2(a) <= pow2(b),
{
    if a < b {
        vstd::arithmetic::power2::lemma_pow2_strictly_increases(a, b);
    }
}

proof fn lemma_power_104()
    ensures
        pow2(104) == 0x100_0000_0000_0000_0000_0000_0000,
{
    vstd::arithmetic::power2::lemma2_to64();
    vstd::arithmetic::power2::lemma2_to64_rest();
    vstd::arithmetic::power2::lemma_pow2_adds(64, 40);
    assert(0x1_0000_0000_0000_0000nat * 0x100_0000_0000nat
        == 0x100_0000_0000_0000_0000_0000_0000nat);
}

/// Appends a number at or over the threshold, with one place.
fn push_cpu(out: &mut String, bits: u32)
    requires
        !under_threshold(bits),
    ensures
        final(out)@ == old(out)@ + cpu_text(bits),
{
    if is_nan(bits) {
        out.append("NaN");
        return ;
    }
    if bits == INFINITY {
        out.append("inf");
        return ;
    }
    assert(CPU_THRESHOLD <= bits < INFINITY);
    let mant: u32 = 0x80_0000 + bits % 0x80_0000;
    let e: u32 = bits / 0x80_0000;
    assert(129 <= e <= 254);
    assert(crate::double::ten_to(1) == 10) by {
        reveal_with_fuel(crate::double::ten_to, 2);
    }
    if e >= 150 {
        let p: u128 = power(e - 150);
        proof {
            lemma_exact_tenths(mant as nat * p as nat);
            assert(mant * p < 0x1_0000_0000_0000_0000_0000_0000_0000_0000) by (nonlinear_arith)
                requires
                    0 <= mant < 0x100_0000,
                    0 <= p <= 0x100_0000_0000_0000_0000_0000_0000,
            ;
        }
        push_numeral(out, mant as u128 * p, 10);
        out.append(".0");
        proof {
            reveal_strlit(".0");
            assert(".0"@ =~= seq!['.'] + seq!['0']);
            assert(out@ =~= old(out)@ + cpu_text(bits));
        }
    } else {
        proof {
            vstd::arithmetic::power2::lemma_pow2_pos((150 - e) as nat);
        }
        push_decimal(out, div_half_even(mant as u128 * 10, power(150 - e)), 1);
    }
}

/// Every peak was at or over the threshold.
spec fn peaks_over(slots: Seq<SlotView>) -> bool {
    forall|k: int| 0 <= k < slots.len() ==> !under_threshold((#[trigger] slots[k]).peak)
}

proof fn lemma_peaks_over(events: Seq<Event>)
    ensures
        peaks_over(slots_of(events)),
    decreases events.len(),
{
    if events.len() > 0 {
        lemma_peaks_over(events.drop_last());
        if let Payload::ProcTop { top, .. } = events.last().payload {
            lemma_sample_peaks(slots_of(events.drop_last()), top@, events.last());
        }
    }
}

proof fn lemma_sample_peaks(slots: Seq<SlotView>, top: Seq<ProcEntry>, e: Event)
    requires
        peaks_over(slots),
    ensures
        peaks_over(sample_step(slots, top, e)),
    decreases top.len(),
{
    if top.len() > 0 {
        lemma_sample_peaks(slots, top.drop_last(), e);
        lemma_slot_of(sample_step(slots, top.drop_last(), e), top.last().name@);
    }
}

fn finding_of(s: &Slot) -> (f: Finding)
    requires
        !under_threshold(s@.peak),
    ensures
        f@ == slot_finding(s@),
{
    let mut title = s.name.clone();
    if s.samples == 1 {
        title.append(" consuming ");
        push_cpu(&mut title, s.peak);
        title.append("% CPU");
    } else {
        title.append(" consuming up to ");
        push_cpu(&mut title, s.peak);
        title.append("% CPU (");
        push_dec(&mut title, s.samples as u64);
        title.append(" samples)");
    }
    let mut description = "peak ProcTop at ts=".to_owned();
    push_dec(&mut description, s.ts);
    let f = Finding::new(
        Severity::Warning,
        Category::SystemPressure,
        title.as_str(),
    ).with_evidence(EvidenceRef { seq: s.seq, ts_mono_ns: s.ts, description });
    assert(f@.evidence =~= slot_finding(s@).evidence);
    f
}

impl Rule for SystemPressureRule {
    open spec fn label(&self) -> Seq<char> {
        "system_pressure"@
    }

    open spec fn accepts(&self, events: Seq<Event>) -> bool {
        samples_fit(slots_of(events))
    }

    open spec fn findings(&self, events: Seq<Event>) -> Seq<FindingView> {
        pressure_findings(events)
    }

    fn name(&self) -> (s: &'static str) {
        "system_pressure"
    }

    fn can_check(&self, events: &[Event]) -> (b: bool) {
        find_slots(events).is_some()
    }

    fn check(&self, events: &[Event]) -> (r: Vec<Finding>) {
        let mut out: Vec<Finding> = Vec::new();
        if let Some(slots) = find_slots(events) {
            let ghost all = pressure_findings(events@);
            proof {
                lemma_peaks_over(events@);
            }
            let mut i: usize = 0;
            while i < slots.len()
                invariant
                    i <= slots@.len(),
                    slot_views(slots@) == slots_of(events@),
                    peaks_over(slots_of(events@)),
                    out@.len() == i,
                    forall|k: int| 0 <= k < i ==> (#[trigger] out@[k])@ == slot_finding(slots@[k]@),
                decreases slots@.len() - i,
            {
                assert(slot_views(slots@)[i as int] == slots@[i as int]@);
                assert(!under_threshold(slots_of(events@)[i as int].peak));
                out.push(finding_of(&slots[i]));
                i = i + 1;
            }
            assert(finding_views(out@) =~= all) by {
                assert forall|k: int| 0 <= k < out@.len() implies finding_views(out@)[k]
                    == all[k] by {
                    assert(slot_views(slots@)[k] == slots@[k]@);
                }
            }
        }
        out
    }
}

/// No two findings are about the same process.
pub proof fn one_finding_per_process(events: Seq<Event>)
    ensures
        forall|i: int, j: int|
            0 <= i < j < slots_of(events).len() ==> (#[trigger] slots_of(events)[i]).name != (
            #[trigger] slots_of(events)[j]).name,
    decreases events.len(),
{
    if events.len() > 0 {
        one_finding_per_process(events.drop_last());
        if let Payload::ProcTop { top, .. } = events.last().payload {
            lemma_sample_distinct(slots_of(events.drop_last()), top@, events.last());
        }
    }
}

/// No two slots have the same name.
pub open spec fn names_distinct(s: Seq<SlotView>) -> bool {
    forall|i: int, j: int|
        0 <= i < j < s.len() ==> (#[trigger] s[i]).name != (#[trigger] s[j]).name
}

pub proof fn lemma_sample_distinct(slots: Seq<SlotView>, top: Seq<ProcEntry>, e: Event)
    requires
        names_distinct(slots),
    ensures
        names_distinct(sample_step(slots, top, e)),
    decreases top.len(),
{
    if top.len() > 0 {
        lemma_sample_distinct(slots, top.drop_last(), e);
        lemma_slot_of(sample_step(slots, top.drop_last(), e), top.last().name@);
    }
}

} // verus!
