//! The analysis of a session: the rules, and what diagnostic reports say.

use crate::crash_join::{
    all_files, crash_of, join_crash, join_jetsam, window_of, with_jetsam, ReportFile,
};
use crate::event::{Event, SessionMetadata};
use crate::finding::{finding_views, Finding, FindingView};
use crate::ids::{leading, leading_text, short, trailing};
use crate::report::Report;
use crate::rule::{all_rules, registry, AnyRule, Rule};
use crate::text::opt_view;
use vstd::prelude::*;

verus! {

/// What the rules find, one after the other.
pub open spec fn found_by(rules: Seq<AnyRule>, events: Seq<Event>) -> Seq<FindingView>
    decreases rules.len(),
{
    if rules.len() == 0 {
        seq![]
    } else {
        found_by(rules.drop_last(), events) + rules.last().findings(events)
    }
}

/// Every rule can be asked about `events`.
pub open spec fn analyzable(events: Seq<Event>) -> bool {
    forall|k: int| 0 <= k < registry().len() ==> (#[trigger] registry()[k]).accepts(events)
}

/// Can [`analyze`] be asked about `events`?
pub fn can_analyze(events: &[Event]) -> (b: bool)
    ensures
        b == analyzable(events@),
{
    let rules = all_rules();
    let mut i: usize = 0;
    while i < rules.len()
        invariant
            i <= rules@.len(),
            rules@ == registry(),
            forall|k: int| 0 <= k < i ==> (#[trigger] registry()[k]).accepts(events@),
        decreases rules@.len() - i,
    {
        if !rules[i].can_check(events) {
            assert(!registry()[i as int].accepts(events@));
            return false;
        }
        i = i + 1;
    }
    true
}

/// The name of the session of the first event.
pub open spec fn first_session(events: Seq<Event>) -> Option<Seq<char>> {
    if events.len() == 0 {
        None
    } else {
        Some(leading(events[0].session_id))
    }
}

/// Applies the rules to a stream.
pub fn analyze(events: &[Event]) -> (report: Report)
    requires
        analyzable(events@),
    ensures
        report.found() == found_by(registry(), events@),
        opt_view(report.session_short) == first_session(events@),
        report.event_count == events@.len(),
{
    let mut findings: Vec<Finding> = Vec::new();
    let rules = all_rules();
    let mut i: usize = 0;
    assert(rules@.take(0) =~= Seq::<AnyRule>::empty());
    assert(finding_views(findings@) =~= Seq::<FindingView>::empty());
    while i < rules.len()
        invariant
            i <= rules@.len(),
            rules@ == registry(),
            analyzable(events@),
            finding_views(findings@) == found_by(rules@.take(i as int), events@),
        decreases rules@.len() - i,
    {
        assert(registry()[i as int].accepts(events@));
        let mut more = rules[i].check(events);
        let ghost (before, added) = (findings@, more@);
        findings.append(&mut more);
        proof {
            assert(rules@.take(i + 1).drop_last() =~= rules@.take(i as int));
            assert(finding_views(findings@) =~= finding_views(before) + finding_views(added));
        }
        i = i + 1;
    }
    assert(rules@.take(rules@.len() as int) =~= rules@);
    let session_short: Option<String> = if events.len() == 0 {
        None
    } else {
        Some(leading_text(events[0].session_id))
    };
    Report { findings, session_short, event_count: events.len() }
}

/// The findings on a session with known metadata: those of the rules, with a
/// crash and a kill in front of them.
pub open spec fn session_findings(
    meta: SessionMetadata,
    events: Seq<Event>,
    dirs: Seq<Vec<ReportFile>>,
    now: u64,
) -> Seq<FindingView> {
    let window = window_of(meta, events, now);
    let found = found_by(registry(), events);
    let crashed = match crash_of(meta, window, dirs) {
        Some(f) => seq![f] + found,
        None => found,
    };
    with_jetsam(crashed, meta, window, events, all_files(dirs))
}

/// The report on a session: the rules, and what the diagnostic reports in `dirs`
/// say of a crash or a kill.
///
/// A report is named after the session that is analyzed. The events of a
/// post-mortem session carry the name of the session that took them in.
pub fn analyze_session(
    meta: Option<&SessionMetadata>,
    events: &[Event],
    dirs: &[Vec<ReportFile>],
    now_ns: u64,
) -> (report: Report)
    requires
        analyzable(events@),
    ensures
        report.found() == match meta {
            Some(m) => session_findings(*m, events@, dirs@, now_ns),
            None => found_by(registry(), events@),
        },
        opt_view(report.session_short) == match meta {
            Some(m) => Some(trailing(m.session_id)),
            None => first_session(events@),
        },
        report.event_count == events@.len(),
{
    let mut report = analyze(events);
    if let Some(m) = meta {
        report.session_short = Some(short(m.session_id));
        join_crash(&mut report, m, events, dirs, now_ns);
        join_jetsam(&mut report, m, events, dirs, now_ns);
    }
    report
}

/// Where a crash was joined, the report on the session opens with a root cause.
pub proof fn crash_is_a_root_cause(
    meta: SessionMetadata,
    events: Seq<Event>,
    dirs: Seq<Vec<ReportFile>>,
    now: u64,
)
    requires
        crash_of(meta, window_of(meta, events, now), dirs) is Some,
    ensures
        session_findings(meta, events, dirs, now).len() > 0,
        session_findings(meta, events, dirs, now)[0].category
            == crate::finding::Category::RootCause,
{
}

} // verus!
