//! The live event stream: gaps in it, and who wants which event.

use crate::event::{Event, Uuid};
use crate::ids::{hyphenated, hyphenated_text};
use crate::text::{dec, opt_view, push_dec};
use std::collections::HashMap;
use vstd::prelude::*;

verus! {

broadcast use {
    vstd::std_specs::hash::group_hash_axioms,
    vstd::string::group_string_axioms,
};

/// A gap in the numbering of a session: events were dropped upstream.
#[derive(Debug, Clone, Copy, PartialEq, Eq, Structural)]
pub struct Gap {
    pub session_id: Uuid,
    pub expected: u64,
    pub got: u64,
}

/// The last number seen of each session.
pub struct SeqTracker {
    last: HashMap<u128, u64>,
}

impl View for SeqTracker {
    type V = Map<u128, u64>;

    closed spec fn view(&self) -> Map<u128, u64> {
        self.last@
    }
}

/// What is remembered after an event: its number, unless a later one was seen.
pub open spec fn remembered(last: Map<u128, u64>, e: Event) -> Map<u128, u64> {
    if last.contains_key(e.session_id.0) && e.seq <= last[e.session_id.0] {
        last
    } else {
        last.insert(e.session_id.0, e.seq)
    }
}

/// The gap in front of an event. The first event of a session has none, since
/// the stream is joined midway; neither has an event that is no news.
pub open spec fn gap_before(last: Map<u128, u64>, e: Event) -> Option<Gap> {
    if last.contains_key(e.session_id.0) && e.seq > last[e.session_id.0] + 1 {
        Some(
            Gap {
                session_id: e.session_id,
                expected: (last[e.session_id.0] + 1) as u64,
                got: e.seq,
            },
        )
    } else {
        None
    }
}

impl Default for SeqTracker {
    fn default() -> (t: Self)
        ensures
            t@ == Map::<u128, u64>::empty(),
    {
        SeqTracker { last: HashMap::new() }
    }
}

impl SeqTracker {
    /// Takes note of an event, and tells the gap in front of it.
    pub fn observe(&mut self, ev: &Event) -> (r: Option<Gap>)
        ensures
            final(self)@ == remembered(old(self)@, *ev),
            r == gap_before(old(self)@, *ev),
    {
        let id: u128 = ev.session_id.0;
        let prev: Option<u64> = match self.last.get(&id) {
            Some(p) => Some(*p),
            None => None,
        };
        match prev {
            None => {
                self.last.insert(id, ev.seq);
                None
            },
            Some(p) => if ev.seq <= p {
                None
            } else {
                self.last.insert(id, ev.seq);
                if ev.seq > p + 1 {
                    Some(Gap { session_id: ev.session_id, expected: p + 1, got: ev.seq })
                } else {
                    None
                }
            },
        }
    }
}

/// A gap as a line of JSON.
pub open spec fn gap_text(g: Gap) -> Seq<char> {
    "{\"_smeltr_tail\":\"gap\",\"session_id\":\""@ + hyphenated(g.session_id) + "\",\"expected\":"@
        + dec(g.expected as int) + ",\"got\":"@ + dec(g.got as int) + ",\"skipped\":"@ + dec(
        g.got - g.expected,
    ) + "}"@
}

/// A gap as a line of JSON.
pub fn gap_line(gap: &Gap) -> (s: String)
    requires
        gap.expected <= gap.got,
    ensures
        s@ == gap_text(*gap),
{
    let mut s = "{\"_smeltr_tail\":\"gap\",\"session_id\":\"".to_owned();
    s.append(hyphenated_text(gap.session_id).as_str());
    s.append("\",\"expected\":");
    push_dec(&mut s, gap.expected);
    s.append(",\"got\":");
    push_dec(&mut s, gap.got);
    s.append(",\"skipped\":");
    push_dec(&mut s, gap.got - gap.expected);
    s.append("}");
    s
}

/// Is the event of the session that is wanted?
pub fn passes(ev: &Event, want_session: Option<Uuid>) -> (b: bool)
    ensures
        b == match want_session {
            Some(id) => ev.session_id == id,
            None => true,
        },
{
    match want_session {
        None => true,
        Some(id) => ev.session_id == id,
    }
}

/// A gap is told exactly where numbers are missing, and skips at least one.
/// What is remembered of a session never goes back.
pub proof fn gaps_skip_and_memory_advances(last: Map<u128, u64>, e: Event)
    ensures
        gap_before(last, e) matches Some(g) ==> g.expected < g.got,
        last.contains_key(e.session_id.0) ==> last[e.session_id.0] <= remembered(
            last,
            e,
        )[e.session_id.0],
        remembered(last, e)[e.session_id.0] >= e.seq,
{
}

/// Events of one session never open or hide a gap of another.
pub proof fn sessions_are_tracked_apart(last: Map<u128, u64>, e: Event, f: Event)
    requires
        e.session_id != f.session_id,
    ensures
        gap_before(remembered(last, e), f) == gap_before(last, f),
{
    assert(e.session_id.0 != f.session_id.0);
}

/// What is printed for an event.
#[derive(Debug, Clone, PartialEq, Eq)]
pub enum Printed {
    /// Nothing: it is of another session.
    Skipped,
    /// The event, behind the line of a gap where there is one.
    Event(Option<String>),
}

/// What is printed for an event, and what is remembered of it. Events of other
/// sessions leave no trace.
pub fn follow(tracker: &mut SeqTracker, ev: &Event, want_session: Option<Uuid>) -> (p: Printed)
    ensures
        match p {
            Printed::Skipped => want_session is Some && want_session != Some(ev.session_id)
                && final(tracker)@ == old(tracker)@,
            Printed::Event(line) => {
                &&& want_session is None || want_session == Some(ev.session_id)
                &&& final(tracker)@ == remembered(old(tracker)@, *ev)
                &&& opt_view(line) == match gap_before(old(tracker)@, *ev) {
                    Some(g) => Some(gap_text(g)),
                    None => None,
                }
            },
        },
{
    if !passes(ev, want_session) {
        return Printed::Skipped;
    }
    match tracker.observe(ev) {
        Some(gap) => Printed::Event(Some(gap_line(&gap))),
        None => Printed::Event(None),
    }
}

} // verus!
