//! Footprint samples, added up by process.

use crate::event::{lemma_prefix_step, Event, Payload};
use crate::sort::{ordered, rank, sort, Ranked};
use std::collections::HashMap;
use vstd::prelude::*;

verus! {

broadcast use {
    vstd::std_specs::hash::group_hash_axioms,
    vstd::string::group_string_axioms,
};

/// The footprint of one process of the traced tree, over the whole session.
#[derive(Debug, Clone, PartialEq, Eq)]
pub struct ProcFootprintSummary {
    pub pid: u32,
    pub name: String,
    /// Largest footprint the probe observed.
    pub peak_bytes: u64,
    /// Largest lifetime maximum the kernel reported. It can exceed
    /// `peak_bytes` when a spike fell between two samples.
    pub lifetime_max_bytes: u64,
    pub is_traced_root: bool,
    pub sample_count: usize,
}

/// The view of a [`ProcFootprintSummary`].
pub ghost struct FootprintView {
    pub pid: u32,
    pub name: Seq<char>,
    pub peak_bytes: u64,
    pub lifetime_max_bytes: u64,
    pub is_traced_root: bool,
    pub sample_count: nat,
}

impl View for ProcFootprintSummary {
    type V = FootprintView;

    open spec fn view(&self) -> FootprintView {
        FootprintView {
            pid: self.pid,
            name: self.name@,
            peak_bytes: self.peak_bytes,
            lifetime_max_bytes: self.lifetime_max_bytes,
            is_traced_root: self.is_traced_root,
            sample_count: self.sample_count as nat,
        }
    }
}

/// The views of a list of processes.
pub open spec fn footprint_views(s: Seq<ProcFootprintSummary>) -> Seq<FootprintView> {
    s.map_values(|p: ProcFootprintSummary| p@)
}

impl Ranked for ProcFootprintSummary {
    open spec fn before(self, other: Self) -> bool {
        self.peak_bytes > other.peak_bytes || (self.peak_bytes == other.peak_bytes && self.pid
            < other.pid)
    }

    fn comes_before(&self, other: &Self) -> (b: bool) {
        self.peak_bytes > other.peak_bytes || (self.peak_bytes == other.peak_bytes && self.pid
            < other.pid)
    }
}

/// Processes by peak, largest first, then by pid.
pub open spec fn by_peak() -> spec_fn(FootprintView, FootprintView) -> bool {
    |a: FootprintView, b: FootprintView|
        a.peak_bytes > b.peak_bytes || (a.peak_bytes == b.peak_bytes && a.pid < b.pid)
}

/// The larger of two numbers.
pub open spec fn larger(a: u64, b: u64) -> u64 {
    if a >= b {
        a
    } else {
        b
    }
}

/// Where the row of `pid` stands.
pub open spec fn pid_row(rows: Seq<FootprintView>, pid: u32) -> Option<int>
    decreases rows.len(),
{
    if rows.len() == 0 {
        None
    } else if pid_row(rows.drop_last(), pid) is Some {
        pid_row(rows.drop_last(), pid)
    } else if rows.last().pid == pid {
        Some(rows.len() - 1)
    } else {
        None
    }
}

/// One event more. The first sample of a process names it and says whether it
/// is the traced one.
pub open spec fn footprint_step(rows: Seq<FootprintView>, e: Event) -> Seq<FootprintView> {
    match e.payload {
        Payload::ProcFootprint {
            pid,
            name,
            phys_footprint_bytes,
            lifetime_max_phys_footprint_bytes,
            is_traced_root,
        } => match pid_row(rows, pid) {
            Some(i) => rows.update(
                i,
                FootprintView {
                    pid,
                    name: rows[i].name,
                    peak_bytes: larger(rows[i].peak_bytes, phys_footprint_bytes),
                    lifetime_max_bytes: larger(
                        rows[i].lifetime_max_bytes,
                        lifetime_max_phys_footprint_bytes,
                    ),
                    is_traced_root: rows[i].is_traced_root,
                    sample_count: rows[i].sample_count + 1,
                },
            ),
            None => rows.push(
                FootprintView {
                    pid,
                    name: name@,
                    peak_bytes: phys_footprint_bytes,
                    lifetime_max_bytes: lifetime_max_phys_footprint_bytes,
                    is_traced_root,
                    sample_count: 1,
                },
            ),
        },
        _ => rows,
    }
}

/// One row per process, in the order of their first samples.
pub open spec fn footprint_rows(events: Seq<Event>) -> Seq<FootprintView>
    decreases events.len(),
{
    if events.len() == 0 {
        seq![]
    } else {
        footprint_step(footprint_rows(events.drop_last()), events.last())
    }
}

/// The footprint of every process, largest first.
pub open spec fn footprints_of(events: Seq<Event>) -> Seq<FootprintView> {
    ordered(footprint_rows(events), by_peak())
}

pub proof fn lemma_pid_row(rows: Seq<FootprintView>, pid: u32)
    ensures
        match pid_row(rows, pid) {
            Some(i) => 0 <= i < rows.len() && rows[i].pid == pid && forall|j: int|
                0 <= j < i ==> (#[trigger] rows[j]).pid != pid,
            None => forall|j: int| 0 <= j < rows.len() ==> (#[trigger] rows[j]).pid != pid,
        },
    decreases rows.len(),
{
    if rows.len() > 0 {
        let rest = rows.drop_last();
        lemma_pid_row(rest, pid);
        assert forall|j: int| 0 <= j < rest.len() implies rest[j] == #[trigger] rows[j] by {}
    }
}

spec fn index_knows(index: Map<u32, usize>, rows: Seq<FootprintView>) -> bool {
    &&& forall|i: int|
        0 <= i < rows.len() ==> index.contains_key((#[trigger] rows[i]).pid)
            && index[rows[i].pid] == i
    &&& forall|pid: u32| #[trigger]
        index.contains_key(pid) ==> index[pid] < rows.len() && rows[index[pid] as int].pid == pid
}

/// Adds up the footprint samples by process, largest peak first.
pub fn compute_footprint_summary(events: &[Event]) -> (r: Vec<ProcFootprintSummary>)
    ensures
        footprint_views(r@) == footprints_of(events@),
{
    let mut rows: Vec<ProcFootprintSummary> = Vec::new();
    let mut index: HashMap<u32, usize> = HashMap::new();
    let mut i: usize = 0;
    assert(footprint_views(rows@) =~= Seq::<FootprintView>::empty());
    while i < events.len()
        invariant
            i <= events@.len(),
            footprint_views(rows@) == footprint_rows(events@.take(i as int)),
            index_knows(index@, footprint_views(rows@)),
            forall|k: int| 0 <= k < rows@.len() ==> (#[trigger] rows@[k]).sample_count <= i,
        decreases events@.len() - i,
    {
        proof {
            lemma_prefix_step(events@, i as int);
        }
        let ghost before = footprint_views(rows@);
        let ghost was = rows@;
        if let Payload::ProcFootprint {
            pid,
            name,
            phys_footprint_bytes,
            lifetime_max_phys_footprint_bytes,
            is_traced_root,
        } = &events[i].payload {
            proof {
                lemma_pid_row(before, *pid);
            }
            match index.get(pid) {
                Some(k) => {
                    let k: usize = *k;
                    proof {
                        let m = pid_row(before, *pid)->0;
                        assert(index@[before[m].pid] == m);
                        assert(before[k as int] == was[k as int]@);
                        assert(was[k as int].sample_count <= i);
                    }
                    if *phys_footprint_bytes > rows[k].peak_bytes {
                        rows[k].peak_bytes = *phys_footprint_bytes;
                    }
                    if *lifetime_max_phys_footprint_bytes > rows[k].lifetime_max_bytes {
                        rows[k].lifetime_max_bytes = *lifetime_max_phys_footprint_bytes;
                    }
                    rows[k].sample_count = rows[k].sample_count + 1;
                    proof {
                        assert(footprint_views(rows@) =~= before.update(
                            k as int,
                            rows@[k as int]@,
                        ));
                    }
                },
                None => {
                    let row = ProcFootprintSummary {
                        pid: *pid,
                        name: name.clone(),
                        peak_bytes: *phys_footprint_bytes,
                        lifetime_max_bytes: *lifetime_max_phys_footprint_bytes,
                        is_traced_root: *is_traced_root,
                        sample_count: 1,
                    };
                    index.insert(*pid, rows.len());
                    rows.push(row);
                    assert(footprint_views(rows@) =~= before.push(row@));
                },
            }
        }
        i = i + 1;
    }
    assert(events@.take(events@.len() as int) =~= events@);
    proof {
        crate::sort::lemma_ordered_map(
            rows@,
            |p: ProcFootprintSummary| p@,
            rank::<ProcFootprintSummary>(),
            by_peak(),
        );
    }
    sort(&mut rows);
    rows
}

} // verus!
