//! Gauges that run while a scope is open, and for the grace after it closed.

use crate::event::{lemma_prefix_step, Event, Payload};
use crate::peaks::{larger_kept, Largest, Sized64};
use crate::windows::{graced, last_position, ASYNC_GRACE_NS};
use vstd::prelude::*;

verus! {

broadcast use vstd::string::group_string_axioms;

/// What a gauge shows in the end.
#[derive(Debug, Clone, Copy, PartialEq, Eq, Structural)]
pub struct Reading {
    pub peak: u64,
    pub avg: u64,
    pub end: u64,
    pub count: u64,
}

impl Sized64 for Reading {
    open spec fn size_of(self) -> u64 {
        self.peak
    }

    fn size(&self) -> (n: u64) {
        self.peak
    }
}

/// Something that is fed pairs of numbers.
pub trait Gauge: Sized {
    /// A gauge that was fed nothing.
    spec fn fresh() -> Self;

    /// The gauge, fed once more.
    spec fn fed(self, a: u64, b: u64) -> Self;

    /// What it shows.
    spec fn shown(self) -> Reading;

    /// It was fed no more than `n` times.
    spec fn within(self, n: nat) -> bool;

    proof fn lemma_within(self, a: u64, b: u64, n: nat)
        ensures
            Self::fresh().within(n),
            self.within(n) && n < u64::MAX ==> self.fed(a, b).within(n + 1),
            self.within(n) ==> self.within(n + 1),
    ;

    fn start() -> (g: Self)
        ensures
            g == Self::fresh(),
    ;

    fn feed(&mut self, a: u64, b: u64)
        requires
            old(self).within((u64::MAX - 1) as nat),
        ensures
            *final(self) == old(self).fed(a, b),
    ;

    fn show(&self) -> (r: Reading)
        requires
            self.within(u64::MAX as nat),
        ensures
            r == self.shown(),
    ;
}

/// An open scope with its gauge.
pub struct Running<G> {
    pub id: u64,
    pub qualname: String,
    pub gauge: G,
}

/// The view of a [`Running`] scope.
pub ghost struct RunningView<G> {
    pub id: u64,
    pub qualname: Seq<char>,
    pub gauge: G,
}

impl<G> View for Running<G> {
    type V = RunningView<G>;

    open spec fn view(&self) -> RunningView<G> {
        RunningView { id: self.id, qualname: self.qualname@, gauge: self.gauge }
    }
}

/// A closed scope whose gauge still runs until the deadline.
pub struct Draining<G> {
    pub qualname: String,
    pub gauge: G,
    pub deadline_ns: u64,
}

/// The view of a [`Draining`] scope.
pub ghost struct DrainingView<G> {
    pub qualname: Seq<char>,
    pub gauge: G,
    pub deadline_ns: u64,
}

impl<G> View for Draining<G> {
    type V = DrainingView<G>;

    open spec fn view(&self) -> DrainingView<G> {
        DrainingView {
            qualname: self.qualname@,
            gauge: self.gauge,
            deadline_ns: self.deadline_ns,
        }
    }
}

/// The views of open scopes.
pub open spec fn running_views<G>(s: Seq<Running<G>>) -> Seq<RunningView<G>> {
    s.map_values(|r: Running<G>| r@)
}

/// The views of closed scopes.
pub open spec fn draining_views<G>(s: Seq<Draining<G>>) -> Seq<DrainingView<G>> {
    s.map_values(|r: Draining<G>| r@)
}

/// All gauges at one point of the stream.
pub ghost struct Board<G> {
    /// Open scopes, outermost first.
    pub open: Seq<RunningView<G>>,
    /// Closed scopes within their grace.
    pub draining: Seq<DrainingView<G>>,
    /// The largest reading under each name.
    pub rows: Seq<(Seq<char>, Reading)>,
}

/// `s` without element `i`, the last element in its place.
pub open spec fn swap_removed<A>(s: Seq<A>, i: int) -> Seq<A> {
    if i == s.len() - 1 {
        s.drop_last()
    } else {
        s.update(i, s.last()).drop_last()
    }
}

/// Takes down every gauge whose deadline has passed, from position `i` on.
pub open spec fn expired<G: Gauge>(
    draining: Seq<DrainingView<G>>,
    rows: Seq<(Seq<char>, Reading)>,
    i: int,
    now: u64,
) -> (Seq<DrainingView<G>>, Seq<(Seq<char>, Reading)>)
    decreases draining.len() - i,
{
    if i < 0 || i >= draining.len() {
        (draining, rows)
    } else if draining[i].deadline_ns < now {
        expired(
            swap_removed(draining, i),
            larger_kept(rows, draining[i].qualname, draining[i].gauge.shown()),
            i,
            now,
        )
    } else {
        expired(draining, rows, i + 1, now)
    }
}

/// The ids of open scopes.
pub open spec fn open_ids<G>(s: Seq<RunningView<G>>) -> Seq<u64> {
    s.map_values(|r: RunningView<G>| r.id)
}

/// Open scopes after a scope was entered or left.
pub open spec fn moved<G: Gauge>(b: Board<G>, e: Event) -> Board<G> {
    match e.payload {
        Payload::ModuleEntered { module_call_id, qualname, .. } => Board {
            open: b.open.push(
                RunningView { id: module_call_id, qualname: qualname@, gauge: G::fresh() },
            ),
            draining: b.draining,
            rows: b.rows,
        },
        Payload::ModuleReturned { module_call_id } => match last_position(
            open_ids(b.open),
            module_call_id,
        ) {
            Some(p) => Board {
                open: b.open.remove(p),
                draining: b.draining.push(
                    DrainingView {
                        qualname: b.open[p].qualname,
                        gauge: b.open[p].gauge,
                        deadline_ns: graced(e.ts_mono_ns),
                    },
                ),
                rows: b.rows,
            },
            None => b,
        },
        _ => b,
    }
}

/// Every running gauge fed once more.
pub open spec fn fed_all<G: Gauge>(b: Board<G>, a: u64, c: u64, now: u64) -> Board<G> {
    Board {
        open: b.open.map_values(
            |r: RunningView<G>|
                RunningView { id: r.id, qualname: r.qualname, gauge: r.gauge.fed(a, c) },
        ),
        draining: b.draining.map_values(
            |d: DrainingView<G>|
                DrainingView {
                    qualname: d.qualname,
                    gauge: if now <= d.deadline_ns {
                        d.gauge.fed(a, c)
                    } else {
                        d.gauge
                    },
                    deadline_ns: d.deadline_ns,
                },
        ),
        rows: b.rows,
    }
}

/// The board after the last of `events`. `feed` says what a prefix of the
/// stream feeds to the gauges.
pub open spec fn board<G: Gauge>(
    events: Seq<Event>,
    feed: spec_fn(Seq<Event>) -> Option<(u64, u64)>,
) -> Board<G>
    decreases events.len(),
{
    if events.len() == 0 {
        Board { open: Seq::empty(), draining: Seq::empty(), rows: Seq::empty() }
    } else {
        let b: Board<G> = board(events.drop_last(), feed);
        let e = events.last();
        let swept = expired(b.draining, b.rows, 0, e.ts_mono_ns);
        let m = moved(Board { open: b.open, draining: swept.0, rows: swept.1 }, e);
        match feed(events) {
            Some(x) => fed_all(m, x.0, x.1, e.ts_mono_ns),
            None => m,
        }
    }
}

/// The readings of the first `n` closed scopes, taken in.
pub open spec fn drained<G: Gauge>(
    draining: Seq<DrainingView<G>>,
    rows: Seq<(Seq<char>, Reading)>,
    n: int,
) -> Seq<(Seq<char>, Reading)>
    decreases n,
{
    if n <= 0 || n > draining.len() {
        rows
    } else {
        larger_kept(
            drained(draining, rows, n - 1),
            draining[n - 1].qualname,
            draining[n - 1].gauge.shown(),
        )
    }
}

/// The readings of the first `n` open scopes, taken in.
pub open spec fn closed_all<G: Gauge>(
    open: Seq<RunningView<G>>,
    rows: Seq<(Seq<char>, Reading)>,
    n: int,
) -> Seq<(Seq<char>, Reading)>
    decreases n,
{
    if n <= 0 || n > open.len() {
        rows
    } else {
        larger_kept(
            closed_all(open, rows, n - 1),
            open[n - 1].qualname,
            open[n - 1].gauge.shown(),
        )
    }
}

/// The largest reading under each name, at the end of the stream.
pub open spec fn readings<G: Gauge>(b: Board<G>) -> Seq<(Seq<char>, Reading)> {
    closed_all(
        b.open,
        drained(b.draining, b.rows, b.draining.len() as int),
        b.open.len() as int,
    )
}

/// Gauges on scopes, moved along the stream.
#[verifier::reject_recursive_types(G)]
pub struct Gauges<G> {
    open: Vec<Running<G>>,
    draining: Vec<Draining<G>>,
    rows: Largest<Reading>,
}

impl<G: Gauge> Gauges<G> {
    /// All gauges as a value.
    pub closed spec fn board(&self) -> Board<G> {
        Board {
            open: running_views(self.open@),
            draining: draining_views(self.draining@),
            rows: self.rows@,
        }
    }

    /// No gauge was fed more than `n` times.
    pub closed spec fn within(&self, n: nat) -> bool {
        &&& self.rows.wf()
        &&& forall|i: int| 0 <= i < self.open@.len() ==> (#[trigger] self.open@[i]).gauge.within(n)
        &&& forall|i: int|
            0 <= i < self.draining@.len() ==> (#[trigger] self.draining@[i]).gauge.within(n)
    }

    /// No gauges yet.
    pub fn new() -> (r: Self)
        ensures
            r.within(0),
            r.board() == (Board::<G> {
                open: Seq::empty(),
                draining: Seq::empty(),
                rows: Seq::empty(),
            }),
    {
        let r = Gauges { open: Vec::new(), draining: Vec::new(), rows: Largest::new() };
        assert(r.board().open =~= Seq::<RunningView<G>>::empty());
        assert(r.board().draining =~= Seq::<DrainingView<G>>::empty());
        r
    }

    /// Takes down every gauge whose deadline has passed.
    fn sweep(&mut self, now: u64, Ghost(n): Ghost<nat>)
        requires
            old(self).within(n),
            n <= u64::MAX,
        ensures
            final(self).within(n),
            final(self).board() == ({
                let b = old(self).board();
                let swept = expired(b.draining, b.rows, 0, now);
                Board { open: b.open, draining: swept.0, rows: swept.1 }
            }),
    {
        let ghost b = self.board();
        let ghost open = self.open@;
        let mut i: usize = 0;
        while i < self.draining.len()
            invariant
                i <= self.draining@.len(),
                self.open@ == open,
                self.within(n),
                n <= u64::MAX,
                expired(b.draining, b.rows, 0, now) == expired(
                    draining_views(self.draining@),
                    self.rows@,
                    i as int,
                    now,
                ),
            decreases self.draining@.len() - i,
        {
            let ghost before = self.draining@;
            assert(draining_views(before)[i as int] == before[i as int]@);
            if self.draining[i].deadline_ns < now {
                let d = self.draining.swap_remove(i);
                proof {
                    d.gauge.lemma_within(0, 0, n);
                    assert(draining_views(self.draining@) =~= swap_removed(
                        draining_views(before),
                        i as int,
                    ));
                    assert forall|k: int| 0 <= k < self.draining@.len() implies (
                    #[trigger] self.draining@[k]).gauge.within(n) by {
                        if k == i {
                            assert(self.draining@[k] == before[before.len() - 1]);
                        } else {
                            assert(self.draining@[k] == before[k]);
                        }
                    }
                    lemma_within_up(d.gauge, n, u64::MAX as nat);
                }
                let reading = d.gauge.show();
                self.rows.put(d.qualname.as_str(), reading);
            } else {
                i = i + 1;
            }
        }
    }

    /// Opens or closes a scope.
    fn step(&mut self, e: &Event, Ghost(n): Ghost<nat>)
        requires
            old(self).within(n),
        ensures
            final(self).within(n),
            final(self).board() == moved(old(self).board(), *e),
    {
        let ghost b = self.board();
        match &e.payload {
            Payload::ModuleEntered { module_call_id, qualname, .. } => {
                let g = G::start();
                proof {
                    g.lemma_within(0, 0, n);
                }
                let r = Running { id: *module_call_id, qualname: qualname.clone(), gauge: g };
                self.open.push(r);
                assert(self.board().open =~= b.open.push(r@));
            },
            Payload::ModuleReturned { module_call_id } => {
                let ghost ids = open_ids(b.open);
                let mut i: usize = self.open.len();
                assert(ids.take(i as int) =~= ids);
                while i > 0 && self.open[i - 1].id != *module_call_id
                    invariant
                        i <= self.open@.len(),
                        b == self.board(),
                        ids == open_ids(running_views(self.open@)),
                        last_position(ids, *module_call_id) == last_position(
                            ids.take(i as int),
                            *module_call_id,
                        ),
                    decreases i,
                {
                    assert(ids[i - 1] == self.open@[i - 1].id);
                    assert(ids.take(i as int).drop_last() =~= ids.take(i - 1));
                    i = i - 1;
                }
                if i > 0 {
                    assert(ids[i - 1] == self.open@[i - 1].id);
                    assert(last_position(ids, *module_call_id) == Some(i - 1));
                    let ghost before = self.open@;
                    let ghost was = self.draining@;
                    let r = self.open.remove(i - 1);
                    let d = Draining {
                        qualname: r.qualname,
                        gauge: r.gauge,
                        deadline_ns: e.ts_mono_ns.saturating_add(ASYNC_GRACE_NS),
                    };
                    self.draining.push(d);
                    proof {
                        assert(self.board().open =~= b.open.remove(i - 1));
                        assert(self.board().draining =~= b.draining.push(d@));
                        assert forall|k: int| 0 <= k < self.open@.len() implies (
                        #[trigger] self.open@[k]).gauge.within(n) by {
                            if k < i - 1 {
                                assert(self.open@[k] == before[k]);
                            } else {
                                assert(self.open@[k] == before[k + 1]);
                            }
                        }
                        assert forall|k: int| 0 <= k < self.draining@.len() implies (
                        #[trigger] self.draining@[k]).gauge.within(n) by {
                            if k < was.len() {
                                assert(self.draining@[k] == was[k]);
                            } else {
                                assert(before[i - 1].gauge.within(n));
                            }
                        }
                    }
                }
            },
            _ => {},
        }
    }

    /// Feeds every running gauge.
    fn feed(&mut self, a: u64, c: u64, now: u64, Ghost(n): Ghost<nat>)
        requires
            old(self).within(n),
            n < u64::MAX,
        ensures
            final(self).within(n + 1),
            final(self).board() == fed_all(old(self).board(), a, c, now),
    {
        let ghost b = self.board();
        let ghost open = self.open@;
        let ghost draining = self.draining@;
        let mut i: usize = 0;
        while i < self.open.len()
            invariant
                i <= self.open@.len() == open.len(),
                self.draining@ == draining,
                self.rows@ == b.rows,
                self.rows.wf(),
                n < u64::MAX,
                forall|k: int| 0 <= k < open.len() ==> (#[trigger] open[k]).gauge.within(n),
                forall|k: int|
                    0 <= k < i ==> {
                        &&& (#[trigger] self.open@[k]).id == open[k].id
                        &&& self.open@[k].qualname == open[k].qualname
                        &&& self.open@[k].gauge == open[k].gauge.fed(a, c)
                    },
                forall|k: int| i <= k < open.len() ==> self.open@[k] == open[k],
            decreases open.len() - i,
        {
            proof {
                assert(open[i as int].gauge.within(n));
                lemma_within_up(open[i as int].gauge, n, (u64::MAX - 1) as nat);
            }
            self.open[i].gauge.feed(a, c);
            i = i + 1;
        }
        let mut j: usize = 0;
        let ghost fed = self.open@;
        while j < self.draining.len()
            invariant
                j <= self.draining@.len() == draining.len(),
                self.open@ == fed,
                self.rows@ == b.rows,
                self.rows.wf(),
                n < u64::MAX,
                forall|k: int| 0 <= k < draining.len() ==> (#[trigger] draining[k]).gauge.within(n),
                forall|k: int|
                    0 <= k < j ==> {
                        &&& (#[trigger] self.draining@[k]).qualname == draining[k].qualname
                        &&& self.draining@[k].deadline_ns == draining[k].deadline_ns
                        &&& self.draining@[k].gauge == if now <= draining[k].deadline_ns {
                            draining[k].gauge.fed(a, c)
                        } else {
                            draining[k].gauge
                        }
                    },
                forall|k: int| j <= k < draining.len() ==> self.draining@[k] == draining[k],
            decreases draining.len() - j,
        {
            proof {
                assert(draining[j as int].gauge.within(n));
                lemma_within_up(draining[j as int].gauge, n, (u64::MAX - 1) as nat);
            }
            if now <= self.draining[j].deadline_ns {
                self.draining[j].gauge.feed(a, c);
            }
            j = j + 1;
        }
        proof {
            let t = fed_all(b, a, c, now);
            assert(self.board().open =~= t.open);
            assert(self.board().draining =~= t.draining);
            assert forall|k: int| 0 <= k < self.open@.len() implies (
            #[trigger] self.open@[k]).gauge.within(n + 1) by {
                open[k].gauge.lemma_within(a, c, n);
            }
            assert forall|k: int| 0 <= k < self.draining@.len() implies (
            #[trigger] self.draining@[k]).gauge.within(n + 1) by {
                draining[k].gauge.lemma_within(a, c, n);
            }
        }
    }

    /// Moves on by the event `events[i]`, which feeds `x`.
    pub fn advance(
        &mut self,
        events: &[Event],
        i: usize,
        x: Option<(u64, u64)>,
        Ghost(feed): Ghost<spec_fn(Seq<Event>) -> Option<(u64, u64)>>,
    )
        requires
            i < events@.len(),
            old(self).within(i as nat),
            old(self).board() == board::<G>(events@.take(i as int), feed),
            x == feed(events@.take(i + 1)),
        ensures
            final(self).within((i + 1) as nat),
            final(self).board() == board::<G>(events@.take(i + 1), feed),
    {
        let e = &events[i];
        proof {
            lemma_prefix_step(events@, i as int);
        }
        let n: usize = events.len();
        self.sweep(e.ts_mono_ns, Ghost(i as nat));
        self.step(e, Ghost(i as nat));
        match x {
            Some((a, c)) => self.feed(a, c, e.ts_mono_ns, Ghost(i as nat)),
            None => {
                proof {
                    assert forall|k: int| 0 <= k < self.open@.len() implies (
                    #[trigger] self.open@[k]).gauge.within((i + 1) as nat) by {
                        self.open@[k].gauge.lemma_within(0, 0, i as nat);
                    }
                    assert forall|k: int| 0 <= k < self.draining@.len() implies (
                    #[trigger] self.draining@[k]).gauge.within((i + 1) as nat) by {
                        self.draining@[k].gauge.lemma_within(0, 0, i as nat);
                    }
                }
            },
        }
    }

    /// Takes down all gauges and gives the largest reading under each name.
    pub fn finish(self, Ghost(n): Ghost<nat>) -> (r: Vec<(String, Reading)>)
        requires
            self.within(n),
            n <= u64::MAX,
        ensures
            crate::peaks::named_views(r@) == readings(self.board()),
    {
        let ghost b = self.board();
        let open = self.open;
        let draining = self.draining;
        let mut rows = self.rows;
        let mut i: usize = 0;
        while i < draining.len()
            invariant
                i <= draining@.len(),
                b.draining == draining_views(draining@),
                rows.wf(),
                n <= u64::MAX,
                forall|k: int| 0 <= k < draining@.len() ==> (#[trigger] draining@[k]).gauge.within(n),
                rows@ == drained(b.draining, b.rows, i as int),
            decreases draining@.len() - i,
        {
            proof {
                assert(b.draining[i as int] == draining@[i as int]@);
                assert(draining@[i as int].gauge.within(n));
                lemma_within_up(draining@[i as int].gauge, n, u64::MAX as nat);
            }
            let reading = draining[i].gauge.show();
            rows.put(draining[i].qualname.as_str(), reading);
            i = i + 1;
        }
        let ghost settled = rows@;
        let mut j: usize = 0;
        while j < open.len()
            invariant
                j <= open@.len(),
                b.open == running_views(open@),
                rows.wf(),
                n <= u64::MAX,
                forall|k: int| 0 <= k < open@.len() ==> (#[trigger] open@[k]).gauge.within(n),
                rows@ == closed_all(b.open, settled, j as int),
            decreases open@.len() - j,
        {
            proof {
                assert(b.open[j as int] == open@[j as int]@);
                assert(open@[j as int].gauge.within(n));
                lemma_within_up(open@[j as int].gauge, n, u64::MAX as nat);
            }
            let reading = open[j].gauge.show();
            rows.put(open[j].qualname.as_str(), reading);
            j = j + 1;
        }
        rows.into_rows()
    }
}

/// A gauge fed no more than `n` times was fed no more than `m` times.
proof fn lemma_within_up<G: Gauge>(g: G, n: nat, m: nat)
    requires
        g.within(n),
        n <= m,
    ensures
        g.within(m),
    decreases m - n,
{
    if n < m {
        g.lemma_within(0, 0, n);
        lemma_within_up(g, n + 1, m);
    }
}

} // verus!
