//! What changed between two sessions, per scope, per kind of kernel and per
//! origin.

use crate::breakdown::{
    can_compute, compute, op_rows, root_of, sums_fit, ModuleBreakdown, Node, OpAttribution,
};
use crate::dispatch_origins::{
    compute_dispatch_origins, origin_views, origins_fit, origins_of, try_dispatch_origins,
    OriginView,
};
use crate::double::{
    divide, from_int, hundredfold, lemma_whole_monotone, of_int, over, times, whole, whole_of, Bin,
    Double, HIGH,
};
use crate::event::Event;
use crate::gauges::Reading;
use crate::memory::{compute_memory_breakdown, memory_of, memory_views};
use crate::op_kinds::{kind_of, resolve_kind};
use crate::sort::{ordered, rank, sort, Ranked};
use crate::tally::{lemma_tally_grows, row_views, rows_fit, tallied, Entry, Row, Tally};
use crate::text::{precedes, text_before};
use vstd::prelude::*;

verus! {

broadcast use vstd::string::group_string_axioms;

/// A percentage with a sign. Zero has none.
#[derive(Clone, Copy, Debug, PartialEq, Eq, Structural)]
pub struct Percent {
    pub negative: bool,
    pub magnitude: Double,
}

/// The view of a [`Percent`].
pub ghost struct PercentView {
    pub negative: bool,
    pub magnitude: Bin,
}

impl View for Percent {
    type V = PercentView;

    open spec fn view(&self) -> PercentView {
        PercentView { negative: self.negative, magnitude: self.magnitude@ }
    }
}

/// `a` and `b` differ by this much.
pub open spec fn distance(a: nat, b: nat) -> nat {
    if a < b {
        (b - a) as nat
    } else {
        (a - b) as nat
    }
}

/// The change from `a` to `b` in percent of `a`, rounded as doubles round:
/// `(b - a) / a * 100`. There is none from zero.
pub open spec fn change_pct(a: u64, b: u64) -> Option<PercentView> {
    if a == 0 {
        None
    } else {
        let (x, y) = (whole(a as nat), whole(b as nat));
        Some(
            PercentView {
                negative: y < x,
                magnitude: times(over(of_int(distance(x, y)), of_int(a as nat)), of_int(100)),
            },
        )
    }
}

/// The view of an optional percentage.
pub open spec fn opt_percent(o: Option<Percent>) -> Option<PercentView> {
    match o {
        Some(p) => Some(p@),
        None => None,
    }
}

/// The change from `a` to `b` in percent of `a`.
pub fn pct(a: u64, b: u64) -> (r: Option<Percent>)
    ensures
        opt_percent(r) == change_pct(a, b),
        r matches Some(p) ==> p.magnitude@.moderate(),
{
    if a == 0 {
        return None;
    }
    let (x, y): (u128, u128) = (whole_of(a), whole_of(b));
    let negative: bool = y < x;
    let d: u128 = if negative {
        x - y
    } else {
        y - x
    };
    let magnitude = hundredfold(divide(from_int(d), from_int(a as u128)));
    Some(Percent { negative, magnitude })
}

/// One thing on both sides.
pub ghost struct DeltaView {
    pub name: Seq<char>,
    pub place: Seq<char>,
    pub a: u64,
    pub b: u64,
    pub delta: int,
    pub pct: Option<PercentView>,
}

/// A thing that is `a` on one side and `b` on the other.
pub open spec fn delta_of(name: Seq<char>, place: Seq<char>, a: u64, b: u64) -> DeltaView {
    DeltaView { name, place, a, b, delta: b - a, pct: change_pct(a, b) }
}

/// One thing on one side.
pub ghost struct AmountView {
    pub name: Seq<char>,
    pub place: Seq<char>,
    pub value: u64,
}

/// Where the thing of a name and place stands.
pub open spec fn find(rows: Seq<AmountView>, name: Seq<char>, place: Seq<char>) -> Option<int>
    decreases rows.len(),
{
    if rows.len() == 0 {
        None
    } else {
        match find(rows.drop_last(), name, place) {
            Some(i) => Some(i),
            None => if rows.last().name == name && rows.last().place == place {
                Some(rows.len() - 1)
            } else {
                None
            },
        }
    }
}

/// The value of a thing, zero where it is missing.
pub open spec fn value_of(rows: Seq<AmountView>, name: Seq<char>) -> u64 {
    match find(rows, name, seq![]) {
        Some(i) => rows[i].value,
        None => 0,
    }
}

/// The things on both sides, in the order of the first side.
pub open spec fn shared(a: Seq<AmountView>, b: Seq<AmountView>) -> Seq<DeltaView>
    decreases a.len(),
{
    if a.len() == 0 {
        seq![]
    } else {
        let rest = shared(a.drop_last(), b);
        let x = a.last();
        match find(b, x.name, x.place) {
            Some(i) => rest.push(delta_of(x.name, x.place, x.value, b[i].value)),
            None => rest,
        }
    }
}

/// The things on the first side alone.
pub open spec fn only(a: Seq<AmountView>, b: Seq<AmountView>) -> Seq<AmountView>
    decreases a.len(),
{
    if a.len() == 0 {
        seq![]
    } else if find(b, a.last().name, a.last().place) is Some {
        only(a.drop_last(), b)
    } else {
        only(a.drop_last(), b).push(a.last())
    }
}

/// Changes by their size, largest first.
pub open spec fn by_change() -> spec_fn(DeltaView, DeltaView) -> bool {
    |x: DeltaView, y: DeltaView|
        distance(x.a as nat, x.b as nat) > distance(y.a as nat, y.b as nat)
}

/// Things by their value, largest first.
pub open spec fn by_value() -> spec_fn(AmountView, AmountView) -> bool {
    |x: AmountView, y: AmountView| x.value > y.value
}

/// Names in the order of their characters.
pub open spec fn by_name() -> spec_fn(Seq<char>, Seq<char>) -> bool {
    |x: Seq<char>, y: Seq<char>| text_before(x, y)
}

/// The names on either side, each once.
pub open spec fn all_names(a: Seq<AmountView>, b: Seq<AmountView>) -> Seq<Seq<char>> {
    a.map_values(|x: AmountView| x.name) + only(b, a).map_values(|x: AmountView| x.name)
}

/// The things on either side, by name.
pub open spec fn either(a: Seq<AmountView>, b: Seq<AmountView>) -> Seq<DeltaView> {
    ordered(all_names(a, b), by_name()).map_values(
        |n: Seq<char>| delta_of(n, seq![], value_of(a, n), value_of(b, n)),
    )
}

/// GPU time per scope, on both sides.
#[derive(Debug, Clone, PartialEq)]
pub struct ScopeDelta {
    pub qualname: String,
    pub a_gpu_ns: u64,
    pub b_gpu_ns: u64,
    pub delta_ns: i64,
    /// `None` where the first side is zero.
    pub delta_pct: Option<Percent>,
}

impl View for ScopeDelta {
    type V = DeltaView;

    open spec fn view(&self) -> DeltaView {
        DeltaView {
            name: self.qualname@,
            place: seq![],
            a: self.a_gpu_ns,
            b: self.b_gpu_ns,
            delta: self.delta_ns as int,
            pct: opt_percent(self.delta_pct),
        }
    }
}

/// GPU time per kind of kernel, on both sides.
#[derive(Debug, Clone, PartialEq)]
pub struct OpDelta {
    pub kind: String,
    pub a_gpu_ns: u64,
    pub b_gpu_ns: u64,
    pub delta_ns: i64,
    pub delta_pct: Option<Percent>,
}

impl View for OpDelta {
    type V = DeltaView;

    open spec fn view(&self) -> DeltaView {
        DeltaView {
            name: self.kind@,
            place: seq![],
            a: self.a_gpu_ns,
            b: self.b_gpu_ns,
            delta: self.delta_ns as int,
            pct: opt_percent(self.delta_pct),
        }
    }
}

/// Peak memory per scope, on both sides.
#[derive(Debug, Clone, PartialEq)]
pub struct MemoryDelta {
    pub qualname: String,
    pub a_peak_bytes: u64,
    pub b_peak_bytes: u64,
    pub delta_bytes: i64,
    pub delta_pct: Option<Percent>,
}

impl View for MemoryDelta {
    type V = DeltaView;

    open spec fn view(&self) -> DeltaView {
        DeltaView {
            name: self.qualname@,
            place: seq![],
            a: self.a_peak_bytes,
            b: self.b_peak_bytes,
            delta: self.delta_bytes as int,
            pct: opt_percent(self.delta_pct),
        }
    }
}

/// GPU time per kind of kernel and place in the program, on both sides.
#[derive(Debug, Clone, PartialEq)]
pub struct OriginDelta {
    pub kind: String,
    pub file_line: String,
    pub a_gpu_ns: u64,
    pub b_gpu_ns: u64,
    pub delta_ns: i64,
    pub delta_pct: Option<Percent>,
}

impl View for OriginDelta {
    type V = DeltaView;

    open spec fn view(&self) -> DeltaView {
        DeltaView {
            name: self.kind@,
            place: self.file_line@,
            a: self.a_gpu_ns,
            b: self.b_gpu_ns,
            delta: self.delta_ns as int,
            pct: opt_percent(self.delta_pct),
        }
    }
}

/// GPU time of a scope on one side.
#[derive(Debug, Clone, PartialEq)]
pub struct ScopeAggregate {
    pub qualname: String,
    pub gpu_ns: u64,
}

impl View for ScopeAggregate {
    type V = AmountView;

    open spec fn view(&self) -> AmountView {
        AmountView { name: self.qualname@, place: seq![], value: self.gpu_ns }
    }
}

/// What changed between two sessions.
#[derive(Debug, Clone, PartialEq)]
pub struct SessionDiff {
    pub scope_deltas: Vec<ScopeDelta>,
    pub op_deltas: Vec<OpDelta>,
    pub scopes_only_in_a: Vec<ScopeAggregate>,
    pub scopes_only_in_b: Vec<ScopeAggregate>,
}

/// The view of a [`SessionDiff`].
pub ghost struct DiffView {
    pub scopes: Seq<DeltaView>,
    pub ops: Seq<DeltaView>,
    pub only_a: Seq<AmountView>,
    pub only_b: Seq<AmountView>,
}

pub open spec fn scope_delta_views(s: Seq<ScopeDelta>) -> Seq<DeltaView> {
    s.map_values(|d: ScopeDelta| d@)
}

pub open spec fn op_delta_views(s: Seq<OpDelta>) -> Seq<DeltaView> {
    s.map_values(|d: OpDelta| d@)
}

pub open spec fn memory_delta_views(s: Seq<MemoryDelta>) -> Seq<DeltaView> {
    s.map_values(|d: MemoryDelta| d@)
}

pub open spec fn origin_delta_views(s: Seq<OriginDelta>) -> Seq<DeltaView> {
    s.map_values(|d: OriginDelta| d@)
}

pub open spec fn aggregate_views(s: Seq<ScopeAggregate>) -> Seq<AmountView> {
    s.map_values(|x: ScopeAggregate| x@)
}

impl View for SessionDiff {
    type V = DiffView;

    open spec fn view(&self) -> DiffView {
        DiffView {
            scopes: scope_delta_views(self.scope_deltas@),
            ops: op_delta_views(self.op_deltas@),
            only_a: aggregate_views(self.scopes_only_in_a@),
            only_b: aggregate_views(self.scopes_only_in_b@),
        }
    }
}

/// A scope and the GPU time below it.
pub open spec fn scope_entry(n: Node) -> Entry {
    Entry { key: n.qualname, gpu_ns: n.gpu_ns_subtree, count: 0, symbol: None, kind: None }
}

/// The scopes of a tree, from the top.
pub open spec fn scope_list(n: Node) -> Seq<Entry>
    decreases n, n.children.len() + 1,
{
    seq![scope_entry(n)] + scope_lists(n, n.children.len() as int)
}

/// The scopes below the first `k` children.
pub open spec fn scope_lists(n: Node, k: int) -> Seq<Entry>
    decreases n, k,
{
    if k <= 0 || k > n.children.len() {
        seq![]
    } else {
        scope_lists(n, k - 1) + scope_list(n.children[k - 1])
    }
}

/// The name that a kernel goes under: its kind, else that of its symbol, else
/// the symbol, else its name.
pub open spec fn kind_key(op: Entry) -> Seq<char> {
    match op.kind {
        Some(k) => k,
        None => match op.symbol {
            Some(s) => match kind_of(s) {
                Some(k) => k,
                None => s,
            },
            None => op.key,
        },
    }
}

/// A kernel under the name of its kind.
pub open spec fn op_entry(op: Entry) -> Entry {
    Entry { key: kind_key(op), gpu_ns: op.gpu_ns, count: 0, symbol: None, kind: None }
}

/// Kernels under the names of their kinds.
pub open spec fn op_entries(ops: Seq<Entry>) -> Seq<Entry> {
    ops.map_values(|o: Entry| op_entry(o))
}

/// The kernels of a tree, from the top.
pub open spec fn op_list(n: Node) -> Seq<Entry>
    decreases n, n.children.len() + 1,
{
    op_entries(n.ops) + op_lists(n, n.children.len() as int)
}

/// The kernels below the first `k` children.
pub open spec fn op_lists(n: Node, k: int) -> Seq<Entry>
    decreases n, k,
{
    if k <= 0 || k > n.children.len() {
        seq![]
    } else {
        op_lists(n, k - 1) + op_list(n.children[k - 1])
    }
}

/// Rows as things, without the one named `without`.
pub open spec fn amounts(rows: Seq<Entry>, without: Seq<char>) -> Seq<AmountView>
    decreases rows.len(),
{
    if rows.len() == 0 {
        seq![]
    } else if rows.last().key == without {
        amounts(rows.drop_last(), without)
    } else {
        amounts(rows.drop_last(), without).push(
            AmountView {
                name: rows.last().key,
                place: seq![],
                value: rows.last().gpu_ns as u64,
            },
        )
    }
}

/// Rows as things.
pub open spec fn plain_amounts(rows: Seq<Entry>) -> Seq<AmountView> {
    rows.map_values(
        |e: Entry| AmountView { name: e.key, place: seq![], value: e.gpu_ns as u64 },
    )
}

/// GPU time per scope, several scopes of one name added up. The root is not a
/// scope.
pub open spec fn scope_amounts(events: Seq<Event>) -> Seq<AmountView> {
    if events.len() == 0 {
        seq![]
    } else {
        amounts(tallied(scope_list(root_of(events))), "<root>"@)
    }
}

/// GPU time per kind of kernel.
pub open spec fn op_amounts(events: Seq<Event>) -> Seq<AmountView> {
    if events.len() == 0 {
        seq![]
    } else {
        plain_amounts(tallied(op_list(root_of(events))))
    }
}

/// Each of `rows` fits a signed number, and so do their differences.
pub open spec fn signed_all(rows: Seq<AmountView>) -> bool {
    forall|i: int| 0 <= i < rows.len() ==> (#[trigger] rows[i]).value <= i64::MAX
}

/// The breakdown of a session fits 64 bits, and so does the sum of each scope
/// and of each kind of kernel. Those that are compared fit a signed number.
pub open spec fn comparable(events: Seq<Event>) -> bool {
    events.len() > 0 ==> {
        &&& sums_fit(events)
        &&& rows_fit(tallied(scope_list(root_of(events))))
        &&& rows_fit(tallied(op_list(root_of(events))))
        &&& signed_all(scope_amounts(events))
        &&& signed_all(op_amounts(events))
    }
}

/// What changed between two sessions: the scopes on both sides and the kinds on
/// either side by the size of the change, and the scopes of one side alone by
/// their GPU time.
pub open spec fn diff_of(a: Seq<Event>, b: Seq<Event>) -> DiffView {
    let (x, y) = (scope_amounts(a), scope_amounts(b));
    DiffView {
        scopes: ordered(shared(x, y), by_change()),
        ops: ordered(either(op_amounts(a), op_amounts(b)), by_change()),
        only_a: ordered(only(x, y), by_value()),
        only_b: ordered(only(y, x), by_value()),
    }
}

/// One thing on one side.
struct Amount {
    name: String,
    place: String,
    value: u64,
}

impl View for Amount {
    type V = AmountView;

    closed spec fn view(&self) -> AmountView {
        AmountView { name: self.name@, place: self.place@, value: self.value }
    }
}

impl Ranked for Amount {
    closed spec fn before(self, other: Self) -> bool {
        self.value > other.value
    }

    fn comes_before(&self, other: &Self) -> (b: bool) {
        self.value > other.value
    }
}

spec fn amount_views(s: Seq<Amount>) -> Seq<AmountView> {
    s.map_values(|x: Amount| x@)
}

/// One thing on both sides.
struct Change {
    name: String,
    place: String,
    a: u64,
    b: u64,
}

impl View for Change {
    type V = DeltaView;

    closed spec fn view(&self) -> DeltaView {
        delta_of(self.name@, self.place@, self.a, self.b)
    }
}

fn distance_of(a: u64, b: u64) -> (d: u64)
    ensures
        d == distance(a as nat, b as nat),
{
    if a < b {
        b - a
    } else {
        a - b
    }
}

impl Ranked for Change {
    closed spec fn before(self, other: Self) -> bool {
        distance(self.a as nat, self.b as nat) > distance(other.a as nat, other.b as nat)
    }

    fn comes_before(&self, other: &Self) -> (b: bool) {
        distance_of(self.a, self.b) > distance_of(other.a, other.b)
    }
}

spec fn change_views(s: Seq<Change>) -> Seq<DeltaView> {
    s.map_values(|x: Change| x@)
}

/// A name.
struct Name {
    text: String,
}

impl Ranked for Name {
    closed spec fn before(self, other: Self) -> bool {
        text_before(self.text@, other.text@)
    }

    fn comes_before(&self, other: &Self) -> (b: bool) {
        precedes(self.text.as_str(), other.text.as_str())
    }
}

spec fn name_texts(s: Seq<Name>) -> Seq<Seq<char>> {
    s.map_values(|n: Name| n.text@)
}

proof fn lemma_find_prefix(rows: Seq<AmountView>, i: int, name: Seq<char>, place: Seq<char>)
    requires
        0 <= i <= rows.len(),
        find(rows.take(i), name, place) is Some,
    ensures
        find(rows, name, place) == find(rows.take(i), name, place),
    decreases rows.len() - i,
{
    if i == rows.len() {
        assert(rows.take(i) =~= rows);
    } else {
        assert(rows.take(i + 1).drop_last() =~= rows.take(i));
        lemma_find_prefix(rows, i + 1, name, place);
    }
}

pub proof fn lemma_find(rows: Seq<AmountView>, name: Seq<char>, place: Seq<char>)
    ensures
        match find(rows, name, place) {
            Some(i) => 0 <= i < rows.len() && rows[i].name == name && rows[i].place == place,
            None => forall|k: int|
                0 <= k < rows.len() ==> !((#[trigger] rows[k]).name == name && rows[k].place
                    == place),
        },
    decreases rows.len(),
{
    if rows.len() > 0 {
        lemma_find(rows.drop_last(), name, place);
        assert forall|k: int| 0 <= k < rows.len() - 1 implies rows.drop_last()[k]
            == #[trigger] rows[k] by {}
    }
}

fn position(rows: &Vec<Amount>, name: &String, place: &String) -> (r: Option<usize>)
    ensures
        match r {
            Some(i) => i < rows@.len() && find(amount_views(rows@), name@, place@) == Some(
                i as int,
            ),
            None => find(amount_views(rows@), name@, place@) is None,
        },
{
    let ghost all = amount_views(rows@);
    let mut i: usize = 0;
    assert(all.take(0) =~= Seq::<AmountView>::empty());
    while i < rows.len()
        invariant
            i <= rows@.len(),
            all == amount_views(rows@),
            find(all.take(i as int), name@, place@) is None,
        decreases rows@.len() - i,
    {
        assert(all.take(i + 1).drop_last() =~= all.take(i as int));
        assert(all[i as int] == rows@[i as int]@);
        if rows[i].name == *name && rows[i].place == *place {
            proof {
                lemma_find_prefix(all, i + 1, name@, place@);
            }
            return Some(i);
        }
        i = i + 1;
    }
    assert(all.take(all.len() as int) =~= all);
    None
}

/// The things on both sides, by the size of the change.
fn shared_changes(a: &Vec<Amount>, b: &Vec<Amount>) -> (r: Vec<Change>)
    ensures
        change_views(r@) == ordered(shared(amount_views(a@), amount_views(b@)), by_change()),
        forall|i: int|
            0 <= i < r@.len() ==> exists|j: int, k: int|
                0 <= j < a@.len() && 0 <= k < b@.len() && (#[trigger] r@[i]).a == (
                #[trigger] a@[j]).value && r@[i].b == (#[trigger] b@[k]).value,
{
    let ghost (x, y) = (amount_views(a@), amount_views(b@));
    let ghost from_both = |c: Change|
        exists|j: int, k: int|
            0 <= j < a@.len() && 0 <= k < b@.len() && c.a == (#[trigger] a@[j]).value && c.b == (
            #[trigger] b@[k]).value;
    let mut r: Vec<Change> = Vec::new();
    let mut i: usize = 0;
    assert(x.take(0) =~= Seq::<AmountView>::empty());
    assert(change_views(r@) =~= Seq::<DeltaView>::empty());
    while i < a.len()
        invariant
            i <= a@.len(),
            x == amount_views(a@),
            y == amount_views(b@),
            change_views(r@) == shared(x.take(i as int), y),
            from_both == (|c: Change|
                exists|j: int, k: int|
                    0 <= j < a@.len() && 0 <= k < b@.len() && c.a == (#[trigger] a@[j]).value
                        && c.b == (#[trigger] b@[k]).value),
            forall|k: int| 0 <= k < r@.len() ==> from_both(#[trigger] r@[k]),
        decreases a@.len() - i,
    {
        assert(x.take(i + 1).drop_last() =~= x.take(i as int));
        assert(x[i as int] == a@[i as int]@);
        let ghost before = r@;
        if let Some(k) = position(b, &a[i].name, &a[i].place) {
            assert(y[k as int] == b@[k as int]@);
            let c = Change {
                name: a[i].name.clone(),
                place: a[i].place.clone(),
                a: a[i].value,
                b: b[k].value,
            };
            assert(from_both(c)) by {
                assert(c.a == a@[i as int].value && c.b == b@[k as int].value);
            }
            r.push(c);
            assert(change_views(r@) =~= change_views(before).push(c@));
        }
        i = i + 1;
    }
    proof {
        assert(x.take(x.len() as int) =~= x);
        crate::sort::lemma_ordered_map_where(
            r@,
            |c: Change| c@,
            rank::<Change>(),
            by_change(),
            from_both,
        );
    }
    sort(&mut r);
    proof {
        assert forall|i: int| 0 <= i < r@.len() implies exists|j: int, k: int|
            0 <= j < a@.len() && 0 <= k < b@.len() && (#[trigger] r@[i]).a == (
            #[trigger] a@[j]).value && r@[i].b == (#[trigger] b@[k]).value by {
            assert(from_both(r@[i]));
        }
    }
    r
}

/// The things on the first side alone, by their value.
fn only_amounts(a: &Vec<Amount>, b: &Vec<Amount>) -> (r: Vec<Amount>)
    ensures
        amount_views(r@) == ordered(only(amount_views(a@), amount_views(b@)), by_value()),
{
    let mut r = unsorted_only(a, b);
    proof {
        crate::sort::lemma_ordered_map(r@, |c: Amount| c@, rank::<Amount>(), by_value());
    }
    sort(&mut r);
    r
}

fn unsorted_only(a: &Vec<Amount>, b: &Vec<Amount>) -> (r: Vec<Amount>)
    ensures
        amount_views(r@) == only(amount_views(a@), amount_views(b@)),
{
    let ghost (x, y) = (amount_views(a@), amount_views(b@));
    let mut r: Vec<Amount> = Vec::new();
    let mut i: usize = 0;
    assert(x.take(0) =~= Seq::<AmountView>::empty());
    assert(amount_views(r@) =~= Seq::<AmountView>::empty());
    while i < a.len()
        invariant
            i <= a@.len(),
            x == amount_views(a@),
            y == amount_views(b@),
            amount_views(r@) == only(x.take(i as int), y),
        decreases a@.len() - i,
    {
        assert(x.take(i + 1).drop_last() =~= x.take(i as int));
        assert(x[i as int] == a@[i as int]@);
        let ghost before = r@;
        if position(b, &a[i].name, &a[i].place).is_none() {
            let c = Amount {
                name: a[i].name.clone(),
                place: a[i].place.clone(),
                value: a[i].value,
            };
            r.push(c);
            assert(amount_views(r@) =~= amount_views(before).push(c@));
        }
        i = i + 1;
    }
    assert(x.take(x.len() as int) =~= x);
    r
}

/// All values are at most `max`.
spec fn at_most(s: Seq<Amount>, max: int) -> bool {
    forall|i: int| 0 <= i < s.len() ==> (#[trigger] s[i]).value <= max
}

/// All things have an empty place.
spec fn placeless(s: Seq<Amount>) -> bool {
    forall|i: int| 0 <= i < s.len() ==> (#[trigger] s[i]).place@ == Seq::<char>::empty()
}

/// The value of a thing, zero where it is missing.
fn lookup(rows: &Vec<Amount>, name: &String) -> (v: u64)
    ensures
        v == value_of(amount_views(rows@), name@),
        forall|max: int| at_most(rows@, max) && max >= 0 ==> v <= max,
{
    let none = String::new();
    assert(none@ =~= seq![]);
    match position(rows, name, &none) {
        Some(i) => {
            assert(amount_views(rows@)[i as int] == rows@[i as int]@);
            rows[i].value
        },
        None => 0,
    }
}

/// The things on either side, by the size of the change.
fn either_changes(a: &Vec<Amount>, b: &Vec<Amount>) -> (r: Vec<Change>)
    requires
        at_most(a@, i64::MAX as int),
        at_most(b@, i64::MAX as int),
    ensures
        change_views(r@) == ordered(either(amount_views(a@), amount_views(b@)), by_change()),
        forall|i: int|
            0 <= i < r@.len() ==> (#[trigger] r@[i]).a <= i64::MAX && r@[i].b <= i64::MAX,
{
    let ghost (x, y) = (amount_views(a@), amount_views(b@));
    let fresh = unsorted_only(b, a);
    let mut names: Vec<Name> = Vec::new();
    let mut i: usize = 0;
    while i < a.len()
        invariant
            i <= a@.len(),
            names@.len() == i,
            forall|k: int| 0 <= k < i ==> (#[trigger] names@[k]).text@ == a@[k].name@,
        decreases a@.len() - i,
    {
        names.push(Name { text: a[i].name.clone() });
        i = i + 1;
    }
    let mut j: usize = 0;
    while j < fresh.len()
        invariant
            j <= fresh@.len(),
            names@.len() == a@.len() + j,
            forall|k: int| 0 <= k < a@.len() ==> (#[trigger] names@[k]).text@ == a@[k].name@,
            forall|k: int|
                a@.len() <= k < names@.len() ==> (#[trigger] names@[k]).text@ == fresh@[k
                    - a@.len()].name@,
        decreases fresh@.len() - j,
    {
        names.push(Name { text: fresh[j].name.clone() });
        j = j + 1;
    }
    proof {
        let all = all_names(x, y);
        assert(name_texts(names@) =~= all) by {
            assert forall|k: int| 0 <= k < names@.len() implies name_texts(names@)[k] == all[k] by {
                if k < a@.len() {
                    assert(x[k] == a@[k]@);
                } else {
                    assert(amount_views(fresh@)[k - a@.len()] == fresh@[k - a@.len()]@);
                }
            }
        }
        crate::sort::lemma_ordered_map(names@, |n: Name| n.text@, rank::<Name>(), by_name());
    }
    sort(&mut names);
    let ghost sorted = ordered(all_names(x, y), by_name());
    let mut r: Vec<Change> = Vec::new();
    let mut k: usize = 0;
    while k < names.len()
        invariant
            k <= names@.len(),
            x == amount_views(a@),
            y == amount_views(b@),
            at_most(a@, i64::MAX as int),
            at_most(b@, i64::MAX as int),
            sorted == name_texts(names@),
            r@.len() == k,
            forall|i: int|
                0 <= i < k ==> (#[trigger] r@[i])@ == delta_of(
                    sorted[i],
                    seq![],
                    value_of(x, sorted[i]),
                    value_of(y, sorted[i]),
                ),
            forall|i: int|
                0 <= i < k ==> (#[trigger] r@[i]).a <= i64::MAX && r@[i].b <= i64::MAX,
        decreases names@.len() - k,
    {
        let name = names[k].text.clone();
        assert(sorted[k as int] == name@);
        let c = Change {
            a: lookup(a, &name),
            b: lookup(b, &name),
            name,
            place: String::new(),
        };
        assert(c.place@ =~= seq![]);
        r.push(c);
        k = k + 1;
    }
    proof {
        assert(change_views(r@) =~= either(x, y));
        crate::sort::lemma_ordered_map_where(
            r@,
            |c: Change| c@,
            rank::<Change>(),
            by_change(),
            |c: Change| c.a <= i64::MAX && c.b <= i64::MAX,
        );
    }
    sort(&mut r);
    r
}

/// The scopes of more children begin with those of fewer.
proof fn lemma_scope_lists_prefix(n: Node, k: int) -> (rest: Seq<Entry>)
    requires
        0 <= k <= n.children.len(),
    ensures
        scope_lists(n, n.children.len() as int) == scope_lists(n, k) + rest,
    decreases n.children.len() - k,
{
    if k < n.children.len() {
        let rest = lemma_scope_lists_prefix(n, k + 1);
        let next = scope_list(n.children[k]);
        assert(scope_lists(n, k) + next + rest =~= scope_lists(n, k) + (next + rest));
        next + rest
    } else {
        assert(scope_lists(n, k) + Seq::<Entry>::empty() =~= scope_lists(n, k));
        Seq::empty()
    }
}

/// The kernels of more children begin with those of fewer.
proof fn lemma_op_lists_prefix(n: Node, k: int) -> (rest: Seq<Entry>)
    requires
        0 <= k <= n.children.len(),
    ensures
        op_lists(n, n.children.len() as int) == op_lists(n, k) + rest,
    decreases n.children.len() - k,
{
    if k < n.children.len() {
        let rest = lemma_op_lists_prefix(n, k + 1);
        let next = op_list(n.children[k]);
        assert(op_lists(n, k) + next + rest =~= op_lists(n, k) + (next + rest));
        next + rest
    } else {
        assert(op_lists(n, k) + Seq::<Entry>::empty() =~= op_lists(n, k));
        Seq::empty()
    }
}

/// Books the scopes of a tree, unless a row would not fit 64 bits.
fn walk_scopes(t: &mut Tally, node: &ModuleBreakdown, Ghost(done): Ghost<Seq<Entry>>) -> (ok: bool)
    requires
        old(t).wf(),
        old(t)@ == tallied(done),
    ensures
        final(t).wf(),
        ok == rows_fit(tallied(done + scope_list(node.tree()))),
        ok ==> final(t)@ == tallied(done + scope_list(node.tree())),
    decreases node,
{
    let ghost n = node.tree();
    let ghost own = seq![scope_entry(n)];
    let ghost count = n.children.len() as int;
    proof {
        assert((done + own).drop_last() =~= done);
        assert((done + own).last() == scope_entry(n));
        assert(done + own + scope_lists(n, 0) =~= done + own);
        assert(done + own + scope_lists(n, count) =~= done + scope_list(n));
    }
    if !t.try_add(node.qualname.as_str(), node.gpu_ns_subtree, 0, &None, &None) {
        proof {
            if rows_fit(tallied(done + scope_list(n))) {
                lemma_tally_grows(done + own, scope_lists(n, count));
            }
        }
        return false;
    }
    let mut i: usize = 0;
    while i < node.children.len()
        invariant
            i <= node.children@.len(),
            n == node.tree(),
            count == n.children.len(),
            own == seq![scope_entry(n)],
            done + own + scope_lists(n, count) == done + scope_list(n),
            t.wf(),
            t@ == tallied(done + own + scope_lists(n, i as int)),
        decreases node.children@.len() - i,
    {
        let child = &node.children[i];
        let ghost so_far = done + own + scope_lists(n, i as int);
        proof {
            assert(n.children[i as int] == child.tree());
            assert(decreases_to!(*node => node.children@[i as int]));
            assert(so_far + scope_list(child.tree()) =~= done + own + scope_lists(n, i + 1));
        }
        if !walk_scopes(t, child, Ghost(so_far)) {
            proof {
                let rest = lemma_scope_lists_prefix(n, i + 1);
                let longer = done + own + scope_lists(n, i + 1);
                assert(longer + rest =~= done + own + scope_lists(n, count));
                if rows_fit(tallied(done + scope_list(n))) {
                    lemma_tally_grows(longer, rest);
                }
            }
            return false;
        }
        i = i + 1;
    }
    proof {
        t.lemma_fits();
    }
    true
}

/// The name that a kernel goes under.
pub fn op_kind_key(op: &OpAttribution) -> (k: String)
    ensures
        k@ == kind_key(op@),
{
    if let Some(k) = &op.kind {
        return k.clone();
    }
    match &op.symbol {
        Some(s) => match resolve_kind(s.as_str()) {
            Some(k) => k.to_owned(),
            None => s.clone(),
        },
        None => op.name.clone(),
    }
}

/// Books the kernels of a node, unless a row would not fit 64 bits.
fn walk_own_ops(
    t: &mut Tally,
    ops: &Vec<OpAttribution>,
    Ghost(done): Ghost<Seq<Entry>>,
) -> (ok: bool)
    requires
        old(t).wf(),
        old(t)@ == tallied(done),
    ensures
        final(t).wf(),
        ok == rows_fit(tallied(done + op_entries(op_rows(ops@)))),
        ok ==> final(t)@ == tallied(done + op_entries(op_rows(ops@))),
{
    let ghost all = op_entries(op_rows(ops@));
    let mut i: usize = 0;
    assert(done + all.take(0) =~= done);
    while i < ops.len()
        invariant
            i <= ops@.len(),
            all == op_entries(op_rows(ops@)),
            t.wf(),
            t@ == tallied(done + all.take(i as int)),
        decreases ops@.len() - i,
    {
        let op = &ops[i];
        let ghost next = done + all.take(i + 1);
        proof {
            assert(all[i as int] == op_entry(op@));
            assert(next.drop_last() =~= done + all.take(i as int));
            assert(next.last() == op_entry(op@));
        }
        let key = op_kind_key(op);
        if !t.try_add(key.as_str(), op.gpu_ns, 0, &None, &None) {
            proof {
                assert(next + all.skip(i + 1) =~= done + all);
                if rows_fit(tallied(done + all)) {
                    lemma_tally_grows(next, all.skip(i + 1));
                }
            }
            return false;
        }
        i = i + 1;
    }
    proof {
        assert(all.take(all.len() as int) =~= all);
        t.lemma_fits();
    }
    true
}

/// Books the kernels of a tree, unless a row would not fit 64 bits.
fn walk_ops(t: &mut Tally, node: &ModuleBreakdown, Ghost(done): Ghost<Seq<Entry>>) -> (ok: bool)
    requires
        old(t).wf(),
        old(t)@ == tallied(done),
    ensures
        final(t).wf(),
        ok == rows_fit(tallied(done + op_list(node.tree()))),
        ok ==> final(t)@ == tallied(done + op_list(node.tree())),
    decreases node,
{
    let ghost n = node.tree();
    let ghost own = op_entries(n.ops);
    let ghost count = n.children.len() as int;
    proof {
        assert(done + own + op_lists(n, 0) =~= done + own);
        assert(done + own + op_lists(n, count) =~= done + op_list(n));
    }
    if !walk_own_ops(t, &node.ops, Ghost(done)) {
        proof {
            if rows_fit(tallied(done + op_list(n))) {
                lemma_tally_grows(done + own, op_lists(n, count));
            }
        }
        return false;
    }
    let mut i: usize = 0;
    while i < node.children.len()
        invariant
            i <= node.children@.len(),
            n == node.tree(),
            count == n.children.len(),
            own == op_entries(n.ops),
            done + own + op_lists(n, count) == done + op_list(n),
            t.wf(),
            t@ == tallied(done + own + op_lists(n, i as int)),
        decreases node.children@.len() - i,
    {
        let child = &node.children[i];
        let ghost so_far = done + own + op_lists(n, i as int);
        proof {
            assert(n.children[i as int] == child.tree());
            assert(decreases_to!(*node => node.children@[i as int]));
            assert(so_far + op_list(child.tree()) =~= done + own + op_lists(n, i + 1));
        }
        if !walk_ops(t, child, Ghost(so_far)) {
            proof {
                let rest = lemma_op_lists_prefix(n, i + 1);
                let longer = done + own + op_lists(n, i + 1);
                assert(longer + rest =~= done + own + op_lists(n, count));
                if rows_fit(tallied(done + op_list(n))) {
                    lemma_tally_grows(longer, rest);
                }
            }
            return false;
        }
        i = i + 1;
    }
    proof {
        t.lemma_fits();
    }
    true
}

/// Rows as things, without the one named `without`.
fn amounts_without(rows: Vec<Row>, without: &str) -> (r: Vec<Amount>)
    ensures
        amount_views(r@) == amounts(row_views(rows@), without@),
{
    let ghost all = row_views(rows@);
    let mut r: Vec<Amount> = Vec::new();
    let mut i: usize = 0;
    assert(all.take(0) =~= Seq::<Entry>::empty());
    assert(amount_views(r@) =~= Seq::<AmountView>::empty());
    while i < rows.len()
        invariant
            i <= rows@.len(),
            all == row_views(rows@),
            amount_views(r@) == amounts(all.take(i as int), without@),
            decreases rows@.len() - i,
    {
        proof {
            assert(all.take(i + 1).drop_last() =~= all.take(i as int));
            assert(all[i as int] == rows@[i as int]@);
        }
        let ghost before = r@;
        if !crate::text::same(rows[i].key.as_str(), without) {
            let x = Amount {
                name: rows[i].key.clone(),
                place: String::new(),
                value: rows[i].gpu_ns,
            };
            assert(x.place@ =~= seq![]);
            r.push(x);
            assert(amount_views(r@) =~= amount_views(before).push(x@));
        }
        i = i + 1;
    }
    assert(all.take(all.len() as int) =~= all);
    r
}

/// Rows as things.
fn amounts_all(rows: Vec<Row>) -> (r: Vec<Amount>)
    ensures
        amount_views(r@) == plain_amounts(row_views(rows@)),
{
    let ghost all = row_views(rows@);
    let mut r: Vec<Amount> = Vec::new();
    let mut i: usize = 0;
    while i < rows.len()
        invariant
            i <= rows@.len(),
            all == row_views(rows@),
            r@.len() == i,
            forall|k: int|
                0 <= k < i ==> (#[trigger] r@[k])@ == (AmountView {
                    name: all[k].key,
                    place: seq![],
                    value: all[k].gpu_ns as u64,
                }),
            decreases rows@.len() - i,
    {
        proof {
            assert(all[i as int] == rows@[i as int]@);
        }
        let x = Amount { name: rows[i].key.clone(), place: String::new(), value: rows[i].gpu_ns };
        assert(x.place@ =~= seq![]);
        r.push(x);
        i = i + 1;
    }
    assert(amount_views(r@) =~= plain_amounts(all));
    r
}

/// GPU time per scope, or `None` where a row does not fit 64 bits.
fn try_scope_map(events: &[Event]) -> (r: Option<Vec<Amount>>)
    requires
        events@.len() > 0 ==> sums_fit(events@),
    ensures
        match r {
            Some(r) => {
                &&& events@.len() > 0 ==> rows_fit(tallied(scope_list(root_of(events@))))
                &&& amount_views(r@) == scope_amounts(events@)
            },
            None => events@.len() > 0 && !rows_fit(tallied(scope_list(root_of(events@)))),
        },
{
    match compute(events) {
        Ok(root) => {
            let mut t = Tally::new();
            let ghost list = scope_list(root.tree());
            assert(Seq::<Entry>::empty() + list =~= list);
            if walk_scopes(&mut t, &root, Ghost(Seq::empty())) {
                Some(amounts_without(t.into_rows(), "<root>"))
            } else {
                None
            }
        },
        Err(_) => {
            let r: Vec<Amount> = Vec::new();
            assert(amount_views(r@) =~= seq![]);
            Some(r)
        },
    }
}

/// GPU time per scope.
fn scope_map(events: &[Event]) -> (r: Vec<Amount>)
    requires
        comparable(events@),
    ensures
        amount_views(r@) == scope_amounts(events@),
        at_most(r@, i64::MAX as int),
{
    match try_scope_map(events) {
        Some(r) => {
            assert(amount_views(r@).len() == r@.len());
            assert forall|i: int| 0 <= i < r@.len() implies (#[trigger] r@[i]).value <= i64::MAX by {
                assert(amount_views(r@)[i] == r@[i]@);
                assert(scope_amounts(events@)[i] == r@[i]@);
            }
            r
        },
        None => Vec::new(),
    }
}

/// GPU time per kind of kernel, or `None` where a row does not fit 64 bits.
fn try_op_map(events: &[Event]) -> (r: Option<Vec<Amount>>)
    requires
        events@.len() > 0 ==> sums_fit(events@),
    ensures
        match r {
            Some(r) => {
                &&& events@.len() > 0 ==> rows_fit(tallied(op_list(root_of(events@))))
                &&& amount_views(r@) == op_amounts(events@)
            },
            None => events@.len() > 0 && !rows_fit(tallied(op_list(root_of(events@)))),
        },
{
    match compute(events) {
        Ok(root) => {
            let mut t = Tally::new();
            let ghost list = op_list(root.tree());
            assert(Seq::<Entry>::empty() + list =~= list);
            if walk_ops(&mut t, &root, Ghost(Seq::empty())) {
                Some(amounts_all(t.into_rows()))
            } else {
                None
            }
        },
        Err(_) => {
            let r: Vec<Amount> = Vec::new();
            assert(amount_views(r@) =~= seq![]);
            Some(r)
        },
    }
}

/// GPU time per kind of kernel.
fn op_map(events: &[Event]) -> (r: Vec<Amount>)
    requires
        comparable(events@),
    ensures
        amount_views(r@) == op_amounts(events@),
        at_most(r@, i64::MAX as int),
{
    match try_op_map(events) {
        Some(r) => {
            assert(amount_views(r@).len() == r@.len());
            assert forall|i: int| 0 <= i < r@.len() implies (#[trigger] r@[i]).value <= i64::MAX by {
                assert(amount_views(r@)[i] == r@[i]@);
                assert(op_amounts(events@)[i] == r@[i]@);
            }
            r
        },
        None => Vec::new(),
    }
}

/// `b - a`.
fn signed(a: u64, b: u64) -> (d: i64)
    requires
        a <= i64::MAX,
        b <= i64::MAX,
    ensures
        d == b - a,
{
    b as i64 - a as i64
}

/// Things on one side as scopes.
fn aggregates(list: Vec<Amount>) -> (r: Vec<ScopeAggregate>)
    requires
        placeless(list@),
    ensures
        aggregate_views(r@) == amount_views(list@),
{
    let mut r: Vec<ScopeAggregate> = Vec::new();
    let mut i: usize = 0;
    while i < list.len()
        invariant
            i <= list@.len(),
            placeless(list@),
            r@.len() == i,
            forall|k: int| 0 <= k < i ==> (#[trigger] r@[k])@ == list@[k]@,
        decreases list@.len() - i,
    {
        assert(list@[i as int].place@ == Seq::<char>::empty());
        r.push(ScopeAggregate { qualname: list[i].name.clone(), gpu_ns: list[i].value });
        i = i + 1;
    }
    assert(aggregate_views(r@) =~= amount_views(list@));
    r
}

/// The things of `rows` have an empty place.
spec fn views_placeless(rows: Seq<AmountView>) -> bool {
    forall|i: int| 0 <= i < rows.len() ==> (#[trigger] rows[i]).place == Seq::<char>::empty()
}

proof fn lemma_amounts_placeless(rows: Seq<Entry>, without: Seq<char>)
    ensures
        views_placeless(amounts(rows, without)),
    decreases rows.len(),
{
    if rows.len() > 0 {
        lemma_amounts_placeless(rows.drop_last(), without);
    }
}

proof fn lemma_only_placeless(a: Seq<AmountView>, b: Seq<AmountView>)
    requires
        views_placeless(a),
    ensures
        views_placeless(only(a, b)),
    decreases a.len(),
{
    if a.len() > 0 {
        assert forall|i: int| 0 <= i < a.len() - 1 implies a.drop_last()[i] == #[trigger] a[i] by {}
        lemma_only_placeless(a.drop_last(), b);
        assert(a[a.len() - 1].place == Seq::<char>::empty());
    }
}

proof fn lemma_ordered_placeless(s: Seq<AmountView>)
    requires
        views_placeless(s),
    ensures
        views_placeless(ordered(s, by_value())),
{
    let t = ordered(s, by_value());
    assert forall|i: int| 0 <= i < t.len() implies (#[trigger] t[i]).place
        == Seq::<char>::empty() by {
        assert(t.contains(t[i]));
        crate::sort::lemma_ordered_contains(s, by_value(), t[i]);
        let k = choose|k: int| 0 <= k < s.len() && s[k] == t[i];
        assert(s[k].place == Seq::<char>::empty());
    }
}

proof fn lemma_shared_placeless(a: Seq<AmountView>, b: Seq<AmountView>)
    requires
        views_placeless(a),
    ensures
        forall|i: int|
            0 <= i < shared(a, b).len() ==> (#[trigger] shared(a, b)[i]).place
                == Seq::<char>::empty(),
    decreases a.len(),
{
    if a.len() > 0 {
        assert forall|i: int| 0 <= i < a.len() - 1 implies a.drop_last()[i] == #[trigger] a[i] by {}
        lemma_shared_placeless(a.drop_last(), b);
        assert(a[a.len() - 1].place == Seq::<char>::empty());
    }
}

proof fn lemma_deltas_placeless(s: Seq<DeltaView>)
    requires
        forall|i: int| 0 <= i < s.len() ==> (#[trigger] s[i]).place == Seq::<char>::empty(),
    ensures
        forall|i: int|
            0 <= i < ordered(s, by_change()).len() ==> (#[trigger] ordered(
                s,
                by_change(),
            )[i]).place == Seq::<char>::empty(),
{
    let t = ordered(s, by_change());
    assert forall|i: int| 0 <= i < t.len() implies (#[trigger] t[i]).place
        == Seq::<char>::empty() by {
        assert(t.contains(t[i]));
        crate::sort::lemma_ordered_contains(s, by_change(), t[i]);
        let k = choose|k: int| 0 <= k < s.len() && s[k] == t[i];
        assert(s[k].place == Seq::<char>::empty());
    }
}

/// Changes that can be told as signed numbers without a place.
spec fn plain(s: Seq<Change>) -> bool {
    forall|i: int|
        0 <= i < s.len() ==> (#[trigger] s[i]).a <= i64::MAX && s[i].b <= i64::MAX
            && s[i].place@ == Seq::<char>::empty()
}

fn scope_deltas_of(list: Vec<Change>) -> (r: Vec<ScopeDelta>)
    requires
        plain(list@),
    ensures
        scope_delta_views(r@) == change_views(list@),
        forall|i: int| 0 <= i < r@.len() ==> pct_ok((#[trigger] r@[i]).delta_pct),
{
    let mut r: Vec<ScopeDelta> = Vec::new();
    let mut i: usize = 0;
    while i < list.len()
        invariant
            i <= list@.len(),
            plain(list@),
            r@.len() == i,
            forall|k: int| 0 <= k < i ==> (#[trigger] r@[k])@ == list@[k]@,
            forall|k: int| 0 <= k < i ==> pct_ok((#[trigger] r@[k]).delta_pct),
        decreases list@.len() - i,
    {
        let c = &list[i];
        let d = ScopeDelta {
            qualname: c.name.clone(),
            a_gpu_ns: c.a,
            b_gpu_ns: c.b,
            delta_ns: signed(c.a, c.b),
            delta_pct: pct(c.a, c.b),
        };
        assert(d@ == c@);
        r.push(d);
        i = i + 1;
    }
    assert(scope_delta_views(r@) =~= change_views(list@));
    r
}

fn op_deltas_of(list: Vec<Change>) -> (r: Vec<OpDelta>)
    requires
        plain(list@),
    ensures
        op_delta_views(r@) == change_views(list@),
        forall|i: int| 0 <= i < r@.len() ==> pct_ok((#[trigger] r@[i]).delta_pct),
{
    let mut r: Vec<OpDelta> = Vec::new();
    let mut i: usize = 0;
    while i < list.len()
        invariant
            i <= list@.len(),
            plain(list@),
            r@.len() == i,
            forall|k: int| 0 <= k < i ==> (#[trigger] r@[k])@ == list@[k]@,
            forall|k: int| 0 <= k < i ==> pct_ok((#[trigger] r@[k]).delta_pct),
        decreases list@.len() - i,
    {
        let c = &list[i];
        let d = OpDelta {
            kind: c.name.clone(),
            a_gpu_ns: c.a,
            b_gpu_ns: c.b,
            delta_ns: signed(c.a, c.b),
            delta_pct: pct(c.a, c.b),
        };
        assert(d@ == c@);
        r.push(d);
        i = i + 1;
    }
    assert(op_delta_views(r@) =~= change_views(list@));
    r
}

fn memory_deltas_of(list: Vec<Change>) -> (r: Vec<MemoryDelta>)
    requires
        plain(list@),
    ensures
        memory_delta_views(r@) == change_views(list@),
        forall|i: int| 0 <= i < r@.len() ==> pct_ok((#[trigger] r@[i]).delta_pct),
{
    let mut r: Vec<MemoryDelta> = Vec::new();
    let mut i: usize = 0;
    while i < list.len()
        invariant
            i <= list@.len(),
            plain(list@),
            r@.len() == i,
            forall|k: int| 0 <= k < i ==> (#[trigger] r@[k])@ == list@[k]@,
            forall|k: int| 0 <= k < i ==> pct_ok((#[trigger] r@[k]).delta_pct),
        decreases list@.len() - i,
    {
        let c = &list[i];
        let d = MemoryDelta {
            qualname: c.name.clone(),
            a_peak_bytes: c.a,
            b_peak_bytes: c.b,
            delta_bytes: signed(c.a, c.b),
            delta_pct: pct(c.a, c.b),
        };
        assert(d@ == c@);
        r.push(d);
        i = i + 1;
    }
    assert(memory_delta_views(r@) =~= change_views(list@));
    r
}

/// A percentage that can be written out.
pub open spec fn pct_ok(p: Option<Percent>) -> bool {
    p matches Some(p) ==> p.magnitude@.moderate()
}

/// All percentages can be written out.
pub open spec fn diff_ok(d: SessionDiff) -> bool {
    &&& forall|i: int|
        0 <= i < d.scope_deltas@.len() ==> pct_ok((#[trigger] d.scope_deltas@[i]).delta_pct)
    &&& forall|i: int|
        0 <= i < d.op_deltas@.len() ==> pct_ok((#[trigger] d.op_deltas@[i]).delta_pct)
}

/// Compares two sessions. A session without events has neither scopes nor
/// kernels.
pub fn diff_sessions(a_events: &[Event], b_events: &[Event]) -> (r: SessionDiff)
    requires
        comparable(a_events@),
        comparable(b_events@),
    ensures
        r@ == diff_of(a_events@, b_events@),
        diff_ok(r),
{
    let a_scopes = scope_map(a_events);
    let b_scopes = scope_map(b_events);
    let a_ops = op_map(a_events);
    let b_ops = op_map(b_events);
    let ghost (x, y) = (scope_amounts(a_events@), scope_amounts(b_events@));
    proof {
        lemma_scope_amounts_placeless(a_events@);
        lemma_scope_amounts_placeless(b_events@);
        lemma_shared_placeless(x, y);
        lemma_deltas_placeless(shared(x, y));
        lemma_only_placeless(x, y);
        lemma_only_placeless(y, x);
        lemma_ordered_placeless(only(x, y));
        lemma_ordered_placeless(only(y, x));
        lemma_deltas_placeless(either(op_amounts(a_events@), op_amounts(b_events@)));
    }
    let both = shared_changes(&a_scopes, &b_scopes);
    let ops = either_changes(&a_ops, &b_ops);
    let only_a = only_amounts(&a_scopes, &b_scopes);
    let only_b = only_amounts(&b_scopes, &a_scopes);
    proof {
        assert forall|i: int| 0 <= i < both@.len() implies (#[trigger] both@[i]).a <= i64::MAX
            && both@[i].b <= i64::MAX && both@[i].place@ == Seq::<char>::empty() by {
            assert(change_views(both@)[i] == both@[i]@);
        }
        assert forall|i: int| 0 <= i < ops@.len() implies (#[trigger] ops@[i]).place@
            == Seq::<char>::empty() by {
            assert(change_views(ops@)[i] == ops@[i]@);
        }
        assert forall|i: int| 0 <= i < only_a@.len() implies (#[trigger] only_a@[i]).place@
            == Seq::<char>::empty() by {
            assert(amount_views(only_a@)[i] == only_a@[i]@);
        }
        assert forall|i: int| 0 <= i < only_b@.len() implies (#[trigger] only_b@[i]).place@
            == Seq::<char>::empty() by {
            assert(amount_views(only_b@)[i] == only_b@[i]@);
        }
    }
    SessionDiff {
        scope_deltas: scope_deltas_of(both),
        op_deltas: op_deltas_of(ops),
        scopes_only_in_a: aggregates(only_a),
        scopes_only_in_b: aggregates(only_b),
    }
}

proof fn lemma_scope_amounts_placeless(events: Seq<Event>)
    ensures
        views_placeless(scope_amounts(events)),
{
    lemma_amounts_placeless(tallied(scope_list(root_of(events))), "<root>"@);
}

/// Peak memory per scope.
pub open spec fn peak_amounts(events: Seq<Event>) -> Seq<AmountView> {
    memory_of(events).map_values(
        |r: (Seq<char>, Reading)| AmountView { name: r.0, place: seq![], value: r.1.peak },
    )
}

/// The peaks of a session, and their differences, fit.
pub open spec fn peaks_comparable(events: Seq<Event>) -> bool {
    forall|i: int| 0 <= i < memory_of(events).len() ==> (#[trigger] memory_of(events)[i]).1.peak
        <= i64::MAX
}

fn peak_map(events: &[Event]) -> (r: Vec<Amount>)
    ensures
        amount_views(r@) == peak_amounts(events@),
{
    let rows = compute_memory_breakdown(events);
    let ghost all = memory_of(events@);
    let mut r: Vec<Amount> = Vec::new();
    let mut i: usize = 0;
    while i < rows.len()
        invariant
            i <= rows@.len(),
            all == memory_views(rows@),
            r@.len() == i,
            forall|k: int|
                0 <= k < i ==> (#[trigger] r@[k])@ == (AmountView {
                    name: all[k].0,
                    place: seq![],
                    value: all[k].1.peak,
                }),
        decreases rows@.len() - i,
    {
        assert(all[i as int] == rows@[i as int]@);
        let x = Amount {
            name: rows[i].qualname.clone(),
            place: String::new(),
            value: rows[i].peak_bytes,
        };
        assert(x.place@ =~= seq![]);
        r.push(x);
        i = i + 1;
    }
    assert(amount_views(r@) =~= peak_amounts(events@));
    r
}

/// Compares the peak memory of the scopes of two sessions.
pub fn diff_memory(a_events: &[Event], b_events: &[Event]) -> (r: Vec<MemoryDelta>)
    requires
        peaks_comparable(a_events@),
        peaks_comparable(b_events@),
    ensures
        memory_delta_views(r@) == ordered(
            shared(peak_amounts(a_events@), peak_amounts(b_events@)),
            by_change(),
        ),
        forall|i: int| 0 <= i < r@.len() ==> pct_ok((#[trigger] r@[i]).delta_pct),
{
    let a = peak_map(a_events);
    let b = peak_map(b_events);
    let ghost (x, y) = (peak_amounts(a_events@), peak_amounts(b_events@));
    let both = shared_changes(&a, &b);
    proof {
        lemma_shared_placeless(x, y);
        lemma_deltas_placeless(shared(x, y));
        assert forall|i: int| 0 <= i < a@.len() implies (#[trigger] a@[i]).value <= i64::MAX by {
            assert(amount_views(a@)[i] == a@[i]@);
            assert(memory_of(a_events@)[i].1.peak <= i64::MAX);
        }
        assert forall|i: int| 0 <= i < b@.len() implies (#[trigger] b@[i]).value <= i64::MAX by {
            assert(amount_views(b@)[i] == b@[i]@);
            assert(memory_of(b_events@)[i].1.peak <= i64::MAX);
        }
        assert forall|i: int| 0 <= i < both@.len() implies (#[trigger] both@[i]).a <= i64::MAX
            && both@[i].b <= i64::MAX && both@[i].place@ == Seq::<char>::empty() by {
            assert(change_views(both@)[i] == both@[i]@);
        }
    }
    memory_deltas_of(both)
}

/// Can [`diff_memory`] be asked about a session?
pub fn can_diff_memory(events: &[Event]) -> (b: bool)
    ensures
        b == peaks_comparable(events@),
{
    let rows = compute_memory_breakdown(events);
    let ghost all = memory_of(events@);
    let mut i: usize = 0;
    while i < rows.len()
        invariant
            i <= rows@.len(),
            all == memory_views(rows@),
            all == memory_of(events@),
            forall|k: int| 0 <= k < i ==> (#[trigger] all[k]).1.peak <= i64::MAX,
        decreases rows@.len() - i,
    {
        assert(all[i as int] == rows@[i as int]@);
        if rows[i].peak_bytes > i64::MAX as u64 {
            assert(memory_of(events@)[i as int].1.peak > i64::MAX);
            return false;
        }
        i = i + 1;
    }
    true
}

/// GPU time per origin.
pub open spec fn origin_amounts(events: Seq<Event>) -> Seq<AmountView> {
    origins_of(events).map_values(
        |o: OriginView| AmountView { name: o.kind, place: o.file_line, value: o.gpu_ns as u64 },
    )
}

/// The origins of a session, and their differences, fit.
pub open spec fn origins_comparable(events: Seq<Event>) -> bool {
    origins_fit(events) && forall|i: int|
        0 <= i < origins_of(events).len() ==> (#[trigger] origins_of(events)[i]).gpu_ns <= i64::MAX
}

fn origin_map(events: &[Event]) -> (r: Vec<Amount>)
    requires
        origins_comparable(events@),
    ensures
        amount_views(r@) == origin_amounts(events@),
        at_most(r@, i64::MAX as int),
{
    let rows = compute_dispatch_origins(events);
    let ghost all = origins_of(events@);
    let mut r: Vec<Amount> = Vec::new();
    let mut i: usize = 0;
    while i < rows.len()
        invariant
            i <= rows@.len(),
            all == origin_views(rows@),
            all == origins_of(events@),
            origins_comparable(events@),
            r@.len() == i,
            forall|k: int|
                0 <= k < i ==> (#[trigger] r@[k])@ == (AmountView {
                    name: all[k].kind,
                    place: all[k].file_line,
                    value: all[k].gpu_ns as u64,
                }),
            at_most(r@, i64::MAX as int),
        decreases rows@.len() - i,
    {
        assert(all[i as int] == rows@[i as int]@);
        assert(origins_of(events@)[i as int].gpu_ns <= i64::MAX);
        r.push(
            Amount {
                name: rows[i].kind.clone(),
                place: rows[i].file_line.clone(),
                value: rows[i].gpu_ns,
            },
        );
        i = i + 1;
    }
    assert(amount_views(r@) =~= origin_amounts(events@));
    r
}

/// Compares the GPU time of the origins of two sessions.
pub fn diff_origins(a_events: &[Event], b_events: &[Event]) -> (r: Vec<OriginDelta>)
    requires
        origins_comparable(a_events@),
        origins_comparable(b_events@),
    ensures
        origin_delta_views(r@) == ordered(
            shared(origin_amounts(a_events@), origin_amounts(b_events@)),
            by_change(),
        ),
        forall|i: int| 0 <= i < r@.len() ==> pct_ok((#[trigger] r@[i]).delta_pct),
{
    let a = origin_map(a_events);
    let b = origin_map(b_events);
    let both = shared_changes(&a, &b);
    let mut r: Vec<OriginDelta> = Vec::new();
    let mut i: usize = 0;
    while i < both.len()
        invariant
            i <= both@.len(),
            forall|i: int|
                0 <= i < both@.len() ==> (#[trigger] both@[i]).a <= i64::MAX && both@[i].b
                    <= i64::MAX,
            r@.len() == i,
            forall|k: int| 0 <= k < i ==> (#[trigger] r@[k])@ == both@[k]@,
            forall|k: int| 0 <= k < i ==> pct_ok((#[trigger] r@[k]).delta_pct),
        decreases both@.len() - i,
    {
        let c = &both[i];
        let d = OriginDelta {
            kind: c.name.clone(),
            file_line: c.place.clone(),
            a_gpu_ns: c.a,
            b_gpu_ns: c.b,
            delta_ns: signed(c.a, c.b),
            delta_pct: pct(c.a, c.b),
        };
        assert(d@ == c@);
        r.push(d);
        i = i + 1;
    }
    assert(origin_delta_views(r@) =~= change_views(both@));
    r
}

/// Can [`diff_origins`] be asked about a session?
pub fn can_diff_origins(events: &[Event]) -> (b: bool)
    ensures
        b == origins_comparable(events@),
{
    let rows = match try_dispatch_origins(events) {
        Some(rows) => rows,
        None => return false,
    };
    let ghost all = origins_of(events@);
    let mut i: usize = 0;
    while i < rows.len()
        invariant
            i <= rows@.len(),
            all == origin_views(rows@),
            all == origins_of(events@),
            forall|k: int| 0 <= k < i ==> (#[trigger] all[k]).gpu_ns <= i64::MAX,
        decreases rows@.len() - i,
    {
        assert(all[i as int] == rows@[i as int]@);
        if rows[i].gpu_ns > i64::MAX as u64 {
            assert(origins_of(events@)[i as int].gpu_ns > i64::MAX);
            return false;
        }
        i = i + 1;
    }
    true
}

/// Does each of `rows` fit a signed number?
fn all_signed(rows: &Vec<Amount>) -> (b: bool)
    ensures
        b == signed_all(amount_views(rows@)),
{
    let mut i: usize = 0;
    while i < rows.len()
        invariant
            i <= rows@.len(),
            forall|k: int| 0 <= k < i ==> (#[trigger] amount_views(rows@)[k]).value <= i64::MAX,
        decreases rows@.len() - i,
    {
        assert(amount_views(rows@)[i as int] == rows@[i as int]@);
        if rows[i].value > i64::MAX as u64 {
            return false;
        }
        i = i + 1;
    }
    true
}

/// Can [`diff_sessions`] be asked about a session?
pub fn can_diff_sessions(events: &[Event]) -> (b: bool)
    ensures
        b == comparable(events@),
{
    if events.len() == 0 {
        return true;
    }
    if !can_compute(events) {
        return false;
    }
    match (try_scope_map(events), try_op_map(events)) {
        (Some(scopes), Some(ops)) => all_signed(&scopes) && all_signed(&ops),
        _ => false,
    }
}

/// No two things have the same name and place.
pub open spec fn distinct(rows: Seq<AmountView>) -> bool {
    forall|i: int, j: int|
        0 <= i < j < rows.len() ==> !((#[trigger] rows[i]).name == (#[trigger] rows[j]).name
            && rows[i].place == rows[j].place)
}

proof fn lemma_find_own(rows: Seq<AmountView>, i: int)
    requires
        distinct(rows),
        0 <= i < rows.len(),
    ensures
        find(rows, rows[i].name, rows[i].place) == Some(i),
{
    lemma_find(rows, rows[i].name, rows[i].place);
}

proof fn lemma_amounts_distinct(rows: Seq<Entry>, without: Seq<char>)
    requires
        forall|i: int, j: int|
            0 <= i < j < rows.len() ==> (#[trigger] rows[i]).key != (#[trigger] rows[j]).key,
    ensures
        distinct(amounts(rows, without)),
        forall|k: int|
            0 <= k < amounts(rows, without).len() ==> exists|i: int|
                0 <= i < rows.len() && (#[trigger] rows[i]).key == (#[trigger] amounts(
                    rows,
                    without,
                )[k]).name,
    decreases rows.len(),
{
    if rows.len() > 0 {
        let rest = rows.drop_last();
        let last = rows[rows.len() - 1];
        assert forall|i: int, j: int| 0 <= i < j < rest.len() implies (#[trigger] rest[i]).key != (
        #[trigger] rest[j]).key by {
            assert(rest[i] == rows[i] && rest[j] == rows[j]);
        }
        lemma_amounts_distinct(rest, without);
        let (x, y) = (amounts(rest, without), amounts(rows, without));
        assert forall|k: int| 0 <= k < x.len() implies exists|i: int|
            0 <= i < rows.len() - 1 && (#[trigger] rows[i]).key == (#[trigger] x[k]).name by {
            let i = choose|i: int| 0 <= i < rest.len() && (#[trigger] rest[i]).key == x[k].name;
            assert(rows[i] == rest[i]);
        }
        assert forall|k: int| 0 <= k < y.len() implies exists|i: int|
            0 <= i < rows.len() && (#[trigger] rows[i]).key == (#[trigger] y[k]).name by {
            if k < x.len() {
                assert(y[k] == x[k]);
            } else {
                assert(last.key == y[k].name);
            }
        }
        assert forall|i: int, j: int| 0 <= i < j < y.len() implies !((#[trigger] y[i]).name == (
        #[trigger] y[j]).name && y[i].place == y[j].place) by {
            assert(y[i] == x[i]);
            if j < x.len() {
                assert(y[j] == x[j]);
            } else {
                let k = choose|k: int|
                    0 <= k < rows.len() - 1 && (#[trigger] rows[k]).key == x[i].name;
                assert(rows[k].key != last.key);
            }
        }
    }
}

/// The scopes of a session have distinct names.
pub proof fn scopes_are_distinct(events: Seq<Event>)
    ensures
        distinct(scope_amounts(events)),
{
    if events.len() > 0 {
        let list = scope_list(root_of(events));
        crate::tally::tally_names_are_distinct(list);
        lemma_amounts_distinct(tallied(list), "<root>"@);
    }
}

proof fn lemma_shared_contains(
    x: Seq<AmountView>,
    y: Seq<AmountView>,
    n: Seq<char>,
    p: Seq<char>,
    u: u64,
    v: u64,
)
    requires
        distinct(x),
    ensures
        shared(x, y).contains(delta_of(n, p, u, v)) <==> {
            &&& find(x, n, p) matches Some(i) && x[i].value == u
            &&& find(y, n, p) matches Some(k) && y[k].value == v
        },
    decreases x.len(),
{
    let d = delta_of(n, p, u, v);
    if x.len() == 0 {
        assert(!shared(x, y).contains(d));
    } else {
        let rest = x.drop_last();
        let last = x[x.len() - 1];
        assert(distinct(rest)) by {
            assert forall|i: int| 0 <= i < rest.len() implies rest[i] == #[trigger] x[i] by {}
        }
        lemma_shared_contains(rest, y, n, p, u, v);
        lemma_find(rest, n, p);
        if last.name == n && last.place == p {
            if let Some(i) = find(rest, n, p) {
                assert(x[i] == rest[i]);
                assert(false);
            }
        }
        match find(y, last.name, last.place) {
            Some(k) => {
                let e = delta_of(last.name, last.place, last.value, y[k].value);
                let s = shared(rest, y);
                assert(shared(x, y) == s.push(e));
                if s.contains(d) {
                    let i = choose|i: int| 0 <= i < s.len() && s[i] == d;
                    assert(s.push(e)[i] == d);
                }
                if e == d {
                    assert(s.push(e)[s.len() as int] == d);
                }
                if s.push(e).contains(d) {
                    let i = choose|i: int| 0 <= i < s.push(e).len() && s.push(e)[i] == d;
                    if i < s.len() {
                        assert(s[i] == d);
                    }
                }
            },
            None => {},
        }
    }
}

/// A session compared with itself: nothing changed, and no scope is on one side
/// alone.
pub proof fn self_diff_is_zero(events: Seq<Event>)
    ensures
        forall|i: int|
            0 <= i < diff_of(events, events).scopes.len() ==> (#[trigger] diff_of(
                events,
                events,
            ).scopes[i]).delta == 0,
        forall|i: int|
            0 <= i < diff_of(events, events).ops.len() ==> (#[trigger] diff_of(
                events,
                events,
            ).ops[i]).delta == 0,
        diff_of(events, events).only_a.len() == 0,
        diff_of(events, events).only_b.len() == 0,
{
    let x = scope_amounts(events);
    let o = op_amounts(events);
    let d = diff_of(events, events);
    scopes_are_distinct(events);
    lemma_only_self(x, x);
    assert(ordered(only(x, x), by_value()) =~= seq![]);
    lemma_shared_self(x, x);
    assert forall|i: int| 0 <= i < d.scopes.len() implies (#[trigger] d.scopes[i]).delta == 0 by {
        let s = shared(x, x);
        assert(d.scopes.contains(d.scopes[i]));
        crate::sort::lemma_ordered_contains(s, by_change(), d.scopes[i]);
        let k = choose|k: int| 0 <= k < s.len() && s[k] == d.scopes[i];
        assert(s[k].delta == 0);
    }
    assert forall|i: int| 0 <= i < d.ops.len() implies (#[trigger] d.ops[i]).delta == 0 by {
        let s = either(o, o);
        assert(d.ops.contains(d.ops[i]));
        crate::sort::lemma_ordered_contains(s, by_change(), d.ops[i]);
        let k = choose|k: int| 0 <= k < s.len() && s[k] == d.ops[i];
        assert(s[k].delta == 0);
    }
}

proof fn lemma_only_self(part: Seq<AmountView>, x: Seq<AmountView>)
    requires
        part.len() <= x.len(),
        forall|i: int| 0 <= i < part.len() ==> #[trigger] part[i] == x[i],
    ensures
        only(part, x) == Seq::<AmountView>::empty(),
    decreases part.len(),
{
    if part.len() > 0 {
        lemma_only_self(part.drop_last(), x);
        let last = part[part.len() - 1];
        lemma_find(x, last.name, last.place);
        assert(x[part.len() - 1] == last);
    }
}

proof fn lemma_shared_self(part: Seq<AmountView>, x: Seq<AmountView>)
    requires
        distinct(x),
        part.len() <= x.len(),
        forall|i: int| 0 <= i < part.len() ==> #[trigger] part[i] == x[i],
    ensures
        forall|i: int|
            0 <= i < shared(part, x).len() ==> (#[trigger] shared(part, x)[i]).delta == 0,
    decreases part.len(),
{
    if part.len() > 0 {
        lemma_shared_self(part.drop_last(), x);
        assert(part[part.len() - 1] == x[part.len() - 1]);
        lemma_find_own(x, part.len() - 1);
    }
}

proof fn lemma_only_from(a: Seq<AmountView>, b: Seq<AmountView>, m: int)
    requires
        0 <= m < only(a, b).len(),
    ensures
        a.contains(only(a, b)[m]),
    decreases a.len(),
{
    let rest = a.drop_last();
    if m < only(rest, b).len() {
        lemma_only_from(rest, b, m);
        let k = choose|k: int| 0 <= k < rest.len() && rest[k] == only(rest, b)[m];
        assert(a[k] == only(a, b)[m]);
    } else {
        assert(a[a.len() - 1] == only(a, b)[m]);
    }
}

/// No thing has a place.
spec fn no_places(s: Seq<AmountView>) -> bool {
    forall|i: int| 0 <= i < s.len() ==> (#[trigger] s[i]).place == Seq::<char>::empty()
}

proof fn lemma_names(a: Seq<AmountView>, b: Seq<AmountView>, n: Seq<char>)
    requires
        no_places(a),
        no_places(b),
    ensures
        all_names(a, b).contains(n) <==> (find(a, n, seq![]) is Some || find(b, n, seq![]) is Some),
{
    let names = all_names(a, b);
    let rest = only(b, a);
    lemma_find(a, n, seq![]);
    lemma_find(b, n, seq![]);
    if names.contains(n) {
        let k = choose|k: int| 0 <= k < names.len() && names[k] == n;
        if k < a.len() {
            assert(a[k].name == n);
        } else {
            let m = k - a.len();
            assert(rest[m].name == n);
            lemma_only_from(b, a, m);
            let i = choose|i: int| 0 <= i < b.len() && b[i] == rest[m];
            assert(b[i].name == n);
        }
    }
    if let Some(i) = find(a, n, seq![]) {
        assert(names[i] == n);
    } else if let Some(i) = find(b, n, seq![]) {
        lemma_only_contains(b, a, i);
        let m = choose|m: int| 0 <= m < rest.len() && rest[m] == b[i];
        assert(names[a.len() + m] == n);
    }
}

/// The rows of [`either`] are those of the names on either side.
proof fn lemma_either_contains(
    a: Seq<AmountView>,
    b: Seq<AmountView>,
    n: Seq<char>,
    u: u64,
    v: u64,
)
    ensures
        either(a, b).contains(delta_of(n, seq![], u, v)) <==> all_names(a, b).contains(n)
            && value_of(a, n) == u && value_of(b, n) == v,
{
    let names = ordered(all_names(a, b), by_name());
    let d = delta_of(n, seq![], u, v);
    let e = either(a, b);
    crate::sort::lemma_ordered_contains(all_names(a, b), by_name(), n);
    if e.contains(d) {
        let i = choose|i: int| 0 <= i < e.len() && e[i] == d;
        assert(names[i] == n);
        assert(names.contains(n));
    }
    if all_names(a, b).contains(n) && value_of(a, n) == u && value_of(b, n) == v {
        let i = choose|i: int| 0 <= i < names.len() && names[i] == n;
        assert(e[i] == d);
    }
}

/// Swapping the sides swaps the changes: a scope or a kind of kernel goes from `u`
/// to `v` one way exactly where it goes from `v` to `u` the other way, the change
/// is the opposite one, and the scopes of one side alone change sides.
pub proof fn swapped_diff_is_mirrored(
    a: Seq<Event>,
    b: Seq<Event>,
    name: Seq<char>,
    u: u64,
    v: u64,
)
    ensures
        diff_of(a, b).scopes.contains(delta_of(name, seq![], u, v)) <==> diff_of(
            b,
            a,
        ).scopes.contains(delta_of(name, seq![], v, u)),
        diff_of(a, b).ops.contains(delta_of(name, seq![], u, v)) <==> diff_of(
            b,
            a,
        ).ops.contains(delta_of(name, seq![], v, u)),
        delta_of(name, seq![], u, v).delta == -delta_of(name, seq![], v, u).delta,
        diff_of(a, b).only_a == diff_of(b, a).only_b,
        diff_of(a, b).only_b == diff_of(b, a).only_a,
{
    let (x, y) = (scope_amounts(a), scope_amounts(b));
    let (o, q) = (op_amounts(a), op_amounts(b));
    let (d, e) = (delta_of(name, seq![], u, v), delta_of(name, seq![], v, u));
    scopes_are_distinct(a);
    scopes_are_distinct(b);
    lemma_shared_contains(x, y, name, seq![], u, v);
    lemma_shared_contains(y, x, name, seq![], v, u);
    crate::sort::lemma_ordered_contains(shared(x, y), by_change(), d);
    crate::sort::lemma_ordered_contains(shared(y, x), by_change(), e);
    assert(no_places(o) && no_places(q));
    lemma_names(o, q, name);
    lemma_names(q, o, name);
    lemma_either_contains(o, q, name, u, v);
    lemma_either_contains(q, o, name, v, u);
    crate::sort::lemma_ordered_contains(either(o, q), by_change(), d);
    crate::sort::lemma_ordered_contains(either(q, o), by_change(), e);
}

/// Every scope of the first session is told once: as a change where the second
/// session has it too, and else among the scopes of the first session alone.
pub proof fn every_scope_is_told(a: Seq<Event>, b: Seq<Event>, i: int)
    requires
        0 <= i < scope_amounts(a).len(),
    ensures
        ({
            let x = scope_amounts(a)[i];
            match find(scope_amounts(b), x.name, x.place) {
                Some(k) => {
                    &&& diff_of(a, b).scopes.contains(
                        delta_of(x.name, x.place, x.value, scope_amounts(b)[k].value),
                    )
                    &&& !diff_of(a, b).only_a.contains(x)
                },
                None => diff_of(a, b).only_a.contains(x),
            }
        }),
{
    let (x, y) = (scope_amounts(a), scope_amounts(b));
    scopes_are_distinct(a);
    lemma_find_own(x, i);
    lemma_only_contains(x, y, i);
    crate::sort::lemma_ordered_contains(only(x, y), by_value(), x[i]);
    if let Some(k) = find(y, x[i].name, x[i].place) {
        let d = delta_of(x[i].name, x[i].place, x[i].value, y[k].value);
        lemma_shared_contains(x, y, x[i].name, x[i].place, x[i].value, y[k].value);
        crate::sort::lemma_ordered_contains(shared(x, y), by_change(), d);
    }
}

pub proof fn lemma_only_contains(x: Seq<AmountView>, y: Seq<AmountView>, i: int)
    requires
        0 <= i < x.len(),
    ensures
        only(x, y).contains(x[i]) <==> find(y, x[i].name, x[i].place) is None,
    decreases x.len(),
{
    let rest = x.drop_last();
    let last = x[x.len() - 1];
    let s = only(rest, y);
    if i < rest.len() {
        assert(rest[i] == x[i]);
        lemma_only_contains(rest, y, i);
    } else {
        lemma_only_lacks(rest, y, last);
    }
    if find(y, last.name, last.place) is None {
        if s.contains(x[i]) {
            let k = choose|k: int| 0 <= k < s.len() && s[k] == x[i];
            assert(s.push(last)[k] == x[i]);
        }
        assert(s.push(last)[s.len() as int] == last);
        if s.push(last).contains(x[i]) {
            let k = choose|k: int| 0 <= k < s.push(last).len() && s.push(last)[k] == x[i];
            if k < s.len() {
                assert(s[k] == x[i]);
            }
        }
    }
}

proof fn lemma_only_lacks(x: Seq<AmountView>, y: Seq<AmountView>, e: AmountView)
    ensures
        find(y, e.name, e.place) is Some ==> !only(x, y).contains(e),
    decreases x.len(),
{
    if x.len() > 0 {
        lemma_only_lacks(x.drop_last(), y, e);
        let s = only(x.drop_last(), y);
        if find(y, e.name, e.place) is Some && only(x, y).contains(e) {
            let k = choose|k: int| 0 <= k < only(x, y).len() && only(x, y)[k] == e;
            if k < s.len() {
                assert(s[k] == e);
            }
        }
    }
}

/// The percentage has the sign of the change, and there is none of nothing: what
/// grows is never shown as shrinking, what shrinks never as growing, and what stays
/// the same changes by zero.
pub proof fn percentages_have_the_sign_of_the_change(
    name: Seq<char>,
    place: Seq<char>,
    a: u64,
    b: u64,
)
    ensures
        ({
            let d = delta_of(name, place, a, b);
            &&& d.delta == b - a
            &&& d.pct is None <==> a == 0
            &&& d.pct matches Some(p) ==> {
                &&& p.negative ==> d.delta < 0
                &&& d.delta > 0 ==> !p.negative
                &&& d.delta == 0 ==> !p.negative && p.magnitude.mant == 0
                &&& a < HIGH && b < HIGH ==> (p.negative <==> d.delta < 0)
            }
        }),
{
    if b >= a {
        lemma_whole_monotone(a as nat, b as nat);
    }
    if a == b {
        assert(of_int(0).mant == 0);
    }
}

} // verus!
