//! Adding up kernels under a common name.

use crate::text::opt_view;
use vstd::hash_map::StringHashMap;
use vstd::prelude::*;

verus! {

broadcast use {vstd::hash_map::group_hash_map_axioms, vstd::string::group_string_axioms};

/// GPU time and dispatches booked under one name.
pub struct Row {
    pub key: String,
    pub gpu_ns: u64,
    pub count: u64,
    /// The first kernel symbol booked, if any.
    pub symbol: Option<String>,
    /// The first kind booked, if any.
    pub kind: Option<String>,
}

/// The view of a [`Row`], and what is booked into one.
pub ghost struct Entry {
    pub key: Seq<char>,
    pub gpu_ns: nat,
    pub count: nat,
    pub symbol: Option<Seq<char>>,
    pub kind: Option<Seq<char>>,
}

impl View for Row {
    type V = Entry;

    open spec fn view(&self) -> Entry {
        Entry {
            key: self.key@,
            gpu_ns: self.gpu_ns as nat,
            count: self.count as nat,
            symbol: opt_view(self.symbol),
            kind: opt_view(self.kind),
        }
    }
}

/// The views of a list of rows.
pub open spec fn row_views(s: Seq<Row>) -> Seq<Entry> {
    s.map_values(|r: Row| r@)
}

/// `a` where there is one, else `b`.
pub open spec fn first_of(a: Option<Seq<char>>, b: Option<Seq<char>>) -> Option<Seq<char>> {
    if a is Some {
        a
    } else {
        b
    }
}

/// Two entries under one name, booked one after the other.
pub open spec fn merged(a: Entry, b: Entry) -> Entry {
    Entry {
        key: a.key,
        gpu_ns: a.gpu_ns + b.gpu_ns,
        count: a.count + b.count,
        symbol: first_of(a.symbol, b.symbol),
        kind: first_of(a.kind, b.kind),
    }
}

/// Where the row of `key` stands.
pub open spec fn row_of(rows: Seq<Entry>, key: Seq<char>) -> Option<int>
    decreases rows.len(),
{
    if rows.len() == 0 {
        None
    } else if row_of(rows.drop_last(), key) is Some {
        row_of(rows.drop_last(), key)
    } else if rows.last().key == key {
        Some(rows.len() - 1)
    } else {
        None
    }
}

/// `rows` with `e` booked.
pub open spec fn booked(rows: Seq<Entry>, e: Entry) -> Seq<Entry> {
    match row_of(rows, e.key) {
        Some(i) => rows.update(i, merged(rows[i], e)),
        None => rows.push(e),
    }
}

/// One row per name, in the order in which the names first occur.
pub open spec fn tallied(s: Seq<Entry>) -> Seq<Entry>
    decreases s.len(),
{
    if s.len() == 0 {
        seq![]
    } else {
        booked(tallied(s.drop_last()), s.last())
    }
}

/// The GPU time of all entries.
pub open spec fn total_ns(s: Seq<Entry>) -> nat
    decreases s.len(),
{
    if s.len() == 0 {
        0
    } else {
        total_ns(s.drop_last()) + s.last().gpu_ns
    }
}

/// The dispatches of all entries.
pub open spec fn total_count(s: Seq<Entry>) -> nat
    decreases s.len(),
{
    if s.len() == 0 {
        0
    } else {
        total_count(s.drop_last()) + s.last().count
    }
}

/// Every row is a row of 64-bit numbers.
pub open spec fn rows_fit(rows: Seq<Entry>) -> bool {
    forall|i: int|
        0 <= i < rows.len() ==> (#[trigger] rows[i]).gpu_ns <= u64::MAX && rows[i].count
            <= u64::MAX
}

pub proof fn lemma_row_of(rows: Seq<Entry>, key: Seq<char>)
    ensures
        match row_of(rows, key) {
            Some(i) => 0 <= i < rows.len() && rows[i].key == key && forall|j: int|
                0 <= j < i ==> (#[trigger] rows[j]).key != key,
            None => forall|j: int| 0 <= j < rows.len() ==> (#[trigger] rows[j]).key != key,
        },
    decreases rows.len(),
{
    if rows.len() > 0 {
        let rest = rows.drop_last();
        lemma_row_of(rest, key);
        assert forall|j: int| 0 <= j < rest.len() implies rest[j] == #[trigger] rows[j] by {}
    }
}

proof fn lemma_total_update(s: Seq<Entry>, i: int, e: Entry)
    requires
        0 <= i < s.len(),
    ensures
        total_ns(s.update(i, e)) == total_ns(s) - s[i].gpu_ns + e.gpu_ns,
        total_count(s.update(i, e)) == total_count(s) - s[i].count + e.count,
        s[i].gpu_ns <= total_ns(s),
        s[i].count <= total_count(s),
    decreases s.len(),
{
    let t = s.update(i, e);
    if i == s.len() - 1 {
        assert(t.drop_last() =~= s.drop_last());
    } else {
        lemma_total_update(s.drop_last(), i, e);
        assert(t.drop_last() =~= s.drop_last().update(i, e));
    }
}

/// Booking loses nothing and invents nothing.
pub proof fn lemma_booked(rows: Seq<Entry>, e: Entry)
    ensures
        total_ns(booked(rows, e)) == total_ns(rows) + e.gpu_ns,
        total_count(booked(rows, e)) == total_count(rows) + e.count,
        booked(rows, e).len() <= rows.len() + 1,
{
    lemma_row_of(rows, e.key);
    match row_of(rows, e.key) {
        Some(i) => lemma_total_update(rows, i, merged(rows[i], e)),
        None => assert(rows.push(e).drop_last() =~= rows),
    }
}

/// The rows of a tally add up to exactly what was booked.
pub proof fn tally_conserves(s: Seq<Entry>)
    ensures
        total_ns(tallied(s)) == total_ns(s),
        total_count(tallied(s)) == total_count(s),
        tallied(s).len() <= s.len(),
    decreases s.len(),
{
    if s.len() > 0 {
        tally_conserves(s.drop_last());
        lemma_booked(tallied(s.drop_last()), s.last());
    }
}

/// No name has two rows.
pub proof fn tally_names_are_distinct(s: Seq<Entry>)
    ensures
        forall|i: int, j: int|
            0 <= i < j < tallied(s).len() ==> (#[trigger] tallied(s)[i]).key != (
            #[trigger] tallied(s)[j]).key,
    decreases s.len(),
{
    if s.len() > 0 {
        let rows = tallied(s.drop_last());
        let e = s.last();
        tally_names_are_distinct(s.drop_last());
        lemma_row_of(rows, e.key);
        let t = tallied(s);
        assert forall|i: int, j: int| 0 <= i < j < t.len() implies (#[trigger] t[i]).key != (
        #[trigger] t[j]).key by {
            match row_of(rows, e.key) {
                Some(k) => {
                    assert(t[i].key == rows[i].key);
                    assert(t[j].key == rows[j].key);
                },
                None => {
                    assert(t[i] == rows[i]);
                    if j < rows.len() {
                        assert(t[j] == rows[j]);
                    }
                },
            }
        }
    }
}

/// Where the rows fit after booking `e`, they did before.
pub proof fn lemma_booking_grows(rows: Seq<Entry>, e: Entry)
    requires
        rows_fit(booked(rows, e)),
    ensures
        rows_fit(rows),
{
    lemma_row_of(rows, e.key);
    assert forall|i: int| 0 <= i < rows.len() implies (#[trigger] rows[i]).gpu_ns <= u64::MAX
        && rows[i].count <= u64::MAX by {
        let row = booked(rows, e)[i];
        assert(row.gpu_ns >= rows[i].gpu_ns && row.count >= rows[i].count);
    }
}

/// Where the rows of a longer list fit, those of its beginning do.
pub proof fn lemma_tally_grows(a: Seq<Entry>, b: Seq<Entry>)
    requires
        rows_fit(tallied(a + b)),
    ensures
        rows_fit(tallied(a)),
    decreases b.len(),
{
    if b.len() == 0 {
        assert(a + b =~= a);
    } else {
        assert((a + b).drop_last() =~= a + b.drop_last());
        lemma_booking_grows(tallied(a + b.drop_last()), b.last());
        lemma_tally_grows(a, b.drop_last());
    }
}

/// A copy of an optional string.
pub fn copy_of(o: &Option<String>) -> (r: Option<String>)
    ensures
        opt_view(r) == opt_view(*o),
        r == *o,
{
    match o {
        Some(s) => Some(s.clone()),
        None => None,
    }
}

/// Rows under distinct names, found by name.
pub struct Tally {
    rows: Vec<Row>,
    index: StringHashMap<usize>,
}

impl View for Tally {
    type V = Seq<Entry>;

    closed spec fn view(&self) -> Seq<Entry> {
        row_views(self.rows@)
    }
}

impl Tally {
    /// The index knows every row, and nothing else.
    pub closed spec fn wf(&self) -> bool {
        &&& forall|i: int|
            0 <= i < self.rows@.len() ==> {
                &&& self.index@.contains_key((#[trigger] self.rows@[i]).key@)
                &&& self.index@[self.rows@[i].key@] == i
            }
        &&& forall|k: Seq<char>| #[trigger]
            self.index@.contains_key(k) ==> self.index@[k] < self.rows@.len()
                && self.rows@[self.index@[k] as int].key@ == k
    }

    /// The rows of a tally are rows of 64-bit numbers.
    pub proof fn lemma_fits(&self)
        ensures
            rows_fit(self@),
    {
        assert forall|i: int| 0 <= i < self@.len() implies (#[trigger] self@[i]).gpu_ns <= u64::MAX
            && self@[i].count <= u64::MAX by {
            assert(self@[i] == self.rows@[i]@);
        }
    }

    /// A tally without rows.
    pub fn new() -> (r: Tally)
        ensures
            r.wf(),
            r@ == Seq::<Entry>::empty(),
    {
        let r = Tally { rows: Vec::new(), index: StringHashMap::new() };
        assert(r@ =~= Seq::<Entry>::empty());
        r
    }

    /// Books one entry, unless its row would not fit 64 bits.
    pub fn try_add(
        &mut self,
        key: &str,
        gpu_ns: u64,
        count: u64,
        symbol: &Option<String>,
        kind: &Option<String>,
    ) -> (ok: bool)
        requires
            old(self).wf(),
        ensures
            final(self).wf(),
            ({
                let rows = booked(
                    old(self)@,
                    Entry {
                        key: key@,
                        gpu_ns: gpu_ns as nat,
                        count: count as nat,
                        symbol: opt_view(*symbol),
                        kind: opt_view(*kind),
                    },
                );
                &&& ok == rows_fit(rows)
                &&& final(self)@ == if ok {
                    rows
                } else {
                    old(self)@
                }
            }),
    {
        let ghost e = Entry {
            key: key@,
            gpu_ns: gpu_ns as nat,
            count: count as nat,
            symbol: opt_view(*symbol),
            kind: opt_view(*kind),
        };
        let ghost before = self@;
        let ghost rows = self.rows@;
        proof {
            lemma_row_of(before, key@);
            assert forall|i: int| 0 <= i < rows.len() implies #[trigger] before[i]
                == rows[i]@ by {}
        }
        match self.index.get(key) {
            Some(k) => {
                let k: usize = *k;
                proof {
                    assert(before[k as int].key == key@);
                    let i = row_of(before, key@)->0;
                    assert(self.index@[rows[i].key@] == i);
                    assert(i == k);
                    let row = booked(before, e)[k as int];
                    assert(row == merged(before[k as int], e));
                }
                let (gpu_ns, count): (u64, u64) = match (
                    self.rows[k].gpu_ns.checked_add(gpu_ns),
                    self.rows[k].count.checked_add(count),
                ) {
                    (Some(gpu_ns), Some(count)) => (gpu_ns, count),
                    _ => return false,
                };
                self.rows[k].gpu_ns = gpu_ns;
                self.rows[k].count = count;
                if self.rows[k].symbol.is_none() {
                    self.rows[k].symbol = copy_of(symbol);
                }
                if self.rows[k].kind.is_none() {
                    self.rows[k].kind = copy_of(kind);
                }
                proof {
                    assert(self.rows@[k as int]@ == merged(before[k as int], e));
                    assert(self@ =~= before.update(k as int, merged(before[k as int], e)));
                    assert forall|i: int| 0 <= i < rows.len() implies (#[trigger] self.rows@[i]).key
                        == rows[i].key by {}
                }
            },
            None => {
                proof {
                    if let Some(i) = row_of(before, key@) {
                        assert(self.index@.contains_key(rows[i].key@));
                    }
                }
                self.index.insert(key.to_owned(), self.rows.len());
                let row = Row {
                    key: key.to_owned(),
                    gpu_ns,
                    count,
                    symbol: copy_of(symbol),
                    kind: copy_of(kind),
                };
                self.rows.push(row);
                proof {
                    assert(row@ == e);
                    assert(self@ =~= before.push(e));
                    assert forall|i: int| 0 <= i < self.rows@.len() implies {
                        &&& self.index@.contains_key((#[trigger] self.rows@[i]).key@)
                        &&& self.index@[self.rows@[i].key@] == i
                    } by {
                        if i < rows.len() {
                            assert(self.rows@[i] == rows[i]);
                            assert(before[i].key != key@);
                        }
                    }
                }
            },
        }
        proof {
            self.lemma_fits();
        }
        true
    }

    /// The rows, in the order in which their names were first booked.
    pub fn into_rows(self) -> (r: Vec<Row>)
        ensures
            row_views(r@) == self@,
    {
        self.rows
    }
}

} // verus!
