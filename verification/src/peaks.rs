//! The largest record under each name.

use vstd::hash_map::StringHashMap;
use vstd::prelude::*;

verus! {

broadcast use {vstd::hash_map::group_hash_map_axioms, vstd::string::group_string_axioms};

/// A record with a size to compare by.
pub trait Sized64: Sized {
    spec fn size_of(self) -> u64;

    fn size(&self) -> (n: u64)
        ensures
            n == self.size_of(),
    ;
}

/// Where the record of `name` stands.
pub open spec fn name_row<T>(rows: Seq<(Seq<char>, T)>, name: Seq<char>) -> Option<int>
    decreases rows.len(),
{
    if rows.len() == 0 {
        None
    } else if name_row(rows.drop_last(), name) is Some {
        name_row(rows.drop_last(), name)
    } else if rows.last().0 == name {
        Some(rows.len() - 1)
    } else {
        None
    }
}

/// `rows` after `record` came in under `name`: the larger one stays, the
/// earlier one where they are equal.
pub open spec fn larger_kept<T: Sized64>(
    rows: Seq<(Seq<char>, T)>,
    name: Seq<char>,
    record: T,
) -> Seq<(Seq<char>, T)> {
    match name_row(rows, name) {
        Some(i) => if record.size_of() > rows[i].1.size_of() {
            rows.update(i, (name, record))
        } else {
            rows
        },
        None => rows.push((name, record)),
    }
}

pub proof fn lemma_name_row<T>(rows: Seq<(Seq<char>, T)>, name: Seq<char>)
    ensures
        match name_row(rows, name) {
            Some(i) => 0 <= i < rows.len() && rows[i].0 == name && forall|j: int|
                0 <= j < i ==> (#[trigger] rows[j]).0 != name,
            None => forall|j: int| 0 <= j < rows.len() ==> (#[trigger] rows[j]).0 != name,
        },
    decreases rows.len(),
{
    if rows.len() > 0 {
        let rest = rows.drop_last();
        lemma_name_row(rest, name);
        assert forall|j: int| 0 <= j < rest.len() implies rest[j] == #[trigger] rows[j] by {}
    }
}

/// The largest record under each name, names in the order of their first
/// record.
#[verifier::reject_recursive_types(T)]
pub struct Largest<T> {
    rows: Vec<(String, T)>,
    index: StringHashMap<usize>,
}

/// The views of named records.
pub open spec fn named_views<T>(s: Seq<(String, T)>) -> Seq<(Seq<char>, T)> {
    s.map_values(|r: (String, T)| (r.0@, r.1))
}

impl<T> View for Largest<T> {
    type V = Seq<(Seq<char>, T)>;

    closed spec fn view(&self) -> Seq<(Seq<char>, T)> {
        named_views(self.rows@)
    }
}

impl<T: Sized64> Largest<T> {
    /// The index knows every row, and nothing else.
    pub closed spec fn wf(&self) -> bool {
        &&& forall|i: int|
            0 <= i < self.rows@.len() ==> {
                &&& self.index@.contains_key((#[trigger] self.rows@[i]).0@)
                &&& self.index@[self.rows@[i].0@] == i
            }
        &&& forall|k: Seq<char>| #[trigger]
            self.index@.contains_key(k) ==> self.index@[k] < self.rows@.len()
                && self.rows@[self.index@[k] as int].0@ == k
    }

    /// No records yet.
    pub fn new() -> (r: Self)
        ensures
            r.wf(),
            r@ == Seq::<(Seq<char>, T)>::empty(),
    {
        let r = Largest { rows: Vec::new(), index: StringHashMap::new() };
        assert(r@ =~= Seq::<(Seq<char>, T)>::empty());
        r
    }

    /// Takes in one record.
    pub fn put(&mut self, name: &str, record: T)
        requires
            old(self).wf(),
        ensures
            final(self).wf(),
            final(self)@ == larger_kept(old(self)@, name@, record),
    {
        let ghost before = self@;
        let ghost rows = self.rows@;
        proof {
            lemma_name_row(before, name@);
            assert forall|i: int| 0 <= i < rows.len() implies #[trigger] before[i] == (
                rows[i].0@,
                rows[i].1,
            ) by {}
        }
        match self.index.get(name) {
            Some(k) => {
                let k: usize = *k;
                proof {
                    assert(before[k as int].0 == name@);
                    let i = name_row(before, name@)->0;
                    assert(self.index@[rows[i].0@] == i);
                    assert(i == k);
                }
                if record.size() > self.rows[k].1.size() {
                    self.rows[k].1 = record;
                    proof {
                        assert(self@ =~= before.update(k as int, (name@, record)));
                        assert forall|i: int| 0 <= i < rows.len() implies (
                        #[trigger] self.rows@[i]).0 == rows[i].0 by {}
                    }
                }
            },
            None => {
                proof {
                    if let Some(i) = name_row(before, name@) {
                        assert(self.index@.contains_key(rows[i].0@));
                    }
                }
                self.index.insert(name.to_owned(), self.rows.len());
                self.rows.push((name.to_owned(), record));
                proof {
                    assert(self@ =~= before.push((name@, record)));
                    assert forall|i: int| 0 <= i < self.rows@.len() implies {
                        &&& self.index@.contains_key((#[trigger] self.rows@[i]).0@)
                        &&& self.index@[self.rows@[i].0@] == i
                    } by {
                        if i < rows.len() {
                            assert(self.rows@[i] == rows[i]);
                            assert(before[i].0 != name@);
                        }
                    }
                }
            },
        }
    }

    /// The records.
    pub fn into_rows(self) -> (r: Vec<(String, T)>)
        ensures
            named_views(r@) == self@,
    {
        self.rows
    }
}

/// No name has two records.
pub proof fn larger_kept_stays_distinct<T: Sized64>(
    rows: Seq<(Seq<char>, T)>,
    name: Seq<char>,
    record: T,
)
    requires
        forall|i: int, j: int|
            0 <= i < j < rows.len() ==> (#[trigger] rows[i]).0 != (#[trigger] rows[j]).0,
    ensures
        forall|i: int, j: int|
            0 <= i < j < larger_kept(rows, name, record).len() ==> (#[trigger] larger_kept(
                rows,
                name,
                record,
            )[i]).0 != (#[trigger] larger_kept(rows, name, record)[j]).0,
{
    lemma_name_row(rows, name);
    let t = larger_kept(rows, name, record);
    assert forall|i: int, j: int| 0 <= i < j < t.len() implies (#[trigger] t[i]).0 != (
    #[trigger] t[j]).0 by {
        match name_row(rows, name) {
            Some(k) => {
                assert(t[i].0 == rows[i].0);
                assert(t[j].0 == rows[j].0);
            },
            None => {
                assert(t[i] == rows[i]);
                if j < rows.len() {
                    assert(t[j] == rows[j]);
                }
            },
        }
    }
}

/// The rows hold a record of `name` of at least `size`.
pub open spec fn holds_at_least<T: Sized64>(
    rows: Seq<(Seq<char>, T)>,
    name: Seq<char>,
    size: u64,
) -> bool {
    exists|i: int| 0 <= i < rows.len() && (#[trigger] rows[i]).0 == name && rows[i].1.size_of() >= size
}

/// After a record came in under a name, the name has a row at least as large as the
/// record and as the row it had. Every row is the record or one that was there, and
/// no other name's row changes.
pub proof fn largest_record_stays<T: Sized64>(
    rows: Seq<(Seq<char>, T)>,
    name: Seq<char>,
    record: T,
)
    ensures
        ({
            let now = larger_kept(rows, name, record);
            &&& holds_at_least(now, name, record.size_of())
            &&& forall|n: Seq<char>, size: u64| #[trigger]
                holds_at_least(rows, n, size) ==> holds_at_least(now, n, size)
            &&& forall|i: int|
                0 <= i < now.len() ==> #[trigger] now[i] == (name, record) || rows.contains(now[i])
            &&& forall|i: int|
                0 <= i < rows.len() && (#[trigger] rows[i]).0 != name ==> now.contains(rows[i])
            &&& rows.len() <= now.len() <= rows.len() + 1
        }),
{
    let now = larger_kept(rows, name, record);
    lemma_name_row(rows, name);
    match name_row(rows, name) {
        Some(i) => assert(now[i].0 == name),
        None => assert(now[rows.len() as int] == (name, record)),
    }
    assert forall|n: Seq<char>, size: u64| #[trigger] holds_at_least(
        rows,
        n,
        size,
    ) implies holds_at_least(now, n, size) by {
        let i = choose|i: int|
            0 <= i < rows.len() && (#[trigger] rows[i]).0 == n && rows[i].1.size_of() >= size;
        assert(now[i].0 == n);
    }
    assert forall|i: int| 0 <= i < now.len() implies #[trigger] now[i] == (name, record)
        || rows.contains(now[i]) by {
        if i < rows.len() && now[i] == rows[i] {
            assert(rows.contains(rows[i]));
        }
    }
    assert forall|i: int| 0 <= i < rows.len() && (#[trigger] rows[i]).0 != name implies now.contains(
        rows[i],
    ) by {
        assert(now[i] == rows[i]);
    }
}

} // verus!
