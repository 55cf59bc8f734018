//! Stable sorting.

use vstd::prelude::*;

verus! {

/// A type with an order to sort by. Elements of which neither comes before the
/// other keep their relative order.
pub trait Ranked: Sized {
    /// Must `self` come before `other`?
    spec fn before(self, other: Self) -> bool;

    /// Decides [`Ranked::before`].
    fn comes_before(&self, other: &Self) -> (b: bool)
        ensures
            b == self.before(*other),
    ;
}

/// [`Ranked::before`] as a relation.
pub open spec fn rank<T: Ranked>() -> spec_fn(T, T) -> bool {
    |a: T, b: T| a.before(b)
}

/// `lt` is asymmetric and its complement is transitive.
pub open spec fn strict_weak<A>(lt: spec_fn(A, A) -> bool) -> bool {
    &&& forall|a: A, b: A| #[trigger] lt(a, b) ==> !lt(b, a)
    &&& forall|a: A, b: A, c: A| !(#[trigger] lt(a, b)) && !(#[trigger] lt(b, c)) ==> !lt(a, c)
}

/// `s` with `x` placed behind every element that need not follow it.
pub open spec fn placed<A>(s: Seq<A>, x: A, lt: spec_fn(A, A) -> bool) -> Seq<A>
    decreases s.len(),
{
    if s.len() == 0 || !lt(x, s.last()) {
        s.push(x)
    } else {
        placed(s.drop_last(), x, lt).push(s.last())
    }
}

/// `s` in order; equal-ranked elements stay in the order they had in `s`.
pub open spec fn ordered<A>(s: Seq<A>, lt: spec_fn(A, A) -> bool) -> Seq<A>
    decreases s.len(),
{
    if s.len() == 0 {
        s
    } else {
        placed(ordered(s.drop_last(), lt), s.last(), lt)
    }
}

/// No element of `s` must come before an earlier one.
pub open spec fn in_order<A>(s: Seq<A>, lt: spec_fn(A, A) -> bool) -> bool {
    forall|i: int, j: int| 0 <= i < j < s.len() ==> !lt(#[trigger] s[j], #[trigger] s[i])
}

proof fn lemma_placed<A>(s: Seq<A>, x: A, lt: spec_fn(A, A) -> bool)
    ensures
        placed(s, x, lt).len() == s.len() + 1,
        placed(s, x, lt).to_multiset() == s.to_multiset().insert(x),
        in_order(s, lt) && strict_weak(lt) ==> in_order(placed(s, x, lt), lt),
    decreases s.len(),
{
    broadcast use vstd::seq_lib::group_to_multiset_ensures;

    if s.len() == 0 || !lt(x, s.last()) {
        let p = placed(s, x, lt);
        if in_order(s, lt) && strict_weak(lt) {
            assert forall|i: int, j: int| 0 <= i < j < p.len() implies !lt(
                #[trigger] p[j],
                #[trigger] p[i],
            ) by {
                if j == s.len() {
                    if i < s.len() - 1 {
                        assert(!lt(s.last(), s[i]));
                    }
                } else {
                    assert(!lt(s[j], s[i]));
                }
            }
        }
    } else {
        let rest = s.drop_last();
        lemma_placed(rest, x, lt);
        let q = placed(rest, x, lt);
        let p = q.push(s.last());
        assert(s =~= rest.push(s.last()));
        if in_order(s, lt) && strict_weak(lt) {
            assert(in_order(rest, lt));
            assert forall|i: int, j: int| 0 <= i < j < p.len() implies !lt(
                #[trigger] p[j],
                #[trigger] p[i],
            ) by {
                if j == q.len() {
                    assert(q.to_multiset().contains(q[i]));
                    if q[i] != x {
                        assert(rest.to_multiset().contains(q[i]));
                        assert(rest.contains(q[i]));
                        let k = choose|k: int| 0 <= k < rest.len() && rest[k] == q[i];
                        assert(s[k] == q[i]);
                        assert(!lt(s[s.len() - 1], s[k]));
                    }
                } else {
                    assert(!lt(q[j], q[i]));
                }
            }
        }
    }
}

/// Sorting keeps exactly the elements it was given.
pub proof fn ordered_is_permutation<A>(s: Seq<A>, lt: spec_fn(A, A) -> bool)
    ensures
        ordered(s, lt).len() == s.len(),
        ordered(s, lt).to_multiset() == s.to_multiset(),
    decreases s.len(),
{
    broadcast use vstd::seq_lib::group_to_multiset_ensures;

    if s.len() > 0 {
        ordered_is_permutation(s.drop_last(), lt);
        lemma_placed(ordered(s.drop_last(), lt), s.last(), lt);
        assert(s =~= s.drop_last().push(s.last()));
    }
}

/// Sorting puts the elements in order.
pub proof fn ordered_is_in_order<A>(s: Seq<A>, lt: spec_fn(A, A) -> bool)
    requires
        strict_weak(lt),
    ensures
        in_order(ordered(s, lt), lt),
    decreases s.len(),
{
    if s.len() > 0 {
        ordered_is_in_order(s.drop_last(), lt);
        lemma_placed(ordered(s.drop_last(), lt), s.last(), lt);
    }
}

/// Sorting keeps elements apart.
pub proof fn lemma_ordered_no_duplicates<A>(s: Seq<A>, lt: spec_fn(A, A) -> bool)
    requires
        s.no_duplicates(),
    ensures
        ordered(s, lt).no_duplicates(),
{
    ordered_is_permutation(s, lt);
    s.lemma_multiset_has_no_duplicates();
    ordered(s, lt).lemma_multiset_has_no_duplicates_conv();
}

/// There is one order: two sequences of the same elements that are both in order
/// are equal, where no two elements share a rank.
pub proof fn order_is_unique<A>(u: Seq<A>, v: Seq<A>, lt: spec_fn(A, A) -> bool)
    requires
        in_order(u, lt),
        in_order(v, lt),
        u.no_duplicates(),
        v.no_duplicates(),
        forall|x: A| u.contains(x) <==> #[trigger] v.contains(x),
        forall|i: int, j: int|
            0 <= i < u.len() && 0 <= j < u.len() && !lt(#[trigger] u[i], #[trigger] u[j]) && !lt(
                u[j],
                u[i],
            ) ==> i == j,
    ensures
        u == v,
    decreases u.len(),
{
    if u.len() == 0 {
        if v.len() > 0 {
            assert(v.contains(v[0]));
        }
        assert(u =~= v);
    } else {
        let x = u.last();
        assert(u.contains(x));
        assert(v.contains(x));
        let y = v.last();
        assert(v.contains(y));
        let i = choose|i: int| 0 <= i < v.len() && v[i] == x;
        let j = choose|j: int| 0 <= j < u.len() && u[j] == y;
        assert(x == y) by {
            if i < v.len() - 1 && j < u.len() - 1 {
                assert(!lt(v[v.len() - 1], v[i]));
                assert(!lt(u[u.len() - 1], u[j]));
                assert(!lt(u[j], u[u.len() - 1]));
            }
        }
        let (a, b) = (u.drop_last(), v.drop_last());
        assert forall|e: A| a.contains(e) <==> #[trigger] b.contains(e) by {
            if a.contains(e) {
                let k = choose|k: int| 0 <= k < a.len() && a[k] == e;
                assert(u[k] == e);
                assert(u.contains(e));
                assert(v.contains(e));
                assert(e != u[u.len() - 1]);
                let m = choose|m: int| 0 <= m < v.len() && v[m] == e;
                assert(m != v.len() - 1);
                assert(b[m] == e);
            }
            if b.contains(e) {
                let k = choose|k: int| 0 <= k < b.len() && b[k] == e;
                assert(v[k] == e);
                assert(v.contains(e));
                assert(u.contains(e));
                assert(e != v[v.len() - 1]);
                let m = choose|m: int| 0 <= m < u.len() && u[m] == e;
                assert(m != u.len() - 1);
                assert(a[m] == e);
            }
        }
        order_is_unique(a, b, lt);
        assert(u =~= a.push(x));
        assert(v =~= b.push(y));
    }
}

/// A sequence that is in order already stays as it is.
pub proof fn ordered_keeps_order<A>(s: Seq<A>, lt: spec_fn(A, A) -> bool)
    requires
        in_order(s, lt),
    ensures
        ordered(s, lt) == s,
    decreases s.len(),
{
    if s.len() > 0 {
        assert(in_order(s.drop_last(), lt));
        ordered_keeps_order(s.drop_last(), lt);
        if s.len() > 1 {
            assert(!lt(s[s.len() - 1], s[s.len() - 2]));
            assert(s.drop_last().last() == s[s.len() - 2]);
        }
        assert(s =~= s.drop_last().push(s.last()));
    }
}

/// Every element of a sorted sequence stood in the input, and the other way
/// round.
pub proof fn lemma_ordered_contains<A>(s: Seq<A>, lt: spec_fn(A, A) -> bool, x: A)
    ensures
        ordered(s, lt).contains(x) <==> s.contains(x),
{
    broadcast use vstd::seq_lib::group_to_multiset_ensures;

    ordered_is_permutation(s, lt);
    assert(ordered(s, lt).contains(x) <==> ordered(s, lt).to_multiset().count(x) > 0);
}

proof fn lemma_placed_map<A, B>(
    s: Seq<A>,
    x: A,
    f: spec_fn(A) -> B,
    la: spec_fn(A, A) -> bool,
    lb: spec_fn(B, B) -> bool,
)
    requires
        forall|a: A, b: A| #[trigger] la(a, b) == lb(f(a), f(b)),
    ensures
        placed(s, x, la).map_values(f) == placed(s.map_values(f), f(x), lb),
    decreases s.len(),
{
    if s.len() == 0 {
        assert(placed(s, x, la).map_values(f) =~= placed(s.map_values(f), f(x), lb));
    } else if !la(x, s.last()) {
        assert(s.map_values(f).last() == f(s.last()));
        assert(placed(s, x, la).map_values(f) =~= placed(s.map_values(f), f(x), lb));
    } else {
        lemma_placed_map(s.drop_last(), x, f, la, lb);
        assert(s.map_values(f).last() == f(s.last()));
        assert(s.map_values(f).drop_last() =~= s.drop_last().map_values(f));
        assert(placed(s, x, la).map_values(f) =~= placed(s.map_values(f), f(x), lb));
    }
}

/// Sorting commutes with taking views that keep the order.
pub proof fn lemma_ordered_map<A, B>(
    s: Seq<A>,
    f: spec_fn(A) -> B,
    la: spec_fn(A, A) -> bool,
    lb: spec_fn(B, B) -> bool,
)
    requires
        forall|a: A, b: A| #[trigger] la(a, b) == lb(f(a), f(b)),
    ensures
        ordered(s, la).map_values(f) == ordered(s.map_values(f), lb),
    decreases s.len(),
{
    if s.len() == 0 {
        assert(ordered(s, la).map_values(f) =~= ordered(s.map_values(f), lb));
    } else {
        lemma_ordered_map(s.drop_last(), f, la, lb);
        lemma_placed_map(ordered(s.drop_last(), la), s.last(), f, la, lb);
        assert(s.map_values(f).drop_last() =~= s.drop_last().map_values(f));
        assert(s.map_values(f).last() == f(s.last()));
    }
}

proof fn lemma_placed_map_where<A, B>(
    s: Seq<A>,
    x: A,
    f: spec_fn(A) -> B,
    la: spec_fn(A, A) -> bool,
    lb: spec_fn(B, B) -> bool,
    ok: spec_fn(A) -> bool,
)
    requires
        forall|a: A, b: A| ok(a) && ok(b) ==> #[trigger] la(a, b) == lb(f(a), f(b)),
        forall|i: int| 0 <= i < s.len() ==> ok(#[trigger] s[i]),
        ok(x),
    ensures
        placed(s, x, la).map_values(f) == placed(s.map_values(f), f(x), lb),
        forall|i: int| 0 <= i < placed(s, x, la).len() ==> ok(#[trigger] placed(s, x, la)[i]),
    decreases s.len(),
{
    if s.len() == 0 {
        assert(placed(s, x, la).map_values(f) =~= placed(s.map_values(f), f(x), lb));
    } else if !la(x, s.last()) {
        assert(ok(s[s.len() - 1]));
        assert(s.map_values(f).last() == f(s.last()));
        assert(placed(s, x, la).map_values(f) =~= placed(s.map_values(f), f(x), lb));
    } else {
        assert(ok(s[s.len() - 1]));
        lemma_placed_map_where(s.drop_last(), x, f, la, lb, ok);
        assert(s.map_values(f).last() == f(s.last()));
        assert(s.map_values(f).drop_last() =~= s.drop_last().map_values(f));
        assert(placed(s, x, la).map_values(f) =~= placed(s.map_values(f), f(x), lb));
    }
}

/// [`lemma_ordered_map`], where the orders agree on the elements of `s`.
pub proof fn lemma_ordered_map_where<A, B>(
    s: Seq<A>,
    f: spec_fn(A) -> B,
    la: spec_fn(A, A) -> bool,
    lb: spec_fn(B, B) -> bool,
    ok: spec_fn(A) -> bool,
)
    requires
        forall|a: A, b: A| ok(a) && ok(b) ==> #[trigger] la(a, b) == lb(f(a), f(b)),
        forall|i: int| 0 <= i < s.len() ==> ok(#[trigger] s[i]),
    ensures
        ordered(s, la).map_values(f) == ordered(s.map_values(f), lb),
        forall|i: int| 0 <= i < ordered(s, la).len() ==> ok(#[trigger] ordered(s, la)[i]),
    decreases s.len(),
{
    if s.len() == 0 {
        assert(ordered(s, la).map_values(f) =~= ordered(s.map_values(f), lb));
    } else {
        assert(ok(s[s.len() - 1]));
        lemma_ordered_map_where(s.drop_last(), f, la, lb, ok);
        lemma_placed_map_where(ordered(s.drop_last(), la), s.last(), f, la, lb, ok);
        assert(s.map_values(f).drop_last() =~= s.drop_last().map_values(f));
        assert(s.map_values(f).last() == f(s.last()));
    }
}

/// What [`placed`] does, told by the slot that `x` takes.
proof fn lemma_placed_at<A>(s: Seq<A>, x: A, lt: spec_fn(A, A) -> bool, k: int)
    requires
        0 <= k <= s.len(),
        forall|i: int| k <= i < s.len() ==> lt(x, #[trigger] s[i]),
        k > 0 ==> !lt(x, s[k - 1]),
    ensures
        placed(s, x, lt) == s.insert(k, x),
    decreases s.len(),
{
    if k == s.len() {
        assert(s.insert(k, x) =~= s.push(x));
    } else {
        lemma_placed_at(s.drop_last(), x, lt, k);
        assert(s.insert(k, x) =~= s.drop_last().insert(k, x).push(s.last()));
    }
}

/// Sorts `v` in place, stably. Runs in linear time on input that is in order
/// already.
pub fn sort<T: Ranked>(v: &mut Vec<T>)
    ensures
        final(v)@ == ordered(old(v)@, rank::<T>()),
{
    let ghost input = v@;
    let n: usize = v.len();
    let mut i: usize = 0;
    while i < n
        invariant
            i <= n,
            n == input.len(),
            v@.len() == n,
            v@.take(i as int) == ordered(input.take(i as int), rank::<T>()),
            forall|k: int| i <= k < n ==> v@[k] == input[k],
        decreases n - i,
    {
        let ghost head = v@.take(i as int);
        let ghost before = v@;
        let mut k: usize = i;
        while k > 0 && v[i].comes_before(&v[k - 1])
            invariant
                k <= i < n,
                n == v@.len(),
                forall|m: int| k <= m < i ==> v@[i as int].before(#[trigger] v@[m]),
            decreases k,
        {
            k = k - 1;
        }
        let ghost x = v@[i as int];
        if k < i {
            let item = v.remove(i);
            v.insert(k, item);
        }
        proof {
            assert(forall|m: int| k <= m < i ==> head[m] == before[m]);
            lemma_placed_at(head, x, rank::<T>(), k as int);
            assert(v@.take(i + 1) =~= head.insert(k as int, x));
            assert(input.take(i + 1).drop_last() =~= input.take(i as int));
            assert(input.take(i + 1).last() == x);
        }
        i = i + 1;
    }
    assert(v@.take(n as int) =~= v@);
    assert(input.take(n as int) =~= input);
}

} // verus!
