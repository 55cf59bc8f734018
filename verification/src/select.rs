//! Selecting from and adding up over lists of indices.

use crate::sort::{ordered, placed};
use vstd::prelude::*;

verus! {

/// The elements of `s` that `p` holds of, in order.
pub open spec fn kept(s: Seq<int>, p: spec_fn(int) -> bool) -> Seq<int>
    decreases s.len(),
{
    if s.len() == 0 {
        seq![]
    } else if p(s.last()) {
        kept(s.drop_last(), p).push(s.last())
    } else {
        kept(s.drop_last(), p)
    }
}

/// The integers below `n`, in order.
pub open spec fn below(n: int) -> Seq<int> {
    Seq::new(
        if n < 0 {
            0
        } else {
            n as nat
        },
        |i: int| i,
    )
}

/// `f` added up over `s`.
pub open spec fn sum(s: Seq<int>, f: spec_fn(int) -> nat) -> nat
    decreases s.len(),
{
    if s.len() == 0 {
        0
    } else {
        sum(s.drop_last(), f) + f(s.last())
    }
}

/// Machine indices as integers.
pub open spec fn ints(s: Seq<usize>) -> Seq<int> {
    s.map_values(|k: usize| k as int)
}

pub proof fn lemma_ints_push(s: Seq<usize>, k: usize)
    ensures
        ints(s.push(k)) == ints(s).push(k as int),
{
    assert(ints(s.push(k)) =~= ints(s).push(k as int));
}

pub proof fn lemma_ints_add(a: Seq<usize>, b: Seq<usize>)
    ensures
        ints(a + b) == ints(a) + ints(b),
{
    assert(ints(a + b) =~= ints(a) + ints(b));
}

pub proof fn lemma_kept_push(s: Seq<int>, x: int, p: spec_fn(int) -> bool)
    ensures
        kept(s.push(x), p) == if p(x) {
            kept(s, p).push(x)
        } else {
            kept(s, p)
        },
{
    assert(s.push(x).drop_last() =~= s);
}

pub proof fn lemma_kept_below(n: int, p: spec_fn(int) -> bool)
    requires
        n >= 0,
    ensures
        kept(below(n + 1), p) == if p(n) {
            kept(below(n), p).push(n)
        } else {
            kept(below(n), p)
        },
{
    assert(below(n + 1) =~= below(n).push(n));
    lemma_kept_push(below(n), n, p);
}

pub proof fn lemma_kept_add(a: Seq<int>, b: Seq<int>, p: spec_fn(int) -> bool)
    ensures
        kept(a + b, p) == kept(a, p) + kept(b, p),
    decreases b.len(),
{
    if b.len() == 0 {
        assert(a + b =~= a);
        assert(kept(a, p) + kept(b, p) =~= kept(a, p));
    } else {
        lemma_kept_add(a, b.drop_last(), p);
        assert(a + b =~= (a + b.drop_last()).push(b.last()));
        lemma_kept_push(a + b.drop_last(), b.last(), p);
        assert(kept(a + b, p) =~= kept(a, p) + kept(b, p));
    }
}

/// What is kept was there, and `p` holds of it.
pub proof fn lemma_kept_holds(s: Seq<int>, p: spec_fn(int) -> bool)
    ensures
        kept(s, p).len() <= s.len(),
        forall|i: int| 0 <= i < kept(s, p).len() ==> p(#[trigger] kept(s, p)[i]) && s.contains(
            kept(s, p)[i],
        ),
    decreases s.len(),
{
    if s.len() > 0 {
        let rest = s.drop_last();
        lemma_kept_holds(rest, p);
        assert forall|i: int| 0 <= i < kept(s, p).len() implies p(#[trigger] kept(s, p)[i])
            && s.contains(kept(s, p)[i]) by {
            if i < kept(rest, p).len() {
                let x = kept(rest, p)[i];
                assert(rest.contains(x));
                let k = choose|k: int| 0 <= k < rest.len() && rest[k] == x;
                assert(s[k] == x);
            } else {
                assert(s[s.len() - 1] == s.last());
            }
        }
    }
}

/// Where `p` holds of everything, everything is kept.
pub proof fn lemma_kept_all(s: Seq<int>, p: spec_fn(int) -> bool)
    requires
        forall|i: int| 0 <= i < s.len() ==> p(#[trigger] s[i]),
    ensures
        kept(s, p) == s,
    decreases s.len(),
{
    if s.len() > 0 {
        lemma_kept_all(s.drop_last(), p);
        assert(p(s[s.len() - 1]));
        assert(s =~= s.drop_last().push(s.last()));
    }
}

/// Where `p` holds of nothing, nothing is kept.
pub proof fn lemma_kept_none(s: Seq<int>, p: spec_fn(int) -> bool)
    requires
        forall|i: int| 0 <= i < s.len() ==> !p(#[trigger] s[i]),
    ensures
        kept(s, p) == Seq::<int>::empty(),
    decreases s.len(),
{
    if s.len() > 0 {
        lemma_kept_none(s.drop_last(), p);
        assert(!p(s[s.len() - 1]));
    }
}

pub proof fn lemma_sum_push(s: Seq<int>, x: int, f: spec_fn(int) -> nat)
    ensures
        sum(s.push(x), f) == sum(s, f) + f(x),
{
    assert(s.push(x).drop_last() =~= s);
}

pub proof fn lemma_sum_add(a: Seq<int>, b: Seq<int>, f: spec_fn(int) -> nat)
    ensures
        sum(a + b, f) == sum(a, f) + sum(b, f),
    decreases b.len(),
{
    if b.len() == 0 {
        assert(a + b =~= a);
    } else {
        lemma_sum_add(a, b.drop_last(), f);
        assert(a + b =~= (a + b.drop_last()).push(b.last()));
        lemma_sum_push(a + b.drop_last(), b.last(), f);
    }
}

/// A shorter list adds up to no more.
pub proof fn lemma_sum_prefix(s: Seq<int>, i: int, f: spec_fn(int) -> nat)
    requires
        0 <= i <= s.len(),
    ensures
        sum(s.take(i), f) <= sum(s, f),
{
    lemma_sum_add(s.take(i), s.skip(i), f);
    assert(s =~= s.take(i) + s.skip(i));
}

/// Splitting a selection in two splits its sum.
pub proof fn lemma_sum_split(
    s: Seq<int>,
    p: spec_fn(int) -> bool,
    a: spec_fn(int) -> bool,
    b: spec_fn(int) -> bool,
    f: spec_fn(int) -> nat,
)
    requires
        forall|x: int| #[trigger] p(x) == (a(x) || b(x)),
        forall|x: int| !(#[trigger] a(x) && b(x)),
    ensures
        sum(kept(s, p), f) == sum(kept(s, a), f) + sum(kept(s, b), f),
        kept(s, p).len() == kept(s, a).len() + kept(s, b).len(),
    decreases s.len(),
{
    if s.len() > 0 {
        let (t, x) = (s.drop_last(), s.last());
        lemma_sum_split(t, p, a, b, f);
        lemma_sum_push(kept(t, p), x, f);
        lemma_sum_push(kept(t, a), x, f);
        lemma_sum_push(kept(t, b), x, f);
        assert(p(x) == (a(x) || b(x)));
    }
}

proof fn lemma_sum_placed(
    s: Seq<int>,
    x: int,
    lt: spec_fn(int, int) -> bool,
    f: spec_fn(int) -> nat,
)
    ensures
        sum(placed(s, x, lt), f) == sum(s, f) + f(x),
    decreases s.len(),
{
    if s.len() == 0 || !lt(x, s.last()) {
        lemma_sum_push(s, x, f);
    } else {
        lemma_sum_placed(s.drop_last(), x, lt, f);
        lemma_sum_push(placed(s.drop_last(), x, lt), s.last(), f);
    }
}

/// Sorting does not change a sum.
pub proof fn lemma_sum_ordered(s: Seq<int>, lt: spec_fn(int, int) -> bool, f: spec_fn(int) -> nat)
    ensures
        sum(ordered(s, lt), f) == sum(s, f),
    decreases s.len(),
{
    if s.len() > 0 {
        lemma_sum_ordered(s.drop_last(), lt, f);
        lemma_sum_placed(ordered(s.drop_last(), lt), s.last(), lt, f);
    }
}

/// The elements of class `k`.
pub open spec fn is_class(class: spec_fn(int) -> Option<int>, k: int) -> spec_fn(int) -> bool {
    |j: int| class(j) == Some(k)
}

/// The elements of a class below `m`.
pub open spec fn class_below(class: spec_fn(int) -> Option<int>, m: int) -> spec_fn(int) -> bool {
    |j: int|
        match class(j) {
            Some(k) => 0 <= k < m,
            None => false,
        }
}

/// What the elements of each class add up to.
pub open spec fn class_sum(
    s: Seq<int>,
    class: spec_fn(int) -> Option<int>,
    f: spec_fn(int) -> nat,
) -> spec_fn(int) -> nat {
    |k: int| sum(kept(s, is_class(class, k)), f)
}

/// Adding up class by class gives the same as adding up at once.
pub proof fn lemma_sum_by_class(
    s: Seq<int>,
    class: spec_fn(int) -> Option<int>,
    m: int,
    f: spec_fn(int) -> nat,
)
    requires
        m >= 0,
    ensures
        sum(below(m), class_sum(s, class, f)) == sum(kept(s, class_below(class, m)), f),
    decreases m,
{
    if m == 0 {
        lemma_kept_none(s, class_below(class, 0));
    } else {
        lemma_sum_by_class(s, class, m - 1, f);
        assert(below(m) =~= below(m - 1).push(m - 1));
        lemma_sum_push(below(m - 1), m - 1, class_sum(s, class, f));
        lemma_sum_split(
            s,
            class_below(class, m),
            class_below(class, m - 1),
            is_class(class, m - 1),
            f,
        );
    }
}

/// Selections that agree on `s` keep the same.
pub proof fn lemma_kept_same(s: Seq<int>, p: spec_fn(int) -> bool, q: spec_fn(int) -> bool)
    requires
        forall|k: int| 0 <= k < s.len() ==> p(#[trigger] s[k]) == q(s[k]),
    ensures
        kept(s, p) == kept(s, q),
    decreases s.len(),
{
    if s.len() > 0 {
        lemma_kept_same(s.drop_last(), p, q);
        assert(p(s[s.len() - 1]) == q(s[s.len() - 1]));
    }
}

/// The sum of a sum.
pub proof fn lemma_sum_plus(
    s: Seq<int>,
    f: spec_fn(int) -> nat,
    g: spec_fn(int) -> nat,
    h: spec_fn(int) -> nat,
)
    requires
        forall|i: int| 0 <= i < s.len() ==> h(#[trigger] s[i]) == f(s[i]) + g(s[i]),
    ensures
        sum(s, h) == sum(s, f) + sum(s, g),
    decreases s.len(),
{
    if s.len() > 0 {
        lemma_sum_plus(s.drop_last(), f, g, h);
        assert(h(s[s.len() - 1]) == f(s[s.len() - 1]) + g(s[s.len() - 1]));
    }
}

} // verus!
