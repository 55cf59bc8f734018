//! Paths as text.

use crate::text::{
    after_last, chars_of, ends_with, finishes, opt_view, range_text, tail_after, views,
};
use vstd::prelude::*;

verus! {

broadcast use vstd::string::group_string_axioms;

/// The last component of a path: empty and `.` components at the end do not
/// count, and `..` names nothing.
pub open spec fn file_name(path: Seq<char>) -> Option<Seq<char>>
    decreases path.len(),
{
    let t = after_last(path, '/');
    if t.len() < path.len() && (t =~= seq![] || t =~= seq!['.']) {
        file_name(path.take(path.len() - t.len() - 1))
    } else if t =~= seq![] || t =~= seq!['.'] || t =~= seq!['.', '.'] {
        None
    } else {
        Some(t)
    }
}

proof fn lemma_after_last_len(s: Seq<char>, c: char)
    ensures
        after_last(s, c).len() <= s.len(),
    decreases s.len(),
{
    if s.len() > 0 && s.last() != c {
        lemma_after_last_len(s.drop_last(), c);
    }
}

/// The last component of a path.
pub fn base_name(path: &str) -> (r: Option<String>)
    ensures
        opt_view(r) == file_name(path@),
    decreases path@.len(),
{
    let t = tail_after(path, '/');
    let tail = chars_of(t.as_str());
    let all = chars_of(path);
    let (n, m): (usize, usize) = (all.len(), tail.len());
    proof {
        lemma_after_last_len(path@, '/');
    }
    let dot: bool = m == 1 && tail[0] == '.';
    if m < n && (m == 0 || dot) {
        let rest = range_text(&all, 0, n - m - 1);
        assert(rest@ =~= path@.take(n - m - 1));
        base_name(rest.as_str())
    } else if m == 0 || dot || (m == 2 && tail[0] == '.' && tail[1] == '.') {
        None
    } else {
        Some(t)
    }
}

/// `base` with the path `rel` behind it; `rel` alone where it starts at the root.
pub open spec fn joined_path(base: Seq<char>, rel: Seq<char>) -> Seq<char> {
    if rel.len() > 0 && rel[0] == '/' {
        rel
    } else if base.len() == 0 || base.last() == '/' {
        base + rel
    } else {
        base + "/"@ + rel
    }
}

/// `base` with the path `rel` behind it; `rel` alone where it starts at the root.
pub fn join_path(base: &str, rel: &str) -> (r: String)
    ensures
        r@ == joined_path(base@, rel@),
{
    if rel.unicode_len() > 0 && rel.get_char(0) == '/' {
        return rel.to_owned();
    }
    let n: usize = base.unicode_len();
    let mut r = base.to_owned();
    if n > 0 && base.get_char(n - 1) != '/' {
        r.append("/");
    }
    r.append(rel);
    r
}

/// The last component of the path ends in `.ips` and is more than that.
pub open spec fn is_report(path: Seq<char>) -> bool {
    match file_name(path) {
        Some(n) => ends_with(n, ".ips"@) && n.len() > 4,
        None => false,
    }
}

/// Is this the path of a diagnostic report?
pub fn is_report_path(path: &str) -> (b: bool)
    ensures
        b == is_report(path@),
{
    match base_name(path) {
        Some(n) => finishes(n.as_str(), ".ips") && n.as_str().unicode_len() > 4,
        None => false,
    }
}

/// Whether a path starts at the root.
pub open spec fn absolute(path: Seq<char>) -> bool {
    path.len() > 0 && path[0] == '/'
}

/// The end of the component that starts at `i`.
pub open spec fn component_end(path: Seq<char>, i: int) -> int
    decreases path.len() - i,
{
    if i < 0 || i >= path.len() || path[i] == '/' {
        i
    } else {
        component_end(path, i + 1)
    }
}

proof fn lemma_component_end(path: Seq<char>, i: int)
    requires
        0 <= i <= path.len(),
    ensures
        i <= component_end(path, i) <= path.len(),
    decreases path.len() - i,
{
    if i < path.len() && path[i] != '/' {
        lemma_component_end(path, i + 1);
    }
}

/// Whether a component counts: empty ones do not, and `.` only in front.
pub open spec fn counts(c: Seq<char>, i: int) -> bool {
    c.len() > 0 && (c != seq!['.'] || i == 0)
}

/// The components of a path, from position `i` on.
pub open spec fn components_from(path: Seq<char>, i: int) -> Seq<Seq<char>>
    decreases path.len() + 1 - i,
    via components_from_decreases
{
    if i < 0 || i >= path.len() {
        seq![]
    } else {
        let e = component_end(path, i);
        let c = path.subrange(i, e);
        (if counts(c, i) {
            seq![c]
        } else {
            seq![]
        }) + components_from(path, e + 1)
    }
}

#[via_fn]
proof fn components_from_decreases(path: Seq<char>, i: int) {
    if 0 <= i <= path.len() {
        lemma_component_end(path, i);
    }
}

/// Two spellings of one path: the same components from the same start.
pub open spec fn equal_paths(a: Seq<char>, b: Seq<char>) -> bool {
    absolute(a) == absolute(b) && components_from(a, 0) == components_from(b, 0)
}

fn components(path: &str) -> (r: Vec<String>)
    ensures
        views(r@) == components_from(path@, 0),
{
    let v = chars_of(path);
    let n: usize = v.len();
    let mut r: Vec<String> = Vec::new();
    let mut i: usize = 0;
    assert(views(r@) + components_from(v@, 0) =~= components_from(v@, 0));
    while i < n
        invariant
            i <= n,
            n == v@.len(),
            views(r@) + components_from(v@, i as int) == components_from(v@, 0),
        decreases n - i,
    {
        let ghost before = r@;
        let mut e: usize = i;
        while e < n && v[e] != '/'
            invariant
                i <= e <= n,
                n == v@.len(),
                component_end(v@, i as int) == component_end(v@, e as int),
            decreases n - e,
        {
            e = e + 1;
        }
        let ghost c = v@.subrange(i as int, e as int);
        let dot: bool = e - i == 1 && v[i] == '.';
        proof {
            if dot {
                assert(c =~= seq!['.']);
            } else if c == seq!['.'] {
                assert(c.len() == 1 && c[0] == '.');
            }
        }
        if e > i && (!dot || i == 0) {
            let part = range_text(&v, i, e);
            r.push(part);
            assert(views(r@) =~= views(before).push(part@));
        }
        let next: usize = if e < n {
            e + 1
        } else {
            n
        };
        proof {
            assert(components_from(v@, e + 1) == components_from(v@, next as int));
            assert(views(r@) + components_from(v@, next as int) =~= views(before)
                + components_from(v@, i as int));
        }
        i = next;
    }
    assert(views(r@) =~= components_from(v@, 0));
    r
}

/// Are the two paths spellings of one path?
pub fn same_path(a: &str, b: &str) -> (r: bool)
    ensures
        r == equal_paths(a@, b@),
{
    let root_a: bool = a.unicode_len() > 0 && a.get_char(0) == '/';
    let root_b: bool = b.unicode_len() > 0 && b.get_char(0) == '/';
    if root_a != root_b {
        return false;
    }
    let x = components(a);
    let y = components(b);
    let ghost (p, q) = (views(x@), views(y@));
    assert(p.len() == x@.len() && q.len() == y@.len());
    if x.len() != y.len() {
        return false;
    }
    let mut i: usize = 0;
    while i < x.len()
        invariant
            i <= x@.len() == y@.len(),
            p == views(x@),
            q == views(y@),
            p == components_from(a@, 0),
            q == components_from(b@, 0),
            forall|k: int| 0 <= k < i ==> p[k] == q[k],
        decreases x@.len() - i,
    {
        assert(p[i as int] == x@[i as int]@ && q[i as int] == y@[i as int]@);
        if x[i] != y[i] {
            return false;
        }
        i = i + 1;
    }
    assert(p =~= q);
    true
}

} // verus!
