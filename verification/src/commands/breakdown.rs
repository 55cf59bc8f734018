//! Field filters on a breakdown, what is shown of it, and its folded stacks.

use crate::attribution::{copy_fields, field_views, FieldView};
use crate::breakdown::{ModuleBreakdown, Node};
use crate::breakdown_text::{flat_text, render_ops_flat, render_table, table_text};
use crate::event::FieldValue;
use crate::op_tables::{flat_total_fits, OpGroupBy};
use crate::parse::{is_word, parse_signed, parsed_signed, spells, trim, trimmed};
use crate::quoted::{debug_text, quoted};
use crate::text::{chars_of, dec, join, joined, push_dec, range_text, same, views};
use vstd::prelude::*;

verus! {

broadcast use vstd::string::group_string_axioms;

/// Why a filter cannot be read.
#[derive(Debug, Clone, Copy, PartialEq, Eq, Structural)]
pub enum FieldError {
    /// There is no equals sign.
    NoValue,
    /// There is nothing in front of it.
    EmptyKey,
}

/// Where the first equals sign stands, at or behind `i`.
pub open spec fn equals_from(s: Seq<char>, i: int) -> Option<int>
    decreases s.len() - i,
{
    if i < 0 || i >= s.len() {
        None
    } else if s[i] == '=' {
        Some(i)
    } else {
        equals_from(s, i + 1)
    }
}

/// A filter as a name and the text of its value.
pub open spec fn split_filter(s: Seq<char>) -> Result<(Seq<char>, Seq<char>), FieldError> {
    match equals_from(s, 0) {
        None => Err(FieldError::NoValue),
        Some(i) => {
            let key = trimmed(s.take(i));
            if key.len() == 0 {
                Err(FieldError::EmptyKey)
            } else {
                Ok((key, trimmed(s.skip(i + 1))))
            }
        },
    }
}

/// Marks a text as a number with a fraction or an exponent.
pub open spec fn is_float_mark(c: char) -> bool {
    c == '.' || c == 'e' || c == 'E'
}

/// The value that a text means: a truth value or an integer where it reads as
/// one, else the double with the bits `float` where it reads as one and has a
/// point or an exponent, else the text itself.
pub open spec fn value_of(v: Seq<char>, float: Option<u64>) -> FieldView {
    if spells(v, "true"@) {
        FieldView::Bool(true)
    } else if spells(v, "false"@) {
        FieldView::Bool(false)
    } else {
        match parsed_signed(v) {
            Some(i) => FieldView::Int(i as i64),
            None => match float {
                Some(bits) => if exists|k: int| 0 <= k < v.len() && is_float_mark(#[trigger] v[k]) {
                    FieldView::Float(bits)
                } else {
                    FieldView::Text(v)
                },
                None => FieldView::Text(v),
            },
        }
    }
}

/// The views of two texts.
pub open spec fn pair_view(r: Result<(String, String), FieldError>) -> Result<
    (Seq<char>, Seq<char>),
    FieldError,
> {
    match r {
        Ok(p) => Ok((p.0@, p.1@)),
        Err(e) => Err(e),
    }
}

/// Splits a filter into a name and the text of its value, both without blanks
/// around them.
pub fn split_field_kv(s: &str) -> (r: Result<(String, String), FieldError>)
    ensures
        pair_view(r) == split_filter(s@),
{
    let v = chars_of(s);
    let n: usize = v.len();
    let mut i: usize = 0;
    while i < n && v[i] != '='
        invariant
            i <= n,
            n == v@.len(),
            v@ == s@,
            equals_from(s@, 0) == equals_from(s@, i as int),
        decreases n - i,
    {
        i = i + 1;
    }
    if i == n {
        return Err(FieldError::NoValue);
    }
    proof {
        assert(v@.subrange(0, i as int) =~= s@.take(i as int));
        assert(v@.subrange(i + 1, n as int) =~= s@.skip(i + 1));
    }
    let key = trim(range_text(&v, 0, i).as_str());
    if key.as_str().unicode_len() == 0 {
        return Err(FieldError::EmptyKey);
    }
    Ok((key, trim(range_text(&v, i + 1, n).as_str())))
}

fn has_float_mark(s: &str) -> (b: bool)
    ensures
        b == (exists|k: int| 0 <= k < s@.len() && is_float_mark(#[trigger] s@[k])),
{
    let v = chars_of(s);
    let mut i: usize = 0;
    while i < v.len()
        invariant
            i <= v@.len(),
            v@ == s@,
            forall|k: int| 0 <= k < i ==> !is_float_mark(#[trigger] s@[k]),
        decreases v@.len() - i,
    {
        let c: char = v[i];
        if c == '.' || c == 'e' || c == 'E' {
            assert(is_float_mark(s@[i as int]));
            return true;
        }
        i = i + 1;
    }
    false
}

/// The value that a text means. `float` are the bits of the double that it reads
/// as, where it does.
pub fn infer_field(v: &str, float: Option<u64>) -> (f: FieldValue)
    ensures
        f@ == value_of(v@, float),
{
    if is_word(v, "true") {
        FieldValue::Bool(true)
    } else if is_word(v, "false") {
        FieldValue::Bool(false)
    } else {
        match parse_signed(v) {
            Some(i) => FieldValue::Int(i),
            None => match float {
                Some(bits) => if has_float_mark(v) {
                    FieldValue::Float(bits)
                } else {
                    FieldValue::String(v.to_owned())
                },
                None => FieldValue::String(v.to_owned()),
            },
        }
    }
}

/// A filter as a name and a value.
pub open spec fn filter_of(s: Seq<char>, float: Option<u64>) -> Result<
    (Seq<char>, FieldView),
    FieldError,
> {
    match split_filter(s) {
        Ok(p) => Ok((p.0, value_of(p.1, float))),
        Err(e) => Err(e),
    }
}

/// The view of a name and a value.
pub open spec fn filter_view(r: Result<(String, FieldValue), FieldError>) -> Result<
    (Seq<char>, FieldView),
    FieldError,
> {
    match r {
        Ok(p) => Ok((p.0@, p.1@)),
        Err(e) => Err(e),
    }
}

/// Reads a filter `key=value`. `float` are the bits of the double that the value
/// reads as, where it does.
pub fn parse_field_kv(s: &str, float: Option<u64>) -> (r: Result<(String, FieldValue), FieldError>)
    ensures
        filter_view(r) == filter_of(s@, float),
{
    match split_field_kv(s) {
        Ok((key, v)) => {
            let f = infer_field(v.as_str(), float);
            Ok((key, f))
        },
        Err(e) => Err(e),
    }
}

/// An error in words, given the filter in quotation marks.
pub open spec fn field_error_text(e: FieldError, quoted_filter: Seq<char>) -> Seq<char> {
    match e {
        FieldError::NoValue => "expected key=value, got "@ + quoted_filter,
        FieldError::EmptyKey => "empty key in "@ + quoted_filter,
    }
}

/// An error in words, given the filter in quotation marks.
pub fn field_error_with(e: FieldError, quoted_filter: &str) -> (s: String)
    ensures
        s@ == field_error_text(e, quoted_filter@),
{
    match e {
        FieldError::NoValue => {
            let mut s = "expected key=value, got ".to_owned();
            s.append(quoted_filter);
            s
        },
        FieldError::EmptyKey => {
            let mut s = "empty key in ".to_owned();
            s.append(quoted_filter);
            s
        },
    }
}

/// An error in words, given the filter.
pub fn field_error_message(e: FieldError, filter: &str) -> (s: String)
    ensures
        s@ == field_error_text(e, debug_text(filter@)),
{
    field_error_with(e, quoted(filter).as_str())
}

/// Equality of doubles by their bits: zero has two signs, and what is no number
/// does not equal itself.
pub open spec fn doubles_equal(a: u64, b: u64) -> bool {
    let number = |x: u64| x % 0x8000_0000_0000_0000 <= 0x7ff0_0000_0000_0000;
    number(a) && number(b) && (a == b || (a % 0x8000_0000_0000_0000 == 0 && b
        % 0x8000_0000_0000_0000 == 0))
}

/// Equality of values.
pub open spec fn values_equal(a: FieldView, b: FieldView) -> bool {
    match (a, b) {
        (FieldView::Float(x), FieldView::Float(y)) => doubles_equal(x, y),
        _ => a == b,
    }
}

fn equal_doubles(a: u64, b: u64) -> (r: bool)
    ensures
        r == doubles_equal(a, b),
{
    let (x, y): (u64, u64) = (a % 0x8000_0000_0000_0000, b % 0x8000_0000_0000_0000);
    x <= 0x7ff0_0000_0000_0000 && y <= 0x7ff0_0000_0000_0000 && (a == b || (x == 0 && y == 0))
}

fn equal_values(a: &FieldValue, b: &FieldValue) -> (r: bool)
    ensures
        r == values_equal(a@, b@),
{
    match (a, b) {
        (FieldValue::Bool(x), FieldValue::Bool(y)) => *x == *y,
        (FieldValue::Int(x), FieldValue::Int(y)) => *x == *y,
        (FieldValue::Float(x), FieldValue::Float(y)) => equal_doubles(*x, *y),
        (FieldValue::String(x), FieldValue::String(y)) => same(x.as_str(), y.as_str()),
        _ => false,
    }
}

/// The value under a name, from the `i`-th on.
pub open spec fn field_from(fields: Seq<(Seq<char>, FieldView)>, key: Seq<char>, i: int) -> Option<
    FieldView,
>
    decreases fields.len() - i,
{
    if i < 0 || i >= fields.len() {
        None
    } else if fields[i].0 == key {
        Some(fields[i].1)
    } else {
        field_from(fields, key, i + 1)
    }
}

/// The fields hold every value of the filter.
pub open spec fn holds_all(
    fields: Seq<(Seq<char>, FieldView)>,
    filter: Seq<(Seq<char>, FieldView)>,
) -> bool {
    forall|k: int|
        0 <= k < filter.len() ==> match field_from(fields, (#[trigger] filter[k]).0, 0) {
            Some(v) => values_equal(v, filter[k].1),
            None => false,
        }
}

/// The node or one below it holds every value of the filter.
pub open spec fn survives(n: Node, filter: Seq<(Seq<char>, FieldView)>) -> bool
    decreases n,
{
    holds_all(n.fields, filter) || exists|i: int|
        0 <= i < n.children.len() && survives(#[trigger] n.children[i], filter)
}

/// The first `k` children that survive, pruned.
pub open spec fn survivors(n: Node, k: int, filter: Seq<(Seq<char>, FieldView)>) -> Seq<Node>
    decreases n, k,
{
    if k <= 0 || k > n.children.len() {
        seq![]
    } else {
        let rest = survivors(n, k - 1, filter);
        if survives(n.children[k - 1], filter) {
            rest.push(pruned(n.children[k - 1], filter))
        } else {
            rest
        }
    }
}

/// The tree without what neither holds every value of the filter nor has
/// anything below it that does.
pub open spec fn pruned(n: Node, filter: Seq<(Seq<char>, FieldView)>) -> Node
    decreases n, n.children.len() + 1,
{
    Node { children: survivors(n, n.children.len() as int, filter), ..n }
}

fn find_field<'a>(fields: &'a Vec<(String, FieldValue)>, key: &String) -> (r: Option<&'a FieldValue>)
    ensures
        match r {
            Some(v) => field_from(field_views(fields@), key@, 0) == Some(v@),
            None => field_from(field_views(fields@), key@, 0) is None,
        },
{
    let ghost all = field_views(fields@);
    let mut i: usize = 0;
    while i < fields.len()
        invariant
            i <= fields@.len(),
            all == field_views(fields@),
            field_from(all, key@, 0) == field_from(all, key@, i as int),
        decreases fields@.len() - i,
    {
        assert(all[i as int] == (fields@[i as int].0@, fields@[i as int].1@));
        if fields[i].0 == *key {
            return Some(&fields[i].1);
        }
        i = i + 1;
    }
    None
}

fn all_hold(fields: &Vec<(String, FieldValue)>, filter: &Vec<(String, FieldValue)>) -> (b: bool)
    ensures
        b == holds_all(field_views(fields@), field_views(filter@)),
{
    let ghost f = field_views(fields@);
    let ghost all = field_views(filter@);
    let mut i: usize = 0;
    while i < filter.len()
        invariant
            i <= filter@.len(),
            f == field_views(fields@),
            all == field_views(filter@),
            forall|k: int|
                0 <= k < i ==> match field_from(f, (#[trigger] all[k]).0, 0) {
                    Some(v) => values_equal(v, all[k].1),
                    None => false,
                },
        decreases filter@.len() - i,
    {
        assert(all[i as int] == (filter@[i as int].0@, filter@[i as int].1@));
        let held: bool = match find_field(fields, &filter[i].0) {
            Some(v) => equal_values(v, &filter[i].1),
            None => false,
        };
        if !held {
            assert(!holds_all(f, all));
            return false;
        }
        i = i + 1;
    }
    true
}

/// Prunes the tree: keeps what holds every value of the filter, and what has
/// something below it that does. Tells whether the node itself is to be kept.
pub fn prune_by_field_filter(
    node: &mut ModuleBreakdown,
    filter: &Vec<(String, FieldValue)>,
) -> (kept:
    bool)
    ensures
        final(node).tree() == pruned(old(node).tree(), field_views(filter@)),
        kept == survives(old(node).tree(), field_views(filter@)),
    decreases *old(node),
{
    let ghost was = *node;
    let ghost n = node.tree();
    let ghost f = field_views(filter@);
    let mut rest: Vec<ModuleBreakdown> = Vec::new();
    core::mem::swap(&mut node.children, &mut rest);
    let ghost all = rest@;
    let ghost count = all.len() as int;
    let mut back: Vec<ModuleBreakdown> = Vec::new();
    let mut any: bool = false;
    let ghost mut left: int = count;
    proof {
        assert(all.take(count) =~= all);
        assert(kept_from(n, count, f) =~= Seq::<Node>::empty());
        assert(reversed_trees(back@) =~= Seq::<Node>::empty());
    }
    while rest.len() > 0
        invariant
            left == rest@.len(),
            0 <= left <= count,
            count == all.len(),
            was == *old(node),
            all == was.children@,
            n == was.tree(),
            f == field_views(filter@),
            rest@ == all.take(left),
            reversed_trees(back@) == kept_from(n, left, f),
            any == exists|i: int|
                left <= i < count && survives(#[trigger] n.children[i], f),
        decreases rest@.len(),
    {
        if let Some(mut child) = rest.pop() {
            let ghost i = left - 1;
            proof {
                assert(child == all[i]);
                assert(n.children[i] == all[i].tree());
                assert(decreases_to!(was => was.children@[i]));
                assert(all.take(left).drop_last() =~= all.take(i));
            }
            let hit: bool = prune_by_field_filter(&mut child, filter);
            let ghost before = back@;
            if hit {
                any = true;
                back.push(child);
                assert(survives(n.children[i], f));
                assert(reversed_trees(back@) =~= seq![child.tree()] + reversed_trees(before));
            }
            proof {
                assert(reversed_trees(back@) =~= kept_from(n, i, f));
                left = i;
            }
        }
    }
    let mut kids: Vec<ModuleBreakdown> = Vec::new();
    proof {
        assert(trees(kids@) =~= Seq::<Node>::empty());
        assert(trees(kids@) + reversed_trees(back@) =~= kept_from(n, 0, f));
    }
    while back.len() > 0
        invariant
            trees(kids@) + reversed_trees(back@) == kept_from(n, 0, f),
        decreases back@.len(),
    {
        let ghost before = back@;
        let ghost had = kids@;
        if let Some(child) = back.pop() {
            kids.push(child);
            proof {
                assert(reversed_trees(before) =~= seq![child.tree()] + reversed_trees(back@));
                assert(trees(kids@) =~= trees(had).push(child.tree()));
                assert(trees(kids@) + reversed_trees(back@) =~= trees(had) + reversed_trees(
                    before,
                ));
            }
        }
    }
    node.children = kids;
    proof {
        assert(reversed_trees(back@) =~= Seq::<Node>::empty());
        assert(trees(node.children@) =~= kept_from(n, 0, f));
        lemma_kept_is_survivors(n, 0, count, f);
        assert(survivors(n, 0, f) + kept_from(n, 0, f) =~= kept_from(n, 0, f));
        assert(node.tree().children =~= trees(node.children@));
        assert(node.tree() == pruned(n, f));
    }
    let own: bool = all_hold(&node.fields, filter);
    own || any
}

/// The trees of a list of nodes.
spec fn trees(s: Seq<ModuleBreakdown>) -> Seq<Node> {
    Seq::new(s.len(), |i: int| s[i].tree())
}

/// The trees of a list of nodes, the last one first.
spec fn reversed_trees(s: Seq<ModuleBreakdown>) -> Seq<Node> {
    Seq::new(s.len(), |i: int| s[s.len() - 1 - i].tree())
}

/// The children from `k` on that survive, pruned.
spec fn kept_from(n: Node, k: int, filter: Seq<(Seq<char>, FieldView)>) -> Seq<Node>
    decreases n.children.len() - k,
{
    if k < 0 || k >= n.children.len() {
        seq![]
    } else {
        let rest = kept_from(n, k + 1, filter);
        if survives(n.children[k], filter) {
            seq![pruned(n.children[k], filter)] + rest
        } else {
            rest
        }
    }
}

proof fn lemma_kept_is_survivors(n: Node, k: int, m: int, filter: Seq<(Seq<char>, FieldView)>)
    requires
        0 <= k <= m == n.children.len(),
    ensures
        survivors(n, k, filter) + kept_from(n, k, filter) == survivors(n, m, filter),
    decreases m - k,
{
    if k == m {
        assert(survivors(n, k, filter) + kept_from(n, k, filter) =~= survivors(n, m, filter));
    } else {
        lemma_kept_is_survivors(n, k + 1, m, filter);
        assert(survivors(n, k, filter) + kept_from(n, k, filter) =~= survivors(n, k + 1, filter)
            + kept_from(n, k + 1, filter));
    }
}

proof fn lemma_survivors(n: Node, k: int, filter: Seq<(Seq<char>, FieldView)>)
    requires
        0 <= k <= n.children.len(),
    ensures
        forall|i: int|
            0 <= i < survivors(n, k, filter).len() ==> survives(
                #[trigger] survivors(n, k, filter)[i],
                filter,
            ) && pruned(survivors(n, k, filter)[i], filter) == survivors(n, k, filter)[i],
        (exists|i: int| 0 <= i < k && survives(#[trigger] n.children[i], filter)) <==> survivors(
            n,
            k,
            filter,
        ).len() > 0,
    decreases n, k,
{
    if k > 0 {
        lemma_survivors(n, k - 1, filter);
        let c = n.children[k - 1];
        let rest = survivors(n, k - 1, filter);
        if survives(c, filter) {
            pruning_twice_is_pruning_once(c, filter);
            assert(survivors(n, k, filter).len() > 0);
        } else {
            assert forall|i: int| 0 <= i < k && survives(#[trigger] n.children[i], filter) implies i
                < k - 1 by {}
        }
    }
}

/// Pruning keeps what it keeps: a pruned tree is not pruned further, and it is
/// kept exactly where the whole tree was.
pub proof fn pruning_twice_is_pruning_once(n: Node, filter: Seq<(Seq<char>, FieldView)>)
    ensures
        pruned(pruned(n, filter), filter) == pruned(n, filter),
        survives(pruned(n, filter), filter) == survives(n, filter),
    decreases n, n.children.len() + 1,
{
    let m = n.children.len() as int;
    let p = pruned(n, filter);
    lemma_survivors(n, m, filter);
    lemma_all_survive(p, p.children.len() as int, filter);
    assert(p.children.take(p.children.len() as int) =~= p.children);
    if survives(n, filter) && !holds_all(n.fields, filter) {
        let i = choose|i: int| 0 <= i < m && survives(#[trigger] n.children[i], filter);
        assert(p.children.len() > 0);
        assert(survives(p.children[0], filter));
    }
    if survives(p, filter) && !holds_all(p.fields, filter) {
        assert(p.children.len() > 0);
    }
}

proof fn lemma_all_survive(p: Node, k: int, filter: Seq<(Seq<char>, FieldView)>)
    requires
        0 <= k <= p.children.len(),
        forall|i: int|
            0 <= i < p.children.len() ==> survives(#[trigger] p.children[i], filter) && pruned(
                p.children[i],
                filter,
            ) == p.children[i],
    ensures
        survivors(p, k, filter) == p.children.take(k),
    decreases k,
{
    if k > 0 {
        lemma_all_survive(p, k - 1, filter);
        assert(survives(p.children[k - 1], filter));
        assert(p.children.take(k) =~= p.children.take(k - 1).push(p.children[k - 1]));
    } else {
        assert(p.children.take(0) =~= Seq::<Node>::empty());
    }
}

/// The stack of a node below `prefix`.
pub open spec fn stack_of(n: Node, prefix: Seq<char>) -> Seq<char> {
    if prefix.len() == 0 {
        n.qualname
    } else {
        prefix + ";"@ + n.qualname
    }
}

/// The folded stacks of a node and all below it.
pub open spec fn folded_node(n: Node, prefix: Seq<char>) -> Seq<Seq<char>>
    decreases n, n.children.len() + 1,
{
    let here = stack_of(n, prefix);
    (if n.gpu_ns_self > 0 {
        seq![here + " "@ + dec(n.gpu_ns_self as int)]
    } else {
        seq![]
    }) + folded_children(n, n.children.len() as int, here)
}

/// The folded stacks below the first `k` children.
pub open spec fn folded_children(n: Node, k: int, here: Seq<char>) -> Seq<Seq<char>>
    decreases n, k,
{
    if k <= 0 || k > n.children.len() {
        seq![]
    } else {
        folded_children(n, k - 1, here) + folded_node(n.children[k - 1], here)
    }
}

fn walk(n: &ModuleBreakdown, prefix: &str, out: &mut Vec<String>)
    ensures
        views(final(out)@) == views(old(out)@) + folded_node(n.tree(), prefix@),
    decreases n,
{
    let ghost t = n.tree();
    let ghost before = views(out@);
    let here = if prefix.unicode_len() == 0 {
        n.qualname.clone()
    } else {
        let mut s = prefix.to_owned();
        s.append(";");
        s.append(n.qualname.as_str());
        s
    };
    let ghost own = if t.gpu_ns_self > 0 {
        seq![here@ + " "@ + dec(t.gpu_ns_self as int)]
    } else {
        seq![]
    };
    if n.gpu_ns_self > 0 {
        let mut line = here.clone();
        line.append(" ");
        push_dec(&mut line, n.gpu_ns_self);
        out.push(line);
    }
    assert(views(out@) =~= before + own);
    let mut i: usize = 0;
    assert(before + own + folded_children(t, 0, here@) =~= before + own);
    while i < n.children.len()
        invariant
            i <= n.children@.len(),
            t == n.tree(),
            views(out@) == before + own + folded_children(t, i as int, here@),
        decreases n.children@.len() - i,
    {
        proof {
            assert(t.children[i as int] == n.children@[i as int].tree());
            assert(decreases_to!(*n => n.children@[i as int]));
        }
        walk(&n.children[i], here.as_str(), out);
        assert(views(out@) =~= before + own + folded_children(t, i + 1, here@));
        i = i + 1;
    }
    assert(views(out@) =~= before + folded_node(t, prefix@));
}

/// The folded stacks of a breakdown, one per line: the calls from the outermost
/// inward, and the GPU time of the innermost alone. The root is left out.
pub fn folded_stacks(root: &ModuleBreakdown) -> (s: String)
    ensures
        s@ == joined(
            folded_children(root.tree(), root.tree().children.len() as int, ""@),
            "\n"@,
        ),
{
    let ghost t = root.tree();
    let mut lines: Vec<String> = Vec::new();
    let mut i: usize = 0;
    assert(views(lines@) =~= folded_children(t, 0, ""@));
    while i < root.children.len()
        invariant
            i <= root.children@.len(),
            t == root.tree(),
            views(lines@) == folded_children(t, i as int, ""@),
        decreases root.children@.len() - i,
    {
        assert(t.children[i as int] == root.children@[i as int].tree());
        walk(&root.children[i], "", &mut lines);
        i = i + 1;
    }
    join(&lines, "\n")
}

/// By what the flat table of kernels is grouped.
pub fn parse_group_by(s: &str) -> (r: Option<OpGroupBy>)
    ensures
        r == if s@ == "name"@ {
            Some(OpGroupBy::Name)
        } else if s@ == "kind"@ {
            Some(OpGroupBy::Kind)
        } else {
            None
        },
{
    if same(s, "name") {
        Some(OpGroupBy::Name)
    } else if same(s, "kind") {
        Some(OpGroupBy::Kind)
    } else {
        None
    }
}

/// The filters with one more. A later filter on a key takes the place of an
/// earlier one.
pub open spec fn with_filter(
    filters: Seq<(Seq<char>, FieldView)>,
    f: (Seq<char>, FieldView),
) -> Seq<(Seq<char>, FieldView)> {
    match key_from(filters, f.0, 0) {
        Some(i) => filters.update(i, f),
        None => filters.push(f),
    }
}

/// Where a key stands, from the `i`-th filter on.
pub open spec fn key_from(
    filters: Seq<(Seq<char>, FieldView)>,
    key: Seq<char>,
    i: int,
) -> Option<int>
    decreases filters.len() - i,
{
    if i < 0 || i >= filters.len() {
        None
    } else if filters[i].0 == key {
        Some(i)
    } else {
        key_from(filters, key, i + 1)
    }
}

/// The filters that a list of filters comes to: of each key the last.
pub open spec fn last_of_each(list: Seq<(Seq<char>, FieldView)>) -> Seq<(Seq<char>, FieldView)>
    decreases list.len(),
{
    if list.len() == 0 {
        seq![]
    } else {
        with_filter(last_of_each(list.drop_last()), list.last())
    }
}

proof fn lemma_key_from(filters: Seq<(Seq<char>, FieldView)>, key: Seq<char>, i: int)
    requires
        0 <= i <= filters.len(),
    ensures
        match key_from(filters, key, i) {
            Some(k) => i <= k < filters.len() && filters[k].0 == key && forall|m: int|
                i <= m < k ==> (#[trigger] filters[m]).0 != key,
            None => forall|m: int| i <= m < filters.len() ==> (#[trigger] filters[m]).0 != key,
        },
    decreases filters.len() - i,
{
    if i < filters.len() && filters[i].0 != key {
        lemma_key_from(filters, key, i + 1);
    }
}

/// Of every key the last filter counts, and each key once.
pub proof fn last_filter_counts(list: Seq<(Seq<char>, FieldView)>)
    ensures
        forall|i: int, j: int|
            0 <= i < j < last_of_each(list).len() ==> (#[trigger] last_of_each(list)[i]).0 != (
            #[trigger] last_of_each(list)[j]).0,
        forall|i: int|
            0 <= i < list.len() && (forall|k: int|
                i < k < list.len() ==> (#[trigger] list[k]).0 != list[i].0)
                ==> last_of_each(list).contains(#[trigger] list[i]),
        forall|f: (Seq<char>, FieldView)| #[trigger]
            last_of_each(list).contains(f) ==> list.contains(f),
    decreases list.len(),
{
    if list.len() > 0 {
        let rest = list.drop_last();
        let f = list.last();
        let before = last_of_each(rest);
        let now = last_of_each(list);
        last_filter_counts(rest);
        lemma_key_from(before, f.0, 0);
        assert forall|g: (Seq<char>, FieldView)| #[trigger] now.contains(g) implies list.contains(
            g,
        ) by {
            let m = choose|m: int| 0 <= m < now.len() && now[m] == g;
            if g == f {
                assert(list[list.len() - 1] == g);
            } else {
                assert(before[m] == g);
                assert(before.contains(g));
                assert(rest.contains(g));
                let n = choose|n: int| 0 <= n < rest.len() && rest[n] == g;
                assert(list[n] == g);
            }
        }
        assert forall|i: int|
            0 <= i < list.len() && (forall|k: int|
                i < k < list.len() ==> (#[trigger] list[k]).0
                    != list[i].0) implies now.contains(#[trigger] list[i]) by {
            if i == list.len() - 1 {
                match key_from(before, f.0, 0) {
                    Some(k) => assert(now[k] == f),
                    None => assert(now[before.len() as int] == f),
                }
            } else {
                assert(list[list.len() - 1].0 != list[i].0);
                assert(rest[i] == list[i]);
                assert forall|k: int| i < k < rest.len() implies (#[trigger] rest[k]).0
                    != rest[i].0 by {
                    assert(rest[k] == list[k]);
                }
                assert(before.contains(rest[i]));
                let m = choose|m: int| 0 <= m < before.len() && before[m] == rest[i];
                assert(now[m] == list[i]);
            }
        }
    }
}

/// Collects the filters: of each key the last.
pub fn collect_filters(list: &Vec<(String, FieldValue)>) -> (r: Vec<(String, FieldValue)>)
    ensures
        field_views(r@) == last_of_each(field_views(list@)),
{
    let ghost all = field_views(list@);
    let mut r: Vec<(String, FieldValue)> = Vec::new();
    let ghost mut n: int = 0;
    assert(field_views(r@) =~= Seq::<(Seq<char>, FieldView)>::empty());
    assert(all.take(0) =~= Seq::<(Seq<char>, FieldView)>::empty());
    // Taken from the back, then from the back of that.
    let mut rest = copy_fields(list);
    let mut from_back: Vec<(String, FieldValue)> = Vec::new();
    assert forall|k: int| 0 <= k < rest@.len() implies ((#[trigger] rest@[k]).0@, rest@[k].1@)
        == all[k] by {
        assert(field_views(rest@)[k] == all[k]);
    }
    while rest.len() > 0
        invariant
            rest@.len() + from_back@.len() == all.len(),
            forall|k: int|
                0 <= k < rest@.len() ==> ((#[trigger] rest@[k]).0@, rest@[k].1@) == all[k],
            forall|k: int|
                0 <= k < from_back@.len() ==> ((#[trigger] from_back@[k]).0@, from_back@[k].1@)
                    == all[all.len() - 1 - k],
        decreases rest@.len(),
    {
        if let Some(f) = rest.pop() {
            from_back.push(f);
        }
    }
    while from_back.len() > 0
        invariant
            0 <= n,
            n + from_back@.len() == all.len(),
            forall|k: int|
                0 <= k < from_back@.len() ==> ((#[trigger] from_back@[k]).0@, from_back@[k].1@)
                    == all[all.len() - 1 - k],
            field_views(r@) == last_of_each(all.take(n)),
        decreases from_back@.len(),
    {
        let ghost before = field_views(r@);
        if let Some(f) = from_back.pop() {
            proof {
                assert(all.take(n + 1).drop_last() =~= all.take(n));
                assert(all[n] == (f.0@, f.1@));
            }
            let mut i: usize = 0;
            while i < r.len() && r[i].0 != f.0
                invariant
                    i <= r@.len(),
                    before == field_views(r@),
                    key_from(before, f.0@, 0) == key_from(before, f.0@, i as int),
                decreases r@.len() - i,
            {
                assert(before[i as int] == (r@[i as int].0@, r@[i as int].1@));
                i = i + 1;
            }
            if i < r.len() {
                assert(before[i as int] == (r@[i as int].0@, r@[i as int].1@));
                r[i] = f;
                assert(field_views(r@) =~= before.update(i as int, (f.0@, f.1@)));
            } else {
                r.push(f);
                assert(field_views(r@) =~= before.push((f.0@, f.1@)));
            }
            proof {
                n = n + 1;
            }
        }
    }
    assert(all.take(all.len() as int) =~= all);
    r
}

/// What of a breakdown is shown.
#[derive(Debug, Clone, Copy, PartialEq, Eq, Structural)]
pub struct Shown {
    /// At most so many rows.
    pub top: usize,
    pub depth: u16,
    /// At most so many kernels of a node.
    pub top_ops: usize,
    pub no_ops: bool,
    /// One table of all kernels in place of the tree.
    pub ops_flat: bool,
    pub group_by: OpGroupBy,
}

pub const NO_EVENTS: &'static str =
    "no events captured - was `smeltr record` used and the model exercised?\n";

/// The tree that is shown: only the part that the filters keep, where there are
/// any.
pub open spec fn filtered(n: Node, filters: Seq<(Seq<char>, FieldView)>) -> Node {
    if filters.len() == 0 {
        n
    } else {
        pruned(n, filters)
    }
}

/// Keeps the part of a tree that the filters keep, where there are any.
pub fn apply_filters(root: &mut ModuleBreakdown, filters: &Vec<(String, FieldValue)>)
    ensures
        final(root).tree() == filtered(old(root).tree(), field_views(filters@)),
{
    if filters.len() > 0 {
        let _ = prune_by_field_filter(root, filters);
    }
}

/// The text that is printed of a tree.
pub open spec fn shown_text(n: Node, s: Shown) -> Seq<char> {
    if s.ops_flat {
        flat_text(n, s.group_by, s.top as int) + "\n"@
    } else {
        table_text(n, s.top as int, s.depth as int, s.top_ops as int, !s.no_ops) + "\n"@
    }
}

/// The text that is printed of a tree.
pub fn show(root: &ModuleBreakdown, s: Shown) -> (out: String)
    requires
        s.ops_flat ==> flat_total_fits(root.tree(), s.group_by),
    ensures
        out@ == shown_text(root.tree(), s),
{
    let mut out = if s.ops_flat {
        render_ops_flat(root, s.group_by, s.top)
    } else {
        render_table(root, s.top, s.depth, s.top_ops, !s.no_ops)
    };
    out.append("\n");
    out
}

} // verus!
