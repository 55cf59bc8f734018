//! Reading text: blanks, lines and numbers.

use crate::text::{chars_of, range_text, stands_at, starts_with, views};
use vstd::prelude::*;

verus! {

broadcast use vstd::string::group_string_axioms;

/// The characters that count as blanks: those with the Unicode property
/// `White_Space`.
pub open spec fn blank(c: char) -> bool {
    ('\u{9}' <= c && c <= '\u{d}') || c == ' ' || c == '\u{85}' || c == '\u{a0}' || c
        == '\u{1680}' || ('\u{2000}' <= c && c <= '\u{200a}') || c == '\u{2028}' || c == '\u{2029}'
        || c == '\u{202f}' || c == '\u{205f}' || c == '\u{3000}'
}

/// Does the character count as a blank?
pub fn is_blank(c: char) -> (b: bool)
    ensures
        b == blank(c),
{
    ('\u{9}' <= c && c <= '\u{d}') || c == ' ' || c == '\u{85}' || c == '\u{a0}' || c == '\u{1680}'
        || ('\u{2000}' <= c && c <= '\u{200a}') || c == '\u{2028}' || c == '\u{2029}' || c
        == '\u{202f}' || c == '\u{205f}' || c == '\u{3000}'
}

/// `s` without blanks at its end.
pub open spec fn end_trimmed(s: Seq<char>) -> Seq<char>
    decreases s.len(),
{
    if s.len() > 0 && blank(s.last()) {
        end_trimmed(s.drop_last())
    } else {
        s
    }
}

/// `s` without blanks at its start.
pub open spec fn start_trimmed(s: Seq<char>) -> Seq<char>
    decreases s.len(),
{
    if s.len() > 0 && blank(s[0]) {
        start_trimmed(s.skip(1))
    } else {
        s
    }
}

/// `s` without blanks at either end.
pub open spec fn trimmed(s: Seq<char>) -> Seq<char> {
    start_trimmed(end_trimmed(s))
}

proof fn lemma_end_trimmed(s: Seq<char>, n: int)
    requires
        0 <= n <= s.len(),
        forall|k: int| n <= k < s.len() ==> blank(#[trigger] s[k]),
        n > 0 ==> !blank(s[n - 1]),
    ensures
        end_trimmed(s) == s.take(n),
    decreases s.len(),
{
    if n == s.len() {
        assert(s.take(n) =~= s);
    } else {
        assert(blank(s[s.len() - 1]));
        lemma_end_trimmed(s.drop_last(), n);
        assert(s.drop_last().take(n) =~= s.take(n));
    }
}

proof fn lemma_start_trimmed(s: Seq<char>, n: int)
    requires
        0 <= n <= s.len(),
        forall|k: int| 0 <= k < n ==> blank(#[trigger] s[k]),
        n < s.len() ==> !blank(s[n]),
    ensures
        start_trimmed(s) == s.skip(n),
    decreases s.len(),
{
    if n == 0 {
        assert(s.skip(0) =~= s);
    } else {
        assert(blank(s[0]));
        let t = s.skip(1);
        assert forall|k: int| 0 <= k < n - 1 implies blank(#[trigger] t[k]) by {
            assert(t[k] == s[k + 1]);
        }
        lemma_start_trimmed(t, n - 1);
        assert(t.skip(n - 1) =~= s.skip(n));
    }
}

fn trim_end_at(v: &Vec<char>) -> (n: usize)
    ensures
        n <= v@.len(),
        end_trimmed(v@) == v@.take(n as int),
{
    let mut n: usize = v.len();
    while n > 0 && is_blank(v[n - 1])
        invariant
            n <= v@.len(),
            forall|k: int| n <= k < v@.len() ==> blank(#[trigger] v@[k]),
        decreases n,
    {
        n = n - 1;
    }
    proof {
        lemma_end_trimmed(v@, n as int);
    }
    n
}

/// `s` without blanks at its end.
pub fn trim_end(s: &str) -> (r: String)
    ensures
        r@ == end_trimmed(s@),
{
    let v = chars_of(s);
    let n: usize = trim_end_at(&v);
    assert(v@.subrange(0, n as int) =~= v@.take(n as int));
    range_text(&v, 0, n)
}

/// `s` without blanks at either end.
pub fn trim(s: &str) -> (r: String)
    ensures
        r@ == trimmed(s@),
{
    let v = chars_of(s);
    let n: usize = trim_end_at(&v);
    let ghost t = v@.take(n as int);
    let mut i: usize = 0;
    while i < n && is_blank(v[i])
        invariant
            i <= n <= v@.len(),
            t == v@.take(n as int),
            forall|k: int| 0 <= k < i ==> blank(#[trigger] t[k]),
        decreases n - i,
    {
        assert(t[i as int] == v@[i as int]);
        i = i + 1;
    }
    proof {
        if i < n {
            assert(t[i as int] == v@[i as int]);
        }
        lemma_start_trimmed(t, i as int);
        assert(t.skip(i as int) =~= v@.subrange(i as int, n as int));
    }
    range_text(&v, i, n)
}

/// Where the first line break of `s` stands, at or behind `i`.
pub open spec fn break_from(s: Seq<char>, i: int) -> int
    decreases s.len() - i,
{
    if i < 0 || i >= s.len() || s[i] == '\n' {
        i
    } else {
        break_from(s, i + 1)
    }
}

/// A line without the carriage return in front of its break.
pub open spec fn without_return(s: Seq<char>) -> Seq<char> {
    if s.len() > 0 && s.last() == '\r' {
        s.drop_last()
    } else {
        s
    }
}

/// The lines of a text, from position `i` on. A break at the very end opens no
/// further line.
pub open spec fn lines_from(s: Seq<char>, i: int) -> Seq<Seq<char>>
    decreases s.len() - i,
    via lines_from_decreases
{
    if i < 0 || i >= s.len() {
        seq![]
    } else {
        let b = break_from(s, i);
        if b >= s.len() {
            seq![s.subrange(i, s.len() as int)]
        } else {
            seq![without_return(s.subrange(i, b))] + lines_from(s, b + 1)
        }
    }
}

#[via_fn]
proof fn lines_from_decreases(s: Seq<char>, i: int) {
    if 0 <= i <= s.len() {
        lemma_break_from(s, i);
    }
}

/// The lines of a text.
pub open spec fn lines_of(s: Seq<char>) -> Seq<Seq<char>> {
    lines_from(s, 0)
}

proof fn lemma_break_from(s: Seq<char>, i: int)
    requires
        0 <= i <= s.len(),
    ensures
        i <= break_from(s, i) <= s.len(),
        break_from(s, i) < s.len() ==> s[break_from(s, i)] == '\n',
    decreases s.len() - i,
{
    if i < s.len() && s[i] != '\n' {
        lemma_break_from(s, i + 1);
    }
}

/// The lines of a text.
pub fn lines(s: &str) -> (r: Vec<String>)
    ensures
        views(r@) == lines_of(s@),
{
    let v = chars_of(s);
    let n: usize = v.len();
    let mut r: Vec<String> = Vec::new();
    let mut i: usize = 0;
    assert(views(r@) + lines_from(v@, 0) =~= lines_of(v@));
    while i < n
        invariant
            i <= n,
            n == v@.len(),
            views(r@) + lines_from(v@, i as int) == lines_of(v@),
        decreases n - i,
    {
        let ghost before = r@;
        let mut b: usize = i;
        while b < n && v[b] != '\n'
            invariant
                i <= b <= n,
                n == v@.len(),
                break_from(v@, i as int) == break_from(v@, b as int),
            decreases n - b,
        {
            b = b + 1;
        }
        if b >= n {
            let line = range_text(&v, i, n);
            r.push(line);
            proof {
                assert(views(r@) =~= views(before).push(line@));
                assert(lines_from(v@, n as int) =~= seq![]);
                assert(views(r@) + lines_from(v@, n as int) =~= views(before) + lines_from(
                    v@,
                    i as int,
                ));
            }
            i = n;
        } else {
            let e: usize = if b > i && v[b - 1] == '\r' {
                b - 1
            } else {
                b
            };
            let line = range_text(&v, i, e);
            r.push(line);
            proof {
                let whole = v@.subrange(i as int, b as int);
                assert(line@ =~= without_return(whole));
                assert(views(r@) =~= views(before).push(line@));
                assert(views(r@) + lines_from(v@, b + 1) =~= views(before) + lines_from(
                    v@,
                    i as int,
                ));
            }
            i = b + 1;
        }
    }
    assert(views(r@) =~= lines_of(v@));
    r
}

/// Decimal digits and nothing else.
pub open spec fn all_digits(s: Seq<char>) -> bool {
    forall|i: int| 0 <= i < s.len() ==> '0' <= (#[trigger] s[i]) && s[i] <= '9'
}

/// The number that decimal digits write.
pub open spec fn digits_value(s: Seq<char>) -> nat
    decreases s.len(),
{
    if s.len() == 0 {
        0
    } else {
        digits_value(s.drop_last()) * 10 + (s.last() as int - '0' as int) as nat
    }
}

/// `s` without a leading plus sign.
pub open spec fn unsigned_part(s: Seq<char>) -> Seq<char> {
    if s.len() > 0 && s[0] == '+' {
        s.skip(1)
    } else {
        s
    }
}

/// The number that `s` writes, where it writes one of at most `max`.
pub open spec fn number_of(s: Seq<char>, max: nat) -> Option<nat> {
    if s.len() > 0 && all_digits(s) && digits_value(s) <= max {
        Some(digits_value(s))
    } else {
        None
    }
}

/// What `s` writes as an unsigned number of at most `max`.
pub open spec fn parsed_unsigned(s: Seq<char>, max: nat) -> Option<nat> {
    number_of(unsigned_part(s), max)
}

/// What `s` writes as a signed 64-bit number.
pub open spec fn parsed_signed(s: Seq<char>) -> Option<int> {
    if s.len() > 0 && s[0] == '-' {
        match number_of(s.skip(1), 0x8000_0000_0000_0000) {
            Some(n) => Some(-(n as int)),
            None => None,
        }
    } else {
        match number_of(unsigned_part(s), 0x7fff_ffff_ffff_ffff) {
            Some(n) => Some(n as int),
            None => None,
        }
    }
}

proof fn lemma_value_grows(s: Seq<char>, i: int)
    requires
        0 <= i <= s.len(),
        all_digits(s),
    ensures
        digits_value(s.take(i)) <= digits_value(s),
    decreases s.len() - i,
{
    if i == s.len() {
        assert(s.take(i) =~= s);
    } else {
        lemma_value_grows(s, i + 1);
        assert(s.take(i + 1).drop_last() =~= s.take(i));
        assert('0' <= s[i]);
    }
}

/// The number that the characters from `from` on write.
fn digits_from(v: &Vec<char>, from: usize, max: u64) -> (r: Option<u64>)
    requires
        from <= v@.len(),
    ensures
        match number_of(v@.skip(from as int), max as nat) {
            Some(n) => r == Some(n as u64) && n <= max,
            None => r is None,
        },
{
    let ghost s = v@.skip(from as int);
    if from == v.len() {
        return None;
    }
    let mut acc: u128 = 0;
    let mut i: usize = from;
    assert(s.take(0) =~= Seq::<char>::empty());
    while i < v.len()
        invariant
            from <= i <= v@.len(),
            s == v@.skip(from as int),
            acc <= max,
            acc == digits_value(s.take(i - from)),
            all_digits(s.take(i - from)),
        decreases v@.len() - i,
    {
        let c: char = v[i];
        assert(s[i - from] == c);
        if c < '0' || c > '9' {
            assert(!all_digits(s)) by {
                assert(s[i - from] == c);
            }
            return None;
        }
        proof {
            assert(s.take(i + 1 - from).drop_last() =~= s.take(i - from));
            assert(s.take(i + 1 - from).last() == c);
        }
        acc = acc * 10 + (c as u32 - '0' as u32) as u128;
        if acc > max as u128 {
            proof {
                if all_digits(s) {
                    lemma_value_grows(s, i + 1 - from);
                }
            }
            return None;
        }
        i = i + 1;
    }
    assert(s.take(s.len() as int) =~= s);
    Some(acc as u64)
}

/// What `s` writes as an unsigned number of at most `max`.
pub fn parse_unsigned(s: &str, max: u64) -> (r: Option<u64>)
    ensures
        match parsed_unsigned(s@, max as nat) {
            Some(n) => r == Some(n as u64) && n <= max,
            None => r is None,
        },
{
    let v = chars_of(s);
    let from: usize = if v.len() > 0 && v[0] == '+' {
        1
    } else {
        0
    };
    assert(v@.skip(0) =~= v@);
    digits_from(&v, from, max)
}

/// What `s` writes as a signed 64-bit number.
pub fn parse_signed(s: &str) -> (r: Option<i64>)
    ensures
        match parsed_signed(s@) {
            Some(n) => r matches Some(x) && x == n,
            None => r is None,
        },
{
    let v = chars_of(s);
    assert(v@.skip(0) =~= v@);
    if v.len() > 0 && v[0] == '-' {
        match digits_from(&v, 1, 0x8000_0000_0000_0000) {
            Some(n) => Some((-(n as i128)) as i64),
            None => None,
        }
    } else {
        let from: usize = if v.len() > 0 && v[0] == '+' {
            1
        } else {
            0
        };
        match digits_from(&v, from, 0x7fff_ffff_ffff_ffff) {
            Some(n) => Some(n as i64),
            None => None,
        }
    }
}

/// `s` with every `from` replaced by `to`, from the left.
pub open spec fn replaced(s: Seq<char>, from: Seq<char>, to: Seq<char>) -> Seq<char>
    decreases s.len(),
{
    if s.len() == 0 || from.len() == 0 {
        s
    } else if starts_with(s, from) {
        to + replaced(s.skip(from.len() as int), from, to)
    } else {
        seq![s[0]] + replaced(s.skip(1), from, to)
    }
}

/// `s` with every `from` replaced by `to`, from the left.
pub fn replace(s: &str, from: &str, to: &str) -> (r: String)
    requires
        from@.len() > 0,
    ensures
        r@ == replaced(s@, from@, to@),
{
    let v = chars_of(s);
    let p = chars_of(from);
    let n: usize = v.len();
    let mut r = String::new();
    let mut i: usize = 0;
    assert(v@.skip(0) =~= v@);
    assert(r@ + replaced(v@.skip(0), p@, to@) =~= replaced(v@, p@, to@));
    while i < n
        invariant
            i <= n,
            n == v@.len(),
            p@.len() > 0,
            p@ == from@,
            r@ + replaced(v@.skip(i as int), p@, to@) == replaced(v@, p@, to@),
        decreases n - i,
    {
        let ghost rest = v@.skip(i as int);
        let ghost before = r@;
        if p.len() <= n - i && stands_at(&v, &p, i) {
            proof {
                assert(rest.skip(p@.len() as int) =~= v@.skip(i + p@.len()));
                assert(starts_with(rest, p@)) by {
                    assert(rest.take(p@.len() as int) =~= v@.subrange(i as int, i + p@.len()));
                }
            }
            r.append(to);
            assert(r@ + replaced(v@.skip(i + p@.len()), p@, to@) =~= before + (to@ + replaced(
                v@.skip(i + p@.len()),
                p@,
                to@,
            )));
            i = i + p.len();
        } else {
            proof {
                assert(rest.skip(1) =~= v@.skip(i + 1));
                assert(rest[0] == v@[i as int]);
                if starts_with(rest, p@) {
                    assert(rest.take(p@.len() as int) =~= v@.subrange(i as int, i + p@.len()));
                    assert(false);
                }
            }
            r.push(v[i]);
            assert(r@ + replaced(v@.skip(i + 1), p@, to@) =~= before + (seq![v@[i as int]]
                + replaced(v@.skip(i + 1), p@, to@)));
            i = i + 1;
        }
    }
    assert(v@.skip(n as int) =~= Seq::<char>::empty());
    assert(r@ =~= replaced(v@, p@, to@));
    r
}

/// `c` is the small letter `l`, or its capital.
pub open spec fn is_letter(c: char, l: char) -> bool {
    c == l || ('A' <= c && c <= 'Z' && 'a' <= l && l <= 'z' && c as int + 32 == l as int)
}

/// `s` is the word `w` of small letters, whatever the case of its letters.
pub open spec fn spells(s: Seq<char>, w: Seq<char>) -> bool {
    s.len() == w.len() && forall|i: int| 0 <= i < s.len() ==> is_letter(#[trigger] s[i], w[i])
}

/// Is `s` the word `w` of small letters, whatever the case of its letters?
pub fn is_word(s: &str, w: &str) -> (b: bool)
    ensures
        b == spells(s@, w@),
{
    let a = chars_of(s);
    let l = chars_of(w);
    if a.len() != l.len() {
        return false;
    }
    let mut i: usize = 0;
    while i < a.len()
        invariant
            i <= a@.len() == l@.len(),
            a@ == s@,
            l@ == w@,
            forall|k: int| 0 <= k < i ==> is_letter(#[trigger] a@[k], l@[k]),
        decreases a@.len() - i,
    {
        let c: char = a[i];
        let d: char = l[i];
        let fits: bool = c == d || ('A' <= c && c <= 'Z' && 'a' <= d && d <= 'z' && c as u32 + 32
            == d as u32);
        if !fits {
            assert(!is_letter(a@[i as int], l@[i as int]));
            return false;
        }
        i = i + 1;
    }
    true
}

} // verus!
