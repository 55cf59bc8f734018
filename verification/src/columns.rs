//! Tables of aligned columns.

use crate::double::{fixed, quotient_text, ratio};
use crate::text::{
    clip, clipped, dec, dec_text, join, joined, left_aligned, left_text, push_dec, push_right,
    right_aligned, views,
};
use vstd::prelude::*;

verus! {

broadcast use vstd::string::group_string_axioms;

/// One cell of a row.
pub struct Cell {
    pub text: String,
    pub width: usize,
    /// Whether the text is aligned to the right.
    pub right: bool,
}

/// The view of a [`Cell`].
pub ghost struct CellView {
    pub text: Seq<char>,
    pub width: nat,
    pub right: bool,
}

impl View for Cell {
    type V = CellView;

    open spec fn view(&self) -> CellView {
        CellView { text: self.text@, width: self.width as nat, right: self.right }
    }
}

impl CellView {
    /// The text, filled up to the width.
    pub open spec fn shown(self) -> Seq<char> {
        if self.right {
            right_aligned(self.text, self.width)
        } else {
            left_aligned(self.text, self.width)
        }
    }
}

/// A cell aligned to the left.
pub open spec fn to_left(text: Seq<char>, width: nat) -> CellView {
    CellView { text, width, right: false }
}

/// A cell aligned to the right.
pub open spec fn to_right(text: Seq<char>, width: nat) -> CellView {
    CellView { text, width, right: true }
}

/// The cells of a row, one space apart, as a line.
pub open spec fn line_of(cells: Seq<CellView>) -> Seq<char> {
    joined(cells.map_values(|c: CellView| c.shown()), " "@) + "\n"@
}

/// The views of a list of cells.
pub open spec fn cell_views(s: Seq<Cell>) -> Seq<CellView> {
    s.map_values(|c: Cell| c@)
}

/// A cell aligned to the left.
pub fn left(text: &str, width: usize) -> (c: Cell)
    ensures
        c@ == to_left(text@, width as nat),
{
    Cell { text: text.to_owned(), width, right: false }
}

/// A cell aligned to the right.
pub fn right(text: &str, width: usize) -> (c: Cell)
    ensures
        c@ == to_right(text@, width as nat),
{
    Cell { text: text.to_owned(), width, right: true }
}

/// A number, aligned to the right.
pub fn number(n: u64, width: usize) -> (c: Cell)
    ensures
        c@ == to_right(dec(n as int), width as nat),
{
    Cell { text: dec_text(n), width, right: true }
}

/// The cells of a row as a line.
pub fn line(cells: Vec<Cell>) -> (s: String)
    ensures
        s@ == line_of(cell_views(cells@)),
{
    let mut parts: Vec<String> = Vec::new();
    let mut i: usize = 0;
    while i < cells.len()
        invariant
            i <= cells@.len(),
            parts@.len() == i,
            forall|k: int| 0 <= k < i ==> (#[trigger] parts@[k])@ == cells@[k]@.shown(),
        decreases cells@.len() - i,
    {
        let c = &cells[i];
        let part = if c.right {
            let mut s = String::new();
            push_right(&mut s, c.text.as_str(), c.width);
            assert(s@ =~= right_aligned(c.text@, c.width as nat));
            s
        } else {
            left_text(c.text.as_str(), c.width)
        };
        parts.push(part);
        i = i + 1;
    }
    assert(views(parts@) =~= cell_views(cells@).map_values(|c: CellView| c.shown()));
    let mut s = join(&parts, " ");
    s.append("\n");
    s
}

/// `s`, cut to `max` characters, the last of them a mark.
pub open spec fn shortened(s: Seq<char>, max: nat) -> Seq<char> {
    clipped(s, max, "…"@)
}

/// Cuts `s` to `max` characters. Characters count, not bytes.
pub fn truncate(s: &str, max: usize) -> (r: String)
    requires
        max > 0,
    ensures
        r@ == shortened(s@, max as nat),
{
    clip(s, max, "…")
}

/// The first `top` elements.
pub open spec fn firsts<A>(s: Seq<A>, top: nat) -> Seq<A> {
    if s.len() <= top {
        s
    } else {
        s.take(top as int)
    }
}

/// How many of `total` elements are among the first `top`.
pub fn first_count(total: usize, top: usize) -> (n: usize)
    ensures
        n <= total,
        n == if total <= top {
            total
        } else {
            top
        },
{
    if total <= top {
        total
    } else {
        top
    }
}

/// The lines one after the other.
pub open spec fn stacked(lines: Seq<Seq<char>>) -> Seq<char>
    decreases lines.len(),
{
    if lines.len() == 0 {
        seq![]
    } else {
        stacked(lines.drop_last()) + lines.last()
    }
}

/// What stands under a table that was cut.
pub open spec fn cut_note(total: nat, top: nat) -> Seq<char> {
    if total > top {
        "(showing top "@ + dec(top as int) + " of "@ + dec(total as int) + ")\n"@
    } else {
        seq![]
    }
}

/// What stands under a table that was cut.
pub fn cut_note_text(total: usize, top: usize) -> (s: String)
    ensures
        s@ == cut_note(total as nat, top as nat),
{
    if total > top {
        let mut s = "(showing top ".to_owned();
        push_dec(&mut s, top as u64);
        s.append(" of ");
        push_dec(&mut s, total as u64);
        s.append(")\n");
        s
    } else {
        let s = String::new();
        assert(s@ =~= seq![]);
        s
    }
}

/// What stands in place of rows where there are none.
pub open spec fn empty_note(total: nat, note: Seq<char>) -> Seq<char> {
    if total == 0 {
        note
    } else {
        seq![]
    }
}

/// Nanoseconds as seconds with three places.
pub open spec fn secs(ns: nat) -> Seq<char> {
    fixed(ratio(ns, 1_000_000_000), 3) + "s"@
}

/// Nanoseconds as seconds with three places.
pub fn fmt_secs(ns: u64) -> (s: String)
    ensures
        s@ == secs(ns as nat),
{
    let mut s = quotient_text(ns, 1_000_000_000, 3);
    s.append("s");
    s
}

/// Bytes in binary units: hundredths of gibibytes, tenths of mebibytes, whole
/// kibibytes.
pub open spec fn binary_size(b: u64) -> Seq<char> {
    if b >= 0x4000_0000 {
        fixed(ratio(b as nat, 0x4000_0000), 2) + " GiB"@
    } else if b >= 0x10_0000 {
        fixed(ratio(b as nat, 0x10_0000), 1) + " MiB"@
    } else if b >= 0x400 {
        fixed(ratio(b as nat, 0x400), 0) + " KiB"@
    } else {
        dec(b as int) + " B"@
    }
}

/// Bytes in binary units.
pub fn human_bytes(b: u64) -> (s: String)
    ensures
        s@ == binary_size(b),
{
    if b >= 0x4000_0000 {
        let mut s = quotient_text(b, 0x4000_0000, 2);
        s.append(" GiB");
        s
    } else if b >= 0x10_0000 {
        let mut s = quotient_text(b, 0x10_0000, 1);
        s.append(" MiB");
        s
    } else if b >= 0x400 {
        let mut s = quotient_text(b, 0x400, 0);
        s.append(" KiB");
        s
    } else {
        let mut s = dec_text(b);
        s.append(" B");
        s
    }
}

proof fn lemma_stacked_push(lines: Seq<Seq<char>>, l: Seq<char>)
    ensures
        stacked(lines.push(l)) == stacked(lines) + l,
{
    assert(lines.push(l).drop_last() =~= lines);
}

/// Appends lines.
pub fn push_lines(out: &mut String, lines: &Vec<String>)
    ensures
        final(out)@ == old(out)@ + stacked(views(lines@)),
{
    let ghost all = views(lines@);
    let mut i: usize = 0;
    assert(all.take(0) =~= Seq::<Seq<char>>::empty());
    assert(out@ + stacked(all.take(0)) =~= out@);
    while i < lines.len()
        invariant
            i <= lines@.len(),
            all == views(lines@),
            out@ == old(out)@ + stacked(all.take(i as int)),
        decreases lines@.len() - i,
    {
        proof {
            assert(all.take(i + 1) =~= all.take(i as int).push(all[i as int]));
            lemma_stacked_push(all.take(i as int), all[i as int]);
        }
        out.append(lines[i].as_str());
        assert(out@ =~= old(out)@ + stacked(all.take(i + 1)));
        i = i + 1;
    }
    assert(all.take(all.len() as int) =~= all);
}

} // verus!
