//! What texts, paths and frames are read as.

use crate::attribution::FieldView;
use crate::commands::breakdown::{
    doubles_equal, equals_from, split_filter, value_of, FieldError,
};
use crate::commands::record::{word_end, words_from, words_of};
use crate::frames::length_in;
use crate::parse::{
    blank, break_from, end_trimmed, lines_from, lines_of, parsed_signed, parsed_unsigned, replaced,
    spells, start_trimmed, trimmed,
};
use crate::paths::{absolute, component_end, components_from, equal_paths, file_name, joined_path};
use crate::rules::duplicate_model_load::shown_name;
use crate::text::{after_last, contains, dec, occurs_at, starts_with};
use crate::wording::numbers_are_written_in_digits;
use vstd::prelude::*;

verus! {

/// All characters of `s` are blanks.
pub open spec fn blanks(s: Seq<char>) -> bool {
    forall|i: int| 0 <= i < s.len() ==> blank(#[trigger] s[i])
}

/// No character of `s` is `c`.
pub open spec fn lacks(s: Seq<char>, c: char) -> bool {
    forall|i: int| 0 <= i < s.len() ==> #[trigger] s[i] != c
}

/// Trimming takes the blanks off both ends, and nothing else.
pub proof fn trimming_takes_the_blanks_off(a: Seq<char>, t: Seq<char>, b: Seq<char>)
    requires
        blanks(a),
        blanks(b),
        t.len() > 0 ==> !blank(t[0]) && !blank(t.last()),
    ensures
        trimmed(a + t + b) == t,
{
    if t.len() > 0 {
        lemma_end(a + t, b);
        lemma_start(a, t);
    } else {
        assert(blanks(a + t + b)) by {
            assert forall|i: int| 0 <= i < (a + t + b).len() implies blank(
                #[trigger] (a + t + b)[i],
            ) by {
                if i < a.len() {
                    assert((a + t + b)[i] == a[i]);
                } else {
                    assert((a + t + b)[i] == b[i - a.len()]);
                }
            }
        }
        assert(a + t + b =~= Seq::<char>::empty() + (a + t + b));
        lemma_end(Seq::<char>::empty(), a + t + b);
        assert(start_trimmed(Seq::<char>::empty()) =~= t);
    }
}

proof fn lemma_end(s: Seq<char>, b: Seq<char>)
    requires
        blanks(b),
        s.len() > 0 ==> !blank(s.last()),
    ensures
        end_trimmed(s + b) == s,
    decreases b.len(),
{
    if b.len() > 0 {
        assert(blank(b[b.len() - 1]));
        assert((s + b).drop_last() =~= s + b.drop_last());
        assert(blanks(b.drop_last()));
        lemma_end(s, b.drop_last());
    } else {
        assert(s + b =~= s);
    }
}

proof fn lemma_start(a: Seq<char>, t: Seq<char>)
    requires
        blanks(a),
        t.len() > 0,
        !blank(t[0]),
    ensures
        start_trimmed(a + t) == t,
    decreases a.len(),
{
    if a.len() > 0 {
        assert(blank(a[0]));
        assert((a + t).skip(1) =~= a.skip(1) + t);
        assert(blanks(a.skip(1)));
        lemma_start(a.skip(1), t);
    } else {
        assert(a + t =~= t);
    }
}

/// A text is read line by line: a line ends at its break, without the carriage return in
/// front of it, and what stands behind the last break is a line where it is anything.
pub proof fn lines_end_at_their_breaks(line: Seq<char>, rest: Seq<char>)
    requires
        lacks(line, '\n'),
    ensures
        lines_of(line + seq!['\n'] + rest) == seq![
            if line.len() > 0 && line.last() == '\r' {
                line.drop_last()
            } else {
                line
            },
        ] + lines_of(rest),
        lines_of(line) == if line.len() > 0 {
            seq![line]
        } else {
            seq![]
        },
{
    let s = line + seq!['\n'] + rest;
    lemma_break(s, 0, line.len() as int);
    assert(s.subrange(0, line.len() as int) =~= line);
    lemma_lines_shift(line + seq!['\n'], rest, 0);
    lemma_break(line, 0, line.len() as int);
    assert(line.subrange(0, line.len() as int) =~= line);
}

proof fn lemma_break(s: Seq<char>, i: int, b: int)
    requires
        0 <= i <= b <= s.len(),
        b < s.len() ==> s[b] == '\n',
        forall|k: int| i <= k < b ==> #[trigger] s[k] != '\n',
    ensures
        break_from(s, i) == b,
    decreases b - i,
{
    if i < b {
        assert(s[i] != '\n');
        lemma_break(s, i + 1, b);
    }
}

proof fn lemma_break_shift(p: Seq<char>, s: Seq<char>, i: int)
    requires
        0 <= i <= s.len(),
    ensures
        break_from(p + s, p.len() + i) == p.len() + break_from(s, i),
        i <= break_from(s, i) <= s.len(),
    decreases s.len() - i,
{
    if i < s.len() && s[i] != '\n' {
        lemma_break_shift(p, s, i + 1);
    }
}

proof fn lemma_lines_shift(p: Seq<char>, s: Seq<char>, i: int)
    requires
        0 <= i <= s.len(),
    ensures
        lines_from(p + s, p.len() + i) == lines_from(s, i),
    decreases s.len() - i,
{
    if i < s.len() {
        lemma_break_shift(p, s, i);
        let b = break_from(s, i);
        if b >= s.len() {
            assert((p + s).subrange(p.len() + i, (p + s).len() as int) =~= s.subrange(
                i,
                s.len() as int,
            ));
        } else {
            assert((p + s).subrange(p.len() + i, p.len() + b) =~= s.subrange(i, b));
            lemma_lines_shift(p, s, b + 1);
        }
    }
}

/// Words are what stands between blanks.
pub proof fn words_stand_between_blanks(w: Seq<char>, c: char, rest: Seq<char>)
    requires
        forall|i: int| 0 <= i < w.len() ==> !blank(#[trigger] w[i]),
        blank(c),
    ensures
        words_of(w + seq![c] + rest) == words_of(w) + words_of(rest),
        words_of(w) == if w.len() > 0 {
            seq![w]
        } else {
            seq![]
        },
{
    let s = w + seq![c] + rest;
    lemma_word(s, 0, w.len() as int);
    lemma_word(w, 0, w.len() as int);
    assert(s.subrange(0, w.len() as int) =~= w);
    assert(w.subrange(0, w.len() as int) =~= w);
    assert(words_from(w, w.len() as int + 1) =~= seq![]);
    assert(words_of(w) =~= if w.len() > 0 {
        seq![w]
    } else {
        seq![]
    });
    lemma_words_shift(w + seq![c], rest, 0);
    assert(words_from(s, w.len() as int + 1) == words_of(rest));
}

proof fn lemma_word(s: Seq<char>, i: int, e: int)
    requires
        0 <= i <= e <= s.len(),
        e < s.len() ==> blank(s[e]),
        forall|k: int| i <= k < e ==> !blank(#[trigger] s[k]),
    ensures
        word_end(s, i) == e,
    decreases e - i,
{
    if i < e {
        assert(!blank(s[i]));
        lemma_word(s, i + 1, e);
    }
}

proof fn lemma_word_shift(p: Seq<char>, s: Seq<char>, i: int)
    requires
        0 <= i <= s.len(),
    ensures
        word_end(p + s, p.len() + i) == p.len() + word_end(s, i),
        i <= word_end(s, i) <= s.len(),
    decreases s.len() - i,
{
    if i < s.len() && !blank(s[i]) {
        lemma_word_shift(p, s, i + 1);
    }
}

proof fn lemma_words_shift(p: Seq<char>, s: Seq<char>, i: int)
    requires
        0 <= i,
    ensures
        words_from(p + s, p.len() + i) == words_from(s, i),
    decreases s.len() + 1 - i,
{
    if i < s.len() {
        lemma_word_shift(p, s, i);
        let e = word_end(s, i);
        assert((p + s).subrange(p.len() + i, p.len() + e) =~= s.subrange(i, e));
        lemma_words_shift(p, s, e + 1);
    }
}

/// A number is read back as it was written, with or without a plus sign, unless it is
/// larger than what is asked for.
pub proof fn written_numbers_are_read_back(n: nat, max: nat)
    ensures
        parsed_unsigned(dec(n as int), max) == if n <= max {
            Some(n)
        } else {
            None
        },
        parsed_unsigned(seq!['+'] + dec(n as int), max) == parsed_unsigned(dec(n as int), max),
{
    let d = dec(n as int);
    numbers_are_written_in_digits(n as int);
    assert('0' <= d[0]);
    assert((seq!['+'] + d).skip(1) =~= d);
}

/// A signed number is read back as it was written exactly where it fits into 64 bits.
pub proof fn written_signed_numbers_are_read_back(n: int)
    ensures
        parsed_signed(dec(n)) == if i64::MIN <= n <= i64::MAX {
            Some(n)
        } else {
            None
        },
{
    numbers_are_written_in_digits(n);
    if n >= 0 {
        assert('0' <= dec(n)[0]);
    }
}

/// What has anything but digits behind its first character is no number.
pub proof fn other_texts_are_no_numbers(s: Seq<char>, i: int, max: nat)
    requires
        0 < i < s.len(),
        s[i] < '0' || s[i] > '9',
    ensures
        parsed_unsigned(s, max) is None,
        parsed_signed(s) is None,
{
    assert(s.skip(1)[i - 1] == s[i]);
}

/// A filter is split at its first equals sign, and the blanks around both parts go.
pub proof fn filters_are_split_at_the_first_equals_sign(key: Seq<char>, value: Seq<char>)
    requires
        lacks(key, '='),
    ensures
        split_filter(key) == Err::<(Seq<char>, Seq<char>), FieldError>(FieldError::NoValue),
        split_filter(key + seq!['='] + value) == if trimmed(key).len() == 0 {
            Err::<(Seq<char>, Seq<char>), FieldError>(FieldError::EmptyKey)
        } else {
            Ok((trimmed(key), trimmed(value)))
        },
{
    let s = key + seq!['='] + value;
    lemma_equals(s, 0, key.len() as int);
    lemma_equals(key, 0, key.len() as int);
    assert(s.take(key.len() as int) =~= key);
    assert(s.skip(key.len() as int + 1) =~= value);
}

proof fn lemma_equals(s: Seq<char>, i: int, e: int)
    requires
        0 <= i <= e <= s.len(),
        e < s.len() ==> s[e] == '=',
        forall|k: int| i <= k < e ==> #[trigger] s[k] != '=',
    ensures
        equals_from(s, i) == if e < s.len() {
            Some(e)
        } else {
            None
        },
    decreases e - i,
{
    if i < e {
        assert(s[i] != '=');
        lemma_equals(s, i + 1, e);
    }
}

/// A filter's value is an integer wherever it is written as one that fits.
pub proof fn integers_are_integers(n: i64, float: Option<u64>)
    ensures
        value_of(dec(n as int), float) == FieldView::Int(n),
{
    let d = dec(n as int);
    written_signed_numbers_are_read_back(n as int);
    numbers_are_written_in_digits(n as int);
    reveal_strlit("true");
    reveal_strlit("false");
    if n >= 0 {
        assert(d[0] <= '9');
    }
    if spells(d, "true"@) {
        assert(crate::parse::is_letter(d[0], "true"@[0]));
    }
    if spells(d, "false"@) {
        assert(crate::parse::is_letter(d[0], "false"@[0]));
    }
}

/// The name of a file is what stands behind the last slash; a slash or a dot at the end
/// does not count.
pub proof fn names_stand_behind_the_last_slash(dir: Seq<char>, name: Seq<char>)
    requires
        lacks(name, '/'),
    ensures
        name.len() > 0 && name != seq!['.'] && name != seq!['.', '.'] ==> file_name(name) == Some(
            name,
        ) && file_name(dir + seq!['/'] + name) == Some(name),
        file_name(dir + seq!['/']) == file_name(dir),
        file_name(dir + seq!['/', '.']) == file_name(dir),
        file_name(dir + seq!['/', '.', '.']) is None,
{
    lemma_tail(seq![], name);
    assert(Seq::<char>::empty() + name =~= name);
    lemma_tail(dir + seq!['/'], name);
    lemma_tail(dir + seq!['/'], seq![]);
    assert(dir + seq!['/'] + seq![] =~= dir + seq!['/']);
    assert((dir + seq!['/']).take((dir + seq!['/']).len() - 0 - 1) =~= dir);
    lemma_tail(dir + seq!['/'], seq!['.']);
    let dot = dir + seq!['/', '.'];
    assert(dir + seq!['/'] + seq!['.'] =~= dot);
    assert(dot.take(dot.len() - 1 - 1) =~= dir);
    lemma_tail(dir + seq!['/'], seq!['.', '.']);
    assert(dir + seq!['/'] + seq!['.', '.'] =~= dir + seq!['/', '.', '.']);
}

proof fn lemma_tail(p: Seq<char>, t: Seq<char>)
    requires
        p.len() > 0 ==> p.last() == '/',
        lacks(t, '/'),
    ensures
        after_last(p + t, '/') == t,
    decreases t.len(),
{
    if t.len() > 0 {
        assert(t[t.len() - 1] != '/');
        assert((p + t).drop_last() =~= p + t.drop_last());
        lemma_tail(p, t.drop_last());
        assert(t.drop_last().push(t.last()) =~= t);
    } else {
        assert(p + t =~= p);
        assert(after_last(p, '/') =~= t);
    }
}

/// A path that starts at the root stands for itself. Any other is put behind the
/// directory, with one slash between.
pub proof fn paths_are_joined_by_one_slash(base: Seq<char>, rel: Seq<char>)
    ensures
        absolute(rel) ==> joined_path(base, rel) == rel,
        !absolute(rel) && base.len() > 0 && base.last() != '/' ==> joined_path(base, rel) == base
            + seq!['/'] + rel && joined_path(base + seq!['/'], rel) == base + seq!['/'] + rel,
        joined_path(seq![], rel) == rel,
{
    reveal_strlit("/");
    assert("/"@ =~= seq!['/']);
    assert(Seq::<char>::empty() + rel =~= rel);
}

/// A path names its components one after the other: one more behind a slash is one
/// component more, unless it is empty or a dot.
pub proof fn paths_are_their_components(dir: Seq<char>, name: Seq<char>)
    requires
        lacks(name, '/'),
    ensures
        components_from(dir + seq!['/'] + name, 0) == if name.len() == 0 || name == seq!['.'] {
            components_from(dir, 0)
        } else {
            components_from(dir, 0).push(name)
        },
        components_from(name, 0) == if name.len() == 0 {
            seq![]
        } else {
            seq![name]
        },
{
    let s = dir + seq!['/'] + name;
    lemma_components(dir, name, 0);
    lemma_component(s, dir.len() as int + 1, s.len() as int);
    assert(s.subrange(dir.len() as int + 1, s.len() as int) =~= name);
    assert(components_from(s, s.len() as int + 1) =~= seq![]);
    if name.len() > 0 {
        lemma_component(name, 0, name.len() as int);
        assert(name.subrange(0, name.len() as int) =~= name);
        assert(components_from(name, name.len() as int + 1) =~= seq![]);
        assert(components_from(name, 0) =~= seq![name]);
        assert(components_from(s, dir.len() as int + 1) =~= if name == seq!['.'] {
            seq![]
        } else {
            seq![name]
        });
    }
    assert(components_from(s, 0) =~= if name.len() == 0 || name == seq!['.'] {
        components_from(dir, 0)
    } else {
        components_from(dir, 0).push(name)
    });
}

proof fn lemma_component(s: Seq<char>, i: int, e: int)
    requires
        0 <= i <= e <= s.len(),
        e < s.len() ==> s[e] == '/',
        forall|k: int| i <= k < e ==> #[trigger] s[k] != '/',
    ensures
        component_end(s, i) == e,
    decreases e - i,
{
    if i < e {
        assert(s[i] != '/');
        lemma_component(s, i + 1, e);
    }
}

proof fn lemma_component_prefix(dir: Seq<char>, name: Seq<char>, i: int)
    requires
        0 <= i <= dir.len(),
    ensures
        component_end(dir + seq!['/'] + name, i) == component_end(dir, i),
        i <= component_end(dir, i) <= dir.len(),
    decreases dir.len() - i,
{
    let s = dir + seq!['/'] + name;
    if i < dir.len() {
        assert(s[i] == dir[i]);
        if dir[i] != '/' {
            lemma_component_prefix(dir, name, i + 1);
        }
    } else {
        assert(s[i] == '/');
    }
}

proof fn lemma_components(dir: Seq<char>, name: Seq<char>, i: int)
    requires
        0 <= i <= dir.len() + 1,
    ensures
        components_from(dir + seq!['/'] + name, i) =~= components_from(dir, i) + components_from(
            dir + seq!['/'] + name,
            dir.len() as int + 1,
        ),
    decreases dir.len() + 1 - i,
{
    let s = dir + seq!['/'] + name;
    if i <= dir.len() {
        lemma_component_prefix(dir, name, i);
        let e = component_end(dir, i);
        assert(s.subrange(i, e) =~= dir.subrange(i, e));
        lemma_components(dir, name, e + 1);
        if i == dir.len() {
            assert(dir.subrange(i, e) =~= seq![]);
        }
    }
}

/// Two paths are the same exactly where they start alike and have the same components.
pub proof fn paths_differ_in_their_components(dir: Seq<char>, a: Seq<char>, b: Seq<char>)
    requires
        dir.len() > 0,
        lacks(a, '/'),
        lacks(b, '/'),
        a.len() > 0 && a != seq!['.'],
        b.len() > 0 && b != seq!['.'],
    ensures
        equal_paths(dir + seq!['/'] + a, dir + seq!['/'] + b) <==> a == b,
        equal_paths(dir + seq!['/'], dir),
        !equal_paths(seq!['/'] + a, a),
{
    paths_are_their_components(dir, a);
    paths_are_their_components(dir, b);
    paths_are_their_components(dir, seq![]);
    assert(dir + seq!['/'] + seq![] =~= dir + seq!['/']);
    assert(components_from(dir, 0).push(a).last() == a);
    assert(components_from(dir, 0).push(b).last() == b);
    assert((seq!['/'] + a)[0] == '/');
    assert(a[0] != '/');
}

/// A model is shown by the name of its file, and by its whole path where that names none.
pub proof fn models_are_shown_by_their_files(dir: Seq<char>, name: Seq<char>)
    requires
        lacks(name, '/'),
        name.len() > 0 && name != seq!['.'] && name != seq!['.', '.'],
    ensures
        shown_name(dir + seq!['/'] + name) == name,
        shown_name(dir + seq!['/', '.', '.']) == dir + seq!['/', '.', '.'],
{
    names_stand_behind_the_last_slash(dir, name);
}

/// What is no number equals nothing. Of two numbers, each equals the other where all bits
/// are the same or both are zero, whatever their signs.
pub proof fn doubles_are_equal_as_numbers(sign: nat, exponent: nat, fraction: nat, y: u64)
    requires
        sign < 2,
        exponent < 2048,
        fraction < 0x10_0000_0000_0000,
    ensures
        ({
            let x = (sign * 0x8000_0000_0000_0000 + exponent * 0x10_0000_0000_0000
                + fraction) as u64;
            &&& exponent == 2047 && fraction > 0 ==> !doubles_equal(x, y) && !doubles_equal(y, x)
            &&& exponent < 2047 || fraction == 0 ==> doubles_equal(x, x)
            &&& doubles_equal(x, y) && x != y ==> exponent == 0 && fraction == 0 && (y == 0 || y
                == 0x8000_0000_0000_0000)
        }),
        doubles_equal(0, 0x8000_0000_0000_0000),
{
    let x = (sign * 0x8000_0000_0000_0000 + exponent * 0x10_0000_0000_0000 + fraction) as u64;
    assert(x % 0x8000_0000_0000_0000 == exponent * 0x10_0000_0000_0000 + fraction);
}

/// What stands for another text stands for all of it, from the left, and everything else
/// stays.
pub proof fn replacing_keeps_the_rest(s: Seq<char>, from: Seq<char>, to: Seq<char>)
    requires
        from.len() > 0,
    ensures
        !contains(s, from) ==> replaced(s, from, to) == s,
        replaced(from + s, from, to) == to + replaced(s, from, to),
        s.len() > 0 && !starts_with(s, from) ==> replaced(s, from, to) == seq![s[0]] + replaced(
            s.skip(1),
            from,
            to,
        ),
    decreases s.len(),
{
    assert((from + s).take(from.len() as int) =~= from);
    assert((from + s).skip(from.len() as int) =~= s);
    if s.len() > 0 && !contains(s, from) {
        let t = s.skip(1);
        if starts_with(s, from) {
            assert(s.subrange(0, from.len() as int) =~= from);
            assert(occurs_at(s, from, 0));
        }
        assert(!contains(t, from)) by {
            if contains(t, from) {
                let i = choose|i: int| #[trigger] occurs_at(t, from, i);
                assert(s.subrange(i + 1, i + 1 + from.len()) =~= t.subrange(i, i + from.len()));
                assert(occurs_at(s, from, i + 1));
            }
        }
        replacing_keeps_the_rest(t, from, to);
        assert(seq![s[0]] + t =~= s);
    }
}

/// The first of the four bytes in front of a message counts ones, and each further one
/// counts two hundred and fifty-six times as much as the one before.
pub proof fn first_byte_counts_ones(head: Seq<u8>, i: int)
    requires
        head.len() == 4,
        0 <= i < 4,
        head[i] < 255,
    ensures
        length_in(seq![0u8, 0u8, 0u8, 0u8]) == 0,
        ({
            let more = length_in(head.update(i, (head[i] + 1) as u8)) - length_in(head);
            &&& i == 0 ==> more == 1
            &&& i == 1 ==> more == 256
            &&& i == 2 ==> more == 256 * 256
            &&& i == 3 ==> more == 256 * 256 * 256
        }),
{
}

} // verus!
