//! What the texts that the library writes look like.

use crate::breakdown_text::micros;
use crate::columns::{binary_size, firsts, secs};
use crate::double::{decimal, fixed, ratio, ten_to, units, Bin, HIGH};
use crate::parse::{all_digits, digits_value};
use crate::rounding::{
    apart, is_nearest, numerals_are_worth_their_number, ratios_are_nearest, unit_counts_are_nearest,
};
use crate::text::{
    after_last, clipped, contains, dec, ends_with, left_aligned, numeral, occurs_at, repeated,
    right_aligned, starts_with, text_before, zero_filled,
};
use vstd::arithmetic::power2::pow2;
use vstd::prelude::*;

verus! {

/// A number is written in digits that are worth it, behind a minus sign where it is
/// negative.
pub proof fn numbers_are_written_in_digits(n: int)
    ensures
        n >= 0 ==> all_digits(dec(n)) && dec(n).len() > 0 && digits_value(dec(n)) == n,
        n < 0 ==> dec(n)[0] == '-' && all_digits(dec(n).skip(1)) && dec(n).len() > 1
            && digits_value(dec(n).skip(1)) == -n,
        n > 0 ==> dec(n)[0] != '0',
{
    if n >= 0 {
        numerals_are_worth_their_number(n as nat);
    } else {
        numerals_are_worth_their_number((-n) as nat);
        assert(dec(n).skip(1) =~= numeral((-n) as nat, 10));
    }
}

proof fn lemma_zeros(k: nat, s: Seq<char>)
    requires
        all_digits(s),
    ensures
        all_digits(repeated('0', k) + s),
        digits_value(repeated('0', k) + s) == digits_value(s),
    decreases s.len() + k,
{
    let t = repeated('0', k) + s;
    if s.len() > 0 {
        assert(t.drop_last() =~= repeated('0', k) + s.drop_last());
        assert forall|i: int| 0 <= i < s.drop_last().len() implies '0' <= (
        #[trigger] s.drop_last()[i]) && s.drop_last()[i] <= '9' by {
            assert(s.drop_last()[i] == s[i]);
        }
        lemma_zeros(k, s.drop_last());
    } else if k > 0 {
        assert(t.drop_last() =~= repeated('0', (k - 1) as nat) + s);
        lemma_zeros((k - 1) as nat, s);
        assert(t.last() == '0');
        assert(digits_value(s) == 0);
    } else {
        assert(t =~= s);
    }
    assert forall|i: int| 0 <= i < t.len() implies '0' <= (#[trigger] t[i]) && t[i] <= '9' by {
        if i >= k {
            assert(t[i] == s[i - k]);
        }
    }
}

proof fn lemma_few_digits(n: nat, places: nat)
    requires
        n < ten_to(places),
        places > 0,
    ensures
        numeral(n, 10).len() <= places,
    decreases places,
{
    if n >= 10 {
        if places == 1 {
            reveal_with_fuel(ten_to, 2);
        } else {
            assert(ten_to(places) == 10 * ten_to((places - 1) as nat));
            assert(n / 10 < ten_to((places - 1) as nat)) by (nonlinear_arith)
                requires
                    n < 10 * ten_to((places - 1) as nat),
            ;
            lemma_few_digits(n / 10, (places - 1) as nat);
        }
    }
}

/// A decimal shows its whole part, a point and exactly as many places as asked for, which
/// together are worth the number of its last places. Without places there is no point.
pub proof fn decimals_show_their_places(n: nat, places: nat)
    ensures
        places == 0 ==> decimal(n, places) == dec(n as int),
        places > 0 ==> exists|k: int|
            #![trigger decimal(n, places)[k]]
            {
                let d = decimal(n, places);
                &&& 0 < k && k + 1 + places == d.len()
                &&& d[k] == '.'
                &&& all_digits(d.take(k)) && all_digits(d.skip(k + 1))
                &&& digits_value(d.take(k)) * ten_to(places) + digits_value(d.skip(k + 1)) == n
            },
{
    if places > 0 {
        lemma_ten_to_positive(places);
        let t = ten_to(places);
        let (q, r) = (n / t, n % t);
        vstd::arithmetic::div_mod::lemma_fundamental_div_mod(n as int, t as int);
        assert(q * t + r == n) by (nonlinear_arith)
            requires
                n == t * q + r,
        ;
        let (x, y) = (dec(q as int), zero_filled(dec(r as int), places));
        numerals_are_worth_their_number(q);
        numerals_are_worth_their_number(r);
        lemma_few_digits(r, places);
        lemma_zeros((places - dec(r as int).len()) as nat, dec(r as int));
        assert(repeated('0', 0) + dec(r as int) =~= dec(r as int));
        let d = decimal(n, places);
        let k = x.len() as int;
        assert(d[k] == '.');
        assert(d.take(k) =~= x);
        assert(d.skip(k + 1) =~= y);
    }
}

proof fn lemma_ten_to_positive(places: nat)
    ensures
        ten_to(places) > 0,
    decreases places,
{
    if places > 0 {
        lemma_ten_to_positive((places - 1) as nat);
    }
}

/// A quotient is shown to the nearest of the places asked for, but for what its double is
/// off: less than a millionth of each unit shown.
pub proof fn quotients_are_shown_to_the_nearest(a: nat, b: nat, places: nat)
    requires
        0 < a < HIGH,
        0 < b < HIGH,
        a < b * 0x1_0000_0000,
    ensures
        ({
            let m = units(ratio(a, b), ten_to(places));
            let p: int = 0x10_0000;
            &&& fixed(ratio(a, b), places) == decimal(m, places)
            &&& 2 * apart(m * b, a * ten_to(places)) * p <= b * (p + ten_to(places))
        }),
{
    let r = ratio(a, b);
    let u = ten_to(places);
    let m = units(r, u);
    ratios_are_nearest(a, b);
    unit_counts_are_nearest(r, u);
    vstd::arithmetic::power2::lemma2_to64();
    lemma_not_so_large(a, b, r);
    let k = (-r.exp) as nat;
    let (t, q) = (pow2(k), r.mant);
    vstd::arithmetic::power2::lemma_pow2_pos(k);
    if k > 20 {
        vstd::arithmetic::power2::lemma_pow2_strictly_increases(20, k);
    }
    assert(2 * apart(m * b, a * u) * t <= b * (t + u)) by {
        lemma_two_roundings(m, q, t, a, b, u);
    }
    let d = apart(m * b, a * u);
    assert(2 * d * 0x10_0000 <= b * (0x10_0000 + u)) by (nonlinear_arith)
        requires
            2 * d * t <= b * (t + u),
            t >= 0x10_0000,
            d >= 0,
            b >= 0,
            u >= 0,
    {
        let p: int = 0x10_0000;
        if 2 * d > b {
            assert((2 * d - b) * t <= b * u);
            assert((2 * d - b) * p <= (2 * d - b) * t);
        } else {
            assert(2 * d * p <= b * p);
            assert(0 <= b * u);
        }
    }
}

proof fn lemma_not_so_large(a: nat, b: nat, r: Bin)
    requires
        0 < b,
        a < b * 0x1_0000_0000,
        is_nearest(r, a, b),
    ensures
        r.exp <= -20,
{
    vstd::arithmetic::power2::lemma2_to64();
    let q = r.mant;
    if r.exp >= 0 {
        let t = pow2(r.exp as nat);
        vstd::arithmetic::power2::lemma_pow2_pos(r.exp as nat);
        assert(2 * (q * t * b) <= b * t + 2 * a);
        assert(false) by (nonlinear_arith)
            requires
                2 * (q * t * b) <= b * t + 2 * a,
                q >= 0x10_0000_0000_0000,
                t >= 1,
                b >= 1,
                a < b * 0x1_0000_0000,
        {
            let bt: nat = b * t;
            assert(bt >= b);
            assert(q * t * b == q * bt);
            assert(q * bt >= 0x10_0000_0000_0000 * bt);
        }
    } else if r.exp > -20 {
        let t = pow2((-r.exp) as nat);
        vstd::arithmetic::power2::lemma_pow2_strictly_increases((-r.exp) as nat, 20);
        assert(2 * (q * b) <= b + 2 * (a * t));
        assert(false) by (nonlinear_arith)
            requires
                2 * (q * b) <= b + 2 * (a * t),
                q >= 0x10_0000_0000_0000,
                0 <= t < 0x10_0000,
                b >= 1,
                0 <= a < b * 0x1_0000_0000,
        {
            assert(a * t <= a * 0xf_ffff);
            assert(q * b >= 0x10_0000_0000_0000 * b);
        }
    }
}

proof fn lemma_two_roundings(m: nat, q: nat, t: nat, a: nat, b: nat, u: nat)
    requires
        2 * apart(m * t, q * u) <= t,
        2 * apart(q * b, a * t) <= b,
    ensures
        2 * apart(m * b, a * u) * t <= b * (t + u),
{
    let x: int = m * t - q * u;
    let y: int = q * b - a * t;
    let d: int = m * b - a * u;
    assert(d * t == x * b + y * u) by (nonlinear_arith)
        requires
            x == m * t - q * u,
            y == q * b - a * t,
            d == m * b - a * u,
    ;
    assert(-(t * b) <= 2 * (x * b) <= t * b) by (nonlinear_arith)
        requires
            -t <= 2 * x <= t,
            b >= 0,
    ;
    assert(-(b * u) <= 2 * (y * u) <= b * u) by (nonlinear_arith)
        requires
            -b <= 2 * y <= b,
            u >= 0,
    ;
    let e: int = apart(m * b, a * u) as int;
    assert(2 * e * t <= b * (t + u)) by (nonlinear_arith)
        requires
            e == d || e == -d,
            -(t * b) - b * u <= 2 * (d * t) <= t * b + b * u,
    ;
}

/// Nanoseconds are shown in microseconds, with three places: none is lost.
pub proof fn microseconds_show_every_nanosecond(n: nat)
    requires
        0 < n < 0x100_0000_0000,
    ensures
        micros(n) == decimal(n, 3),
{
    reveal_with_fuel(ten_to, 4);
    quotients_are_shown_to_the_nearest(n, 1000, 3);
    let m = units(ratio(n, 1000), 1000);
    let d = apart(m * 1000, n * 1000);
    assert(d < 1000);
    assert(m == n);
}

/// Nanoseconds are shown in seconds to the nearest of three places.
pub proof fn seconds_are_shown_to_the_nearest(ns: nat)
    requires
        0 < ns < HIGH,
    ensures
        exists|m: nat|
            secs(ns) == #[trigger] decimal(m, 3) + "s"@ && 2 * apart(m * 1_000_000, ns)
                <= 1_001_000,
{
    reveal_with_fuel(ten_to, 4);
    quotients_are_shown_to_the_nearest(ns, 1_000_000_000, 3);
    let m = units(ratio(ns, 1_000_000_000), 1000);
    assert(apart(m * 1_000_000_000, ns * 1000) == 1000 * apart(m * 1_000_000, ns));
    assert(secs(ns) == decimal(m, 3) + "s"@);
}

/// A text in a column is filled up with blanks to the width of the column and otherwise
/// unchanged: on the right where it is aligned to the left, and on the left where it is
/// aligned to the right. One that is too long is not cut.
pub proof fn columns_are_filled_with_blanks(s: Seq<char>, width: nat)
    ensures
        s.len() >= width ==> left_aligned(s, width) == s && right_aligned(s, width) == s,
        s.len() < width ==> {
            let (l, r) = (left_aligned(s, width), right_aligned(s, width));
            &&& l.len() == width && r.len() == width
            &&& l.take(s.len() as int) == s && r.skip(width - s.len()) == s
            &&& forall|i: int| s.len() <= i < width ==> #[trigger] l[i] == ' '
            &&& forall|i: int| 0 <= i < width - s.len() ==> #[trigger] r[i] == ' '
        },
{
    if s.len() < width {
        assert(left_aligned(s, width).take(s.len() as int) =~= s);
        assert(right_aligned(s, width).skip(width - s.len()) =~= s);
    }
}

/// A text that is cut keeps its beginning, and ends in the mark. One that fits is not cut.
pub proof fn cut_texts_keep_their_beginning(s: Seq<char>, max: nat, mark: Seq<char>)
    requires
        max > 0,
    ensures
        s.len() <= max ==> clipped(s, max, mark) == s,
        s.len() > max ==> {
            let c = clipped(s, max, mark);
            &&& c.len() == max - 1 + mark.len()
            &&& forall|i: int| 0 <= i < max - 1 ==> #[trigger] c[i] == s[i]
            &&& c.skip(max - 1) == mark
        },
{
    if s.len() > max {
        assert(clipped(s, max, mark).skip(max - 1) =~= mark);
    }
}

/// What stands behind the last `c` holds none, ends the text, and is all of it or stands
/// behind a `c`.
pub proof fn tails_start_behind_the_last(s: Seq<char>, c: char)
    ensures
        ({
            let t = after_last(s, c);
            &&& t.len() <= s.len()
            &&& s.skip(s.len() - t.len()) == t
            &&& forall|i: int| 0 <= i < t.len() ==> #[trigger] t[i] != c
            &&& t.len() == s.len() || s[s.len() - t.len() - 1] == c
        }),
    decreases s.len(),
{
    let t = after_last(s, c);
    if s.len() > 0 && s.last() != c {
        let rest = s.drop_last();
        tails_start_behind_the_last(rest, c);
        let u = after_last(rest, c);
        assert(s.skip(s.len() - t.len()) =~= t) by {
            assert forall|i: int| 0 <= i < t.len() implies s[s.len() - t.len() + i] == t[i] by {
                if i < u.len() {
                    assert(rest.skip(rest.len() - u.len())[i] == u[i]);
                }
            }
        }
        assert forall|i: int| 0 <= i < t.len() implies #[trigger] t[i] != c by {
            if i < u.len() {
                assert(u[i] != c);
            }
        }
        if t.len() < s.len() {
            assert(rest[rest.len() - u.len() - 1] == c);
        }
    } else {
        assert(s.skip(s.len() as int) =~= t);
    }
}

/// The characters of `p` stand in `s` from `k` on.
pub open spec fn agrees_at(s: Seq<char>, p: Seq<char>, k: int) -> bool {
    0 <= k && k + p.len() <= s.len() && forall|i: int|
        0 <= i < p.len() ==> s[k + i] == #[trigger] p[i]
}

/// A text begins, ends with or holds another where the characters agree.
pub proof fn texts_agree_where_they_match(s: Seq<char>, p: Seq<char>)
    ensures
        starts_with(s, p) <==> p.len() <= s.len() && forall|i: int|
            0 <= i < p.len() ==> #[trigger] s[i] == p[i],
        ends_with(s, p) <==> p.len() <= s.len() && forall|i: int|
            0 <= i < p.len() ==> #[trigger] p[i] == s[s.len() - p.len() + i],
        contains(s, p) <==> exists|k: int| #[trigger] agrees_at(s, p, k),
{
    if starts_with(s, p) {
        assert forall|i: int| 0 <= i < p.len() implies #[trigger] s[i] == p[i] by {
            assert(s.take(p.len() as int)[i] == s[i]);
        }
    }
    if p.len() <= s.len() && forall|i: int| 0 <= i < p.len() ==> #[trigger] s[i] == p[i] {
        assert(s.take(p.len() as int) =~= p);
    }
    if ends_with(s, p) {
        assert forall|i: int| 0 <= i < p.len() implies #[trigger] p[i] == s[s.len() - p.len()
            + i] by {
            assert(s.skip(s.len() - p.len())[i] == s[s.len() - p.len() + i]);
        }
    }
    if p.len() <= s.len() && forall|i: int|
        0 <= i < p.len() ==> #[trigger] p[i] == s[s.len() - p.len() + i] {
        assert(s.skip(s.len() - p.len()) =~= p);
    }
    if contains(s, p) {
        let k = choose|k: int| #[trigger] occurs_at(s, p, k);
        assert forall|i: int| 0 <= i < p.len() implies s[k + i] == #[trigger] p[i] by {
            assert(s.subrange(k, k + p.len())[i] == s[k + i]);
        }
        assert(agrees_at(s, p, k));
    }
    if exists|k: int| #[trigger] agrees_at(s, p, k) {
        let k = choose|k: int| #[trigger] agrees_at(s, p, k);
        assert(s.subrange(k, k + p.len()) =~= p);
        assert(occurs_at(s, p, k));
    }
}

/// Texts are in order by their first characters that differ, and a beginning comes before
/// the whole.
pub proof fn texts_are_in_order_by_their_characters(a: Seq<char>, b: Seq<char>, k: int)
    requires
        0 <= k <= a.len(),
        k < b.len(),
        forall|i: int| 0 <= i < k ==> #[trigger] a[i] == b[i],
        k < a.len() ==> a[k] < b[k],
    ensures
        text_before(a, b),
    decreases k,
{
    if k > 0 {
        assert(a[0] == b[0]);
        let (x, y) = (a.skip(1), b.skip(1));
        assert forall|i: int| 0 <= i < k - 1 implies #[trigger] x[i] == y[i] by {
            assert(a[i + 1] == b[i + 1]);
        }
        texts_are_in_order_by_their_characters(x, y, k - 1);
    }
}

/// Of a list that is cut the first elements stay, and of one that fits all.
pub proof fn cut_lists_keep_their_first(s: Seq<int>, top: nat)
    ensures
        firsts(s, top).len() == if s.len() < top {
            s.len()
        } else {
            top
        },
        forall|i: int| 0 <= i < firsts(s, top).len() ==> #[trigger] firsts(s, top)[i] == s[i],
{
}

/// Bytes are shown in the largest binary unit that they fill: gibibytes with two places,
/// mebibytes with one, kibibytes without, and else as they are.
pub proof fn bytes_are_shown_in_binary_units(b: u64)
    ensures
        b >= 1024 * 1024 * 1024 ==> binary_size(b) == fixed(
            ratio(b as nat, 1024 * 1024 * 1024),
            2,
        ) + " GiB"@,
        1024 * 1024 <= b < 1024 * 1024 * 1024 ==> binary_size(b) == fixed(
            ratio(b as nat, 1024 * 1024),
            1,
        ) + " MiB"@,
        1024 <= b < 1024 * 1024 ==> binary_size(b) == fixed(ratio(b as nat, 1024), 0) + " KiB"@,
        b < 1024 ==> binary_size(b) == dec(b as int) + " B"@,
{
}

} // verus!
