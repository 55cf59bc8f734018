//! What the operations on doubles and their decimals give, told without them.

use crate::double::{
    half_even, lemma_half_even_bounds, lemma_of_int, lemma_pow2_facts, lemma_ratio_at_most_one,
    lemma_scaled_int, less, of_int, over, packed, percent, ratio, rounded, times, truncated, units,
    Bin, HIGH, LOW,
};
use crate::parse::{all_digits, digits_value};
use crate::text::numeral;
use vstd::arithmetic::power2::{lemma_pow2_adds, lemma_pow2_pos, pow2};
use vstd::prelude::*;

verus! {

/// How far apart two numbers are.
pub open spec fn apart(x: nat, y: nat) -> nat {
    if x < y {
        (y - x) as nat
    } else {
        (x - y) as nat
    }
}

/// Rounding goes to the nearest integer, and to an even one between two.
pub proof fn rounding_is_to_the_nearest(num: nat, den: nat)
    requires
        den > 0,
    ensures
        2 * apart(half_even(num, den) * den, num) <= den,
        2 * apart(half_even(num, den) * den, num) == den ==> half_even(num, den) % 2 == 0,
{
    let q = num / den;
    let r = num % den;
    vstd::arithmetic::div_mod::lemma_fundamental_div_mod(num as int, den as int);
    assert(den * q == q * den) by (nonlinear_arith);
    assert((q + 1) * den == q * den + den) by (nonlinear_arith);
}

/// `r` is the double nearest to `x / y`: it has 53 bits, and is no further than half of
/// its last bit away.
pub open spec fn is_nearest(r: Bin, x: nat, y: nat) -> bool {
    &&& LOW <= r.mant < HIGH
    &&& if r.exp >= 0 {
        2 * apart(r.mant * pow2(r.exp as nat) * y, x) <= y * pow2(r.exp as nat)
    } else {
        2 * apart(r.mant * y, x * pow2((-r.exp) as nat)) <= y
    }
}

/// The same number packed keeps the distance.
proof fn lemma_packed_nearest(q: nat, e: int, x: nat, y: nat)
    requires
        LOW <= q <= HIGH,
        e >= 0 ==> 2 * apart(q * pow2(e as nat) * y, x) <= y * pow2(e as nat),
        e < 0 ==> 2 * apart(q * y, x * pow2((-e) as nat)) <= y,
    ensures
        is_nearest(packed(q, e), x, y),
{
    if q == HIGH {
        lemma_pow2_facts(0);
        if e >= 0 {
            let p = pow2(e as nat);
            lemma_pow2_facts(e as nat);
            assert(pow2((e + 1) as nat) == 2 * p);
            assert(LOW as nat * (2 * p) * y == q * p * y) by (nonlinear_arith)
                requires
                    q == HIGH,
                    HIGH == 2 * LOW,
            ;
            assert(y * p <= y * (2 * p)) by (nonlinear_arith);
        } else if e == -1 {
            lemma_pow2_facts(0);
            assert(pow2(1) == 2);
            assert(pow2(0) == 1);
            assert(LOW as nat * 1 * y == LOW as nat * y) by (nonlinear_arith);
            assert(q * y == 2 * (LOW as nat * y)) by (nonlinear_arith)
                requires
                    q == HIGH,
                    HIGH == 2 * LOW,
            ;
            assert(apart(q * y, x * 2) == 2 * apart(LOW as nat * y, x));
            assert(y * 1 == y);
        } else {
            let k = (-e - 1) as nat;
            lemma_pow2_facts(k);
            assert(pow2((-e) as nat) == 2 * pow2(k));
            assert(q * y == 2 * (LOW as nat * y)) by (nonlinear_arith)
                requires
                    q == HIGH,
                    HIGH == 2 * LOW,
            ;
            assert(x * (2 * pow2(k)) == 2 * (x * pow2(k))) by (nonlinear_arith);
            assert(apart(q * y, x * pow2((-e) as nat)) == 2 * apart(LOW as nat * y, x * pow2(k)));
        }
    }
}

/// A quotient of two integers of up to 53 bits is the double nearest to it.
pub proof fn ratios_are_nearest(a: nat, b: nat)
    requires
        0 < a < HIGH,
        0 < b < HIGH,
    ensures
        is_nearest(ratio(a, b), a, b),
{
    lemma_of_int(a);
    lemma_of_int(b);
    let (x, y) = (of_int(a), of_int(b));
    let (i, j) = ((-x.exp) as nat, (-y.exp) as nat);
    let (u, v) = (x.mant, y.mant);
    lemma_pow2_pos(i);
    lemma_pow2_pos(j);
    let (s, e): (nat, int) = if u >= v {
        (52, x.exp - y.exp - 52)
    } else {
        (53, x.exp - y.exp - 53)
    };
    lemma_pow2_facts(s);
    let num = u * pow2(s);
    let q = half_even(num, v);
    rounding_is_to_the_nearest(num, v);
    assert(pow2(s) == if u >= v {
        LOW as nat
    } else {
        HIGH as nat
    });
    if u >= v {
        assert(LOW as nat * v <= num <= HIGH as nat * v) by (nonlinear_arith)
            requires
                num == u * LOW,
                v <= u,
                u < HIGH,
                v >= LOW,
        ;
    } else {
        assert(LOW as nat * v <= num <= HIGH as nat * v) by (nonlinear_arith)
            requires
                num == u * HIGH,
                u < v,
                u >= LOW,
                v < HIGH,
                HIGH == 2 * LOW,
        ;
    }
    lemma_half_even_bounds(num, v, LOW as nat, HIGH as nat);
    // num = a * 2^(i + s) and v = b * 2^j.
    lemma_pow2_adds(i, s);
    assert(num == a * pow2((i + s) as nat)) by (nonlinear_arith)
        requires
            num == u * pow2(s),
            u == a * pow2(i),
            pow2((i + s) as nat) == pow2(i) * pow2(s),
    ;
    assert(e == j - i - s);
    if e < 0 {
        let k = (-e) as nat;
        lemma_pow2_adds(k, j);
        let (t, z) = (pow2(j), a * pow2(k));
        assert(num == z * t) by (nonlinear_arith)
            requires
                num == a * pow2((i + s) as nat),
                pow2((i + s) as nat) == pow2(k) * t,
                z == a * pow2(k),
        ;
        assert(q * v == (q * b) * t) by (nonlinear_arith)
            requires
                v == b * t,
        ;
        lemma_apart_scaled(q * b, z, t);
        assert(2 * apart(q * b, z) <= b) by (nonlinear_arith)
            requires
                2 * (apart(q * b, z) * t) <= b * t,
                t > 0,
        ;
    } else {
        let k = e as nat;
        lemma_pow2_adds(k, (i + s) as nat);
        let t = pow2((i + s) as nat);
        lemma_pow2_pos((i + s) as nat);
        assert(v == (b * pow2(k)) * t) by (nonlinear_arith)
            requires
                v == b * pow2(j),
                pow2(j) == pow2(k) * t,
        ;
        assert(q * v == (q * pow2(k) * b) * t) by (nonlinear_arith)
            requires
                v == (b * pow2(k)) * t,
        ;
        lemma_apart_scaled(q * pow2(k) * b, a, t);
        assert(2 * apart(q * pow2(k) * b, a) <= b * pow2(k)) by (nonlinear_arith)
            requires
                2 * (apart(q * pow2(k) * b, a) * t) <= (b * pow2(k)) * t,
                t > 0,
        ;
    }
    lemma_packed_nearest(q, e, a, b);
}

proof fn lemma_apart_scaled(x: nat, y: nat, t: nat)
    ensures
        apart(x * t, y * t) == apart(x, y) * t,
{
    if x < y {
        assert(x * t <= y * t && y * t - x * t == (y - x) * t) by (nonlinear_arith)
            requires
                x < y,
        ;
    } else {
        assert(y * t <= x * t && x * t - y * t == (x - y) * t) by (nonlinear_arith)
            requires
                y <= x,
        ;
    }
}

/// A product of two doubles is the double nearest to it: no further away than half of
/// its last bit.
pub proof fn products_are_nearest(a: Bin, b: Bin)
    requires
        LOW <= a.mant < HIGH,
        LOW <= b.mant < HIGH,
    ensures
        ({
            let r = times(a, b);
            let k = r.exp - a.exp - b.exp;
            &&& LOW <= r.mant < HIGH
            &&& k >= 0
            &&& 2 * apart(r.mant * pow2(k as nat), a.mant * b.mant) <= pow2(k as nat)
        }),
{
    let n = a.mant * b.mant;
    lemma_pow2_facts(52);
    lemma_pow2_facts(53);
    assert(LOW as nat * LOW as nat <= n < HIGH as nat * HIGH as nat) by (nonlinear_arith)
        requires
            n == a.mant * b.mant,
            LOW <= a.mant < HIGH,
            LOW <= b.mant < HIGH,
    ;
    let (s, p): (nat, nat) = if n < LOW * HIGH {
        (52, LOW as nat)
    } else {
        (53, HIGH as nat)
    };
    let q = half_even(n, p);
    rounding_is_to_the_nearest(n, p);
    if n < LOW * HIGH {
        assert(LOW as nat * p <= n <= HIGH as nat * p);
    } else {
        assert(LOW as nat * p <= n <= HIGH as nat * p);
    }
    lemma_half_even_bounds(n, p, LOW as nat, HIGH as nat);
    assert(pow2(s) == p);
    if q == HIGH {
        assert(pow2((s + 1) as nat) == 2 * p);
        assert(LOW as nat * (2 * p) == q * p) by (nonlinear_arith)
            requires
                q == HIGH,
                HIGH == 2 * LOW,
        ;
    }
}

/// Doubles compare as the numbers they are: none is less than itself, of two different
/// integers of up to 53 bits the smaller one is less, and never the larger one.
pub proof fn doubles_compare_as_numbers(x: nat, y: nat)
    requires
        x < HIGH,
        y < HIGH,
    ensures
        less(of_int(x), of_int(y)) <==> x < y,
{
    lemma_of_int(x);
    lemma_of_int(y);
    let (a, b) = (of_int(x), of_int(y));
    lemma_pow2_facts(0);
    if x > 0 && y > 0 {
        let (i, j) = ((-a.exp) as nat, (-b.exp) as nat);
        lemma_pow2_pos(i);
        lemma_pow2_pos(j);
        if a.exp >= b.exp {
            let k = (j - i) as nat;
            lemma_pow2_adds(i, k);
            assert(a.mant * pow2(k) == x * pow2(j)) by (nonlinear_arith)
                requires
                    a.mant == x * pow2(i),
                    pow2(j) == pow2(i) * pow2(k),
            ;
            assert((x * pow2(j) < y * pow2(j)) == (x < y)) by (nonlinear_arith)
                requires
                    pow2(j) > 0,
            ;
        } else {
            let k = (i - j) as nat;
            lemma_pow2_adds(j, k);
            assert(b.mant * pow2(k) == y * pow2(i)) by (nonlinear_arith)
                requires
                    b.mant == y * pow2(j),
                    pow2(i) == pow2(j) * pow2(k),
            ;
            assert((x * pow2(i) < y * pow2(i)) == (x < y)) by (nonlinear_arith)
                requires
                    pow2(i) > 0,
            ;
        }
    } else if x == 0 && y > 0 {
        let j = (-b.exp) as nat;
        lemma_pow2_pos(j);
        assert(0 * pow2(j) == 0);
        assert(b.mant > 0);
    } else if y == 0 {
        if a.exp >= 0 {
            lemma_pow2_pos(a.exp as nat);
        } else {
            let i = (-a.exp) as nat;
            lemma_pow2_pos(i);
            assert(0 * pow2(i) == 0);
        }
    }
}

/// No double is less than itself, and no two are less than each other.
pub proof fn less_is_strict(a: Bin, b: Bin)
    ensures
        !less(a, a),
        !(less(a, b) && less(b, a)),
{
    lemma_pow2_facts(0);
    assert(a.mant * pow2(0) == a.mant) by (nonlinear_arith)
        requires
            pow2(0) == 1,
    ;
    if a.exp == b.exp {
        assert(b.mant * pow2(0) == b.mant) by (nonlinear_arith)
            requires
                pow2(0) == 1,
        ;
    }
}

/// A double without its fraction is the largest integer that is no larger, and rounded
/// it is an integer no further than a half away, away from zero between two.
pub proof fn integers_near_a_double(a: Bin)
    ensures
        a.exp >= 0 ==> truncated(a) == a.mant * pow2(a.exp as nat) && rounded(a) == truncated(a),
        a.exp < 0 ==> {
            let p = pow2((-a.exp) as nat);
            &&& truncated(a) * p <= a.mant < (truncated(a) + 1) * p
            &&& 2 * a.mant < (2 * rounded(a) + 1) * p
            &&& (2 * rounded(a) - 1) * p <= 2 * a.mant
        },
{
    if a.exp < 0 {
        let p = pow2((-a.exp) as nat);
        lemma_pow2_pos((-a.exp) as nat);
        vstd::arithmetic::div_mod::lemma_fundamental_div_mod(a.mant as int, p as int);
        let t = truncated(a);
        assert(t * p <= a.mant < (t + 1) * p) by (nonlinear_arith)
            requires
                a.mant == p * t + a.mant % p,
                0 <= a.mant % p < p,
        ;
        let (n, d) = (2 * a.mant + p, 2 * p);
        let r = rounded(a);
        vstd::arithmetic::div_mod::lemma_fundamental_div_mod(n as int, d as int);
        assert(2 * a.mant < (2 * r + 1) * p && (2 * r - 1) * p <= 2 * a.mant) by (nonlinear_arith)
            requires
                n == d * r + n % d,
                0 <= n % d < d,
                n == 2 * a.mant + p,
                d == 2 * p,
        ;
    }
}

/// Counting a double in units is to the nearest count.
pub proof fn unit_counts_are_nearest(a: Bin, unit: nat)
    ensures
        a.exp >= 0 ==> units(a, unit) == a.mant * pow2(a.exp as nat) * unit,
        a.exp < 0 ==> 2 * apart(units(a, unit) * pow2((-a.exp) as nat), a.mant * unit) <= pow2(
            (-a.exp) as nat,
        ),
{
    if a.exp < 0 {
        lemma_pow2_pos((-a.exp) as nat);
        rounding_is_to_the_nearest(a.mant * unit, pow2((-a.exp) as nat));
    }
}

proof fn lemma_times_commutes(a: Bin, b: Bin)
    requires
        a.wf(),
        b.wf(),
    ensures
        times(a, b) == times(b, a),
{
    assert(a.mant * b.mant == b.mant * a.mant) by (nonlinear_arith);
}

/// A part is at most a hundred percent of the whole, and nothing is zero percent.
pub proof fn parts_are_at_most_a_hundred_percent(a: nat, b: nat)
    requires
        a <= b,
        b > 0,
    ensures
        percent(a, b) <= 100,
        a == 0 ==> percent(a, b) == 0,
{
    lemma_ratio_at_most_one(a, b);
    lemma_of_int(100);
    lemma_scaled_int(100, ratio(a, b));
    lemma_times_commutes(ratio(a, b), of_int(100));
    if a == 0 {
        lemma_pow2_facts(0);
        assert(0 * pow2(0) == 0);
    }
}

proof fn lemma_digit(d: int)
    requires
        0 <= d < 10,
    ensures
        crate::text::digit(d) == ('0' as int + d) as char,
{
}

/// A numeral in base ten consists of digits and is worth its number, without a leading
/// zero but for zero itself.
pub proof fn numerals_are_worth_their_number(n: nat)
    ensures
        all_digits(numeral(n, 10)),
        digits_value(numeral(n, 10)) == n,
        numeral(n, 10).len() > 0,
        n > 0 ==> numeral(n, 10)[0] != '0',
        n == 0 ==> numeral(n, 10) == seq!['0'],
    decreases n,
{
    let s = numeral(n, 10);
    if n < 10 {
        lemma_digit(n as int);
        assert(s.drop_last() =~= Seq::<char>::empty());
        reveal_with_fuel(digits_value, 2);
        assert(s[0] == ('0' as int + n) as char);
    } else {
        let rest = numeral(n / 10, 10);
        numerals_are_worth_their_number(n / 10);
        lemma_digit((n % 10) as int);
        assert(s.drop_last() =~= rest);
        assert(s.last() == ('0' as int + (n % 10) as int) as char);
        assert forall|i: int| 0 <= i < s.len() implies '0' <= #[trigger] s[i] <= '9' by {
            if i < rest.len() {
                assert(s[i] == rest[i]);
            }
        }
    }
}

/// A double in units of two to the power of `m`, which is no more than its exponent.
spec fn counted(a: Bin, m: int) -> nat {
    a.mant * pow2((a.exp - m) as nat)
}

/// Doubles compare as their counts of one unit.
proof fn lemma_less_counted(a: Bin, b: Bin, m: int)
    requires
        m <= a.exp,
        m <= b.exp,
    ensures
        less(a, b) <==> counted(a, m) < counted(b, m),
{
    let (i, j) = ((a.exp - m) as nat, (b.exp - m) as nat);
    if a.exp >= b.exp {
        let k = (a.exp - b.exp) as nat;
        lemma_pow2_adds(k, j);
        lemma_pow2_pos(j);
        let x = a.mant * pow2(k);
        assert(counted(a, m) == x * pow2(j)) by (nonlinear_arith)
            requires
                counted(a, m) == a.mant * pow2(i),
                pow2(i) == pow2(k) * pow2(j),
                x == a.mant * pow2(k),
        ;
        assert((x < b.mant) == (x * pow2(j) < b.mant * pow2(j))) by (nonlinear_arith)
            requires
                pow2(j) > 0,
        ;
    } else {
        let k = (b.exp - a.exp) as nat;
        lemma_pow2_adds(k, i);
        lemma_pow2_pos(i);
        let y = b.mant * pow2(k);
        assert(counted(b, m) == y * pow2(i)) by (nonlinear_arith)
            requires
                counted(b, m) == b.mant * pow2(j),
                pow2(j) == pow2(k) * pow2(i),
                y == b.mant * pow2(k),
        ;
        assert((a.mant < y) == (a.mant * pow2(i) < y * pow2(i))) by (nonlinear_arith)
            requires
                pow2(i) > 0,
        ;
    }
}

/// Comparing doubles carries over: what is no less than something is no less than what
/// that is no less than.
pub proof fn comparing_carries_over(a: Bin, b: Bin, c: Bin)
    ensures
        !less(a, b) && !less(b, c) ==> !less(a, c),
        less(a, b) ==> !less(b, a),
{
    let m = if a.exp <= b.exp && a.exp <= c.exp {
        a.exp
    } else if b.exp <= c.exp {
        b.exp
    } else {
        c.exp
    };
    lemma_less_counted(a, b, m);
    lemma_less_counted(b, c, m);
    lemma_less_counted(a, c, m);
    lemma_less_counted(b, a, m);
}

} // verus!
