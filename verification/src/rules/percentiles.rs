//! Where the percentiles of a list of durations stand.

use crate::double::{
    half_even, lemma_half_even_bounds, lemma_of_int, lemma_pow2_facts, lemma_small_int, of_int,
    ratio, rounded, times, Bin, HIGH, LOW,
};
use crate::rounding::{
    apart, integers_near_a_double, products_are_nearest, rounding_is_to_the_nearest,
};
use crate::rules::mlx_timing::{percentile, Rec};
use vstd::arithmetic::power2::{lemma_pow2_adds, lemma_pow2_pos, pow2};
use vstd::prelude::*;

verus! {

/// Where the share `part / whole` of `n` durations stands.
pub open spec fn percentile_at(n: nat, part: nat, whole: nat) -> nat {
    rounded(times(of_int((n - 1) as nat), ratio(part, whole)))
}

proof fn lemma_half()
    ensures
        ratio(1, 2) == (Bin { mant: LOW as nat, exp: -53 }),
{
    lemma_pow2_facts(52);
    lemma_pow2_facts(51);
    lemma_small_int(1, 52);
    lemma_small_int(2, 51);
    lemma_half_even_bounds(LOW as nat * LOW as nat, LOW as nat, LOW as nat, LOW as nat);
}

/// Half of the durations are no longer than the median: it stands in the middle of them,
/// behind the middle where their number is even.
pub proof fn the_median_stands_in_the_middle(n: nat)
    requires
        0 < n <= HIGH,
    ensures
        percentile_at(n, 1, 2) == n / 2,
{
    let m = (n - 1) as nat;
    lemma_half();
    lemma_of_int(m);
    lemma_pow2_facts(0);
    let (a, h) = (of_int(m), ratio(1, 2));
    if m > 0 {
        let i = (-a.exp) as nat;
        assert(a.mant * LOW < LOW * HIGH) by (nonlinear_arith)
            requires
                a.mant < HIGH,
        ;
        lemma_half_even_bounds(a.mant * LOW as nat, LOW as nat, a.mant, a.mant);
        let t = times(a, h);
        assert(t == (Bin { mant: a.mant, exp: a.exp - 1 }));
        let p = pow2((i + 1) as nat);
        lemma_pow2_facts(i);
        assert(p == 2 * pow2(i));
        let q = pow2(i);
        let r = rounded(t);
        integers_near_a_double(t);
        assert(a.mant == m * q);
        assert(2 * (m * q) < (2 * r + 1) * (2 * q) && (2 * r - 1) * (2 * q) <= 2 * (m * q));
        assert(m < 2 * r + 1 && 2 * r - 1 <= m) by (nonlinear_arith)
            requires
                2 * (m * q) < (2 * r + 1) * (2 * q),
                (2 * r - 1) * (2 * q) <= 2 * (m * q),
                q > 0,
        ;
    } else {
        assert(0 * pow2(0) == 0);
    }
}

proof fn lemma_nineteen_twentieths()
    ensures
        ratio(19, 20).exp == -53,
        LOW <= ratio(19, 20).mant < HIGH,
        20 * ratio(19, 20).mant + 10 >= 19 * HIGH,
        20 * ratio(19, 20).mant <= 19 * HIGH + 10,
{
    lemma_pow2_facts(53);
    vstd::arithmetic::power2::lemma2_to64();
    vstd::arithmetic::power2::lemma2_to64_rest();
    lemma_small_int(19, 48);
    lemma_small_int(20, 48);
    let (x, y) = (of_int(19), of_int(20));
    let num = x.mant * HIGH as nat;
    let q = half_even(num, y.mant);
    rounding_is_to_the_nearest(num, y.mant);
    let p = pow2(48);
    assert(x.mant == 19 * p && y.mant == 20 * p);
    assert(q * (20 * p) == (20 * q) * p && num == (19 * HIGH as nat) * p) by (nonlinear_arith)
        requires
            num == (19 * p) * HIGH as nat,
    ;
    let (u, v) = (20 * q, 19 * HIGH as nat);
    assert(2 * apart(u * p, v * p) <= 20 * p);
    assert(u <= v + 10 && v <= u + 10) by (nonlinear_arith)
        requires
            2 * apart(u * p, v * p) <= 20 * p,
            p > 0,
            u * p <= v * p ==> apart(u * p, v * p) == v * p - u * p,
            u * p > v * p ==> apart(u * p, v * p) == u * p - v * p,
    ;
    assert(q < HIGH && q >= LOW);
}

/// The ninety-fifth percentile stands at nineteen twentieths of the way, to the nearest
/// place.
pub proof fn the_ninety_fifth_percentile_stands_near_the_end(n: nat)
    requires
        0 < n <= 0x100_0000_0000,
    ensures
        20 * percentile_at(n, 19, 20) <= 19 * (n - 1) + 10,
        19 * (n - 1) <= 20 * percentile_at(n, 19, 20) + 10,
{
    let m = (n - 1) as nat;
    lemma_nineteen_twentieths();
    lemma_of_int(m);
    lemma_pow2_facts(0);
    let (a, h) = (of_int(m), ratio(19, 20));
    if m > 0 {
        let i = (-a.exp) as nat;
        lemma_pow2_pos(i);
        products_are_nearest(a, h);
        let t = times(a, h);
        let k = (t.exp - a.exp - h.exp) as nat;
        lemma_exponent(a, h);
        assert(52 <= k <= 54);
        // i is at least thirteen, since m has at most forty bits.
        assert(i >= 13) by {
            if i < 13 {
                vstd::arithmetic::power2::lemma2_to64();
                if i < 12 {
                    vstd::arithmetic::power2::lemma_pow2_strictly_increases(i, 12);
                }
                assert(m * pow2(i) < LOW) by (nonlinear_arith)
                    requires
                        m < 0x100_0000_0000,
                        pow2(i) <= 0x1000,
                        pow2(i) > 0,
                        LOW == 0x100_0000_0000 * 0x1000,
                ;
            }
        }
        assert(t.exp == k as int - i as int - 53);
        let s = (53 + i - k) as nat;
        let (p, z, w) = (pow2(s), pow2(k), pow2((53 + i) as nat));
        lemma_pow2_adds(s, k);
        lemma_pow2_pos(s);
        lemma_pow2_pos(k);
        assert(w == p * z);
        vstd::arithmetic::power2::lemma2_to64();
        if s > 12 {
            vstd::arithmetic::power2::lemma_pow2_strictly_increases(12, s);
        }
        if i > 13 {
            vstd::arithmetic::power2::lemma_pow2_strictly_increases(13, i);
        }
        assert(z * 1000 <= w) by (nonlinear_arith)
            requires
                w == p * z,
                p >= 0x1000,
                z > 0,
        ;
        let r = rounded(t);
        integers_near_a_double(t);
        let (q, big, hm, tm) = (pow2(i), a.mant * h.mant, h.mant, t.mant);
        lemma_pow2_adds(i, 53);
        lemma_pow2_facts(53);
        assert(w == q * HIGH as nat);
        // The pieces of the distance.
        assert(2 * tm < (2 * r + 1) * p && (2 * r - 1) * p <= 2 * tm);
        lemma_close(m, q, hm, tm, r, p, z, w);
    } else {
        assert(0 * pow2(0) == 0);
    }
}

proof fn lemma_exponent(a: Bin, h: Bin)
    requires
        LOW <= a.mant < HIGH,
        LOW <= h.mant < HIGH,
    ensures
        52 <= times(a, h).exp - a.exp - h.exp <= 54,
{
}

proof fn lemma_close(m: nat, q: nat, hm: nat, tm: nat, r: nat, p: nat, z: nat, w: nat)
    requires
        q > 0,
        p > 0,
        z > 0,
        w == p * z,
        w == q * HIGH as nat,
        1000 * z <= w,
        m * q < HIGH,
        20 * hm <= 19 * HIGH + 10,
        19 * HIGH <= 20 * hm + 10,
        2 * apart(tm * z, (m * q) * hm) <= z,
        2 * tm < (2 * r + 1) * p,
        (2 * r - 1) * p <= 2 * tm,
        w >= 1000 * HIGH,
    ensures
        20 * r <= 19 * m + 10,
        19 * m <= 20 * r + 10,
{
    let y = (m * q) * hm;
    // r * w is within w / 2 of tm * z.
    assert(2 * (tm * z) <= 2 * (r * w) + w && 2 * (r * w) <= 2 * (tm * z) + w) by (nonlinear_arith)
        requires
            2 * tm < (2 * r + 1) * p,
            (2 * r - 1) * p <= 2 * tm,
            w == p * z,
            z > 0,
            p > 0,
    ;
    // 20 * y is within 10 * m * q of 19 * m * w.
    let mq = m * q;
    assert(20 * y <= 19 * (mq * HIGH as nat) + 10 * mq && 19 * (mq * HIGH as nat) <= 20 * y + 10
        * mq) by (nonlinear_arith)
        requires
            y == mq * hm,
            20 * hm <= 19 * HIGH + 10,
            19 * HIGH <= 20 * hm + 10,
    ;
    assert(mq * HIGH as nat == m * w) by (nonlinear_arith)
        requires
            mq == m * q,
            w == q * HIGH as nat,
    ;
    let (rw, mw) = (r * w, m * w);
    assert(20 * rw <= 19 * mw + 10 * w + 10 * z + 10 * mq);
    assert(19 * mw <= 20 * rw + 10 * w + 10 * z + 10 * mq);
    assert(10 * z + 10 * mq < w);
    assert(20 * r < 19 * m + 11 && 19 * m < 20 * r + 11) by (nonlinear_arith)
        requires
            20 * rw < 19 * mw + 11 * w,
            19 * mw < 20 * rw + 11 * w,
            rw == r * w,
            mw == m * w,
            w > 0,
    ;
}

/// The percentile of a list of durations is the one that stands there.
pub proof fn percentiles_are_durations(sorted: Seq<Rec>, part: nat, whole: nat)
    requires
        sorted.len() > 0,
        percentile_at(sorted.len(), part, whole) < sorted.len() <= u64::MAX,
    ensures
        percentile(sorted, part, whole) == sorted[percentile_at(
            sorted.len(),
            part,
            whole,
        ) as int].duration_ns,
{
}

} // verus!
