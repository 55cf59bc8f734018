//! Clamped kernel times never exceed the time that has passed.

use crate::attribution::{calls_of, session_of};
use crate::breakdown::root_of;
use crate::command_buffers::{
    cb_ns, cb_scan, cbs_of, clamped_op, clamped_ops, lemma_cb_scan, sampled_of, with_ops, CbView,
};
use crate::conservation::{gpu_time_is_never_counted_twice, ids_distinct};
use crate::double::{
    half_even, lemma_of_int, lemma_pow2_facts, lemma_ratio_at_most_one, lemma_scaled_int, of_int,
    over, packed, ratio, times, truncated, Bin, HIGH, LOW,
};
use crate::event::{lemma_prefix_step, op_views, ops_ns, Event, OpSample, OpView, Payload};
use crate::op_clamp::{
    clamp_fits, clamp_scan, event_rescaled, kernels_are_never_scaled_up, raw_ns, rescaled, scaled,
    scales_of, window_of,
};
use crate::select::{below, lemma_sum_push, sum};
use vstd::arithmetic::power2::{lemma_pow2_adds, pow2};
use vstd::prelude::*;

verus! {

/// `a` in units of two to the power of minus `k`.
spec fn counted(a: Bin, k: int) -> nat {
    a.mant * pow2((a.exp + k) as nat)
}

proof fn lemma_counted_packed(q: nat, e: int, k: int)
    requires
        e + k >= 0,
    ensures
        counted(packed(q, e), k) == q * pow2((e + k) as nat),
{
    lemma_pow2_facts((e + k) as nat);
    if q == HIGH {
        let p = pow2((e + k) as nat);
        assert((e + 1 + k) as nat == (e + k) as nat + 1);
        assert(LOW as nat * (2 * p) == HIGH as nat * p) by (nonlinear_arith)
            requires
                HIGH == 2 * LOW,
        ;
    }
}

/// Rounding changes a number by at most one half.
proof fn lemma_rounding_changes_little(num: nat, den: nat)
    requires
        den > 0,
    ensures
        2 * num - den <= 2 * (half_even(num, den) * den) <= 2 * num + den,
{
    vstd::arithmetic::div_mod::lemma_fundamental_div_mod(num as int, den as int);
    let q = num / den;
    let r = num % den;
    assert((q + 1) * den == den * q + den) by (nonlinear_arith);
    assert(q * den == den * q) by (nonlinear_arith);
}

/// A quotient is off by at most one part in [`HIGH`].
proof fn lemma_quotient_near(a: Bin, b: Bin, k: int)
    requires
        a.wf() && a.mant > 0,
        b.wf() && b.mant > 0,
        a.exp - b.exp - 53 + k >= 0,
    ensures
        a.mant * pow2((a.exp - b.exp + k) as nat) * (HIGH - 1) as nat <= counted(over(a, b), k)
            * b.mant * HIGH as nat,
        counted(over(a, b), k) * b.mant * HIGH as nat <= a.mant * pow2((a.exp - b.exp + k) as nat)
            * (HIGH + 1) as nat,
{
    lemma_pow2_facts(0);
    let (x, y) = (a.mant, b.mant);
    if x >= y {
        let e = a.exp - b.exp - 52;
        let q = half_even(x * LOW as nat, y);
        let p = pow2((e + k) as nat);
        lemma_rounding_changes_little(x * LOW as nat, y);
        lemma_counted_packed(q, e, k);
        lemma_pow2_adds((e + k) as nat, 52);
        assert(x * LOW as nat * (HIGH - 1) as nat <= (q * y) * HIGH as nat <= x * LOW as nat * (HIGH
            + 1) as nat) by (nonlinear_arith)
            requires
                2 * (x * LOW as nat) - y <= 2 * (q * y) <= 2 * (x * LOW as nat) + y,
                y <= x,
                HIGH == 2 * LOW,
        ;
        assert(x * (p * LOW as nat) * (HIGH - 1) as nat <= q * p * y * HIGH as nat <= x * (p
            * LOW as nat) * (HIGH + 1) as nat) by (nonlinear_arith)
            requires
                x * LOW as nat * (HIGH - 1) as nat <= (q * y) * HIGH as nat <= x * LOW as nat * (HIGH
                    + 1) as nat,
                p >= 0,
        ;
    } else {
        let e = a.exp - b.exp - 53;
        let q = half_even(x * HIGH as nat, y);
        let p = pow2((e + k) as nat);
        lemma_rounding_changes_little(x * HIGH as nat, y);
        lemma_counted_packed(q, e, k);
        lemma_pow2_adds((e + k) as nat, 53);
        assert(x * HIGH as nat * (HIGH - 1) as nat <= (q * y) * HIGH as nat <= x * HIGH as nat * (
        HIGH + 1) as nat) by (nonlinear_arith)
            requires
                2 * (x * HIGH as nat) - y <= 2 * (q * y) <= 2 * (x * HIGH as nat) + y,
                y < HIGH,
                LOW <= x,
                HIGH == 2 * LOW,
        ;
        assert(x * (p * HIGH as nat) * (HIGH - 1) as nat <= q * p * y * HIGH as nat <= x * (p
            * HIGH as nat) * (HIGH + 1) as nat) by (nonlinear_arith)
            requires
                x * HIGH as nat * (HIGH - 1) as nat <= (q * y) * HIGH as nat <= x * HIGH as nat * (
                HIGH + 1) as nat,
                p >= 0,
        ;
    }
}

/// A product is off by at most one part in [`HIGH`].
proof fn lemma_product_near(a: Bin, b: Bin, k: int)
    requires
        a.wf() && a.mant > 0,
        b.wf() && b.mant > 0,
        a.exp + b.exp + k >= 0,
    ensures
        a.mant * b.mant * pow2((a.exp + b.exp + k) as nat) * (HIGH - 1) as nat <= counted(
            times(a, b),
            k,
        ) * HIGH as nat,
        counted(times(a, b), k) * HIGH as nat <= a.mant * b.mant * pow2(
            (a.exp + b.exp + k) as nat,
        ) * (HIGH + 1) as nat,
{
    lemma_pow2_facts(0);
    let n = a.mant * b.mant;
    let p = pow2((a.exp + b.exp + k) as nat);
    assert(LOW * LOW <= n) by (nonlinear_arith)
        requires
            n == a.mant * b.mant,
            LOW <= a.mant,
            LOW <= b.mant,
    ;
    if n < LOW * HIGH {
        let q = half_even(n, LOW as nat);
        lemma_rounding_changes_little(n, LOW as nat);
        lemma_counted_packed(q, a.exp + b.exp + 52, k);
        lemma_pow2_adds((a.exp + b.exp + k) as nat, 52);
        assert(n * (HIGH - 1) as nat <= (q * LOW as nat) * HIGH as nat <= n * (HIGH + 1) as nat)
            by (nonlinear_arith)
            requires
                2 * n - LOW <= 2 * (q * LOW as nat) <= 2 * n + LOW,
                LOW * LOW <= n,
                HIGH == 2 * LOW,
        ;
        assert(n * p * (HIGH - 1) as nat <= q * (p * LOW as nat) * HIGH as nat <= n * p * (HIGH
            + 1) as nat) by (nonlinear_arith)
            requires
                n * (HIGH - 1) as nat <= (q * LOW as nat) * HIGH as nat <= n * (HIGH + 1) as nat,
                p >= 0,
        ;
    } else {
        let q = half_even(n, HIGH as nat);
        lemma_rounding_changes_little(n, HIGH as nat);
        lemma_counted_packed(q, a.exp + b.exp + 53, k);
        lemma_pow2_adds((a.exp + b.exp + k) as nat, 53);
        assert(n * (HIGH - 1) as nat <= (q * HIGH as nat) * HIGH as nat <= n * (HIGH + 1) as nat)
            by (nonlinear_arith)
            requires
                2 * n - HIGH <= 2 * (q * HIGH as nat) <= 2 * n + HIGH,
                LOW * HIGH <= n,
                HIGH == 2 * LOW,
        ;
        assert(n * p * (HIGH - 1) as nat <= q * (p * HIGH as nat) * HIGH as nat <= n * p * (HIGH
            + 1) as nat) by (nonlinear_arith)
            requires
                n * (HIGH - 1) as nat <= (q * HIGH as nat) * HIGH as nat <= n * (HIGH + 1) as nat,
                p >= 0,
        ;
    }
}

/// Dropping a fraction takes less than one away.
proof fn lemma_truncated_near(a: Bin, k: nat)
    requires
        a.exp + k >= 0,
    ensures
        truncated(a) * pow2(k) <= counted(a, k as int) <= (truncated(a) + 1) * pow2(k),
{
    lemma_pow2_facts(k);
    if a.exp >= 0 {
        lemma_pow2_adds(a.exp as nat, k);
        let t = truncated(a);
        assert((a.mant * pow2(a.exp as nat)) * pow2(k) == a.mant * (pow2(a.exp as nat) * pow2(k)))
            by (nonlinear_arith);
        assert(t * pow2(k) <= (t + 1) * pow2(k)) by (nonlinear_arith)
            requires
                pow2(k) > 0,
        ;
    } else {
        let d = pow2((-a.exp) as nat);
        let p = pow2((a.exp + k) as nat);
        lemma_pow2_facts((-a.exp) as nat);
        lemma_pow2_adds((-a.exp) as nat, (a.exp + k) as nat);
        let t = a.mant / d;
        vstd::arithmetic::div_mod::lemma_fundamental_div_mod(a.mant as int, d as int);
        assert(d * t <= a.mant <= d * (t + 1)) by (nonlinear_arith)
            requires
                a.mant == d * t + a.mant % d,
                0 <= a.mant % d < d,
        ;
        assert(t * (d * p) <= a.mant * p <= (t + 1) * (d * p)) by (nonlinear_arith)
            requires
                d * t <= a.mant <= d * (t + 1),
                p >= 0,
        ;
    }
}

/// The share of a window that a kernel gets is off by at most two parts in
/// [`HIGH`], and by the fraction that is dropped.
proof fn lemma_share(g: nat, w: nat, s: nat)
    requires
        g < HIGH,
        w < HIGH,
        0 < s < HIGH,
    ensures
        truncated(times(of_int(g), ratio(w, s))) * s * (HIGH as nat * HIGH as nat) <= g * w * ((HIGH
            + 1) as nat * (HIGH + 1) as nat),
        g * w * ((HIGH - 1) as nat * (HIGH - 1) as nat) <= (truncated(times(of_int(g), ratio(w, s)))
            + 1) * s * (HIGH as nat * HIGH as nat),
{
    lemma_of_int(g);
    lemma_of_int(w);
    lemma_of_int(s);
    lemma_pow2_facts(0);
    let (a, x, b) = (of_int(g), of_int(w), of_int(s));
    let t = truncated(times(a, ratio(w, s)));
    let (hh, jj) = (HIGH as nat * HIGH as nat, (HIGH + 1) as nat * (HIGH + 1) as nat);
    let ii = (HIGH - 1) as nat * (HIGH - 1) as nat;
    if g == 0 || w == 0 {
        assert(0 * pow2(0) == 0);
        assert(t * s * hh <= g * w * jj && g * w * ii <= (t + 1) * s * hh) by (nonlinear_arith)
            requires
                t == 0,
                g == 0 || w == 0,
                s > 0,
                hh >= 0,
                jj >= 0,
                ii >= 0,
        ;
    } else {
        lemma_exponent(g);
        lemma_exponent(w);
        lemma_exponent(s);
        let r = ratio(w, s);
        let (ka, kx, kb) = ((-a.exp) as nat, (-x.exp) as nat, (-b.exp) as nat);
        // Enough that no power below is negative.
        let k: int = 120;
        lemma_over_shape(x, b);
        lemma_quotient_near(x, b, k);
        lemma_product_near(a, r, k + ka);
        lemma_times_shape(a, r);
        lemma_truncated_near(times(a, r), (k + ka) as nat);
        let p = pow2((k + ka) as nat);
        let c = counted(times(a, r), k + ka);
        let v = counted(r, k);
        let z = pow2((x.exp - b.exp + k) as nat);
        assert(a.exp + r.exp + (k + ka) == r.exp + k);
        // In terms of the integers themselves.
        lemma_pow2_adds(kx, (x.exp - b.exp + k) as nat);
        lemma_pow2_adds(kb, k as nat);
        lemma_pow2_adds(ka, k as nat);
        let (pa, pb, pk) = (pow2(ka), pow2(kb), pow2(k as nat));
        lemma_pow2_facts(kb);
        lemma_pow2_facts(ka);
        lemma_pow2_facts(k as nat);
        assert(kx + (x.exp - b.exp + k) == kb + k);
        assert(x.mant * z == w * (pb * pk)) by (nonlinear_arith)
            requires
                x.mant == w * pow2(kx),
                pow2(kx) * z == pb * pk,
        ;
        let h = HIGH as nat;
        let j = (HIGH + 1) as nat;
        let i = (HIGH - 1) as nat;
        // v * (s * pb) * h <= w * pb * pk * j
        assert(v * s * h <= w * pk * j) by (nonlinear_arith)
            requires
                v * b.mant * h <= (x.mant * z) * j,
                x.mant * z == w * (pb * pk),
                b.mant == s * pb,
                pb > 0,
        ;
        // c * h <= g * pa * v * j
        assert(c * h <= g * pa * v * j) by (nonlinear_arith)
            requires
                c * h <= a.mant * r.mant * pow2((r.exp + k) as nat) * j,
                v == r.mant * pow2((r.exp + k) as nat),
                a.mant == g * pa,
        ;
        assert(t * s * hh <= g * w * jj) by {
            assert(t * (pa * pk) <= c);
            assert(t * (pa * pk) * h <= g * pa * v * j) by (nonlinear_arith)
                requires
                    t * (pa * pk) <= c,
                    c * h <= g * pa * v * j,
                    h > 0,
            ;
            assert(t * pk * h <= g * v * j) by (nonlinear_arith)
                requires
                    t * (pa * pk) * h <= g * pa * v * j,
                    pa > 0,
            ;
            assert((t * pk * h) * (s * h) <= (g * v * j) * (s * h)) by (nonlinear_arith)
                requires
                    t * pk * h <= g * v * j,
                    s * h >= 0,
            ;
            assert((g * v * j) * (s * h) == (g * j) * (v * s * h)) by (nonlinear_arith);
            assert((g * j) * (v * s * h) <= (g * j) * (w * pk * j)) by (nonlinear_arith)
                requires
                    v * s * h <= w * pk * j,
                    g * j >= 0,
            ;
            assert((t * s * (h * h)) * pk == (t * pk * h) * (s * h)) by (nonlinear_arith);
            assert((g * w * (j * j)) * pk == (g * j) * (w * pk * j)) by (nonlinear_arith);
            assert(t * s * (h * h) <= g * w * (j * j)) by (nonlinear_arith)
                requires
                    (t * s * (h * h)) * pk <= (g * w * (j * j)) * pk,
                    pk > 0,
            ;
        }
        assert(w * pk * i <= v * s * h) by (nonlinear_arith)
            requires
                (x.mant * z) * i <= v * b.mant * h,
                x.mant * z == w * (pb * pk),
                b.mant == s * pb,
                pb > 0,
        ;
        assert(g * pa * v * i <= c * h) by (nonlinear_arith)
            requires
                a.mant * r.mant * pow2((r.exp + k) as nat) * i <= c * h,
                v == r.mant * pow2((r.exp + k) as nat),
                a.mant == g * pa,
        ;
        assert(g * w * ii <= (t + 1) * s * hh) by {
            let u = t + 1;
            assert(c <= u * (pa * pk));
            assert(g * pa * v * i <= u * (pa * pk) * h) by (nonlinear_arith)
                requires
                    c <= u * (pa * pk),
                    g * pa * v * i <= c * h,
                    h > 0,
            ;
            assert(g * v * i <= u * pk * h) by (nonlinear_arith)
                requires
                    g * pa * v * i <= u * (pa * pk) * h,
                    pa > 0,
            ;
            assert((g * v * i) * (s * h) <= (u * pk * h) * (s * h)) by (nonlinear_arith)
                requires
                    g * v * i <= u * pk * h,
                    s * h >= 0,
            ;
            assert((g * v * i) * (s * h) == (g * i) * (v * s * h)) by (nonlinear_arith);
            assert((g * i) * (w * pk * i) <= (g * i) * (v * s * h)) by (nonlinear_arith)
                requires
                    w * pk * i <= v * s * h,
                    g * i >= 0,
            ;
            assert((u * s * (h * h)) * pk == (u * pk * h) * (s * h)) by (nonlinear_arith);
            assert((g * w * (i * i)) * pk == (g * i) * (w * pk * i)) by (nonlinear_arith);
            assert(g * w * (i * i) <= u * s * (h * h)) by (nonlinear_arith)
                requires
                    (g * w * (i * i)) * pk <= (u * s * (h * h)) * pk,
                    pk > 0,
            ;
        }
    }
}

/// The exponent of a small integer.
proof fn lemma_exponent(n: nat)
    requires
        0 < n < HIGH,
    ensures
        -52 <= of_int(n).exp <= 0,
{
    lemma_of_int(n);
    lemma_pow2_facts(0);
    let k = (-of_int(n).exp) as nat;
    if k > 52 {
        vstd::arithmetic::power2::lemma_pow2_strictly_increases(52, k);
        lemma_pow2_facts((k - 1) as nat);
        assert(pow2(k) >= HIGH) by {
            if k > 53 {
                vstd::arithmetic::power2::lemma_pow2_strictly_increases(53, k);
            }
        }
        assert(n * pow2(k) >= HIGH) by (nonlinear_arith)
            requires
                n >= 1,
                pow2(k) >= HIGH,
        ;
    }
}

proof fn lemma_over_shape(a: Bin, b: Bin)
    requires
        a.wf() && a.mant > 0,
        b.wf() && b.mant > 0,
    ensures
        over(a, b).wf(),
        over(a, b).mant > 0,
        a.exp - b.exp - 53 <= over(a, b).exp <= a.exp - b.exp - 51,
{
    let (x, y) = (a.mant, b.mant);
    if x >= y {
        assert(LOW as nat * y <= x * LOW as nat <= HIGH as nat * y) by (nonlinear_arith)
            requires
                y <= x < HIGH,
                y >= LOW,
                HIGH == 2 * LOW,
        ;
        crate::double::lemma_half_even_bounds(x * LOW as nat, y, LOW as nat, HIGH as nat);
    } else {
        assert(LOW as nat * y <= x * HIGH as nat <= HIGH as nat * y) by (nonlinear_arith)
            requires
                LOW <= x < y < HIGH,
                HIGH == 2 * LOW,
        ;
        crate::double::lemma_half_even_bounds(x * HIGH as nat, y, LOW as nat, HIGH as nat);
    }
}

proof fn lemma_times_shape(a: Bin, b: Bin)
    requires
        a.wf() && a.mant > 0,
        b.wf() && b.mant > 0,
    ensures
        times(a, b).exp >= a.exp + b.exp + 52,
{
}

/// What the kernels of a command buffer are clamped to, in proportion.
proof fn lemma_shares(ops: Seq<OpSample>, scales: Map<u64, Bin>, seq: u64, w: nat, s: nat)
    requires
        scales.contains_key(seq),
        scales[seq] == ratio(w, s),
        ops_ns(op_views(ops)) < HIGH,
        w <= s,
        0 < s < HIGH,
    ensures
        ops_ns(clamped_ops(ops, scales, seq)) * s * (HIGH as nat * HIGH as nat) <= ops_ns(
            op_views(ops),
        ) * w * ((HIGH + 1) as nat * (HIGH + 1) as nat),
        ops_ns(op_views(ops)) * w * ((HIGH - 1) as nat * (HIGH - 1) as nat) <= (ops_ns(
            clamped_ops(ops, scales, seq),
        ) + ops.len()) * s * (HIGH as nat * HIGH as nat),
    decreases ops.len(),
{
    let (hh, jj) = (HIGH as nat * HIGH as nat, (HIGH + 1) as nat * (HIGH + 1) as nat);
    let ii = (HIGH - 1) as nat * (HIGH - 1) as nat;
    if ops.len() == 0 {
        assert(0 * s * hh == 0) by (nonlinear_arith);
        assert(0 * w * jj == 0) by (nonlinear_arith);
        assert(0 * w * ii == 0) by (nonlinear_arith);
    } else {
        let rest = ops.drop_last();
        let g = ops.last().gpu_ns as nat;
        let clamped = clamped_ops(ops, scales, seq);
        assert(clamped.drop_last() =~= clamped_ops(rest, scales, seq));
        assert(op_views(ops).drop_last() =~= op_views(rest));
        assert(clamped.last() == clamped_op(ops.last(), scales, seq));
        lemma_shares(rest, scales, seq, w, s);
        lemma_share(g, w, s);
        lemma_ratio_at_most_one(w, s);
        lemma_scaled_int(g, ratio(w, s));
        let t = truncated(times(of_int(g), ratio(w, s)));
        let u = scaled(scales, seq, ops.last().gpu_ns) as nat;
        let (x, y) = (ops_ns(clamped_ops(rest, scales, seq)), ops_ns(op_views(rest)));
        assert((x + u) * s * hh <= (y + g) * w * jj) by (nonlinear_arith)
            requires
                x * s * hh <= y * w * jj,
                t * s * hh <= g * w * jj,
                u <= t,
                s * hh >= 0,
        ;
        let n = rest.len();
        assert((y + g) * w * ii <= (x + u + (n + 1)) * s * hh) by (nonlinear_arith)
            requires
                y * w * ii <= (x + n) * s * hh,
                g * w * ii <= (t + 1) * s * hh,
                u == t,
        ;
    }
}

/// The clamped GPU time of the kernels that an event holds.
pub open spec fn clamped_ns(events: Seq<Event>, k: int) -> nat {
    match events[k].payload {
        Payload::MetalCbOps { ops, .. } => ops_ns(
            clamped_ops(ops@, scales_of(events), events[k].seq),
        ),
        _ => 0,
    }
}

/// How many kernels an event holds.
pub open spec fn kernel_count(e: Event) -> nat {
    match e.payload {
        Payload::MetalCbOps { ops, .. } => ops@.len(),
        _ => 0,
    }
}

/// No two events share a number.
pub open spec fn numbered_apart(events: Seq<Event>) -> bool {
    forall|i: int, j: int|
        0 <= i < j < events.len() ==> (#[trigger] events[i]).seq != (#[trigger] events[j]).seq
}

/// The factor of an event is decided when its kernels arrive.
proof fn lemma_factor(events: Seq<Event>, k: int, n: int)
    requires
        0 <= k < n <= events.len(),
        numbered_apart(events),
        window_of(events, k) is Some,
    ensures
        ({
            let scales = clamp_scan(events.take(n)).scales;
            let w = window_of(events, k)->0;
            if raw_ns(events[k]) > w {
                scales.contains_key(events[k].seq) && scales[events[k].seq] == ratio(
                    w as nat,
                    raw_ns(events[k]),
                )
            } else {
                !scales.contains_key(events[k].seq)
            }
        }),
    decreases n,
{
    lemma_prefix_step(events, n - 1);
    if n == k + 1 {
        lemma_no_factor(events, k, k);
    } else {
        lemma_factor(events, k, n - 1);
        assert(events[n - 1].seq != events[k].seq);
    }
}

proof fn lemma_no_factor(events: Seq<Event>, k: int, n: int)
    requires
        0 <= n <= k < events.len(),
        numbered_apart(events),
    ensures
        !clamp_scan(events.take(n)).scales.contains_key(events[k].seq),
    decreases n,
{
    if n > 0 {
        lemma_prefix_step(events, n - 1);
        lemma_no_factor(events, k, n - 1);
        assert(events[n - 1].seq != events[k].seq);
    }
}

/// The kernels of a command buffer take no longer than its window, once clamped.
/// (Up to 53 bits, that is: longer times are rounded to doubles first.)
pub proof fn clamped_kernels_fit_their_window(events: Seq<Event>, k: int)
    requires
        0 <= k < events.len(),
        numbered_apart(events),
        window_of(events, k) is Some,
        window_of(events, k)->0 < LOW,
        raw_ns(events[k]) < HIGH,
    ensures
        clamped_ns(events, k) <= window_of(events, k)->0,
{
    let w = window_of(events, k)->0 as nat;
    let s = raw_ns(events[k]);
    let scales = scales_of(events);
    let seq = events[k].seq;
    lemma_factor(events, k, events.len() as int);
    assert(events.take(events.len() as int) =~= events);
    match events[k].payload {
        Payload::MetalCbOps { ops, .. } => {
            let t = clamped_ns(events, k);
            if s > w {
                lemma_shares(ops@, scales, seq, w, s);
                let (hh, jj) = (HIGH as nat * HIGH as nat, (HIGH + 1) as nat * (HIGH + 1) as nat);
                assert(t * hh <= w * jj) by (nonlinear_arith)
                    requires
                        t * s * hh <= s * w * jj,
                        s > 0,
                ;
                assert(t <= w) by (nonlinear_arith)
                    requires
                        t * hh <= w * jj,
                        hh == HIGH as nat * HIGH as nat,
                        jj == (HIGH + 1) as nat * (HIGH + 1) as nat,
                        w < LOW,
                        HIGH == 2 * LOW,
                ;
            } else {
                assert(clamped_ops(ops@, scales, seq) =~= op_views(ops@));
            }
        },
        _ => {},
    }
}

/// Clamped kernels fill their window: they fall short of it by less than one
/// nanosecond each, for fractions are dropped. (Up to 53 bits, as above.)
pub proof fn clamped_kernels_fill_their_window(events: Seq<Event>, k: int)
    requires
        0 <= k < events.len(),
        numbered_apart(events),
        window_of(events, k) is Some,
        window_of(events, k)->0 < LOW,
        window_of(events, k)->0 < raw_ns(events[k]) < HIGH,
    ensures
        window_of(events, k)->0 <= clamped_ns(events, k) + kernel_count(events[k]),
{
    let w = window_of(events, k)->0 as nat;
    let s = raw_ns(events[k]);
    let scales = scales_of(events);
    lemma_factor(events, k, events.len() as int);
    assert(events.take(events.len() as int) =~= events);
    match events[k].payload {
        Payload::MetalCbOps { ops, .. } => {
            lemma_shares(ops@, scales, events[k].seq, w, s);
            let t = clamped_ns(events, k) + ops@.len();
            let (hh, ii) = (HIGH as nat * HIGH as nat, (HIGH - 1) as nat * (HIGH - 1) as nat);
            assert(w * ii <= t * hh) by (nonlinear_arith)
                requires
                    s * w * ii <= t * s * hh,
                    s > 0,
            ;
            assert(w <= t) by (nonlinear_arith)
                requires
                    w * ii <= t * hh,
                    hh == HIGH as nat * HIGH as nat,
                    ii == (HIGH - 1) as nat * (HIGH - 1) as nat,
                    w < LOW,
                    HIGH == 2 * LOW,
                    LOW > 1,
            ;
        },
        _ => {},
    }
}

/// `after` is `before` with every kernel time clamped.
pub open spec fn clamped_events(before: Seq<Event>, after: Seq<Event>) -> bool {
    &&& after.len() == before.len()
    &&& forall|k: int|
        0 <= k < before.len() ==> event_rescaled(
            before[k],
            #[trigger] after[k],
            scales_of(before),
        )
}

/// Clamping keeps everything that windows are made of.
proof fn lemma_windows_kept(before: Seq<Event>, after: Seq<Event>, n: int)
    requires
        clamped_events(before, after),
        0 <= n <= before.len(),
    ensures
        clamp_scan(after.take(n)).scheduled == clamp_scan(before.take(n)).scheduled,
        clamp_scan(after.take(n)).queue_done == clamp_scan(before.take(n)).queue_done,
        clamp_scan(after.take(n)).window == clamp_scan(before.take(n)).window,
    decreases n,
{
    if n == 0 {
        assert(after.take(0) =~= before.take(0));
    } else {
        lemma_windows_kept(before, after, n - 1);
        lemma_prefix_step(before, n - 1);
        lemma_prefix_step(after, n - 1);
        assert(event_rescaled(before[n - 1], after[n - 1], scales_of(before)));
    }
}

/// The kernels of a clamped event take their clamped time.
proof fn lemma_clamped_is_raw(before: Seq<Event>, after: Seq<Event>, k: int)
    requires
        clamped_events(before, after),
        0 <= k < before.len(),
    ensures
        raw_ns(after[k]) == clamped_ns(before, k),
{
    assert(event_rescaled(before[k], after[k], scales_of(before)));
    match (before[k].payload, after[k].payload) {
        (
            Payload::MetalCbOps { ops, .. },
            Payload::MetalCbOps { ops: new, .. },
        ) => {
            let c = clamped_ops(ops@, scales_of(before), before[k].seq);
            assert forall|j: int| 0 <= j < c.len() implies op_views(new@)[j] == #[trigger] c[j] by {
                assert(rescaled(ops@[j], new@[j], scales_of(before), before[k].seq));
            }
            assert(op_views(new@) =~= c);
        },
        _ => {},
    }
}

/// An event without a window has no factor.
proof fn lemma_no_window_no_factor(events: Seq<Event>, k: int, n: int)
    requires
        0 <= k < events.len(),
        0 <= n <= events.len(),
        numbered_apart(events),
        window_of(events, k) is None,
    ensures
        !clamp_scan(events.take(n)).scales.contains_key(events[k].seq),
    decreases n,
{
    if n > 0 {
        lemma_prefix_step(events, n - 1);
        lemma_no_window_no_factor(events, k, n - 1);
        if n - 1 < k {
            assert(events[n - 1].seq != events[k].seq);
        } else if n - 1 > k {
            assert(events[k].seq != events[n - 1].seq);
        }
    }
}

proof fn lemma_nothing_left(before: Seq<Event>, after: Seq<Event>, n: int)
    requires
        clamped_events(before, after),
        numbered_apart(before),
        forall|k: int| 0 <= k < before.len() ==> raw_ns(#[trigger] before[k]) < HIGH,
        forall|k: int|
            0 <= k < before.len() ==> (#[trigger] window_of(before, k) matches Some(w) ==> w < LOW),
        0 <= n <= before.len(),
    ensures
        clamp_scan(after.take(n)).scales == Map::<u64, Bin>::empty(),
    decreases n,
{
    if n == 0 {
        assert(after.take(0) =~= Seq::<Event>::empty());
    } else {
        let k = n - 1;
        lemma_nothing_left(before, after, k);
        lemma_windows_kept(before, after, k);
        lemma_prefix_step(after, k);
        lemma_clamped_is_raw(before, after, k);
        assert(event_rescaled(before[k], after[k], scales_of(before)));
        if window_of(before, k) is Some {
            clamped_kernels_fit_their_window(before, k);
        }
    }
}

/// Clamping settles a session: a second pass finds nothing to clamp. (Windows of
/// up to 52 bits and command buffers of up to 53 bits of nanoseconds, that is:
/// longer times are rounded to doubles first.)
pub proof fn clamping_leaves_nothing_to_clamp(before: Seq<Event>, after: Seq<Event>)
    requires
        clamped_events(before, after),
        numbered_apart(before),
        forall|k: int| 0 <= k < before.len() ==> raw_ns(#[trigger] before[k]) < HIGH,
        forall|k: int|
            0 <= k < before.len() ==> (#[trigger] window_of(before, k) matches Some(w) ==> w < LOW),
    ensures
        clamp_fits(after),
        scales_of(after) == Map::<u64, Bin>::empty(),
        scales_of(after).len() == 0,
{
    lemma_nothing_left(before, after, before.len() as int);
    assert forall|k: int|
        0 <= k < after.len() && #[trigger] window_of(after, k) is Some implies raw_ns(after[k])
        <= u64::MAX by {
        lemma_windows_kept(before, after, k);
        lemma_clamped_is_raw(before, after, k);
        assert(event_rescaled(before[k], after[k], scales_of(before)));
        assert(window_of(before, k) is Some);
        clamped_kernels_fit_their_window(before, k);
    }
    assert(after.take(after.len() as int) =~= after);
}

/// Clamping changes no more than it must: no kernel takes longer than it did, and
/// the kernels of an event that is within its window, or has none, keep their
/// times.
pub proof fn clamping_only_shortens(before: Seq<Event>, after: Seq<Event>, k: int)
    requires
        clamped_events(before, after),
        numbered_apart(before),
        0 <= k < before.len(),
        raw_ns(before[k]) < HIGH,
    ensures
        match (before[k].payload, after[k].payload) {
            (
                Payload::MetalCbOps { ops, .. },
                Payload::MetalCbOps { ops: new, .. },
            ) => {
                &&& new@.len() == ops@.len()
                &&& forall|j: int|
                    0 <= j < ops@.len() ==> (#[trigger] new@[j]).gpu_ns <= ops@[j].gpu_ns
                &&& (window_of(before, k) matches Some(w) ==> raw_ns(before[k]) <= w) ==> forall|
                    j: int,
                |
                    0 <= j < ops@.len() ==> (#[trigger] new@[j]).gpu_ns == ops@[j].gpu_ns
            },
            _ => after[k] == before[k],
        },
{
    let scales = scales_of(before);
    assert(event_rescaled(before[k], after[k], scales));
    assert(before.take(before.len() as int) =~= before);
    if window_of(before, k) is Some {
        lemma_factor(before, k, before.len() as int);
    } else {
        lemma_no_window_no_factor(before, k, before.len() as int);
    }
    match (before[k].payload, after[k].payload) {
        (
            Payload::MetalCbOps { ops, .. },
            Payload::MetalCbOps { ops: new, .. },
        ) => {
            assert forall|j: int| 0 <= j < ops@.len() implies (#[trigger] new@[j]).gpu_ns
                <= ops@[j].gpu_ns by {
                assert(rescaled(ops@[j], new@[j], scales, before[k].seq));
                assert(op_views(ops@)[j] == ops@[j]@);
                lemma_one_op(op_views(ops@), j);
                kernels_are_never_scaled_up(before, before[k].seq, ops@[j].gpu_ns);
            }
            if window_of(before, k) matches Some(w) ==> raw_ns(before[k]) <= w {
                assert forall|j: int| 0 <= j < ops@.len() implies (#[trigger] new@[j]).gpu_ns
                    == ops@[j].gpu_ns by {
                    assert(rescaled(ops@[j], new@[j], scales, before[k].seq));
                }
            }
        },
        _ => {},
    }
}

proof fn lemma_one_op(ops: Seq<OpView>, j: int)
    requires
        0 <= j < ops.len(),
    ensures
        ops[j].gpu_ns <= ops_ns(ops),
    decreases ops.len(),
{
    if j < ops.len() - 1 {
        lemma_one_op(ops.drop_last(), j);
    }
}

/// All values of a map together.
spec fn held(m: Map<u64, u64>) -> nat
    decreases m.dom().len(),
    when m.dom().finite()
{
    if m.dom().len() == 0 {
        0
    } else {
        let k = m.dom().choose();
        m[k] as nat + held(m.remove(k))
    }
}

proof fn lemma_held_remove(m: Map<u64, u64>, k: u64)
    requires
        m.dom().finite(),
        m.contains_key(k),
    ensures
        held(m) == m[k] as nat + held(m.remove(k)),
    decreases m.dom().len(),
{
    let c = m.dom().choose();
    assert(m.dom().contains(k));
    assert(m.dom().len() > 0);
    if c != k {
        let (a, b) = (m.remove(c), m.remove(k));
        assert(a.dom() =~= m.dom().remove(c));
        assert(b.dom() =~= m.dom().remove(k));
        lemma_held_remove(a, k);
        lemma_held_remove(b, c);
        assert(a.remove(k) =~= b.remove(c));
    }
}

proof fn lemma_held_insert(m: Map<u64, u64>, k: u64, v: u64)
    requires
        m.dom().finite(),
    ensures
        held(m.insert(k, v)) <= held(m) + v,
        m.contains_key(k) ==> held(m.remove(k)) == held(m) - m[k],
        !m.contains_key(k) ==> m.remove(k) == m,
{
    let n = m.insert(k, v);
    assert(n.dom() =~= m.dom().insert(k));
    lemma_held_remove(n, k);
    assert(n.remove(k) =~= m.remove(k));
    if m.contains_key(k) {
        lemma_held_remove(m, k);
    } else {
        assert(m.remove(k) =~= m);
    }
}

/// The windows of the kernels that the first `n` events hold.
spec fn windows_ns(events: Seq<Event>, n: int) -> nat
    decreases n,
{
    if n <= 0 {
        0
    } else {
        windows_ns(events, n - 1) + match window_of(events, n - 1) {
            Some(w) => w as nat,
            None => 0,
        }
    }
}

/// Events come in the order of time.
pub open spec fn in_time_order(events: Seq<Event>) -> bool {
    forall|i: int, j: int|
        0 <= i <= j < events.len() ==> (#[trigger] events[i]).ts_mono_ns <= (
        #[trigger] events[j]).ts_mono_ns
}

/// All command buffers complete on the queue `q`.
pub open spec fn on_one_queue(events: Seq<Event>, q: u64) -> bool {
    forall|i: int|
        0 <= i < events.len() ==> match (#[trigger] events[i]).payload {
            Payload::MetalCbCompleted { queue_id, .. } => queue_id == q,
            _ => true,
        }
}

/// Windows on one queue do not overlap.
proof fn lemma_windows_fit(events: Seq<Event>, q: u64, n: int)
    requires
        0 < n <= events.len(),
        in_time_order(events),
        on_one_queue(events, q),
    ensures
        ({
            let s = clamp_scan(events.take(n));
            let start = events[0].ts_mono_ns;
            &&& s.window.dom().finite()
            &&& forall|id: u64| #[trigger]
                s.scheduled.contains_key(id) ==> start <= s.scheduled[id] <= events[n
                    - 1].ts_mono_ns
            &&& if s.queue_done.contains_key(q) {
                &&& start <= s.queue_done[q] <= events[n - 1].ts_mono_ns
                &&& windows_ns(events, n) + held(s.window) <= s.queue_done[q] - start
            } else {
                &&& s.window == Map::<u64, u64>::empty()
                &&& windows_ns(events, n) == 0
            }
        }),
    decreases n,
{
    let start = events[0].ts_mono_ns;
    let e = events[n - 1];
    lemma_prefix_step(events, n - 1);
    let before = clamp_scan(events.take(n - 1));
    let now = clamp_scan(events.take(n));
    if n > 1 {
        lemma_windows_fit(events, q, n - 1);
        assert(events[n - 2].ts_mono_ns <= e.ts_mono_ns);
    } else {
        assert(events.take(0) =~= Seq::<Event>::empty());
        assert(before.window == Map::<u64, u64>::empty());
        reveal_with_fuel(windows_ns, 2);
    }
    assert(events[0].ts_mono_ns <= e.ts_mono_ns);
    assert(held(Map::<u64, u64>::empty()) == 0);
    match e.payload {
        Payload::MetalCbCompleted { cb_id, queue_id, .. } => {
            assert(queue_id == q);
            let w = if now.window.contains_key(cb_id) {
                now.window[cb_id]
            } else {
                0
            };
            lemma_held_insert(before.window, cb_id, w);
        },
        Payload::MetalCbOps { cb_id, .. } => {
            lemma_held_insert(before.window, cb_id, 0);
        },
        _ => {},
    }
}

/// The clamped time of the kernels of the first `n` events whose windows are
/// known.
pub open spec fn attributed_ns(events: Seq<Event>, n: int) -> nat
    decreases n,
{
    if n <= 0 {
        0
    } else {
        attributed_ns(events, n - 1) + if window_of(events, n - 1) is Some {
            clamped_ns(events, n - 1)
        } else {
            0
        }
    }
}

proof fn lemma_attributed_in_windows(events: Seq<Event>, n: int)
    requires
        0 <= n <= events.len(),
        numbered_apart(events),
        forall|k: int| 0 <= k < events.len() ==> raw_ns(#[trigger] events[k]) < HIGH,
        forall|k: int|
            0 <= k < n ==> (#[trigger] window_of(events, k) matches Some(w) ==> w < LOW),
    ensures
        attributed_ns(events, n) <= windows_ns(events, n),
    decreases n,
{
    if n > 0 {
        lemma_attributed_in_windows(events, n - 1);
        if window_of(events, n - 1) is Some {
            clamped_kernels_fit_their_window(events, n - 1);
        }
    }
}

proof fn lemma_window_in_sum(events: Seq<Event>, k: int, n: int)
    requires
        0 <= k < n,
    ensures
        window_of(events, k) matches Some(w) ==> w <= windows_ns(events, n),
    decreases n,
{
    if k < n - 1 {
        lemma_window_in_sum(events, k, n - 1);
    }
}

/// Attributed GPU time stays within the wall clock: on one queue, the kernels
/// whose windows are known take together no longer than the session did, once
/// clamped. (Sessions of up to 52 bits of nanoseconds, that is: longer times are
/// rounded to doubles first.)
pub proof fn attributed_time_is_within_the_wall_clock(events: Seq<Event>, q: u64)
    requires
        events.len() > 0,
        numbered_apart(events),
        in_time_order(events),
        on_one_queue(events, q),
        forall|k: int| 0 <= k < events.len() ==> raw_ns(#[trigger] events[k]) < HIGH,
        events.last().ts_mono_ns - events[0].ts_mono_ns < LOW,
    ensures
        attributed_ns(events, events.len() as int) <= events.last().ts_mono_ns
            - events[0].ts_mono_ns,
{
    let n = events.len() as int;
    lemma_windows_fit(events, q, n);
    assert forall|k: int| 0 <= k < n implies (#[trigger] window_of(events, k) matches Some(w)
        ==> w < LOW) by {
        lemma_window_in_sum(events, k, n);
    }
    lemma_attributed_in_windows(events, n);
}

/// The kernel time of a list of command buffers.
spec fn kernel_ns(s: Seq<CbView>) -> nat
    decreases s.len(),
{
    if s.len() == 0 {
        0
    } else {
        kernel_ns(s.drop_last()) + cb_ns(s.last(), true)
    }
}

proof fn lemma_kernel_update(s: Seq<CbView>, i: int, c: CbView)
    requires
        0 <= i < s.len(),
    ensures
        kernel_ns(s.update(i, c)) == kernel_ns(s) - cb_ns(s[i], true) + cb_ns(c, true),
    decreases s.len(),
{
    let t = s.update(i, c);
    if i == s.len() - 1 {
        assert(t.drop_last() =~= s.drop_last());
    } else {
        lemma_kernel_update(s.drop_last(), i, c);
        assert(t.drop_last() =~= s.drop_last().update(i, c));
        assert(t.last() == s.last());
    }
}

/// The windows of all kernels are known.
pub open spec fn windows_known(events: Seq<Event>) -> bool {
    forall|k: int|
        0 <= k < events.len() && (#[trigger] events[k]).payload is MetalCbOps ==> window_of(
            events,
            k,
        ) is Some
}

/// Command buffers hold no kernels but those of the events.
proof fn lemma_kernels_from_events(events: Seq<Event>, n: int)
    requires
        0 <= n <= events.len(),
        windows_known(events),
    ensures
        kernel_ns(cb_scan(events.take(n), scales_of(events)).completed) <= attributed_ns(events, n),
    decreases n,
{
    let scales = scales_of(events);
    if n == 0 {
        assert(events.take(0) =~= Seq::<Event>::empty());
    } else {
        lemma_kernels_from_events(events, n - 1);
        lemma_prefix_step(events, n - 1);
        lemma_cb_scan(events.take(n - 1), scales);
        let e = events[n - 1];
        let before = cb_scan(events.take(n - 1), scales);
        let now = cb_scan(events.take(n), scales);
        match e.payload {
            Payload::MetalCbCompleted { cb_id, .. } => {
                if before.committed.contains_key(cb_id) {
                    assert(now.completed.drop_last() =~= before.completed);
                }
            },
            Payload::MetalCbOps { cb_id, ops } => {
                assert(window_of(events, n - 1) is Some);
                if before.latest.contains_key(cb_id) {
                    let k = before.latest[cb_id];
                    lemma_kernel_update(
                        before.completed,
                        k,
                        with_ops(before.completed[k], clamped_ops(ops@, scales, e.seq)),
                    );
                }
            },
            _ => {},
        }
    }
}

proof fn lemma_total_is_kernel_time(events: Seq<Event>, n: int)
    requires
        0 <= n <= cbs_of(events).len(),
        sampled_of(events),
    ensures
        sum(below(n), session_of(events).cb_time()) == kernel_ns(cbs_of(events).take(n)),
    decreases n,
{
    if n > 0 {
        let f = session_of(events).cb_time();
        lemma_total_is_kernel_time(events, n - 1);
        assert(below(n) =~= below(n - 1).push(n - 1));
        lemma_sum_push(below(n - 1), n - 1, f);
        assert(cbs_of(events).take(n).drop_last() =~= cbs_of(events).take(n - 1));
    }
}

/// A breakdown shows no more GPU time than has passed on the wall clock: where
/// kernels were sampled and their windows are known, on one queue, with every
/// module call under an id of its own.
pub proof fn breakdown_is_within_the_wall_clock(events: Seq<Event>, q: u64)
    requires
        events.len() > 0,
        numbered_apart(events),
        in_time_order(events),
        on_one_queue(events, q),
        windows_known(events),
        sampled_of(events),
        ids_distinct(calls_of(events)),
        forall|k: int| 0 <= k < events.len() ==> raw_ns(#[trigger] events[k]) < HIGH,
        events.last().ts_mono_ns - events[0].ts_mono_ns < LOW,
    ensures
        root_of(events).gpu_ns_subtree <= events.last().ts_mono_ns - events[0].ts_mono_ns,
{
    let n = events.len() as int;
    let cbs = cbs_of(events);
    attributed_time_is_within_the_wall_clock(events, q);
    gpu_time_is_never_counted_twice(events);
    lemma_total_is_kernel_time(events, cbs.len() as int);
    assert(cbs.take(cbs.len() as int) =~= cbs);
    lemma_kernels_from_events(events, n);
    assert(events.take(n) =~= events);
}

} // verus!
