//! Binary floating-point numbers on integers.
//!
//! Ratios, percentages and scale factors are rounded the way the IEEE 754
//! double format rounds them: to the nearest number of 53 significant bits,
//! ties to the even one. The numbers here are never negative, never infinite
//! and stay far from the ends of the format's range.

use crate::text::{dec, push_numeral, push_repeated, zero_filled};
use vstd::arithmetic::power2::pow2;
use vstd::prelude::*;

verus! {

/// The least significand, two to the power of fifty-two.
pub const LOW: u64 = 0x10_0000_0000_0000;

/// The first value too large for a significand.
pub const HIGH: u64 = 0x20_0000_0000_0000;

/// The number `mant * 2^exp`.
#[derive(Clone, Copy, Debug, PartialEq, Eq, Structural)]
pub struct Double {
    pub mant: u64,
    pub exp: i32,
}

/// The number `mant * 2^exp` in contracts.
pub ghost struct Bin {
    pub mant: nat,
    pub exp: int,
}

impl View for Double {
    type V = Bin;

    open spec fn view(&self) -> Bin {
        Bin { mant: self.mant as nat, exp: self.exp as int }
    }
}

impl Bin {
    /// Zero, or a number with exactly 53 significant bits.
    pub open spec fn wf(self) -> bool {
        (self.mant == 0 && self.exp == 0) || LOW <= self.mant < HIGH
    }

    /// [`Bin::wf`], within the range that the operations here stay in.
    pub open spec fn wide(self) -> bool {
        self.wf() && -121 <= self.exp <= 120
    }

    /// [`Bin::wide`], and not too large to be written out.
    pub open spec fn moderate(self) -> bool {
        self.wf() && -121 <= self.exp <= 64
    }
}

/// `num / den`, rounded to the nearest integer, ties to the even one.
pub open spec fn half_even(num: nat, den: nat) -> nat {
    let q = num / den;
    let r = num % den;
    if 2 * r > den || (2 * r == den && q % 2 == 1) {
        q + 1
    } else {
        q
    }
}

/// `q * 2^exp`, where `q` may have just outgrown a significand.
pub open spec fn packed(q: nat, exp: int) -> Bin {
    if q == HIGH {
        Bin { mant: LOW as nat, exp: exp + 1 }
    } else {
        Bin { mant: q, exp }
    }
}

/// How many low bits `n` has beyond 53.
pub open spec fn excess(n: nat) -> nat
    decreases n,
{
    if n < HIGH {
        0
    } else {
        1 + excess(n / 2)
    }
}

/// The double nearest to the integer `n`.
pub open spec fn of_int(n: nat) -> Bin
    decreases
            (if n < LOW {
                LOW - n
            } else {
                0
            }),
{
    if n == 0 {
        Bin { mant: 0, exp: 0 }
    } else if n < LOW {
        Bin { mant: of_int(2 * n).mant, exp: of_int(2 * n).exp - 1 }
    } else {
        packed(half_even(n, pow2(excess(n))), excess(n) as int)
    }
}

/// The integer that the double nearest to `n` is.
pub open spec fn whole(n: nat) -> nat {
    if n < HIGH {
        n
    } else {
        half_even(n, pow2(excess(n))) * pow2(excess(n))
    }
}

/// The double nearest to `a / b`.
pub open spec fn over(a: Bin, b: Bin) -> Bin {
    if a.mant == 0 {
        a
    } else if a.mant >= b.mant {
        packed(half_even(a.mant * LOW as nat, b.mant), a.exp - b.exp - 52)
    } else {
        packed(half_even(a.mant * HIGH as nat, b.mant), a.exp - b.exp - 53)
    }
}

/// The double nearest to `a * b`.
pub open spec fn times(a: Bin, b: Bin) -> Bin {
    if a.mant == 0 {
        a
    } else if b.mant == 0 {
        b
    } else if a.mant * b.mant < LOW * HIGH {
        packed(half_even(a.mant * b.mant, LOW as nat), a.exp + b.exp + 52)
    } else {
        packed(half_even(a.mant * b.mant, HIGH as nat), a.exp + b.exp + 53)
    }
}

/// Is `a` less than `b`?
pub open spec fn less(a: Bin, b: Bin) -> bool {
    if a.exp >= b.exp {
        a.mant * pow2((a.exp - b.exp) as nat) < b.mant
    } else {
        a.mant < b.mant * pow2((b.exp - a.exp) as nat)
    }
}

/// The double nearest to `a / b`, for integers.
pub open spec fn ratio(a: nat, b: nat) -> Bin {
    over(of_int(a), of_int(b))
}

/// `a`, rounded to the nearest integer, ties away from zero.
pub open spec fn rounded(a: Bin) -> nat {
    if a.exp >= 0 {
        a.mant * pow2(a.exp as nat)
    } else {
        (2 * a.mant + pow2((-a.exp) as nat)) / (2 * pow2((-a.exp) as nat))
    }
}

/// `a` without its fraction.
pub open spec fn truncated(a: Bin) -> nat {
    if a.exp >= 0 {
        a.mant * pow2(a.exp as nat)
    } else {
        a.mant / pow2((-a.exp) as nat)
    }
}

/// `a`, counted in units of one `unit`-th, ties to the even count.
pub open spec fn units(a: Bin, unit: nat) -> nat {
    if a.exp >= 0 {
        a.mant * pow2(a.exp as nat) * unit
    } else {
        half_even(a.mant * unit, pow2((-a.exp) as nat))
    }
}

/// Ten to the power of `places`.
pub open spec fn ten_to(places: nat) -> nat
    decreases places,
{
    if places == 0 {
        1
    } else {
        10 * ten_to((places - 1) as nat)
    }
}

/// `n` counts of one `10^places`-th, as a decimal with that many places.
pub open spec fn decimal(n: nat, places: nat) -> Seq<char> {
    if places == 0 {
        dec(n as int)
    } else {
        dec((n / ten_to(places)) as int) + seq!['.'] + zero_filled(
            dec((n % ten_to(places)) as int),
            places,
        )
    }
}

/// `a` in decimal with `places` places.
pub open spec fn fixed(a: Bin, places: nat) -> Seq<char> {
    decimal(units(a, ten_to(places)), places)
}

/// The least of `n` and what fits.
pub open spec fn saturated(n: nat) -> u64 {
    if n > u64::MAX {
        u64::MAX
    } else {
        n as u64
    }
}

/// `a / b` in percent, rounded to an integer.
pub open spec fn percent(a: nat, b: nat) -> u64 {
    saturated(rounded(times(ratio(a, b), of_int(100))))
}

/// Rounding to a multiple does not pass a multiple that bounds the input.
pub proof fn lemma_half_even_bounds(num: nat, den: nat, lo: nat, hi: nat)
    requires
        den > 0,
        lo * den <= num <= hi * den,
    ensures
        lo <= half_even(num, den) <= hi,
{
    let q = num / den;
    let r = num % den;
    vstd::arithmetic::div_mod::lemma_fundamental_div_mod(num as int, den as int);
    assert(q <= hi) by (nonlinear_arith)
        requires
            num == den * q + r,
            num <= hi * den,
            r >= 0,
            den > 0,
    ;
    assert(lo <= q) by (nonlinear_arith)
        requires
            num == den * q + r,
            lo * den <= num,
            r < den,
            den > 0,
    ;
    if q == hi {
        assert(r == 0) by (nonlinear_arith)
            requires
                num == den * q + r,
                num <= hi * den,
                q == hi,
                r >= 0,
        ;
    }
}

/// Powers of two that significands are made of.
pub proof fn lemma_pow2_facts(k: nat)
    ensures
        pow2(k) > 0,
        pow2(0) == 1,
        pow2(k + 1) == 2 * pow2(k),
        pow2(52) == LOW,
        pow2(53) == HIGH,
{
    vstd::arithmetic::power2::lemma_pow2_pos(k);
    vstd::arithmetic::power2::lemma2_to64();
    vstd::arithmetic::power2::lemma2_to64_rest();
    vstd::arithmetic::power2::lemma_pow2_unfold(k + 1);
}

/// Two to the power of `k`.
fn power(k: u32) -> (p: u128)
    requires
        k <= 127,
    ensures
        p == pow2(k as nat),
        0 < p,
{
    proof {
        lemma_pow2_facts(0);
        vstd::arithmetic::power2::lemma2_to64();
        vstd::arithmetic::power2::lemma2_to64_rest();
        vstd::arithmetic::power2::lemma_pow2_adds(63, 64);
        assert(0x8000000000000000 * 0x10000000000000000 == 0x80000000000000000000000000000000);
    }
    let mut p: u128 = 1;
    let mut i: u32 = 0;
    while i < k
        invariant
            i <= k <= 127,
            p == pow2(i as nat),
            p >= 1,
            pow2(127) == 0x80000000000000000000000000000000,
        decreases k - i,
    {
        proof {
            lemma_pow2_facts(i as nat);
            if i + 1 < 127 {
                vstd::arithmetic::power2::lemma_pow2_strictly_increases((i + 1) as nat, 127);
            }
        }
        p = p * 2;
        i = i + 1;
    }
    p
}

/// `num / den`, rounded to the nearest integer, ties to the even one.
pub fn div_half_even(num: u128, den: u128) -> (q: u128)
    requires
        0 < den <= 0x80000000000000000000000000000000,
    ensures
        q == half_even(num as nat, den as nat),
{
    let q: u128 = num / den;
    let r: u128 = num % den;
    if r > den - r || (r == den - r && q % 2 == 1) {
        assert(q < num || num == 0) by (nonlinear_arith)
            requires
                q == num / den,
                den >= 2 || num == 0,
                den > 0,
        ;
        q + 1
    } else {
        q
    }
}

fn pack(q: u128, exp: i32) -> (d: Double)
    requires
        LOW <= q <= HIGH,
        -1000 <= exp <= 1000,
    ensures
        d@ == packed(q as nat, exp as int),
        d@.wf(),
{
    if q == HIGH as u128 {
        Double { mant: LOW, exp: exp + 1 }
    } else {
        Double { mant: q as u64, exp }
    }
}

proof fn lemma_excess(n: nat)
    requires
        n >= LOW,
    ensures
        LOW as nat * pow2(excess(n)) <= n < HIGH as nat * pow2(excess(n)),
        pow2(excess(n)) > 0,
    decreases n,
{
    lemma_pow2_facts(excess(n));
    if n >= HIGH {
        let k = excess(n / 2);
        lemma_excess(n / 2);
        lemma_pow2_facts(k);
        assert(excess(n) == k + 1);
        assert(LOW as nat * pow2(k + 1) <= n < HIGH as nat * pow2(k + 1)) by (nonlinear_arith)
            requires
                pow2(k + 1) == 2 * pow2(k),
                LOW as nat * pow2(k) <= n / 2 < HIGH as nat * pow2(k),
        ;
    }
}

/// The double nearest to `n`.
pub fn from_int(n: u128) -> (d: Double)
    requires
        n < 0x8_0000_0000_0000_0000,
    ensures
        d@ == of_int(n as nat),
        d@.wf(),
        -52 <= d@.exp <= 16,
        n > 0 ==> d@.mant > 0,
{
    if n == 0 {
        return Double { mant: 0, exp: 0 };
    }
    let mut m: u128 = n;
    let mut e: i32 = 0;
    proof {
        lemma_pow2_facts(0);
    }
    while m < LOW as u128
        invariant
            0 < m,
            n < 0x8_0000_0000_0000_0000,
            m < LOW ==> n < LOW,
            n >= LOW ==> m == n && e == 0,
            -52 <= e <= 0,
            m >= pow2((-e) as nat),
            n < LOW ==> m < HIGH,
            of_int(n as nat).mant == of_int(m as nat).mant,
            of_int(n as nat).exp == of_int(m as nat).exp + e,
        decreases HIGH - m,
    {
        proof {
            lemma_pow2_facts((-e) as nat);
            if e == -52 {
                assert(m >= LOW);
            }
        }
        m = m * 2;
        e = e - 1;
    }
    if m < HIGH as u128 {
        proof {
            assert(excess(m as nat) == 0);
            lemma_half_even_bounds(m as nat, 1, m as nat, m as nat);
        }
        return Double { mant: m as u64, exp: e };
    }
    let mut k: u32 = 0;
    let mut t: u128 = m;
    while t >= HIGH as u128
        invariant
            LOW <= t <= m,
            m < 0x8_0000_0000_0000_0000,
            k <= 15,
            t * pow2(k as nat) <= m,
            excess(m as nat) == k + excess(t as nat),
        decreases t,
    {
        proof {
            lemma_pow2_facts(k as nat);
            vstd::arithmetic::power2::lemma2_to64();
            assert((t / 2) * pow2((k + 1) as nat) <= m) by (nonlinear_arith)
                requires
                    t * pow2(k as nat) <= m,
                    pow2((k + 1) as nat) == 2 * pow2(k as nat),
            ;
            if k == 15 {
                assert(t * pow2(15) <= m);
                assert(pow2(15) == 0x8000);
                assert(false);
            }
        }
        t = t / 2;
        k = k + 1;
    }
    proof {
        lemma_excess(m as nat);
        assert(excess(t as nat) == 0);
        vstd::arithmetic::power2::lemma2_to64();
        if k < 63 {
            vstd::arithmetic::power2::lemma_pow2_strictly_increases(k as nat, 63);
        }
        lemma_half_even_bounds(m as nat, pow2(k as nat), LOW as nat, HIGH as nat);
    }
    pack(div_half_even(m, power(k)), k as i32)
}

/// The integer that the double nearest to `n` is.
pub fn whole_of(n: u64) -> (w: u128)
    ensures
        w == whole(n as nat),
        w <= 0x1_0000_0000_0000_0000,
        n > 0 ==> w > 0,
{
    if n < HIGH {
        return n as u128;
    }
    let m: u128 = n as u128;
    let mut k: u32 = 0;
    let mut t: u128 = m;
    proof {
        lemma_pow2_facts(0);
    }
    while t >= HIGH as u128
        invariant
            LOW <= t <= m,
            m <= u64::MAX,
            k <= 11,
            t * pow2(k as nat) <= m,
            excess(m as nat) == k + excess(t as nat),
        decreases t,
    {
        proof {
            lemma_pow2_facts(k as nat);
            vstd::arithmetic::power2::lemma2_to64();
            assert((t / 2) * pow2((k + 1) as nat) <= m) by (nonlinear_arith)
                requires
                    t * pow2(k as nat) <= m,
                    pow2((k + 1) as nat) == 2 * pow2(k as nat),
            ;
            if k == 11 {
                assert(pow2(k as nat) == 0x800);
                assert(t * 0x800 <= m);
                assert(false);
            }
        }
        t = t / 2;
        k = k + 1;
    }
    let p: u128 = power(k);
    proof {
        lemma_excess(m as nat);
        assert(excess(t as nat) == 0);
        vstd::arithmetic::power2::lemma2_to64();
        lemma_half_even_bounds(m as nat, pow2(k as nat), LOW as nat, HIGH as nat);
        if k < 11 {
            vstd::arithmetic::power2::lemma_pow2_strictly_increases(k as nat, 11);
        }
        vstd::arithmetic::power2::lemma_pow2_adds(k as nat, (11 - k) as nat);
        assert(pow2(11) == 0x800);
        // The bound is itself a multiple of the last place.
        let top: nat = (0x20_0000_0000_0000 * pow2((11 - k) as nat)) as nat;
        assert(top * pow2(k as nat) == 0x20_0000_0000_0000 * 0x800) by (nonlinear_arith)
            requires
                top == 0x20_0000_0000_0000 * pow2((11 - k) as nat),
                pow2((11 - k) as nat) * pow2(k as nat) == 0x800,
        ;
        lemma_half_even_bounds(m as nat, pow2(k as nat), LOW as nat, top);
        assert(half_even(m as nat, pow2(k as nat)) * pow2(k as nat) <= 0x1_0000_0000_0000_0000)
            by (nonlinear_arith)
            requires
                half_even(m as nat, pow2(k as nat)) <= top,
                top * pow2(k as nat) == 0x20_0000_0000_0000 * 0x800,
                pow2(k as nat) > 0,
        ;
        assert(half_even(m as nat, pow2(k as nat)) * pow2(k as nat) > 0) by (nonlinear_arith)
            requires
                half_even(m as nat, pow2(k as nat)) >= LOW,
                pow2(k as nat) > 0,
        ;
    }
    let q: u128 = div_half_even(m, p);
    q * p
}

/// The double nearest to `a / b`.
pub fn divide(a: Double, b: Double) -> (d: Double)
    requires
        a@.wf(),
        b@.wf(),
        b.mant > 0,
        -52 <= a.exp <= 16,
        -52 <= b.exp <= 16,
    ensures
        d@ == over(a@, b@),
        d@.moderate(),
        d@.exp <= 17,
{
    if a.mant == 0 {
        return a;
    }
    let n: u128 = a.mant as u128;
    let m: u128 = b.mant as u128;
    proof {
        let (x, y) = (a.mant as nat, b.mant as nat);
        if x >= y {
            assert(LOW as nat * y <= x * LOW as nat <= HIGH as nat * y) by (nonlinear_arith)
                requires
                    y <= x < HIGH,
                    y >= LOW,
                    HIGH == 2 * LOW,
            ;
            lemma_half_even_bounds(x * LOW as nat, y, LOW as nat, HIGH as nat);
        } else {
            assert(LOW as nat * y <= x * HIGH as nat <= HIGH as nat * y) by (nonlinear_arith)
                requires
                    LOW <= x < y < HIGH,
                    HIGH == 2 * LOW,
            ;
            lemma_half_even_bounds(x * HIGH as nat, y, LOW as nat, HIGH as nat);
        }
        assert(x * LOW < 0x80000000000000000000000000000000) by (nonlinear_arith)
            requires
                x < HIGH,
        ;
        assert(x * HIGH < 0x80000000000000000000000000000000) by (nonlinear_arith)
            requires
                x < HIGH,
        ;
    }
    if a.mant >= b.mant {
        pack(div_half_even(n * LOW as u128, m), a.exp - b.exp - 52)
    } else {
        pack(div_half_even(n * HIGH as u128, m), a.exp - b.exp - 53)
    }
}

/// The double nearest to `a * b`.
pub fn multiply(a: Double, b: Double) -> (d: Double)
    requires
        a@.wf(),
        b@.wf(),
        -121 <= a.exp <= 64,
        -121 <= b.exp <= 64,
        -173 <= a.exp + b.exp <= 60,
    ensures
        d@ == times(a@, b@),
        d@.wide(),
        a.exp + b.exp <= 10 ==> d@.moderate(),
{
    if a.mant == 0 {
        return Double { mant: 0, exp: 0 };
    }
    if b.mant == 0 {
        return Double { mant: 0, exp: 0 };
    }
    proof {
        let (x, y) = (a.mant as nat, b.mant as nat);
        assert(LOW * LOW <= x * y < HIGH * HIGH) by (nonlinear_arith)
            requires
                LOW <= x < HIGH,
                LOW <= y < HIGH,
        ;
        assert(HIGH * HIGH < 0x80000000000000000000000000000000);
        if x * y < LOW * HIGH {
            lemma_half_even_bounds(x * y, LOW as nat, LOW as nat, HIGH as nat);
        } else {
            lemma_half_even_bounds(x * y, HIGH as nat, LOW as nat, HIGH as nat);
        }
    }
    let p: u128 = a.mant as u128 * b.mant as u128;
    if p < LOW as u128 * HIGH as u128 {
        pack(div_half_even(p, LOW as u128), a.exp + b.exp + 52)
    } else {
        pack(div_half_even(p, HIGH as u128), a.exp + b.exp + 53)
    }
}

/// Is `a` less than `b`?
pub fn is_less(a: Double, b: Double) -> (r: bool)
    requires
        a@.moderate(),
        b@.moderate(),
    ensures
        r == less(a@, b@),
{
    proof {
        if a.exp >= b.exp {
            lemma_pow2_facts((a.exp - b.exp) as nat);
            lemma_scale(a.mant as nat, (a.exp - b.exp) as nat);
        } else {
            lemma_scale(b.mant as nat, (b.exp - a.exp) as nat);
        }
    }
    if a.mant == 0 {
        assert(a.mant * pow2((a.exp - b.exp) as nat) == 0) by (nonlinear_arith)
            requires
                a.mant == 0,
        ;
        return b.mant > 0;
    }
    if b.mant == 0 {
        assert(b.mant * pow2((b.exp - a.exp) as nat) == 0) by (nonlinear_arith)
            requires
                b.mant == 0,
        ;
        return false;
    }
    if a.exp == b.exp {
        assert(a.mant * pow2(0) == a.mant);
        a.mant < b.mant
    } else {
        a.exp < b.exp
    }
}

proof fn lemma_scale(m: nat, k: nat)
    ensures
        pow2(0) == 1,
        m * pow2(k) >= m,
        k > 0 && m >= LOW ==> m * pow2(k) >= HIGH,
{
    lemma_pow2_facts(0);
    lemma_pow2_facts(k);
    assert(m * pow2(k) >= m) by (nonlinear_arith)
        requires
            pow2(k) >= 1,
    ;
    if k > 0 {
        lemma_pow2_facts((k - 1) as nat);
        if m >= LOW {
            assert(m * pow2(k) >= HIGH) by (nonlinear_arith)
                requires
                    pow2(k) >= 2,
                    m >= LOW,
                    HIGH == 2 * LOW,
            ;
        }
    }
}

proof fn lemma_shifted_fits(m: nat, k: nat)
    requires
        m < HIGH,
        k <= 64,
    ensures
        m * pow2(k) < 0x20_0000_0000_0000 * 0x1_0000_0000_0000_0000,
{
    vstd::arithmetic::power2::lemma2_to64();
    if k < 64 {
        vstd::arithmetic::power2::lemma_pow2_strictly_increases(k, 64);
    }
    assert(m * pow2(k) < 0x20_0000_0000_0000 * 0x1_0000_0000_0000_0000) by (nonlinear_arith)
        requires
            m < HIGH,
            pow2(k) <= 0x1_0000_0000_0000_0000,
            pow2(k) > 0 || true,
    ;
}

/// A number of twelve or more trailing zero bits does not fit 64 bits.
proof fn lemma_too_large(m: nat, k: nat)
    requires
        m >= LOW,
        k >= 12,
    ensures
        m * pow2(k) > u64::MAX,
{
    vstd::arithmetic::power2::lemma2_to64();
    if k > 12 {
        vstd::arithmetic::power2::lemma_pow2_strictly_increases(12, k);
    }
    assert(m * pow2(k) > u64::MAX) by (nonlinear_arith)
        requires
            m >= LOW,
            pow2(k) >= 0x1000,
    ;
}

/// `a`, rounded to the nearest integer, ties away from zero, or the largest
/// integer that fits.
pub fn round(a: Double) -> (n: u64)
    requires
        a@.wide(),
    ensures
        n == saturated(rounded(a@)),
{
    if a.exp >= 12 {
        proof {
            lemma_too_large(a.mant as nat, a.exp as nat);
        }
        return u64::MAX;
    }
    let v: u128 = if a.exp >= 0 {
        proof {
            lemma_shifted_fits(a.mant as nat, a.exp as nat);
        }
        a.mant as u128 * power(a.exp as u32)
    } else {
        let p: u128 = power((-a.exp) as u32);
        proof {
            vstd::arithmetic::power2::lemma_pow2_strictly_increases((-a.exp) as nat, 122);
            lemma_pow2_122();
        }
        (2 * (a.mant as u128) + p) / (2 * p)
    };
    if v > u64::MAX as u128 {
        u64::MAX
    } else {
        v as u64
    }
}

proof fn lemma_pow2_122()
    ensures
        pow2(122) == 0x4000000000000000000000000000000,
{
    vstd::arithmetic::power2::lemma2_to64();
    vstd::arithmetic::power2::lemma2_to64_rest();
    vstd::arithmetic::power2::lemma_pow2_adds(58, 64);
    assert(0x400000000000000 * 0x10000000000000000 == 0x4000000000000000000000000000000);
}

/// `a` without its fraction, or the largest integer that fits.
pub fn truncate(a: Double) -> (n: u64)
    requires
        a@.wide(),
    ensures
        n == saturated(truncated(a@)),
{
    if a.exp >= 12 {
        proof {
            lemma_too_large(a.mant as nat, a.exp as nat);
        }
        return u64::MAX;
    }
    let v: u128 = if a.exp >= 0 {
        proof {
            lemma_shifted_fits(a.mant as nat, a.exp as nat);
        }
        a.mant as u128 * power(a.exp as u32)
    } else {
        a.mant as u128 / power((-a.exp) as u32)
    };
    if v > u64::MAX as u128 {
        u64::MAX
    } else {
        v as u64
    }
}

proof fn lemma_ten_to()
    ensures
        ten_to(0) == 1,
        ten_to(1) == 10,
        ten_to(2) == 100,
        ten_to(3) == 1000,
{
    reveal_with_fuel(ten_to, 4);
}

/// Appends `n` counts of one `10^places`-th as a decimal.
pub fn push_decimal(out: &mut String, n: u128, places: u8)
    requires
        places <= 3,
    ensures
        final(out)@ == old(out)@ + decimal(n as nat, places as nat),
{
    proof {
        lemma_ten_to();
    }
    if places == 0 {
        push_numeral(out, n, 10);
        return ;
    }
    let unit: u128 = if places == 1 {
        10
    } else if places == 2 {
        100
    } else {
        1000
    };
    push_numeral(out, n / unit, 10);
    out.push('.');
    let mut tail = String::new();
    push_numeral(&mut tail, n % unit, 10);
    let w: usize = tail.as_str().unicode_len();
    if w < places as usize {
        push_repeated(out, '0', places as usize - w);
    }
    out.append(tail.as_str());
    proof {
        let t = dec((n % unit) as int);
        assert(tail@ =~= t);
        assert(out@ =~= old(out)@ + decimal(n as nat, places as nat));
    }
}

/// Appends `a` in decimal with `places` places.
pub fn push_fixed(out: &mut String, a: Double, places: u8)
    requires
        a@.moderate(),
        places <= 3,
    ensures
        final(out)@ == old(out)@ + fixed(a@, places as nat),
{
    proof {
        lemma_ten_to();
        assert(a.mant * 1000 < 0x80000000000000000000000000000000);
    }
    let unit: u128 = if places == 0 {
        1
    } else if places == 1 {
        10
    } else if places == 2 {
        100
    } else {
        1000
    };
    let n: u128 = if a.exp >= 0 {
        let p: u128 = power(a.exp as u32);
        proof {
            lemma_shifted_fits(a.mant as nat, a.exp as nat);
            let v = a.mant * p;
            assert(v * unit < 0x1_0000_0000_0000_0000_0000_0000_0000_0000) by (nonlinear_arith)
                requires
                    0 <= v < 0x20_0000_0000_0000 * 0x1_0000_0000_0000_0000,
                    0 <= unit <= 1000,
            ;
        }
        a.mant as u128 * p * unit
    } else {
        proof {
            vstd::arithmetic::power2::lemma_pow2_strictly_increases((-a.exp) as nat, 122);
            lemma_pow2_122();
        }
        div_half_even(a.mant as u128 * unit, power((-a.exp) as u32))
    };
    push_decimal(out, n, places);
}

/// The double nearest to `a / b`.
pub fn quotient(a: u64, b: u64) -> (d: Double)
    requires
        b > 0,
    ensures
        d@ == ratio(a as nat, b as nat),
        d@.moderate(),
        d@.exp <= 17,
{
    divide(from_int(a as u128), from_int(b as u128))
}

/// Appends `a / b` in decimal with `places` places.
pub fn push_quotient(out: &mut String, a: u64, b: u64, places: u8)
    requires
        b > 0,
        places <= 3,
    ensures
        final(out)@ == old(out)@ + fixed(ratio(a as nat, b as nat), places as nat),
{
    push_fixed(out, quotient(a, b), places);
}

/// `a / b` in decimal with `places` places.
pub fn quotient_text(a: u64, b: u64, places: u8) -> (s: String)
    requires
        b > 0,
        places <= 3,
    ensures
        s@ == fixed(ratio(a as nat, b as nat), places as nat),
{
    let mut s = String::new();
    push_quotient(&mut s, a, b, places);
    assert(s@ =~= fixed(ratio(a as nat, b as nat), places as nat));
    s
}

/// `a / b` in percent, in decimal with `places` places.
pub fn percent_text(a: u64, b: u64, places: u8) -> (s: String)
    requires
        b > 0,
        places <= 3,
    ensures
        s@ == fixed(times(ratio(a as nat, b as nat), of_int(100)), places as nat),
{
    let mut s = String::new();
    push_fixed(&mut s, hundredfold(quotient(a, b)), places);
    assert(s@ =~= fixed(times(ratio(a as nat, b as nat), of_int(100)), places as nat));
    s
}

/// `a * 100`, the double nearest to it.
pub fn hundredfold(a: Double) -> (d: Double)
    requires
        a@.moderate(),
        a@.exp <= 17,
    ensures
        d@ == times(a@, of_int(100)),
        d@.moderate(),
{
    proof {
        lemma_of_hundred();
    }
    multiply(a, Double { mant: 0x19_0000_0000_0000, exp: -46 })
}

proof fn lemma_of_hundred()
    ensures
        of_int(100) == (Bin { mant: 0x19_0000_0000_0000, exp: -46 }),
{
    vstd::arithmetic::power2::lemma2_to64_rest();
    assert(100 * pow2(46) == 0x19_0000_0000_0000);
    lemma_small_int(100, 46);
}

/// An integer of at most 53 bits is a double: it is only shifted.
pub proof fn lemma_small_int(n: nat, k: nat)
    requires
        LOW <= n * pow2(k) < HIGH,
    ensures
        of_int(n) == (Bin { mant: n * pow2(k), exp: -(k as int) }),
    decreases k,
{
    lemma_pow2_facts(0);
    if k == 0 {
        assert(n * pow2(0) == n);
        assert(excess(n) == 0);
        lemma_half_even_bounds(n, 1, n, n);
    } else {
        lemma_pow2_facts((k - 1) as nat);
        assert((2 * n) * pow2((k - 1) as nat) == n * pow2(k)) by (nonlinear_arith)
            requires
                pow2(k) == 2 * pow2((k - 1) as nat),
        ;
        assert(n < LOW && n > 0) by (nonlinear_arith)
            requires
                LOW <= n * pow2(k) < HIGH,
                pow2(k) >= 2,
                HIGH == 2 * LOW,
        ;
        lemma_small_int(2 * n, (k - 1) as nat);
    }
}

/// `a / b` in percent, rounded to an integer.
pub fn percent_of(a: u64, b: u64) -> (n: u64)
    requires
        b > 0,
    ensures
        n == percent(a as nat, b as nat),
{
    round(hundredfold(quotient(a, b)))
}

/// `a` is at most one.
pub open spec fn at_most_one(a: Bin) -> bool {
    a.mant == 0 || a.exp <= -53 || (a.exp == -52 && a.mant == LOW)
}

/// `a` is at most `b`, for numbers in normal form.
pub open spec fn no_more(a: Bin, b: Bin) -> bool {
    a.mant == 0 || (b.mant > 0 && (a.exp < b.exp || (a.exp == b.exp && a.mant <= b.mant)))
}

proof fn lemma_half_even_monotone(x: nat, y: nat, den: nat)
    requires
        x <= y,
        den > 0,
    ensures
        half_even(x, den) <= half_even(y, den),
{
    vstd::arithmetic::div_mod::lemma_fundamental_div_mod(x as int, den as int);
    vstd::arithmetic::div_mod::lemma_fundamental_div_mod(y as int, den as int);
    let (q, r) = (x / den, x % den);
    let (p, t) = (y / den, y % den);
    assert(q <= p && (q == p ==> r <= t)) by (nonlinear_arith)
        requires
            x == den * q + r,
            y == den * p + t,
            x <= y,
            0 <= r < den,
            0 <= t < den,
    ;
}

proof fn lemma_excess_monotone(x: nat, y: nat)
    requires
        x <= y,
    ensures
        excess(x) <= excess(y),
    decreases y,
{
    if x >= HIGH {
        lemma_excess_monotone(x / 2, y / 2);
    }
}

/// The shape of the double nearest to an integer.
pub proof fn lemma_of_int(n: nat)
    ensures
        of_int(n).wf(),
        n > 0 ==> of_int(n).mant > 0,
        0 < n < LOW ==> of_int(n).exp < 0,
        n >= LOW ==> of_int(n).exp >= 0,
        n < HIGH && n > 0 ==> of_int(n).exp <= 0 && of_int(n).mant == n * pow2(
            (-of_int(n).exp) as nat,
        ),
    decreases
            (if n < LOW {
                LOW - n
            } else {
                0
            }),
{
    lemma_pow2_facts(0);
    if n == 0 {
    } else if n < LOW {
        lemma_of_int(2 * n);
        let k = (-of_int(2 * n).exp) as nat;
        lemma_pow2_facts(k);
        assert(n * pow2(k + 1) == (2 * n) * pow2(k)) by (nonlinear_arith)
            requires
                pow2(k + 1) == 2 * pow2(k),
        ;
    } else {
        lemma_excess(n);
        lemma_half_even_bounds(n, pow2(excess(n)), LOW as nat, HIGH as nat);
        if n < HIGH {
            lemma_half_even_bounds(n, 1, n, n);
            assert(n * pow2(0) == n);
        }
    }
}

/// A larger integer is not nearest to a smaller double.
pub proof fn lemma_of_int_monotone(x: nat, y: nat)
    requires
        x <= y,
    ensures
        no_more(of_int(x), of_int(y)),
    decreases
            (if x < LOW {
                LOW - x
            } else {
                0
            }),
{
    lemma_of_int(x);
    lemma_of_int(y);
    if x == 0 {
    } else if x < LOW {
        if y < LOW {
            lemma_of_int_monotone(2 * x, 2 * y);
        }
    } else {
        lemma_excess(x);
        lemma_excess(y);
        lemma_excess_monotone(x, y);
        lemma_half_even_bounds(x, pow2(excess(x)), LOW as nat, HIGH as nat);
        lemma_half_even_bounds(y, pow2(excess(y)), LOW as nat, HIGH as nat);
        if excess(x) == excess(y) {
            lemma_half_even_monotone(x, y, pow2(excess(x)));
        }
    }
}

/// A quotient of a number by no smaller one is at most one.
pub proof fn lemma_over_at_most_one(a: Bin, b: Bin)
    requires
        a.wf(),
        b.wf(),
        b.mant > 0,
        no_more(a, b),
    ensures
        at_most_one(over(a, b)),
        over(a, b).wf(),
{
    if a.mant > 0 {
        let (x, y) = (a.mant, b.mant);
        if x >= y {
            assert(LOW as nat * y <= x * LOW as nat <= HIGH as nat * y) by (nonlinear_arith)
                requires
                    y <= x < HIGH,
                    y >= LOW,
                    HIGH == 2 * LOW,
            ;
            lemma_half_even_bounds(x * LOW as nat, y, LOW as nat, HIGH as nat);
            if a.exp == b.exp {
                assert(x == y);
                assert(LOW as nat * y == x * LOW as nat) by (nonlinear_arith)
                    requires
                        x == y,
                ;
                lemma_half_even_bounds(x * LOW as nat, y, LOW as nat, LOW as nat);
            }
        } else {
            assert(LOW as nat * y <= x * HIGH as nat <= HIGH as nat * y) by (nonlinear_arith)
                requires
                    LOW <= x < y < HIGH,
                    HIGH == 2 * LOW,
            ;
            lemma_half_even_bounds(x * HIGH as nat, y, LOW as nat, HIGH as nat);
        }
    }
}

/// The ratio of an integer to no smaller one is at most one.
pub proof fn lemma_ratio_at_most_one(x: nat, y: nat)
    requires
        x <= y,
        y > 0,
    ensures
        at_most_one(ratio(x, y)),
        ratio(x, y).wf(),
{
    lemma_of_int(x);
    lemma_of_int(y);
    lemma_of_int_monotone(x, y);
    lemma_over_at_most_one(of_int(x), of_int(y));
}

/// `q * 2^e` is at most the integer `g`.
pub open spec fn bounded_by(q: nat, e: int, g: nat) -> bool {
    if e >= 0 {
        q * pow2(e as nat) <= g
    } else {
        q <= g * pow2((-e) as nat)
    }
}

proof fn lemma_packed_bounded(q: nat, e: int, g: nat)
    requires
        bounded_by(q, e, g),
        q <= HIGH,
    ensures
        truncated(packed(q, e)) <= g,
        rounded(packed(q, e)) <= g,
{
    let d = packed(q, e);
    lemma_pow2_facts(0);
    // Packing keeps the number, so the bound holds of the packed one too.
    assert(bounded_by(d.mant, d.exp, g)) by {
        if q == HIGH {
            if e >= 0 {
                lemma_pow2_facts(e as nat);
                assert(LOW as nat * pow2((e + 1) as nat) == HIGH as nat * pow2(e as nat))
                    by (nonlinear_arith)
                    requires
                        pow2((e + 1) as nat) == 2 * pow2(e as nat),
                        HIGH == 2 * LOW,
                ;
            } else {
                let k = (-e - 1) as nat;
                lemma_pow2_facts(k);
                assert(LOW as nat <= g * pow2(k)) by (nonlinear_arith)
                    requires
                        HIGH as nat <= g * pow2(k + 1),
                        pow2(k + 1) == 2 * pow2(k),
                        HIGH == 2 * LOW,
                ;
                if e == -1 {
                    assert(g * pow2(0) == g);
                    assert(LOW as nat * pow2(0) == LOW);
                }
            }
        }
    }
    if d.exp < 0 {
        let p = pow2((-d.exp) as nat);
        lemma_pow2_facts((-d.exp) as nat);
        assert(d.mant / p <= g) by (nonlinear_arith)
            requires
                d.mant <= g * p,
                p > 0,
        ;
        assert((2 * d.mant + p) / (2 * p) <= g) by (nonlinear_arith)
            requires
                d.mant <= g * p,
                p > 0,
        ;
    }
}

proof fn lemma_scaled_bounded(m: nat, e: int, g: nat, c: nat, q: nat, f: int)
    requires
        e >= 0 ==> g == m * pow2(e as nat),
        e < 0 ==> m == g * pow2((-e) as nat),
        c == 1 || c == 2,
        q <= c * m,
        f <= e - (c - 1),
    ensures
        bounded_by(q, f, g),
{
    let d = (e - f) as nat;
    lemma_pow2_facts(0);
    lemma_pow2_facts(d);
    if d > 0 {
        lemma_pow2_facts((d - 1) as nat);
    }
    // c * m units of 2^f are at most m units of 2^e.
    assert(c <= pow2(d));
    if f >= 0 {
        lemma_pow2_facts(f as nat);
        vstd::arithmetic::power2::lemma_pow2_adds(f as nat, d);
        assert(q * pow2(f as nat) <= m * pow2(e as nat)) by (nonlinear_arith)
            requires
                q <= c * m,
                c <= pow2(d),
                pow2(e as nat) == pow2(f as nat) * pow2(d),
                pow2(f as nat) > 0,
                m >= 0,
        ;
    } else if e >= 0 {
        vstd::arithmetic::power2::lemma_pow2_adds(e as nat, (-f) as nat);
        assert(q <= g * pow2((-f) as nat)) by (nonlinear_arith)
            requires
                q <= c * m,
                c <= pow2(d),
                g == m * pow2(e as nat),
                pow2(d) == pow2(e as nat) * pow2((-f) as nat),
                m >= 0,
        ;
    } else {
        vstd::arithmetic::power2::lemma_pow2_adds((-e) as nat, d);
        assert(q <= g * pow2((-f) as nat)) by (nonlinear_arith)
            requires
                q <= c * m,
                c <= pow2(d),
                m == g * pow2((-e) as nat),
                pow2((-f) as nat) == pow2((-e) as nat) * pow2(d),
                m >= 0,
        ;
    }
}

/// Scaling an integer by at most one does not enlarge it: neither without its
/// fraction nor rounded.
pub proof fn lemma_scaling_shrinks(a: Bin, g: nat, x: Bin)
    requires
        a.wf(),
        x.wf(),
        at_most_one(x),
        a.exp >= 0 ==> g == a.mant * pow2(a.exp as nat),
        a.exp < 0 ==> a.mant == g * pow2((-a.exp) as nat),
    ensures
        truncated(times(a, x)) <= g,
        rounded(times(a, x)) <= g,
{
    lemma_pow2_facts(0);
    if a.mant == 0 || x.mant == 0 {
        assert(0 * pow2(0) == 0);
    } else {
        let p = a.mant * x.mant;
        assert(LOW * LOW <= p < HIGH * HIGH) by (nonlinear_arith)
            requires
                p == a.mant * x.mant,
                LOW <= a.mant < HIGH,
                LOW <= x.mant < HIGH,
        ;
        if p < LOW * HIGH {
            let q = half_even(p, LOW as nat);
            lemma_half_even_bounds(p, LOW as nat, LOW as nat, HIGH as nat);
            if x.exp <= -53 {
                assert(p <= (2 * a.mant) * LOW) by (nonlinear_arith)
                    requires
                        p == a.mant * x.mant,
                        x.mant < HIGH,
                        HIGH == 2 * LOW,
                        a.mant >= 0,
                ;
                lemma_half_even_bounds(p, LOW as nat, LOW as nat, 2 * a.mant);
                lemma_scaled_bounded(a.mant, a.exp, g, 2, q, a.exp + x.exp + 52);
            } else {
                lemma_half_even_bounds(p, LOW as nat, LOW as nat, a.mant);
                lemma_scaled_bounded(a.mant, a.exp, g, 1, q, a.exp + x.exp + 52);
            }
            lemma_packed_bounded(q, a.exp + x.exp + 52, g);
        } else {
            let q = half_even(p, HIGH as nat);
            assert(p <= a.mant * HIGH) by (nonlinear_arith)
                requires
                    p == a.mant * x.mant,
                    x.mant < HIGH,
                    a.mant >= 0,
            ;
            lemma_half_even_bounds(p, HIGH as nat, LOW as nat, a.mant);
            assert(x.exp <= -53) by {
                if x.mant == LOW {
                    assert(p < LOW * HIGH) by (nonlinear_arith)
                        requires
                            p == a.mant * x.mant,
                            x.mant == LOW,
                            a.mant < HIGH,
                    ;
                }
            }
            lemma_scaled_bounded(a.mant, a.exp, g, 1, q, a.exp + x.exp + 53);
            lemma_packed_bounded(q, a.exp + x.exp + 53, g);
        }
    }
}

/// Scaling `n` by at most one gives at most `n`, up to the 53 bits that a
/// double holds, and never more than twice `n`.
pub proof fn lemma_scaled_int(n: nat, x: Bin)
    requires
        x.wf(),
        at_most_one(x),
    ensures
        n < HIGH ==> truncated(times(of_int(n), x)) <= n,
        n < HIGH ==> rounded(times(of_int(n), x)) <= n,
        truncated(times(of_int(n), x)) <= 2 * n,
{
    lemma_of_int(n);
    lemma_pow2_facts(0);
    let a = of_int(n);
    if n == 0 {
        assert(0 * pow2(0) == 0);
        lemma_scaling_shrinks(a, 0, x);
    } else if n < HIGH {
        if a.exp == 0 {
            assert(n * pow2(0) == n);
        }
        lemma_scaling_shrinks(a, n, x);
    } else {
        let k = excess(n);
        lemma_excess(n);
        lemma_pow2_facts(k);
        let q = half_even(n, pow2(k));
        lemma_half_even_bounds(n, pow2(k), LOW as nat, HIGH as nat);
        let g = q * pow2(k);
        assert(g == a.mant * pow2(a.exp as nat)) by (nonlinear_arith)
            requires
                g == q * pow2(k),
                q == HIGH ==> a.mant == LOW && a.exp == k + 1,
                q != HIGH ==> a.mant == q && a.exp == k,
                pow2(k + 1) == 2 * pow2(k),
                HIGH == 2 * LOW,
        ;
        assert(g <= 2 * n) by (nonlinear_arith)
            requires
                g == q * pow2(k),
                q <= HIGH,
                LOW as nat * pow2(k) <= n,
                HIGH == 2 * LOW,
        ;
        lemma_scaling_shrinks(a, g, x);
    }
}

/// The integer nearest to a larger one is no smaller.
pub proof fn lemma_whole_monotone(x: nat, y: nat)
    requires
        x <= y,
    ensures
        whole(x) <= whole(y),
{
    if y >= HIGH {
        let k = excess(y);
        let p = pow2(k);
        lemma_excess(y);
        if x < HIGH {
            // The larger one is at least the least number of its binade.
            lemma_pow2_facts((k - 1) as nat);
            assert(half_even(y, p) >= LOW) by {
                let hi = half_even(y, p) + y;
                assert(y <= hi * p) by (nonlinear_arith)
                    requires
                        hi >= y,
                        p >= 1,
                ;
                lemma_half_even_bounds(y, p, LOW as nat, hi);
            }
            assert(half_even(y, p) * p >= LOW as nat * p) by (nonlinear_arith)
                requires
                    half_even(y, p) >= LOW,
            ;
            assert(LOW as nat * p >= HIGH) by (nonlinear_arith)
                requires
                    p == 2 * pow2((k - 1) as nat),
                    pow2((k - 1) as nat) >= 1,
            ;
        } else {
            let j = excess(x);
            let q = pow2(j);
            lemma_excess(x);
            lemma_excess_monotone(x, y);
            if j == k {
                lemma_half_even_monotone(x, y, p);
                assert(half_even(x, p) * p <= half_even(y, p) * p) by (nonlinear_arith)
                    requires
                        half_even(x, p) <= half_even(y, p),
                ;
            } else {
                assert(x <= HIGH as nat * q);
                lemma_half_even_bounds(x, q, 0, HIGH as nat);
                assert(half_even(x, q) * q <= HIGH as nat * q) by (nonlinear_arith)
                    requires
                        half_even(x, q) <= HIGH,
                ;
                let hi = half_even(y, p) + y;
                assert(y <= hi * p) by (nonlinear_arith)
                    requires
                        hi >= y,
                        p >= 1,
                ;
                lemma_half_even_bounds(y, p, LOW as nat, hi);
                assert(half_even(y, p) * p >= LOW as nat * p) by (nonlinear_arith)
                    requires
                        half_even(y, p) >= LOW,
                ;
                vstd::arithmetic::power2::lemma_pow2_adds(j, (k - j) as nat);
                lemma_pow2_facts((k - j - 1) as nat);
                assert(HIGH as nat * q <= LOW as nat * p) by (nonlinear_arith)
                    requires
                        p == q * pow2((k - j) as nat),
                        pow2((k - j) as nat) == 2 * pow2((k - j - 1) as nat),
                        pow2((k - j - 1) as nat) >= 1,
                        HIGH == 2 * LOW,
                ;
            }
        }
    }
}

} // verus!
