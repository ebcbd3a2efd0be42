//! Numbers of twenty-four binary digits, as single precision holds them.
//!
//! A brightness is worked out in these, so that two devices that share a rule
//! share every rounding of it. Only what is not negative is needed here; a
//! number is counted in the smallest steps there are, of 2⁻¹⁴⁹, and every
//! operation is the exact result taken to the nearest such number, halves to
//! the even one.

use vstd::arithmetic::power2::pow2;
use vstd::prelude::*;

use crate::number::nearest_even;

verus! {

/// What 24 binary digits count up to.
pub const DIGITS: u32 = 0x100_0000;

/// One, in the smallest steps.
pub open spec fn one() -> nat {
    pow2(149)
}

/// How far apart the numbers of 24 digits are around `whole`.
pub open spec fn step(whole: nat) -> nat
    decreases whole,
{
    if whole < 0x100_0000 {
        1
    } else {
        2 * step(whole / 2)
    }
}

/// The number of 24 digits nearest `n / d`; of two as near, the even one.
pub open spec fn near(n: nat, d: nat) -> nat {
    let gap = step(n / d);
    nearest_even(n, d * gap) * gap
}

/// `n / d`, two whole numbers.
pub open spec fn ratio(n: nat, d: nat) -> nat {
    near(n * one(), d)
}

pub open spec fn product(a: nat, b: nat) -> nat {
    near(a * b, one())
}

pub open spec fn sum(a: nat, b: nat) -> nat {
    near(a + b, 1)
}

/// `a - b`, where `b` is no more than `a`.
pub open spec fn difference(a: nat, b: nat) -> nat {
    near((a - b) as nat, 1)
}

pub open spec fn quotient(a: nat, b: nat) -> nat {
    near(a * one(), b)
}

proof fn even_bounds(n: nat, d: nat)
    requires
        d > 0,
    ensures
        (2 * nearest_even(n, d) - 1) * d <= 2 * n <= (2 * nearest_even(n, d) + 1) * d,
        nearest_even(n, d) * d <= n ==> 2 * (n - nearest_even(n, d) * d) <= d,
{
    let (i, j) = (n as int, d as int);
    vstd::arithmetic::div_mod::lemma_fundamental_div_mod(i, j);
    vstd::arithmetic::div_mod::lemma_mod_bound(i, j);
    let q = n / d;
    let r = n % d;
    let k = nearest_even(n, d);
    assert((2 * k - 1) * d <= 2 * n <= (2 * k + 1) * d) by (nonlinear_arith)
        requires
            n == d * q + r,
            0 <= r < d,
            k == q && 2 * r <= d || k == q + 1 && 2 * r >= d,
    ;
    assert((2 * k + 1) * d == 2 * (k * d) + d) by (nonlinear_arith);
}

proof fn even_exact(k: nat, d: nat)
    requires
        d > 0,
    ensures
        nearest_even(k * d, d) == k,
{
    vstd::arithmetic::div_mod::lemma_fundamental_div_mod_converse(
        (k * d) as int,
        d as int,
        k as int,
        0,
    );
}

proof fn even_ordered(n: nat, m: nat, d: nat)
    requires
        d > 0,
        n <= m,
    ensures
        nearest_even(n, d) <= nearest_even(m, d),
{
    even_bounds(n, d);
    even_bounds(m, d);
    let a = nearest_even(n, d);
    let b = nearest_even(m, d);
    if a > b {
        assert((2 * b + 1) * d <= (2 * a - 1) * d) by (nonlinear_arith)
            requires
                a >= b + 1,
                d > 0,
        ;
        assert(n == m);
    }
}

proof fn even_scaled(n: nat, d: nat, c: nat)
    requires
        d > 0,
        c > 0,
    ensures
        c * d > 0,
        (c * n) / (c * d) == n / d,
        nearest_even(c * n, c * d) == nearest_even(n, d),
{
    let q = n / d;
    let r = n % d;
    vstd::arithmetic::div_mod::lemma_fundamental_div_mod(n as int, d as int);
    vstd::arithmetic::div_mod::lemma_mod_bound(n as int, d as int);
    assert(c * n == (c * d) * q + c * r && c * r < c * d && c * d > 0) by (nonlinear_arith)
        requires
            n == d * q + r,
            0 <= r < d,
            c > 0,
    ;
    assert(c * n == q * (c * d) + c * r) by (nonlinear_arith)
        requires
            c * n == (c * d) * q + c * r,
    ;
    vstd::arithmetic::div_mod::lemma_fundamental_div_mod_converse(
        (c * n) as int,
        (c * d) as int,
        q as int,
        (c * r) as int,
    );
    assert((2 * r > d) == (2 * (c * r) > c * d)) by (nonlinear_arith)
        requires
            c > 0,
    ;
    assert((2 * r == d) == (2 * (c * r) == c * d)) by (nonlinear_arith)
        requires
            c > 0,
    ;
}

proof fn step_facts(whole: nat)
    ensures
        step(whole) >= 1,
        whole < 0x100_0000 * step(whole),
        whole >= 0x80_0000 ==> 0x80_0000 * step(whole) <= whole,
        step(whole) > 1 ==> whole >= 0x100_0000,
    decreases whole,
{
    if whole >= 0x100_0000 {
        step_facts(whole / 2);
    }
}

proof fn steps_ordered(low: nat, high: nat)
    requires
        low <= high,
    ensures
        step(low) == step(high) || 2 * step(low) <= step(high),
    decreases high,
{
    step_facts(low);
    step_facts(high);
    if high >= 0x100_0000 {
        step_facts(high / 2);
        if low >= 0x100_0000 {
            steps_ordered(low / 2, high / 2);
        }
    }
}

/// What is near a fraction is near the same fraction in larger numbers.
pub proof fn near_same(n: nat, d: nat, c: nat)
    requires
        d > 0,
        c > 0,
    ensures
        near(c * n, c * d) == near(n, d),
{
    even_scaled(n, d, c);
    let gap = step(n / d);
    step_facts(n / d);
    assert(d * gap > 0) by (nonlinear_arith)
        requires
            d > 0,
            gap > 0,
    ;
    even_scaled(n, d * gap, c);
    assert(c * d * gap == c * (d * gap)) by (nonlinear_arith);
}

proof fn near_doubled(n: nat, d: nat)
    requires
        d > 0,
        n / d >= 0x80_0000,
    ensures
        near(2 * n, d) == 2 * near(n, d),
        (2 * n) / d >= 0x80_0000,
{
    let w = n / d;
    let r = n % d;
    vstd::arithmetic::div_mod::lemma_fundamental_div_mod(n as int, d as int);
    vstd::arithmetic::div_mod::lemma_mod_bound(n as int, d as int);
    let more: nat = if 2 * r >= d {
        1
    } else {
        0
    };
    let v = 2 * w + more;
    assert(2 * n == v * d + (2 * r - more * d)) by (nonlinear_arith)
        requires
            n == d * w + r,
            v == 2 * w + more,
    ;
    vstd::arithmetic::div_mod::lemma_fundamental_div_mod_converse(
        (2 * n) as int,
        d as int,
        v as int,
        2 * r - more * d,
    );
    assert(v / 2 == w);
    let gap = step(w);
    step_facts(w);
    assert(d * gap > 0) by (nonlinear_arith)
        requires
            d > 0,
            gap > 0,
    ;
    even_scaled(n, d * gap, 2);
    assert(d * (2 * gap) == 2 * (d * gap)) by (nonlinear_arith);
    let k = nearest_even(n, d * gap);
    assert(k * (2 * gap) == 2 * (k * gap)) by (nonlinear_arith);
}

/// Doubled, what is near is doubled.
pub proof fn near_shifted(n: nat, d: nat, k: nat)
    requires
        d > 0,
        n / d >= 0x80_0000,
    ensures
        near(n * pow2(k), d) == near(n, d) * pow2(k),
        (n * pow2(k)) / d >= 0x80_0000,
    decreases k,
{
    vstd::arithmetic::power2::lemma2_to64();
    if k > 0 {
        near_shifted(n, d, (k - 1) as nat);
        vstd::arithmetic::power2::lemma_pow2_unfold(k);
        let p = pow2((k - 1) as nat);
        near_doubled(n * p, d);
        assert(n * (2 * p) == 2 * (n * p)) by (nonlinear_arith);
        assert(near(n, d) * (2 * p) == 2 * (near(n, d) * p)) by (nonlinear_arith);
    }
}

/// What has no more than 24 digits is rounded to a whole number.
pub proof fn near_plain(n: nat, d: nat)
    requires
        d > 0,
        n / d < 0x100_0000,
    ensures
        near(n, d) == nearest_even(n, d),
{
    assert(step(n / d) == 1);
    assert(d * 1 == d);
    let k = nearest_even(n, d);
    assert(k * 1 == k);
}

/// A number of 24 digits is nearest itself.
pub proof fn near_itself(m: nat, k: nat)
    requires
        m < 0x100_0000,
    ensures
        near(m * pow2(k), 1) == m * pow2(k),
    decreases k,
{
    vstd::arithmetic::power2::lemma2_to64();
    assert(nearest_even(m, 1) == m) by {
        assert(m / 1 == m && m % 1 == 0);
    }
    assert(near(m, 1) == m) by {
        assert(m / 1 == m);
        assert(step(m) == 1);
        assert(1nat * 1 == 1);
        assert(m * 1 == m);
    }
    if m >= 0x80_0000 {
        assert(m / 1 == m);
        near_shifted(m, 1, k);
    } else if k > 0 {
        vstd::arithmetic::power2::lemma_pow2_unfold(k);
        let p = pow2((k - 1) as nat);
        near_itself(2 * m, (k - 1) as nat);
        assert(m * (2 * p) == (2 * m) * p) by (nonlinear_arith);
    }
}

proof fn near_ordered_over(n: nat, m: nat, d: nat)
    requires
        d > 0,
        n <= m,
    ensures
        near(n, d) <= near(m, d),
{
    let (w, v) = (n / d, m / d);
    vstd::arithmetic::div_mod::lemma_div_is_ordered(n as int, m as int, d as int);
    let (s, t) = (step(w), step(v));
    step_facts(w);
    step_facts(v);
    steps_ordered(w, v);
    vstd::arithmetic::div_mod::lemma_fundamental_div_mod(n as int, d as int);
    vstd::arithmetic::div_mod::lemma_mod_bound(n as int, d as int);
    vstd::arithmetic::div_mod::lemma_fundamental_div_mod(m as int, d as int);
    vstd::arithmetic::div_mod::lemma_mod_bound(m as int, d as int);
    assert(d * s > 0 && d * t > 0) by (nonlinear_arith)
        requires
            d > 0,
            s > 0,
            t > 0,
    ;
    let (a, b) = (nearest_even(n, d * s), nearest_even(m, d * t));
    if s == t {
        even_ordered(n, m, d * s);
        assert(a * s <= b * s) by (nonlinear_arith)
            requires
                a <= b,
                s > 0,
        ;
    } else {
        assert(n <= 0x100_0000 * (d * s)) by (nonlinear_arith)
            requires
                n == d * w + n % d,
                n % d < d,
                w < 0x100_0000 * s,
                d > 0,
        ;
        even_ordered(n, 0x100_0000 * (d * s), d * s);
        even_exact(0x100_0000, d * s);
        assert(0x80_0000 * (d * t) <= m) by (nonlinear_arith)
            requires
                m == d * v + m % d,
                m % d >= 0,
                0x80_0000 * t <= v,
                d > 0,
        ;
        even_ordered(0x80_0000 * (d * t), m, d * t);
        even_exact(0x80_0000, d * t);
        assert(a * s <= b * t) by (nonlinear_arith)
            requires
                a <= 0x100_0000,
                0x80_0000 <= b,
                2 * s <= t,
                s > 0,
        ;
    }
}

/// A larger fraction is near no smaller a number.
pub proof fn near_ordered(n: nat, d: nat, m: nat, e: nat)
    requires
        d > 0,
        e > 0,
        n * e <= m * d,
    ensures
        near(n, d) <= near(m, e),
{
    near_same(n, d, e);
    near_same(m, e, d);
    assert(d * e > 0) by (nonlinear_arith)
        requires
            d > 0,
            e > 0,
    ;
    assert(e * n == n * e && d * m == m * d && e * d == d * e) by (nonlinear_arith);
    near_ordered_over(n * e, m * d, d * e);
}

/// How near is near: within one part in 2²⁴, above the smallest numbers.
pub proof fn near_close(n: nat, d: nat)
    requires
        d > 0,
        n / d >= 0x80_0000,
    ensures
        0x100_0000 * (near(n, d) * d) <= 0x100_0001 * n,
        0xff_ffff * n <= 0x100_0000 * (near(n, d) * d),
{
    let w = n / d;
    let s = step(w);
    step_facts(w);
    assert(d * s > 0) by (nonlinear_arith)
        requires
            d > 0,
            s > 0,
    ;
    even_bounds(n, d * s);
    vstd::arithmetic::div_mod::lemma_fundamental_div_mod(n as int, d as int);
    vstd::arithmetic::div_mod::lemma_mod_bound(n as int, d as int);
    let k = nearest_even(n, d * s);
    assert(0x80_0000 * (d * s) <= n) by (nonlinear_arith)
        requires
            n == d * w + n % d,
            n % d >= 0,
            0x80_0000 * s <= w,
            d > 0,
    ;
    assert((k * s) * d == k * (d * s)) by (nonlinear_arith);
    assert((2 * k - 1) * (d * s) == 2 * (k * (d * s)) - d * s) by (nonlinear_arith);
    assert((2 * k + 1) * (d * s) == 2 * (k * (d * s)) + d * s) by (nonlinear_arith);
}

/// The digits of [`near`], and by which power of two they are meant.
fn near_of(n: u128, d: u128) -> (r: (u32, u64))
    requires
        0 < d,
    ensures
        r.0 * pow2(r.1 as nat) == near(n as nat, d as nat),
        r.0 <= 0x100_0000,
        r.1 <= 128,
        n as nat / d as nat >= 0x80_0000 ==> r.0 >= 0x80_0000,
        r.1 > 0 ==> r.0 >= 0x80_0000,
{
    let mut w: u128 = n / d;
    let mut part: u128 = d;
    let mut k: u64 = 0;
    let ghost whole = n as nat / d as nat;
    proof {
        vstd::arithmetic::power2::lemma2_to64();
        vstd::arithmetic::div_mod::lemma_fundamental_div_mod(n as int, d as int);
        vstd::arithmetic::div_mod::lemma_mod_bound(n as int, d as int);
        assert(part * w <= n) by (nonlinear_arith)
            requires
                n == d * w + n % d,
                n % d >= 0,
                part == d,
        ;
        assert(part == d * 1);
        assert(1 * w <= n) by (nonlinear_arith)
            requires
                part * w <= n,
                part >= 1,
        ;
    }
    while w >= 0x100_0000
        invariant
            0 < d,
            0 < part,
            part * w <= n,
            part == d * pow2(k as nat),
            pow2(k as nat) * step(w as nat) == step(whole),
            whole == n as nat / d as nat,
            pow2(k as nat) * w <= 0xffff_ffff_ffff_ffff_ffff_ffff_ffff_ffff,
            k <= 128,
            k > 0 ==> w >= 0x80_0000,
        decreases w,
    {
        proof {
            vstd::arithmetic::power2::lemma_pow2_unfold((k + 1) as nat);
            let p = pow2(k as nat);
            assert(pow2((k + 1) as nat) == 2 * p);
            assert(part * 2 <= n) by (nonlinear_arith)
                requires
                    part * w <= n,
                    w >= 2,
                    part > 0,
            ;
            let half = w / 2;
            assert((part * 2) * half <= n) by (nonlinear_arith)
                requires
                    part * w <= n,
                    2 * half <= w,
                    part > 0,
            ;
            assert(part * 2 == d * (2 * p)) by (nonlinear_arith)
                requires
                    part == d * p,
            ;
            assert((2 * p) * step(half as nat) == p * (2 * step(half as nat))) by (nonlinear_arith);
            assert((2 * p) * half <= p * w) by (nonlinear_arith)
                requires
                    2 * half <= w,
                    p >= 0,
            ;
            if k >= 128 {
                vstd::arithmetic::power2::lemma_pow2_adds(64, 64);
                assert(p == 0x1_0000_0000_0000_0000 * 0x1_0000_0000_0000_0000) by {
                    vstd::arithmetic::power2::lemma2_to64();
                }
                assert(p * w >= p) by (nonlinear_arith)
                    requires
                        w >= 1,
                        p >= 0,
                ;
                assert(false);
            }
        }
        w = w / 2;
        part = part * 2;
        k = k + 1;
    }
    let q: u128 = n / part;
    let rest: u128 = n % part;
    let up: bool = rest > part - rest || (rest == part - rest && q % 2 == 1);
    proof {
        let gap = step(whole);
        step_facts(whole);
        assert(step(w as nat) == 1);
        let unit = step(w as nat);
        assert(pow2(k as nat) * unit == pow2(k as nat)) by (nonlinear_arith)
            requires
                unit == 1,
        ;
        assert(pow2(k as nat) == gap);
        assert(part == d * gap);
        vstd::arithmetic::div_mod::lemma_fundamental_div_mod(n as int, d as int);
        vstd::arithmetic::div_mod::lemma_mod_bound(n as int, d as int);
        assert(n <= 0x100_0000 * part) by (nonlinear_arith)
            requires
                n == d * whole + n as int % d as int,
                n as int % (d as int) < d,
                whole < 0x100_0000 * gap,
                part == d * gap,
                d > 0,
        ;
        even_ordered(n as nat, 0x100_0000 * part as nat, part as nat);
        even_exact(0x100_0000, part as nat);
        if whole >= 0x80_0000 {
            assert(0x80_0000 * part <= n) by (nonlinear_arith)
                requires
                    n == d * whole + n as int % d as int,
                    n as int % (d as int) >= 0,
                    0x80_0000 * gap <= whole,
                    part == d * gap,
                    d > 0,
            ;
            even_ordered(0x80_0000 * part as nat, n as nat, part as nat);
            even_exact(0x80_0000, part as nat);
        }
        if k > 0 {
            vstd::arithmetic::power2::lemma_pow2_strictly_increases(0, k as nat);
            vstd::arithmetic::power2::lemma2_to64();
            assert(gap > 1);
        }
        assert(nearest_even(n as nat, part as nat) == (if up {
            q + 1
        } else {
            q as int
        }));
    }
    if up {
        ((q + 1) as u32, k)
    } else {
        (q as u32, k)
    }
}

/// A number of 24 digits: `m` steps of 2ᵉ. All but the smallest have every
/// digit in use.
#[derive(Debug, Clone, Copy)]
pub struct Single {
    pub m: u32,
    pub e: u64,
}

impl View for Single {
    type V = nat;

    open spec fn view(&self) -> nat {
        self.m as nat * pow2(self.e as nat)
    }
}

impl Single {
    pub open spec fn wf(self) -> bool {
        self.m < 0x100_0000 && (self.e > 0 ==> self.m >= 0x80_0000)
    }

    /// [`Self::wf`], and not so large that a few steps of arithmetic overflow.
    pub open spec fn fit(self) -> bool {
        self.wf() && self.e <= 0xffff_ffff
    }
}

/// Nothing.
fn zero() -> (r: Single)
    ensures
        r.wf(),
        r@ == 0,
        r.e == 0,
{
    Single { m: 0, e: 0 }
}

proof fn nothing_near(d: nat)
    requires
        d > 0,
    ensures
        near(0, d) == 0,
{
    assert(0nat / d == 0) by {
        vstd::arithmetic::div_mod::lemma_fundamental_div_mod_converse(0, d as int, 0, 0);
    }
    let gap = step(0);
    assert(gap == 1);
    assert(d * gap == d) by (nonlinear_arith)
        requires
            gap == 1,
    ;
    assert(0 * d == 0);
    even_exact(0, d);
}

/// What is near `n / d`, `k` times doubled.
fn made(n: u128, d: u128, k: u64) -> (r: Single)
    requires
        0 < d,
        k <= 0xffff_ffff_ffff,
        k == 0 || n as nat / d as nat >= 0x80_0000,
    ensures
        r.wf(),
        r.e <= k + 129,
        r@ == near(n as nat * pow2(k as nat), d as nat),
{
    let (m, s) = near_of(n, d);
    proof {
        let (p, q) = (pow2(s as nat), pow2(k as nat));
        vstd::arithmetic::power2::lemma2_to64();
        if k > 0 {
            near_shifted(n as nat, d as nat, k as nat);
        } else {
            assert(n as nat * 1 == n);
        }
        vstd::arithmetic::power2::lemma_pow2_adds(s as nat, k as nat);
        assert((m * p) * q == m * (p * q)) by (nonlinear_arith);
        vstd::arithmetic::power2::lemma_pow2_unfold((s + k + 1) as nat);
        assert(0x100_0000 * (p * q) == 0x80_0000 * (2 * (p * q))) by (nonlinear_arith);
    }
    if m == DIGITS {
        Single { m: 0x80_0000, e: k + s + 1 }
    } else {
        Single { m, e: k + s }
    }
}

/// `m` steps of 2ᵏ, with every digit in use.
fn exact(m: u32, k: u64) -> (r: Single)
    requires
        m < 0x100_0000,
    ensures
        r.wf(),
        r.e <= k,
        r@ == m as nat * pow2(k as nat),
        r@ == near(m as nat * pow2(k as nat), 1),
{
    proof {
        near_itself(m as nat, k as nat);
        vstd::arithmetic::power2::lemma2_to64();
    }
    if m == 0 {
        return zero();
    }
    let mut digits: u32 = m;
    let mut e: u64 = k;
    while digits < 0x80_0000 && e > 0
        invariant
            0 < digits < 0x100_0000,
            e <= k,
            digits as nat * pow2(e as nat) == m as nat * pow2(k as nat),
        decreases e,
    {
        proof {
            vstd::arithmetic::power2::lemma_pow2_unfold(e as nat);
            let p = pow2((e - 1) as nat);
            assert(digits as nat * (2 * p) == (2 * digits) as nat * p) by (nonlinear_arith);
        }
        digits = 2 * digits;
        e = e - 1;
    }
    Single { m: digits, e }
}

/// A whole number.
pub fn whole(n: u64) -> (r: Single)
    ensures
        r.wf(),
        r.e <= 300,
        r@ == floated(n as nat),
        n < 0x100_0000 ==> r@ == n as nat * one(),
{
    if n < DIGITS as u64 {
        exact(n as u32, 149)
    } else {
        assert(n as nat / 1 == n);
        made(n as u128, 1, 149)
    }
}

/// `n` steps of 2⁻²⁸, which is what a device's tuning is kept in.
pub open spec fn fraction(n: u32) -> nat {
    near(n as nat * pow2(121), 1)
}

pub fn fraction_of(n: u32) -> (r: Single)
    ensures
        r.wf(),
        r.e <= 300,
        r@ == fraction(n),
{
    if n < DIGITS {
        exact(n, 121)
    } else {
        assert(n as nat / 1 == n);
        made(n as u128, 1, 121)
    }
}

/// The number that 32 bits stand for, where they stand for one that is not
/// negative.
pub open spec fn of_bits(bits: u32) -> nat {
    let power = bits / 0x80_0000;
    let digits = bits % 0x80_0000;
    if power == 0 {
        digits as nat
    } else {
        (0x80_0000 + digits) as nat * pow2((power - 1) as nat)
    }
}

pub fn from_bits(bits: u32) -> (r: Single)
    requires
        bits < 0x7f80_0000,
    ensures
        r.wf(),
        r.e <= 300,
        r@ == of_bits(bits),
{
    let power: u32 = bits / 0x80_0000;
    let digits: u32 = bits % 0x80_0000;
    proof {
        vstd::arithmetic::power2::lemma2_to64();
        assert(digits as nat * 1 == digits);
    }
    if power == 0 {
        Single { m: digits, e: 0 }
    } else {
        Single { m: 0x80_0000 + digits, e: power as u64 - 1 }
    }
}

/// Bits are in the order of what they stand for.
pub proof fn bits_ordered(less: u32, more: u32)
    requires
        less <= more,
    ensures
        of_bits(less) <= of_bits(more),
{
    let (p, q) = (less / 0x80_0000, more / 0x80_0000);
    let (a, b) = (less % 0x80_0000, more % 0x80_0000);
    vstd::arithmetic::power2::lemma2_to64();
    if q > 0 {
        let t = pow2((q - 1) as nat);
        vstd::arithmetic::power2::lemma_pow2_pos((q - 1) as nat);
        if p == 0 {
            assert((0x80_0000 + b) as nat * t >= 0x80_0000) by (nonlinear_arith)
                requires
                    t >= 1,
                    b >= 0,
            ;
        } else if p == q {
            assert((0x80_0000 + a) as nat * t <= (0x80_0000 + b) as nat * t) by (nonlinear_arith)
                requires
                    a <= b,
            ;
        } else {
            let s = pow2((p - 1) as nat);
            vstd::arithmetic::power2::lemma_pow2_adds((p - 1) as nat, (q - p) as nat);
            vstd::arithmetic::power2::lemma_pow2_unfold((q - p) as nat);
            vstd::arithmetic::power2::lemma_pow2_pos((q - p - 1) as nat);
            let c = pow2((q - p) as nat);
            assert((0x80_0000 + a) as nat * s <= (0x80_0000 + b) as nat * t) by (nonlinear_arith)
                requires
                    t == s * c,
                    c >= 2,
                    0 <= a < 0x80_0000,
                    b >= 0,
            {
                assert((0x80_0000 + a) as nat * s <= 0x100_0000 * s);
                assert(t >= 2 * s);
                assert(0x80_0000 * t <= (0x80_0000 + b) as nat * t);
            };
        }
    }
}

/// `n / d`.
pub fn ratio_of(n: u32, d: u32) -> (r: Single)
    requires
        0 < d,
    ensures
        r.wf(),
        r.e <= 300,
        r@ == ratio(n as nat, d as nat),
{
    if n == 0 {
        proof {
            nothing_near(d as nat);
        }
        return zero();
    }
    let top: u128 = n as u128 * 0x1_0000_0000_0000_0000;
    proof {
        assert(top as nat / d as nat >= 0x80_0000) by {
            let (a, b) = (top as int, d as int);
            vstd::arithmetic::div_mod::lemma_div_is_ordered(0x80_0000 * b, a, b);
            vstd::arithmetic::div_mod::lemma_fundamental_div_mod_converse(0x80_0000 * b, b, 0x80_0000, 0);
        }
        vstd::arithmetic::power2::lemma2_to64();
        vstd::arithmetic::power2::lemma_pow2_adds(64, 85);
        assert(top as nat * pow2(85) == n as nat * one()) by (nonlinear_arith)
            requires
                top == n * pow2(64),
                pow2(64) * pow2(85) == pow2(149),
                one() == pow2(149),
        ;
    }
    made(top, d as u128, 85)
}

proof fn in_powers(m: nat, j: nat, k: nat)
    ensures
        (m * pow2(j)) * pow2(k) == m * pow2(j + k),
{
    vstd::arithmetic::power2::lemma_pow2_adds(j, k);
    assert((m * pow2(j)) * pow2(k) == m * (pow2(j) * pow2(k))) by (nonlinear_arith);
}

/// `2^k`.
fn two_to(k: u64) -> (r: u128)
    requires
        k <= 100,
    ensures
        r == pow2(k as nat),
        0 < r <= 0x10_0000_0000_0000_0000_0000_0000,
{
    let mut r: u128 = 1;
    let mut i: u64 = 0;
    proof {
        vstd::arithmetic::power2::lemma2_to64();
        vstd::arithmetic::power2::lemma_pow2_adds(64, 36);
        vstd::arithmetic::power2::lemma2_to64_rest();
        assert(pow2(100) == 0x10_0000_0000_0000_0000_0000_0000);
    }
    while i < k
        invariant
            i <= k <= 100,
            r == pow2(i as nat),
            pow2(100) == 0x10_0000_0000_0000_0000_0000_0000,
        decreases k - i,
    {
        proof {
            vstd::arithmetic::power2::lemma_pow2_unfold((i + 1) as nat);
            vstd::arithmetic::power2::lemma_pow2_strictly_increases(i as nat, 100);
        }
        r = r * 2;
        i = i + 1;
    }
    proof {
        vstd::arithmetic::power2::lemma_pow2_pos(k as nat);
        if k < 100 {
            vstd::arithmetic::power2::lemma_pow2_strictly_increases(k as nat, 100);
        }
    }
    r
}

/// Less than half of the smallest step is nothing.
proof fn too_small(n: nat, d: nat)
    requires
        2 * n < d,
    ensures
        near(n, d) == 0,
{
    vstd::arithmetic::div_mod::lemma_fundamental_div_mod_converse(n as int, d as int, 0, n as int);
    assert(step(0) == 1);
    assert(d * 1 == d);
}

impl Single {
    pub fn times(self, other: Single) -> (r: Single)
        requires
            self.fit(),
            other.fit(),
        ensures
            r.wf(),
            r.e <= self.e + other.e + 129,
            r@ == product(self@, other@),
    {
        assert(0 <= self.m * other.m <= 0x100_0000 * 0x100_0000) by (nonlinear_arith)
            requires
                self.m < 0x100_0000,
                other.m < 0x100_0000,
        ;
        let n: u128 = self.m as u128 * other.m as u128;
        let e: u64 = self.e + other.e;
        let ghost exact_one = self@ * other@;
        proof {
            let (a, b) = (pow2(self.e as nat), pow2(other.e as nat));
            vstd::arithmetic::power2::lemma_pow2_adds(self.e as nat, other.e as nat);
            assert(exact_one == n as nat * pow2(e as nat)) by (nonlinear_arith)
                requires
                    exact_one == (self.m as nat * a) * (other.m as nat * b),
                    n == self.m as nat * other.m as nat,
                    a * b == pow2(e as nat),
            ;
            vstd::arithmetic::power2::lemma_pow2_pos(149);
            vstd::arithmetic::power2::lemma_pow2_pos(e as nat);
        }
        if n == 0 {
            proof {
                assert(exact_one == 0) by (nonlinear_arith)
                    requires
                        exact_one == n as nat * pow2(e as nat),
                        n == 0,
                ;
                nothing_near(one());
            }
            return zero();
        }
        proof {
            assert(self.m > 0 && other.m > 0) by (nonlinear_arith)
                requires
                    n == self.m * other.m,
                    n > 0,
                    self.m >= 0,
                    other.m >= 0,
            ;
        }
        if e >= 149 {
            let k: u64 = e - 149;
            proof {
                in_powers(n as nat, k as nat, 149);
                near_same(n as nat * pow2(k as nat), 1, one());
                assert(one() * (n as nat * pow2(k as nat)) == exact_one) by (nonlinear_arith)
                    requires
                        exact_one == (n as nat * pow2(k as nat)) * one(),
                ;
                assert(one() * 1 == one());
                assert(n >= 0x80_0000) by (nonlinear_arith)
                    requires
                        n == self.m * other.m,
                        self.m >= 0x80_0000 && other.m >= 1 || other.m >= 0x80_0000 && self.m >= 1,
                ;
                assert(n as nat / 1 == n);
            }
            return made(n, 1, k);
        }
        let j: u64 = 149 - e;
        proof {
            vstd::arithmetic::power2::lemma_pow2_adds(e as nat, j as nat);
            vstd::arithmetic::power2::lemma_pow2_pos(j as nat);
            near_same(n as nat, pow2(j as nat), pow2(e as nat));
            assert(pow2(e as nat) * (n as nat) == exact_one) by (nonlinear_arith)
                requires
                    exact_one == n as nat * pow2(e as nat),
            ;
        }
        if j > 100 {
            proof {
                vstd::arithmetic::power2::lemma2_to64();
                vstd::arithmetic::power2::lemma_pow2_strictly_increases(64, j as nat);
                too_small(n as nat, pow2(j as nat));
            }
            return zero();
        }
        proof {
            vstd::arithmetic::power2::lemma2_to64();
            assert(n as nat * 1 == n);
        }
        made(n, two_to(j), 0)
    }

    /// Whether this is less than `other`.
    pub fn below(self, other: Single) -> (r: bool)
        requires
            self.wf(),
            other.wf(),
        ensures
            r == (self@ < other@),
    {
        proof {
            order(self, other);
            order(other, self);
        }
        if self.e == other.e {
            self.m < other.m
        } else {
            self.e < other.e
        }
    }

    /// The smaller of two.
    pub fn min(self, other: Single) -> (r: Single)
        requires
            self.wf(),
            other.wf(),
        ensures
            r == self || r == other,
            r@ == (if self@ <= other@ {
                self@
            } else {
                other@
            }),
    {
        if other.below(self) {
            other
        } else {
            self
        }
    }

    /// The larger of two.
    pub fn max(self, other: Single) -> (r: Single)
        requires
            self.wf(),
            other.wf(),
        ensures
            r == self || r == other,
            r@ == (if self@ >= other@ {
                self@
            } else {
                other@
            }),
    {
        if self.below(other) {
            other
        } else {
            self
        }
    }
}

proof fn order(a: Single, b: Single)
    requires
        a.wf(),
        b.wf(),
    ensures
        a.e < b.e ==> a@ < b@,
        a.e == b.e ==> (a@ < b@) == (a.m < b.m),
{
    let (p, q) = (pow2(a.e as nat), pow2(b.e as nat));
    vstd::arithmetic::power2::lemma_pow2_pos(a.e as nat);
    if a.e < b.e {
        vstd::arithmetic::power2::lemma_pow2_adds(a.e as nat, (b.e - a.e) as nat);
        vstd::arithmetic::power2::lemma_pow2_unfold((b.e - a.e) as nat);
        vstd::arithmetic::power2::lemma_pow2_pos((b.e - a.e - 1) as nat);
        let t = pow2((b.e - a.e) as nat);
        assert(a.m * p < b.m * q) by (nonlinear_arith)
            requires
                q == p * t,
                t >= 2,
                p > 0,
                a.m < 0x100_0000,
                b.m >= 0x80_0000,
        ;
    } else if a.e == b.e {
        assert((a.m * p < b.m * p) == (a.m < b.m)) by (nonlinear_arith)
            requires
                p > 0,
        ;
    }
}

/// Between a number of 24 digits and the next the gap is its own step.
proof fn step_within(m: nat, e: nat, b: nat)
    requires
        0x80_0000 <= m < 0x100_0000,
        b < pow2(e),
    ensures
        step(m * pow2(e) + b) == pow2(e),
    decreases e,
{
    vstd::arithmetic::power2::lemma2_to64();
    if e > 0 {
        vstd::arithmetic::power2::lemma_pow2_unfold(e);
        let p = pow2((e - 1) as nat);
        vstd::arithmetic::power2::lemma_pow2_pos((e - 1) as nat);
        step_within(m, (e - 1) as nat, b / 2);
        let whole = m * (2 * p) + b;
        assert(whole == 2 * (m * p) + b) by (nonlinear_arith)
            requires
                whole == m * (2 * p) + b,
        ;
        assert(whole / 2 == m * p + b / 2);
        assert(m * p >= 0x80_0000) by (nonlinear_arith)
            requires
                m >= 0x80_0000,
                p >= 1,
        ;
        assert(pow2(e) == 2 * p);
        assert(whole == m * pow2(e) + b);
        assert(step(whole) == 2 * step(whole / 2));
    } else {
        assert(m * 1 + b == m);
    }
}

/// What is nearer than half a step to a number of 24 digits is that number.
proof fn absorbed(m: nat, e: nat, b: nat)
    requires
        0x80_0000 <= m < 0x100_0000,
        e > 1,
        4 * b < pow2(e),
    ensures
        near(m * pow2(e) + b, 1) == m * pow2(e),
        near((m * pow2(e) - b) as nat, 1) == m * pow2(e),
        b < m * pow2(e),
{
    let p = pow2(e);
    let whole = m * p;
    assert(whole >= p) by (nonlinear_arith)
        requires
            whole == m * p,
            m >= 1,
    ;
    step_within(m, e, b);
    assert((whole + b) / 1 == whole + b);
    vstd::arithmetic::div_mod::lemma_fundamental_div_mod_converse(
        (whole + b) as int,
        p as int,
        m as int,
        b as int,
    );
    let less = (whole - b) as nat;
    assert(less / 1 == less);
    if b == 0 {
        assert(less == whole);
        near_itself(m, e);
    } else if m == 0x80_0000 {
        vstd::arithmetic::power2::lemma_pow2_unfold(e);
        let h = pow2((e - 1) as nat);
        let rest = (h - b) as nat;
        assert(less == 0xff_ffff * h + rest) by (nonlinear_arith)
            requires
                less == 0x80_0000 * (2 * h) - b,
                rest == h - b,
        ;
        step_within(0xff_ffff, (e - 1) as nat, rest);
        vstd::arithmetic::div_mod::lemma_fundamental_div_mod_converse(
            less as int,
            h as int,
            0xff_ffff,
            rest as int,
        );
        assert(nearest_even(less, h) == 0x100_0000);
        assert(1 * h == h);
        assert(0x100_0000 * h == 0x80_0000 * (2 * h)) by (nonlinear_arith);
    } else {
        let lower = (m - 1) as nat;
        let rest = (p - b) as nat;
        assert(less == lower * p + rest) by (nonlinear_arith)
            requires
                less == m * p - b,
                lower == m - 1,
                rest == p - b,
        ;
        step_within(lower, e, rest);
        vstd::arithmetic::div_mod::lemma_fundamental_div_mod_converse(
            less as int,
            p as int,
            lower as int,
            rest as int,
        );
        assert(nearest_even(less, p) == m);
        assert(1 * p == p);
    }
    assert(1 * p == p);
}

impl Single {
    pub fn plus(self, other: Single) -> (r: Single)
        requires
            self.fit(),
            other.fit(),
        ensures
            r.wf(),
            r.e <= self.e + other.e + 129,
            r@ == sum(self@, other@),
    {
        if self.e < other.e {
            other.plus_lower(self)
        } else {
            self.plus_lower(other)
        }
    }

    fn plus_lower(self, low: Single) -> (r: Single)
        requires
            self.fit(),
            low.fit(),
            self.e >= low.e,
        ensures
            r.wf(),
            r.e <= self.e + low.e + 129,
            r@ == sum(self@, low@),
    {
        let d: u64 = self.e - low.e;
        if d > 64 {
            proof {
                far_below(self, low);
                absorbed(self.m as nat, self.e as nat, low@);
            }
            return self;
        }
        let n: u128 = self.shifted(d) + low.m as u128;
        proof {
            let p = pow2(low.e as nat);
            in_powers(self.m as nat, d as nat, low.e as nat);
            let top = self.m as nat * pow2(d as nat);
            assert(n as nat * p == top * p + low.m as nat * p) by (nonlinear_arith)
                requires
                    n == top + low.m,
            ;
            assert(n as nat / 1 == n);
            if self.e > 0 {
                vstd::arithmetic::power2::lemma_pow2_pos(d as nat);
                assert(top >= self.m) by (nonlinear_arith)
                    requires
                        top == self.m as nat * pow2(d as nat),
                        pow2(d as nat) >= 1,
                ;
            }
        }
        made(n, 1, low.e)
    }

    /// The digits, `d` times doubled.
    fn shifted(self, d: u64) -> (n: u128)
        requires
            self.wf(),
            d <= 64,
        ensures
            n == self.m as nat * pow2(d as nat),
            n <= 0x100_0000_0000_0000_0000_0000,
    {
        let p: u128 = two_to(d);
        proof {
            vstd::arithmetic::power2::lemma2_to64();
            if d < 64 {
                vstd::arithmetic::power2::lemma_pow2_strictly_increases(d as nat, 64);
            }
            assert(self.m * p <= 0x100_0000 * 0x1_0000_0000_0000_0000) by (nonlinear_arith)
                requires
                    self.m < 0x100_0000,
                    p <= 0x1_0000_0000_0000_0000,
            ;
        }
        self.m as u128 * p
    }

    pub fn minus(self, other: Single) -> (r: Single)
        requires
            self.fit(),
            other.fit(),
            other@ <= self@,
        ensures
            r.wf(),
            r.e <= self.e + other.e + 129,
            r@ == difference(self@, other@),
    {
        proof {
            order(self, other);
        }
        let d: u64 = self.e - other.e;
        if d > 64 {
            proof {
                far_below(self, other);
                absorbed(self.m as nat, self.e as nat, other@);
            }
            return self;
        }
        let top: u128 = self.shifted(d);
        proof {
            let p = pow2(other.e as nat);
            in_powers(self.m as nat, d as nat, other.e as nat);
            vstd::arithmetic::power2::lemma_pow2_pos(other.e as nat);
            assert(other.m <= top) by (nonlinear_arith)
                requires
                    other.m * p <= top * p,
                    p > 0,
            ;
        }
        let n: u128 = top - other.m as u128;
        proof {
            let p = pow2(other.e as nat);
            assert(n as nat * p == top as nat * p - other.m as nat * p) by (nonlinear_arith)
                requires
                    n == top - other.m,
            ;
            assert(n as nat / 1 == n);
        }
        if n < DIGITS as u128 {
            exact(n as u32, other.e)
        } else {
            made(n, 1, other.e)
        }
    }

    /// How many times `other` goes into this.
    pub fn over(self, other: Single) -> (r: Single)
        requires
            self.fit(),
            other.fit(),
            0 < other@,
        ensures
            r.wf(),
            r.e <= self.e + other.e + 300,
            r@ == quotient(self@, other@),
    {
        let ghost (p, q) = (pow2(self.e as nat), pow2(other.e as nat));
        proof {
            vstd::arithmetic::power2::lemma_pow2_pos(self.e as nat);
            vstd::arithmetic::power2::lemma_pow2_pos(other.e as nat);
            assert(other.m > 0) by (nonlinear_arith)
                requires
                    other.m * q > 0,
                    other.m >= 0,
            ;
        }
        if self.m == 0 {
            proof {
                assert(0 * p == 0 && 0 * one() == 0);
                nothing_near(other@);
            }
            return zero();
        }
        let n: u128 = self.shifted(64);
        let d: u128 = other.m as u128;
        let ghost whole = self@ * one();
        proof {
            vstd::arithmetic::power2::lemma2_to64();
            // Seen as digits: (m 2^64) 2^(e + 85) over (m' 2^e').
            in_powers(self.m as nat, self.e as nat, 149);
            in_powers(self.m as nat, 64, (self.e + 85) as nat);
            assert(whole == n as nat * pow2((self.e + 85) as nat));
            assert(n as nat / d as nat >= 0x80_0000) by {
                vstd::arithmetic::div_mod::lemma_div_is_ordered(0x80_0000 * d as int, n as int, d as int);
                vstd::arithmetic::div_mod::lemma_fundamental_div_mod_converse(
                    0x80_0000 * d as int,
                    d as int,
                    0x80_0000,
                    0,
                );
            }
        }
        if self.e + 85 >= other.e {
            let k: u64 = self.e + 85 - other.e;
            proof {
                in_powers(n as nat, k as nat, other.e as nat);
                let top = n as nat * pow2(k as nat);
                near_same(top, d as nat, q);
                assert(q * top == whole && q * (d as nat) == other@) by (nonlinear_arith)
                    requires
                        whole == top * q,
                        other@ == d as nat * q,
                ;
            }
            return made(n, d, k);
        }
        let j: u64 = other.e - self.e - 85;
        proof {
            let c = pow2((self.e + 85) as nat);
            vstd::arithmetic::power2::lemma_pow2_pos((self.e + 85) as nat);
            vstd::arithmetic::power2::lemma_pow2_pos(j as nat);
            in_powers(d as nat, j as nat, (self.e + 85) as nat);
            let low = d as nat * pow2(j as nat);
            assert(low > 0) by (nonlinear_arith)
                requires
                    low == d as nat * pow2(j as nat),
                    d > 0,
                    pow2(j as nat) > 0,
            ;
            near_same(n as nat, low, c);
            assert(c * (n as nat) == whole && c * low == other@) by (nonlinear_arith)
                requires
                    whole == n as nat * c,
                    other@ == low * c,
            ;
        }
        if j > 90 {
            proof {
                vstd::arithmetic::power2::lemma_pow2_strictly_increases(90, j as nat);
                vstd::arithmetic::power2::lemma_pow2_adds(64, 26);
                let low = d as nat * pow2(j as nat);
                assert(low >= pow2(j as nat)) by (nonlinear_arith)
                    requires
                        low == d as nat * pow2(j as nat),
                        d >= 1,
                ;
                too_small(n as nat, low);
            }
            return zero();
        }
        let p2: u128 = two_to(j);
        proof {
            vstd::arithmetic::power2::lemma_pow2_adds(64, 26);
            if j < 90 {
                vstd::arithmetic::power2::lemma_pow2_strictly_increases(j as nat, 90);
            }
            assert(0 < d * p2 <= 0x100_0000 * 0x400_0000_0000_0000_0000_0000) by (nonlinear_arith)
                requires
                    0 < d < 0x100_0000,
                    0 < p2 <= 0x400_0000_0000_0000_0000_0000,
            ;
            assert(n as nat * 1 == n);
        }
        made(n, d * p2, 0)
    }
}

proof fn far_below(high: Single, low: Single)
    requires
        high.wf(),
        low.wf(),
        high.e > low.e + 64,
    ensures
        4 * low@ < pow2(high.e as nat),
{
    let (p, q) = (pow2(high.e as nat), pow2(low.e as nat));
    let gap = (high.e - low.e) as nat;
    vstd::arithmetic::power2::lemma_pow2_adds(low.e as nat, gap);
    vstd::arithmetic::power2::lemma_pow2_pos(low.e as nat);
    vstd::arithmetic::power2::lemma_pow2_strictly_increases(64, gap);
    vstd::arithmetic::power2::lemma2_to64();
    let t = pow2(gap);
    assert(4 * (low.m * q) < p) by (nonlinear_arith)
        requires
            p == q * t,
            t > 0x1_0000_0000_0000_0000,
            low.m < 0x100_0000,
            q > 0,
    ;
}

/// A channel of a colour: the nearest whole number, halves up, and no more
/// than full.
pub open spec fn channel(x: nat) -> u8 {
    let n = nearest_whole(x);
    if n > 255 {
        255
    } else {
        n as u8
    }
}

/// A channel of a colour, as a number.
pub open spec fn of_channel(value: u8) -> nat {
    value as nat * one()
}

/// The whole number nearest, halves up.
pub open spec fn nearest_whole(x: nat) -> nat {
    (2 * x + one()) / (2 * one())
}

/// A whole number, as near as 24 digits have it.
pub open spec fn floated(n: nat) -> nat {
    near(n * one(), 1)
}

impl Single {
    /// The whole number nearest, as far as there is room for it.
    pub fn nearest_whole(self) -> (r: u64)
        requires
            self.wf(),
        ensures
            r == (if nearest_whole(self@) <= u64::MAX {
                nearest_whole(self@)
            } else {
                u64::MAX as nat
            }),
    {
        let ghost p = pow2(self.e as nat);
        proof {
            vstd::arithmetic::power2::lemma_pow2_pos(self.e as nat);
            vstd::arithmetic::power2::lemma_pow2_pos(149);
        }
        if self.e >= 149 {
            let k: u64 = self.e - 149;
            proof {
                vstd::arithmetic::power2::lemma_pow2_adds(k as nat, 149);
                let t = pow2(k as nat);
                vstd::arithmetic::power2::lemma_pow2_pos(k as nat);
                let n = self.m as nat * t;
                assert(self@ == n * one()) by (nonlinear_arith)
                    requires
                        self@ == self.m as nat * (t * one()),
                        n == self.m as nat * t,
                ;
                channel_whole(n);
                if k > 64 {
                    vstd::arithmetic::power2::lemma_pow2_strictly_increases(64, k as nat);
                    vstd::arithmetic::power2::lemma2_to64();
                    assert(n > u64::MAX) by (nonlinear_arith)
                        requires
                            n == self.m as nat * t,
                            t > u64::MAX,
                            self.m >= 1,
                    ;
                }
            }
            if k > 64 {
                return u64::MAX;
            }
            let n: u128 = self.shifted(k);
            return if n > u64::MAX as u128 {
                u64::MAX
            } else {
                n as u64
            };
        }
        let j: u64 = 149 - self.e;
        proof {
            vstd::arithmetic::power2::lemma_pow2_adds(self.e as nat, j as nat);
            vstd::arithmetic::power2::lemma_pow2_pos(j as nat);
            let t = pow2(j as nat);
            let m = self.m as nat;
            assert(2 * (m * p) + p * t == p * (2 * m + t) && 2 * (p * t) == p * (2 * t))
                by (nonlinear_arith);
            even_scaled(2 * m + t, 2 * t, p);
        }
        if j > 40 {
            proof {
                let t = pow2(j as nat);
                vstd::arithmetic::power2::lemma2_to64();
                vstd::arithmetic::power2::lemma2_to64_rest();
                vstd::arithmetic::power2::lemma_pow2_strictly_increases(40, j as nat);
                vstd::arithmetic::div_mod::lemma_fundamental_div_mod_converse(
                    2 * self.m + t,
                    2 * t as int,
                    0,
                    2 * self.m + t,
                );
            }
            return 0;
        }
        let t: u128 = two_to(j);
        let n: u128 = (2 * self.m as u128 + t) / (2 * t);
        assert(n <= 0x200_0000) by (nonlinear_arith)
            requires
                n == (2 * self.m as u128 + t) / (2 * t),
                t >= 1,
                self.m < 0x100_0000,
        ;
        n as u64
    }

    /// The channel this is nearest.
    pub fn channel(self) -> (r: u8)
        requires
            self.wf(),
        ensures
            r == channel(self@),
    {
        let n: u64 = self.nearest_whole();
        if n > 255 {
            255
        } else {
            n as u8
        }
    }
}

proof fn channel_whole(n: nat)
    ensures
        nearest_whole(n * one()) == n,
{
    vstd::arithmetic::power2::lemma_pow2_pos(149);
    let u = one() as int;
    assert(2 * (n * u) + u == n * (2 * u) + u) by (nonlinear_arith);
    vstd::arithmetic::div_mod::lemma_fundamental_div_mod_converse(
        2 * (n * u) + u,
        2 * u,
        n as int,
        u,
    );
}

/// A larger number is near no smaller a whole one, and no smaller a channel.
pub proof fn channel_ordered(a: nat, b: nat)
    requires
        a <= b,
    ensures
        channel(a) <= channel(b),
        nearest_whole(a) <= nearest_whole(b),
{
    vstd::arithmetic::power2::lemma_pow2_pos(149);
    vstd::arithmetic::div_mod::lemma_div_is_ordered(
        (2 * a + one()) as int,
        (2 * b + one()) as int,
        2 * one() as int,
    );
}

/// A channel comes back as it was.
pub proof fn channel_back(value: u8)
    ensures
        channel(of_channel(value)) == value,
        near(of_channel(value), 1) == of_channel(value),
{
    channel_whole(value as nat);
    near_itself(value as nat, 149);
}

proof fn step_is_a_power(whole: nat) -> (k: nat)
    ensures
        step(whole) == pow2(k),
    decreases whole,
{
    vstd::arithmetic::power2::lemma2_to64();
    if whole < 0x100_0000 {
        0
    } else {
        let k = step_is_a_power(whole / 2);
        vstd::arithmetic::power2::lemma_pow2_unfold(k + 1);
        k + 1
    }
}

/// What is near is nearest itself.
pub proof fn near_again(n: nat, d: nat)
    requires
        d > 0,
    ensures
        near(near(n, d), 1) == near(n, d),
{
    let gap = step(n / d);
    let k = step_is_a_power(n / d);
    step_facts(n / d);
    vstd::arithmetic::div_mod::lemma_fundamental_div_mod(n as int, d as int);
    vstd::arithmetic::div_mod::lemma_mod_bound(n as int, d as int);
    let w = n / d;
    assert(d * gap > 0) by (nonlinear_arith)
        requires
            d > 0,
            gap > 0,
    ;
    assert(n <= 0x100_0000 * (d * gap)) by (nonlinear_arith)
        requires
            n == d * w + n % d,
            n % d < d,
            w < 0x100_0000 * gap,
            d > 0,
    ;
    even_ordered(n, 0x100_0000 * (d * gap), d * gap);
    even_exact(0x100_0000, d * gap);
    let m = nearest_even(n, d * gap);
    if m < 0x100_0000 {
        near_itself(m, k);
    } else {
        vstd::arithmetic::power2::lemma_pow2_unfold(k + 1);
        near_itself(0x80_0000, k + 1);
        assert(0x80_0000 * (2 * gap) == 0x100_0000 * gap) by (nonlinear_arith);
    }
}

/// Larger factors make no smaller a product.
pub proof fn product_ordered(a: nat, b: nat, c: nat, d: nat)
    requires
        a <= c,
        b <= d,
    ensures
        product(a, b) <= product(c, d),
{
    vstd::arithmetic::power2::lemma_pow2_pos(149);
    assert((a * b) * one() <= (c * d) * one()) by (nonlinear_arith)
        requires
            a <= c,
            b <= d,
            one() > 0,
    {
        assert(a * b <= c * d);
    };
    near_ordered(a * b, one(), c * d, one());
}

/// One times a number is the number, and none of it is nothing.
pub proof fn product_one(a: nat)
    requires
        near(a, 1) == a,
    ensures
        product(a, one()) == a,
        product(one(), a) == a,
        product(a, 0) == 0,
        product(0, a) == 0,
{
    vstd::arithmetic::power2::lemma_pow2_pos(149);
    near_same(a, 1, one());
    nothing_near(one());
    assert(one() * a == a * one()) by (nonlinear_arith);
    assert(one() * 1 == one());
    assert(a * 0 == 0 && 0 * a == 0);
}

/// A sum is no less than what it adds to.
pub proof fn sum_at_least(a: nat, b: nat)
    requires
        near(a, 1) == a,
    ensures
        a <= sum(a, b),
        sum(a, 0) == a,
{
    near_ordered(a, 1, a + b, 1);
}

/// A larger whole number is no smaller.
pub proof fn floats_ordered(n: nat, m: nat)
    requires
        n <= m,
    ensures
        floated(n) <= floated(m),
        n < 0x100_0000 ==> floated(n) == n * one(),
{
    assert((n * one()) * 1 <= (m * one()) * 1) by (nonlinear_arith)
        requires
            n <= m,
    ;
    near_ordered(n * one(), 1, m * one(), 1);
    if n < 0x100_0000 {
        near_itself(n, 149);
    }
}

/// A power of two is as it is.
pub proof fn whole_powers(k: nat)
    ensures
        floated(pow2(k)) == pow2(k) * one(),
        nearest_whole(pow2(k) * one()) == pow2(k),
{
    vstd::arithmetic::power2::lemma_pow2_adds(k, 149);
    near_itself(1, k + 149);
    channel_whole(pow2(k));
}

/// `n / d` of a whole number is no more of it, but for what rounding adds: a
/// thousandth, and half a unit.
pub proof fn a_share_of(side: nat, n: nat, d: nat)
    requires
        0 < n <= d <= 0x100_0000,
        side <= 0x8000_0000,
    ensures
        2000 * (d * nearest_whole(product(floated(side), ratio(n, d)))) <= 2002 * (side * n) + 1000
            * d,
        side < 0x100_0000 ==> nearest_whole(product(floated(side), ratio(n, d))) <= side,
{
    let u = one();
    vstd::arithmetic::power2::lemma_pow2_pos(149);
    vstd::arithmetic::power2::lemma_pow2_strictly_increases(64, 149);
    vstd::arithmetic::power2::lemma2_to64();
    let f = floated(side);
    let r = ratio(n, d);
    let x = product(f, r);
    let q = nearest_whole(x);
    if side < 0x100_0000 {
        floats_ordered(side, side);
        near_itself(side, 149);
        assert((n * u) * 1 <= u * d) by (nonlinear_arith)
            requires
                n <= d,
        ;
        near_ordered(n * u, d, u, 1);
        near_itself(1, 149);
        assert(1 * u == u);
        product_ordered(f, r, f, u);
        product_one(f);
        channel_ordered(x, f);
        channel_whole(side);
    }
    if side == 0 {
        assert(0 * u == 0 && 0 * r == 0);
        near_itself(0, 0);
        assert(0 * pow2(0) == 0);
        nothing_near(u);
        channel_whole(0);
        assert(q == 0);
        assert(d * q == 0) by (nonlinear_arith)
            requires
                q == 0,
        ;
    } else {
        let su = side * u;
        assert(su >= u) by (nonlinear_arith)
            requires
                su == side * u,
                side >= 1,
                u > 0,
        ;
        assert(su / 1 == su);
        near_close(su, 1);
        let nu = n * u;
        assert(nu >= u) by (nonlinear_arith)
            requires
                nu == n * u,
                n >= 1,
                u > 0,
        ;
        vstd::arithmetic::div_mod::lemma_div_is_ordered(0x80_0000 * d as int, nu as int, d as int);
        vstd::arithmetic::div_mod::lemma_fundamental_div_mod_converse(
            0x80_0000 * d as int,
            d as int,
            0x80_0000,
            0,
        );
        near_close(nu, d);
        let rd = r * d;
        let fr = f * r;
        floats_ordered(1, side);
        assert(1 * u == u);
        near_ordered(0x80_0000, 1, nu, d);
        near_itself(0x80_0000, 0);
        assert(0x80_0000 * pow2(0) == 0x80_0000);
        // In thousandths: each rounding adds less than a ten-thousandth.
        assert(10_000 * f <= 10_001 * su);
        assert(10_000 * rd <= 10_001 * nu);
        assert(r >= 0x80_0000 && 100_000_000 * (fr * d) <= 100_020_001 * (su * nu)) by (nonlinear_arith)
            requires
                10_000 * f <= 10_001 * su,
                10_000 * rd <= 10_001 * nu,
                rd == r * d,
                fr == f * r,
                r >= 0x80_0000,
        {
            assert((10_000 * f) * (10_000 * rd) <= (10_001 * su) * (10_001 * nu));
            assert((10_000 * f) * (10_000 * rd) == 100_000_000 * (f * rd));
            assert(f * rd == fr * d);
            assert((10_001 * su) * (10_001 * nu) == 100_020_001 * (su * nu));
        };
        assert(fr >= 0x80_0000 * u) by (nonlinear_arith)
            requires
                fr == f * r,
                r >= 0x80_0000,
                f >= u,
        ;
        vstd::arithmetic::div_mod::lemma_div_is_ordered(0x80_0000 * u as int, fr as int, u as int);
        vstd::arithmetic::div_mod::lemma_fundamental_div_mod_converse(
            0x80_0000 * u as int,
            u as int,
            0x80_0000,
            0,
        );
        near_close(fr, u);
        let xu = x * u;
        assert(10_000 * xu <= 10_001 * fr);
        // (2 q) u <= 2 x + u.
        vstd::arithmetic::div_mod::lemma_fundamental_div_mod((2 * x + u) as int, 2 * u as int);
        vstd::arithmetic::div_mod::lemma_mod_bound((2 * x + u) as int, 2 * u as int);
        assert(2 * (u * q) <= 2 * x + u) by (nonlinear_arith)
            requires
                2 * x + u == (2 * u) * q + (2 * x + u) % (2 * u),
                (2 * x + u) % (2 * u) >= 0,
        ;
        let sn = side * n;
        assert(su * nu == (sn * u) * u) by (nonlinear_arith)
            requires
                su == side * u,
                nu == n * u,
                sn == side * n,
        ;
        assert(1000 * (x * d) <= 1001 * (sn * u)) by (nonlinear_arith)
            requires
                10_000 * xu <= 10_001 * fr,
                xu == x * u,
                100_000_000 * (fr * d) <= 100_020_001 * ((sn * u) * u),
                u > 0,
                d > 0,
                sn >= 0,
        {
            assert((10_000 * xu) * d <= (10_001 * fr) * d);
            assert((10_000 * xu) * d == 10_000 * ((x * d) * u));
            assert((10_001 * fr) * d == 10_001 * (fr * d));
            assert(1_000_000_000_000 * ((x * d) * u) <= 1_000_300_030_001 * ((sn * u) * u));
            assert((1_000_000_000_000 * (x * d)) * u <= (1_000_300_030_001 * (sn * u)) * u);
            assert(1_000_000_000_000 * (x * d) <= 1_000_300_030_001 * (sn * u));
            assert(sn * u >= 0);
        };
        let dq = d * q;
        assert(2000 * dq <= 2002 * sn + 1000 * d) by (nonlinear_arith)
            requires
                2 * (u * q) <= 2 * x + u,
                1000 * (x * d) <= 1001 * (sn * u),
                dq == d * q,
                u > 0,
                d > 0,
        {
            assert((2 * (u * q)) * d <= (2 * x + u) * d);
            assert((2 * (u * q)) * d == 2 * (dq * u));
            assert((2 * x + u) * d == 2 * (x * d) + d * u);
            assert(2000 * (dq * u) <= 2002 * (sn * u) + 1000 * (d * u));
            assert((2000 * dq) * u <= (2002 * sn + 1000 * d) * u);
        };
    }
}

} // verus!
