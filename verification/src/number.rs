//! Numbers with a fraction, held as the bits of a double-precision float and
//! reckoned in whole numbers.
//!
//! A finite double is `m * 2^e` for whole `m` and `e`; everything here is
//! said of those two.

use vstd::arithmetic::power::pow;
use vstd::arithmetic::power2::pow2;
use vstd::prelude::*;

use crate::text;

verus! {

/// The bits without the sign.
pub open spec fn magnitude(bits: u64) -> u64 {
    bits % 0x8000_0000_0000_0000
}

pub open spec fn is_negative(bits: u64) -> bool {
    bits >= 0x8000_0000_0000_0000
}

/// The exponent field.
pub open spec fn exponent_field(bits: u64) -> u64 {
    magnitude(bits) / 0x10_0000_0000_0000
}

/// The fraction field.
pub open spec fn fraction_field(bits: u64) -> u64 {
    bits % 0x10_0000_0000_0000
}

/// Whether the bits are those of a number: not an infinity, not a NaN.
pub open spec fn finite(bits: u64) -> bool {
    exponent_field(bits) < 2047
}

/// The whole number `m` of `m * 2^e`.
pub open spec fn significand(bits: u64) -> nat {
    if exponent_field(bits) == 0 {
        fraction_field(bits) as nat
    } else {
        (0x10_0000_0000_0000 + fraction_field(bits)) as nat
    }
}

/// The exponent `e` of `m * 2^e`.
pub open spec fn exponent(bits: u64) -> int {
    if exponent_field(bits) == 0 {
        -1074
    } else {
        exponent_field(bits) - 1075
    }
}

/// `n / d`, to the nearest whole number, halves to the even one.
pub open spec fn nearest_even(n: nat, d: nat) -> nat {
    let q = n / d;
    let r = n % d;
    if 2 * r > d || (2 * r == d && q % 2 == 1) {
        q + 1
    } else {
        q
    }
}

/// `n / d`, to the nearest whole number, halves up.
pub open spec fn nearest(n: int, d: int) -> int {
    (2 * n + d) / (2 * d)
}

/// `2^k`.
pub fn two_to(k: u32) -> (r: u64)
    requires
        k < 64,
    ensures
        r == pow2(k as nat),
{
    let mut r: u64 = 1;
    let mut i: u32 = 0;
    proof {
        vstd::arithmetic::power2::lemma2_to64();
    }
    while i < k
        invariant
            i <= k < 64,
            r == pow2(i as nat),
        decreases k - i,
    {
        proof {
            vstd::arithmetic::power2::lemma_pow2_unfold((i + 1) as nat);
            vstd::arithmetic::power2::lemma2_to64();
            if i < 62 {
                vstd::arithmetic::power2::lemma_pow2_strictly_increases(i as nat, 62);
            }
            vstd::arithmetic::power2::lemma2_to64_rest();
        }
        r = r * 2;
        i = i + 1;
    }
    r
}

pub fn is_finite(bits: u64) -> (r: bool)
    ensures
        r == finite(bits),
{
    bits % 0x8000_0000_0000_0000 / 0x10_0000_0000_0000 < 2047
}

pub fn rounded_even(n: u64, d: u64) -> (r: u64)
    requires
        d > 1,
    ensures
        r == nearest_even(n as nat, d as nat),
{
    let q: u64 = n / d;
    let rest: u64 = n % d;
    let up: bool = rest > d - rest || (rest == d - rest && q % 2 == 1);
    proof {
        assert(q <= n / 2) by (nonlinear_arith)
            requires
                q == n / d,
                d > 1,
        ;
    }
    if up {
        q + 1
    } else {
        q
    }
}

/// The normal double `m * 2^e`, for `m` of 53 bits.
pub open spec fn encode(m: nat, e: int) -> u64 {
    ((e + 1075) * 0x10_0000_0000_0000 + (m - 0x10_0000_0000_0000)) as u64
}

/// The double that is exactly `n * 2^e`, for `n` of at most 53 bits.
pub open spec fn exactly(n: nat, e: int) -> u64
    decreases 0x20_0000_0000_0000 - n,
{
    if n == 0 {
        0
    } else if n < 0x10_0000_0000_0000 {
        exactly(2 * n, e - 1)
    } else {
        encode(n, e)
    }
}

pub fn double_of(n: u64, e: i32) -> (bits: u64)
    requires
        n < 0x20_0000_0000_0000,
        -900 <= e <= 900,
    ensures
        bits == exactly(n as nat, e as int),
        bits < 0x7FF0_0000_0000_0000,
{
    if n == 0 {
        return 0;
    }
    let mut m: u64 = n;
    let mut x: i32 = e;
    let ghost mut k: nat = 0;
    proof {
        vstd::arithmetic::power2::lemma2_to64();
    }
    while m < 0x10_0000_0000_0000
        invariant
            0 < m < 0x20_0000_0000_0000,
            x == e - k,
            k <= 52,
            m >= pow2(k),
            -900 <= e <= 900,
            exactly(m as nat, x as int) == exactly(n as nat, e as int),
        decreases 0x20_0000_0000_0000 - m,
    {
        proof {
            if k == 52 {
                vstd::arithmetic::power2::lemma2_to64_rest();
            }
            vstd::arithmetic::power2::lemma_pow2_unfold(k + 1);
            k = k + 1;
        }
        m = m * 2;
        x = x - 1;
    }
    (x + 1075) as u64 * 0x10_0000_0000_0000 + (m - 0x10_0000_0000_0000)
}

/// How far `n` has to be shifted down to have 53 bits.
pub open spec fn excess_bits(n: nat) -> nat
    decreases n,
{
    if n < 0x20_0000_0000_0000 {
        0
    } else {
        1 + excess_bits(n / 2)
    }
}

/// The double nearest the whole number `n`, halves to the even significand.
pub open spec fn whole(n: u64) -> u64 {
    if n < 0x20_0000_0000_0000 {
        exactly(n as nat, 0)
    } else {
        let s = excess_bits(n as nat);
        let q = nearest_even(n as nat, pow2(s));
        if q == 0x20_0000_0000_0000 {
            encode(0x10_0000_0000_0000, s as int + 1)
        } else {
            encode(q, s as int)
        }
    }
}

pub fn double_of_whole(n: u64) -> (bits: u64)
    ensures
        bits == whole(n),
        bits < 0x7FF0_0000_0000_0000,
{
    if n < 0x20_0000_0000_0000 {
        return double_of(n, 0);
    }
    let mut m: u64 = n;
    let mut s: u32 = 0;
    proof {
        vstd::arithmetic::power2::lemma2_to64();
        vstd::arithmetic::power2::lemma2_to64_rest();
    }
    while m >= 0x20_0000_0000_0000
        invariant
            s <= 11,
            excess_bits(n as nat) == s + excess_bits(m as nat),
            m as nat == n as nat / pow2(s as nat),
            m * pow2(s as nat) <= n,
            n < (m + 1) * pow2(s as nat),
            m >= 0x10_0000_0000_0000,
        decreases m,
    {
        proof {
            let p = pow2(s as nat) as int;
            vstd::arithmetic::power2::lemma_pow2_unfold((s + 1) as nat);
            vstd::arithmetic::power2::lemma_pow2_pos(s as nat);
            vstd::arithmetic::div_mod::lemma_div_denominator(n as int, p, 2);
            let h = m / 2;
            assert(h * (2 * p) <= n && n < (h + 1) * (2 * p)) by (nonlinear_arith)
                requires
                    m * p <= n,
                    n < (m + 1) * p,
                    p > 0,
                    2 * h <= m <= 2 * h + 1,
            ;
            if s == 11 {
                vstd::arithmetic::power2::lemma2_to64();
                assert(m * p > u64::MAX) by (nonlinear_arith)
                    requires
                        m >= 0x20_0000_0000_0000,
                        p == 2048,
                ;
            }
        }
        m = m / 2;
        s = s + 1;
    }
    proof {
        if s == 0 {
            assert(excess_bits(n as nat) > 0);
        }
        vstd::arithmetic::power2::lemma_pow2_unfold(s as nat);
        vstd::arithmetic::power2::lemma_pow2_pos((s - 1) as nat);
    }
    let d: u64 = two_to(s);
    let q: u64 = rounded_even(n, d);
    if q == 0x20_0000_0000_0000 {
        (s as u64 + 1076) * 0x10_0000_0000_0000
    } else {
        (s as u64 + 1075) * 0x10_0000_0000_0000 + (q - 0x10_0000_0000_0000)
    }
}

/// `n / d` to 53 binary digits, halves to the even one, as a whole number:
/// what a double makes of it, where no finer steps are left to it.
pub open spec fn to_double(n: nat, d: nat) -> nat {
    let gap = pow2(excess_bits(n / d));
    nearest_even(n, d * gap) * gap
}

pub fn double_near(n: u128, d: u128) -> (r: u128)
    requires
        0 < d,
        n <= 0x7fff_ffff_ffff_ffff_ffff_ffff_ffff_ffff,
    ensures
        r == to_double(n as nat, d as nat),
{
    let mut w: u128 = n / d;
    let mut part: u128 = d;
    let mut gap: u128 = 1;
    let ghost whole = n as nat / d as nat;
    let ghost mut k: nat = 0;
    proof {
        vstd::arithmetic::power2::lemma2_to64();
        vstd::arithmetic::div_mod::lemma_fundamental_div_mod(n as int, d as int);
        vstd::arithmetic::div_mod::lemma_mod_bound(n as int, d as int);
        assert(part * w <= n && n < part * (w + 1)) by (nonlinear_arith)
            requires
                n == d * w + n % d,
                0 <= n % d < d,
                part == d,
        ;
        assert(w <= n) by (nonlinear_arith)
            requires
                part * w <= n,
                part >= 1,
                w >= 0,
        ;
    }
    while w >= 0x20_0000_0000_0000
        invariant
            0 < d,
            0 < part,
            part * w <= n,
            n < part * (w + 1),
            gap * w <= 0x7fff_ffff_ffff_ffff_ffff_ffff_ffff_ffff,
            part == d * gap,
            0 < gap,
            gap == pow2(k),
            k + excess_bits(w as nat) == excess_bits(whole),
            w >= 0x10_0000_0000_0000 || gap == 1,
        decreases w,
    {
        proof {
            let half = w / 2;
            vstd::arithmetic::power2::lemma_pow2_unfold(k + 1);
            assert(part * 2 <= n && (part * 2) * half <= n && n < (part * 2) * (half + 1))
                by (nonlinear_arith)
                requires
                    part * w <= n,
                    n < part * (w + 1),
                    w >= 2,
                    2 * half <= w <= 2 * half + 1,
                    part > 0,
            ;
            assert(gap * 2 <= 0x7fff_ffff_ffff_ffff_ffff_ffff_ffff_ffff && (gap * 2) * half
                <= 0x7fff_ffff_ffff_ffff_ffff_ffff_ffff_ffff) by (nonlinear_arith)
                requires
                    gap * w <= 0x7fff_ffff_ffff_ffff_ffff_ffff_ffff_ffff,
                    w >= 2,
                    2 * half <= w,
                    gap > 0,
            ;
            assert(part * 2 == d * (gap * 2)) by (nonlinear_arith)
                requires
                    part == d * gap,
            ;
            k = k + 1;
        }
        w = w / 2;
        part = part * 2;
        gap = gap * 2;
    }
    let q: u128 = n / part;
    let rest: u128 = n % part;
    let up: bool = rest > part - rest || (rest == part - rest && q % 2 == 1);
    proof {
        assert(n == w * part + (n - part * w) && n - part * w < part) by (nonlinear_arith)
            requires
                n < part * (w + 1),
        ;
        vstd::arithmetic::div_mod::lemma_fundamental_div_mod_converse(
            n as int,
            part as int,
            w as int,
            n - part * w,
        );
        assert(q == w);
        assert((w + 1) * gap <= 0xffff_ffff_ffff_ffff_ffff_ffff_ffff_ffff) by (nonlinear_arith)
            requires
                gap * w <= 0x7fff_ffff_ffff_ffff_ffff_ffff_ffff_ffff,
                w >= 1 || gap == 1,
                gap > 0,
                w >= 0,
        ;
        assert(w * gap <= (w + 1) * gap) by (nonlinear_arith)
            requires
                gap > 0,
        ;
        assert(excess_bits(w as nat) == 0);
    }
    if up {
        (q + 1) * gap
    } else {
        q * gap
    }
}

/// The single-precision number nearest a double — halves to the even one —
/// as a double; an infinity where it is out of single precision's range.
pub open spec fn single(bits: u64) -> u64 {
    let sign = if is_negative(bits) {
        0x8000_0000_0000_0000int
    } else {
        0
    };
    let field = exponent_field(bits);
    if field >= 897 {
        let kept = nearest_even(magnitude(bits) as nat, 0x2000_0000) * 0x2000_0000;
        (sign + if kept >= 0x47F0_0000_0000_0000 {
            0x7FF0_0000_0000_0000
        } else {
            kept as int
        }) as u64
    } else if field <= 872 {
        sign as u64
    } else {
        // Below the normal singles: a whole number of the smallest step.
        (sign + exactly(nearest_even(significand(bits), pow2((926 - field) as nat)), -149)) as u64
    }
}

pub fn single_of(bits: u64) -> (r: u64)
    ensures
        r == single(bits),
{
    let sign: u64 = if bits >= 0x8000_0000_0000_0000 { 0x8000_0000_0000_0000 } else { 0 };
    let mag: u64 = bits % 0x8000_0000_0000_0000;
    let field: u64 = mag / 0x10_0000_0000_0000;
    if field >= 897 {
        let q: u64 = rounded_even(mag, 0x2000_0000);
        assert(q <= 0x4_0000_0000);
        let kept: u64 = q * 0x2000_0000;
        sign + if kept >= 0x47F0_0000_0000_0000 { 0x7FF0_0000_0000_0000 } else { kept }
    } else if field <= 872 {
        sign
    } else {
        let fraction: u64 = bits % 0x10_0000_0000_0000;
        proof {
            vstd::arithmetic::power2::lemma2_to64();
            vstd::arithmetic::power2::lemma_pow2_strictly_increases(29, (926 - field) as nat);
            vstd::arithmetic::power2::lemma2_to64_rest();
        }
        let d: u64 = two_to((926 - field) as u32);
        let m: u64 = 0x10_0000_0000_0000 + fraction;
        let q: u64 = rounded_even(m, d);
        proof {
            assert(m / d <= m / 0x2000_0000) by (nonlinear_arith)
                requires
                    d >= 0x2000_0000,
            ;
            assert(q <= 0x100_0000);
        }
        sign + double_of(q, -149)
    }
}

/// What decimal digits, the units first, add up to.
pub open spec fn value(digits: Seq<u8>) -> nat
    decreases digits.len(),
{
    if digits.len() == 0 {
        0
    } else {
        digits[0] as nat + 10 * value(digits.skip(1))
    }
}

pub open spec fn are_digits(digits: Seq<u8>) -> bool {
    forall|i: int| 0 <= i < digits.len() ==> (#[trigger] digits[i]) < 10
}

proof fn value_push(digits: Seq<u8>, last: u8)
    ensures
        value(digits.push(last)) == value(digits) + pow(10, digits.len()) * last,
    decreases digits.len(),
{
    reveal(pow);
    if digits.len() == 0 {
        assert(digits.push(last).skip(1) =~= Seq::<u8>::empty());
        assert(value(digits.push(last).skip(1)) == 0);
    } else {
        value_push(digits.skip(1), last);
        assert(digits.push(last).skip(1) =~= digits.skip(1).push(last));
        let p = pow(10, (digits.len() - 1) as nat);
        assert(pow(10, digits.len()) == 10 * p);
        assert(10 * (p * last) == (10 * p) * last) by (nonlinear_arith);
    }
}

/// `digits` times `k`.
fn times(digits: &Vec<u8>, k: u64) -> (out: Vec<u8>)
    requires
        are_digits(digits@),
        k <= 10,
    ensures
        are_digits(out@),
        value(out@) == k * value(digits@),
        out@.len() == digits@.len() + 1,
{
    let mut out: Vec<u8> = Vec::new();
    let mut carry: u64 = 0;
    let mut i: usize = 0;
    assert(digits@.skip(0) =~= digits@);
    proof {
        reveal(pow);
        vstd::arithmetic::power::lemma_pow0(10);
    }
    while i < digits.len()
        invariant
            i <= digits@.len(),
            i == out@.len(),
            k <= 10,
            carry < 10,
            are_digits(digits@),
            are_digits(out@),
            value(out@) + pow(10, i as nat) * (k * value(digits@.skip(i as int)) + carry) == k * value(
                digits@,
            ),
        decreases digits@.len() - i,
    {
        let digit: u64 = digits[i] as u64;
        assert(k * digit <= 90) by (nonlinear_arith)
            requires
                k <= 10,
                digit < 10,
        ;
        let total: u64 = k * digit + carry;
        let low: u8 = (total % 10) as u8;
        proof {
            let rest = digits@.skip(i as int);
            let p = pow(10, i as nat);
            assert(rest.skip(1) =~= digits@.skip(i + 1));
            assert(rest[0] == digits@[i as int]);
            value_push(out@, low);
            reveal(pow);
            assert(pow(10, (i + 1) as nat) == 10 * p);
            let v = value(rest.skip(1)) as int;
            let d = digits@[i as int] as int;
            let c2 = (total / 10) as int;
            assert(p * (k * (d + 10 * v) + carry) == p * low + (10 * p) * (k * v + c2))
                by (nonlinear_arith)
                requires
                    k * d + carry == low + 10 * c2,
            ;
        }
        out.push(low);
        carry = total / 10;
        i = i + 1;
    }
    assert(value(digits@.skip(i as int)) == 0);
    assert(k * value(digits@.skip(i as int)) == 0) by (nonlinear_arith)
        requires
            value(digits@.skip(i as int)) == 0,
    ;
    proof {
        value_push(out@, carry as u8);
    }
    out.push(carry as u8);
    out
}

/// The digits of `n`, the units first.
fn digits_of(n: u64) -> (out: Vec<u8>)
    ensures
        are_digits(out@),
        value(out@) == n,
{
    let mut out: Vec<u8> = Vec::new();
    let mut rest: u64 = n;
    proof {
        vstd::arithmetic::power::lemma_pow0(10);
    }
    while rest > 0
        invariant
            are_digits(out@),
            value(out@) + pow(10, out@.len()) * rest == n,
        decreases rest,
    {
        let low: u8 = (rest % 10) as u8;
        proof {
            let p = pow(10, out@.len());
            value_push(out@, low);
            reveal(pow);
            assert(p * rest == p * low + (10 * p) * (rest / 10)) by (nonlinear_arith)
                requires
                    rest == low + 10 * (rest / 10),
            ;
        }
        out.push(low);
        rest = rest / 10;
    }
    out
}

/// `n`, with a point before its last `places` digits.
pub open spec fn pointed(n: nat, places: nat) -> Seq<char>
    decreases places,
{
    if places == 0 {
        text::decimal(n).push('.')
    } else {
        pointed(n / 10, (places - 1) as nat).push(text::digit(n % 10))
    }
}

/// A double written down exactly: as many decimals as its exponent takes, and
/// one at least.
pub open spec fn exact_decimal(bits: u64) -> Seq<char> {
    let sign = if is_negative(bits) {
        seq!['-']
    } else {
        seq![]
    };
    let m = significand(bits);
    let e = exponent(bits);
    sign + if e >= 0 {
        pointed(10 * (m * pow2(e as nat)), 1)
    } else {
        pointed((m * pow(5, (-e) as nat)) as nat, (-e) as nat)
    }
}

/// The digits from `at` up, as they are written.
fn whole_text(digits: &Vec<u8>, at: usize) -> (r: String)
    requires
        at < digits@.len(),
        are_digits(digits@),
        at + 1 == digits@.len() || digits@.last() > 0,
    ensures
        r@ == text::decimal(value(digits@.skip(at as int))),
    decreases digits@.len() - at,
{
    let ghost here = digits@.skip(at as int);
    assert(here.skip(1) =~= digits@.skip(at + 1));
    if at == digits.len() - 1 {
        assert(value(here.skip(1)) == 0);
        text::number(digits[at] as u64)
    } else {
        let mut r = whole_text(digits, at + 1);
        proof {
            at_least_one(digits@.skip(at + 1));
        }
        r.push(text::digit_char(digits[at] as u64));
        r
    }
}

proof fn at_least_one(digits: Seq<u8>)
    requires
        digits.len() > 0,
        digits.last() > 0,
    ensures
        value(digits) > 0,
    decreases digits.len(),
{
    if digits.len() > 1 {
        at_least_one(digits.skip(1));
    }
}

fn pointed_text(digits: &Vec<u8>, at: usize, places: usize) -> (r: String)
    requires
        at + places < digits@.len(),
        are_digits(digits@),
        at + places + 1 == digits@.len() || digits@.last() > 0,
    ensures
        r@ == pointed(value(digits@.skip(at as int)), places as nat),
    decreases places,
{
    if places == 0 {
        let mut r = whole_text(digits, at);
        r.push('.');
        r
    } else {
        assert(digits@.skip(at as int).skip(1) =~= digits@.skip(at + 1));
        let _size: usize = digits.len();
        let mut r = pointed_text(digits, at + 1, places - 1);
        r.push(text::digit_char(digits[at] as u64));
        r
    }
}

/// A finite double, written down exactly.
pub fn exact_text(bits: u64) -> (r: String)
    requires
        finite(bits),
    ensures
        r@ == exact_decimal(bits),
{
    let mag: u64 = bits % 0x8000_0000_0000_0000;
    let field: u64 = mag / 0x10_0000_0000_0000;
    let fraction: u64 = bits % 0x10_0000_0000_0000;
    let m: u64 = if field == 0 { fraction } else { 0x10_0000_0000_0000 + fraction };
    let e: i64 = if field == 0 { -1074 } else { field as i64 - 1075 };
    let mut digits = digits_of(m);
    let places: usize = if e >= 0 { 1 } else { (-e) as usize };
    proof {
        vstd::arithmetic::power2::lemma2_to64();
        vstd::arithmetic::power::lemma_pow0(5);
    }
    if e >= 0 {
        let mut i: i64 = 0;
        assert(m * pow2(0) == m) by (nonlinear_arith)
            requires
                pow2(0) == 1,
        ;
        while i < e
            invariant
                0 <= i <= e,
                are_digits(digits@),
                value(digits@) == m * pow2(i as nat),
            decreases e - i,
        {
            digits = times(&digits, 2);
            proof {
                vstd::arithmetic::power2::lemma_pow2_unfold((i + 1) as nat);
                let p = pow2(i as nat) as int;
                assert(2 * (m * p) == m * (2 * p)) by (nonlinear_arith);
            }
            i = i + 1;
        }
        digits = times(&digits, 10);
    } else {
        let mut i: i64 = 0;
        while i < -e
            invariant
                -1074 <= e < 0,
                0 <= i <= -e,
                are_digits(digits@),
                value(digits@) == m * pow(5, i as nat),
            decreases -e - i,
        {
            digits = times(&digits, 5);
            proof {
                reveal(pow);
                let p = pow(5, i as nat);
                assert(5 * (m * p) == m * (5 * p)) by (nonlinear_arith);
            }
            i = i + 1;
        }
    }
    let ghost n = value(digits@);
    // Room for a digit before the point, and no more noughts there than one.
    while digits.len() < places + 1
        invariant
            places <= 1074,
            are_digits(digits@),
            value(digits@) == n,
        decreases places + 1 - digits@.len(),
    {
        proof {
            value_push(digits@, 0);
        }
        digits.push(0);
    }
    while digits.len() > places + 1 && digits[digits.len() - 1] == 0
        invariant
            places <= 1074,
            digits@.len() >= places + 1,
            are_digits(digits@),
            value(digits@) == n,
        decreases digits@.len(),
    {
        proof {
            value_push(digits@.drop_last(), 0);
            assert(digits@ =~= digits@.drop_last().push(0));
        }
        digits.pop();
    }
    let body = pointed_text(&digits, 0, places);
    assert(digits@.skip(0) =~= digits@);
    let mut r = String::new();
    if bits >= 0x8000_0000_0000_0000 {
        r.push('-');
    }
    assert(r@ =~= if is_negative(bits) { seq!['-'] } else { seq![] });
    r.push_str(body.as_str());
    r
}

/// How far `n` has to be shifted up to have 53 bits.
pub proof fn room_for(n: nat) -> (k: nat)
    requires
        0 < n < 0x20_0000_0000_0000,
    ensures
        k <= 52,
        0x10_0000_0000_0000 <= n * pow2(k) < 0x20_0000_0000_0000,
    decreases 0x20_0000_0000_0000 - n,
{
    vstd::arithmetic::power2::lemma2_to64();
    vstd::arithmetic::power2::lemma2_to64_rest();
    if n >= 0x10_0000_0000_0000 {
        assert(n * pow2(0) == n) by (nonlinear_arith)
            requires
                pow2(0) == 1,
        ;
        0
    } else {
        let k = room_for(2 * n);
        vstd::arithmetic::power2::lemma_pow2_unfold(k + 1);
        let p = pow2(k);
        assert(n * (2 * p) == (2 * n) * p) by (nonlinear_arith);
        if k == 52 {
            assert((2 * n) * p >= 0x20_0000_0000_0000) by (nonlinear_arith)
                requires
                    n >= 1,
                    p == 0x10_0000_0000_0000,
            ;
        }
        k + 1
    }
}

/// The double that is exactly `n * 2^e` has the significand and the exponent
/// that say so.
pub proof fn exactly_says(n: nat, e: int, k: nat)
    requires
        0x10_0000_0000_0000 <= n * pow2(k) < 0x20_0000_0000_0000,
        0 < n < 0x20_0000_0000_0000,
        -1074 < e - k,
        e <= 900,
    ensures
        finite(exactly(n, e)),
        !is_negative(exactly(n, e)),
        exponent(exactly(n, e)) == e - k,
        significand(exactly(n, e)) == n * pow2(k),
    decreases k,
{
    vstd::arithmetic::power2::lemma2_to64();
    if k == 0 {
        assert(n * pow2(0) == n) by (nonlinear_arith)
            requires
                pow2(0) == 1,
        ;
    } else {
        vstd::arithmetic::power2::lemma_pow2_unfold(k);
        let p = pow2((k - 1) as nat);
        vstd::arithmetic::power2::lemma_pow2_pos((k - 1) as nat);
        assert(n * (2 * p) == (2 * n) * p) by (nonlinear_arith);
        assert(n < 0x10_0000_0000_0000) by (nonlinear_arith)
            requires
                n * (2 * p) < 0x20_0000_0000_0000,
                p >= 1,
        ;
        exactly_says(2 * n, e - 1, (k - 1) as nat);
    }
}

/// A whole number as a double has it is at most a thousandth off.
pub proof fn double_bounds(n: nat)
    ensures
        1024 * to_double(n, 1) <= 1025 * n,
        n > 0 ==> to_double(n, 1) > 0,
{
    let k = excess_bits(n);
    let gap = pow2(k);
    assert(n / 1 == n);
    excess_fits(n);
    vstd::arithmetic::power2::lemma_pow2_pos(k);
    assert(1 * gap == gap);
    vstd::arithmetic::div_mod::lemma_fundamental_div_mod(n as int, gap as int);
    vstd::arithmetic::div_mod::lemma_mod_bound(n as int, gap as int);
    let q = n / gap;
    let r = n % gap;
    let m = nearest_even(n, gap);
    vstd::arithmetic::power2::lemma2_to64();
    assert(1024 * (m * gap) <= 1025 * n && (n > 0 ==> m * gap > 0)) by (nonlinear_arith)
        requires
            n == gap * q + r,
            0 <= r < gap,
            gap > 0,
            0x10_0000_0000_0000 * gap <= n || gap == 1,
            m == q || m == q + 1 && 2 * r >= gap,
    {
        if n > 0 {
            assert(q >= 1);
        }
        assert((q + 1) * gap == gap * q + gap);
        assert(q * gap == gap * q);
        if gap == 1 {
            assert(r == 0);
        }
    };
}

pub proof fn excess_fits(n: nat)
    ensures
        0x10_0000_0000_0000 * pow2(excess_bits(n)) <= n || excess_bits(n) == 0,
    decreases n,
{
    vstd::arithmetic::power2::lemma2_to64();
    if n >= 0x20_0000_0000_0000 {
        excess_fits(n / 2);
        vstd::arithmetic::power2::lemma_pow2_unfold(excess_bits(n));
    }
}

/// **Rounding goes to the nearest whole number, and between two to the even**:
/// what is left out is no more than half of one.
pub proof fn rounding_goes_to_the_nearest(n: nat, d: nat)
    requires
        d > 0,
    ensures
        ({
            let q = nearest_even(n, d);
            &&& 2 * (d * q) <= 2 * n + d
            &&& 2 * n <= 2 * (d * q) + d
            &&& 2 * (d * q) == 2 * n + d || 2 * n == 2 * (d * q) + d ==> q % 2 == 0
        }),
{
    let (q, r) = (n / d, n % d);
    vstd::arithmetic::div_mod::lemma_fundamental_div_mod(n as int, d as int);
    assert(d * (q + 1) == d * q + d) by (nonlinear_arith);
}

/// **Half and more goes up**: the whole number nearest to `n / d`.
pub proof fn half_and_more_goes_up(n: int, d: int)
    requires
        d > 0,
    ensures
        2 * (d * nearest(n, d)) <= 2 * n + d < 2 * (d * nearest(n, d)) + 2 * d,
{
    let q = nearest(n, d);
    vstd::arithmetic::div_mod::lemma_fundamental_div_mod(2 * n + d, 2 * d);
    assert((2 * d) * q == 2 * (d * q)) by (nonlinear_arith);
}

/// **A whole number is itself**: of one below 2⁵³ the double is exactly that
/// number, its digits moved up as far as they go.
pub proof fn a_whole_number_is_itself(n: u64) -> (k: nat)
    requires
        0 < n < 0x20_0000_0000_0000,
    ensures
        k <= 52,
        significand(whole(n)) == n * pow2(k),
        exponent(whole(n)) == -(k as int),
        !is_negative(whole(n)),
        whole(0) == 0,
{
    let k = room_for(n as nat);
    exactly_says(n as nat, 0, k);
    k
}

/// **The nearest single keeps the sign and the first 24 digits**: of a number
/// that is neither tiny nor too large for one, the last 29 bits are rounded
/// away, to the nearest and of two to the even.
pub proof fn the_nearest_single_keeps_the_first_digits(bits: u64)
    requires
        exponent_field(bits) >= 897,
        magnitude(bits) < 0x47EF_FFFF_E000_0000,
    ensures
        ({
            let near = single(bits);
            let (was, now) = (magnitude(bits), magnitude(near));
            &&& is_negative(near) == is_negative(bits)
            &&& now % 0x2000_0000 == 0
            &&& now <= was + 0x1000_0000
            &&& was <= now + 0x1000_0000
            &&& now == was + 0x1000_0000 || was == now + 0x1000_0000 ==> now / 0x2000_0000 % 2 == 0
        }),
{
    let was = magnitude(bits) as nat;
    rounding_goes_to_the_nearest(was, 0x2000_0000);
    let q = nearest_even(was, 0x2000_0000);
    assert(q * 0x2000_0000 < 0x47F0_0000_0000_0000);
}

/// **A number with a point reads back**: with so many digits behind the point,
/// and all its digits together, without the point, are the number.
pub proof fn a_number_with_a_point_reads_back(n: nat, places: nat)
    ensures
        ({
            let written = pointed(n, places);
            let at = written.len() - 1 - places;
            &&& 0 < at
            &&& written[at] == '.'
            &&& text::worth(written.take(at) + written.skip(at + 1)) == n
        }),
    decreases places,
{
    let written = pointed(n, places);
    let at = written.len() - 1 - places;
    if places == 0 {
        text::a_number_reads_back(n);
        assert(written.take(at) + written.skip(at + 1) =~= text::decimal(n));
    } else {
        a_number_with_a_point_reads_back(n / 10, (places - 1) as nat);
        let less = pointed(n / 10, (places - 1) as nat);
        let digits = less.take(at) + less.skip(at + 1);
        let all = written.take(at) + written.skip(at + 1);
        assert(all =~= digits.push(text::digit(n % 10)));
        assert(all.drop_last() =~= digits);
        assert(text::digit(n % 10) as u32 == 48 + n % 10);
        assert(n / 10 * 10 + n % 10 == n);
    }
}

} // verus!
