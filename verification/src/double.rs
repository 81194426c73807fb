//! Double-precision numbers that are not negative, as the integers they are.
//!
//! A number is a mantissa of 53 bits times a power of two, and so a multiple of
//! `2^-1074`, the least of them. Every operation gives the exact result, rounded
//! to the nearest number, ties to the even mantissa. There is no largest number.

use crate::math;
use vstd::arithmetic::power2::{lemma_pow2_adds, lemma_pow2_pos, lemma_pow2_unfold, pow2};
use vstd::prelude::*;

verus! {

/// One, as a multiple of the least number.
pub open spec fn one() -> int {
    pow2(1074) as int
}

/// `p / q`, rounded to the nearest integer, ties to the even one.
pub open spec fn half_even(p: int, q: int) -> int {
    let r = p / q;
    let twice = 2 * (p % q);
    if twice < q || (twice == q && r % 2 == 0) {
        r
    } else {
        r + 1
    }
}

/// `p / q` multiples of the least number, rounded to the nearest number: what
/// needs more than 53 bits is rounded on a scale twice as coarse.
pub open spec fn rounded(p: int, q: int) -> int
    decreases p - q,
{
    if q <= 0 || p < 0x20_0000_0000_0000 * q {
        half_even(p, q)
    } else {
        2 * rounded(p, 2 * q)
    }
}

/// An integer as a number.
pub open spec fn of(n: int) -> int {
    rounded(n * one(), 1)
}

pub open spec fn total(a: int, b: int) -> int {
    rounded(a + b, 1)
}

pub open spec fn difference(a: int, b: int) -> int {
    rounded(a - b, 1)
}

pub open spec fn product(a: int, b: int) -> int {
    rounded(a * b, one())
}

pub open spec fn quotient(a: int, b: int) -> int {
    rounded(a * one(), b)
}

/// The root of `p / q`, rounded to the nearest integer.
pub open spec fn nearest_root(p: int, q: int) -> int {
    let r = math::root(p / q);
    if 4 * p > (2 * r + 1) * (2 * r + 1) * q {
        r + 1
    } else {
        r
    }
}

/// The root of `p / q`, rounded to 53 bits.
pub open spec fn rounded_root(p: int, q: int) -> int
    decreases p - q,
{
    if q <= 0 || p < 0x400_0000_0000_0000_0000_0000_0000 * q {
        nearest_root(p, q)
    } else {
        2 * rounded_root(p, 4 * q)
    }
}

pub open spec fn square_root(a: int) -> int {
    rounded_root(a * one(), 1)
}

/// `n`, or the largest machine number where `n` is larger.
pub open spec fn saturated(n: int) -> u64 {
    if n <= u64::MAX {
        n as u64
    } else {
        u64::MAX
    }
}

/// Rounded down to an integer.
pub open spec fn floor(a: int) -> int {
    a / one()
}

/// Rounded up to an integer.
pub open spec fn ceiling(a: int) -> int {
    if a % one() == 0 {
        a / one()
    } else {
        a / one() + 1
    }
}

/// Rounded to the nearest integer, halves up.
pub open spec fn nearest(a: int) -> int {
    (2 * a + one()) / (2 * one())
}

pub proof fn lemma_one()
    ensures
        one() > 0,
{
    lemma_pow2_pos(1074);
}

proof fn lemma_half_even_scaled(p: int, q: int)
    requires
        p >= 0,
        q > 0,
    ensures
        half_even(2 * p, 2 * q) == half_even(p, q),
{
    let (r, s) = (p / q, p % q);
    vstd::arithmetic::div_mod::lemma_fundamental_div_mod(p, q);
    assert(2 * p == r * (2 * q) + 2 * s) by (nonlinear_arith)
        requires
            p == q * r + s,
    ;
    vstd::arithmetic::div_mod::lemma_fundamental_div_mod_converse(2 * p, 2 * q, r, 2 * s);
}

/// Only the ratio counts.
pub proof fn lemma_rounded_scaled(p: int, q: int)
    requires
        p >= 0,
        q > 0,
    ensures
        rounded(2 * p, 2 * q) == rounded(p, q),
    decreases p - q,
{
    if p < 0x20_0000_0000_0000 * q {
        lemma_half_even_scaled(p, q);
    } else {
        lemma_rounded_scaled(p, 2 * q);
    }
}

pub proof fn lemma_rounded_scaled_by(p: int, q: int, k: nat)
    requires
        p >= 0,
        q > 0,
    ensures
        rounded(p * pow2(k), q * pow2(k)) == rounded(p, q),
    decreases k,
{
    if k == 0 {
        vstd::arithmetic::power2::lemma2_to64();
        assert(p * pow2(0) == p && q * pow2(0) == q);
    } else {
        let h = pow2((k - 1) as nat) as int;
        lemma_pow2_unfold(k);
        lemma_pow2_pos((k - 1) as nat);
        lemma_rounded_scaled_by(p, q, (k - 1) as nat);
        assert(p * h >= 0 && q * h > 0) by (nonlinear_arith)
            requires
                p >= 0,
                q > 0,
                h > 0,
        ;
        lemma_rounded_scaled(p * h, q * h);
        assert(p * (2 * h) == 2 * (p * h) && q * (2 * h) == 2 * (q * h)) by (nonlinear_arith);
    }
}

/// What has 53 bits already is rounded alike on every scale.
pub proof fn lemma_rounded_shifted(p: int, q: int, k: nat)
    requires
        q > 0,
        p >= 0x10_0000_0000_0000 * q,
    ensures
        rounded(p * pow2(k), q) == pow2(k) * rounded(p, q),
    decreases k,
{
    vstd::arithmetic::power2::lemma2_to64();
    if k == 0 {
        assert(p * pow2(0) == p);
    } else {
        let h = pow2((k - 1) as nat) as int;
        lemma_pow2_unfold(k);
        lemma_pow2_pos((k - 1) as nat);
        lemma_rounded_shifted(p, q, (k - 1) as nat);
        assert(p * (2 * h) == 2 * (p * h)) by (nonlinear_arith);
        assert(p * h >= p) by (nonlinear_arith)
            requires
                p >= 0,
                h >= 1,
        ;
        lemma_rounded_scaled(p * h, q);
        let r = rounded(p, q);
        assert(2 * (h * r) == (2 * h) * r) by (nonlinear_arith);
    }
}

/// `p / q * 2^e`, rounded.
spec fn scaled(p: int, q: int, e: int) -> int {
    if e >= 0 {
        rounded(p * pow2(e as nat), q)
    } else {
        rounded(p, q * pow2((-e) as nat))
    }
}

proof fn lemma_scaled_up(p: int, q: int, e: int)
    requires
        p >= 0,
        q > 0,
        e > 0,
    ensures
        scaled(2 * p, q, e - 1) == scaled(p, q, e),
{
    let h = pow2((e - 1) as nat) as int;
    lemma_pow2_unfold(e as nat);
    assert(p * (2 * h) == (2 * p) * h) by (nonlinear_arith);
}

proof fn lemma_scaled_down(p: int, q: int, e: int)
    requires
        p >= 0,
        q > 0,
    ensures
        scaled(p, 2 * q, e + 1) == scaled(p, q, e),
{
    vstd::arithmetic::power2::lemma2_to64();
    if e >= 0 {
        let h = pow2(e as nat) as int;
        lemma_pow2_unfold((e + 1) as nat);
        lemma_pow2_pos(e as nat);
        assert(p * (2 * h) == 2 * (p * h)) by (nonlinear_arith);
        assert(p * h >= 0) by (nonlinear_arith)
            requires
                p >= 0,
                h > 0,
        ;
        lemma_rounded_scaled(p * h, q);
    } else {
        let h = pow2((-e - 1) as nat) as int;
        lemma_pow2_unfold((-e) as nat);
        assert(q * (2 * h) == (2 * q) * h) by (nonlinear_arith);
        if e == -1 {
            assert(p * pow2(0) == p);
            assert((2 * q) * pow2(0) == 2 * q);
        }
    }
}

/// Less than half of the least number is nothing.
proof fn lemma_scaled_away(p: int, q: int, e: int)
    requires
        p >= 0,
        q > 2 * p,
        e <= 0,
    ensures
        scaled(p, q, e) == 0,
{
    vstd::arithmetic::power2::lemma2_to64();
    let h = pow2((-e) as nat) as int;
    lemma_pow2_pos((-e) as nat);
    assert(q * h >= q) by (nonlinear_arith)
        requires
            q > 0,
            h >= 1,
    ;
    if e == 0 {
        assert(p * pow2(0) == p);
    }
    let d = if e == 0 {
        q
    } else {
        q * h
    };
    vstd::arithmetic::div_mod::lemma_basic_div(p, d);
    vstd::arithmetic::div_mod::lemma_small_mod(p as nat, d as nat);
}

proof fn lemma_rounded_nothing(q: int)
    requires
        q > 0,
    ensures
        rounded(0, q) == 0,
{
    vstd::arithmetic::div_mod::lemma_div_basics(q);
    vstd::arithmetic::div_mod::lemma_small_mod(0, q as nat);
}

/// What 127 bits hold was not doubled more often.
proof fn lemma_doublings(q: int, k: nat)
    requires
        pow2(k) <= q <= u128::MAX,
    ensures
        k < 128,
{
    if k >= 128 {
        vstd::arithmetic::power2::lemma2_to64();
        lemma_pow2_adds(64, 64);
        lemma_pow2_adds(128, (k - 128) as nat);
        lemma_pow2_pos((k - 128) as nat);
        let (a, b) = (pow2(128) as int, pow2((k - 128) as nat) as int);
        assert(a * b >= a) by (nonlinear_arith)
            requires
                a > 0,
                b >= 1,
        ;
        assert(pow2(128) == 0x1_0000_0000_0000_0000 * 0x1_0000_0000_0000_0000);
    }
}

/// The number `m * 2^e`, as a multiple of the least one. Mantissas have 53 bits
/// but next to zero.
#[derive(Clone, Copy, Debug, PartialEq, Eq)]
pub struct Double {
    pub m: u64,
    pub e: u32,
}

impl Double {
    pub open spec fn value(&self) -> int {
        self.m * pow2(self.e as nat)
    }

    pub open spec fn normal(&self) -> bool {
        self.m < 0x20_0000_0000_0000 && (self.m >= 0x10_0000_0000_0000 || self.e == 0)
    }

    /// One of the numbers of double precision.
    pub open spec fn finite(&self) -> bool {
        self.normal() && self.e <= 2045
    }

    /// A number that is no more than a power of two has no larger exponent.
    pub proof fn lemma_exponent_below(&self, k: nat)
        requires
            self.normal(),
            self.value() <= pow2(k),
        ensures
            self.e <= k,
    {
        if self.e > k {
            let (m, h) = (self.m as int, pow2(self.e as nat) as int);
            vstd::arithmetic::power2::lemma_pow2_strictly_increases(k, self.e as nat);
            assert(h <= m * h) by (nonlinear_arith)
                requires
                    m >= 1,
                    h >= 0,
            ;
        }
    }

    /// What a number is at most, by its exponent.
    pub proof fn lemma_value_below(&self, k: nat)
        requires
            self.normal(),
            self.e + 53 <= k,
        ensures
            0 <= self.value() <= pow2(k),
    {
        let (m, h) = (self.m as int, pow2(self.e as nat) as int);
        let d = (k - self.e - 53) as nat;
        vstd::arithmetic::power2::lemma2_to64_rest();
        lemma_pow2_adds(53, self.e as nat);
        lemma_pow2_adds((53 + self.e) as nat, d);
        lemma_pow2_pos(d);
        lemma_pow2_pos(self.e as nat);
        let (x, y) = (pow2((53 + self.e) as nat) as int, pow2(d) as int);
        assert(0 <= m * h <= 0x20_0000_0000_0000 * h) by (nonlinear_arith)
            requires
                0 <= m <= 0x20_0000_0000_0000,
                h > 0,
        ;
        assert(x <= x * y) by (nonlinear_arith)
            requires
                x >= 0,
                y >= 1,
        ;
    }

    /// A number that is no more than a sum of powers of two has a small exponent.
    pub proof fn lemma_exponent_of_sum(&self, i: int, k: nat)
        requires
            self.normal(),
            0 <= i <= 0x20_0000_0000_0000,
            self.value() <= i * pow2(k),
        ensures
            self.e <= k + 64,
    {
        let h = pow2(k) as int;
        vstd::arithmetic::power2::lemma2_to64();
        lemma_pow2_adds(64, k);
        lemma_pow2_pos(k);
        assert(i * h <= 0x1_0000_0000_0000_0000 * h) by (nonlinear_arith)
            requires
                i <= 0x1_0000_0000_0000_0000,
                h > 0,
        ;
        self.lemma_exponent_below(64 + k);
    }

    pub proof fn lemma_sign(&self)
        ensures
            self.value() >= 0,
            self.value() == 0 <==> self.m == 0,
    {
        let (m, h) = (self.m as int, pow2(self.e as nat) as int);
        lemma_pow2_pos(self.e as nat);
        assert(m * h >= 0 && (m * h == 0 <==> m == 0)) by (nonlinear_arith)
            requires
                m >= 0,
                h > 0,
        ;
    }
}

pub fn zero() -> (d: Double)
    ensures
        d.value() == 0,
        d.finite(),
        d.e == 0,
{
    let d = Double { m: 0, e: 0 };
    proof {
        d.lemma_sign();
    }
    d
}

/// `p / q * 2^e`, rounded.
fn round(p0: u128, q0: u128, e0: i64) -> (d: Double)
    requires
        0 < q0 <= 0x20_0000_0000_0000,
        p0 < 0x40_0000_0000_0000_0000_0000_0000_0000,
        -0x100_0000 <= e0 <= 0x100_0000,
    ensures
        d.normal(),
        d.value() == scaled(p0 as int, q0 as int, e0 as int),
        d.e <= e0 + 128 || (e0 < 0 && d.e <= 128),
{
    let (mut p, mut q, mut e): (u128, u128, i64) = (p0, q0, e0);
    let ghost want = scaled(p0 as int, q0 as int, e0 as int);
    while e > 0 && p > 0 && p < 0x10_0000_0000_0000 * q
        invariant
            0 < q <= 0x20_0000_0000_0000,
            p < 0x40_0000_0000_0000_0000_0000_0000_0000,
            scaled(p as int, q as int, e as int) == want,
            e <= e0 <= 0x100_0000,
            e >= 0 || e == e0,
        decreases e,
    {
        proof {
            lemma_scaled_up(p as int, q as int, e as int);
        }
        p = 2 * p;
        e = e - 1;
    }
    let ghost e1 = e as int;
    if p == 0 {
        proof {
            let h = pow2(e as nat) as int;
            let k = pow2((-e) as nat) as int;
            lemma_pow2_pos((-e) as nat);
            assert(0 * h == 0) by (nonlinear_arith);
            let qi = q as int;
            assert(qi * k > 0) by (nonlinear_arith)
                requires
                    qi > 0,
                    k > 0,
            ;
            lemma_rounded_nothing(q as int);
            lemma_rounded_nothing(q * k);
        }
        return zero();
    }
    let ghost mut steps: nat = 0;
    proof {
        vstd::arithmetic::power2::lemma2_to64();
    }
    while e < 0 || p / 0x20_0000_0000_0000 >= q
        invariant
            0 < p < 0x40_0000_0000_0000_0000_0000_0000_0000,
            0 < q <= 0x100_0000_0000_0000_0000_0000_0000_0000,
            want == scaled(p0 as int, q0 as int, e0 as int),
            scaled(p as int, q as int, e as int) == want,
            -0x100_0000 <= e0 <= 0x100_0000,
            -0x100_0000 <= e == e1 + steps,
            e1 <= e0,
            e <= 0 || p >= 0x10_0000_0000_0000 * q,
            steps < 128,
            q >= pow2(steps),
        decreases 0x200_0000_0000_0000_0000_0000_0000_0000 - q,
    {
        if e < 0 && q > 2 * p {
            proof {
                lemma_scaled_away(p as int, q as int, e as int);
            }
            return zero();
        }
        proof {
            lemma_scaled_down(p as int, q as int, e as int);
            lemma_pow2_unfold(steps + 1);
            lemma_doublings(2 * q as int, steps + 1);
            steps = steps + 1;
        }
        q = 2 * q;
        e = e + 1;
    }
    assert(p < 0x20_0000_0000_0000 * q) by {
        vstd::arithmetic::div_mod::lemma_fundamental_div_mod(p as int, 0x20_0000_0000_0000);
    }
    let r = p / q;
    let twice = 2 * (p % q);
    let up = twice > q || (twice == q && r % 2 == 1);
    proof {
        vstd::arithmetic::div_mod::lemma_fundamental_div_mod(p as int, q as int);
        let (ri, qi, pi) = (r as int, q as int, p as int);
        assert(ri < 0x20_0000_0000_0000) by (nonlinear_arith)
            requires
                qi * ri <= pi < 0x20_0000_0000_0000 * qi,
                qi > 0,
        ;
        if e > 0 {
            assert(ri >= 0x10_0000_0000_0000) by (nonlinear_arith)
                requires
                    pi < qi * ri + qi,
                    pi >= 0x10_0000_0000_0000 * qi,
                    qi > 0,
            ;
            lemma_rounded_shifted(pi, qi, e as nat);
        } else {
            vstd::arithmetic::power2::lemma2_to64();
            let w = pow2(0) as int;
            assert(pi * w == pi) by (nonlinear_arith)
                requires
                    w == 1,
            ;
        }
    }
    let m: u64 = if up {
        r as u64 + 1
    } else {
        r as u64
    };
    proof {
        assert(m == half_even(p as int, q as int));
        let h = pow2(e as nat) as int;
        assert(m * h == h * m) by (nonlinear_arith);
        lemma_pow2_unfold((e + 1) as nat);
        assert(0x20_0000_0000_0000 * h == 0x10_0000_0000_0000 * (2 * h)) by (nonlinear_arith);
        vstd::arithmetic::power2::lemma2_to64();
    }
    if m == 0x20_0000_0000_0000 {
        Double { m: 0x10_0000_0000_0000, e: (e + 1) as u32 }
    } else {
        Double { m, e: e as u32 }
    }
}

proof fn lemma_scaled_ratio(p: int, q: int, a: nat, b: nat)
    requires
        p >= 0,
        q > 0,
    ensures
        scaled(p, q, a - b) == rounded(p * pow2(a), q * pow2(b)),
{
    lemma_pow2_pos(a);
    lemma_pow2_pos(b);
    if a >= b {
        let d = (a - b) as nat;
        let (x, y) = (pow2(d) as int, pow2(b) as int);
        lemma_pow2_pos(d);
        lemma_pow2_adds(d, b);
        assert(p * x >= 0) by (nonlinear_arith)
            requires
                p >= 0,
                x > 0,
        ;
        lemma_rounded_scaled_by(p * x, q, b);
        assert(p * (x * y) == (p * x) * y) by (nonlinear_arith);
    } else {
        let d = (b - a) as nat;
        let (x, y) = (pow2(d) as int, pow2(a) as int);
        lemma_pow2_pos(d);
        lemma_pow2_adds(d, a);
        assert(q * x > 0) by (nonlinear_arith)
            requires
                q > 0,
                x > 0,
        ;
        lemma_rounded_scaled_by(p, q * x, a);
        assert(q * (x * y) == (q * x) * y) by (nonlinear_arith);
    }
}

/// What fills 53 bits on a coarser scale is rounded there.
pub proof fn lemma_rounded_coarse(p: int, q: int, k: nat)
    requires
        q > 0,
        p >= 0x10_0000_0000_0000 * (q * pow2(k)),
    ensures
        rounded(p, q) == pow2(k) * rounded(p, q * pow2(k)),
    decreases k,
{
    vstd::arithmetic::power2::lemma2_to64();
    if k == 0 {
        let w = pow2(0) as int;
        assert(q * w == q) by (nonlinear_arith)
            requires
                w == 1,
        ;
    } else {
        let h = pow2((k - 1) as nat) as int;
        lemma_pow2_unfold(k);
        lemma_pow2_pos((k - 1) as nat);
        assert(q * (2 * h) == (2 * q) * h) by (nonlinear_arith);
        assert((2 * q) * h >= 2 * q) by (nonlinear_arith)
            requires
                q > 0,
                h >= 1,
        ;
        lemma_rounded_coarse(p, 2 * q, (k - 1) as nat);
        let r = rounded(p, (2 * q) * h);
        assert(2 * (h * r) == (2 * h) * r) by (nonlinear_arith);
    }
}

/// Adding or taking away what is far below the last bit changes nothing.
proof fn lemma_absorbs(a: int, b: int, d: nat, e: nat)
    requires
        0x10_0000_0000_0000 <= a < 0x20_0000_0000_0000,
        -0x20_0000_0000_0000 <= b <= 0x20_0000_0000_0000,
        d > 64,
    ensures
        rounded((a * pow2(d) + b) * pow2(e), 1) == a * pow2(d + e),
{
    let (x, y) = (pow2(d) as int, pow2(e) as int);
    let h = pow2((d - 1) as nat) as int;
    let p = a * x + b;
    vstd::arithmetic::power2::lemma2_to64();
    lemma_pow2_adds(64, (d - 65) as nat);
    lemma_pow2_pos((d - 65) as nat);
    let w = pow2((d - 65) as nat) as int;
    assert(0x1_0000_0000_0000_0000 * w >= 0x1_0000_0000_0000_0000) by (nonlinear_arith)
        requires
            w >= 1,
    ;
    lemma_pow2_unfold(d);
    assert(h >= 0x1_0000_0000_0000_0000 && x == 2 * h);
    assert(a * x >= 0x10_0000_0000_0000 * x && a * x <= 0x1f_ffff_ffff_ffff * x)
        by (nonlinear_arith)
        requires
            0x10_0000_0000_0000 <= a <= 0x1f_ffff_ffff_ffff,
            x > 0,
    ;
    lemma_rounded_shifted(p, 1, e);
    assert(rounded(p, 1) == x * a) by {
        if b >= 0 {
            lemma_rounded_coarse(p, 1, d);
            vstd::arithmetic::div_mod::lemma_fundamental_div_mod_converse(p, x, a, b);
        } else if a > 0x10_0000_0000_0000 {
            assert(a * x >= 0x10_0000_0000_0001 * x) by (nonlinear_arith)
                requires
                    a >= 0x10_0000_0000_0001,
                    x > 0,
            ;
            lemma_rounded_coarse(p, 1, d);
            assert((a - 1) * x + (x + b) == p) by (nonlinear_arith)
                requires
                    p == a * x + b,
            ;
            vstd::arithmetic::div_mod::lemma_fundamental_div_mod_converse(p, x, a - 1, x + b);
        } else {
            lemma_rounded_coarse(p, 1, (d - 1) as nat);
            assert(0x1f_ffff_ffff_ffff * h + (h + b) == p);
            vstd::arithmetic::div_mod::lemma_fundamental_div_mod_converse(
                p,
                h,
                0x1f_ffff_ffff_ffff,
                h + b,
            );
            assert(h * 0x20_0000_0000_0000 == x * a);
        }
    }
    lemma_pow2_adds(d, e);
    assert(y * (x * a) == a * (x * y)) by (nonlinear_arith);
}

/// `m * 2^d`.
pub(crate) fn shifted(m: u64, d: u32) -> (r: u128)
    requires
        m <= 0x20_0000_0000_0000,
        d <= 64,
    ensures
        r == m * pow2(d as nat),
        r <= 0x20_0000_0000_0000_0000_0000_0000_0000,
{
    let mut r: u128 = m as u128;
    proof {
        vstd::arithmetic::power2::lemma2_to64();
        let (a, w) = (m as int, pow2(0) as int);
        assert(a * w == a) by (nonlinear_arith)
            requires
                w == 1,
        ;
    }
    for i in 0..d
        invariant
            m <= 0x20_0000_0000_0000,
            d <= 64,
            r == m * pow2(i as nat),
    {
        proof {
            lemma_pow2_unfold((i + 1) as nat);
            let (a, h) = (m as int, pow2(i as nat) as int);
            assert(2 * (a * h) == a * (2 * h)) by (nonlinear_arith);
            lemma_shift_bound(m as int, (i + 1) as nat);
        }
        r = 2 * r;
    }
    proof {
        lemma_shift_bound(m as int, d as nat);
    }
    r
}

proof fn lemma_shift_bound(m: int, d: nat)
    requires
        0 <= m <= 0x20_0000_0000_0000,
        d <= 64,
    ensures
        0 <= m * pow2(d) <= 0x20_0000_0000_0000_0000_0000_0000_0000,
{
    vstd::arithmetic::power2::lemma2_to64();
    lemma_pow2_adds(d, (64 - d) as nat);
    lemma_pow2_pos(d);
    lemma_pow2_pos((64 - d) as nat);
    let (x, y) = (pow2(d) as int, pow2((64 - d) as nat) as int);
    assert(x <= x * y) by (nonlinear_arith)
        requires
            x > 0,
            y >= 1,
    ;
    assert(0 <= m * x <= 0x20_0000_0000_0000 * 0x1_0000_0000_0000_0000) by (nonlinear_arith)
        requires
            0 <= m <= 0x20_0000_0000_0000,
            0 < x <= 0x1_0000_0000_0000_0000,
    ;
}

/// Between numbers with a larger and a smaller exponent, the first is larger.
proof fn lemma_exponent_decides(a: Double, b: Double)
    requires
        a.normal(),
        b.normal(),
        a.e > b.e,
    ensures
        a.value() > b.value(),
{
    let d = (a.e - b.e - 1) as nat;
    let (x, y, h) = (pow2(a.e as nat) as int, pow2(b.e as nat) as int, pow2(d) as int);
    lemma_pow2_pos(b.e as nat);
    lemma_pow2_pos(d);
    lemma_pow2_adds(b.e as nat, (d + 1) as nat);
    lemma_pow2_unfold((d + 1) as nat);
    assert(y * (2 * h) >= 2 * y) by (nonlinear_arith)
        requires
            y > 0,
            h >= 1,
    ;
    let (p, q) = (a.m as int, b.m as int);
    assert(p * x >= 0x20_0000_0000_0000 * y && q * y < 0x20_0000_0000_0000 * y) by (nonlinear_arith)
        requires
            p >= 0x10_0000_0000_0000,
            x >= 2 * y,
            y > 0,
            0 <= q < 0x20_0000_0000_0000,
    ;
}

/// With one exponent the mantissas decide.
proof fn lemma_mantissa_decides(a: Double, b: Double)
    requires
        a.e == b.e,
    ensures
        a.value() >= b.value() <==> a.m >= b.m,
{
    let y = pow2(a.e as nat) as int;
    lemma_pow2_pos(a.e as nat);
    let (p, q) = (a.m as int, b.m as int);
    assert(p * y >= q * y <==> p >= q) by (nonlinear_arith)
        requires
            y > 0,
    ;
}

impl Double {
    /// The number with these bits, where they are those of a number that is not
    /// negative: exponent and mantissa as they are stored.
    pub fn from_bits(bits: u64) -> (d: Option<Double>)
        ensures
            d is Some <==> bits < 0x7ff0_0000_0000_0000,
            d matches Some(x) ==> x.finite() && ({
                let exponent = bits as int / 0x10_0000_0000_0000;
                let mantissa = bits as int % 0x10_0000_0000_0000;
                if exponent == 0 {
                    x.m == mantissa && x.e == 0
                } else {
                    x.m == mantissa + 0x10_0000_0000_0000 && x.e == exponent - 1
                }
            }),
    {
        if bits >= 0x7ff0_0000_0000_0000 {
            return None;
        }
        let exponent = bits / 0x10_0000_0000_0000;
        let mantissa = bits % 0x10_0000_0000_0000;
        if exponent == 0 {
            Some(Double { m: mantissa, e: 0 })
        } else {
            Some(Double { m: mantissa + 0x10_0000_0000_0000, e: (exponent - 1) as u32 })
        }
    }

    /// The bits of a number, as they are stored.
    pub fn to_bits(self) -> (bits: u64)
        requires
            self.finite(),
        ensures
            bits < 0x7ff0_0000_0000_0000,
            self.m < 0x10_0000_0000_0000 ==> bits == self.m,
            self.m >= 0x10_0000_0000_0000 ==> bits == (self.e + 1) * 0x10_0000_0000_0000 + (self.m
                - 0x10_0000_0000_0000),
    {
        if self.m < 0x10_0000_0000_0000 {
            self.m
        } else {
            (self.e as u64 + 1) * 0x10_0000_0000_0000 + (self.m - 0x10_0000_0000_0000)
        }
    }

    /// An integer as a number.
    pub fn from_u64(n: u64) -> (d: Double)
        ensures
            d.value() == of(n as int),
            d.finite(),
            d.e <= 1202,
    {
        proof {
            lemma_scaled_ratio(n as int, 1, 1074, 0);
            vstd::arithmetic::power2::lemma2_to64();
        }
        round(n as u128, 1, 1074)
    }

    pub fn at_least(self, b: Double) -> (r: bool)
        requires
            self.normal(),
            b.normal(),
        ensures
            r == (self.value() >= b.value()),
    {
        proof {
            if self.e > b.e {
                lemma_exponent_decides(self, b);
            } else if self.e < b.e {
                lemma_exponent_decides(b, self);
            } else {
                lemma_mantissa_decides(self, b);
            }
        }
        self.e > b.e || (self.e == b.e && self.m >= b.m)
    }

    pub fn plus(self, b: Double) -> (d: Double)
        requires
            self.normal(),
            b.normal(),
            self.e <= 0x1_0000,
            b.e <= 0x1_0000,
        ensures
            d.normal(),
            d.value() == total(self.value(), b.value()),
            d.e <= self.e + 128 || d.e <= b.e + 128,
    {
        let (x, y) = if self.e >= b.e {
            (self, b)
        } else {
            (b, self)
        };
        let gap = x.e - y.e;
        proof {
            let g = gap as nat;
            let (p, q) = (pow2(g) as int, pow2(y.e as nat) as int);
            let (s, t) = (x.m as int, y.m as int);
            lemma_pow2_adds(g, y.e as nat);
            assert(s * (p * q) + t * q == (s * p + t) * q) by (nonlinear_arith);
            if gap > 64 {
                lemma_absorbs(s, t, g, y.e as nat);
            } else {
                lemma_shift_bound(s, g);
                lemma_scaled_ratio(s * p + t, 1, y.e as nat, 0);
                vstd::arithmetic::power2::lemma2_to64();
            }
        }
        if gap > 64 {
            x
        } else {
            round(shifted(x.m, gap) + y.m as u128, 1, y.e as i64)
        }
    }

    pub fn minus(self, b: Double) -> (d: Double)
        requires
            self.normal(),
            b.normal(),
            self.e <= 0x1_0000,
            self.value() >= b.value(),
        ensures
            d.normal(),
            d.value() == difference(self.value(), b.value()),
            d.e <= self.e + 128,
    {
        proof {
            if self.e < b.e {
                lemma_exponent_decides(b, self);
            }
        }
        let gap = self.e - b.e;
        proof {
            let g = gap as nat;
            let (p, q) = (pow2(g) as int, pow2(b.e as nat) as int);
            let (s, t) = (self.m as int, b.m as int);
            lemma_pow2_adds(g, b.e as nat);
            lemma_pow2_pos(b.e as nat);
            assert(s * (p * q) - t * q == (s * p - t) * q) by (nonlinear_arith);
            if gap > 64 {
                lemma_absorbs(s, -t, g, b.e as nat);
            } else {
                assert(s * p >= t) by (nonlinear_arith)
                    requires
                        (s * p - t) * q >= 0,
                        q > 0,
                ;
                lemma_shift_bound(s, g);
                lemma_scaled_ratio(s * p - t, 1, b.e as nat, 0);
                vstd::arithmetic::power2::lemma2_to64();
            }
        }
        if gap > 64 {
            self
        } else {
            round(shifted(self.m, gap) - b.m as u128, 1, b.e as i64)
        }
    }

    pub fn times(self, b: Double) -> (d: Double)
        requires
            self.normal(),
            b.normal(),
            self.e <= 0x1_0000,
            b.e <= 0x1_0000,
        ensures
            d.normal(),
            d.value() == product(self.value(), b.value()),
            d.e <= self.e + b.e + 128,
    {
        proof {
            let (x, y) = (pow2(self.e as nat) as int, pow2(b.e as nat) as int);
            let (s, t) = (self.m as int, b.m as int);
            lemma_pow2_adds(self.e as nat, b.e as nat);
            assert((s * x) * (t * y) == (s * t) * (x * y)) by (nonlinear_arith);
            assert(0 <= s * t <= 0x20_0000_0000_0000 * 0x20_0000_0000_0000) by (nonlinear_arith)
                requires
                    0 <= s <= 0x20_0000_0000_0000,
                    0 <= t <= 0x20_0000_0000_0000,
            ;
            lemma_scaled_ratio(s * t, 1, (self.e + b.e) as nat, 1074);
        }
        round(self.m as u128 * b.m as u128, 1, self.e as i64 + b.e as i64 - 1074)
    }

    pub fn over(self, b: Double) -> (d: Double)
        requires
            self.normal(),
            b.normal(),
            b.m > 0,
            self.e <= 0x1_0000,
            b.e <= 0x1_0000,
        ensures
            d.normal(),
            d.value() == quotient(self.value(), b.value()),
            d.e <= self.e + 1202,
    {
        proof {
            let (x, y) = (pow2(self.e as nat) as int, one());
            let s = self.m as int;
            lemma_pow2_adds(self.e as nat, 1074);
            assert((s * x) * y == s * (x * y)) by (nonlinear_arith);
            lemma_scaled_ratio(s, b.m as int, (self.e + 1074) as nat, b.e as nat);
        }
        round(self.m as u128, b.m as u128, self.e as i64 + 1074 - b.e as i64)
    }

    pub fn sqrt(self) -> (d: Double)
        requires
            self.normal(),
            self.e <= 0x1_0000,
        ensures
            d.normal(),
            d.value() == square_root(self.value()),
            d.e <= self.e + 1074,
    {
        let ghost want = self.value() * one();
        if self.m == 0 {
            proof {
                self.lemma_sign();
                assert(0 * one() == 0) by (nonlinear_arith);
                math::lemma_root(0, 0);
            }
            return zero();
        }
        let places = self.e + 1074;
        let mut k: u32 = places / 2;
        let mut n: u128 = if places % 2 == 0 {
            self.m as u128
        } else {
            2 * self.m as u128
        };
        proof {
            let (x, y) = (pow2(self.e as nat) as int, one());
            let (m, h) = (self.m as int, pow2((2 * k) as nat) as int);
            lemma_pow2_adds(self.e as nat, 1074);
            assert((m * x) * y == m * (x * y)) by (nonlinear_arith);
            if places % 2 == 1 {
                lemma_pow2_unfold(places as nat);
                assert(m * (2 * h) == (2 * m) * h) by (nonlinear_arith);
            }
        }
        while k > 0 && n < 0x100_0000_0000_0000_0000_0000_0000
            invariant
                0 < n < 0x400_0000_0000_0000_0000_0000_0000,
                n * pow2((2 * k) as nat) == want,
                k <= self.e + 1073,
                self.e <= 0x1_0000,
            decreases k,
        {
            proof {
                let (m, h) = (n as int, pow2((2 * (k - 1)) as nat) as int);
                lemma_pow2_unfold((2 * k) as nat);
                lemma_pow2_unfold((2 * k - 1) as nat);
                assert(m * (2 * (2 * h)) == (4 * m) * h) by (nonlinear_arith);
            }
            n = 4 * n;
            k = k - 1;
        }
        let r = math::isqrt(n);
        proof {
            lemma_root_bounds(n as int, r as int);
            if k > 0 {
                lemma_root_shifted(n as int, k as nat);
            } else {
                vstd::arithmetic::power2::lemma2_to64();
                let (m, w) = (n as int, pow2(0) as int);
                assert(m * w == m) by (nonlinear_arith)
                    requires
                        w == 1,
                ;
            }
            let ri = r as int;
            assert((2 * ri + 1) * (2 * ri + 1) * 1 == 4 * (ri * ri) + 4 * ri + 1) by (nonlinear_arith);
        }
        let m: u64 = if n - r as u128 * r as u128 > r as u128 {
            r + 1
        } else {
            r
        };
        proof {
            assert(m == nearest_root(n as int, 1));
            let h = pow2(k as nat) as int;
            assert(m * h == h * m) by (nonlinear_arith);
            lemma_pow2_unfold((k + 1) as nat);
            assert(0x20_0000_0000_0000 * h == 0x10_0000_0000_0000 * (2 * h)) by (nonlinear_arith);
            vstd::arithmetic::power2::lemma2_to64();
        }
        if m == 0x20_0000_0000_0000 {
            Double { m: 0x10_0000_0000_0000, e: k + 1 }
        } else {
            Double { m, e: k }
        }
    }

    /// Rounded down to an integer.
    pub fn to_floor(self) -> (n: u64)
        requires
            self.normal(),
        ensures
            n == saturated(floor(self.value())),
    {
        if self.e >= 1074 {
            return self.to_whole();
        }
        let places = 1074 - self.e;
        proof {
            lemma_fraction(self.m as int, self.e as nat);
        }
        if places > 64 {
            proof {
                lemma_tiny(self.m as int, places as nat);
            }
            return 0;
        }
        let part = shifted(1, places);
        proof {
            lemma_pow2_pos(places as nat);
            lemma_below(self.m as int, part as int);
        }
        (self.m as u128 / part) as u64
    }

    /// Rounded up to an integer.
    pub fn to_ceiling(self) -> (n: u64)
        requires
            self.normal(),
        ensures
            n == saturated(ceiling(self.value())),
    {
        if self.e >= 1074 {
            return self.to_whole();
        }
        let places = 1074 - self.e;
        proof {
            lemma_fraction(self.m as int, self.e as nat);
        }
        if places > 64 {
            proof {
                lemma_tiny(self.m as int, places as nat);
            }
            return if self.m > 0 {
                1
            } else {
                0
            };
        }
        let part = shifted(1, places);
        proof {
            lemma_pow2_pos(places as nat);
            lemma_below(self.m as int, part as int);
        }
        let n = (self.m as u128 / part) as u64;
        if self.m as u128 % part == 0 {
            n
        } else {
            n + 1
        }
    }

    /// Rounded to the nearest integer, halves up.
    pub fn to_nearest(self) -> (n: u64)
        requires
            self.normal(),
        ensures
            n == saturated(nearest(self.value())),
    {
        if self.e >= 1074 {
            return self.to_whole();
        }
        let places = 1074 - self.e;
        proof {
            lemma_fraction(self.m as int, self.e as nat);
        }
        if places > 64 {
            proof {
                lemma_tiny(self.m as int, places as nat);
            }
            return 0;
        }
        let part = shifted(1, places);
        proof {
            lemma_pow2_pos(places as nat);
            let (m, b) = (self.m as int, part as int);
            let q = (2 * m + b) / (2 * b);
            vstd::arithmetic::div_mod::lemma_fundamental_div_mod(2 * m + b, 2 * b);
            vstd::arithmetic::div_mod::lemma_div_pos_is_pos(2 * m + b, 2 * b);
            assert(q <= m + 1) by (nonlinear_arith)
                requires
                    (2 * b) * q <= 2 * m + b,
                    b >= 1,
                    m >= 0,
            ;
        }
        ((2 * self.m as u128 + part) / (2 * part)) as u64
    }

    fn to_whole(self) -> (n: u64)
        requires
            self.normal(),
            self.e >= 1074,
        ensures
            n == saturated(floor(self.value())),
            n == saturated(ceiling(self.value())),
            n == saturated(nearest(self.value())),
    {
        let places = self.e - 1074;
        proof {
            let (m, x, u) = (self.m as int, pow2(places as nat) as int, one());
            lemma_one();
            lemma_pow2_adds(places as nat, 1074);
            assert(m * (x * u) == (m * x) * u) by (nonlinear_arith);
            vstd::arithmetic::div_mod::lemma_fundamental_div_mod_converse(m * x * u, u, m * x, 0);
            assert(2 * ((m * x) * u) + u == (m * x) * (2 * u) + u) by (nonlinear_arith);
            vstd::arithmetic::div_mod::lemma_fundamental_div_mod_converse(
                2 * (m * x * u) + u,
                2 * u,
                m * x,
                u,
            );
            vstd::arithmetic::power2::lemma2_to64();
            if places >= 12 {
                lemma_pow2_adds(12, (places - 12) as nat);
                lemma_pow2_pos((places - 12) as nat);
                let w = pow2((places - 12) as nat) as int;
                assert(m * x >= 0x1_0000_0000_0000_0000) by (nonlinear_arith)
                    requires
                        m >= 0x10_0000_0000_0000,
                        x == 0x1000 * w,
                        w >= 1,
                ;
            }
        }
        if places >= 12 {
            return u64::MAX;
        }
        let n = shifted(self.m, places);
        if n > u64::MAX as u128 {
            u64::MAX
        } else {
            n as u64
        }
    }
}

proof fn lemma_nearest_root_scaled(p: int, q: int)
    requires
        p >= 0,
        q > 0,
    ensures
        nearest_root(4 * p, 4 * q) == nearest_root(p, q),
{
    let (d, s) = (p / q, p % q);
    vstd::arithmetic::div_mod::lemma_fundamental_div_mod(p, q);
    assert(4 * p == d * (4 * q) + 4 * s) by (nonlinear_arith)
        requires
            p == q * d + s,
    ;
    vstd::arithmetic::div_mod::lemma_fundamental_div_mod_converse(4 * p, 4 * q, d, 4 * s);
    let r = math::root(p / q);
    let w = (2 * r + 1) * (2 * r + 1);
    assert(w * (4 * q) == 4 * (w * q)) by (nonlinear_arith);
}

proof fn lemma_rounded_root_scaled(p: int, q: int)
    requires
        p >= 0,
        q > 0,
    ensures
        rounded_root(4 * p, 4 * q) == rounded_root(p, q),
    decreases p - q,
{
    if p < 0x400_0000_0000_0000_0000_0000_0000 * q {
        lemma_nearest_root_scaled(p, q);
    } else {
        lemma_rounded_root_scaled(p, 4 * q);
    }
}

proof fn lemma_root_shifted(n: int, k: nat)
    requires
        0x100_0000_0000_0000_0000_0000_0000 <= n < 0x400_0000_0000_0000_0000_0000_0000,
    ensures
        rounded_root(n * pow2(2 * k), 1) == pow2(k) * nearest_root(n, 1),
    decreases k,
{
    vstd::arithmetic::power2::lemma2_to64();
    if k == 0 {
        let w = pow2(0) as int;
        let r = nearest_root(n, 1);
        assert(n * w == n && w * r == r) by (nonlinear_arith)
            requires
                w == 1,
        ;
    } else {
        let h = pow2((2 * (k - 1)) as nat) as int;
        let g = pow2((k - 1) as nat) as int;
        lemma_pow2_unfold(2 * k);
        lemma_pow2_unfold((2 * k - 1) as nat);
        lemma_pow2_unfold(k);
        lemma_pow2_pos((2 * (k - 1)) as nat);
        lemma_root_shifted(n, (k - 1) as nat);
        assert(n * (2 * (2 * h)) == 4 * (n * h)) by (nonlinear_arith);
        assert(n * h >= n) by (nonlinear_arith)
            requires
                n >= 0,
                h >= 1,
        ;
        lemma_rounded_root_scaled(n * h, 1);
        let r = nearest_root(n, 1);
        assert(2 * (g * r) == (2 * g) * r) by (nonlinear_arith);
    }
}

proof fn lemma_root_bounds(n: int, r: int)
    requires
        math::is_root(n, r),
        0 < n < 0x400_0000_0000_0000_0000_0000_0000,
    ensures
        r < 0x20_0000_0000_0000,
        n >= 0x100_0000_0000_0000_0000_0000_0000 ==> r >= 0x10_0000_0000_0000,
        0 <= r * r <= n,
{
    if r >= 0x20_0000_0000_0000 {
        assert(r * r >= 0x20_0000_0000_0000 * 0x20_0000_0000_0000) by (nonlinear_arith)
            requires
                r >= 0x20_0000_0000_0000,
        ;
    }
    if r < 0x10_0000_0000_0000 {
        assert((r + 1) * (r + 1) <= 0x10_0000_0000_0000 * 0x10_0000_0000_0000) by (nonlinear_arith)
            requires
                0 <= r,
                r + 1 <= 0x10_0000_0000_0000,
        ;
    }
    assert(r * r >= 0) by (nonlinear_arith);
}

/// A common factor cancels.
proof fn lemma_cancel(a: int, b: int, h: int)
    requires
        b > 0,
        h > 0,
    ensures
        (a * h) / (b * h) == a / b,
        (a * h) % (b * h) == (a % b) * h,
{
    let (q, r) = (a / b, a % b);
    vstd::arithmetic::div_mod::lemma_fundamental_div_mod(a, b);
    vstd::arithmetic::div_mod::lemma_mod_bound(a, b);
    assert(a * h == q * (b * h) + r * h) by (nonlinear_arith)
        requires
            a == b * q + r,
    ;
    assert(0 <= r * h < b * h) by (nonlinear_arith)
        requires
            0 <= r < b,
            h > 0,
    ;
    vstd::arithmetic::div_mod::lemma_fundamental_div_mod_converse(a * h, b * h, q, r * h);
}

/// The integers round a number with binary places.
proof fn lemma_fraction(m: int, e: nat)
    requires
        m >= 0,
        e < 1074,
    ensures
        ({
            let a = m * pow2(e);
            let part = pow2((1074 - e) as nat) as int;
            &&& floor(a) == m / part
            &&& ceiling(a) == if m % part == 0 {
                m / part
            } else {
                m / part + 1
            }
            &&& nearest(a) == (2 * m + part) / (2 * part)
        }),
{
    let part = pow2((1074 - e) as nat) as int;
    let h = pow2(e) as int;
    lemma_pow2_pos(e);
    lemma_pow2_pos((1074 - e) as nat);
    lemma_pow2_adds((1074 - e) as nat, e);
    lemma_cancel(m, part, h);
    lemma_cancel(2 * m + part, 2 * part, h);
    assert((2 * m + part) * h == 2 * (m * h) + part * h) by (nonlinear_arith);
    assert((2 * part) * h == 2 * (part * h)) by (nonlinear_arith);
    let r = m % part;
    assert(r * h == 0 <==> r == 0) by (nonlinear_arith)
        requires
            h > 0,
    ;
}

/// A mantissa with more than 64 places is less than a half.
proof fn lemma_tiny(m: int, places: nat)
    requires
        0 <= m < 0x20_0000_0000_0000,
        places > 64,
    ensures
        ({
            let part = pow2(places) as int;
            &&& m / part == 0
            &&& m % part == m
            &&& (2 * m + part) / (2 * part) == 0
        }),
{
    let part = pow2(places) as int;
    vstd::arithmetic::power2::lemma2_to64();
    lemma_pow2_adds(64, (places - 64) as nat);
    lemma_pow2_pos((places - 64) as nat);
    let w = pow2((places - 64) as nat) as int;
    assert(0x1_0000_0000_0000_0000 * w >= 0x1_0000_0000_0000_0000) by (nonlinear_arith)
        requires
            w >= 1,
    ;
    vstd::arithmetic::div_mod::lemma_fundamental_div_mod_converse(m, part, 0, m);
    vstd::arithmetic::div_mod::lemma_fundamental_div_mod_converse(
        2 * m + part,
        2 * part,
        0,
        2 * m + part,
    );
}

proof fn lemma_below(a: int, b: int)
    requires
        0 <= a,
        b >= 1,
    ensures
        0 <= a / b <= a,
{
    vstd::arithmetic::div_mod::lemma_div_pos_is_pos(a, b);
    vstd::arithmetic::div_mod::lemma_div_is_ordered_by_denominator(a, 1, b);
}

proof fn lemma_half_even(p: int, q: int)
    requires
        p >= 0,
        q > 0,
    ensures
        0 <= half_even(p, q),
        -q <= 2 * (half_even(p, q) * q - p) <= q,
{
    let (r, s) = (p / q, p % q);
    vstd::arithmetic::div_mod::lemma_fundamental_div_mod(p, q);
    vstd::arithmetic::div_mod::lemma_mod_bound(p, q);
    vstd::arithmetic::div_mod::lemma_div_pos_is_pos(p, q);
    assert((r + 1) * q == r * q + q) by (nonlinear_arith);
    assert(r * q == q * r) by (nonlinear_arith);
}

/// An integer is rounded to itself.
proof fn lemma_half_even_exact(n: int, q: int)
    requires
        q > 0,
    ensures
        half_even(n * q, q) == n,
{
    vstd::arithmetic::div_mod::lemma_fundamental_div_mod_converse(n * q, q, n, 0);
}

proof fn lemma_half_even_monotone(p: int, q: int, r: int, s: int)
    requires
        p >= 0,
        q > 0,
        r >= 0,
        s > 0,
        p * s <= r * q,
    ensures
        half_even(p, q) <= half_even(r, s),
{
    let (a, b) = (half_even(p, q), half_even(r, s));
    lemma_half_even(p, q);
    lemma_half_even(r, s);
    if a > b {
        // Between the two lies the half above `b`.
        assert(2 * (p * s) >= (2 * a - 1) * (q * s)) by (nonlinear_arith)
            requires
                2 * p >= 2 * (a * q) - q,
                s > 0,
        ;
        assert(2 * (r * q) <= (2 * b + 1) * (q * s)) by (nonlinear_arith)
            requires
                2 * r <= 2 * (b * s) + s,
                q > 0,
        ;
        assert(q * s > 0) by (nonlinear_arith)
            requires
                q > 0,
                s > 0,
        ;
        assert(2 * a - 1 <= 2 * b + 1) by (nonlinear_arith)
            requires
                (2 * a - 1) * (q * s) <= (2 * b + 1) * (q * s),
                q * s > 0,
        ;
        assert(a == b + 1);
        assert(2 * p == (2 * b + 1) * q) by (nonlinear_arith)
            requires
                2 * (p * s) <= (2 * b + 1) * (q * s),
                2 * p >= 2 * ((b + 1) * q) - q,
                s > 0,
        ;
        assert(2 * r == (2 * b + 1) * s) by (nonlinear_arith)
            requires
                2 * (r * q) >= (2 * b + 1) * (q * s),
                2 * r <= 2 * (b * s) + s,
                q > 0,
        ;
        lemma_half(p, q, b);
        lemma_half(r, s, b);
    }
}

/// A half is rounded to the even neighbour.
proof fn lemma_half(p: int, q: int, b: int)
    requires
        q > 0,
        2 * p == (2 * b + 1) * q,
    ensures
        half_even(p, q) == if b % 2 == 0 {
            b
        } else {
            b + 1
        },
{
    let s = p - b * q;
    assert((2 * b + 1) * q == 2 * (b * q) + q) by (nonlinear_arith);
    vstd::arithmetic::div_mod::lemma_fundamental_div_mod_converse(p, q, b, s);
}

/// What fills 53 bits still does when it is rounded.
proof fn lemma_rounded_full(p: int, q: int)
    requires
        q > 0,
        p >= 0x10_0000_0000_0000 * q,
    ensures
        rounded(p, q) >= 0x10_0000_0000_0000,
    decreases p - q,
{
    if p < 0x20_0000_0000_0000 * q {
        lemma_half_even_exact(0x10_0000_0000_0000, q);
        assert((0x10_0000_0000_0000 * q) * q <= p * q) by (nonlinear_arith)
            requires
                p >= 0x10_0000_0000_0000 * q,
                q > 0,
        ;
        lemma_half_even_monotone(0x10_0000_0000_0000 * q, q, p, q);
    } else {
        lemma_rounded_full(p, 2 * q);
    }
}

/// Rounding keeps the order.
pub proof fn lemma_rounded_monotone(p: int, q: int, r: int, s: int)
    requires
        p >= 0,
        q > 0,
        r >= 0,
        s > 0,
        p * s <= r * q,
    ensures
        0 <= rounded(p, q) <= rounded(r, s),
    decreases p - q,
{
    let full = 0x20_0000_0000_0000int;
    if p < full * q {
        lemma_half_even(p, q);
        if r < full * s {
            lemma_half_even_monotone(p, q, r, s);
        } else {
            lemma_half_even_exact(full, q);
            assert(p * q <= (full * q) * q) by (nonlinear_arith)
                requires
                    p <= full * q,
                    q > 0,
            ;
            lemma_half_even_monotone(p, q, full * q, q);
            lemma_rounded_full(r, 2 * s);
        }
    } else {
        assert(r >= full * s) by (nonlinear_arith)
            requires
                p * s <= r * q,
                p >= full * q,
                q > 0,
                s > 0,
        ;
        assert(p * (2 * s) <= r * (2 * q)) by (nonlinear_arith)
            requires
                p * s <= r * q,
        ;
        lemma_rounded_monotone(p, 2 * q, r, 2 * s);
    }
}

/// A multiple of a power of two with at most 53 bits is a number.
pub proof fn lemma_rounded_exact(m: int, k: nat, q: int)
    requires
        0 <= m <= 0x20_0000_0000_0000,
        q > 0,
    ensures
        rounded((m * pow2(k)) * q, q) == m * pow2(k),
    decreases k,
{
    let x = pow2(k) as int;
    lemma_pow2_pos(k);
    vstd::arithmetic::power2::lemma2_to64();
    assert(m * x >= 0) by (nonlinear_arith)
        requires
            m >= 0,
            x > 0,
    ;
    if (m * x) * q < 0x20_0000_0000_0000 * q {
        lemma_half_even_exact(m * x, q);
    } else if k == 0 {
        assert(m * x == m) by (nonlinear_arith)
            requires
                x == 1,
        ;
        assert(m == 0x20_0000_0000_0000) by (nonlinear_arith)
            requires
                m * q >= 0x20_0000_0000_0000 * q,
                m <= 0x20_0000_0000_0000,
                q > 0,
        ;
        lemma_half_even_exact(0x10_0000_0000_0000, 2 * q);
        let p = 0x10_0000_0000_0000 * (2 * q);
        assert(rounded(p, q) == 2 * rounded(p, 2 * q));
        assert(rounded(p, 2 * q) == half_even(p, 2 * q));
        assert((m * x) * q == p);
    } else {
        let h = pow2((k - 1) as nat) as int;
        lemma_pow2_unfold(k);
        lemma_rounded_exact(m, (k - 1) as nat, 2 * q);
        assert((m * h) * (2 * q) == (m * (2 * h)) * q) by (nonlinear_arith);
        assert(2 * (m * h) == m * (2 * h)) by (nonlinear_arith);
        let p = (m * x) * q;
        assert(rounded(p, q) == 2 * rounded(p, 2 * q));
    }
}

/// A number of 53 bits is an integer of double precision.
pub proof fn lemma_of_exact(n: int)
    requires
        0 <= n <= 0x20_0000_0000_0000,
    ensures
        of(n) == n * one(),
{
    lemma_rounded_exact(n, 1074, 1);
}

/// What is rounded stays as it is when it is rounded again.
pub proof fn lemma_rounded_again(p: int, q: int)
    requires
        p >= 0,
        q > 0,
    ensures
        rounded(rounded(p, q), 1) == rounded(p, q),
{
    let (m, k) = lemma_rounded_form(p, q);
    lemma_rounded_exact(m, k, 1);
}

/// What is rounded is a mantissa of at most 53 bits times a power of two.
proof fn lemma_rounded_form(p: int, q: int) -> (r: (int, nat))
    requires
        p >= 0,
        q > 0,
    ensures
        0 <= r.0 <= 0x20_0000_0000_0000,
        rounded(p, q) == r.0 * pow2(r.1),
    decreases p - q,
{
    if p < 0x20_0000_0000_0000 * q {
        vstd::arithmetic::power2::lemma2_to64();
        lemma_half_even_exact(0x20_0000_0000_0000, q);
        assert(p * q <= (0x20_0000_0000_0000 * q) * q) by (nonlinear_arith)
            requires
                p <= 0x20_0000_0000_0000 * q,
                q > 0,
        ;
        lemma_half_even_monotone(p, q, 0x20_0000_0000_0000 * q, q);
        lemma_half_even(p, q);
        let (m, w) = (half_even(p, q), pow2(0) as int);
        assert(m * w == m) by (nonlinear_arith)
            requires
                w == 1,
        ;
        (m, 0)
    } else {
        let (m, k) = lemma_rounded_form(p, 2 * q);
        lemma_pow2_unfold(k + 1);
        let h = pow2(k) as int;
        assert(2 * (m * h) == m * (2 * h)) by (nonlinear_arith);
        (m, k + 1)
    }
}

/// Integers keep their order.
pub proof fn lemma_of_monotone(a: int, b: int)
    requires
        0 <= a <= b,
    ensures
        0 <= of(a) <= of(b),
{
    let u = one();
    lemma_one();
    assert(0 <= a * u && (a * u) * 1 <= (b * u) * 1) by (nonlinear_arith)
        requires
            0 <= a <= b,
            u > 0,
    ;
    lemma_rounded_monotone(a * u, 1, b * u, 1);
}

/// An integer above zero is a number above zero.
pub proof fn lemma_of_positive(n: int)
    requires
        n > 0,
    ensures
        of(n) > 0,
{
    let u = one();
    lemma_one();
    lemma_of_exact(1);
    assert(1 * u <= n * u) by (nonlinear_arith)
        requires
            n >= 1,
            u > 0,
    ;
    lemma_rounded_monotone(1 * u, 1, n * u, 1);
}

/// A sum of one more term that is at most a power of two.
pub proof fn lemma_total_bound(a: int, b: int, i: int, k: nat)
    requires
        0 <= i < 0x20_0000_0000_0000,
        0 <= a <= i * pow2(k),
        0 <= b <= pow2(k),
    ensures
        0 <= total(a, b) <= (i + 1) * pow2(k),
{
    let g = pow2(k) as int;
    assert((i + 1) * g == i * g + g) by (nonlinear_arith);
    lemma_rounded_monotone(a + b, 1, (i + 1) * g, 1);
    lemma_rounded_exact(i + 1, k, 1);
}

/// A sum is no less than a term that is a number.
pub proof fn lemma_total_grows(a: int, b: int)
    requires
        0 <= a,
        0 <= b,
    ensures
        rounded(a, 1) <= total(a, b),
        rounded(b, 1) <= total(a, b),
{
    lemma_rounded_monotone(a, 1, a + b, 1);
    lemma_rounded_monotone(b, 1, a + b, 1);
}

/// Rounding is off by at most one part in 2^53, where the result has 53 bits.
pub proof fn lemma_rounded_error(p: int, q: int)
    requires
        q > 0,
        p >= 0x10_0000_0000_0000 * q,
    ensures
        -p <= 0x20_0000_0000_0000 * (rounded(p, q) * q - p) <= p,
    decreases p - q,
{
    if p < 0x20_0000_0000_0000 * q {
        lemma_half_even(p, q);
    } else {
        lemma_rounded_error(p, 2 * q);
        let r = rounded(p, 2 * q);
        assert(r * (2 * q) == (2 * r) * q) by (nonlinear_arith);
    }
}

/// The fraction whose 52 binary places are the first bits of a draw.
pub open spec fn fraction(draw: u64) -> int {
    (draw as int / 4096) * pow2(1022)
}

/// What a draw stands for between `low` and `low + scale`.
pub open spec fn uniform(low: int, scale: int, draw: u64) -> int {
    total(product(fraction(draw), scale), low)
}

/// What `draw` stands for between `low` and `low + scale`.
pub fn draw_between(low: Double, scale: Double, draw: u64) -> (d: Double)
    requires
        low.finite(),
        scale.finite(),
    ensures
        d.normal(),
        d.value() == uniform(low.value(), scale.value(), draw),
        d.e <= 0x1000,
{
    let x = draw / 4096;
    proof {
        lemma_scaled_ratio(x as int, 1, 1022, 0);
        vstd::arithmetic::power2::lemma2_to64();
        lemma_rounded_exact(x as int, 1022, 1);
    }
    let part = round(x as u128, 1, 1022);
    part.times(scale).plus(low)
}

/// A larger draw stands for no less.
pub proof fn lemma_uniform_monotone(low: int, scale: int, a: u64, b: u64)
    requires
        low >= 0,
        scale >= 0,
        a / 4096 <= b / 4096,
    ensures
        0 <= uniform(low, scale, a) <= uniform(low, scale, b),
{
    let (x, y, h) = (a as int / 4096, b as int / 4096, pow2(1022) as int);
    lemma_pow2_pos(1022);
    lemma_one();
    assert(0 <= (x * h) * scale <= (y * h) * scale) by (nonlinear_arith)
        requires
            0 <= x <= y,
            h > 0,
            scale >= 0,
    ;
    let (p, q, u) = ((x * h) * scale, (y * h) * scale, one());
    assert(p * u <= q * u) by (nonlinear_arith)
        requires
            p <= q,
            u > 0,
    ;
    lemma_rounded_monotone(p, u, q, u);
    lemma_rounded_monotone(product(fraction(a), scale) + low, 1, product(fraction(b), scale) + low, 1);
}

/// `n`, rounded to 53 bits.
pub fn round_integer(n: u64) -> (r: u64)
    requires
        n <= 0x4000_0000_0000_0000,
    ensures
        r == rounded(n as int, 1),
        r <= 0x4000_0000_0000_0000,
{
    let d = round(n as u128, 1, 0);
    proof {
        vstd::arithmetic::power2::lemma2_to64();
        vstd::arithmetic::power2::lemma2_to64_rest();
        let (a, w) = (n as int, pow2(0) as int);
        assert(a * w == a) by (nonlinear_arith)
            requires
                w == 1,
        ;
        lemma_rounded_monotone(n as int, 1, 0x4000_0000_0000_0000, 1);
        lemma_rounded_exact(1, 62, 1);
        lemma_pow2_pos(d.e as nat);
        let (m, h) = (d.m as int, pow2(d.e as nat) as int);
        if d.m > 0 {
            assert(h <= m * h) by (nonlinear_arith)
                requires
                    m >= 1,
                    h > 0,
            ;
            if d.e > 64 {
                lemma_pow2_adds(64, (d.e - 64) as nat);
                lemma_pow2_pos((d.e - 64) as nat);
                let v = pow2((d.e - 64) as nat) as int;
                assert(0x1_0000_0000_0000_0000 * v >= 0x1_0000_0000_0000_0000) by (nonlinear_arith)
                    requires
                        v >= 1,
                ;
            }
        } else {
            d.lemma_sign();
        }
    }
    if d.m == 0 {
        0
    } else {
        shifted(d.m, d.e) as u64
    }
}

/// `n * 2^e`, rounded.
pub fn at_place(n: u64, e: u32) -> (d: Double)
    requires
        e <= 0x1000,
    ensures
        d.normal(),
        d.value() == rounded(n * pow2(e as nat), 1),
        d.e <= e + 128,
{
    proof {
        lemma_scaled_ratio(n as int, 1, e as nat, 0);
        vstd::arithmetic::power2::lemma2_to64();
    }
    round(n as u128, 1, e as i64)
}

} // verus!
