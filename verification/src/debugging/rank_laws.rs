//! How close ranks that are computed in double precision come to the exact ones.

use crate::debugging::workload;
use crate::distquery::fanout;
use crate::double;
use crate::double::Double;
use crate::ops::sampling;
use vstd::arithmetic::power2::{lemma_pow2_adds, lemma_pow2_pos, pow2};
use vstd::prelude::*;

verus! {

/// A product with an integer of 53 bits is off by at most one part in 2^53.
pub proof fn lemma_product_error(v: int, n: int)
    requires
        v >= 0x10_0000_0000_0000,
        1 <= n <= 0x20_0000_0000_0000,
    ensures
        -(v * n) <= 0x20_0000_0000_0000 * (double::product(v, double::of(n)) - v * n) <= v * n,
        double::product(v, double::of(n)) == double::product(double::of(n), v),
{
    let u = double::one();
    double::lemma_one();
    double::lemma_of_exact(n);
    let p = v * double::of(n);
    assert(p == (v * n) * u) by (nonlinear_arith)
        requires
            p == v * (n * u),
    ;
    assert(v * n >= v) by (nonlinear_arith)
        requires
            v >= 0,
            n >= 1,
    ;
    assert((v * n) * u >= 0x10_0000_0000_0000 * u) by (nonlinear_arith)
        requires
            v * n >= 0x10_0000_0000_0000,
            u > 0,
    ;
    double::lemma_rounded_error(p, u);
    let r = double::rounded(p, u);
    let x = v * n;
    assert(-x <= 0x20_0000_0000_0000 * (r - x) <= x) by (nonlinear_arith)
        requires
            p == x * u,
            u > 0,
            -p <= 0x20_0000_0000_0000 * (r * u - p) <= p,
    ;
    assert(double::of(n) * v == p) by (nonlinear_arith)
        requires
            p == v * double::of(n),
    ;
}

proof fn lemma_ceiling(a: int)
    ensures
        double::ceiling(a) * double::one() >= a,
        (double::ceiling(a) - 1) * double::one() < a,
{
    let u = double::one();
    double::lemma_one();
    vstd::arithmetic::div_mod::lemma_fundamental_div_mod(a, u);
    vstd::arithmetic::div_mod::lemma_mod_bound(a, u);
    let q = a / u;
    assert((q + 1) * u == u * q + u && q * u == u * q && (q - 1) * u == u * q - u)
        by (nonlinear_arith);
}

/// The rank of a percentile is the smallest that covers its part of the samples:
/// a rank `r` covers `100 * r` in hundred samples, and `r - 1` covers less, but for
/// the rounding, which is below four parts in 2^53.
pub proof fn lemma_rank_covers(n: nat, p: Double)
    requires
        1 <= n <= 0x20_0000_0000_0000,
        0x1_0000_0000_0000_0000 <= p.value() <= 100 * double::one(),
    ensures
        ({
            let r = workload::nearest_rank(n, p);
            let u = double::one();
            let part = p.value() * n;
            &&& 1 <= r <= n
            &&& 0x20_0000_0000_0000 * (100 * u * r) >= (0x20_0000_0000_0000 - 4) * part
            &&& 0x20_0000_0000_0000 * (100 * u * (r - 1)) < (0x20_0000_0000_0000 + 4) * part
        }),
{
    let (u, v, n) = (double::one(), p.value(), n as int);
    let b = 0x20_0000_0000_0000int;
    double::lemma_one();
    double::lemma_of_exact(100);
    let h = double::of(100);
    assert(v * u >= 0x10_0000_0000_0000 * h) by (nonlinear_arith)
        requires
            h == 100 * u,
            v >= 0x1_0000_0000_0000_0000,
            u > 0,
    ;
    double::lemma_rounded_error(v * u, h);
    let part = double::rounded(v * u, h);
    assert(-v <= b * (part * 100 - v) <= v) by (nonlinear_arith)
        requires
            h == 100 * u,
            u > 0,
            -(v * u) <= b * (part * h - v * u) <= v * u,
    ;
    lemma_product_error(part, n);
    let prod = double::product(part, double::of(n));
    let (x, y) = (v * n, part * n);
    assert(-x <= b * (100 * y - x) <= x) by (nonlinear_arith)
        requires
            x == v * n,
            y == part * n,
            n >= 1,
            -v <= b * (part * 100 - v) <= v,
    ;
    assert(x > 0) by (nonlinear_arith)
        requires
            x == v * n,
            v > 0,
            n > 0,
    ;
    assert(b * 100 * prod >= (b - 4) * x && b * 100 * prod <= (b + 4) * x);
    lemma_ceiling(prod);
    let c = double::ceiling(prod);
    let r = workload::nearest_rank(n as nat, p) as int;
    assert(x <= 100 * u * n) by (nonlinear_arith)
        requires
            x == v * n,
            v <= 100 * u,
            n > 0,
    ;
    if c < 1 {
        assert((c - 1) * u >= -u || c * u <= 0) by (nonlinear_arith)
            requires
                c < 1,
                u > 0,
        ;
        assert(c * u <= 0) by (nonlinear_arith)
            requires
                c < 1,
                u > 0,
        ;
        assert(false);
    }
    assert(r <= c || r == n);
    if c > n {
        assert(100 * u * r == 100 * u * n);
        assert((r - 1) * u <= (c - 1) * u) by (nonlinear_arith)
            requires
                r <= c,
                u > 0,
        ;
    }
    assert(100 * u * (r - 1) == 100 * ((r - 1) * u)) by (nonlinear_arith);
    assert(100 * u * r == 100 * (r * u)) by (nonlinear_arith);
}

/// How many leaves have to answer: at least their part, and one less is less.
pub proof fn lemma_enough_answers(n: nat, frac: Double)
    requires
        1 <= n <= 0x20_0000_0000_0000,
        0x1_0000_0000_0000_0000 <= frac.value() <= double::one(),
    ensures
        ({
            let r = fanout::enough(n, frac);
            let u = double::one();
            let part = frac.value() * n;
            &&& 1 <= r <= n
            &&& 0x20_0000_0000_0000 * (u * r) >= (0x20_0000_0000_0000 - 1) * part
            &&& 0x20_0000_0000_0000 * (u * (r - 1)) < (0x20_0000_0000_0000 + 1) * part
        }),
{
    let (u, v, n) = (double::one(), frac.value(), n as int);
    double::lemma_one();
    lemma_product_error(v, n);
    let prod = double::product(double::of(n), v);
    lemma_ceiling(prod);
    let c = double::ceiling(prod);
    let r = fanout::enough(n as nat, frac) as int;
    let x = v * n;
    assert(0 < x <= u * n) by (nonlinear_arith)
        requires
            x == v * n,
            0 < v <= u,
            n > 0,
    ;
    if c < 1 {
        assert(c * u <= 0) by (nonlinear_arith)
            requires
                c < 1,
                u > 0,
        ;
        assert(false);
    }
    let b = 0x20_0000_0000_0000int;
    assert(b * prod >= (b - 1) * x && b * prod <= (b + 1) * x);
    assert((r - 1) * u <= (c - 1) * u) by (nonlinear_arith)
        requires
            r <= c,
            u > 0,
    ;
    assert(u * (r - 1) == (r - 1) * u) by (nonlinear_arith);
    assert(u * r == r * u) by (nonlinear_arith);
    if c > n {
        assert(u * r == u * n);
        assert(b * (u * r) >= (b - 1) * x);
    } else {
        assert(r == c);
        assert(b * (u * r) >= (b - 1) * x);
    }
    assert(b * (u * (r - 1)) < (b + 1) * x);
}

/// The 99th percentile of up to 2^40 latencies is the entry that has 99 in 100
/// before it, rounded down.
pub proof fn lemma_p99_place(n: nat)
    requires
        1 <= n <= 0x100_0000_0000,
    ensures
        ({
            let at = sampling::p99_place(n);
            &&& 0 <= at < n
            &&& 100 * at <= 99 * n < 100 * at + 101
        }),
{
    let (u, v, m) = (double::one(), sampling::most(), n as int);
    let (b, w) = (0x20_0000_0000_0000int, pow2(1021) as int);
    double::lemma_one();
    lemma_pow2_adds(53, 1021);
    lemma_pow2_pos(1021);
    vstd::arithmetic::power2::lemma2_to64();
    vstd::arithmetic::power2::lemma2_to64_rest();
    assert(u == b * w);
    assert(v == 0x1f_ae14_7ae1_47ae * w);
    assert(v >= 0x10_0000_0000_0000) by (nonlinear_arith)
        requires
            v == 0x1f_ae14_7ae1_47ae * w,
            w >= 1,
    ;
    lemma_product_error(v, m);
    let prod = double::product(double::of(m), v);
    let x = v * m;
    assert(x == 0x1f_ae14_7ae1_47ae * (m * w)) by (nonlinear_arith)
        requires
            x == v * m,
            v == 0x1f_ae14_7ae1_47ae * w,
    ;
    let y = m * w;
    let k = prod / u;
    vstd::arithmetic::div_mod::lemma_fundamental_div_mod(prod, u);
    vstd::arithmetic::div_mod::lemma_mod_bound(prod, u);
    let z = k * w;
    assert(u * k == b * z) by (nonlinear_arith)
        requires
            u == b * w,
            z == k * w,
    ;
    // In units of `w`: b * z <= prod < b * z + b * w, and prod is near c * y.
    assert(y <= 0x100_0000_0000 * w && y >= w) by (nonlinear_arith)
        requires
            y == m * w,
            1 <= m <= 0x100_0000_0000,
            w >= 1,
    ;
    assert(100 * z < 99 * y + w && 99 * y < 100 * z + 101 * w);
    assert(100 * k <= 99 * m && 99 * m < 100 * k + 101) by (nonlinear_arith)
        requires
            100 * (k * w) < 99 * (m * w) + w,
            99 * (m * w) < 100 * (k * w) + 101 * w,
            w >= 1,
    ;
    if k < 0 {
        assert(u * k <= -u) by (nonlinear_arith)
            requires
                k <= -1,
                u > 0,
        ;
        assert(prod >= 0);
    }
    vstd::arithmetic::div_mod::lemma_small_mod(k as nat, n);
}

} // verus!
