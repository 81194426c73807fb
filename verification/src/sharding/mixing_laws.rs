//! The mixer loses nothing: different numbers stay different.

use crate::sharding::hashring;
use crate::sharding::placement;
use vstd::prelude::*;

verus! {

/// Multiplying by a number that has an inverse loses nothing.
proof fn lemma_product_is_reversible(x: u64, y: u64, factor: u64, inverse: int, carry: int)
    requires
        factor * inverse == 1 + carry * 0x1_0000_0000_0000_0000,
        x.wrapping_mul(factor) == y.wrapping_mul(factor),
    ensures
        x == y,
{
    let m = 0x1_0000_0000_0000_0000int;
    let (a, b) = (x * factor, y * factor);
    assert(x.wrapping_mul(factor) as int == a % m && y.wrapping_mul(factor) as int == b % m);
    vstd::arithmetic::div_mod::lemma_fundamental_div_mod(a, m);
    vstd::arithmetic::div_mod::lemma_fundamental_div_mod(b, m);
    let (q, d) = (a / m - b / m, x - y);
    assert(d * factor == m * q) by (nonlinear_arith)
        requires
            a == x * factor,
            b == y * factor,
            d == x - y,
            a == m * (a / m) + a % m,
            b == m * (b / m) + b % m,
            a % m == b % m,
            q == a / m - b / m,
    ;
    let w = q * inverse - d * carry;
    assert(d == m * w) by (nonlinear_arith)
        requires
            d * factor == m * q,
            factor * inverse == 1 + carry * m,
            w == q * inverse - d * carry,
    ;
    assert(w == 0) by (nonlinear_arith)
        requires
            d == m * w,
            -m < d < m,
            m > 0,
    ;
}

/// Different numbers are mixed to different numbers.
pub proof fn lemma_mixing_loses_nothing(x: u64, y: u64)
    ensures
        placement::mixed(x) == placement::mixed(y) ==> x == y,
{
    let (a, b) = (x.wrapping_add(0x9E3779B97F4A7C15), y.wrapping_add(0x9E3779B97F4A7C15));
    let (c, d) = (
        placement::mixing_round(a, 30, 0xBF58476D1CE4E5B9),
        placement::mixing_round(b, 30, 0xBF58476D1CE4E5B9),
    );
    let (e, f) = (
        placement::mixing_round(c, 27, 0x94D049BB133111EB),
        placement::mixing_round(d, 27, 0x94D049BB133111EB),
    );
    if placement::mixed(x) == placement::mixed(y) {
        assert(e ^ (e >> 31) == f ^ (f >> 31) ==> e == f) by (bit_vector);
        lemma_product_is_reversible(
            c ^ (c >> 27),
            d ^ (d >> 27),
            0x94D049BB133111EB,
            0x319642b2d24d8ec3,
            0x1cd336eda85f1453,
        );
        assert(c ^ (c >> 27) == d ^ (d >> 27) ==> c == d) by (bit_vector);
        lemma_product_is_reversible(
            a ^ (a >> 30),
            b ^ (b >> 30),
            0xBF58476D1CE4E5B9,
            0x96de1b173f119089,
            0x70c3bca78f27f46c,
        );
        assert(a ^ (a >> 30) == b ^ (b >> 30) ==> a == b) by (bit_vector);
    }
}

/// No two points of a ring coincide: neither two of one node nor those of two nodes.
pub proof fn lemma_points_are_apart(a: u32, b: u32, i: int, j: int)
    requires
        0 <= i <= u32::MAX,
        0 <= j <= u32::MAX,
        a != b || i != j,
    ensures
        hashring::position(a, i) != hashring::position(b, j),
{
    lemma_mixing_loses_nothing(
        (a * 0x1_0000_0000 + i) as u64,
        (b * 0x1_0000_0000 + j) as u64,
    );
}

} // verus!
