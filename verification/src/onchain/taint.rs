//! Three answers to "where did the stolen money go?".
//!
//! Poison: any tainted input makes every output entirely tainted. Haircut:
//! each output is tainted by the fraction of input value that was tainted.
//! FIFO (Clayton's Case, 1816): the inputs are laid end to end and the outputs
//! are cut off the front in order, so every unit of value keeps exactly one
//! provenance.
//!
//! ```text
//!   inputs                    FIFO outputs
//!   clean 3                   D: 3 clean
//!   STOLEN 2           ==>    E: 2 STOLEN
//!   clean 4                   F: 4 clean
//!
//!   haircut: every output gets 2/9 stolen.
//! ```

use crate::double;
use crate::double::Double;
use crate::graph;
use crate::math;
use crate::onchain::chain;
use crate::onchain::chain::Chain;
use std::collections::VecDeque;
use vstd::arithmetic::power2::{lemma_pow2_adds, lemma_pow2_pos, pow2};
use vstd::prelude::*;

verus! {

/// The largest integer up to which doubles hold every one.
pub const EXACT: u64 = 0x20_0000_0000_0000;

/// One contiguous run of value of the same provenance. `CLEAN` is clean money;
/// other names are distinct crime sources.
#[derive(Clone, Copy, PartialEq, Eq, Structural, Debug)]
pub struct TaintPart {
    pub name: u16,
    pub value: u64,
}

pub const CLEAN: u16 = 0;

pub const STOLEN: u16 = 1;

/// Per-output tainted value. Index is the output id.
pub type Taint = Vec<u64>;

/// Tainted value as a function of the output.
pub open spec fn amount(taint: Seq<u64>) -> spec_fn(int) -> int {
    |o: int| taint[o] as int
}

/// Outputs still unspent that carry any taint at all, in order.
pub fn flagged_utxos(chain: &Chain, taint: &Taint) -> (r: Vec<usize>)
    requires
        chain.spent_by@.len() == chain.len(),
        taint@.len() == chain.len(),
    ensures
        forall|i: int, j: int| 0 <= i < j < r@.len() ==> #[trigger] r@[i] < #[trigger] r@[j],
        forall|o: usize| #[trigger]
            r@.contains(o) <==> o < chain.len() && chain.spent_by@[o as int] is None
                && taint@[o as int] > 0,
{
    let mut r: Vec<usize> = Vec::new();
    for o in 0..chain.outputs.len()
        invariant
            chain.spent_by@.len() == chain.len(),
            taint@.len() == chain.len(),
            forall|i: int, j: int| 0 <= i < j < r@.len() ==> #[trigger] r@[i] < #[trigger] r@[j],
            forall|i: int| 0 <= i < r@.len() ==> #[trigger] r@[i] < o,
            forall|x: usize| #[trigger]
                r@.contains(x) <==> x < o && chain.spent_by@[x as int] is None && taint@[x as int]
                    > 0,
    {
        let ghost r0 = r@;
        if chain.spent_by[o].is_none() && taint[o] > 0 {
            r.push(o);
        }
        proof {
            assert forall|x: usize| #[trigger] r@.contains(x) <==> x < o + 1
                && chain.spent_by@[x as int] is None && taint@[x as int] > 0 by {
                graph::lemma_push_contains(r0, o, x);
                assert(r0.contains(x) <==> x < o && chain.spent_by@[x as int] is None
                    && taint@[x as int] > 0);
            }
        }
    }
    r
}

/// Total tainted value sitting in the unspent outputs.
pub fn flagged_value(chain: &Chain, taint: &Taint) -> (v: u64)
    requires
        chain.spent_by@.len() == chain.len(),
        taint@.len() == chain.len(),
        chain.unspent_sum(amount(taint@)) <= u64::MAX,
    ensures
        v == chain.unspent_sum(amount(taint@)),
{
    let ghost f = |o: int|
        if chain.spent_by@[o] is None {
            amount(taint@)(o)
        } else {
            0
        };
    let mut v: u64 = 0;
    for o in 0..chain.outputs.len()
        invariant
            chain.spent_by@.len() == chain.len(),
            taint@.len() == chain.len(),
            math::sum(chain.len(), f) <= u64::MAX,
            f == (|o: int|
                if chain.spent_by@[o] is None {
                    amount(taint@)(o)
                } else {
                    0
                }),
            v == math::sum(o as nat, f),
    {
        proof {
            assert forall|i: int| 0 <= i < chain.len() implies 0 <= #[trigger] f(i) by {}
            math::lemma_sum_prefix((o + 1) as nat, chain.len(), f);
        }
        if chain.spent_by[o].is_none() {
            v += taint[o];
        }
    }
    v
}

/// The taint before the first transaction: all of the origin, nothing else.
pub open spec fn at_origin(c: &Chain, origin: usize) -> Seq<u64> {
    Seq::new(
        c.len(),
        |o: int|
            if o == origin {
                c.outputs@[o].value
            } else {
                0
            },
    )
}

/// New taint on the outputs of one transaction.
pub open spec fn paint(taint: Seq<u64>, outs: Seq<usize>, f: spec_fn(int) -> int) -> Seq<u64> {
    Seq::new(
        taint.len(),
        |o: int|
            if outs.contains(o as usize) {
                f(o) as u64
            } else {
                taint[o]
            },
    )
}

/// `v` times `dirty / total` in double precision, rounded to the nearest integer,
/// halves up.
pub open spec fn share(v: int, dirty: int, total: int) -> int {
    let part = double::quotient(double::of(dirty), double::of(total));
    double::saturated(double::nearest(double::product(double::of(v), part))) as int
}

/// The tainted value that goes into transaction `t`.
pub open spec fn dirty_in(c: &Chain, taint: Seq<u64>, t: int) -> int {
    math::sum_over(c.txs@[t].inputs@, amount(taint))
}

pub open spec fn haircut_step(c: &Chain, taint: Seq<u64>, t: int) -> Seq<u64> {
    if dirty_in(c, taint, t) == 0 || c.value_in(t) == 0 {
        taint
    } else {
        paint(
            taint,
            c.txs@[t].outputs@,
            |o: int| share(c.outputs@[o].value as int, dirty_in(c, taint, t), c.value_in(t)),
        )
    }
}

/// Haircut taint after the first `k` transactions.
pub open spec fn haircut_until(c: &Chain, origin: usize, k: int) -> Seq<u64>
    decreases k,
{
    if k <= 0 {
        at_origin(c, origin)
    } else {
        haircut_step(c, haircut_until(c, origin, k - 1), k - 1)
    }
}

pub open spec fn some_dirty(c: &Chain, taint: Seq<u64>, t: int) -> bool {
    exists|k: int|
        0 <= k < c.txs@[t].inputs@.len() && taint[#[trigger] c.txs@[t].inputs@[k] as int] > 0
}

pub open spec fn poison_step(c: &Chain, taint: Seq<u64>, t: int) -> Seq<u64> {
    if some_dirty(c, taint, t) {
        paint(taint, c.txs@[t].outputs@, c.value())
    } else {
        taint
    }
}

/// Poison taint after the first `k` transactions.
pub open spec fn poison_until(c: &Chain, origin: usize, k: int) -> Seq<u64>
    decreases k,
{
    if k <= 0 {
        at_origin(c, origin)
    } else {
        poison_step(c, poison_until(c, origin, k - 1), k - 1)
    }
}

/// A share is no more than the value, where doubles hold the value exactly.
pub proof fn lemma_share_bounded(v: int, dirty: int, total: int)
    requires
        0 <= v <= EXACT,
        0 <= dirty <= total,
        0 < total,
    ensures
        0 <= share(v, dirty, total) <= v,
{
    let u = double::one();
    double::lemma_one();
    double::lemma_of_exact(v);
    double::lemma_of_monotone(dirty, total);
    double::lemma_of_monotone(1, total);
    double::lemma_of_exact(1);
    let (a, b) = (double::of(dirty), double::of(total));
    assert(0 <= a * u && (a * u) * 1 <= u * b) by (nonlinear_arith)
        requires
            0 <= a <= b,
            u > 0,
    ;
    double::lemma_rounded_monotone(a * u, b, u, 1);
    double::lemma_rounded_exact(1, 1074, 1);
    let f = double::quotient(a, b);
    assert(0 <= f <= u);
    assert(0 <= (v * u) * f && ((v * u) * f) * 1 <= (v * u) * u) by (nonlinear_arith)
        requires
            0 <= f <= u,
            v >= 0,
            u > 0,
    ;
    assert(v * u >= 0) by (nonlinear_arith)
        requires
            v >= 0,
            u > 0,
    ;
    double::lemma_rounded_monotone((v * u) * f, u, v * u, 1);
    let g = double::product(v * u, f);
    assert(0 <= g <= v * u);
    vstd::arithmetic::div_mod::lemma_div_pos_is_pos(2 * g + u, 2 * u);
    vstd::arithmetic::div_mod::lemma_div_is_ordered(2 * g + u, 2 * (v * u) + u, 2 * u);
    assert(2 * (v * u) + u == v * (2 * u) + u) by (nonlinear_arith);
    vstd::arithmetic::div_mod::lemma_fundamental_div_mod_converse(
        2 * (v * u) + u,
        2 * u,
        v,
        u,
    );
}

/// A share is off by half a unit, and by six parts of the value in 2^53 that
/// the rounding of ratio and product can make.
pub proof fn lemma_share_error(v: int, dirty: int, total: int)
    requires
        0 <= v <= EXACT,
        0 < dirty <= total <= EXACT,
    ensures
        ({
            let off = 2 * total * share(v, dirty, total) - 2 * (v * dirty);
            let most = total * (EXACT + 6 * v);
            -most <= EXACT * off <= most
        }),
{
    let u = double::one();
    let k = EXACT as int;
    let (d, t) = (dirty, total);
    double::lemma_one();
    double::lemma_of_exact(v);
    double::lemma_of_exact(d);
    double::lemma_of_exact(t);
    lemma_share_bounded(v, dirty, total);
    let f = double::quotient(d * u, t * u);
    lemma_one_large();
    // The ratio.
    let (p, q) = ((d * u) * u, t * u);
    assert(q > 0 && p >= 0x10_0000_0000_0000 * q) by (nonlinear_arith)
        requires
            p == (d * u) * u,
            q == t * u,
            d >= 1,
            0 < t <= 0x20_0000_0000_0000,
            u >= 0x10_0000_0000_0000 * 0x20_0000_0000_0000,
    {
        assert(d * u >= u);
        assert(p >= u * u);
        assert(t * u <= 0x20_0000_0000_0000 * u);
        assert(u * u >= (0x10_0000_0000_0000 * 0x20_0000_0000_0000) * u);
    }
    double::lemma_rounded_error(p, q);
    let x = f * t - d * u;
    assert(f * q - p == x * u) by (nonlinear_arith)
        requires
            p == (d * u) * u,
            q == t * u,
            x == f * t - d * u,
    ;
    assert(-(d * u) <= k * x <= d * u) by (nonlinear_arith)
        requires
            -((d * u) * u) <= k * (x * u) <= (d * u) * u,
            u > 0,
    ;
    let g = double::product(v * u, f);
    let s = double::nearest(g);
    let y = g - v * f;
    let w = v * f;
    assert(f >= 0) by {
        assert((d * u) * u >= 0 && 0 * q <= p * 1) by (nonlinear_arith)
            requires
                d >= 0,
                u >= 0,
                p == (d * u) * u,
        ;
        double::lemma_rounded_monotone(0, 1, p, q);
    }
    assert(w >= 0) by (nonlinear_arith)
        requires
            v >= 0,
            f >= 0,
            w == v * f,
    ;
    assert(-w <= k * y <= w) by {
        if v == 0 {
            assert((v * u) * f == 0 && v * f == 0) by (nonlinear_arith)
                requires
                    v == 0,
            ;
            assert(0 * u == 0) by (nonlinear_arith);
            double::lemma_rounded_exact(0, 0, u);
            assert(0 * vstd::arithmetic::power2::pow2(0) == 0) by (nonlinear_arith);
        } else {
            lemma_part_large(f, d, t, u, k, x);
            let (p2, q2) = ((v * u) * f, u);
            assert(p2 >= 0x10_0000_0000_0000 * q2) by (nonlinear_arith)
                requires
                    p2 == (v * u) * f,
                    q2 == u,
                    v >= 1,
                    u > 0,
                    f >= 0x10_0000_0000_0000,
            {
                assert(v * u >= u);
                assert((v * u) * f >= u * f);
                assert(u * f >= u * 0x10_0000_0000_0000);
            }
            double::lemma_rounded_error(p2, q2);
            assert(g * u - (v * u) * f == y * u && (v * u) * f == w * u) by (nonlinear_arith)
                requires
                    y == g - v * f,
                    w == v * f,
            ;
            assert(-w <= k * y <= w) by (nonlinear_arith)
                requires
                    -(w * u) <= k * (y * u) <= w * u,
                    u > 0,
            ;
        }
    }
    vstd::arithmetic::div_mod::lemma_fundamental_div_mod(2 * g + u, 2 * u);
    vstd::arithmetic::div_mod::lemma_mod_bound(2 * g + u, 2 * u);
    let z = (2 * u) * s - 2 * g;
    assert(-u <= z <= u);
    let off = 2 * t * s - 2 * (v * d);
    // off * u == t * z + 2 * (t * y) + 2 * (v * x)
    assert(off * u == t * z + 2 * (t * y) + 2 * (v * x)) by {
        assert(off * u == t * ((2 * u) * s) - 2 * ((v * d) * u)) by (nonlinear_arith)
            requires
                off == 2 * t * s - 2 * (v * d),
        ;
        assert(t * z == t * ((2 * u) * s) - 2 * (t * g)) by (nonlinear_arith)
            requires
                z == (2 * u) * s - 2 * g,
        ;
        assert(t * y == t * g - t * (v * f)) by (nonlinear_arith)
            requires
                y == g - v * f,
        ;
        assert(v * x == v * (f * t) - v * (d * u)) by (nonlinear_arith)
            requires
                x == f * t - d * u,
        ;
        assert(t * (v * f) == v * (f * t) && v * (d * u) == (v * d) * u) by (nonlinear_arith);
    }
    lemma_share_combine(off, u, t, z, y, v, x, w, f, d, k);
    assert(s >= 0 && s <= u64::MAX);
}

proof fn lemma_one_large()
    ensures
        double::one() >= 0x10_0000_0000_0000 * 0x20_0000_0000_0000 * 4,
{
    vstd::arithmetic::power2::lemma2_to64();
    lemma_pow2_adds(64, 64);
    lemma_pow2_adds(128, 946);
    lemma_pow2_pos(946);
    let (a, b) = (pow2(128) as int, pow2(946) as int);
    assert(a * b >= a) by (nonlinear_arith)
        requires
            a > 0,
            b >= 1,
    ;
    assert(a == 0x1_0000_0000_0000_0000 * 0x1_0000_0000_0000_0000);
}

/// A ratio of integers of 53 bits has room for 53 more.
proof fn lemma_part_large(f: int, d: int, t: int, u: int, k: int, x: int)
    requires
        d >= 1,
        0 < t <= 0x20_0000_0000_0000,
        u >= 0x10_0000_0000_0000 * 0x20_0000_0000_0000 * 4,
        k == 0x20_0000_0000_0000,
        x == f * t - d * u,
        -(d * u) <= k * x,
        f >= 0,
    ensures
        f >= 0x10_0000_0000_0000,
{
    assert(d * u >= u) by (nonlinear_arith)
        requires
            d >= 1,
            u >= 0,
    ;
    assert(x >= -(d * u) / 2 - 1) by (nonlinear_arith)
        requires
            -(d * u) <= k * x,
            k == 0x20_0000_0000_0000,
            d * u >= 0,
    ;
    assert(f * t >= 0x10_0000_0000_0000 * 0x20_0000_0000_0000);
    assert(f >= 0x10_0000_0000_0000) by (nonlinear_arith)
        requires
            f * t >= 0x10_0000_0000_0000 * 0x20_0000_0000_0000,
            0 < t <= 0x20_0000_0000_0000,
            f >= 0,
    ;
}

proof fn lemma_share_combine(
    off: int,
    u: int,
    t: int,
    z: int,
    y: int,
    v: int,
    x: int,
    w: int,
    f: int,
    d: int,
    k: int,
)
    requires
        off * u == t * z + 2 * (t * y) + 2 * (v * x),
        -u <= z <= u,
        -w <= k * y <= w,
        w == v * f,
        -(d * u) <= k * x <= d * u,
        x == f * t - d * u,
        0 < d <= t,
        v >= 0,
        u > 0,
        k == 0x20_0000_0000_0000,
        f >= 0,
    ensures
        -(t * (k + 6 * v)) <= k * off <= t * (k + 6 * v),
{
    let c = v * (t * u);
    // What the ratio is off by, times the value.
    assert(0 <= d * u <= t * u) by (nonlinear_arith)
        requires
            0 < d <= t,
            u > 0,
    ;
    assert(-c <= v * (k * x) <= c) by (nonlinear_arith)
        requires
            -(t * u) <= k * x <= t * u,
            c == v * (t * u),
            v >= 0,
    ;
    assert(v * (k * x) == k * (v * x)) by (nonlinear_arith);
    // What the product is off by, times the total: `t * w` is at most `2 * c`.
    assert(f * t <= 2 * (t * u)) by {
        assert(x <= t * u) by (nonlinear_arith)
            requires
                k * x <= t * u,
                k == 0x20_0000_0000_0000,
                t * u >= 0,
        ;
    }
    assert(0 <= t * w <= 2 * c) by (nonlinear_arith)
        requires
            w == v * f,
            0 <= f * t <= 2 * (t * u),
            c == v * (t * u),
            v >= 0,
    {
        assert(t * w == v * (f * t));
        assert(v * (f * t) <= v * (2 * (t * u)));
        assert(v * (f * t) >= 0);
    }
    assert(f * t >= 0) by (nonlinear_arith)
        requires
            f >= 0,
            t > 0,
    ;
    assert(-(t * w) <= t * (k * y) <= t * w) by (nonlinear_arith)
        requires
            -w <= k * y <= w,
            t > 0,
    ;
    assert(t * (k * y) == k * (t * y)) by (nonlinear_arith);
    // The last rounding.
    assert(-(t * u) <= t * z <= t * u) by (nonlinear_arith)
        requires
            -u <= z <= u,
            t > 0,
    ;
    let b = k * (t * u) + 6 * c;
    assert(-b <= k * (off * u) <= b);
    assert(b == (t * (k + 6 * v)) * u) by (nonlinear_arith)
        requires
            b == k * (t * u) + 6 * c,
            c == v * (t * u),
    ;
    assert(k * (off * u) == (k * off) * u) by (nonlinear_arith);
    let r = t * (k + 6 * v);
    assert(-r <= k * off <= r) by (nonlinear_arith)
        requires
            -(r * u) <= (k * off) * u <= r * u,
            u > 0,
    ;
}

/// Sums the entries of `vals` at the given places.
fn sum_at(places: &Vec<usize>, vals: &Vec<u64>) -> (s: u64)
    requires
        forall|k: int| 0 <= k < places@.len() ==> #[trigger] places@[k] < vals@.len(),
        math::sum_over(places@, amount(vals@)) <= u64::MAX,
    ensures
        s == math::sum_over(places@, amount(vals@)),
{
    let mut s: u64 = 0;
    for k in 0..places.len()
        invariant
            forall|k: int| 0 <= k < places@.len() ==> #[trigger] places@[k] < vals@.len(),
            math::sum_over(places@, amount(vals@)) <= u64::MAX,
            s == math::sum_over(places@.take(k as int), amount(vals@)),
    {
        proof {
            assert(places@.take(k + 1).drop_last() =~= places@.take(k as int));
            math::lemma_sum_over_take(places@, amount(vals@), k + 1);
        }
        s += vals[places[k]];
    }
    assert(places@.take(places@.len() as int) =~= places@);
    s
}

/// The values of all outputs.
fn values_of(chain: &Chain) -> (vals: Vec<u64>)
    ensures
        vals@.len() == chain.len(),
        forall|o: int| 0 <= o < chain.len() ==> #[trigger] vals@[o] == chain.outputs@[o].value,
{
    let mut vals: Vec<u64> = Vec::new();
    for o in 0..chain.outputs.len()
        invariant
            vals@.len() == o,
            forall|i: int| 0 <= i < o ==> #[trigger] vals@[i] == chain.outputs@[i].value,
    {
        vals.push(chain.outputs[o].value);
    }
    vals
}

fn origin_taint(chain: &Chain, origin: usize) -> (taint: Taint)
    requires
        origin < chain.len(),
    ensures
        taint@ == at_origin(chain, origin),
{
    let mut taint: Taint = vec![0; chain.outputs.len()];
    taint.set(origin, chain.outputs[origin].value);
    assert(taint@ =~= at_origin(chain, origin));
    taint
}

/// Haircut taint never exceeds the value that carries it, where doubles hold it
/// exactly.
pub proof fn lemma_haircut_bounded(c: &Chain, origin: usize, k: int)
    requires
        c.in_range(),
        values_exact(c),
        origin < c.len(),
        k <= c.txs@.len(),
    ensures
        haircut_until(c, origin, k).len() == c.len(),
        forall|o: int|
            0 <= o < c.len() ==> #[trigger] haircut_until(c, origin, k)[o] <= c.outputs@[o].value,
    decreases k,
{
    if k > 0 {
        let t = k - 1;
        let taint = haircut_until(c, origin, t);
        lemma_haircut_bounded(c, origin, t);
        lemma_dirty_bounded(c, taint, t);
        let now = haircut_until(c, origin, k);
        assert forall|o: int| 0 <= o < c.len() implies #[trigger] now[o] <= c.outputs@[o].value by {
            assert(taint[o] <= c.outputs@[o].value);
            if !(dirty_in(c, taint, t) == 0 || c.value_in(t) == 0) {
                assert(c.outputs@[o].value <= EXACT);
                lemma_share_bounded(
                    c.outputs@[o].value as int,
                    dirty_in(c, taint, t),
                    c.value_in(t),
                );
            }
        }
    }
}

/// Where no output carries more taint than value, no transaction takes in
/// more taint than value.
pub proof fn lemma_dirty_bounded(c: &Chain, taint: Seq<u64>, t: int)
    requires
        c.in_range(),
        0 <= t < c.txs@.len(),
        taint.len() == c.len(),
        forall|o: int| 0 <= o < c.len() ==> #[trigger] taint[o] <= c.outputs@[o].value,
    ensures
        0 <= dirty_in(c, taint, t) <= c.value_in(t),
{
    let ins = c.txs@[t].inputs@;
    assert forall|i: int| 0 <= i < ins.len() implies 0 <= amount(taint)(#[trigger] ins[i] as int)
        <= c.value()(ins[i] as int) by {
        assert(c.txs@[t].inputs@[i] < c.len());
        assert(taint[ins[i] as int] <= c.outputs@[ins[i] as int].value);
    }
    lemma_sum_over_le(ins, amount(taint), c.value());
}

proof fn lemma_sum_over_le(s: Seq<usize>, f: spec_fn(int) -> int, g: spec_fn(int) -> int)
    requires
        forall|i: int|
            0 <= i < s.len() ==> 0 <= f(#[trigger] s[i] as int) <= g(s[i] as int),
    ensures
        0 <= math::sum_over(s, f) <= math::sum_over(s, g),
    decreases s.len(),
{
    if s.len() > 0 {
        assert(0 <= f(s[s.len() - 1] as int) <= g(s[s.len() - 1] as int));
        assert forall|i: int| 0 <= i < s.drop_last().len() implies 0 <= f(
            #[trigger] s.drop_last()[i] as int,
        ) <= g(s.drop_last()[i] as int) by {
            assert(s.drop_last()[i] == s[i]);
        }
        lemma_sum_over_le(s.drop_last(), f, g);
    }
}

/// Taint has a length of its own.
pub proof fn lemma_haircut_len(c: &Chain, origin: usize, k: int)
    ensures
        haircut_until(c, origin, k).len() == c.len(),
    decreases k,
{
    if k > 0 {
        lemma_haircut_len(c, origin, k - 1);
    }
}

/// Doubles hold every value exactly.
pub open spec fn values_exact(c: &Chain) -> bool {
    forall|o: int| 0 <= o < c.len() ==> (#[trigger] c.outputs@[o]).value <= EXACT
}

/// The taint that goes into any one transaction is a machine number.
pub open spec fn haircut_fits(c: &Chain, origin: usize) -> bool {
    forall|t: int|
        0 <= t < c.txs@.len() ==> #[trigger] dirty_in(c, haircut_until(c, origin, t), t) <= u64::MAX
}

/// Where doubles hold every value exactly, the taint fits wherever the value does.
pub proof fn lemma_haircut_fits(c: &Chain, origin: usize)
    requires
        c.in_range(),
        inputs_fit(c),
        values_exact(c),
        origin < c.len(),
    ensures
        haircut_fits(c, origin),
{
    assert forall|t: int| 0 <= t < c.txs@.len() implies #[trigger] dirty_in(
        c,
        haircut_until(c, origin, t),
        t,
    ) <= u64::MAX by {
        lemma_haircut_bounded(c, origin, t);
        lemma_dirty_bounded(c, haircut_until(c, origin, t), t);
        assert(c.value_in(t) <= u64::MAX);
    }
}

/// The value that goes into any one transaction is a machine number.
pub open spec fn inputs_fit(c: &Chain) -> bool {
    forall|t: int| 0 <= t < c.txs@.len() ==> #[trigger] c.value_in(t) <= u64::MAX
}

/// Haircut. Total tainted value is conserved up to rounding, and smeared
/// across every output of every descendant transaction.
pub fn haircut(chain: &Chain, origin: usize) -> (taint: Taint)
    requires
        chain.in_range(),
        inputs_fit(chain),
        origin < chain.len(),
        haircut_fits(chain, origin),
    ensures
        taint@ == haircut_until(chain, origin, chain.txs@.len() as int),
{
    let vals = values_of(chain);
    let n = chain.outputs.len();
    let mut taint = origin_taint(chain, origin);
    for t in 0..chain.txs.len()
        invariant
            n == chain.len(),
            chain.in_range(),
            inputs_fit(chain),
            origin < chain.len(),
            haircut_fits(chain, origin),
            vals@.len() == chain.len(),
            forall|o: int| 0 <= o < chain.len() ==> #[trigger] vals@[o] == chain.outputs@[o].value,
            taint@.len() == chain.len(),
            taint@ == haircut_until(chain, origin, t as int),
    {
        let tx = &chain.txs[t];
        proof {
            assert forall|k: int| 0 <= k < tx.inputs@.len() implies #[trigger] tx.inputs@[k]
                < chain.len() by {
                assert(chain.txs@[t as int].inputs@[k] < chain.len());
            }
            assert forall|k: int| 0 <= k < tx.inputs@.len() implies amount(vals@)(
                #[trigger] tx.inputs@[k] as int,
            ) == chain.value()(tx.inputs@[k] as int) by {
                assert(tx.inputs@[k] < chain.len());
            }
            math::lemma_sum_over_same(tx.inputs@, amount(vals@), chain.value());
            assert(chain.value_in(t as int) <= u64::MAX);
            assert(dirty_in(chain, haircut_until(chain, origin, t as int), t as int) <= u64::MAX);
        }
        let total = sum_at(&tx.inputs, &vals);
        let dirty = sum_at(&tx.inputs, &taint);
        if dirty != 0 && total != 0 {
            let ghost t0 = taint@;
            let ghost f = |o: int|
                share(chain.outputs@[o].value as int, dirty_in(chain, t0, t as int), chain.value_in(
                    t as int,
                ));
            let whole = Double::from_u64(total);
            proof {
                double::lemma_of_exact(1);
                double::lemma_one();
                double::lemma_of_monotone(1, total as int);
                whole.lemma_sign();
            }
            let ratio = Double::from_u64(dirty).over(whole);
            for k in 0..tx.outputs.len()
                invariant
                    chain.in_range(),
                    n == chain.len(),
                    t < chain.txs@.len(),
                    tx.outputs@ == chain.txs@[t as int].outputs@,
                    vals@.len() == chain.len(),
                    forall|o: int|
                        0 <= o < chain.len() ==> #[trigger] vals@[o] == chain.outputs@[o].value,
                    ratio.normal(),
                    ratio.e <= 0x1000,
                    ratio.value() == double::quotient(
                        double::of(dirty as int),
                        double::of(total as int),
                    ),
                    f == (|o: int|
                        share(chain.outputs@[o].value as int, dirty as int, total as int)),
                    t0.len() == chain.len(),
                    taint@ == paint(t0, tx.outputs@.take(k as int), f),
            {
                let o = tx.outputs[k];
                assert(chain.txs@[t as int].outputs@[k as int] < chain.len());
                let s = Double::from_u64(vals[o]).times(ratio).to_nearest();
                taint.set(o, s);
                proof {
                    let done = tx.outputs@.take(k as int);
                    assert(tx.outputs@.take(k + 1) =~= done.push(o));
                    assert(taint@ =~= paint(t0, tx.outputs@.take(k + 1), f)) by {
                        assert forall|i: int| 0 <= i < t0.len() implies taint@[i] == paint(
                            t0,
                            tx.outputs@.take(k + 1),
                            f,
                        )[i] by {
                            graph::lemma_push_contains(done, o, i as usize);
                        }
                    }
                }
            }
            assert(tx.outputs@.take(tx.outputs@.len() as int) =~= tx.outputs@);
        }
    }
    taint
}

/// Poison. The total is not conserved: every descendant output counts in full.
pub fn poison(chain: &Chain, origin: usize) -> (taint: Taint)
    requires
        chain.in_range(),
        origin < chain.len(),
    ensures
        taint@ == poison_until(chain, origin, chain.txs@.len() as int),
{
    let n = chain.outputs.len();
    let mut taint = origin_taint(chain, origin);
    for t in 0..chain.txs.len()
        invariant
            n == chain.len(),
            chain.in_range(),
            origin < chain.len(),
            taint@.len() == chain.len(),
            taint@ == poison_until(chain, origin, t as int),
    {
        let tx = &chain.txs[t];
        let mut dirty = false;
        for k in 0..tx.inputs.len()
            invariant
                chain.in_range(),
                t < chain.txs@.len(),
                taint@.len() == chain.len(),
                tx.inputs@ == chain.txs@[t as int].inputs@,
                dirty ==> some_dirty(chain, taint@, t as int),
                !dirty ==> forall|j: int|
                    0 <= j < k ==> taint@[#[trigger] chain.txs@[t as int].inputs@[j] as int] == 0,
        {
            assert(chain.txs@[t as int].inputs@[k as int] < chain.len());
            if taint[tx.inputs[k]] > 0 {
                dirty = true;
            }
        }
        if dirty {
            let ghost t0 = taint@;
            for k in 0..tx.outputs.len()
                invariant
                    chain.in_range(),
                    n == chain.len(),
                    t < chain.txs@.len(),
                    tx.outputs@ == chain.txs@[t as int].outputs@,
                    t0.len() == chain.len(),
                    taint@ == paint(t0, tx.outputs@.take(k as int), chain.value()),
            {
                let o = tx.outputs[k];
                assert(chain.txs@[t as int].outputs@[k as int] < chain.len());
                taint.set(o, chain.outputs[o].value);
                proof {
                    let done = tx.outputs@.take(k as int);
                    assert(tx.outputs@.take(k + 1) =~= done.push(o));
                    assert(taint@ =~= paint(t0, tx.outputs@.take(k + 1), chain.value())) by {
                        assert forall|i: int| 0 <= i < t0.len() implies taint@[i] == paint(
                            t0,
                            tx.outputs@.take(k + 1),
                            chain.value(),
                        )[i] by {
                            graph::lemma_push_contains(done, o, i as usize);
                        }
                    }
                }
            }
            assert(tx.outputs@.take(tx.outputs@.len() as int) =~= tx.outputs@);
        }
    }
    taint
}

/// The value of a queue of runs.
pub open spec fn run_value(parts: Seq<TaintPart>) -> int
    decreases parts.len(),
{
    if parts.len() == 0 {
        0
    } else {
        parts[0].value + run_value(parts.skip(1))
    }
}

/// The tainted value of a queue of runs.
pub open spec fn dirt(parts: Seq<TaintPart>) -> int
    decreases parts.len(),
{
    if parts.len() == 0 {
        0
    } else {
        (if parts[0].name == CLEAN {
            0
        } else {
            parts[0].value as int
        }) + dirt(parts.skip(1))
    }
}

/// The provenance of each single unit of value in a queue, front first.
pub open spec fn spread(parts: Seq<TaintPart>) -> Seq<u16>
    decreases parts.len(),
{
    if parts.len() == 0 {
        Seq::empty()
    } else {
        Seq::new(parts[0].value as nat, |i: int| parts[0].name) + spread(parts.skip(1))
    }
}

/// Cutting `value` off the front of a queue: what is taken and what stays. A
/// run that is longer than what is still needed is split; what the queue
/// cannot give is clean.
pub open spec fn cut(given: Seq<TaintPart>, value: u64) -> (Seq<TaintPart>, Seq<TaintPart>)
    decreases given.len(),
{
    if value == 0 {
        (Seq::empty(), given)
    } else if given.len() == 0 {
        (seq![TaintPart { name: CLEAN, value }], given)
    } else if given[0].value <= value {
        let (taken, rest) = cut(given.skip(1), (value - given[0].value) as u64);
        (seq![given[0]] + taken, rest)
    } else {
        (
            seq![TaintPart { name: given[0].name, value }],
            seq![
                TaintPart { name: given[0].name, value: (given[0].value - value) as u64 },
            ] + given.skip(1),
        )
    }
}

pub proof fn lemma_one_run(p: TaintPart, rest: Seq<TaintPart>)
    ensures
        run_value(seq![p] + rest) == p.value + run_value(rest),
        dirt(seq![p] + rest) == (if p.name == CLEAN {
            0
        } else {
            p.value as int
        }) + dirt(rest),
        spread(seq![p] + rest) == Seq::new(p.value as nat, |i: int| p.name) + spread(rest),
{
    assert((seq![p] + rest).skip(1) =~= rest);
}

/// Dirt and value lie between nothing and everything.
pub proof fn lemma_dirt_bounds(parts: Seq<TaintPart>)
    ensures
        0 <= dirt(parts) <= run_value(parts),
        spread(parts).len() == run_value(parts),
    decreases parts.len(),
{
    if parts.len() > 0 {
        lemma_dirt_bounds(parts.skip(1));
    }
}

/// A cut takes exactly the value asked for, and where the queue has enough it
/// loses nothing: the units that are taken followed by those that stay are the
/// units that were there, in order, each with its provenance.
pub proof fn lemma_cut_lossless(given: Seq<TaintPart>, value: u64)
    ensures
        run_value(cut(given, value).0) == value,
        dirt(cut(given, value).0) + dirt(cut(given, value).1) == dirt(given),
        value <= run_value(given) ==> run_value(cut(given, value).1) == run_value(given) - value,
        value <= run_value(given) ==> spread(cut(given, value).0) + spread(cut(given, value).1)
            == spread(given),
        value > 0 ==> cut(given, value).0.len() > 0,
    decreases given.len(),
{
    lemma_dirt_bounds(given);
    let empty = Seq::<TaintPart>::empty();
    if value == 0 {
        assert(spread(empty) + spread(given) =~= spread(given));
    } else if given.len() == 0 {
        let p = TaintPart { name: CLEAN, value };
        assert(seq![p] + empty =~= seq![p]);
        lemma_one_run(p, empty);
    } else if given[0].value <= value {
        let left = (value - given[0].value) as u64;
        let rest = given.skip(1);
        lemma_cut_lossless(rest, left);
        lemma_one_run(given[0], cut(rest, left).0);
        if value <= run_value(given) {
            assert(spread(cut(given, value).0) + spread(cut(given, value).1) =~= spread(given));
        }
    } else {
        let a = TaintPart { name: given[0].name, value };
        let b = TaintPart { name: given[0].name, value: (given[0].value - value) as u64 };
        let rest = given.skip(1);
        assert(seq![a] + empty =~= seq![a]);
        lemma_one_run(a, empty);
        lemma_one_run(b, rest);
        lemma_dirt_bounds(rest);
        assert(Seq::new(value as nat, |i: int| a.name) + spread(empty) + (Seq::new(
            b.value as nat,
            |i: int| b.name,
        ) + spread(rest)) =~= Seq::new(given[0].value as nat, |i: int| given[0].name) + spread(
            rest,
        ));
    }
}

/// Cuts `value` off the front of a taint queue, splitting the run at the
/// boundary.
pub fn extract_taint(given: &mut VecDeque<TaintPart>, value: u64) -> (taken: VecDeque<TaintPart>)
    ensures
        (taken@, final(given)@) == cut(old(given)@, value),
{
    let mut taken: VecDeque<TaintPart> = VecDeque::new();
    let mut left = value;
    let ghost start = given@;
    assert(taken@ + cut(given@, left).0 =~= cut(start, value).0);
    while left > 0
        invariant
            cut(start, value) == (taken@ + cut(given@, left).0, cut(given@, left).1),
        decreases left, given@.len(),
    {
        let ghost g0 = given@;
        let ghost t0 = taken@;
        let ghost l0 = left;
        match given.pop_front() {
            None => {
                let part = TaintPart { name: CLEAN, value: left };
                taken.push_back(part);
                left = 0;
                assert(taken@ + cut(given@, left).0 =~= t0 + cut(g0, l0).0);
            },
            Some(part) => {
                assert(given@ =~= g0.skip(1));
                if part.value <= left {
                    taken.push_back(part);
                    left -= part.value;
                    assert(taken@ + cut(given@, left).0 =~= t0 + cut(g0, l0).0);
                } else {
                    taken.push_back(TaintPart { name: part.name, value: left });
                    let rest = TaintPart { name: part.name, value: part.value - left };
                    given.push_front(rest);
                    left = 0;
                    assert(given@ =~= seq![rest] + g0.skip(1));
                    assert(taken@ + cut(given@, left).0 =~= t0 + cut(g0, l0).0);
                }
            },
        }
    }
    assert(taken@ + cut(given@, left).0 =~= taken@);
    taken
}

/// What an input puts into the transaction: its runs, or one clean run where
/// nothing is recorded.
pub open spec fn content(c: &Chain, queues: Seq<Seq<TaintPart>>, o: int) -> Seq<TaintPart> {
    if queues[o].len() == 0 {
        seq![TaintPart { name: CLEAN, value: c.outputs@[o].value }]
    } else {
        queues[o]
    }
}

/// The first `k` inputs laid end to end.
pub open spec fn gather(
    c: &Chain,
    queues: Seq<Seq<TaintPart>>,
    ins: Seq<usize>,
    k: int,
) -> Seq<TaintPart>
    decreases k,
{
    if k <= 0 {
        Seq::empty()
    } else {
        gather(c, queues, ins, k - 1) + content(c, queues, ins[k - 1] as int)
    }
}

/// The first `k` outputs cut off the pool in order.
pub open spec fn deal(
    c: &Chain,
    queues: Seq<Seq<TaintPart>>,
    pool: Seq<TaintPart>,
    outs: Seq<usize>,
    k: int,
) -> (Seq<Seq<TaintPart>>, Seq<TaintPart>)
    decreases k,
{
    if k <= 0 {
        (queues, pool)
    } else {
        let (qs, rest) = deal(c, queues, pool, outs, k - 1);
        let o = outs[k - 1] as int;
        let (taken, left) = cut(rest, c.outputs@[o].value);
        (qs.update(o, taken), left)
    }
}

/// Some input has recorded runs.
pub open spec fn some_runs(c: &Chain, queues: Seq<Seq<TaintPart>>, t: int) -> bool {
    exists|k: int|
        0 <= k < c.txs@[t].inputs@.len() && queues[#[trigger] c.txs@[t].inputs@[k] as int].len() > 0
}

/// One transaction: nothing recorded goes in, nothing changes; otherwise the
/// inputs are laid end to end and dealt to the outputs.
pub open spec fn fifo_step(c: &Chain, queues: Seq<Seq<TaintPart>>, t: int) -> Seq<Seq<TaintPart>> {
    if some_runs(c, queues, t) {
        let ins = c.txs@[t].inputs@;
        let outs = c.txs@[t].outputs@;
        deal(c, queues, gather(c, queues, ins, ins.len() as int), outs, outs.len() as int).0
    } else {
        queues
    }
}

pub open spec fn origin_queues(c: &Chain, origin: usize) -> Seq<Seq<TaintPart>> {
    Seq::new(
        c.len(),
        |o: int|
            if o == origin {
                seq![TaintPart { name: STOLEN, value: c.outputs@[o].value }]
            } else {
                Seq::empty()
            },
    )
}

/// The recorded runs of every output after the first `k` transactions.
pub open spec fn fifo_until(c: &Chain, origin: usize, k: int) -> Seq<Seq<TaintPart>>
    decreases k,
{
    if k <= 0 {
        origin_queues(c, origin)
    } else {
        fifo_step(c, fifo_until(c, origin, k - 1), k - 1)
    }
}

/// Recorded runs make up the value of their output.
pub open spec fn full(c: &Chain, queues: Seq<Seq<TaintPart>>) -> bool {
    &&& queues.len() == c.len()
    &&& forall|o: int|
        0 <= o < c.len() && (#[trigger] queues[o]).len() > 0 ==> run_value(queues[o])
            == c.outputs@[o].value
}

pub proof fn lemma_deal_full(
    c: &Chain,
    queues: Seq<Seq<TaintPart>>,
    pool: Seq<TaintPart>,
    outs: Seq<usize>,
    k: int,
)
    requires
        full(c, queues),
        0 <= k <= outs.len(),
        forall|i: int| 0 <= i < outs.len() ==> #[trigger] outs[i] < c.len(),
    ensures
        full(c, deal(c, queues, pool, outs, k).0),
        forall|o: int|
            0 <= o < c.len() && !outs.take(k).contains(o as usize) ==> #[trigger] deal(
                c,
                queues,
                pool,
                outs,
                k,
            ).0[o] == queues[o],
    decreases k,
{
    if k > 0 {
        lemma_deal_full(c, queues, pool, outs, k - 1);
        let (qs, rest) = deal(c, queues, pool, outs, k - 1);
        let x = outs[k - 1];
        assert(x < c.len());
        lemma_cut_lossless(rest, c.outputs@[x as int].value);
        let now = deal(c, queues, pool, outs, k).0;
        assert(outs.take(k) =~= outs.take(k - 1).push(x));
        assert forall|o: int| 0 <= o < c.len() && !outs.take(k).contains(o as usize)
            implies #[trigger] now[o]
            == queues[o] by {
            graph::lemma_push_contains(outs.take(k - 1), x, o as usize);
            assert(qs[o] == queues[o]);
        }
        assert forall|o: int| 0 <= o < c.len() && (#[trigger] now[o]).len() > 0 implies run_value(
            now[o],
        ) == c.outputs@[o].value by {
            if o != x {
                assert(now[o] == qs[o]);
            }
        }
    }
}

pub proof fn lemma_fifo_full(c: &Chain, origin: usize, k: int)
    requires
        c.in_range(),
        origin < c.len(),
        k <= c.txs@.len(),
    ensures
        full(c, fifo_until(c, origin, k)),
    decreases k,
{
    if k <= 0 {
        let p = TaintPart { name: STOLEN, value: c.outputs@[origin as int].value };
        lemma_one_run(p, Seq::empty());
        assert(seq![p] + Seq::<TaintPart>::empty() =~= seq![p]);
    } else {
        let t = k - 1;
        let qs = fifo_until(c, origin, t);
        lemma_fifo_full(c, origin, t);
        let ins = c.txs@[t].inputs@;
        let outs = c.txs@[t].outputs@;
        assert forall|i: int| 0 <= i < outs.len() implies #[trigger] outs[i] < c.len() by {
            assert(c.txs@[t].outputs@[i] < c.len());
        }
        lemma_deal_full(c, qs, gather(c, qs, ins, ins.len() as int), outs, outs.len() as int);
    }
}

/// The runs of each queue, as sequences.
spec fn views(queues: Seq<VecDeque<TaintPart>>) -> Seq<Seq<TaintPart>> {
    Seq::new(queues.len(), |o: int| queues[o]@)
}

/// FIFO. Lossless: every unit of value keeps exactly one provenance.
pub fn fifo(chain: &Chain, origin: usize) -> (taint: Taint)
    requires
        chain.in_range(),
        origin < chain.len(),
    ensures
        taint@.len() == chain.len(),
        forall|o: int|
            0 <= o < chain.len() ==> #[trigger] taint@[o] == dirt(
                fifo_until(chain, origin, chain.txs@.len() as int)[o],
            ),
{
    let n = chain.outputs.len();
    let mut queues: Vec<VecDeque<TaintPart>> = Vec::new();
    for o in 0..n
        invariant
            n == chain.len(),
            queues@.len() == o,
            forall|i: int|
                0 <= i < o ==> (#[trigger] queues@[i])@ == origin_queues(chain, origin)[i],
    {
        let mut q: VecDeque<TaintPart> = VecDeque::new();
        if o == origin {
            q.push_back(TaintPart { name: STOLEN, value: chain.outputs[o].value });
        }
        assert(q@ =~= origin_queues(chain, origin)[o as int]);
        queues.push(q);
    }
    assert(views(queues@) =~= origin_queues(chain, origin));
    for t in 0..chain.txs.len()
        invariant
            n == chain.len(),
            chain.in_range(),
            origin < chain.len(),
            queues@.len() == n,
            views(queues@) == fifo_until(chain, origin, t as int),
    {
        fifo_transaction(chain, &mut queues, t);
    }
    let mut taint: Taint = Vec::new();
    for o in 0..n
        invariant
            n == chain.len(),
            chain.in_range(),
            origin < chain.len(),
            queues@.len() == n,
            views(queues@) == fifo_until(chain, origin, chain.txs@.len() as int),
            taint@.len() == o,
            forall|i: int| 0 <= i < o ==> #[trigger] taint@[i] == dirt(views(queues@)[i]),
    {
        proof {
            lemma_fifo_full(chain, origin, chain.txs@.len() as int);
            assert(views(queues@)[o as int] == queues@[o as int]@);
            lemma_dirt_bounds(queues@[o as int]@);
        }
        taint.push(dirty_value(&queues[o], chain.outputs[o].value));
    }
    taint
}

/// The tainted value of a queue whose value is at most `bound`.
fn dirty_value(q: &VecDeque<TaintPart>, bound: u64) -> (d: u64)
    requires
        dirt(q@) <= bound,
    ensures
        d == dirt(q@),
{
    let mut d: u64 = 0;
    assert(q@.skip(0) =~= q@);
    for i in 0..q.len()
        invariant
            dirt(q@) <= bound,
            d + dirt(q@.skip(i as int)) == dirt(q@),
    {
        proof {
            assert(q@.skip(i as int).skip(1) =~= q@.skip(i + 1));
            lemma_dirt_bounds(q@.skip(i + 1));
        }
        let p = q[i];
        if p.name != CLEAN {
            d += p.value;
        }
    }
    d
}

/// Lays the inputs of one transaction end to end and deals them out.
fn fifo_transaction(chain: &Chain, queues: &mut Vec<VecDeque<TaintPart>>, t: usize)
    requires
        chain.in_range(),
        t < chain.txs@.len(),
        old(queues)@.len() == chain.len(),
    ensures
        final(queues)@.len() == chain.len(),
        views(final(queues)@) == fifo_step(chain, views(old(queues)@), t as int),
{
    let tx = &chain.txs[t];
    let ghost qs = views(queues@);
    let mut recorded = false;
    for k in 0..tx.inputs.len()
        invariant
            chain.in_range(),
            t < chain.txs@.len(),
            queues@.len() == chain.len(),
            qs == views(queues@),
            tx.inputs@ == chain.txs@[t as int].inputs@,
            recorded ==> some_runs(chain, qs, t as int),
            !recorded ==> forall|j: int|
                0 <= j < k ==> qs[#[trigger] chain.txs@[t as int].inputs@[j] as int].len() == 0,
    {
        assert(chain.txs@[t as int].inputs@[k as int] < chain.len());
        if queues[tx.inputs[k]].len() > 0 {
            assert(qs[chain.txs@[t as int].inputs@[k as int] as int].len() > 0);
            recorded = true;
        }
    }
    if recorded {
        let mut pool: VecDeque<TaintPart> = VecDeque::new();
        assert(pool@ =~= gather(chain, qs, tx.inputs@, 0));
        for k in 0..tx.inputs.len()
            invariant
                chain.in_range(),
                t < chain.txs@.len(),
                queues@.len() == chain.len(),
                qs == views(queues@),
                tx.inputs@ == chain.txs@[t as int].inputs@,
                pool@ == gather(chain, qs, tx.inputs@, k as int),
        {
            let o = tx.inputs[k];
            assert(chain.txs@[t as int].inputs@[k as int] < chain.len());
            assert(qs[o as int] == queues@[o as int]@);
            let ghost p0 = pool@;
            if queues[o].len() == 0 {
                pool.push_back(TaintPart { name: CLEAN, value: chain.outputs[o].value });
            } else {
                let mut runs = queues[o].clone();
                pool.append(&mut runs);
            }
            assert(pool@ =~= p0 + content(chain, qs, o as int));
        }
        let ghost start = pool@;
        for k in 0..tx.outputs.len()
            invariant
                chain.in_range(),
                t < chain.txs@.len(),
                queues@.len() == chain.len(),
                tx.outputs@ == chain.txs@[t as int].outputs@,
                (views(queues@), pool@) == deal(chain, qs, start, tx.outputs@, k as int),
        {
            let o = tx.outputs[k];
            assert(chain.txs@[t as int].outputs@[k as int] < chain.len());
            let ghost q0 = queues@;
            let taken = extract_taint(&mut pool, chain.outputs[o].value);
            let ghost tk = taken@;
            queues.set(o, taken);
            assert(views(queues@) =~= views(q0).update(o as int, tk));
        }
    }
}

} // verus!
