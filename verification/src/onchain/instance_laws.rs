//! What payments of a random ledger look like.

use crate::debugging::rank_laws;
use crate::double;
use crate::onchain::instance;
use crate::onchain::instance::{ChainConfig, Ledger};
use crate::rng;
use vstd::arithmetic::power2::{lemma_pow2_adds, lemma_pow2_pos, pow2};
use vstd::prelude::*;

verus! {

/// A payment takes between a tenth and seven tenths of what it spends, rounded down
/// and at least one.
pub proof fn lemma_payment_share(total: int, draw: u64)
    requires
        2 <= total <= 0x4_0000_0000_0000,
    ensures
        ({
            let p = instance::payment_of(total, draw);
            &&& 1 <= p < total
            &&& 10 * p <= 7 * total
            &&& total <= 10 * p + 10
        }),
{
    let (h, u, v) = (pow2(1018) as int, double::one(), instance::part_of(draw));
    let b = 0x20_0000_0000_0000int;
    lemma_pow2_pos(1018);
    lemma_pow2_adds(1018, 3);
    lemma_pow2_adds(1018, 56);
    vstd::arithmetic::power2::lemma2_to64();
    vstd::arithmetic::power2::lemma2_to64_rest();
    double::lemma_one();
    instance::lemma_part_below(draw);
    assert(u == 0x100_0000_0000_0000 * h);
    assert(v >= 0x19_9999_9999_999a * h);
    assert(v < 0x16_6666_6666_6666 * (8 * h));
    assert(10 * v >= u && 10 * v < 7 * u);
    assert(v >= 0x10_0000_0000_0000);
    rank_laws::lemma_product_error(v, total);
    let prod = double::product(double::of(total), v);
    let (x, t) = (v * total, u * total);
    assert(10 * x >= t && 10 * x <= 7 * t) by (nonlinear_arith)
        requires
            x == v * total,
            t == u * total,
            10 * v >= u,
            10 * v < 7 * u,
            total > 0,
    ;
    assert(0 < t && t <= 0x4_0000_0000_0000 * u) by (nonlinear_arith)
        requires
            t == u * total,
            0 < total <= 0x4_0000_0000_0000,
            u > 0,
    ;
    vstd::arithmetic::div_mod::lemma_fundamental_div_mod(prod, u);
    vstd::arithmetic::div_mod::lemma_mod_bound(prod, u);
    let q = prod / u;
    let w = u * q;
    assert(b * 10 * prod <= b * 7 * t + 7 * t);
    assert(10 * w < 7 * t + u);
    assert(10 * (w + u) > t - u);
    assert(10 * q <= 7 * total) by (nonlinear_arith)
        requires
            10 * (u * q) < 7 * (u * total) + u,
            u > 0,
    ;
    assert(8 * (10 * (w + u)) > 8 * t - u);
    assert(total <= 10 * q + 10) by (nonlinear_arith)
        requires
            8 * (10 * (u * q + u)) > 8 * (u * total) - u,
            u > 0,
    ;
    assert(q >= 0);
}

/// Who is paid is someone else, where there is anyone else to pay.
pub proof fn lemma_nobody_pays_themselves(
    l: &Ledger,
    cfg: &ChainConfig,
    sender: int,
    k: int,
    total: int,
    stream: Map<nat, u32>,
)
    requires
        2 <= l.unspent@.len() <= usize::MAX,
        0 <= sender < l.unspent@.len(),
        rng::range_draw(stream, 0, l.unspent@.len() as u64).0 < l.unspent@.len(),
    ensures
        ({
            let p = instance::payment_turn(l, cfg, sender, k, total, stream).0;
            p.sender == sender && p.recipient != sender && p.recipient < l.unspent@.len()
        }),
{
    let n = l.unspent@.len() as int;
    let r = rng::range_draw(stream, 0, n as u64).0 as int;
    if r == sender {
        if r + 1 < n {
            vstd::arithmetic::div_mod::lemma_small_mod((r + 1) as nat, n as nat);
        } else {
            vstd::arithmetic::div_mod::lemma_mod_self_0(n);
        }
    }
}

/// Where addresses are never reused, every payment and all change go to new ones;
/// where they always are, none goes to a new one if there is an old one.
pub proof fn lemma_reuse(
    l: &Ledger,
    cfg: &ChainConfig,
    sender: int,
    k: int,
    total: int,
    stream: Map<nat, u32>,
)
    requires
        0 <= sender < l.unspent@.len() <= usize::MAX,
        l.entity_addresses@.len() == l.unspent@.len(),
        rng::range_draw(stream, 0, l.unspent@.len() as u64).0 < l.unspent@.len(),
        forall|e: int|
            0 <= e < l.entity_addresses@.len() ==> (#[trigger] l.entity_addresses@[e])@.len() > 0,
    ensures
        ({
            let p = instance::payment_turn(l, cfg, sender, k, total, stream).0;
            &&& cfg.recipient_reuse_rate == 0 ==> p.to is None
            &&& cfg.recipient_reuse_rate >= 9_007_199_254_740_992 ==> p.to is Some
            &&& cfg.change_reuse_rate == 0 ==> p.change_to is None
            &&& cfg.change_reuse_rate >= 9_007_199_254_740_992 ==> p.change_to is Some
        }),
{
    let n = l.unspent@.len() as int;
    let (r, used) = rng::range_draw(stream, 0, n as u64);
    let recipient = if r == sender {
        (r + 1) % n
    } else {
        r as int
    };
    vstd::arithmetic::div_mod::lemma_mod_bound(r + 1, n);
    assert(l.entity_addresses@[recipient]@.len() > 0);
    assert(l.entity_addresses@[sender]@.len() > 0);
    let s2 = rng::skip_words(rng::skip_words(stream, used), 2);
    assert(s2[0] <= 0xffff_ffff && s2[1] <= 0xffff_ffff);
    let (to, s3) = instance::reused(
        l.entity_addresses@[recipient]@,
        instance::heads(s2, cfg.recipient_reuse_rate),
        rng::skip_words(s2, 2),
    );
    assert(s3[0] <= 0xffff_ffff && s3[1] <= 0xffff_ffff);
}

/// Payment and change are listed in shuffled order, so that their places do not tell
/// them apart: the last draw of a payment is the shuffle of the two.
pub proof fn lemma_outputs_are_shuffled(
    l: &Ledger,
    cfg: &ChainConfig,
    sender: int,
    k: int,
    total: int,
    stream: Map<nat, u32>,
    after: &Ledger,
) -> (shuffle: Map<nat, u32>)
    requires
        l.pays(&instance::payment_turn(l, cfg, sender, k, total, stream).0, after),
        l.chain.len() + 2 <= usize::MAX,
    ensures
        ({
            let (order, used) = rng::shuffle_draw(shuffle, 2);
            let listed = after.chain.txs@[l.chain.txs@.len() as int].outputs@;
            &&& instance::payment_turn(l, cfg, sender, k, total, stream).1 == rng::skip_words(
                shuffle,
                used,
            )
            &&& listed.len() == 2
            &&& rng::is_order(order, 2) ==> listed[0] == l.chain.len() + order[0] && listed[1]
                == l.chain.len() + order[1]
        }),
{
    let n = l.unspent@.len() as int;
    let (r, used) = rng::range_draw(stream, 0, n as u64);
    let recipient = if r == sender {
        (r + 1) % n
    } else {
        r as int
    };
    let s2 = rng::skip_words(rng::skip_words(stream, used), 2);
    let (to, s3) = instance::reused(
        l.entity_addresses@[recipient]@,
        instance::heads(s2, cfg.recipient_reuse_rate),
        rng::skip_words(s2, 2),
    );
    let (change_to, s4) = instance::reused(
        instance::change_pool(l, sender, recipient, to),
        instance::heads(s3, cfg.change_reuse_rate),
        rng::skip_words(s3, 2),
    );
    let order = rng::shuffle_draw(s4, 2).0;
    if rng::is_order(order, 2) {
        assert(0 <= order[0] < 2 && 0 <= order[1] < 2 && order[0] != order[1]);
    }
    s4
}

} // verus!
