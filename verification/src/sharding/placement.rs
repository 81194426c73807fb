//! Placement by hash.
//!
//! `hash(key) mod N` couples placement to `N`: growing 4 shards to 5 moves
//! four keys out of five. And hashing balances keys, not load: all the traffic
//! of one hot key lands on one shard.

use crate::math;
use crate::rng;
use crate::zipf;
use crate::zipf::Zipf;
use vstd::prelude::*;

verus! {

/// One round of mixing: the high bits folded in, then a multiplication.
pub open spec fn mixing_round(x: u64, shift: u64, factor: u64) -> u64 {
    (x ^ (x >> shift)).wrapping_mul(factor)
}

/// The 64-bit mixer.
pub open spec fn mixed(x: u64) -> u64 {
    let a = x.wrapping_add(0x9E3779B97F4A7C15);
    let b = mixing_round(a, 30, 0xBF58476D1CE4E5B9);
    let c = mixing_round(b, 27, 0x94D049BB133111EB);
    c ^ (c >> 31)
}

/// A cheap, deterministic 64-bit mixer.
pub fn splitmix64(x: u64) -> (r: u64)
    ensures
        r == mixed(x),
{
    let mut x = x.wrapping_add(0x9E3779B97F4A7C15);
    x = (x ^ (x >> 30u64)).wrapping_mul(0xBF58476D1CE4E5B9);
    x = (x ^ (x >> 27u64)).wrapping_mul(0x94D049BB133111EB);
    x ^ (x >> 31u64)
}

/// Key `i` changes its shard when `mod from` becomes `mod to`.
pub open spec fn moves(keys: Seq<u64>, from: int, to: int) -> spec_fn(int) -> bool {
    |i: int| keys[i] as int % from != keys[i] as int % to
}

/// How many keys change their shard when `key mod from` becomes `key mod to`,
/// and how many keys there are.
pub fn modn_movement(keys: &[u64], from: u64, to: u64) -> (r: (u64, u64))
    requires
        keys@.len() > 0 ==> from > 0 && to > 0,
        keys@.len() <= u64::MAX,
    ensures
        r.0 == math::count(keys@.len(), moves(keys@, from as int, to as int)),
        r.1 == keys@.len(),
{
    let mut moved: u64 = 0;
    for i in 0..keys.len()
        invariant
            keys@.len() > 0 ==> from > 0 && to > 0,
            moved <= i,
            moved == math::count(i as nat, moves(keys@, from as int, to as int)),
    {
        if keys[i] % from != keys[i] % to {
            moved += 1;
        }
    }
    (moved, keys.len() as u64)
}

/// A key stays on its shard when `n` shards become `n + 1` just where it is
/// below `n` modulo `n * (n + 1)`.
pub proof fn lemma_stays(k: int, n: int)
    requires
        0 <= k,
        1 <= n,
    ensures
        k % n == k % (n + 1) <==> k % (n * (n + 1)) < n,
{
    let all = n * (n + 1);
    assert(all > 0 && (n + 1) * n == all) by (nonlinear_arith)
        requires
            n >= 1,
            all == n * (n + 1),
    ;
    let r = k % all;
    vstd::arithmetic::div_mod::lemma_mod_bound(k, all);
    vstd::arithmetic::div_mod::lemma_mod_mod(k, n, n + 1);
    vstd::arithmetic::div_mod::lemma_mod_mod(k, n + 1, n);
    assert(r % n == k % n && r % (n + 1) == k % (n + 1));
    if r < n {
        vstd::arithmetic::div_mod::lemma_small_mod(r as nat, n as nat);
        vstd::arithmetic::div_mod::lemma_small_mod(r as nat, (n + 1) as nat);
    } else if r % n == r % (n + 1) {
        let c = r % n;
        let (a, b) = (r / n, r / (n + 1));
        vstd::arithmetic::div_mod::lemma_fundamental_div_mod(r, n);
        vstd::arithmetic::div_mod::lemma_fundamental_div_mod(r, n + 1);
        vstd::arithmetic::div_mod::lemma_mod_bound(r, n);
        vstd::arithmetic::div_mod::lemma_div_pos_is_pos(r, n + 1);
        let d = a - b;
        assert(n * d == b && r - c == d * all) by (nonlinear_arith)
            requires
                r == n * a + c,
                r == (n + 1) * b + c,
                d == a - b,
                all == n * (n + 1),
        {
            assert(n * a == n * b + b);
            assert(n * d == n * a - n * b);
            assert((n + 1) * (n * d) == d * (n * (n + 1)));
        }
        assert(d == 0) by (nonlinear_arith)
            requires
                0 <= r - c < all,
                r - c == d * all,
                all > 0,
        ;
        assert(d * all == 0) by (nonlinear_arith)
            requires
                d == 0,
        ;
    }
}

/// Growing `n` shards to `n + 1` moves `n * n` of every `n * (n + 1)`
/// consecutive keys: all but one in `n + 1`.
pub proof fn lemma_growth_moves_most(keys: Seq<u64>, n: nat, m: nat)
    requires
        1 <= n,
        keys.len() >= m * (n * (n + 1)),
        forall|i: int| 0 <= i < keys.len() ==> #[trigger] keys[i] == i,
    ensures
        math::count(m * (n * (n + 1)), moves(keys, n as int, (n + 1) as int)) == m * (n * n),
    decreases m,
{
    let all = n * (n + 1);
    let p = moves(keys, n as int, (n + 1) as int);
    if m > 0 {
        let k = (m - 1) as nat;
        let start = k * all;
        assert(m * all == start + all && m * (n * n) == k * (n * n) + n * n) by (nonlinear_arith)
            requires
                m == k + 1,
                start == k * all,
        ;
        assert(start >= 0 && all >= n && all - n == n * n) by (nonlinear_arith)
            requires
                start == k * all,
                all == n * (n + 1),
                n >= 1,
        ;
        lemma_growth_moves_most(keys, n, k);
        assert forall|i: int| start <= i < start + all implies #[trigger] p(i) == (i - start >= n) by {
            assert(keys[i] == i);
            lemma_stays(i, n as int);
            let r = i - start;
            vstd::arithmetic::div_mod::lemma_small_mod(r as nat, all);
            vstd::arithmetic::div_mod::lemma_mod_multiples_vanish(k as int, r, all as int);
            assert(all * k + r == i) by (nonlinear_arith)
                requires
                    r == i - start,
                    start == k * all,
            ;
        }
        lemma_block(p, start, all, n, all);
    } else {
        assert(m * all == 0 && m * (n * n) == 0) by (nonlinear_arith)
            requires
                m == 0,
        ;
    }
}

proof fn lemma_block(p: spec_fn(int) -> bool, start: nat, all: nat, n: nat, len: nat)
    requires
        len <= all,
        forall|i: int| start <= i < start + all ==> #[trigger] p(i) == (i - start >= n),
    ensures
        math::count(start + len, p) == math::count(start, p) + (if len > n {
            (len - n) as nat
        } else {
            0
        }),
    decreases len,
{
    if len > 0 {
        lemma_block(p, start, all, n, (len - 1) as nat);
        assert(p(start + len - 1) == (len - 1 >= n));
    }
}

/// The more shards there are, the more keys the next one moves.
pub proof fn lemma_growth_gets_worse(keys: Seq<u64>, n: nat, m: nat)
    requires
        1 <= n,
        1 <= m,
        keys.len() >= m * (n * (n + 1) * (n + 2)),
        forall|i: int| 0 <= i < keys.len() ==> #[trigger] keys[i] == i,
    ensures
        math::count(m * (n * (n + 1) * (n + 2)), moves(keys, n as int, (n + 1) as int)) < math::count(
            m * (n * (n + 1) * (n + 2)),
            moves(keys, (n + 1) as int, (n + 2) as int),
        ),
{
    let len = m * (n * (n + 1) * (n + 2));
    let (a, b) = (m * (n + 2), m * n);
    assert(len == a * (n * (n + 1)) && len == b * ((n + 1) * (n + 2))) by (nonlinear_arith)
        requires
            len == m * (n * (n + 1) * (n + 2)),
            a == m * (n + 2),
            b == m * n,
    ;
    lemma_growth_moves_most(keys, n, a);
    lemma_growth_moves_most(keys, (n + 1) as nat, b);
    assert(a * (n * n) < b * ((n + 1) * (n + 1))) by (nonlinear_arith)
        requires
            a == m * (n + 2),
            b == m * n,
            m >= 1,
            n >= 1,
    {
        let w = m * n;
        assert(w >= 1);
        assert(a * (n * n) == w * (n * (n + 2)));
        assert(n * (n + 2) + 1 == (n + 1) * (n + 1));
        assert(w * (n * (n + 2)) < w * ((n + 1) * (n + 1)));
    }
}

/// Growing 4 shards to 5 moves four fifths of the keys.
pub proof fn lemma_growth_moves_four_fifths(keys: Seq<u64>, m: nat)
    requires
        keys.len() >= 20 * m,
        forall|i: int| 0 <= i < keys.len() ==> #[trigger] keys[i] == i,
    ensures
        math::count(20 * m, moves(keys, 4, 5)) == 16 * m,
{
    let (n, all) = (4nat, 20nat);
    assert(n * (n + 1) == all && n * n == 16 && m * all == 20 * m && m * 16 == 16 * m);
    lemma_growth_moves_most(keys, n, m);
}

/// The shard that the key of a rank hashes to.
pub open spec fn shard_of(rank: u64, shards: int) -> int {
    mixed((rank + 1) as u64) as int % shards
}

pub open spec fn on_shard(ranks: Seq<u64>, shards: int, s: int) -> spec_fn(int) -> bool {
    |i: int| shard_of(ranks[i], shards) == s
}

/// How many of the requests go to shard `s`.
pub open spec fn shard_load(ranks: Seq<u64>, shards: int, s: int) -> nat {
    math::count(ranks.len(), on_shard(ranks, shards, s))
}

/// The number of requests at the hottest of the hash shards, when the
/// requested keys have these ranks.
pub fn hot_shard_load(ranks: &[u64], shards: usize) -> (hottest: u64)
    requires
        shards > 0,
        ranks@.len() <= u64::MAX,
        forall|i: int| 0 <= i < ranks@.len() ==> #[trigger] ranks@[i] < u64::MAX,
    ensures
        exists|s: int|
            0 <= s < shards && hottest == #[trigger] shard_load(ranks@, shards as int, s),
        forall|s: int|
            0 <= s < shards ==> #[trigger] shard_load(ranks@, shards as int, s) <= hottest,
{
    let mut counts: Vec<u64> = vec![0; shards];
    for i in 0..ranks.len()
        invariant
            shards > 0,
            counts@.len() == shards,
            ranks@.len() <= u64::MAX,
            forall|i: int| 0 <= i < ranks@.len() ==> #[trigger] ranks@[i] < u64::MAX,
            forall|s: int|
                0 <= s < shards ==> #[trigger] counts@[s] == math::count(
                    i as nat,
                    on_shard(ranks@, shards as int, s),
                ),
    {
        assert(ranks@[i as int] < u64::MAX);
        let s = (splitmix64(ranks[i] + 1) % shards as u64) as usize;
        proof {
            math::lemma_count_le(i as nat, on_shard(ranks@, shards as int, s as int));
        }
        let n = counts[s] + 1;
        counts.set(s, n);
    }
    let mut best: usize = 0;
    for s in 1..shards
        invariant
            counts@.len() == shards,
            best < shards,
            forall|j: int| 0 <= j < s ==> #[trigger] counts@[j] <= counts@[best as int],
    {
        if counts[s] > counts[best] {
            best = s;
        }
    }
    proof {
        assert forall|s: int| 0 <= s < shards
            implies #[trigger] shard_load(ranks@, shards as int, s) <= counts@[best as int] by {
            assert(counts@[s] <= counts@[best as int]);
        }
        assert(counts@[best as int] == shard_load(ranks@, shards as int, best as int));
    }
    counts[best]
}

/// The requests at the hottest of the hash shards, when `samples` requests
/// follow the sampler.
pub fn hot_shard_share(zipf: &Zipf, shards: usize, samples: usize, seed: u64) -> (hottest: u64)
    requires
        zipf.well_formed(),
        shards > 0,
        zipf.steps@.len() < usize::MAX,
    ensures
        ({
            let ranks = zipf::rank_draws(
                zipf.steps@,
                rng::seeded_words(seed),
                samples as nat,
            ).0;
            &&& exists|s: int|
                0 <= s < shards && hottest == #[trigger] shard_load(ranks, shards as int, s)
            &&& forall|s: int|
                0 <= s < shards ==> #[trigger] shard_load(ranks, shards as int, s) <= hottest
        }),
{
    let mut draw = rng::seeded_rng(seed);
    let mut ranks: Vec<u64> = Vec::new();
    for i in 0..samples
        invariant
            zipf.well_formed(),
            zipf.steps@.len() < usize::MAX,
            ranks@.len() == i,
            (ranks@, rng::words(draw)) == zipf::rank_draws(
                zipf.steps@,
                rng::seeded_words(seed),
                i as nat,
            ),
            forall|j: int| 0 <= j < i ==> #[trigger] ranks@[j] < u64::MAX,
    {
        let r = zipf.sample(&mut draw);
        ranks.push(r as u64);
    }
    let hottest = hot_shard_load(&ranks, shards);
    assert(ranks@ == zipf::rank_draws(zipf.steps@, rng::seeded_words(seed), samples as nat).0);
    hottest
}

} // verus!
