//! A synthetic ledger with ground truth.
//!
//! Two idioms of use are planted. Co-spending: a transaction spends several of
//! the sender's own outputs at once. Change: a payment rarely matches an output
//! exactly, so the remainder goes back to an address of the sender.

use crate::graph;
use crate::double;
use crate::double::Double;
use crate::math;
use crate::onchain::chain;
use crate::onchain::chain::{Chain, Output, Tx};
use crate::onchain::clustering;
use crate::onchain::taint;
use crate::rng;
use rand_chacha::ChaCha8Rng;
use vstd::arithmetic::power2::{lemma_pow2_adds, lemma_pow2_pos, pow2};
use vstd::prelude::*;

verus! {

#[derive(Clone, Copy, Debug)]
pub struct ChainConfig {
    pub n_entities: usize,
    pub n_txs: usize,
    /// Value of each entity's opening coinbase output.
    pub initial_value: u64,
    /// Maximum outputs co-spent in one transaction. 1 disables co-spending.
    pub max_inputs: usize,
    /// Chance, in units of 2^-53, that a sender reuses one of its addresses
    /// for change. Then the recipient's fresh address may be the only fresh
    /// one, and a change detector takes it for the sender's.
    pub change_reuse_rate: u64,
    /// Chance, in units of 2^-53, that a payment goes to an address that the
    /// recipient has used before.
    pub recipient_reuse_rate: u64,
}

impl Default for ChainConfig {
    fn default() -> (cfg: ChainConfig)
        ensures
            cfg == (ChainConfig {
                n_entities: 400,
                n_txs: 20_000,
                initial_value: 1_000_000,
                max_inputs: 3,
                change_reuse_rate: 0,
                recipient_reuse_rate: 0x10_0000_0000_0000,
            }),
    {
        ChainConfig {
            n_entities: 400,
            n_txs: 20_000,
            initial_value: 1_000_000,
            max_inputs: 3,
            change_reuse_rate: 0,
            recipient_reuse_rate: 0x10_0000_0000_0000,
        }
    }
}

impl ChainConfig {
    /// There is someone to draw, ids fit, and all the value is a machine
    /// number.
    pub open spec fn valid(&self) -> bool {
        &&& self.n_txs > 0 ==> self.n_entities > 0
        &&& self.n_txs > 0 ==> 1 <= self.max_inputs < usize::MAX
        &&& self.n_entities + 2 * self.n_txs <= u32::MAX
        &&& self.n_entities * self.initial_value <= u64::MAX
    }
}

/// The ledger while it grows, with what each entity knows about itself.
pub struct Ledger {
    pub chain: Chain,
    /// The addresses that each entity has used.
    pub entity_addresses: Vec<Vec<u32>>,
    /// The outputs that each entity can spend.
    pub unspent: Vec<Vec<usize>>,
}

/// Output `o` pays to an address of entity `e`.
pub open spec fn owned_by(c: &Chain, o: usize, e: int) -> bool {
    o < c.len() && c.address_entity@[c.outputs@[o as int].address as int] == e
}

impl Ledger {
    pub open spec fn well_formed(&self) -> bool {
        &&& self.chain.linked()
        &&& self.chain.conserving()
        &&& clustering::honest(&self.chain)
        &&& self.chain.len() <= u32::MAX
        &&& self.chain.txs@.len() <= u32::MAX
        &&& self.chain.address_entity@.len() <= self.chain.len()
        &&& self.chain.n_entities <= u32::MAX
        &&& self.chain.minted() <= u64::MAX
        &&& self.entity_addresses@.len() == self.chain.n_entities
        &&& self.unspent@.len() == self.chain.n_entities
        &&& forall|e: int, k: int|
            0 <= e < self.chain.n_entities && 0 <= k < self.entity_addresses@[e]@.len() ==> (
            #[trigger] self.entity_addresses@[e]@[k] < self.chain.address_entity@.len()
                && self.chain.address_entity@[self.entity_addresses@[e]@[k] as int] == e)
        &&& forall|e: int, k: int|
            0 <= e < self.chain.n_entities && 0 <= k < self.unspent@[e]@.len() ==> owned_by(
                &self.chain,
                #[trigger] self.unspent@[e]@[k],
                e,
            ) && self.chain.spent_by@[self.unspent@[e]@[k] as int] is None
        &&& forall|e: int|
            0 <= e < self.chain.n_entities ==> (#[trigger] self.unspent@[e])@.no_duplicates()
    }
}

impl Ledger {
    /// Every entity has one address and one output there, and nothing was paid
    /// yet. The first output is the stolen one.
    pub open spec fn opened(&self, n: int, initial_value: u64) -> bool {
        &&& self.chain.n_entities == n
        &&& self.chain.len() == n
        &&& self.chain.txs@.len() == n
        &&& self.chain.address_entity@.len() == n
        &&& self.chain.stolen_output == 0
        &&& self.chain.stolen_value == initial_value
        &&& forall|e: int|
            0 <= e < n ==> {
                &&& (#[trigger] self.chain.outputs@[e]).value == initial_value
                &&& self.chain.outputs@[e].address == e
                &&& self.chain.outputs@[e].creating_tx == e
                &&& self.chain.txs@[e].inputs@ == Seq::<usize>::empty()
                &&& self.chain.txs@[e].outputs@ == seq![e as usize]
                &&& self.unspent@[e]@ == seq![e as usize]
                &&& self.entity_addresses@[e]@ == seq![e as u32]
            }
    }
}

/// `c2` is `c` with one transaction more, which spends `ins` and creates the
/// next two outputs, listed in order or swapped.
pub open spec fn adds_payment(c: &Chain, c2: &Chain, ins: Seq<usize>, swapped: bool) -> bool {
    let n = c.len() as int;
    let t = c.txs@.len() as int;
    &&& c2.n_entities == c.n_entities
    &&& c2.stolen_output == c.stolen_output
    &&& c2.stolen_value == c.stolen_value
    &&& c2.txs@.len() == t + 1
    &&& forall|i: int| 0 <= i < t ==> #[trigger] c2.txs@[i] == c.txs@[i]
    &&& c2.txs@[t].inputs@ == ins
    &&& c2.txs@[t].outputs@ == (if swapped {
        seq![(n + 1) as usize, n as usize]
    } else {
        seq![n as usize, (n + 1) as usize]
    })
    &&& c2.len() == n + 2
    &&& forall|o: int| 0 <= o < n ==> #[trigger] c2.outputs@[o] == c.outputs@[o]
    &&& c2.outputs@[n].creating_tx == t
    &&& c2.outputs@[n + 1].creating_tx == t
    &&& c2.spent_by@.len() == n + 2
    &&& forall|o: int|
        0 <= o < n ==> #[trigger] c2.spent_by@[o] == (if ins.contains(o as usize) {
            Some(t as usize)
        } else {
            c.spent_by@[o]
        })
    &&& c2.spent_by@[n] is None
    &&& c2.spent_by@[n + 1] is None
    &&& c.address_entity@.len() <= c2.address_entity@.len()
    &&& forall|a: int|
        0 <= a < c.address_entity@.len() ==> #[trigger] c2.address_entity@[a]
            == c.address_entity@[a]
}

/// A payment keeps a ledger a ledger.
#[verifier::rlimit(60)]
pub proof fn lemma_payment(c: &Chain, c2: &Chain, ins: Seq<usize>, swapped: bool)
    requires
        c.linked(),
        c.conserving(),
        clustering::honest(c),
        adds_payment(c, c2, ins, swapped),
        c2.len() <= u32::MAX,
        c2.txs@.len() <= u32::MAX,
        ins.len() > 0,
        ins.no_duplicates(),
        forall|i: int| 0 <= i < ins.len() ==> #[trigger] ins[i] < c.len(),
        forall|i: int| 0 <= i < ins.len() ==> c.spent_by@[#[trigger] ins[i] as int] is None,
        c2.outputs@[c.len() as int].address < c2.address_entity@.len(),
        c2.outputs@[c.len() as int + 1].address < c2.address_entity@.len(),
        c2.outputs@[c.len() as int].value + c2.outputs@[c.len() as int + 1].value == math::sum_over(
            ins,
            c.value(),
        ),
        forall|i: int, j: int|
            0 <= i < ins.len() && 0 <= j < ins.len()
                ==> c.address_entity@[c.outputs@[#[trigger] ins[i] as int].address as int]
                == c.address_entity@[c.outputs@[#[trigger] ins[j] as int].address as int],
    ensures
        c2.linked(),
        c2.conserving(),
        clustering::honest(c2),
        c2.minted() == c.minted(),
{
    let n = c.len() as int;
    let t = c.txs@.len() as int;
    let outs = c2.txs@[t].outputs@;
    let (first, second) = if swapped {
        ((n + 1) as usize, n as usize)
    } else {
        (n as usize, (n + 1) as usize)
    };
    assert(outs =~= seq![first, second]);
    assert(outs[0] == first && outs[1] == second);
    assert forall|o: int| 0 <= o < c2.len()
        implies (#[trigger] c2.outputs@[o]).creating_tx < c2.txs@.len()
        && c2.outputs@[o].address < c2.address_entity@.len()
        && c2.txs@[c2.outputs@[o].creating_tx as int].outputs@.contains(o as usize) by {
        if o < n {
            assert(c2.outputs@[o] == c.outputs@[o]);
            let s = c.outputs@[o].creating_tx as int;
            assert(c2.txs@[s] == c.txs@[s]);
        } else if o == n {
            assert(outs.contains(n as usize));
        } else {
            assert(outs.contains((n + 1) as usize));
        }
    }
    assert forall|s: int, k: int| 0 <= s < c2.txs@.len() && 0 <= k < c2.txs@[s].outputs@.len() implies
        #[trigger] c2.txs@[s].outputs@[k] < c2.len() && c2.outputs@[c2.txs@[s].outputs@[k] as int].creating_tx == s by {
        if s < t {
            assert(c2.txs@[s] == c.txs@[s]);
            let o = c.txs@[s].outputs@[k];
            assert(o < c.len());
            assert(c2.outputs@[o as int] == c.outputs@[o as int]);
        } else {
            assert(k == 0 || k == 1);
        }
    }
    assert forall|s: int, k: int| 0 <= s < c2.txs@.len() && 0 <= k < c2.txs@[s].inputs@.len() implies ({
        let o = #[trigger] c2.txs@[s].inputs@[k];
        o < c2.len() && c2.outputs@[o as int].creating_tx < s && c2.spent_by@[o as int] == Some(s as usize)
    }) by {
        let o = c2.txs@[s].inputs@[k];
        if s < t {
            assert(c2.txs@[s] == c.txs@[s]);
            assert(c.txs@[s].inputs@[k] < c.len());
            assert(c.spent_by@[c.txs@[s].inputs@[k] as int] == Some(s as usize));
            if ins.contains(o) {
                let i = choose|i: int| 0 <= i < ins.len() && ins[i] == o;
                assert(c.spent_by@[ins[i] as int] is None);
            }
            assert(c2.outputs@[o as int] == c.outputs@[o as int]);
            assert(c2.spent_by@[o as int] == c.spent_by@[o as int]);
        } else {
            assert(o == ins[k]);
            assert(ins.contains(o));
            assert(c2.outputs@[o as int] == c.outputs@[o as int]);
            assert(c.outputs@[o as int].creating_tx < c.txs@.len());
            assert(c2.spent_by@[o as int] == Some(t as usize));
        }
    }
    assert forall|s: int| 0 <= s < c2.txs@.len()
        implies (#[trigger] c2.txs@[s]).outputs@.no_duplicates()
        && c2.txs@[s].inputs@.no_duplicates() by {
        if s < t {
            assert(c2.txs@[s] == c.txs@[s]);
        }
    }
    assert forall|o: int| 0 <= o < c2.len()
        implies (#[trigger] c2.spent_by@[o] matches Some(s) ==> s < c2.txs@.len()
        && c2.txs@[s as int].inputs@.contains(o as usize)) by {
        if o < n {
            assert(c2.spent_by@[o] == (if ins.contains(o as usize) {
                Some(t as usize)
            } else {
                c.spent_by@[o]
            }));
            match c.spent_by@[o] {
                Some(s) => {
                    assert(c.txs@[s as int].inputs@.contains(o as usize));
                    assert(c2.txs@[s as int] == c.txs@[s as int]);
                },
                None => {},
            }
        }
    }
    assert(c2.linked());
    assert forall|s: int| 0 <= s < c2.txs@.len() && (#[trigger] c2.txs@[s]).inputs@.len() > 0
        implies c2.value_in(s)
        == c2.value_out(s) by {
        let is = c2.txs@[s].inputs@;
        assert forall|i: int| 0 <= i < is.len()
            implies c2.value()(#[trigger] is[i] as int) == c.value()(is[i] as int) by {
            if s < t {
                assert(c2.txs@[s] == c.txs@[s]);
                assert(c.txs@[s].inputs@[i] < c.len());
            } else {
                assert(ins[i] < c.len());
            }
            assert(c2.outputs@[is[i] as int] == c.outputs@[is[i] as int]);
        }
        math::lemma_sum_over_same(is, c2.value(), c.value());
        if s < t {
            assert(c2.txs@[s] == c.txs@[s]);
            let os = c2.txs@[s].outputs@;
            assert forall|i: int| 0 <= i < os.len()
                implies c2.value()(#[trigger] os[i] as int) == c.value()(os[i] as int) by {
                assert(c.txs@[s].outputs@[i] < c.len());
                assert(c2.outputs@[os[i] as int] == c.outputs@[os[i] as int]);
            }
            math::lemma_sum_over_same(os, c2.value(), c.value());
            assert(c.value_in(s) == c.value_out(s));
        } else {
            let f = c2.value();
            assert(outs.drop_last() =~= seq![first]);
            assert(outs.drop_last().drop_last() =~= Seq::<usize>::empty());
            assert(math::sum_over(outs.drop_last().drop_last(), f) == 0);
            assert(math::sum_over(outs.drop_last(), f) == f(first as int));
            assert(math::sum_over(outs, f) == f(first as int) + f(second as int));
        }
    }
    assert forall|s: int, a: usize, b: usize| 0 <= s < c2.txs@.len() && #[trigger] clustering::spends_from(c2, s, a)
        && #[trigger] clustering::spends_from(c2, s, b)
            implies c2.address_entity@[a as int] == c2.address_entity@[b as int] by {
        let i = choose|i: int|
            0 <= i < c2.txs@[s].inputs@.len() && #[trigger] clustering::input_address(c2, s, i) == a;
        let j = choose|j: int|
            0 <= j < c2.txs@[s].inputs@.len() && #[trigger] clustering::input_address(c2, s, j) == b;
        let x = c2.txs@[s].inputs@[i];
        let y = c2.txs@[s].inputs@[j];
        if s < t {
            assert(c2.txs@[s] == c.txs@[s]);
            assert(c.txs@[s].inputs@[i] < c.len());
            assert(c.txs@[s].inputs@[j] < c.len());
        } else {
            assert(ins[i] < c.len() && ins[j] < c.len());
        }
        assert(c2.outputs@[x as int] == c.outputs@[x as int]);
        assert(c2.outputs@[y as int] == c.outputs@[y as int]);
        assert(c.outputs@[x as int].address < c.address_entity@.len());
        assert(c.outputs@[y as int].address < c.address_entity@.len());
        if s < t {
            assert(clustering::input_address(c, s, i) == a);
            assert(clustering::input_address(c, s, j) == b);
            assert(clustering::spends_from(c, s, a) && clustering::spends_from(c, s, b));
        } else {
            assert(c.address_entity@[c.outputs@[ins[i] as int].address as int]
                == c.address_entity@[c.outputs@[ins[j] as int].address as int]);
        }
    }
    lemma_minted_same(c, c2, ins, swapped);
}

proof fn lemma_minted_same(c: &Chain, c2: &Chain, ins: Seq<usize>, swapped: bool)
    requires
        c.linked(),
        adds_payment(c, c2, ins, swapped),
        ins.len() > 0,
    ensures
        c2.minted() == c.minted(),
{
    let n: nat = c.len();
    let m = n as int;
    let f = |o: int|
        if c.txs@[c.outputs@[o].creating_tx as int].inputs@.len() == 0 {
            c.outputs@[o].value as int
        } else {
            0
        };
    let g = |o: int|
        if c2.txs@[c2.outputs@[o].creating_tx as int].inputs@.len() == 0 {
            c2.outputs@[o].value as int
        } else {
            0
        };
    assert forall|o: int| 0 <= o < n implies #[trigger] g(o) == f(o) by {
        assert(c2.outputs@[o] == c.outputs@[o]);
        let s = c.outputs@[o].creating_tx as int;
        assert(c2.txs@[s] == c.txs@[s]);
    }
    math::lemma_sum_same(n, g, f);
    assert(g(m) == 0 && g(m + 1) == 0);
    assert(math::sum((m + 1) as nat, g) == math::sum(n, g) + g(m));
    assert(math::sum((m + 2) as nat, g) == math::sum((m + 1) as nat, g) + g(m + 1));
}

/// What an owner's spendable outputs are worth together, at most all there is.
proof fn lemma_purse_bounded(c: &Chain, purse: Seq<usize>)
    requires
        c.linked(),
        c.conserving(),
        c.len() <= u32::MAX,
        c.txs@.len() <= u32::MAX,
        purse.no_duplicates(),
        forall|i: int| 0 <= i < purse.len() ==> #[trigger] purse[i] < c.len(),
        forall|i: int| 0 <= i < purse.len() ==> c.spent_by@[#[trigger] purse[i] as int] is None,
    ensures
        0 <= math::sum_over(purse, c.value()) <= c.minted(),
{
    let n = c.len();
    let f = |v: int|
        if purse.contains(v as usize) {
            c.value()(v)
        } else {
            0
        };
    let g = |o: int|
        if c.spent_by@[o] is None {
            c.value()(o)
        } else {
            0
        };
    assert forall|v: int| 0 <= v < n implies #[trigger] f(v) <= g(v) by {
        if purse.contains(v as usize) {
            let i = choose|i: int| 0 <= i < purse.len() && purse[i] == v as usize;
            assert(c.spent_by@[purse[i] as int] is None);
        }
    }
    math::lemma_sum_members(purse, n, c.value());
    math::lemma_sum_le(n, f, g);
    chain::lemma_value_conserved(c);
    assert forall|v: int| 0 <= v < n implies 0 <= #[trigger] f(v) by {}
    math::lemma_sum_prefix(0, n, f);
}

/// 0.1 in double precision.
pub open spec fn least_part() -> int {
    0x19_9999_9999_999aint * pow2(1018)
}

/// 0.6 in double precision, what 0.7 is above it.
pub open spec fn part_range() -> int {
    0x13_3333_3333_3333int * pow2(1021)
}

/// The part of its inputs that a payment takes, drawn between 10% and 70%.
pub open spec fn part_of(draw: u64) -> int {
    double::uniform(least_part(), part_range(), draw)
}

/// The payment out of `total`, computed in double precision, but at least 1 and
/// never all of it.
pub open spec fn payment_of(total: int, draw: u64) -> int {
    let p = double::saturated(double::floor(double::product(double::of(total), part_of(draw))));
    if p < 1 {
        1
    } else if p > total - 1 {
        total - 1
    } else {
        p as int
    }
}

/// Every draw stands for less than 0.7, the number above the largest that can be
/// drawn.
pub proof fn lemma_part_below(draw: u64)
    ensures
        least_part() <= part_of(draw) < 0x16_6666_6666_6666 * pow2(1021),
{
    let (a, b) = (0u64, u64::MAX);
    let (h, u) = (pow2(1018) as int, double::one());
    lemma_pow2_pos(1018);
    lemma_pow2_pos(1021);
    lemma_pow2_adds(1018, 3);
    lemma_pow2_adds(1018, 4);
    lemma_pow2_adds(1022, 52);
    vstd::arithmetic::power2::lemma2_to64();
    vstd::arithmetic::power2::lemma2_to64_rest();
    assert(part_range() >= 0 && least_part() >= 0);
    double::lemma_uniform_monotone(least_part(), part_range(), a, draw);
    double::lemma_uniform_monotone(least_part(), part_range(), draw, b);
    double::lemma_one();
    // The least draw.
    assert(double::fraction(a) == 0) by {
        assert(0 * pow2(1022) == 0) by (nonlinear_arith);
    }
    assert(double::product(0, part_range()) == 0) by {
        assert(0 * part_range() == 0) by (nonlinear_arith);
        assert(0 * u == 0) by (nonlinear_arith);
        double::lemma_rounded_exact(0, 0, u);
    }
    double::lemma_rounded_exact(0x19_9999_9999_999a, 1018, 1);
    assert(part_of(a) == least_part());
    // The largest: a product one step below the range, and a sum one step below
    // its end.
    let x = 0xf_ffff_ffff_ffffint;
    let s = 0x13_3333_3333_3333int;
    let g = pow2(1021) as int;
    let f = pow2(1022) as int;
    let w = pow2(52) as int;
    assert(double::fraction(b) == x * f);
    assert((x * f) * (s * g) == ((x * s) * g) * f) by (nonlinear_arith);
    assert(u == w * f);
    assert((x * s) * g >= 0) by (nonlinear_arith)
        requires
            x >= 0,
            s >= 0,
            g >= 0,
    ;
    double::lemma_rounded_scaled_by((x * s) * g, w, 1022);
    double::lemma_rounded_shifted(x * s, w, 1021);
    assert(double::half_even(x * s, w) == s - 1) by {
        vstd::arithmetic::div_mod::lemma_fundamental_div_mod_converse(
            x * s,
            w,
            s - 2,
            x * s - (s - 2) * w,
        );
    }
    assert(double::product(x * f, s * g) == g * (s - 1));
    let t = 8 * (s - 1) + 0x19_9999_9999_999a;
    assert(g == 8 * h);
    assert((8 * h) * (s - 1) + 0x19_9999_9999_999a * h == t * h) by (nonlinear_arith)
        requires
            t == 8 * (s - 1) + 0x19_9999_9999_999a,
    ;
    double::lemma_rounded_shifted(t, 1, 1018);
    double::lemma_rounded_coarse(t, 1, 3);
    assert(double::half_even(t, 8) == 0x16_6666_6666_6665) by {
        vstd::arithmetic::div_mod::lemma_fundamental_div_mod_converse(
            t,
            8,
            0x16_6666_6666_6665,
            2,
        );
    }
    assert(double::rounded(t, 8) == double::half_even(t, 8));
    assert(part_of(b) == h * (8 * 0x16_6666_6666_6665));
    assert(h * (8 * 0x16_6666_6666_6665) < 0x16_6666_6666_6666 * (8 * h)) by (nonlinear_arith)
        requires
            h > 0,
    ;
    assert(part_of(draw) < 0x16_6666_6666_6666 * g);
}

/// Computes `payment_of`.
pub fn payment(total: u64, draw: u64) -> (p: u64)
    requires
        total >= 2,
    ensures
        p == payment_of(total as int, draw),
        1 <= p < total,
{
    let low = Double { m: 0x19_9999_9999_999a, e: 1018 };
    let range = Double { m: 0x13_3333_3333_3333, e: 1021 };
    let part = double::draw_between(low, range, draw);
    let p = Double::from_u64(total).times(part).to_floor();
    if p < 1 {
        1
    } else if p > total - 1 {
        total - 1
    } else {
        p
    }
}

/// Sums the values of outputs.
fn sum_values(chain: &Chain, outs: &Vec<usize>) -> (s: u64)
    requires
        forall|i: int| 0 <= i < outs@.len() ==> #[trigger] outs@[i] < chain.len(),
        math::sum_over(outs@, chain.value()) <= u64::MAX,
    ensures
        s == math::sum_over(outs@, chain.value()),
{
    let mut s: u64 = 0;
    for k in 0..outs.len()
        invariant
            forall|i: int| 0 <= i < outs@.len() ==> #[trigger] outs@[i] < chain.len(),
            math::sum_over(outs@, chain.value()) <= u64::MAX,
            s == math::sum_over(outs@.take(k as int), chain.value()),
    {
        proof {
            assert(outs@.take(k + 1).drop_last() =~= outs@.take(k as int));
            math::lemma_sum_over_take(outs@, chain.value(), k + 1);
        }
        s += chain.outputs[outs[k]].value;
    }
    assert(outs@.take(outs@.len() as int) =~= outs@);
    s
}

/// A first prefix of a list, and the rest of it.
fn split_at(v: &Vec<usize>, k: usize) -> (r: (Vec<usize>, Vec<usize>))
    requires
        k <= v@.len(),
    ensures
        r.0@ == v@.take(k as int),
        r.1@ == v@.skip(k as int),
{
    let mut a: Vec<usize> = Vec::new();
    let mut b: Vec<usize> = Vec::new();
    for i in 0..v.len()
        invariant
            k <= v@.len(),
            a@ == v@.take(if i <= k {
                i as int
            } else {
                k as int
            }),
            b@ == (if i <= k {
                Seq::<usize>::empty()
            } else {
                v@.subrange(k as int, i as int)
            }),
    {
        if i < k {
            a.push(v[i]);
            assert(a@ =~= v@.take(i + 1));
        } else {
            b.push(v[i]);
            assert(b@ =~= v@.subrange(k as int, i + 1));
        }
    }
    assert(b@ =~= v@.skip(k as int));
    assert(a@ =~= v@.take(k as int));
    (a, b)
}

impl Ledger {
    /// One coinbase per entity.
    pub fn open_accounts(n_entities: usize, initial_value: u64) -> (l: Ledger)
        requires
            n_entities <= u32::MAX,
            n_entities * initial_value <= u64::MAX,
        ensures
            l.well_formed(),
            l.opened(n_entities as int, initial_value),
            l.chain.minted() == n_entities * initial_value,
    {
        let mut outputs: Vec<Output> = Vec::new();
        let mut txs: Vec<Tx> = Vec::new();
        let mut spent_by: Vec<Option<usize>> = Vec::new();
        let mut address_entity: Vec<u32> = Vec::new();
        let mut entity_addresses: Vec<Vec<u32>> = Vec::new();
        let mut unspent: Vec<Vec<usize>> = Vec::new();
        for e in 0..n_entities
            invariant
                n_entities <= u32::MAX,
                outputs@.len() == e,
                txs@.len() == e,
                spent_by@.len() == e,
                address_entity@.len() == e,
                entity_addresses@.len() == e,
                unspent@.len() == e,
                forall|i: int|
                    0 <= i < e ==> (#[trigger] outputs@[i]).value == initial_value
                        && outputs@[i].address == i && outputs@[i].creating_tx == i,
                forall|i: int|
                    0 <= i < e ==> (#[trigger] txs@[i]).inputs@ == Seq::<usize>::empty()
                        && txs@[i].outputs@ == seq![i as usize],
                forall|i: int| 0 <= i < e ==> #[trigger] spent_by@[i] is None,
                forall|i: int| 0 <= i < e ==> #[trigger] address_entity@[i] == i,
                forall|i: int| 0 <= i < e ==> (#[trigger] entity_addresses@[i])@ == seq![i as u32],
                forall|i: int| 0 <= i < e ==> (#[trigger] unspent@[i])@ == seq![i as usize],
        {
            outputs.push(Output { value: initial_value, address: e as u32, creating_tx: e });
            let mut created: Vec<usize> = Vec::new();
            created.push(e);
            assert(created@ =~= seq![e]);
            txs.push(Tx { inputs: Vec::new(), outputs: created });
            spent_by.push(None);
            address_entity.push(e as u32);
            let mut known: Vec<u32> = Vec::new();
            known.push(e as u32);
            assert(known@ =~= seq![e as u32]);
            entity_addresses.push(known);
            let mut purse: Vec<usize> = Vec::new();
            purse.push(e);
            assert(purse@ =~= seq![e]);
            unspent.push(purse);
        }
        let chain = Chain {
            outputs,
            txs,
            spent_by,
            address_entity,
            n_entities,
            stolen_output: 0,
            stolen_value: initial_value,
        };
        let l = Ledger { chain, entity_addresses, unspent };
        proof {
            let c = l.chain;
            let f = |o: int|
                if c.txs@[c.outputs@[o].creating_tx as int].inputs@.len() == 0 {
                    c.outputs@[o].value as int
                } else {
                    0
                };
            assert forall|o: int| 0 <= o < n_entities implies #[trigger] f(o) == initial_value by {
                assert(c.outputs@[o].creating_tx == o);
                assert(c.txs@[o].inputs@.len() == 0);
            }
            math::lemma_sum_const(n_entities as nat, f, initial_value as int);
            assert forall|o: int| 0 <= o < c.len()
                implies c.txs@[(#[trigger] c.outputs@[o]).creating_tx as int].outputs@.contains(o as usize) by {
                assert(c.txs@[o].outputs@[0] == o as usize);
            }
            assert forall|t: int, a: usize, b: usize| 0 <= t < c.txs@.len() && #[trigger] clustering::spends_from(&c, t, a)
                && #[trigger] clustering::spends_from(&c, t, b)
                    implies c.address_entity@[a as int] == c.address_entity@[b as int] by {
                assert(c.txs@[t].inputs@.len() == 0);
            }
            assert(l.well_formed());
        }
        l
    }

    /// Shuffles what an entity can spend.
    pub fn shuffle_purse(&mut self, e: usize, rng: &mut ChaCha8Rng)
        requires
            old(self).well_formed(),
            e < old(self).chain.n_entities,
        ensures
            final(self).well_formed(),
            final(self).chain == old(self).chain,
            final(self).entity_addresses == old(self).entity_addresses,
            final(self).unspent@ == old(self).unspent@.update(e as int, final(self).unspent@[e as int]),
            final(self).unspent@[e as int]@ == mixed(
                old(self).unspent@[e as int]@,
                rng::words(*old(rng)),
            ),
            rng::words(*final(rng)) == rng::skip_words(
                rng::words(*old(rng)),
                rng::shuffle_draw(rng::words(*old(rng)), old(self).unspent@[e as int]@.len()).1,
            ),
    {
        let mut purse = self.unspent[e].clone();
        let ghost p0 = purse@;
        let ghost order = rng::shuffle_draw(rng::words(*rng), p0.len()).0;
        let ghost stream = rng::words(*rng);
        assert(p0 =~= old(self).unspent@[e as int]@);
        rng::shuffle(&mut purse, rng);
        let ghost p1 = purse@;
        assert(p1 =~= mixed(p0, stream));
        self.unspent.set(e, purse);
        proof {
            assert(p1.no_duplicates()) by {
                assert forall|i: int, j: int| 0 <= i < p1.len() && 0 <= j < p1.len() && i != j
                    implies p1[i] != p1[j] by {
                    if i < j {
                        assert(order[i] != order[j]);
                    } else {
                        assert(order[j] != order[i]);
                    }
                    assert(0 <= order[i] < p0.len() && 0 <= order[j] < p0.len());
                }
            }
            assert forall|x: int, k: int| 0 <= x < self.chain.n_entities && 0 <= k < self.unspent@[x]@.len()
                implies owned_by(
                &self.chain,
                #[trigger] self.unspent@[x]@[k],
                x,
            ) && self.chain.spent_by@[self.unspent@[x]@[k] as int] is None by {
                if x == e {
                    assert(0 <= order[k] < p0.len());
                    assert(p1[k] == p0[order[k]]);
                    assert(owned_by(&old(self).chain, old(self).unspent@[x]@[order[k]], x));
                } else {
                    assert(owned_by(&old(self).chain, old(self).unspent@[x]@[k], x));
                }
            }
            assert forall|x: int| 0 <= x < self.chain.n_entities
                implies (#[trigger] self.unspent@[x])@.no_duplicates() by {
                if x != e {
                    assert(old(self).unspent@[x]@.no_duplicates());
                }
            }
        }
    }
}

impl Ledger {
    /// Moves the first `k` outputs that an entity can spend behind the others.
    pub fn put_back(&mut self, e: usize, k: usize)
        requires
            old(self).well_formed(),
            e < old(self).chain.n_entities,
            k <= old(self).unspent@[e as int]@.len(),
        ensures
            final(self).well_formed(),
            final(self).chain == old(self).chain,
            final(self).entity_addresses == old(self).entity_addresses,
            final(self).unspent@ == old(self).unspent@.update(e as int, final(self).unspent@[e as int]),
            final(self).unspent@[e as int]@ == old(self).unspent@[e as int]@.skip(k as int) + old(
                self,
            ).unspent@[e as int]@.take(k as int),
    {
        let (mut front, mut back) = split_at(&self.unspent[e], k);
        back.append(&mut front);
        let ghost p0 = self.unspent@[e as int]@;
        let ghost p1 = back@;
        self.unspent.set(e, back);
        proof {
            let len = p0.len();
            assert(p1 =~= p0.skip(k as int) + p0.take(k as int));
            assert(old(self).unspent@[e as int]@.no_duplicates());
            assert forall|x: int, i: int| 0 <= x < self.chain.n_entities && 0 <= i < self.unspent@[x]@.len()
                implies owned_by(
                &self.chain,
                #[trigger] self.unspent@[x]@[i],
                x,
            ) && self.chain.spent_by@[self.unspent@[x]@[i] as int] is None by {
                let j = if x != e {
                    i
                } else if i < len - k {
                    i + k
                } else {
                    i - (len - k)
                };
                assert(self.unspent@[x]@[i] == old(self).unspent@[x]@[j]);
                assert(owned_by(&old(self).chain, old(self).unspent@[x]@[j], x));
            }
            assert forall|x: int| 0 <= x < self.chain.n_entities
                implies (#[trigger] self.unspent@[x])@.no_duplicates() by {
                if x != e {
                    assert(old(self).unspent@[x]@.no_duplicates());
                }
            }
        }
    }
}

/// One payment: `sender` spends the first `k` of its outputs, `recipient` gets
/// `amount` and `sender` the rest. Without an address to reuse, a fresh one is
/// made.
pub struct Payment {
    pub sender: usize,
    pub recipient: usize,
    pub k: usize,
    pub amount: u64,
    pub to: Option<u32>,
    pub change_to: Option<u32>,
    /// Whether the change is listed before the payment.
    pub swapped: bool,
}

impl Ledger {
    /// The outputs that the payment spends.
    pub open spec fn spent(&self, p: &Payment) -> Seq<usize> {
        self.unspent@[p.sender as int]@.take(p.k as int)
    }

    /// The value that the payment spends.
    pub open spec fn total_in(&self, p: &Payment) -> int {
        math::sum_over(self.spent(p), self.chain.value())
    }

    /// The payment can be made.
    pub open spec fn can_pay(&self, p: &Payment) -> bool {
        &&& p.sender < self.chain.n_entities
        &&& p.recipient < self.chain.n_entities
        &&& 1 <= p.k <= self.unspent@[p.sender as int]@.len()
        &&& 1 <= p.amount < self.total_in(p)
        &&& p.to matches Some(a) ==> a < self.chain.address_entity@.len()
            && self.chain.address_entity@[a as int] == p.recipient
        &&& p.change_to matches Some(a) ==> (a < self.chain.address_entity@.len()
            && self.chain.address_entity@[a as int] == p.sender) || (a
            == self.chain.address_entity@.len() && p.to is None && p.recipient == p.sender)
        &&& self.chain.len() + 2 <= u32::MAX
        &&& self.chain.txs@.len() + 1 <= u32::MAX
    }

    pub open spec fn pay_address(&self, p: &Payment) -> int {
        match p.to {
            Some(a) => a as int,
            None => self.chain.address_entity@.len() as int,
        }
    }

    pub open spec fn change_address(&self, p: &Payment) -> int {
        match p.change_to {
            Some(a) => a as int,
            None => self.chain.address_entity@.len() + (if p.to is None {
                1int
            } else {
                0
            }),
        }
    }

    /// The entities of the addresses after the payment.
    pub open spec fn entities_after(&self, p: &Payment) -> Seq<u32> {
        let a = if p.to is None {
            self.chain.address_entity@.push(p.recipient as u32)
        } else {
            self.chain.address_entity@
        };
        if p.change_to is None {
            a.push(p.sender as u32)
        } else {
            a
        }
    }

    /// What entity `e` can spend after the payment.
    pub open spec fn purse_after(&self, p: &Payment, e: int) -> Seq<usize> {
        let kept = if e == p.sender {
            self.unspent@[e]@.skip(p.k as int)
        } else {
            self.unspent@[e]@
        };
        let got = if e == p.recipient {
            kept.push(self.chain.len() as usize)
        } else {
            kept
        };
        if e == p.sender {
            got.push((self.chain.len() + 1) as usize)
        } else {
            got
        }
    }

    /// What addresses entity `e` has used after the payment.
    pub open spec fn known_after(&self, p: &Payment, e: int) -> Seq<u32> {
        let a = if e == p.recipient && p.to is None {
            self.entity_addresses@[e]@.push(self.pay_address(p) as u32)
        } else {
            self.entity_addresses@[e]@
        };
        if e == p.sender && p.change_to is None {
            a.push(self.change_address(p) as u32)
        } else {
            a
        }
    }

    /// `after` is `self` with the payment made.
    pub open spec fn pays(&self, p: &Payment, after: &Ledger) -> bool {
        let n = self.chain.len() as int;
        let t = self.chain.txs@.len() as int;
        &&& adds_payment(&self.chain, &after.chain, self.spent(p), p.swapped)
        &&& after.chain.outputs@[n].value == p.amount
        &&& after.chain.outputs@[n].address == self.pay_address(p)
        &&& after.chain.outputs@[n + 1].value == self.total_in(p) - p.amount
        &&& after.chain.outputs@[n + 1].address == self.change_address(p)
        &&& after.chain.address_entity@ == self.entities_after(p)
        &&& after.unspent@.len() == self.unspent@.len()
        &&& after.entity_addresses@.len() == self.entity_addresses@.len()
        &&& forall|e: int|
            0 <= e < self.unspent@.len() ==> (#[trigger] after.unspent@[e])@ == self.purse_after(p, e)
        &&& forall|e: int|
            0 <= e < self.entity_addresses@.len() ==> (#[trigger] after.entity_addresses@[e])@
                == self.known_after(p, e)
    }

    /// Makes a payment.
    pub fn pay(&mut self, p: &Payment)
        requires
            old(self).well_formed(),
            old(self).can_pay(p),
        ensures
            final(self).well_formed(),
            old(self).pays(p, final(self)),
            final(self).chain.minted() == old(self).chain.minted(),
    {
        let ghost before = *self;
        let n = self.chain.outputs.len();
        let t = self.chain.txs.len();
        let (ins, rest) = split_at(&self.unspent[p.sender], p.k);
        proof {
            before.lemma_spent(p);
            lemma_purse_bounded(&before.chain, ins@);
        }
        let total = sum_values(&self.chain, &ins);
        let pay_addr = match p.to {
            Some(a) => a,
            None => {
                let a = self.chain.address_entity.len() as u32;
                self.chain.address_entity.push(p.recipient as u32);
                self.entity_addresses[p.recipient].push(a);
                a
            },
        };
        let change_addr = match p.change_to {
            Some(a) => a,
            None => {
                let a = self.chain.address_entity.len() as u32;
                self.chain.address_entity.push(p.sender as u32);
                self.entity_addresses[p.sender].push(a);
                a
            },
        };
        self.chain.outputs.push(Output { value: p.amount, address: pay_addr, creating_tx: t });
        self.chain.spent_by.push(None);
        self.chain.outputs.push(
            Output { value: total - p.amount, address: change_addr, creating_tx: t },
        );
        self.chain.spent_by.push(None);
        let mut outs: Vec<usize> = Vec::new();
        if p.swapped {
            outs.push(n + 1);
            outs.push(n);
        } else {
            outs.push(n);
            outs.push(n + 1);
        }
        mark_spent(&mut self.chain.spent_by, &ins, t);
        self.chain.txs.push(Tx { inputs: ins, outputs: outs });
        self.unspent.set(p.sender, rest);
        self.unspent[p.recipient].push(n);
        self.unspent[p.sender].push(n + 1);
        proof {
            assert(self.chain.txs@[t as int].outputs@ =~= (if p.swapped {
                seq![(n + 1) as usize, n]
            } else {
                seq![n, (n + 1) as usize]
            }));
            assert(self.chain.address_entity@ =~= before.entities_after(p));
            assert forall|e: int| 0 <= e < before.unspent@.len() implies (#[trigger] self.unspent@[e])@
                == before.purse_after(p, e) by {}
            assert forall|e: int| 0 <= e < before.entity_addresses@.len() implies (
            #[trigger] self.entity_addresses@[e])@ == before.known_after(p, e) by {}
            assert(before.pays(p, self));
            lemma_pay_keeps(&before, p, self);
        }
    }

    /// What a payment spends: distinct unspent outputs of the sender.
    proof fn lemma_spent(&self, p: &Payment)
        requires
            self.well_formed(),
            self.can_pay(p),
        ensures
            self.spent(p).no_duplicates(),
            self.spent(p).len() == p.k,
            forall|i: int| 0 <= i < p.k ==> #[trigger] self.spent(p)[i] < self.chain.len(),
            forall|i: int|
                0 <= i < p.k ==> self.chain.spent_by@[#[trigger] self.spent(p)[i] as int] is None,
            forall|i: int|
                0 <= i < p.k ==> owned_by(
                    &self.chain,
                    #[trigger] self.spent(p)[i],
                    p.sender as int,
                ),
    {
        let purse = self.unspent@[p.sender as int]@;
        assert(self.unspent@[p.sender as int]@.no_duplicates());
        assert forall|i: int| 0 <= i < p.k implies owned_by(
            &self.chain,
            #[trigger] self.spent(p)[i],
            p.sender as int,
        ) && self.chain.spent_by@[self.spent(p)[i] as int] is None by {
            assert(self.spent(p)[i] == self.unspent@[p.sender as int]@[i]);
        }
    }
}

/// Notes the transaction that spends each of the outputs.
fn mark_spent(spent_by: &mut Vec<Option<usize>>, ins: &Vec<usize>, t: usize)
    requires
        forall|j: int| 0 <= j < ins@.len() ==> #[trigger] ins@[j] < old(spent_by)@.len(),
    ensures
        final(spent_by)@.len() == old(spent_by)@.len(),
        forall|o: int|
            0 <= o < old(spent_by)@.len() ==> #[trigger] final(spent_by)@[o] == (if ins@.contains(
                o as usize,
            ) {
                Some(t)
            } else {
                old(spent_by)@[o]
            }),
{
    let n = spent_by.len();
    for i in 0..ins.len()
        invariant
            n == spent_by@.len(),
            n == old(spent_by)@.len(),
            forall|j: int| 0 <= j < ins@.len() ==> #[trigger] ins@[j] < n,
            forall|o: int|
                0 <= o < n ==> #[trigger] spent_by@[o] == (if ins@.take(i as int).contains(
                    o as usize,
                ) {
                    Some(t)
                } else {
                    old(spent_by)@[o]
                }),
    {
        let x = ins[i];
        let ghost s0 = spent_by@;
        spent_by.set(x, Some(t));
        proof {
            assert(ins@.take(i + 1) =~= ins@.take(i as int).push(x));
            assert forall|o: int| 0 <= o < n
                implies #[trigger] spent_by@[o] == (if ins@.take(i + 1).contains(o as usize) {
                Some(t)
            } else {
                old(spent_by)@[o]
            }) by {
                graph::lemma_push_contains(ins@.take(i as int), x, o as usize);
                assert(s0[o] == (if ins@.take(i as int).contains(o as usize) {
                    Some(t)
                } else {
                    old(spent_by)@[o]
                }));
            }
        }
    }
    assert(ins@.take(ins@.len() as int) =~= ins@);
}

#[verifier::rlimit(60)]
proof fn lemma_pay_keeps(l: &Ledger, p: &Payment, l2: &Ledger)
    requires
        l.well_formed(),
        l.can_pay(p),
        l.pays(p, l2),
    ensures
        l2.well_formed(),
        l2.chain.minted() == l.chain.minted(),
{
    let c = l.chain;
    let c2 = l2.chain;
    let n = c.len() as int;
    let ins = l.spent(p);
    l.lemma_spent(p);
    assert forall|a: int| 0 <= a < c.address_entity@.len()
        implies #[trigger] c2.address_entity@[a] == c.address_entity@[a] by {}
    assert(l.pay_address(p) < c2.address_entity@.len()
        && c2.address_entity@[l.pay_address(p)] == p.recipient);
    assert(l.change_address(p) < c2.address_entity@.len()
        && c2.address_entity@[l.change_address(p)] == p.sender);
    assert forall|i: int, j: int| 0 <= i < ins.len() && 0 <= j < ins.len()
        implies c.address_entity@[c.outputs@[#[trigger] ins[i] as int].address as int]
        == c.address_entity@[c.outputs@[#[trigger] ins[j] as int].address as int] by {
        assert(owned_by(&c, l.spent(p)[i], p.sender as int));
        assert(owned_by(&c, l.spent(p)[j], p.sender as int));
    }
    lemma_payment(&c, &c2, ins, p.swapped);
    assert forall|e: int, k: int| 0 <= e < c2.n_entities && 0 <= k < l2.entity_addresses@[e]@.len()
        implies (
        #[trigger] l2.entity_addresses@[e]@[k] < c2.address_entity@.len()
            && c2.address_entity@[l2.entity_addresses@[e]@[k] as int] == e) by {
        assert(l2.entity_addresses@[e]@ == l.known_after(p, e));
        if k < l.entity_addresses@[e]@.len() {
            assert(l.entity_addresses@[e]@[k] < c.address_entity@.len());
        }
    }
    assert forall|e: int, k: int| 0 <= e < c2.n_entities && 0 <= k < l2.unspent@[e]@.len()
        implies owned_by(
        &c2,
        #[trigger] l2.unspent@[e]@[k],
        e,
    ) && c2.spent_by@[l2.unspent@[e]@[k] as int] is None by {
        assert(l2.unspent@[e]@ == l.purse_after(p, e));
        let old_purse = l.unspent@[e]@;
        let o = l2.unspent@[e]@[k];
        let kept: int = if e == p.sender {
            old_purse.len() - p.k
        } else {
            old_purse.len() as int
        };
        if k < kept {
            let j = if e == p.sender {
                k + p.k
            } else {
                k
            };
            assert(o == l.unspent@[e]@[j]);
            assert(owned_by(&c, l.unspent@[e]@[j], e));
            assert(c2.outputs@[o as int] == c.outputs@[o as int]);
            assert(c.outputs@[o as int].address < c.address_entity@.len());
            if ins.contains(o) {
                let i = choose|i: int| 0 <= i < ins.len() && ins[i] == o;
                assert(owned_by(&c, l.spent(p)[i], p.sender as int));
                assert(e == p.sender);
                assert(l.unspent@[e]@.no_duplicates());
                assert(l.unspent@[e]@[i] == l.unspent@[e]@[j]);
            }
            assert(c2.spent_by@[o as int] == c.spent_by@[o as int]);
        }
    }
    assert forall|e: int| 0 <= e < c2.n_entities
        implies (#[trigger] l2.unspent@[e])@.no_duplicates() by {
        assert(l2.unspent@[e]@ == l.purse_after(p, e));
        let old_purse = l.unspent@[e]@;
        assert(l.unspent@[e]@.no_duplicates());
        assert forall|i: int| 0 <= i < old_purse.len() implies #[trigger] old_purse[i] < n by {
            assert(owned_by(&c, l.unspent@[e]@[i], e));
        }
    }
}

/// What holds of every ledger that the configuration can give.
pub open spec fn is_instance(c: &Chain, cfg: &ChainConfig) -> bool {
    &&& c.linked()
    &&& c.conserving()
    &&& clustering::honest(c)
    &&& taint::inputs_fit(c)
    &&& is_shaped(c, cfg)
}

/// An opening transaction per entity, then payments, with what they issue.
pub open spec fn is_shaped(c: &Chain, cfg: &ChainConfig) -> bool {
    let m = cfg.n_entities as int;
    &&& c.n_entities == m
    &&& c.stolen_output == 0
    &&& c.stolen_value == cfg.initial_value
    &&& c.minted() == m * cfg.initial_value
    &&& m <= c.txs@.len() <= m + cfg.n_txs
    &&& c.len() == m + 2 * (c.txs@.len() - m)
    &&& c.address_entity@.len() <= c.len()
    &&& forall|e: int|
        0 <= e < m ==> (#[trigger] c.txs@[e]).inputs@.len() == 0 && c.txs@[e].outputs@ == seq![
            e as usize,
        ] && c.outputs@[e].value == cfg.initial_value && c.outputs@[e].address == e
    &&& forall|t: int|
        m <= t < c.txs@.len() ==> 1 <= (#[trigger] c.txs@[t]).inputs@.len() <= cfg.max_inputs
            && c.txs@[t].outputs@.len() == 2
    &&& forall|o: int| m <= o < c.len() ==> (#[trigger] c.outputs@[o]).value >= 1
}

/// A purse in the order that a shuffle gives it.
pub open spec fn mixed(purse: Seq<usize>, stream: Map<nat, u32>) -> Seq<usize> {
    Seq::new(purse.len(), |i: int| purse[rng::shuffle_draw(stream, purse.len()).0[i]])
}

/// A sender is drawn again, up to `tries` times, while it has nothing.
pub open spec fn sender_draw(l: &Ledger, stream: Map<nat, u32>, tries: nat) -> (
    int,
    Map<nat, u32>,
)
    decreases tries,
{
    let (x, used) = rng::range_draw(stream, 0, l.unspent@.len() as u64);
    let rest = rng::skip_words(stream, used);
    if l.unspent@[x as int]@.len() == 0 && tries > 0 {
        sender_draw(l, rest, (tries - 1) as nat)
    } else {
        (x as int, rest)
    }
}

/// One of the addresses where `reuse` says so and there is any, and the stream
/// that is left.
pub open spec fn reused(items: Seq<u32>, reuse: bool, stream: Map<nat, u32>) -> (
    Option<u32>,
    Map<nat, u32>,
) {
    if reuse && items.len() > 0 {
        let (at, used) = rng::choose_draw(stream, items.len());
        (Some(items[at]), rng::skip_words(stream, used))
    } else {
        (None, stream)
    }
}

/// A biased coin.
pub open spec fn heads(stream: Map<nat, u32>, threshold: u64) -> bool {
    rng::first_u64(stream) / 2048 < threshold
}

/// One turn of the generator: who sends, what the sender's purse is before a
/// payment, the payment if there is one, and the stream that is left.
pub ghost struct Turn {
    pub sender: int,
    pub purse: Seq<usize>,
    pub payment: Option<Payment>,
    pub rest: Map<nat, u32>,
}

/// The addresses that change can go back to: those of the sender, with the one
/// just made where the sender pays to itself.
pub open spec fn change_pool(l: &Ledger, sender: int, recipient: int, to: Option<u32>) -> Seq<
    u32,
> {
    let known = l.entity_addresses@[sender]@;
    if recipient == sender && to is None {
        known.push(l.chain.address_entity@.len() as u32)
    } else {
        known
    }
}

/// The payment of a sender that spends the first `k` outputs of a purse worth
/// `total`, drawn in this order: the recipient, the amount, the address to pay
/// to, the one for the change, and which of them is listed first.
pub open spec fn payment_turn(
    l: &Ledger,
    cfg: &ChainConfig,
    sender: int,
    k: int,
    total: int,
    stream: Map<nat, u32>,
) -> (Payment, Map<nat, u32>) {
    let n = l.unspent@.len() as int;
    let (r, used) = rng::range_draw(stream, 0, n as u64);
    let recipient = if r == sender {
        (r + 1) % n
    } else {
        r as int
    };
    let s1 = rng::skip_words(stream, used);
    let amount = payment_of(total, rng::first_u64(s1) as u64);
    let s2 = rng::skip_words(s1, 2);
    let (to, s3) = reused(
        l.entity_addresses@[recipient]@,
        heads(s2, cfg.recipient_reuse_rate),
        rng::skip_words(s2, 2),
    );
    let (change_to, s4) = reused(
        change_pool(l, sender, recipient, to),
        heads(s3, cfg.change_reuse_rate),
        rng::skip_words(s3, 2),
    );
    let (order, more) = rng::shuffle_draw(s4, 2);
    (
        Payment {
            sender: sender as usize,
            recipient: recipient as usize,
            k: k as usize,
            amount: amount as u64,
            to,
            change_to,
            swapped: order[0] == 1,
        },
        rng::skip_words(s4, more),
    )
}

/// What the next turn of a ledger is.
pub open spec fn turn(l: &Ledger, cfg: &ChainConfig, stream: Map<nat, u32>) -> Turn {
    let (sender, s1) = sender_draw(l, stream, 32);
    let purse = l.unspent@[sender]@;
    if purse.len() == 0 {
        Turn { sender, purse, payment: None, rest: s1 }
    } else {
        let (want, used) = rng::range_draw(s1, 1, (cfg.max_inputs + 1) as u64);
        let s2 = rng::skip_words(s1, used);
        let k = if want <= purse.len() {
            want as int
        } else {
            purse.len() as int
        };
        let shuffled = mixed(purse, s2);
        let s3 = rng::skip_words(s2, rng::shuffle_draw(s2, purse.len()).1);
        let total = math::sum_over(shuffled.take(k), l.chain.value());
        if total < 2 {
            Turn { sender, purse: shuffled.skip(k) + shuffled.take(k), payment: None, rest: s3 }
        } else {
            let (p, rest) = payment_turn(l, cfg, sender, k, total, s3);
            Turn { sender, purse: shuffled, payment: Some(p), rest }
        }
    }
}

impl Ledger {
    /// `after` is `self` with another purse for `e`.
    pub open spec fn repursed(&self, after: &Ledger, e: int, purse: Seq<usize>) -> bool {
        &&& after.chain == self.chain
        &&& after.entity_addresses == self.entity_addresses
        &&& after.unspent@.len() == self.unspent@.len()
        &&& after.unspent@[e]@ == purse
        &&& forall|x: int|
            0 <= x < self.unspent@.len() && x != e ==> #[trigger] after.unspent@[x]
                == self.unspent@[x]
    }

    /// `after` is what a turn makes of `self`.
    pub open spec fn takes(&self, t: Turn, after: &Ledger) -> bool {
        exists|mid: Ledger| #[trigger]
            self.repursed(&mid, t.sender, t.purse) && match t.payment {
                Some(p) => mid.pays(&p, after),
                None => *after == mid,
            }
    }
}

/// A run of the generator: the ledger and the stream after each turn.
pub open spec fn is_run(
    cfg: &ChainConfig,
    ledgers: Seq<Ledger>,
    streams: Seq<Map<nat, u32>>,
) -> bool {
    &&& ledgers.len() == streams.len() > 0
    &&& ledgers[0].opened(cfg.n_entities as int, cfg.initial_value)
    &&& forall|i: int|
        0 <= i < ledgers.len() - 1 ==> #[trigger] is_turn_at(cfg, ledgers, streams, i)
}

/// Turn `i` of a run.
pub open spec fn is_turn_at(
    cfg: &ChainConfig,
    ledgers: Seq<Ledger>,
    streams: Seq<Map<nat, u32>>,
    i: int,
) -> bool {
    is_turn(cfg, ledgers[i], ledgers[i + 1], streams[i], streams[i + 1])
}

/// One turn of a run.
pub open spec fn is_turn(
    cfg: &ChainConfig,
    l: Ledger,
    after: Ledger,
    stream: Map<nat, u32>,
    rest: Map<nat, u32>,
) -> bool {
    &&& l.takes(turn(&l, cfg, stream), &after)
    &&& rest == turn(&l, cfg, stream).rest
}

/// The chain is what `n` turns make of a stream.
pub open spec fn is_drawn(
    cfg: &ChainConfig,
    stream: Map<nat, u32>,
    c: &Chain,
    rest: Map<nat, u32>,
) -> bool {
    exists|ledgers: Seq<Ledger>, streams: Seq<Map<nat, u32>>|
        {
            &&& #[trigger] is_run(cfg, ledgers, streams)
            &&& ledgers.len() == cfg.n_txs + 1
            &&& streams[0] == stream
            &&& ledgers.last().chain == *c
            &&& streams.last() == rest
        }
}

/// Something is drawn from `items` when `reuse` says so and there is anything.
fn reuse_one(items: &Vec<u32>, reuse: bool, rng: &mut ChaCha8Rng) -> (r: Option<u32>)
    ensures
        (r, rng::words(*final(rng))) == reused(items@, reuse, rng::words(*old(rng))),
        r matches Some(a) ==> items@.contains(a),
{
    if reuse && items.len() > 0 {
        Some(rng::choose_item(items, rng))
    } else {
        None
    }
}

/// Draws a sender that has something to spend, in at most 33 tries.
fn draw_sender(l: &Ledger, rng: &mut ChaCha8Rng) -> (sender: usize)
    requires
        l.unspent@.len() > 0,
    ensures
        sender < l.unspent@.len(),
        (sender as int, rng::words(*final(rng))) == sender_draw(l, rng::words(*old(rng)), 32),
{
    let n = l.unspent.len();
    let ghost whole = sender_draw(l, rng::words(*rng), 32);
    let mut left: u32 = 32;
    let mut sender = rng::draw_index(rng, 0, n);
    while l.unspent[sender].len() == 0 && left > 0
        invariant
            n == l.unspent@.len(),
            n > 0,
            sender < n,
            whole == if l.unspent@[sender as int]@.len() == 0 && left > 0 {
                sender_draw(l, rng::words(*rng), (left - 1) as nat)
            } else {
                (sender as int, rng::words(*rng))
            },
        decreases left,
    {
        left = left - 1;
        sender = rng::draw_index(rng, 0, n);
    }
    sender
}

/// Draws the payment of a sender whose first `k` outputs are worth `total`.
fn draw_terms(
    l: &Ledger,
    cfg: &ChainConfig,
    sender: usize,
    k: usize,
    total: u64,
    rng: &mut ChaCha8Rng,
) -> (p: Payment)
    requires
        l.well_formed(),
        sender < l.chain.n_entities,
        1 <= k <= l.unspent@[sender as int]@.len(),
        total >= 2,
        total == math::sum_over(l.unspent@[sender as int]@.take(k as int), l.chain.value()),
        l.chain.len() + 2 <= u32::MAX,
        l.chain.txs@.len() + 1 <= u32::MAX,
    ensures
        (p, rng::words(*final(rng))) == payment_turn(
            l,
            cfg,
            sender as int,
            k as int,
            total as int,
            rng::words(*old(rng)),
        ),
        l.can_pay(&p),
        p.k == k,
{
    let n = l.unspent.len();
    let mut recipient = rng::draw_index(rng, 0, n);
    if recipient == sender {
        recipient = (recipient + 1) % n;
    }
    let amount = payment(total, rng::next_u64(rng));
    let pay_reuse = rng::coin(rng, cfg.recipient_reuse_rate);
    let to = reuse_one(&l.entity_addresses[recipient], pay_reuse, rng);
    let change_reuse = rng::coin(rng, cfg.change_reuse_rate);
    let fresh = l.chain.address_entity.len() as u32;
    let change_to = if recipient == sender && to.is_none() {
        let mut pool = copied(&l.entity_addresses[sender]);
        pool.push(fresh);
        reuse_one(&pool, change_reuse, rng)
    } else {
        reuse_one(&l.entity_addresses[sender], change_reuse, rng)
    };
    let ghost pool = change_pool(l, sender as int, recipient as int, to);
    let ghost s4 = rng::words(*rng);
    let mut listed: Vec<usize> = Vec::new();
    listed.push(0);
    listed.push(1);
    rng::shuffle(&mut listed, rng);
    let p = Payment { sender, recipient, k, amount, to, change_to, swapped: listed[0] == 1 };
    proof {
        let order = rng::shuffle_draw(s4, 2).0;
        assert(0 <= order[0] < 2);
        if let Some(a) = to {
            let s = l.entity_addresses@[recipient as int]@;
            let j = choose|j: int| 0 <= j < s.len() && s[j] == a;
            assert(l.entity_addresses@[recipient as int]@[j] == a);
        }
        if let Some(a) = change_to {
            assert(pool.contains(a));
            let j = choose|j: int| 0 <= j < pool.len() && pool[j] == a;
            let s = l.entity_addresses@[sender as int]@;
            if j < s.len() {
                assert(l.entity_addresses@[sender as int]@[j] == a);
            }
        }
        assert(l.spent(&p) == l.unspent@[sender as int]@.take(k as int));
    }
    p
}

fn copied(list: &Vec<u32>) -> (r: Vec<u32>)
    ensures
        r@ == list@,
{
    let mut r: Vec<u32> = Vec::new();
    for i in 0..list.len()
        invariant
            r@ == list@.take(i as int),
    {
        r.push(list[i]);
        assert(r@ =~= list@.take(i + 1));
    }
    assert(r@ =~= list@);
    r
}

/// Draws one payment of the ledger, having shuffled what its sender can spend;
/// `None` where the sender has too little.
fn draw_payment(l: &mut Ledger, cfg: &ChainConfig, rng: &mut ChaCha8Rng) -> (p: Option<Payment>)
    requires
        old(l).well_formed(),
        old(l).chain.n_entities > 0,
        1 <= cfg.max_inputs < usize::MAX,
        old(l).chain.len() + 2 <= u32::MAX,
        old(l).chain.txs@.len() + 1 <= u32::MAX,
    ensures
        final(l).well_formed(),
        final(l).chain == old(l).chain,
        ({
            let t = turn(old(l), cfg, rng::words(*old(rng)));
            &&& old(l).repursed(final(l), t.sender, t.purse)
            &&& p == t.payment
            &&& rng::words(*final(rng)) == t.rest
        }),
        p matches Some(p) ==> final(l).can_pay(&p) && p.k <= cfg.max_inputs,
{
    let sender = draw_sender(l, rng);
    if l.unspent[sender].len() == 0 {
        return None;
    }
    let want = rng::draw_index(rng, 1, cfg.max_inputs + 1);
    let have = l.unspent[sender].len();
    let k = if want <= have {
        want
    } else {
        have
    };
    l.shuffle_purse(sender, rng);
    let (ins, _) = split_at(&l.unspent[sender], k);
    proof {
        let purse = l.unspent@[sender as int]@;
        assert(l.unspent@[sender as int]@.no_duplicates());
        assert forall|i: int| 0 <= i < ins@.len() implies #[trigger] ins@[i] < l.chain.len()
            && l.chain.spent_by@[ins@[i] as int] is None by {
            assert(ins@[i] == l.unspent@[sender as int]@[i]);
            assert(owned_by(&l.chain, l.unspent@[sender as int]@[i], sender as int));
        }
        lemma_purse_bounded(&l.chain, ins@);
    }
    let total = sum_values(&l.chain, &ins);
    if total < 2 {
        l.put_back(sender, k);
        return None;
    }
    let ghost mid = *l;
    let p = draw_terms(l, cfg, sender, k, total, rng);
    proof {
        let u = old(l).unspent@;
        assert(mid.unspent@ == u.update(sender as int, mid.unspent@[sender as int]));
        lemma_terms_need_no_purse(
            old(l),
            &mid,
            cfg,
            sender as int,
            k as int,
            total as int,
        );
    }
    Some(p)
}

/// The terms of a payment do not depend on the purses.
proof fn lemma_terms_need_no_purse(
    a: &Ledger,
    b: &Ledger,
    cfg: &ChainConfig,
    sender: int,
    k: int,
    total: int,
)
    requires
        a.chain == b.chain,
        a.entity_addresses == b.entity_addresses,
        a.unspent@.len() == b.unspent@.len(),
    ensures
        forall|s: Map<nat, u32>| #[trigger]
            payment_turn(a, cfg, sender, k, total, s) == payment_turn(b, cfg, sender, k, total, s),
{
}

/// No transaction spends more than there is.
proof fn lemma_inputs_fit(l: &Ledger, p: &Payment, l2: &Ledger)
    requires
        l.well_formed(),
        l.can_pay(p),
        l.pays(p, l2),
        taint::inputs_fit(&l.chain),
    ensures
        taint::inputs_fit(&l2.chain),
{
    let c = l.chain;
    let c2 = l2.chain;
    let t = c.txs@.len() as int;
    l.lemma_spent(p);
    assert forall|s: int| 0 <= s < c2.txs@.len() implies #[trigger] c2.value_in(s) <= u64::MAX by {
        let ins = c2.txs@[s].inputs@;
        if s < t {
            assert(c2.txs@[s] == c.txs@[s]);
            assert(c.value_in(s) <= u64::MAX);
            assert forall|k: int| 0 <= k < ins.len() implies c2.value()(#[trigger] ins[k] as int)
                == c.value()(ins[k] as int) by {
                assert(c.txs@[s].inputs@[k] < c.len());
                assert(c2.outputs@[ins[k] as int] == c.outputs@[ins[k] as int]);
            }
        } else {
            lemma_purse_bounded(&c, ins);
            assert forall|k: int| 0 <= k < ins.len() implies c2.value()(#[trigger] ins[k] as int)
                == c.value()(ins[k] as int) by {
                assert(l.spent(p)[k] < c.len());
                assert(c2.outputs@[ins[k] as int] == c.outputs@[ins[k] as int]);
            }
        }
        math::lemma_sum_over_same(ins, c2.value(), c.value());
    }
}

/// The later chain is the earlier one with one more transaction of two outputs.
spec fn one_more(c: &Chain, c2: &Chain, most: int) -> bool {
    let (t, n) = (c.txs@.len() as int, c.len() as int);
    &&& c2.txs@.len() == t + 1
    &&& forall|s: int| 0 <= s < t ==> #[trigger] c2.txs@[s] == c.txs@[s]
    &&& 1 <= c2.txs@[t].inputs@.len() <= most
    &&& c2.txs@[t].outputs@.len() == 2
    &&& c2.len() == n + 2
    &&& forall|o: int| 0 <= o < n ==> #[trigger] c2.outputs@[o] == c.outputs@[o]
    &&& c2.outputs@[n].value >= 1
    &&& c2.outputs@[n + 1].value >= 1
    &&& c2.address_entity@.len() <= c.address_entity@.len() + 2
    &&& c2.n_entities == c.n_entities
    &&& c2.stolen_output == c.stolen_output
    &&& c2.stolen_value == c.stolen_value
}

#[verifier::rlimit(60)]
proof fn lemma_one_more(l: &Ledger, p: &Payment, l2: &Ledger)
    requires
        l.well_formed(),
        l.can_pay(p),
        l.pays(p, l2),
    ensures
        one_more(&l.chain, &l2.chain, p.k as int),
{
    l.lemma_spent(p);
}

proof fn lemma_still_shaped(c: &Chain, c2: &Chain, cfg: &ChainConfig)
    requires
        is_shaped(c, cfg),
        c.txs@.len() < cfg.n_entities + cfg.n_txs,
        one_more(c, c2, cfg.max_inputs as int),
        c2.minted() == c.minted(),
    ensures
        is_shaped(c2, cfg),
{
    let m = cfg.n_entities as int;
    let t = c.txs@.len() as int;
    let n = c.len() as int;
    assert forall|e: int| 0 <= e < m implies (#[trigger] c2.txs@[e]).inputs@.len() == 0
        && c2.txs@[e].outputs@ == seq![e as usize] && c2.outputs@[e].value == cfg.initial_value
        && c2.outputs@[e].address == e by {
        assert(c2.txs@[e] == c.txs@[e]);
        assert(c2.outputs@[e] == c.outputs@[e]);
    }
    assert forall|s: int| m <= s < c2.txs@.len() implies 1 <= (#[trigger] c2.txs@[s]).inputs@.len()
        <= cfg.max_inputs && c2.txs@[s].outputs@.len() == 2 by {
        if s < t {
            assert(c2.txs@[s] == c.txs@[s]);
        }
    }
    assert forall|o: int| m <= o < c2.len() implies (#[trigger] c2.outputs@[o]).value >= 1 by {
        if o < n {
            assert(c2.outputs@[o] == c.outputs@[o]);
        }
    }
}

proof fn lemma_instance_step(l: &Ledger, p: &Payment, l2: &Ledger, cfg: &ChainConfig)
    requires
        is_instance(&l.chain, cfg),
        l.chain.txs@.len() < cfg.n_entities + cfg.n_txs,
        l.well_formed(),
        l.can_pay(p),
        p.k <= cfg.max_inputs,
        l.pays(p, l2),
        l2.well_formed(),
        l2.chain.minted() == l.chain.minted(),
    ensures
        is_instance(&l2.chain, cfg),
{
    lemma_one_more(l, p, l2);
    lemma_inputs_fit(l, p, l2);
    lemma_still_shaped(&l.chain, &l2.chain, cfg);
}

/// A random ledger. Entity 0's opening balance is the crime proceeds.
pub fn chain_instance(rng: &mut ChaCha8Rng, cfg: &ChainConfig) -> (c: Chain)
    requires
        cfg.valid(),
    ensures
        is_instance(&c, cfg),
        c.unspent_sum(c.value()) == cfg.n_entities * cfg.initial_value,
        is_drawn(cfg, rng::words(*old(rng)), &c, rng::words(*final(rng))),
{
    let mut l = Ledger::open_accounts(cfg.n_entities, cfg.initial_value);
    let ghost mut ledgers = seq![l];
    let ghost mut streams = seq![rng::words(*rng)];
    proof {
        assert forall|e: int| 0 <= e < cfg.n_entities
            implies (#[trigger] l.chain.txs@[e]).inputs@.len() == 0
            && l.chain.txs@[e].outputs@ == seq![e as usize] && l.chain.outputs@[e].value == cfg.initial_value
            && l.chain.outputs@[e].address == e by {
            assert(l.chain.outputs@[e].value == cfg.initial_value);
        }
        assert forall|t: int| 0 <= t < l.chain.txs@.len() implies #[trigger] l.chain.value_in(t)
            <= u64::MAX by {
            assert(l.chain.outputs@[t].creating_tx == t);
            assert(l.chain.txs@[t].inputs@.len() == 0);
        }
    }
    let ghost m = cfg.n_entities as int;
    for i in 0..cfg.n_txs
        invariant
            cfg.valid(),
            m == cfg.n_entities,
            l.well_formed(),
            l.chain.txs@.len() <= m + i,
            is_instance(&l.chain, cfg),
            is_run(cfg, ledgers, streams),
            ledgers.len() == i + 1,
            streams[0] == rng::words(*old(rng)),
            ledgers.last() == l,
            streams.last() == rng::words(*rng),
    {
        let ghost start = l;
        let ghost stream = rng::words(*rng);
        let drawn = draw_payment(&mut l, cfg, rng);
        let ghost mid = l;
        if let Some(p) = drawn {
            l.pay(&p);
            proof {
                lemma_instance_step(&mid, &p, &l, cfg);
            }
        }
        proof {
            let t = turn(&start, cfg, stream);
            assert(start.repursed(&mid, t.sender, t.purse));
            assert(start.takes(t, &l));
            lemma_run_grows(cfg, ledgers, streams, l, rng::words(*rng));
            ledgers = ledgers.push(l);
            streams = streams.push(rng::words(*rng));
        }
    }
    proof {
        chain::lemma_value_conserved(&l.chain);
    }
    l.chain
}

/// A run with one more turn is a run.
proof fn lemma_run_grows(
    cfg: &ChainConfig,
    ledgers: Seq<Ledger>,
    streams: Seq<Map<nat, u32>>,
    l: Ledger,
    s: Map<nat, u32>,
)
    requires
        is_run(cfg, ledgers, streams),
        is_turn(cfg, ledgers.last(), l, streams.last(), s),
    ensures
        is_run(cfg, ledgers.push(l), streams.push(s)),
{
    let a = ledgers.push(l);
    let b = streams.push(s);
    assert forall|i: int| 0 <= i < a.len() - 1 implies #[trigger] is_turn_at(cfg, a, b, i) by {
        assert(a[i] == ledgers[i]);
        if i < ledgers.len() - 1 {
            assert(is_turn_at(cfg, ledgers, streams, i));
        }
    }
}

} // verus!
