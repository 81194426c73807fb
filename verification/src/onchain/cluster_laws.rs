//! What the two heuristics tie together, and what they leave apart.

use crate::graph;
use crate::math;
use crate::onchain::chain::Chain;
use crate::onchain::clustering;
use vstd::prelude::*;

verus! {

/// The address that input `i` of transaction `t` spends from.
pub open spec fn payer(c: &Chain, t: int, i: int) -> u32 {
    c.outputs@[c.txs@[t].inputs@[i] as int].address
}

/// The address that output `j` of transaction `t` pays to.
pub open spec fn payee(c: &Chain, t: int, j: int) -> u32 {
    c.outputs@[c.txs@[t].outputs@[j] as int].address
}

/// Output `j` of `t` pays the address that its input `i` spends from.
pub open spec fn pays_back(c: &Chain, t: int, i: int, j: int) -> bool {
    &&& 0 <= i < c.txs@[t].inputs@.len()
    &&& 0 <= j < c.txs@[t].outputs@.len()
    &&& payer(c, t, i) == payee(c, t, j)
}

/// Some earlier transaction than `t` paid the address.
pub open spec fn paid_before(c: &Chain, t: int, a: u32) -> bool {
    exists|s: int, j: int|
        0 <= s < t && 0 <= j < c.txs@[s].outputs@.len() && #[trigger] payee(c, s, j) == a
}

/// A transaction that pays one of its own input addresses has no change output:
/// whoever sends change to an old address sends none to a new one.
pub proof fn lemma_no_self_change(c: &Chain, t: int, seen: Set<u32>, i: int, j: int, k: int)
    requires
        pays_back(c, t, i, j),
    ensures
        !clustering::is_change(c, t, seen, k),
{
    assert(clustering::input_address(c, t, i) == payee(c, t, j));
    assert(clustering::spends_from(
        c,
        t,
        clustering::output_address(c, t, j) as usize,
    ));
}

/// So it ties no address to its sender but those of its inputs.
pub proof fn lemma_self_change_ties_inputs_only(c: &Chain, t: int, i: int, j: int, a: usize)
    requires
        pays_back(c, t, i, j),
        clustering::sender_side(c, t, a),
    ensures
        exists|x: int| 0 <= x < c.txs@[t].inputs@.len() && #[trigger] payer(c, t, x) == a,
{
    if clustering::spends_from(c, t, a) {
        let x = choose|x: int|
            0 <= x < c.txs@[t].inputs@.len() && #[trigger] clustering::input_address(c, t, x) == a;
        assert(payer(c, t, x) == a);
    } else {
        let k = choose|k: int| #[trigger]
            clustering::is_change(c, t, clustering::paid_until(c, t), k)
                && clustering::output_address(c, t, k) == a;
        lemma_no_self_change(c, t, clustering::paid_until(c, t), i, j, k);
    }
}

/// A coinbase has no change, nor has a transaction with two outputs to addresses
/// that are new; and an address that was paid before is no change.
pub proof fn lemma_change_is_the_only_new_address(
    c: &Chain,
    t: int,
    seen: Set<u32>,
    k: int,
    j: int,
)
    requires
        clustering::is_change(c, t, seen, k),
        0 <= j < c.txs@[t].outputs@.len(),
    ensures
        c.txs@[t].inputs@.len() > 0,
        0 <= k < c.txs@[t].outputs@.len(),
        !seen.contains(payee(c, t, k)),
        j != k ==> seen.contains(payee(c, t, j)),
{
    if j != k {
        assert(!clustering::is_fresh(c, t, seen, j));
    }
}

/// And where a transaction with inputs pays back to none of them, and exactly one
/// of its outputs pays a new address, that output is the change.
pub proof fn lemma_lone_new_address_is_change(c: &Chain, t: int, seen: Set<u32>, k: int)
    requires
        c.txs@[t].inputs@.len() > 0,
        0 <= k < c.txs@[t].outputs@.len(),
        !seen.contains(payee(c, t, k)),
        forall|j: int|
            0 <= j < c.txs@[t].outputs@.len() && j != k ==> seen.contains(#[trigger] payee(c, t, j)),
        forall|i: int, j: int|
            0 <= i < c.txs@[t].inputs@.len() && 0 <= j < c.txs@[t].outputs@.len()
                ==> #[trigger] payer(c, t, i) != #[trigger] payee(c, t, j),
    ensures
        clustering::is_change(c, t, seen, k),
{
    assert forall|j: int|
        0 <= j < c.txs@[t].outputs@.len() && #[trigger] clustering::is_fresh(c, t, seen, j)
        implies j == k by {
        if j != k {
            assert(seen.contains(payee(c, t, j)));
        }
    }
    if clustering::self_change(c, t) {
        let j = choose|j: int|
            0 <= j < c.txs@[t].outputs@.len() && clustering::spends_from(
                c,
                t,
                #[trigger] clustering::output_address(c, t, j) as usize,
            );
        let i = choose|i: int|
            0 <= i < c.txs@[t].inputs@.len() && #[trigger] clustering::input_address(c, t, i)
                == clustering::output_address(c, t, j) as usize;
        assert(payer(c, t, i) != payee(c, t, j));
    }
}

/// New to a transaction is what no earlier one paid.
pub proof fn lemma_seen_is_paid_before(c: &Chain, t: int, a: u32)
    ensures
        clustering::paid_until(c, t).contains(a) <==> paid_before(c, t, a),
{
    if paid_before(c, t, a) {
        let (s, j) = choose|s: int, j: int|
            0 <= s < t && 0 <= j < c.txs@[s].outputs@.len() && #[trigger] payee(c, s, j) == a;
        assert(clustering::output_address(c, s, j) == a);
    }
    if clustering::paid_until(c, t).contains(a) {
        let (s, j) = choose|s: int, j: int|
            0 <= s < t && 0 <= j < c.txs@[s].outputs@.len() && #[trigger] clustering::output_address(
                c,
                s,
                j,
            ) == a;
        assert(payee(c, s, j) == a);
    }
}

/// Any two inputs of one transaction are in one cluster.
pub proof fn lemma_inputs_go_together(c: &Chain, t: int, i: int, j: int)
    requires
        0 <= t < c.txs@.len(),
        0 <= i < c.txs@[t].inputs@.len(),
        0 <= j < c.txs@[t].inputs@.len(),
    ensures
        graph::reach(clustering::co_spent(c), payer(c, t, i) as usize, payer(c, t, j) as usize),
        graph::reach(clustering::same_sender(c), payer(c, t, i) as usize, payer(c, t, j) as usize),
{
    let (a, b) = (payer(c, t, i) as usize, payer(c, t, j) as usize);
    assert(clustering::input_address(c, t, i) == a && clustering::input_address(c, t, j) == b);
    assert(clustering::spends_from(c, t, a) && clustering::spends_from(c, t, b));
    assert(clustering::co_spent(c)(a, b));
    graph::lemma_reach_edge(clustering::co_spent(c), a, b);
    assert(clustering::sender_side(c, t, a) && clustering::sender_side(c, t, b));
    assert(clustering::same_sender(c)(a, b));
    graph::lemma_reach_edge(clustering::same_sender(c), a, b);
}

/// An address that was never spent from is alone, as far as co-spending goes.
pub proof fn lemma_unspent_addresses_stay_alone(c: &Chain, a: usize, b: usize)
    requires
        forall|t: int, i: int|
            0 <= t < c.txs@.len() && 0 <= i < c.txs@[t].inputs@.len() ==> #[trigger] payer(c, t, i)
                != a,
        graph::reach(clustering::co_spent(c), a, b),
    ensures
        a == b,
{
    let e = clustering::co_spent(c);
    let p = choose|p: Seq<usize>| #[trigger] graph::walks(e, p, a, b);
    if p.len() > 1 {
        assert(e(p[0], p[1]));
        let t = choose|t: int|
            0 <= t < c.txs@.len() && #[trigger] clustering::spends_from(c, t, a)
                && clustering::spends_from(c, t, p[1]);
        let i = choose|i: int|
            0 <= i < c.txs@[t].inputs@.len() && #[trigger] clustering::input_address(c, t, i) == a;
        assert(payer(c, t, i) != a);
    }
}

/// The change of a transaction is in the cluster of its inputs.
pub proof fn lemma_change_goes_with_the_inputs(c: &Chain, t: int, i: int, k: int)
    requires
        0 <= t < c.txs@.len(),
        0 <= i < c.txs@[t].inputs@.len(),
        0 <= k < c.txs@[t].outputs@.len(),
        !paid_before(c, t, payee(c, t, k)),
        forall|j: int|
            0 <= j < c.txs@[t].outputs@.len() && j != k ==> paid_before(
                c,
                t,
                #[trigger] payee(c, t, j),
            ),
        forall|x: int, j: int|
            0 <= x < c.txs@[t].inputs@.len() && 0 <= j < c.txs@[t].outputs@.len()
                ==> #[trigger] payer(c, t, x) != #[trigger] payee(c, t, j),
    ensures
        graph::reach(clustering::same_sender(c), payer(c, t, i) as usize, payee(c, t, k) as usize),
{
    let seen = clustering::paid_until(c, t);
    let (a, b) = (payer(c, t, i) as usize, payee(c, t, k) as usize);
    lemma_seen_is_paid_before(c, t, payee(c, t, k));
    assert forall|j: int| 0 <= j < c.txs@[t].outputs@.len() && j != k implies seen.contains(
        #[trigger] payee(c, t, j),
    ) by {
        lemma_seen_is_paid_before(c, t, payee(c, t, j));
    }
    lemma_lone_new_address_is_change(c, t, seen, k);
    assert(clustering::input_address(c, t, i) == a);
    assert(clustering::output_address(c, t, k) == b);
    assert(clustering::sender_side(c, t, a) && clustering::sender_side(c, t, b));
    assert(clustering::same_sender(c)(a, b));
    graph::lemma_reach_edge(clustering::same_sender(c), a, b);
}

/// How many pairs there are where all are equal: every place with every other.
pub proof fn lemma_pairs_of_one_kind(keys: spec_fn(int) -> int, n: nat)
    requires
        forall|a: int, b: int| 0 <= a < n && 0 <= b < n ==> #[trigger] keys(a) == #[trigger] keys(b),
    ensures
        2 * clustering::equal_pairs(keys, n) == n * (n - 1),
    decreases n,
{
    if n > 0 {
        lemma_pairs_of_one_kind(keys, (n - 1) as nat);
        lemma_all_twins(keys, n - 1, (n - 1) as nat);
        assert(n * (n - 1) == (n - 1) * (n - 2) + 2 * (n - 1)) by (nonlinear_arith);
    } else {
        assert(n * (n - 1) == 0) by (nonlinear_arith)
            requires
                n == 0,
        ;
    }
}

proof fn lemma_all_twins(keys: spec_fn(int) -> int, b: int, k: nat)
    requires
        k <= b,
        forall|x: int, y: int| 0 <= x <= b && 0 <= y <= b ==> #[trigger] keys(x) == #[trigger] keys(y),
    ensures
        math::count(k, clustering::twins(keys, b)) == k,
    decreases k,
{
    if k > 0 {
        lemma_all_twins(keys, b, (k - 1) as nat);
        assert(keys(k - 1) == keys(b));
    }
}

/// And where no two are equal: none.
pub proof fn lemma_pairs_of_many_kinds(keys: spec_fn(int) -> int, n: nat)
    requires
        forall|a: int, b: int|
            0 <= a < b < n ==> #[trigger] keys(a) != #[trigger] keys(b),
    ensures
        clustering::equal_pairs(keys, n) == 0,
    decreases n,
{
    if n > 0 {
        lemma_pairs_of_many_kinds(keys, (n - 1) as nat);
        let p = clustering::twins(keys, n - 1);
        assert forall|a: int| 0 <= a < n - 1 implies !#[trigger] p(a) by {
            assert(keys(a) != keys(n - 1));
        }
        math::lemma_count_single((n - 1) as nat, p, 0, false);
    }
}

/// A finer key makes fewer pairs: true pairs are no more than predicted ones, and
/// no more than actual ones.
pub proof fn lemma_finer_keys_make_fewer_pairs(
    fine: spec_fn(int) -> int,
    coarse: spec_fn(int) -> int,
    n: nat,
)
    requires
        forall|a: int, b: int|
            0 <= a < n && 0 <= b < n && #[trigger] fine(a) == #[trigger] fine(b) ==> coarse(a)
                == coarse(b),
    ensures
        clustering::equal_pairs(fine, n) <= clustering::equal_pairs(coarse, n),
    decreases n,
{
    if n > 0 {
        lemma_finer_keys_make_fewer_pairs(fine, coarse, (n - 1) as nat);
        let (p, q) = (clustering::twins(fine, n - 1), clustering::twins(coarse, n - 1));
        assert forall|a: int| 0 <= a < n - 1 && #[trigger] p(a) implies q(a) by {
            assert(fine(a) == fine(n - 1));
        }
        math::lemma_count_monotone((n - 1) as nat, p, q);
    }
}

} // verus!
