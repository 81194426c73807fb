//! Where rows meet, and in what order they arrive.

use crate::distquery::exchange;
use crate::distquery::exchange::Partitioning;
use vstd::prelude::*;

verus! {

/// Equal rows meet: by hash, a row goes to the same output whichever input it is in,
/// wherever it stands there and whatever was routed before.
pub proof fn lemma_equal_rows_meet(
    k: int,
    a: Seq<u64>,
    b: Seq<u64>,
    next_a: int,
    next_b: int,
    i: int,
    j: int,
)
    requires
        k > 0,
        a[i] == b[j],
    ensures
        exchange::output_of(Partitioning::Hash, k, next_a, a, i) == exchange::output_of(
            Partitioning::Hash,
            k,
            next_b,
            b,
            j,
        ),
        0 <= exchange::output_of(Partitioning::Hash, k, next_a, a, i) < k,
{
    vstd::arithmetic::div_mod::lemma_mod_bound(
        crate::sharding::placement::mixed(a[i]) as int,
        k,
    );
}

/// In rotation the first row goes to the output whose turn it is, and each next row to
/// the next output, whatever the rows hold.
pub proof fn lemma_rotation(k: int, input: Seq<u64>, next: int, i: int)
    requires
        0 <= next < k,
        i >= 0,
    ensures
        ({
            let at = exchange::output_of(Partitioning::RoundRobin, k, next, input, i);
            let then = exchange::output_of(Partitioning::RoundRobin, k, next, input, i + 1);
            &&& 0 <= at < k
            &&& i == 0 ==> at == next
            &&& then == if at + 1 < k {
                at + 1
            } else {
                0
            }
        }),
{
    let x = next + i;
    vstd::arithmetic::div_mod::lemma_mod_bound(x, k);
    vstd::arithmetic::div_mod::lemma_fundamental_div_mod(x, k);
    let (q, r) = (x / k, x % k);
    if i == 0 {
        vstd::arithmetic::div_mod::lemma_small_mod(next as nat, k as nat);
    }
    if r + 1 < k {
        assert(x + 1 == q * k + (r + 1)) by (nonlinear_arith)
            requires
                x == k * q + r,
        ;
        vstd::arithmetic::div_mod::lemma_fundamental_div_mod_converse(x + 1, k, q, r + 1);
    } else {
        assert(x + 1 == (q + 1) * k + 0) by (nonlinear_arith)
            requires
                x == k * q + r,
                r + 1 == k,
        ;
        vstd::arithmetic::div_mod::lemma_fundamental_div_mod_converse(x + 1, k, q + 1, 0);
    }
}

/// The output holds the row from that place of the input.
pub open spec fn is_from(input: Seq<u64>, out: Seq<u64>, places: Seq<int>) -> bool {
    &&& places.len() == out.len()
    &&& forall|p: int| 0 <= p < out.len() ==> 0 <= #[trigger] places[p] < input.len() && out[p]
        == input[places[p]]
    &&& forall|p: int, q: int| 0 <= p < q < out.len() ==> places[p] < places[q]
}

/// Rows keep their order: an output holds rows of the input from ascending places.
pub proof fn lemma_rows_keep_their_order(
    policy: Partitioning,
    k: int,
    next: int,
    input: Seq<u64>,
    o: int,
    n: nat,
) -> (places: Seq<int>)
    requires
        n <= input.len(),
    ensures
        is_from(input, exchange::routed(policy, k, next, input, o, n), places),
        forall|p: int| 0 <= p < places.len() ==> #[trigger] places[p] < n,
        forall|i: int|
            0 <= i < n && exchange::output_of(policy, k, next, input, i) == o
                ==> #[trigger] places.contains(i),
    decreases n,
{
    if n == 0 {
        Seq::empty()
    } else {
        let before = lemma_rows_keep_their_order(policy, k, next, input, o, (n - 1) as nat);
        if exchange::output_of(policy, k, next, input, n - 1) == o {
            let now = before.push(n - 1);
            assert forall|i: int|
                0 <= i < n && exchange::output_of(policy, k, next, input, i) == o
                implies #[trigger] now.contains(i) by {
                if i < n - 1 {
                    assert(before.contains(i));
                    let p = choose|p: int| 0 <= p < before.len() && before[p] == i;
                    assert(now[p] == i);
                } else {
                    assert(now[before.len() as int] == i);
                }
            }
            now
        } else {
            before
        }
    }
}

} // verus!
