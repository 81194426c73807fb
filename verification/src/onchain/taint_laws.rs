//! What the three policies promise of every ledger: no policy taints what the
//! money never reached, FIFO conserves the stolen amount exactly and haircut
//! up to rounding, and whatever FIFO taints poison taints too.

use crate::graph;
use crate::math;
use crate::onchain::chain;
use crate::onchain::chain::Chain;
use crate::onchain::taint;
use crate::onchain::taint::TaintPart;
use vstd::prelude::*;

verus! {

/// The amounts that FIFO ends up with.
pub open spec fn fifo_amount(queues: Seq<Seq<TaintPart>>) -> spec_fn(int) -> int {
    |o: int| taint::dirt(queues[o])
}

proof fn lemma_dirt_concat(a: Seq<TaintPart>, b: Seq<TaintPart>)
    ensures
        taint::dirt(a + b) == taint::dirt(a) + taint::dirt(b),
        taint::run_value(a + b) == taint::run_value(a) + taint::run_value(b),
    decreases a.len(),
{
    if a.len() == 0 {
        assert(a + b =~= b);
    } else {
        lemma_dirt_concat(a.skip(1), b);
        assert((a + b).skip(1) =~= a.skip(1) + b);
    }
}

/// A content's dirt is its queue's, its value its output's.
proof fn lemma_content(c: &Chain, qs: Seq<Seq<TaintPart>>, o: int)
    requires
        taint::full(c, qs),
        0 <= o < c.len(),
    ensures
        taint::dirt(taint::content(c, qs, o)) == taint::dirt(qs[o]),
        taint::run_value(taint::content(c, qs, o)) == c.outputs@[o].value,
{
    if qs[o].len() == 0 {
        let p = TaintPart { name: taint::CLEAN, value: c.outputs@[o].value };
        taint::lemma_one_run(p, Seq::empty());
        assert(seq![p] + Seq::<TaintPart>::empty() =~= seq![p]);
    }
}

/// What is gathered is what the inputs hold.
proof fn lemma_gather(c: &Chain, qs: Seq<Seq<TaintPart>>, ins: Seq<usize>, k: int)
    requires
        taint::full(c, qs),
        0 <= k <= ins.len(),
        forall|i: int| 0 <= i < ins.len() ==> #[trigger] ins[i] < c.len(),
    ensures
        taint::dirt(taint::gather(c, qs, ins, k)) == math::sum_over(ins.take(k), fifo_amount(qs)),
        taint::run_value(taint::gather(c, qs, ins, k)) == math::sum_over(ins.take(k), c.value()),
    decreases k,
{
    if k > 0 {
        let x = ins[k - 1];
        lemma_gather(c, qs, ins, k - 1);
        assert(x < c.len());
        lemma_content(c, qs, x as int);
        lemma_dirt_concat(
            taint::gather(c, qs, ins, k - 1),
            taint::content(c, qs, x as int),
        );
        assert(ins.take(k).drop_last() =~= ins.take(k - 1));
        assert(ins.take(k).last() == x);
    }
}

/// Dealing moves dirt from the pool to the outputs.
proof fn lemma_deal(
    c: &Chain,
    qs: Seq<Seq<TaintPart>>,
    pool: Seq<TaintPart>,
    outs: Seq<usize>,
    k: int,
)
    requires
        taint::full(c, qs),
        0 <= k <= outs.len(),
        outs.no_duplicates(),
        forall|i: int| 0 <= i < outs.len() ==> #[trigger] outs[i] < c.len(),
    ensures
        math::sum_over(outs.take(k), fifo_amount(taint::deal(c, qs, pool, outs, k).0))
            + taint::dirt(taint::deal(c, qs, pool, outs, k).1) == taint::dirt(pool),
        math::sum_over(outs.take(k), c.value()) <= taint::run_value(pool) ==> taint::run_value(
            taint::deal(c, qs, pool, outs, k).1,
        ) == taint::run_value(pool) - math::sum_over(outs.take(k), c.value()),
        taint::deal(c, qs, pool, outs, k).0.len() == c.len(),
    decreases k,
{
    if k > 0 {
        let x = outs[k - 1];
        assert(x < c.len());
        lemma_deal(c, qs, pool, outs, k - 1);
        let (before, rest) = taint::deal(c, qs, pool, outs, k - 1);
        let (now, left) = taint::deal(c, qs, pool, outs, k);
        let v = c.outputs@[x as int].value;
        taint::lemma_cut_lossless(rest, v);
        let head = outs.take(k - 1);
        assert(outs.take(k).drop_last() =~= head);
        assert(outs.take(k).last() == x);
        assert forall|i: int| 0 <= i < head.len() implies fifo_amount(now)(#[trigger] head[i] as int)
            == fifo_amount(before)(head[i] as int) by {
            assert(outs[i] != outs[k - 1]);
        }
        math::lemma_sum_over_same(head, fifo_amount(now), fifo_amount(before));
        assert(now[x as int] == taint::cut(rest, v).0);
        lemma_sum_nonnegative(head, c.value());
    }
}

proof fn lemma_sum_nonnegative(s: Seq<usize>, f: spec_fn(int) -> int)
    requires
        forall|i: int| 0 <= #[trigger] f(i),
    ensures
        0 <= math::sum_over(s, f),
    decreases s.len(),
{
    if s.len() > 0 {
        lemma_sum_nonnegative(s.drop_last(), f);
    }
}

/// Before its origin is created nothing but the origin has recorded runs.
pub proof fn lemma_fifo_before(c: &Chain, origin: usize, k: int)
    requires
        c.linked(),
        origin < c.len(),
        0 <= k <= c.outputs@[origin as int].creating_tx + 1,
        k <= c.txs@.len(),
    ensures
        taint::fifo_until(c, origin, k) == taint::origin_queues(c, origin),
    decreases k,
{
    if k > 0 {
        let t = k - 1;
        lemma_fifo_before(c, origin, t);
        let qs = taint::fifo_until(c, origin, t);
        assert(!taint::some_runs(c, qs, t)) by {
            assert forall|i: int| 0 <= i < c.txs@[t].inputs@.len()
                implies qs[#[trigger] c.txs@[t].inputs@[i] as int].len()
                == 0 by {
                assert(c.txs@[t].inputs@[i] < c.len());
                assert(c.outputs@[c.txs@[t].inputs@[i] as int].creating_tx < t);
            }
        }
    }
}

/// After any number of transactions the live outputs hold the stolen amount
/// exactly, once it exists.
proof fn lemma_fifo_live(c: &Chain, origin: usize, k: int)
    requires
        c.linked(),
        c.conserving(),
        c.len() <= usize::MAX,
        c.txs@.len() <= usize::MAX,
        origin < c.len(),
        c.outputs@[origin as int].creating_tx < k <= c.txs@.len(),
    ensures
        c.live_sum(k, fifo_amount(taint::fifo_until(c, origin, k)))
            == c.outputs@[origin as int].value,
    decreases k,
{
    let n = c.len();
    let made = c.outputs@[origin as int].creating_tx;
    let now = taint::fifo_until(c, origin, k);
    if k == made + 1 {
        lemma_fifo_before(c, origin, k);
        let f = |o: int|
            if c.live(k, o) {
                fifo_amount(now)(o)
            } else {
                0
            };
        let v = c.outputs@[origin as int].value as int;
        let p = TaintPart { name: taint::STOLEN, value: c.outputs@[origin as int].value };
        taint::lemma_one_run(p, Seq::empty());
        assert(seq![p] + Seq::<TaintPart>::empty() =~= seq![p]);
        assert(c.live(k, origin as int)) by {
            match c.spent_by@[origin as int] {
                Some(t) => {
                    let js = c.txs@[t as int].inputs@;
                    assert(js.contains(origin));
                    let j = choose|j: int| 0 <= j < js.len() && js[j] == origin;
                    assert(c.outputs@[c.txs@[t as int].inputs@[j] as int].creating_tx < t);
                },
                None => {},
            }
        }
        assert forall|o: int| 0 <= o < n implies #[trigger] f(o) == (if o == origin {
            v
        } else {
            0
        }) by {
            assert(now[o] == taint::origin_queues(c, origin)[o]);
        }
        math::lemma_sum_single(n, f, origin as int, v);
    } else {
        let t = k - 1;
        let qs = taint::fifo_until(c, origin, t);
        lemma_fifo_live(c, origin, t);
        taint::lemma_fifo_full(c, origin, t);
        let ins = c.txs@[t].inputs@;
        let outs = c.txs@[t].outputs@;
        let f = fifo_amount(qs);
        let g = fifo_amount(now);
        assert forall|i: int| 0 <= i < ins.len() implies #[trigger] ins[i] < n by {
            assert(c.txs@[t].inputs@[i] < n);
        }
        assert forall|i: int| 0 <= i < outs.len() implies #[trigger] outs[i] < n by {
            assert(c.txs@[t].outputs@[i] < n);
        }
        assert(c.txs@[t].outputs@.no_duplicates());
        assert(ins.take(ins.len() as int) =~= ins);
        assert(outs.take(outs.len() as int) =~= outs);
        if taint::some_runs(c, qs, t) {
            let pool = taint::gather(c, qs, ins, ins.len() as int);
            lemma_gather(c, qs, ins, ins.len() as int);
            lemma_deal(c, qs, pool, outs, outs.len() as int);
            taint::lemma_deal_full(c, qs, pool, outs, outs.len() as int);
            assert(c.value_in(t) == c.value_out(t));
            let rest = taint::deal(c, qs, pool, outs, outs.len() as int).1;
            taint::lemma_dirt_bounds(rest);
            assert forall|o: int| 0 <= o < n && !outs.contains(o as usize)
                implies #[trigger] g(o) == f(o) by {
                assert(now[o] == qs[o]);
            }
            chain::lemma_live_step(c, t, f, g);
        } else {
            chain::lemma_live_step(c, t, f, g);
            lemma_zero_sum(ins, f);
            assert forall|i: int| 0 <= i < ins.len() implies f(#[trigger] ins[i] as int) == 0 by {
                assert(qs[c.txs@[t].inputs@[i] as int].len() == 0);
            }
            lemma_zero_sum(ins, f);
            assert forall|i: int| 0 <= i < outs.len() implies g(#[trigger] outs[i] as int) == 0 by {
                lemma_fifo_untouched(c, origin, t, outs[i] as int);
            }
            lemma_zero_sum(outs, g);
        }
    }
}

proof fn lemma_zero_sum(s: Seq<usize>, f: spec_fn(int) -> int)
    ensures
        (forall|i: int| 0 <= i < s.len() ==> f(#[trigger] s[i] as int) == 0) ==> math::sum_over(
            s,
            f,
        ) == 0,
    decreases s.len(),
{
    if s.len() > 0 && (forall|i: int| 0 <= i < s.len() ==> f(#[trigger] s[i] as int) == 0) {
        assert(f(s[s.len() - 1] as int) == 0);
        assert forall|i: int| 0 <= i < s.drop_last().len() implies f(
            #[trigger] s.drop_last()[i] as int,
        ) == 0 by {
            assert(s.drop_last()[i] == s[i]);
        }
        lemma_zero_sum(s.drop_last(), f);
    }
}

/// An output that is not created yet has no runs, but for the origin.
pub proof fn lemma_fifo_untouched(c: &Chain, origin: usize, k: int, o: int)
    requires
        c.linked(),
        origin < c.len(),
        0 <= o < c.len(),
        c.len() <= usize::MAX,
        0 <= k <= c.outputs@[o].creating_tx,
        o != origin,
    ensures
        taint::fifo_until(c, origin, k)[o].len() == 0,
        taint::dirt(taint::fifo_until(c, origin, k)[o]) == 0,
    decreases k,
{
    if k > 0 {
        let t = k - 1;
        assert(c.outputs@[o].creating_tx < c.txs@.len());
        lemma_fifo_untouched(c, origin, t, o);
        let qs = taint::fifo_until(c, origin, t);
        let ins = c.txs@[t].inputs@;
        let outs = c.txs@[t].outputs@;
        if taint::some_runs(c, qs, t) {
            taint::lemma_fifo_full(c, origin, t);
            assert forall|i: int| 0 <= i < outs.len() implies #[trigger] outs[i] < c.len() by {
                assert(c.txs@[t].outputs@[i] < c.len());
            }
            assert(outs.take(outs.len() as int) =~= outs);
            assert(!outs.contains(o as usize)) by {
                if outs.contains(o as usize) {
                    let i = choose|i: int| 0 <= i < outs.len() && outs[i] == o as usize;
                    assert(c.outputs@[c.txs@[t].outputs@[i] as int].creating_tx == t);
                }
            }
            taint::lemma_deal_full(
                c,
                qs,
                taint::gather(c, qs, ins, ins.len() as int),
                outs,
                outs.len() as int,
            );
        }
    }
}

/// FIFO is lossless: the unspent outputs hold exactly the stolen amount. No
/// unit of it is lost and none is counted twice.
pub proof fn lemma_fifo_is_lossless(c: &Chain, origin: usize)
    requires
        c.linked(),
        c.conserving(),
        c.len() <= usize::MAX,
        c.txs@.len() <= usize::MAX,
        origin < c.len(),
    ensures
        c.unspent_sum(fifo_amount(taint::fifo_until(c, origin, c.txs@.len() as int)))
            == c.outputs@[origin as int].value,
{
    let k = c.txs@.len() as int;
    assert(c.outputs@[origin as int].creating_tx < k);
    lemma_fifo_live(c, origin, k);
    chain::lemma_live_end(c, fifo_amount(taint::fifo_until(c, origin, k)));
}

/// A transaction carries descent from its inputs to its outputs.
proof fn lemma_descend(c: &Chain, origin: usize, t: int, i: int, o: usize)
    requires
        c.linked(),
        c.txs@.len() <= usize::MAX,
        0 <= t < c.txs@.len(),
        0 <= i < c.txs@[t].inputs@.len(),
        graph::reach(c.flow(), origin, c.txs@[t].inputs@[i]),
        c.txs@[t].outputs@.contains(o),
    ensures
        graph::reach(c.flow(), origin, o),
{
    let a = c.txs@[t].inputs@[i];
    assert(c.txs@[t].inputs@[i] < c.len());
    assert(c.spent_by@[c.txs@[t].inputs@[i] as int] == Some(t as usize));
    assert(c.flow()(a, o));
    let p = choose|p: Seq<usize>| #[trigger] graph::walks(c.flow(), p, origin, a);
    graph::lemma_walk_push(c.flow(), p, origin, a, o);
}

/// Poison never leaves the descendants of the origin.
pub proof fn lemma_poison_within_descendants(c: &Chain, origin: usize, k: int, o: int)
    requires
        c.linked(),
        c.txs@.len() <= usize::MAX,
        c.len() <= usize::MAX,
        origin < c.len(),
        k <= c.txs@.len(),
        0 <= o < c.len(),
        taint::poison_until(c, origin, k)[o] > 0,
    ensures
        graph::reach(c.flow(), origin, o as usize),
    decreases k,
{
    if k <= 0 {
        graph::lemma_reach_self(c.flow(), origin);
    } else {
        let t = k - 1;
        let before = taint::poison_until(c, origin, t);
        lemma_poison_len(c, origin, t);
        if taint::some_dirty(c, before, t) && c.txs@[t].outputs@.contains(o as usize) {
            let i = choose|i: int|
                0 <= i < c.txs@[t].inputs@.len() && before[#[trigger] c.txs@[t].inputs@[i] as int] > 0;
            let a = c.txs@[t].inputs@[i];
            assert(a < c.len());
            lemma_poison_within_descendants(c, origin, t, a as int);
            lemma_descend(c, origin, t, i, o as usize);
        } else {
            lemma_poison_within_descendants(c, origin, t, o);
        }
    }
}

proof fn lemma_poison_len(c: &Chain, origin: usize, k: int)
    ensures
        taint::poison_until(c, origin, k).len() == c.len(),
    decreases k,
{
    if k > 0 {
        lemma_poison_len(c, origin, k - 1);
    }
}

/// Haircut never leaves the descendants of the origin.
pub proof fn lemma_haircut_within_descendants(c: &Chain, origin: usize, k: int, o: int)
    requires
        c.linked(),
        c.txs@.len() <= usize::MAX,
        c.len() <= usize::MAX,
        origin < c.len(),
        k <= c.txs@.len(),
        0 <= o < c.len(),
        taint::haircut_until(c, origin, k)[o] > 0,
    ensures
        graph::reach(c.flow(), origin, o as usize),
    decreases k,
{
    if k <= 0 {
        graph::lemma_reach_self(c.flow(), origin);
    } else {
        let t = k - 1;
        let before = taint::haircut_until(c, origin, t);
        taint::lemma_haircut_len(c, origin, t);
        let ins = c.txs@[t].inputs@;
        if !(taint::dirty_in(c, before, t) == 0 || c.value_in(t) == 0) && c.txs@[t].outputs@.contains(
            o as usize,
        ) {
            lemma_zero_sum(ins, taint::amount(before));
            let i = choose|i: int|
                0 <= i < ins.len() && taint::amount(before)(#[trigger] ins[i] as int) != 0;
            let a = c.txs@[t].inputs@[i];
            assert(a < c.len());
            lemma_haircut_within_descendants(c, origin, t, a as int);
            lemma_descend(c, origin, t, i, o as usize);
        } else {
            lemma_haircut_within_descendants(c, origin, t, o);
        }
    }
}

/// FIFO never leaves the descendants of the origin.
pub proof fn lemma_fifo_within_descendants(c: &Chain, origin: usize, k: int, o: int)
    requires
        c.linked(),
        c.txs@.len() <= usize::MAX,
        c.len() <= usize::MAX,
        origin < c.len(),
        k <= c.txs@.len(),
        0 <= o < c.len(),
        taint::fifo_until(c, origin, k)[o].len() > 0,
    ensures
        graph::reach(c.flow(), origin, o as usize),
    decreases k,
{
    if k <= 0 {
        graph::lemma_reach_self(c.flow(), origin);
    } else {
        let t = k - 1;
        let qs = taint::fifo_until(c, origin, t);
        let ins = c.txs@[t].inputs@;
        let outs = c.txs@[t].outputs@;
        if taint::some_runs(c, qs, t) && outs.contains(o as usize) {
            let i = choose|i: int|
                0 <= i < c.txs@[t].inputs@.len() && qs[#[trigger] c.txs@[t].inputs@[i] as int].len() > 0;
            let a = c.txs@[t].inputs@[i];
            assert(a < c.len());
            lemma_fifo_within_descendants(c, origin, t, a as int);
            lemma_descend(c, origin, t, i, o as usize);
        } else {
            if taint::some_runs(c, qs, t) {
                taint::lemma_fifo_full(c, origin, t);
                assert forall|i: int| 0 <= i < outs.len() implies #[trigger] outs[i] < c.len() by {
                    assert(c.txs@[t].outputs@[i] < c.len());
                }
                assert(outs.take(outs.len() as int) =~= outs);
                taint::lemma_deal_full(
                    c,
                    qs,
                    taint::gather(c, qs, ins, ins.len() as int),
                    outs,
                    outs.len() as int,
                );
            }
            lemma_fifo_within_descendants(c, origin, t, o);
        }
    }
}

/// Whatever FIFO taints, poison taints too.
pub proof fn lemma_fifo_within_poison(c: &Chain, origin: usize, k: int)
    requires
        c.linked(),
        c.len() <= usize::MAX,
        origin < c.len(),
        k <= c.txs@.len(),
    ensures
        forall|o: int|
            0 <= o < c.len() && taint::dirt(#[trigger] taint::fifo_until(c, origin, k)[o]) > 0
                ==> taint::poison_until(c, origin, k)[o] > 0,
    decreases k,
{
    let now = taint::fifo_until(c, origin, k);
    let poison = taint::poison_until(c, origin, k);
    taint::lemma_fifo_full(c, origin, k);
    if k <= 0 {
        assert forall|o: int| 0 <= o < c.len() && taint::dirt(#[trigger] now[o]) > 0
            implies poison[o] > 0 by {
            taint::lemma_dirt_bounds(now[o]);
        }
    } else {
        let t = k - 1;
        let qs = taint::fifo_until(c, origin, t);
        let before = taint::poison_until(c, origin, t);
        lemma_fifo_within_poison(c, origin, t);
        lemma_poison_len(c, origin, t);
        taint::lemma_fifo_full(c, origin, t);
        let ins = c.txs@[t].inputs@;
        let outs = c.txs@[t].outputs@;
        assert forall|i: int| 0 <= i < outs.len() implies #[trigger] outs[i] < c.len() by {
            assert(c.txs@[t].outputs@[i] < c.len());
        }
        assert forall|i: int| 0 <= i < ins.len() implies #[trigger] ins[i] < c.len() by {
            assert(c.txs@[t].inputs@[i] < c.len());
        }
        assert(outs.take(outs.len() as int) =~= outs);
        assert(ins.take(ins.len() as int) =~= ins);
        assert forall|o: int| 0 <= o < c.len() && taint::dirt(#[trigger] now[o]) > 0
            implies poison[o] > 0 by {
            taint::lemma_dirt_bounds(now[o]);
            assert(c.outputs@[o].value > 0);
            if taint::some_runs(c, qs, t) {
                let pool = taint::gather(c, qs, ins, ins.len() as int);
                taint::lemma_deal_full(c, qs, pool, outs, outs.len() as int);
                if outs.contains(o as usize) {
                    assert(c.txs@[t].outputs@.no_duplicates());
                    lemma_gather(c, qs, ins, ins.len() as int);
                    lemma_dealt_dirt(c, qs, pool, outs, outs.len() as int, o);
                    lemma_zero_sum(ins, fifo_amount(qs));
                    let i = choose|i: int|
                        0 <= i < ins.len() && fifo_amount(qs)(#[trigger] ins[i] as int) != 0;
                    taint::lemma_dirt_bounds(qs[ins[i] as int]);
                    assert(taint::dirt(taint::fifo_until(c, origin, t)[ins[i] as int]) > 0);
                    assert(before[c.txs@[t].inputs@[i] as int] > 0);
                    assert(taint::some_dirty(c, before, t));
                } else {
                    assert(now[o] == qs[o]);
                }
            } else {
                assert(taint::dirt(taint::fifo_until(c, origin, t)[o]) > 0);
            }
        }
    }
}

/// A dealt output has dirt only if the pool had some.
proof fn lemma_dealt_dirt(
    c: &Chain,
    qs: Seq<Seq<TaintPart>>,
    pool: Seq<TaintPart>,
    outs: Seq<usize>,
    k: int,
    o: int,
)
    requires
        taint::full(c, qs),
        0 <= k <= outs.len(),
        forall|i: int| 0 <= i < outs.len() ==> #[trigger] outs[i] < c.len(),
        0 <= o < c.len(),
        c.len() <= usize::MAX,
        outs.take(k).contains(o as usize),
        taint::dirt(taint::deal(c, qs, pool, outs, k).0[o]) > 0,
    ensures
        taint::dirt(pool) > 0,
    decreases k,
{
    let x = outs[k - 1];
    assert(x < c.len());
    let (before, rest) = taint::deal(c, qs, pool, outs, k - 1);
    taint::lemma_deal_full(c, qs, pool, outs, k - 1);
    lemma_deal_rest(c, qs, pool, outs, k - 1);
    assert(outs.take(k) =~= outs.take(k - 1).push(x));
    graph::lemma_push_contains(outs.take(k - 1), x, o as usize);
    if x == o {
        taint::lemma_cut_lossless(rest, c.outputs@[o].value);
        taint::lemma_dirt_bounds(taint::cut(rest, c.outputs@[o].value).1);
    } else {
        lemma_dealt_dirt(c, qs, pool, outs, k - 1, o);
    }
}

proof fn lemma_deal_rest(
    c: &Chain,
    qs: Seq<Seq<TaintPart>>,
    pool: Seq<TaintPart>,
    outs: Seq<usize>,
    k: int,
)
    requires
        0 <= k <= outs.len(),
    ensures
        taint::dirt(taint::deal(c, qs, pool, outs, k).1) <= taint::dirt(pool),
    decreases k,
{
    if k > 0 {
        lemma_deal_rest(c, qs, pool, outs, k - 1);
        let rest = taint::deal(c, qs, pool, outs, k - 1).1;
        let v = c.outputs@[outs[k - 1] as int].value;
        taint::lemma_cut_lossless(rest, v);
        taint::lemma_dirt_bounds(taint::cut(rest, v).0);
    }
}

/// Once an output exists, later transactions leave its poison alone.
proof fn lemma_poison_settles(c: &Chain, origin: usize, o: int, j: int, k: int)
    requires
        c.linked(),
        0 <= o < c.len(),
        c.len() <= usize::MAX,
        c.outputs@[o].creating_tx < j <= k <= c.txs@.len(),
    ensures
        taint::poison_until(c, origin, j)[o] == taint::poison_until(c, origin, k)[o],
    decreases k,
{
    if j < k {
        let t = k - 1;
        lemma_poison_settles(c, origin, o, j, t);
        lemma_poison_len(c, origin, t);
        let outs = c.txs@[t].outputs@;
        assert(!outs.contains(o as usize)) by {
            if outs.contains(o as usize) {
                let i = choose|i: int| 0 <= i < outs.len() && outs[i] == o as usize;
                assert(c.outputs@[c.txs@[t].outputs@[i] as int].creating_tx == t);
            }
        }
    }
}

/// Poison taints every descendant: where every output has a value, poison
/// marks exactly the outputs that the money can have reached.
pub proof fn lemma_poison_marks_descendants(c: &Chain, origin: usize, o: usize)
    requires
        c.linked(),
        c.txs@.len() <= usize::MAX,
        c.len() <= usize::MAX,
        origin < c.len(),
        o < c.len(),
        forall|x: int| 0 <= x < c.len() ==> (#[trigger] c.outputs@[x]).value > 0,
    ensures
        taint::poison_until(c, origin, c.txs@.len() as int)[o as int] > 0 <==> graph::reach(
            c.flow(),
            origin,
            o,
        ),
{
    let n = c.txs@.len() as int;
    if taint::poison_until(c, origin, n)[o as int] > 0 {
        lemma_poison_within_descendants(c, origin, n, o as int);
    }
    if graph::reach(c.flow(), origin, o) {
        let p = choose|p: Seq<usize>| #[trigger] graph::walks(c.flow(), p, origin, o);
        let inside = |x: usize| x < c.len() && taint::poison_until(c, origin, n)[x as int] > 0;
        assert(inside(origin)) by {
            lemma_poison_origin(c, origin, n);
        }
        assert forall|x: usize, y: usize| inside(x) && #[trigger] c.flow()(x, y) implies inside(y) by {
            let t = c.spent_by@[x as int]->0 as int;
            assert(c.spent_by@[x as int] matches Some(t) ==> t < c.txs@.len());
            let js = c.txs@[t].inputs@;
            assert(js.contains(x));
            let j = choose|j: int| 0 <= j < js.len() && js[j] == x;
            assert(c.outputs@[c.txs@[t].inputs@[j] as int].creating_tx < t);
            lemma_poison_settles(c, origin, x as int, t, n);
            let before = taint::poison_until(c, origin, t);
            assert(before[c.txs@[t].inputs@[j] as int] > 0);
            assert(taint::some_dirty(c, before, t));
            lemma_poison_len(c, origin, t);
            let outs = c.txs@[t].outputs@;
            let i = choose|i: int| 0 <= i < outs.len() && outs[i] == y;
            assert(c.txs@[t].outputs@[i] < c.len());
            assert(c.outputs@[c.txs@[t].outputs@[i] as int].creating_tx == t);
            assert(taint::poison_until(c, origin, t + 1)[y as int] == c.outputs@[y as int].value);
            lemma_poison_settles(c, origin, y as int, t + 1, n);
        }
        graph::lemma_closed_under_walks(c.flow(), inside, p, origin, o);
    }
}

proof fn lemma_poison_origin(c: &Chain, origin: usize, k: int)
    requires
        c.linked(),
        origin < c.len(),
        k <= c.txs@.len(),
        c.outputs@[origin as int].value > 0,
    ensures
        taint::poison_until(c, origin, k)[origin as int] > 0,
    decreases k,
{
    if k > 0 {
        lemma_poison_origin(c, origin, k - 1);
        lemma_poison_len(c, origin, k - 1);
    }
}

/// How many outputs the first `k` transactions created.
spec fn created(c: &Chain, k: int) -> nat {
    math::count(c.len(), |o: int| c.outputs@[o].creating_tx < k)
}

proof fn lemma_created_step(c: &Chain, k: int)
    requires
        c.linked(),
        c.len() <= usize::MAX,
        0 <= k < c.txs@.len(),
    ensures
        created(c, k + 1) == created(c, k) + c.txs@[k].outputs@.len(),
{
    let n = c.len();
    let outs = c.txs@[k].outputs@;
    let after = |o: int| c.outputs@[o].creating_tx < k + 1;
    let before = |o: int| c.outputs@[o].creating_tx < k;
    let here = |o: int| outs.contains(o as usize);
    assert forall|o: int| 0 <= o < n
        implies #[trigger] after(o) == (before(o) || here(o)) && !(before(o)
        && here(o)) by {
        assert(c.txs@[c.outputs@[o].creating_tx as int].outputs@.contains(o as usize));
        if here(o) {
            let i = choose|i: int| 0 <= i < outs.len() && outs[i] == o as usize;
            assert(c.outputs@[c.txs@[k].outputs@[i] as int].creating_tx == k);
        }
    }
    assert forall|i: int| 0 <= i < outs.len() implies #[trigger] outs[i] < n by {
        assert(c.txs@[k].outputs@[i] < n);
    }
    assert(c.txs@[k].outputs@.no_duplicates());
    math::lemma_count_split(n, after, before, here);
    math::lemma_count_members(outs, n);
}

/// Rounding every output's share moves a transaction's taint by at most half a
/// unit per output, and by six parts of its value in 2^53.
proof fn lemma_share_sum(c: &Chain, outs: Seq<usize>, dirty: int, total: int)
    requires
        taint::values_exact(c),
        0 < dirty <= total <= taint::EXACT,
        forall|i: int| 0 <= i < outs.len() ==> #[trigger] outs[i] < c.len(),
    ensures
        ({
            let s = math::sum_over(
                outs,
                |o: int| taint::share(c.outputs@[o].value as int, dirty, total),
            );
            let v = math::sum_over(outs, c.value());
            let off = 2 * total * s - 2 * (v * dirty);
            let most = total * (taint::EXACT * outs.len() + 6 * v);
            -most <= taint::EXACT * off <= most
        }),
    decreases outs.len(),
{
    let f = |o: int| taint::share(c.outputs@[o].value as int, dirty, total);
    let k = taint::EXACT as int;
    if outs.len() > 0 {
        let rest = outs.drop_last();
        let x = outs.last() as int;
        assert(outs[outs.len() - 1] < c.len());
        assert forall|i: int| 0 <= i < rest.len() implies #[trigger] rest[i] < c.len() by {
            assert(rest[i] == outs[i]);
        }
        lemma_share_sum(c, rest, dirty, total);
        let v = c.outputs@[x].value as int;
        assert(c.outputs@[x].value <= taint::EXACT);
        taint::lemma_share_error(v, dirty, total);
        let s0 = math::sum_over(rest, f);
        let v0 = math::sum_over(rest, c.value());
        assert(2 * total * (s0 + f(x)) == 2 * total * s0 + 2 * total * f(x)) by (nonlinear_arith);
        assert((v0 + v) * dirty == v0 * dirty + v * dirty) by (nonlinear_arith);
        let m = rest.len() as int;
        assert(total * (k * (m + 1) + 6 * (v0 + v)) == total * (k * m + 6 * v0) + total * (k + 6
            * v)) by (nonlinear_arith);
    } else {
        assert(2 * total * 0 == 0) by (nonlinear_arith);
        assert(0 * dirty == 0) by (nonlinear_arith);
        assert(total * (k * 0 + 6 * 0) == 0) by (nonlinear_arith);
    }
}

/// Doubles hold the value that goes into any one transaction exactly.
pub open spec fn inputs_exact(c: &Chain) -> bool {
    forall|t: int| 0 <= t < c.txs@.len() ==> #[trigger] c.value_in(t) <= taint::EXACT
}

/// What double precision adds to the rounding of the first `k` transactions:
/// nothing for one that takes in less than 2^50, and at most six.
pub open spec fn drift(c: &Chain, k: int) -> int
    decreases k,
{
    if k <= 0 {
        0
    } else {
        drift(c, k - 1) + 6 * c.value_in(k - 1) / (taint::EXACT as int)
    }
}

/// Amounts below 2^50 do not drift.
pub proof fn lemma_no_drift(c: &Chain, k: int)
    requires
        k <= c.txs@.len(),
        forall|t: int| 0 <= t < k ==> 0 <= #[trigger] c.value_in(t) < 0x4_0000_0000_0000,
    ensures
        drift(c, k) == 0,
    decreases k,
{
    if k > 0 {
        lemma_no_drift(c, k - 1);
        assert(0 <= c.value_in(k - 1) < 0x4_0000_0000_0000);
    }
}

/// Before its origin is created haircut taints nothing else.
proof fn lemma_haircut_before(c: &Chain, origin: usize, k: int)
    requires
        c.linked(),
        origin < c.len(),
        0 <= k <= c.outputs@[origin as int].creating_tx + 1,
        k <= c.txs@.len(),
    ensures
        taint::haircut_until(c, origin, k) == taint::at_origin(c, origin),
    decreases k,
{
    if k > 0 {
        let t = k - 1;
        lemma_haircut_before(c, origin, t);
        let before = taint::haircut_until(c, origin, t);
        let ins = c.txs@[t].inputs@;
        assert forall|i: int| 0 <= i < ins.len()
            implies taint::amount(before)(#[trigger] ins[i] as int) == 0 by {
            assert(c.txs@[t].inputs@[i] < c.len());
            assert(c.outputs@[c.txs@[t].inputs@[i] as int].creating_tx < t);
        }
        lemma_zero_sum(ins, taint::amount(before));
    }
}

/// An output that is not created yet has no haircut taint, but for the origin.
proof fn lemma_haircut_untouched(c: &Chain, origin: usize, k: int, o: int)
    requires
        c.linked(),
        origin < c.len(),
        0 <= o < c.len(),
        c.len() <= usize::MAX,
        0 <= k <= c.outputs@[o].creating_tx,
        o != origin,
    ensures
        taint::haircut_until(c, origin, k)[o] == 0,
    decreases k,
{
    if k > 0 {
        let t = k - 1;
        assert(c.outputs@[o].creating_tx < c.txs@.len());
        lemma_haircut_untouched(c, origin, t, o);
        taint::lemma_haircut_len(c, origin, t);
        let outs = c.txs@[t].outputs@;
        assert(!outs.contains(o as usize)) by {
            if outs.contains(o as usize) {
                let i = choose|i: int| 0 <= i < outs.len() && outs[i] == o as usize;
                assert(c.outputs@[c.txs@[t].outputs@[i] as int].creating_tx == t);
            }
        }
    }
}

#[verifier::rlimit(40)]
proof fn lemma_haircut_live(c: &Chain, origin: usize, k: int)
    requires
        taint::values_exact(c),
        inputs_exact(c),
        c.linked(),
        c.conserving(),
        c.len() <= usize::MAX,
        c.txs@.len() <= usize::MAX,
        origin < c.len(),
        c.outputs@[origin as int].creating_tx < k <= c.txs@.len(),
    ensures
        ({
            let s = c.live_sum(k, taint::amount(taint::haircut_until(c, origin, k)));
            let v = c.outputs@[origin as int].value;
            let most = created(c, k) + drift(c, k);
            -most <= 2 * (s - v) <= most
        }),
    decreases k,
{
    let n = c.len();
    let made = c.outputs@[origin as int].creating_tx;
    let now = taint::haircut_until(c, origin, k);
    lemma_drift(c, k);
    if k == made + 1 {
        lemma_haircut_before(c, origin, k);
        let f = |o: int|
            if c.live(k, o) {
                taint::amount(now)(o)
            } else {
                0
            };
        let v = c.outputs@[origin as int].value as int;
        assert(c.live(k, origin as int)) by {
            match c.spent_by@[origin as int] {
                Some(t) => {
                    let js = c.txs@[t as int].inputs@;
                    assert(js.contains(origin));
                    let j = choose|j: int| 0 <= j < js.len() && js[j] == origin;
                    assert(c.outputs@[c.txs@[t as int].inputs@[j] as int].creating_tx < t);
                },
                None => {},
            }
        }
        assert forall|o: int| 0 <= o < n implies #[trigger] f(o) == (if o == origin {
            v
        } else {
            0
        }) by {}
        math::lemma_sum_single(n, f, origin as int, v);
    } else {
        let t = k - 1;
        let before = taint::haircut_until(c, origin, t);
        lemma_haircut_live(c, origin, t);
        lemma_created_step(c, t);
        taint::lemma_haircut_bounded(c, origin, t);
        taint::lemma_dirty_bounded(c, before, t);
        let ins = c.txs@[t].inputs@;
        let outs = c.txs@[t].outputs@;
        let f = taint::amount(before);
        let g = taint::amount(now);
        assert forall|i: int| 0 <= i < outs.len() implies #[trigger] outs[i] < n by {
            assert(c.txs@[t].outputs@[i] < n);
        }
        let dirty = taint::dirty_in(c, before, t);
        let total = c.value_in(t);
        assert forall|o: int| 0 <= o < n && !outs.contains(o as usize)
            implies #[trigger] g(o) == f(o) by {}
        chain::lemma_live_step(c, t, f, g);
        if dirty == 0 || total == 0 {
            assert forall|i: int| 0 <= i < outs.len() implies g(#[trigger] outs[i] as int) == 0 by {
                assert(c.outputs@[c.txs@[t].outputs@[i] as int].creating_tx == t);
                lemma_haircut_untouched(c, origin, t, outs[i] as int);
            }
            lemma_zero_sum(outs, g);
        } else {
            let h = |o: int| taint::share(c.outputs@[o].value as int, dirty, total);
            assert forall|i: int| 0 <= i < outs.len() implies g(#[trigger] outs[i] as int) == h(
                outs[i] as int,
            ) by {
                assert(outs.contains(outs[i]));
                assert(c.outputs@[outs[i] as int].value <= taint::EXACT);
                taint::lemma_share_bounded(
                    c.outputs@[outs[i] as int].value as int,
                    dirty,
                    total,
                );
            }
            math::lemma_sum_over_same(outs, g, h);
            lemma_share_sum(c, outs, dirty, total);
            let s = math::sum_over(outs, h);
            let m = outs.len() as int;
            assert(ins.len() > 0);
            assert(c.value_out(t) == total);
            let e = taint::EXACT as int;
            assert(total <= e);
            assert(-(e * m + 6 * total) <= e * (2 * (s - dirty)) <= e * m + 6 * total)
                by (nonlinear_arith)
                requires
                    -(total * (e * m + 6 * total)) <= e * (2 * total * s - 2 * (total * dirty))
                        <= total * (e * m + 6 * total),
                    total > 0,
            {
                assert(e * (2 * total * s - 2 * (total * dirty)) == total * (e * (2 * (s - dirty))));
            }
            lemma_round_down(2 * (s - dirty), m, 6 * total, e);
            lemma_round_down(-(2 * (s - dirty)), m, 6 * total, e);
        }
    }
}

/// What is at most `m + x / e` is at most `m` and the whole part of `x / e`.
proof fn lemma_round_down(y: int, m: int, x: int, e: int)
    requires
        e > 0,
        x >= 0,
        e * y <= e * m + x,
    ensures
        y <= m + x / e,
{
    vstd::arithmetic::div_mod::lemma_fundamental_div_mod(x, e);
    vstd::arithmetic::div_mod::lemma_mod_bound(x, e);
    let q = x / e;
    assert(y <= m + q) by (nonlinear_arith)
        requires
            e * y <= e * m + x,
            x < e * q + e,
            e > 0,
    ;
}

proof fn lemma_drift(c: &Chain, k: int)
    requires
        k <= c.txs@.len(),
    ensures
        drift(c, k) >= 0,
    decreases k,
{
    if k > 0 {
        lemma_drift(c, k - 1);
        lemma_values_add_up(c, c.txs@[k - 1].inputs@);
    }
}

proof fn lemma_values_add_up(c: &Chain, s: Seq<usize>)
    ensures
        math::sum_over(s, c.value()) >= 0,
    decreases s.len(),
{
    if s.len() > 0 {
        lemma_values_add_up(c, s.drop_last());
    }
}

/// Haircut conserves the stolen amount up to rounding: the unspent outputs
/// hold it to within half a unit per output of the ledger, and what double
/// precision adds for large amounts.
pub proof fn lemma_haircut_nearly_conserves(c: &Chain, origin: usize)
    requires
        taint::values_exact(c),
        inputs_exact(c),
        c.linked(),
        c.conserving(),
        c.len() <= usize::MAX,
        c.txs@.len() <= usize::MAX,
        origin < c.len(),
    ensures
        ({
            let s = c.unspent_sum(
                taint::amount(taint::haircut_until(c, origin, c.txs@.len() as int)),
            );
            let v = c.outputs@[origin as int].value;
            let most = c.len() + drift(c, c.txs@.len() as int);
            -most <= 2 * (s - v) <= most
        }),
{
    let k = c.txs@.len() as int;
    assert(c.outputs@[origin as int].creating_tx < k);
    lemma_haircut_live(c, origin, k);
    chain::lemma_live_end(c, taint::amount(taint::haircut_until(c, origin, k)));
    math::lemma_count_le(c.len(), |o: int| c.outputs@[o].creating_tx < k);
}

} // verus!
