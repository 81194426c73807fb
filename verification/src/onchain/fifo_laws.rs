//! FIFO unit by unit: money keeps its place in line.
//!
//! Laid end to end, the units of a transaction's inputs and those of its outputs
//! make up one line each. Unit `p` of one is unit `p` of the other.

use crate::math;
use crate::onchain::chain::Chain;
use crate::onchain::taint;
use crate::onchain::taint::TaintPart;
use crate::onchain::taint_laws;
use vstd::prelude::*;

verus! {

/// How much value the first `k` outputs of a list have.
pub open spec fn ahead(c: &Chain, list: Seq<usize>, k: int) -> int
    decreases k,
{
    if k <= 0 {
        0
    } else {
        ahead(c, list, k - 1) + c.outputs@[list[k - 1] as int].value
    }
}

/// Whether unit `y` of a queue of runs is stolen. What is not recorded is clean.
pub open spec fn is_stolen(parts: Seq<TaintPart>, y: int) -> bool
    decreases parts.len(),
{
    if parts.len() == 0 {
        false
    } else if y < parts[0].value {
        parts[0].name != 0
    } else {
        is_stolen(parts.skip(1), y - parts[0].value)
    }
}

/// `stolen(o, y)` says whether unit `y` of output `o` is stolen: all units of the
/// origin are, none of another output of a coinbase, and a unit of any other
/// output is if the unit at its place in the line of the inputs is.
pub open spec fn is_provenance(
    c: &Chain,
    origin: usize,
    stolen: spec_fn(int, int) -> bool,
) -> bool {
    &&& forall|y: int|
        0 <= y < c.outputs@[origin as int].value ==> #[trigger] stolen(origin as int, y)
    &&& forall|o: int, y: int|
        0 <= o < c.len() && o != origin && 0 <= y < c.outputs@[o].value
            && c.txs@[c.outputs@[o].creating_tx as int].inputs@.len() == 0 ==> !#[trigger] stolen(
            o,
            y,
        )
    &&& forall|t: int, i: int, x: int, m: int, y: int|
        #![trigger stolen(c.txs@[t].inputs@[i] as int, x), stolen(c.txs@[t].outputs@[m] as int, y)]
        0 <= t < c.txs@.len() && 0 <= i < c.txs@[t].inputs@.len() && 0 <= m
            < c.txs@[t].outputs@.len() && c.txs@[t].outputs@[m] != origin && 0 <= x
            < c.outputs@[c.txs@[t].inputs@[i] as int].value && 0 <= y
            < c.outputs@[c.txs@[t].outputs@[m] as int].value && ahead(c, c.txs@[t].inputs@, i) + x
            == ahead(c, c.txs@[t].outputs@, m) + y ==> stolen(c.txs@[t].inputs@[i] as int, x)
            == stolen(c.txs@[t].outputs@[m] as int, y)
}

/// The unit of a queue, in the line of all its units.
proof fn lemma_unit(parts: Seq<TaintPart>, y: int)
    requires
        0 <= y < taint::run_value(parts),
    ensures
        y < taint::spread(parts).len(),
        is_stolen(parts, y) == (taint::spread(parts)[y] != 0),
    decreases parts.len(),
{
    taint::lemma_dirt_bounds(parts);
    if parts.len() > 0 && y >= parts[0].value {
        lemma_unit(parts.skip(1), y - parts[0].value);
    }
}

proof fn lemma_spread_concat(a: Seq<TaintPart>, b: Seq<TaintPart>)
    ensures
        taint::spread(a + b) == taint::spread(a) + taint::spread(b),
    decreases a.len(),
{
    if a.len() == 0 {
        assert(a + b =~= b);
        assert(taint::spread(a) + taint::spread(b) =~= taint::spread(b));
    } else {
        lemma_spread_concat(a.skip(1), b);
        assert((a + b).skip(1) =~= a.skip(1) + b);
        assert(taint::spread(a + b) =~= taint::spread(a) + taint::spread(b));
    }
}

/// What an output holds is as long as its value, and an unrecorded one is clean.
proof fn lemma_content_units(c: &Chain, qs: Seq<Seq<TaintPart>>, o: int, x: int)
    requires
        taint::full(c, qs),
        0 <= o < c.len(),
        0 <= x < c.outputs@[o].value,
    ensures
        taint::spread(taint::content(c, qs, o)).len() == c.outputs@[o].value,
        (taint::spread(taint::content(c, qs, o))[x] != 0) == is_stolen(qs[o], x),
{
    let p = TaintPart { name: 0, value: c.outputs@[o].value };
    if qs[o].len() == 0 {
        taint::lemma_one_run(p, Seq::empty());
        assert(seq![p] + Seq::<TaintPart>::empty() =~= seq![p]);
        taint::lemma_dirt_bounds(seq![p]);
    } else {
        taint::lemma_dirt_bounds(qs[o]);
        lemma_unit(qs[o], x);
    }
}

proof fn lemma_content_len(c: &Chain, qs: Seq<Seq<TaintPart>>, o: int)
    requires
        taint::full(c, qs),
        0 <= o < c.len(),
    ensures
        taint::spread(taint::content(c, qs, o)).len() == c.outputs@[o].value,
{
    let p = TaintPart { name: 0, value: c.outputs@[o].value };
    if qs[o].len() == 0 {
        taint::lemma_one_run(p, Seq::empty());
        assert(seq![p] + Seq::<TaintPart>::empty() =~= seq![p]);
        taint::lemma_dirt_bounds(seq![p]);
    } else {
        taint::lemma_dirt_bounds(qs[o]);
    }
}

proof fn lemma_line(c: &Chain, qs: Seq<Seq<TaintPart>>, ins: Seq<usize>, k: int)
    requires
        taint::full(c, qs),
        0 <= k <= ins.len(),
        forall|i: int| 0 <= i < ins.len() ==> #[trigger] ins[i] < c.len(),
    ensures
        taint::spread(taint::gather(c, qs, ins, k)).len() == ahead(c, ins, k),
        ahead(c, ins, k) >= 0,
    decreases k,
{
    if k > 0 {
        lemma_line(c, qs, ins, k - 1);
        assert(ins[k - 1] < c.len());
        lemma_content_len(c, qs, ins[k - 1] as int);
        lemma_spread_concat(
            taint::gather(c, qs, ins, k - 1),
            taint::content(c, qs, ins[k - 1] as int),
        );
    }
}

/// Unit `x` of input `i` has its place behind the inputs before it.
proof fn lemma_place_in_line(
    c: &Chain,
    qs: Seq<Seq<TaintPart>>,
    ins: Seq<usize>,
    k: int,
    i: int,
    x: int,
)
    requires
        taint::full(c, qs),
        0 <= i < k <= ins.len(),
        forall|i: int| 0 <= i < ins.len() ==> #[trigger] ins[i] < c.len(),
        0 <= x < c.outputs@[ins[i] as int].value,
    ensures
        0 <= ahead(c, ins, i) + x < taint::spread(taint::gather(c, qs, ins, k)).len(),
        (taint::spread(taint::gather(c, qs, ins, k))[ahead(c, ins, i) + x] != 0) == is_stolen(
            qs[ins[i] as int],
            x,
        ),
    decreases k,
{
    let before = taint::gather(c, qs, ins, k - 1);
    let last = taint::content(c, qs, ins[k - 1] as int);
    assert(ins[k - 1] < c.len());
    lemma_line(c, qs, ins, k - 1);
    lemma_line(c, qs, ins, i);
    lemma_content_len(c, qs, ins[k - 1] as int);
    lemma_spread_concat(before, last);
    if i < k - 1 {
        lemma_place_in_line(c, qs, ins, k - 1, i, x);
    } else {
        lemma_content_units(c, qs, ins[i] as int, x);
    }
}

/// Dealing cuts the line at the outputs' values: what output `m` gets starts
/// behind the outputs before it.
proof fn lemma_dealt_places(
    c: &Chain,
    qs: Seq<Seq<TaintPart>>,
    pool: Seq<TaintPart>,
    outs: Seq<usize>,
    k: int,
)
    requires
        qs.len() == c.len(),
        0 <= k <= outs.len(),
        outs.no_duplicates(),
        forall|i: int| 0 <= i < outs.len() ==> #[trigger] outs[i] < c.len(),
        ahead(c, outs, k) <= taint::run_value(pool),
    ensures
        ({
            let (now, left) = taint::deal(c, qs, pool, outs, k);
            let line = taint::spread(pool);
            &&& now.len() == c.len()
            &&& 0 <= ahead(c, outs, k)
            &&& line.len() == taint::run_value(pool)
            &&& taint::spread(left) == line.skip(ahead(c, outs, k))
            &&& forall|m: int| #![trigger outs[m]]
                0 <= m < k ==> {
                    let got = taint::spread(now[outs[m] as int]);
                    &&& 0 <= ahead(c, outs, m)
                    &&& ahead(c, outs, m) + c.outputs@[outs[m] as int].value <= ahead(c, outs, k)
                    &&& got.len() == c.outputs@[outs[m] as int].value
                    &&& taint::run_value(now[outs[m] as int]) == c.outputs@[outs[m] as int].value
                    &&& forall|y: int|
                        0 <= y < got.len() ==> #[trigger] got[y] == line[ahead(c, outs, m) + y]
                }
        }),
    decreases k,
{
    let line = taint::spread(pool);
    taint::lemma_dirt_bounds(pool);
    if k == 0 {
        assert(line.skip(0) =~= line);
    } else {
        let x = outs[k - 1] as int;
        let v = c.outputs@[x].value;
        assert(outs[k - 1] < c.len());
        lemma_dealt_places(c, qs, pool, outs, k - 1);
        let (before, rest) = taint::deal(c, qs, pool, outs, k - 1);
        let (now, left) = taint::deal(c, qs, pool, outs, k);
        let at = ahead(c, outs, k - 1);
        taint::lemma_dirt_bounds(rest);
        taint::lemma_cut_lossless(rest, v);
        let (taken, kept) = taint::cut(rest, v);
        taint::lemma_dirt_bounds(taken);
        taint::lemma_dirt_bounds(kept);
        assert(taint::spread(rest) == line.skip(at));
        assert(taint::spread(left) =~= line.skip(at + v)) by {
            assert(taint::spread(rest) =~= taint::spread(taken) + taint::spread(kept));
            assert forall|z: int| 0 <= z < taint::spread(kept).len()
                implies taint::spread(kept)[z] == line.skip(at + v)[z] by {
                assert(taint::spread(rest)[v + z] == taint::spread(kept)[z]);
            }
        }
        assert forall|m: int| #![trigger outs[m]] 0 <= m < k implies {
            let got = taint::spread(now[outs[m] as int]);
            &&& 0 <= ahead(c, outs, m)
            &&& ahead(c, outs, m) + c.outputs@[outs[m] as int].value <= ahead(c, outs, k)
            &&& got.len() == c.outputs@[outs[m] as int].value
            &&& taint::run_value(now[outs[m] as int]) == c.outputs@[outs[m] as int].value
            &&& forall|y: int|
                0 <= y < got.len() ==> #[trigger] got[y] == line[ahead(c, outs, m) + y]
        } by {
            if m < k - 1 {
                assert(outs[m] != outs[k - 1]);
                assert(now[outs[m] as int] == before[outs[m] as int]);
            } else {
                let got = taint::spread(taken);
                assert forall|y: int| 0 <= y < got.len() implies #[trigger] got[y] == line[at + y] by {
                    assert(taint::spread(rest)[y] == got[y]);
                }
            }
        }
    }
}

/// An output's value in a list, added up.
proof fn lemma_ahead_sum(c: &Chain, list: Seq<usize>, k: int)
    requires
        0 <= k <= list.len(),
    ensures
        ahead(c, list, k) == math::sum_over(list.take(k), c.value()),
    decreases k,
{
    if k > 0 {
        lemma_ahead_sum(c, list, k - 1);
        assert(list.take(k).drop_last() =~= list.take(k - 1));
        assert(list.take(k).last() == list[k - 1]);
    } else {
        assert(list.take(0).len() == 0);
    }
}

/// Once an output exists, later transactions leave its runs alone.
proof fn lemma_fifo_settles(c: &Chain, origin: usize, o: int, j: int, k: int)
    requires
        c.linked(),
        origin < c.len(),
        0 <= o < c.len(),
        c.len() <= usize::MAX,
        c.outputs@[o].creating_tx < j <= k <= c.txs@.len(),
    ensures
        taint::fifo_until(c, origin, j)[o] == taint::fifo_until(c, origin, k)[o],
    decreases k,
{
    if j < k {
        let t = k - 1;
        lemma_fifo_settles(c, origin, o, j, t);
        taint::lemma_fifo_full(c, origin, t);
        let qs = taint::fifo_until(c, origin, t);
        let (ins, outs) = (c.txs@[t].inputs@, c.txs@[t].outputs@);
        assert forall|i: int| 0 <= i < outs.len() implies #[trigger] outs[i] < c.len() by {
            assert(c.txs@[t].outputs@[i] < c.len());
        }
        assert(outs.take(outs.len() as int) =~= outs);
        assert(!outs.contains(o as usize)) by {
            if outs.contains(o as usize) {
                let i = choose|i: int| 0 <= i < outs.len() && outs[i] == o as usize;
                assert(c.outputs@[c.txs@[t].outputs@[i] as int].creating_tx == t);
            }
        }
        taint::lemma_deal_full(
            c,
            qs,
            taint::gather(c, qs, ins, ins.len() as int),
            outs,
            outs.len() as int,
        );
    }
}

/// One transaction: unit `y` of output `m` is what unit `x` of input `i` was,
/// where their places in line are the same.
proof fn lemma_step_keeps_places(
    c: &Chain,
    origin: usize,
    t: int,
    i: int,
    x: int,
    m: int,
    y: int,
)
    requires
        c.linked(),
        c.conserving(),
        c.len() <= usize::MAX,
        origin < c.len(),
        0 <= t < c.txs@.len(),
        0 <= i < c.txs@[t].inputs@.len(),
        0 <= m < c.txs@[t].outputs@.len(),
        c.txs@[t].outputs@[m] != origin,
        0 <= x < c.outputs@[c.txs@[t].inputs@[i] as int].value,
        0 <= y < c.outputs@[c.txs@[t].outputs@[m] as int].value,
        ahead(c, c.txs@[t].inputs@, i) + x == ahead(c, c.txs@[t].outputs@, m) + y,
    ensures
        is_stolen(taint::fifo_until(c, origin, t)[c.txs@[t].inputs@[i] as int], x) == is_stolen(
            taint::fifo_until(c, origin, t + 1)[c.txs@[t].outputs@[m] as int],
            y,
        ),
{
    let qs = taint::fifo_until(c, origin, t);
    let now = taint::fifo_until(c, origin, t + 1);
    let (ins, outs) = (c.txs@[t].inputs@, c.txs@[t].outputs@);
    taint::lemma_fifo_full(c, origin, t);
    assert(c.txs@[t].inputs@.len() > 0);
    assert forall|i: int| 0 <= i < outs.len() implies #[trigger] outs[i] < c.len() by {
        assert(c.txs@[t].outputs@[i] < c.len());
    }
    assert forall|i: int| 0 <= i < ins.len() implies #[trigger] ins[i] < c.len() by {
        assert(c.txs@[t].inputs@[i] < c.len());
    }
    if taint::some_runs(c, qs, t) {
        let pool = taint::gather(c, qs, ins, ins.len() as int);
        lemma_line(c, qs, ins, ins.len() as int);
        taint::lemma_dirt_bounds(pool);
        lemma_ahead_sum(c, ins, ins.len() as int);
        lemma_ahead_sum(c, outs, outs.len() as int);
        assert(ins.take(ins.len() as int) =~= ins);
        assert(outs.take(outs.len() as int) =~= outs);
        assert(c.value_in(t) == c.value_out(t));
        lemma_dealt_places(c, qs, pool, outs, outs.len() as int);
        lemma_place_in_line(c, qs, ins, ins.len() as int, i, x);
        assert(outs[m] < c.len());
        let got = taint::spread(now[outs[m] as int]);
        assert(got[y] == taint::spread(pool)[ahead(c, outs, m) + y]);
        lemma_unit(now[outs[m] as int], y);
    } else {
        assert(qs[c.txs@[t].inputs@[i] as int].len() == 0);
        assert(c.outputs@[c.txs@[t].outputs@[m] as int].creating_tx == t);
        taint_laws::lemma_fifo_untouched(c, origin, t, outs[m] as int);
    }
}

/// The stolen value of a queue is how many of its units are stolen.
proof fn lemma_dirt_counts(parts: Seq<TaintPart>)
    ensures
        taint::dirt(parts) == math::count(
            taint::run_value(parts) as nat,
            |y: int| is_stolen(parts, y),
        ),
    decreases parts.len(),
{
    let f = |y: int| is_stolen(parts, y);
    taint::lemma_dirt_bounds(parts);
    if parts.len() == 0 {
        assert(math::count(0, f) == 0);
    } else {
        let rest = parts.skip(1);
        let g = |y: int| is_stolen(rest, y);
        let v = parts[0].value as nat;
        taint::lemma_dirt_bounds(rest);
        lemma_dirt_counts(rest);
        lemma_count_first_run(parts, v);
        lemma_count_shifted(v, taint::run_value(rest) as nat, f, g);
    }
}

proof fn lemma_count_first_run(parts: Seq<TaintPart>, k: nat)
    requires
        parts.len() > 0,
        k <= parts[0].value,
    ensures
        math::count(k, |y: int| is_stolen(parts, y)) == (if parts[0].name == 0 {
            0nat
        } else {
            k
        }),
    decreases k,
{
    if k > 0 {
        lemma_count_first_run(parts, (k - 1) as nat);
    }
}

proof fn lemma_count_shifted(a: nat, b: nat, f: spec_fn(int) -> bool, g: spec_fn(int) -> bool)
    requires
        forall|y: int| 0 <= y < b ==> #[trigger] g(y) == f(a + y),
    ensures
        math::count(a + b, f) == math::count(a, f) + math::count(b, g),
    decreases b,
{
    if b > 0 {
        lemma_count_shifted(a, (b - 1) as nat, f, g);
        assert(g(b - 1) == f(a + b - 1));
    }
}

/// Clayton's Case: FIFO finds for every unit of every output whether it is
/// stolen, by its place in line alone, and an output's taint is how many of its
/// units are.
pub proof fn lemma_fifo_keeps_places(c: &Chain, origin: usize)
    requires
        c.linked(),
        c.conserving(),
        c.len() <= usize::MAX,
        c.txs@.len() <= usize::MAX,
        origin < c.len(),
    ensures
        ({
            let last = taint::fifo_until(c, origin, c.txs@.len() as int);
            &&& is_provenance(c, origin, |o: int, y: int| is_stolen(last[o], y))
            &&& forall|o: int|
                0 <= o < c.len() ==> #[trigger] taint::dirt(last[o]) == math::count(
                    c.outputs@[o].value as nat,
                    |y: int| is_stolen(last[o], y),
                )
        }),
{
    let n = c.txs@.len() as int;
    let last = taint::fifo_until(c, origin, n);
    let stolen = |o: int, y: int| is_stolen(last[o], y);
    taint::lemma_fifo_full(c, origin, n);
    let made = c.outputs@[origin as int].creating_tx as int;
    taint_laws::lemma_fifo_before(c, origin, made + 1);
    lemma_fifo_settles(c, origin, origin as int, made + 1, n);
    assert forall|y: int| 0 <= y < c.outputs@[origin as int].value implies #[trigger] stolen(
        origin as int,
        y,
    ) by {
        assert(last[origin as int] == taint::origin_queues(c, origin)[origin as int]);
    }
    assert forall|o: int, y: int|
        0 <= o < c.len() && o != origin && 0 <= y < c.outputs@[o].value
            && c.txs@[c.outputs@[o].creating_tx as int].inputs@.len() == 0 implies !#[trigger] stolen(
        o,
        y,
    ) by {
        let t = c.outputs@[o].creating_tx as int;
        taint_laws::lemma_fifo_untouched(c, origin, t, o);
        lemma_fifo_settles(c, origin, o, t + 1, n);
        assert(!taint::some_runs(c, taint::fifo_until(c, origin, t), t));
    }
    assert forall|t: int, i: int, x: int, m: int, y: int|
        #![trigger stolen(c.txs@[t].inputs@[i] as int, x), stolen(c.txs@[t].outputs@[m] as int, y)]
        0 <= t < c.txs@.len() && 0 <= i < c.txs@[t].inputs@.len() && 0 <= m
            < c.txs@[t].outputs@.len() && c.txs@[t].outputs@[m] != origin && 0 <= x
            < c.outputs@[c.txs@[t].inputs@[i] as int].value && 0 <= y
            < c.outputs@[c.txs@[t].outputs@[m] as int].value && ahead(c, c.txs@[t].inputs@, i) + x
            == ahead(c, c.txs@[t].outputs@, m) + y implies stolen(c.txs@[t].inputs@[i] as int, x)
        == stolen(c.txs@[t].outputs@[m] as int, y) by {
        let (a, b) = (c.txs@[t].inputs@[i] as int, c.txs@[t].outputs@[m] as int);
        assert(c.txs@[t].inputs@[i] < c.len());
        assert(c.outputs@[c.txs@[t].inputs@[i] as int].creating_tx < t);
        assert(c.outputs@[c.txs@[t].outputs@[m] as int].creating_tx == t);
        lemma_fifo_settles(c, origin, a, t, n);
        lemma_fifo_settles(c, origin, b, t + 1, n);
        lemma_step_keeps_places(c, origin, t, i, x, m, y);
    }
    assert forall|o: int| 0 <= o < c.len() implies #[trigger] taint::dirt(last[o]) == math::count(
        c.outputs@[o].value as nat,
        |y: int| is_stolen(last[o], y),
    ) by {
        lemma_dirt_counts(last[o]);
        if last[o].len() == 0 {
            lemma_count_nothing(c.outputs@[o].value as nat, last[o]);
        }
    }
}

proof fn lemma_count_nothing(k: nat, parts: Seq<TaintPart>)
    requires
        parts.len() == 0,
    ensures
        math::count(k, |y: int| is_stolen(parts, y)) == 0,
    decreases k,
{
    if k > 0 {
        lemma_count_nothing((k - 1) as nat, parts);
    }
}

/// Where only the first input of a transaction is stolen, its money is the first
/// to leave: the first units of the first output are stolen, as many as both have.
pub proof fn lemma_first_in_first_out(c: &Chain, origin: usize, t: int, y: int)
    requires
        c.linked(),
        c.conserving(),
        c.len() <= usize::MAX,
        c.txs@.len() <= usize::MAX,
        origin < c.len(),
        0 <= t < c.txs@.len(),
        c.txs@[t].inputs@.len() > 0,
        c.txs@[t].outputs@.len() > 0,
        c.txs@[t].inputs@[0] == origin,
        0 <= y < c.outputs@[origin as int].value,
        y < c.outputs@[c.txs@[t].outputs@[0] as int].value,
    ensures
        is_stolen(
            taint::fifo_until(c, origin, c.txs@.len() as int)[c.txs@[t].outputs@[0] as int],
            y,
        ),
{
    let last = taint::fifo_until(c, origin, c.txs@.len() as int);
    let stolen = |o: int, y: int| is_stolen(last[o], y);
    lemma_fifo_keeps_places(c, origin);
    assert(c.outputs@[c.txs@[t].inputs@[0] as int].creating_tx < t);
    assert(c.outputs@[c.txs@[t].outputs@[0] as int].creating_tx == t);
    assert(stolen(c.txs@[t].inputs@[0] as int, y));
    assert(stolen(c.txs@[t].inputs@[0] as int, y) == stolen(c.txs@[t].outputs@[0] as int, y));
}

} // verus!
