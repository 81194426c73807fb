//! Recommendations by random walk, from item to user to item.
//!
//! The basic walk starts at one item and counts visits. On top of it: several
//! weighted query pins that share the steps sub-linearly in their degree, a
//! boost for candidates that are reached from several pins, and walks that stop
//! once the top of the ranking has stopped moving. What a walk costs depends on
//! its steps and not on the size of the graph.

pub use crate::social::recs::{overlap, topk};

use crate::double;
use crate::double::Double;
use crate::math;
use crate::rng;
use crate::social::bipartite;
use crate::social::bipartite::Bipartite;
use rand_chacha::ChaCha8Rng;
use vstd::arithmetic::power2::pow2;
use vstd::prelude::*;

verus! {

/// Visit counts over the items; an item that was not come by has none.
pub type Visits = Vec<Option<u64>>;

/// Visit counts per query pin, before the boost.
pub type PerQueryVisits = Vec<Visits>;

/// A walk stops once more than `.0` items have been visited `.1` times each.
pub type EarlyStop = Option<(usize, usize)>;

/// A walk under way.
#[verifier::ext_equal]
pub ghost struct Stroll {
    pub at: u32,
    pub visits: Seq<nat>,
    /// How many items have reached the number of visits that counts.
    pub reached: nat,
    /// Steps so far.
    pub taken: nat,
    pub rest: Map<nat, u32>,
}

/// Whether the walk has seen enough.
pub open spec fn is_done(early: EarlyStop, w: Stroll) -> bool {
    match early {
        Some((items, visits)) => w.reached > items,
        None => false,
    }
}

/// One step: to a random user of the item, on to a random item of theirs, and
/// by chance back to the query. Where there is no way on, back at once.
pub open spec fn stepped(
    g: &Bipartite,
    query: u32,
    alpha: u64,
    early: EarlyStop,
    w: Stroll,
) -> Stroll {
    let users = g.item_adj@[w.at as int]@;
    if users.len() == 0 {
        Stroll { at: query, taken: w.taken + 1, ..w }
    } else {
        let (x, used) = rng::range_draw(w.rest, 0, users.len() as u64);
        let mid = rng::skip_words(w.rest, used);
        let items = g.user_adj@[users[x as int] as int]@;
        if items.len() == 0 {
            Stroll { at: query, taken: w.taken + 1, rest: mid, ..w }
        } else {
            let (y, more) = rng::range_draw(mid, 0, items.len() as u64);
            let coin = rng::skip_words(mid, more);
            let next = items[y as int];
            let count = w.visits[next as int] + 1;
            Stroll {
                at: if rng::first_u64(coin) / 2048 < alpha {
                    query
                } else {
                    next
                },
                visits: w.visits.update(next as int, count),
                reached: match early {
                    Some((items, visits)) => if count == visits {
                        w.reached + 1
                    } else {
                        w.reached
                    },
                    None => w.reached,
                },
                taken: w.taken + 1,
                rest: rng::skip_words(coin, 2),
            }
        }
    }
}

/// A walk with a budget of `n` steps.
pub open spec fn strolled(
    g: &Bipartite,
    query: u32,
    alpha: u64,
    early: EarlyStop,
    stream: Map<nat, u32>,
    n: nat,
) -> Stroll
    decreases n,
{
    if n == 0 {
        Stroll {
            at: query,
            visits: Seq::new(g.n_items as nat, |i: int| 0nat),
            reached: 0,
            taken: 0,
            rest: stream,
        }
    } else {
        let w = strolled(g, query, alpha, early, stream, (n - 1) as nat);
        if is_done(early, w) {
            w
        } else {
            stepped(g, query, alpha, early, w)
        }
    }
}

/// Where a walk is done, more budget changes nothing.
proof fn lemma_done_stays(
    g: &Bipartite,
    query: u32,
    alpha: u64,
    early: EarlyStop,
    stream: Map<nat, u32>,
    k: nat,
    n: nat,
)
    requires
        k <= n,
        is_done(early, strolled(g, query, alpha, early, stream, k)),
    ensures
        strolled(g, query, alpha, early, stream, n) == strolled(
            g,
            query,
            alpha,
            early,
            stream,
            k,
        ),
    decreases n,
{
    if k < n {
        lemma_done_stays(g, query, alpha, early, stream, k, (n - 1) as nat);
    }
}

/// A walk that stops early is the beginning of the one that does not: after
/// the steps that it took, the full walk has the same visits.
pub proof fn lemma_early_stop_is_a_prefix(
    g: &Bipartite,
    query: u32,
    alpha: u64,
    early: EarlyStop,
    stream: Map<nat, u32>,
    n: nat,
)
    ensures
        ({
            let w = strolled(g, query, alpha, early, stream, n);
            let full = strolled(g, query, alpha, None, stream, w.taken);
            &&& w.taken <= n
            &&& w.visits == full.visits
            &&& w.at == full.at
            &&& w.rest == full.rest
            &&& full.taken == w.taken
        }),
    decreases n,
{
    if n > 0 {
        lemma_early_stop_is_a_prefix(g, query, alpha, early, stream, (n - 1) as nat);
        let w = strolled(g, query, alpha, early, stream, (n - 1) as nat);
        let full = strolled(g, query, alpha, None, stream, w.taken);
        if !is_done(early, w) {
            let next = strolled(g, query, alpha, None, stream, w.taken + 1);
            assert(next == stepped(g, query, alpha, None, full));
        }
    }
}

/// Visits as they are told: none is no count.
pub open spec fn told(visits: Seq<nat>) -> Seq<Option<u64>> {
    Seq::new(
        visits.len(),
        |i: int|
            if visits[i] == 0 {
                None
            } else {
                Some(visits[i] as u64)
            },
    )
}

/// The counts behind what is told.
pub open spec fn counted(visits: Seq<Option<u64>>) -> Seq<nat> {
    Seq::new(
        visits.len(),
        |i: int|
            match visits[i] {
                Some(n) => n as nat,
                None => 0,
            },
    )
}

pub open spec fn all_counted(lists: Seq<Visits>) -> Seq<Seq<nat>> {
    Seq::new(lists.len(), |q: int| counted(lists[q]@))
}

fn tell(visits: &Vec<u64>) -> (r: Visits)
    ensures
        r@ == told(nats(visits@)),
        counted(r@) == nats(visits@),
{
    let mut r: Visits = Vec::new();
    for i in 0..visits.len()
        invariant
            r@.len() == i,
            forall|j: int| 0 <= j < i ==> #[trigger] r@[j] == told(nats(visits@))[j],
    {
        let n = visits[i];
        r.push(
            if n == 0 {
                None
            } else {
                Some(n)
            },
        );
    }
    assert(r@ =~= told(nats(visits@)));
    assert(counted(r@) =~= nats(visits@));
    r
}

pub open spec fn nats(s: Seq<u64>) -> Seq<nat> {
    Seq::new(s.len(), |i: int| s[i] as nat)
}

/// The users of an item are users.
proof fn lemma_fans_below(rows: Seq<Seq<u32>>, i: u32, n: nat)
    requires
        n <= u32::MAX,
    ensures
        forall|k: int|
            0 <= k < bipartite::fans(rows, i, n).len() ==> #[trigger] bipartite::fans(rows, i, n)[k]
                < n,
    decreases n,
{
    if n > 0 {
        lemma_fans_below(rows, i, (n - 1) as nat);
        let before = bipartite::fans(rows, i, (n - 1) as nat);
        let now = bipartite::fans(rows, i, n);
        assert forall|k: int| 0 <= k < now.len() implies #[trigger] now[k] < n by {
            if k < before.len() {
                assert(before[k] < n - 1);
            }
        }
    }
}

/// The users of an item are those that have it.
proof fn lemma_fans_have(rows: Seq<Seq<u32>>, i: u32, n: nat, k: int)
    requires
        n <= u32::MAX,
        0 <= k < bipartite::fans(rows, i, n).len(),
    ensures
        bipartite::fans(rows, i, n)[k] < n,
        rows[bipartite::fans(rows, i, n)[k] as int].contains(i),
    decreases n,
{
    let before = bipartite::fans(rows, i, (n - 1) as nat);
    if k < before.len() {
        lemma_fans_have(rows, i, (n - 1) as nat, k);
    }
}

proof fn lemma_havers_are_fans(rows: Seq<Seq<u32>>, i: u32, n: nat, u: int)
    requires
        0 <= u < n,
        rows[u].contains(i),
    ensures
        bipartite::fans(rows, i, n).len() > 0,
    decreases n,
{
    if u < n - 1 {
        lemma_havers_are_fans(rows, i, (n - 1) as nat, u);
    }
}

/// Some user has both items.
pub open spec fn share_a_user(g: &Bipartite, a: u32, b: u32) -> bool {
    exists|u: int|
        0 <= u < g.n_users && (#[trigger] g.user_adj@[u])@.contains(a) && g.user_adj@[u]@.contains(b)
}

/// The visits of all items together.
pub open spec fn all_visits(visits: Seq<nat>) -> nat
    decreases visits.len(),
{
    if visits.len() == 0 {
        0
    } else {
        all_visits(visits.drop_last()) + visits.last()
    }
}

/// How many items were visited at least `v` times.
pub open spec fn often_visited(visits: Seq<nat>, v: nat) -> nat
    decreases visits.len(),
{
    if visits.len() == 0 {
        0
    } else {
        often_visited(visits.drop_last(), v) + if visits.last() >= v {
            1nat
        } else {
            0
        }
    }
}

/// The item was come by from the query, or from an item that was come by; from the
/// query itself, where the walk always goes back.
pub open spec fn is_come_by(g: &Bipartite, query: u32, alpha: u64, visits: Seq<nat>, i: u32) -> bool {
    &&& alpha >= 9_007_199_254_740_992 ==> share_a_user(g, query, i)
    &&& exists|j: u32|
        (j == query || visits[j as int] > 0) && j < g.n_items && #[trigger] share_a_user(g, j, i)
}

/// What holds of every walk: each step is a visit where the query has users, and
/// none is where it has not; only items are visited that can be come by; it takes
/// all its steps, or stops once more than enough items were visited often enough.
pub open spec fn is_stroll(
    g: &Bipartite,
    query: u32,
    alpha: u64,
    early: EarlyStop,
    steps: nat,
    visits: Seq<nat>,
    taken: nat,
) -> bool {
    &&& visits.len() == g.n_items
    &&& taken <= steps
    &&& all_visits(visits) == if g.item_adj@[query as int]@.len() > 0 {
        taken
    } else {
        0
    }
    &&& forall|i: u32|
        i < g.n_items && visits[i as int] > 0 ==> #[trigger] is_come_by(g, query, alpha, visits, i)
    &&& match early {
        None => taken == steps,
        Some((items, v)) => {
            &&& v == 0 ==> taken == steps
            &&& v > 0 && taken < steps ==> often_visited(visits, v as nat) > items
            &&& v > 0 ==> often_visited(visits, v as nat) <= items + 1
        },
    }
}

/// A walk of some length.
pub open spec fn is_some_stroll(
    g: &Bipartite,
    query: u32,
    alpha: u64,
    early: EarlyStop,
    steps: nat,
    visits: Seq<nat>,
) -> bool {
    exists|taken: nat| #[trigger] is_stroll(g, query, alpha, early, steps, visits, taken)
}

proof fn lemma_visit_counts(visits: Seq<nat>, i: int, v: nat)
    requires
        0 <= i < visits.len(),
    ensures
        all_visits(visits.update(i, visits[i] + 1)) == all_visits(visits) + 1,
        often_visited(visits.update(i, visits[i] + 1), v) == often_visited(visits, v) + if visits[i]
            + 1 == v {
            1nat
        } else {
            0
        },
    decreases visits.len(),
{
    let now = visits.update(i, visits[i] + 1);
    if i == visits.len() - 1 {
        assert(now.drop_last() =~= visits.drop_last());
    } else {
        let short = visits.drop_last();
        lemma_visit_counts(short, i, v);
        assert(now.drop_last() =~= short.update(i, short[i] + 1));
        assert(now.last() == visits.last());
    }
}

proof fn lemma_no_visits(n: nat, v: nat)
    ensures
        all_visits(Seq::new(n, |i: int| 0nat)) == 0,
        v > 0 ==> often_visited(Seq::new(n, |i: int| 0nat), v) == 0,
    decreases n,
{
    let s = Seq::new(n, |i: int| 0nat);
    if n > 0 {
        lemma_no_visits((n - 1) as nat, v);
        assert(s.drop_last() =~= Seq::new((n - 1) as nat, |i: int| 0nat));
    }
}

/// One visit more of an item that shares a user with the last one.
proof fn lemma_come_by_step(
    g: &Bipartite,
    query: u32,
    alpha: u64,
    visits: Seq<nat>,
    at: u32,
    next: u32,
)
    requires
        visits.len() == g.n_items,
        next < g.n_items,
        at < g.n_items,
        at == query || visits[at as int] > 0,
        alpha >= 9_007_199_254_740_992 ==> at == query,
        share_a_user(g, at, next),
        forall|i: u32|
            i < g.n_items && visits[i as int] > 0 ==> #[trigger] is_come_by(
                g,
                query,
                alpha,
                visits,
                i,
            ),
    ensures
        ({
            let now = visits.update(next as int, visits[next as int] + 1);
            forall|i: u32|
                i < g.n_items && now[i as int] > 0 ==> #[trigger] is_come_by(
                    g,
                    query,
                    alpha,
                    now,
                    i,
                )
        }),
{
    let now = visits.update(next as int, visits[next as int] + 1);
    assert forall|i: u32| i < g.n_items && now[i as int] > 0 implies #[trigger] is_come_by(
        g,
        query,
        alpha,
        now,
        i,
    ) by {
        if i == next {
            assert(at == query || now[at as int] > 0);
        } else {
            assert(is_come_by(g, query, alpha, visits, i));
            let j = choose|j: u32|
                (j == query || visits[j as int] > 0) && j < g.n_items && #[trigger] share_a_user(
                    g,
                    j,
                    i,
                );
            assert(j == query || now[j as int] > 0);
        }
    }
}

fn has_enough(early: EarlyStop, reached: usize) -> (b: bool)
    ensures
        b == match early {
            Some((items, visits)) => reached > items,
            None => false,
        },
{
    match early {
        Some((items, visits)) => reached > items,
        None => false,
    }
}

/// Walks from one item with a budget, and says how many steps it took.
fn stroll(
    rng: &mut ChaCha8Rng,
    g: &Bipartite,
    query: u32,
    steps: usize,
    alpha: u64,
    early: EarlyStop,
) -> (r: (Vec<u64>, usize))
    requires
        g.well_formed(),
        query < g.n_items,
    ensures
        ({
            let w = strolled(g, query, alpha, early, rng::words(*old(rng)), steps as nat);
            &&& nats(r.0@) == w.visits
            &&& r.1 == w.taken
            &&& r.1 <= steps
            &&& rng::words(*final(rng)) == w.rest
        }),
        r.0@.len() == g.n_items,
        forall|i: int| 0 <= i < g.n_items ==> #[trigger] r.0@[i] <= r.1,
        is_stroll(g, query, alpha, early, steps as nat, nats(r.0@), r.1 as nat),
{
    let ghost stream = rng::words(*rng);
    let mut visits: Vec<u64> = vec![0; g.n_items];
    let mut reached: usize = 0;
    let mut at = query;
    let mut taken: usize = 0;
    let ghost mut w = strolled(g, query, alpha, early, stream, 0);
    assert(nats(visits@) =~= w.visits);
    let ghost often: nat = match early {
        Some((items, v)) => v as nat,
        None => 1,
    };
    let ghost known = g.item_adj@[query as int]@.len() > 0;
    proof {
        lemma_no_visits(g.n_items as nat, often);
    }
    while taken < steps && !has_enough(early, reached)
        invariant
            g.well_formed(),
            query < g.n_items,
            at < g.n_items,
            taken <= steps,
            visits@.len() == g.n_items,
            w == strolled(g, query, alpha, early, stream, taken as nat),
            w.taken == taken,
            w.reached == reached,
            reached <= taken,
            w.at == at,
            w.rest == rng::words(*rng),
            nats(visits@) == w.visits,
            forall|i: int| 0 <= i < g.n_items ==> #[trigger] visits@[i] <= taken,
            often == (match early {
                Some((items, v)) => v as nat,
                None => 1,
            }),
            known == (g.item_adj@[query as int]@.len() > 0),
            known ==> g.item_adj@[at as int]@.len() > 0,
            at == query || w.visits[at as int] > 0,
            alpha >= 9_007_199_254_740_992 || !known ==> at == query,
            all_visits(w.visits) == if known {
                taken as nat
            } else {
                0
            },
            forall|i: u32|
                i < g.n_items && w.visits[i as int] > 0 ==> #[trigger] is_come_by(
                    g,
                    query,
                    alpha,
                    w.visits,
                    i,
                ),
            match early {
                Some((items, v)) => (if v == 0 {
                    reached == 0
                } else {
                    reached == often_visited(w.visits, v as nat)
                }) && reached <= items + 1,
                None => true,
            },
        decreases steps - taken,
    {
        let ghost before = w;
        proof {
            assert(!is_done(early, before));
            w = stepped(g, query, alpha, early, before);
            assert(g.item_adj@[at as int]@ == bipartite::fans(
                bipartite::rows_of(g.user_adj@),
                at,
                g.n_users as nat,
            ));
            lemma_fans_below(bipartite::rows_of(g.user_adj@), at, g.n_users as nat);
        }
        let users = &g.item_adj[at as usize];
        if users.len() == 0 {
            at = query;
        } else {
            let x = rng::draw_index(rng, 0, users.len());
            let u = users[x];
            assert(u < g.n_users);
            proof {
                let rows = bipartite::rows_of(g.user_adj@);
                lemma_fans_have(rows, at, g.n_users as nat, x as int);
                assert(rows[u as int].contains(at));
                assert(g.user_adj@[u as int]@.contains(at));
            }
            let items = &g.user_adj[u as usize];
            if items.len() == 0 {
                at = query;
            } else {
                let y = rng::draw_index(rng, 0, items.len());
                let next = items[y];
                assert(g.user_adj@[u as int]@[y as int] < g.n_items);
                assert(visits@[next as int] <= taken);
                proof {
                    let rows = bipartite::rows_of(g.user_adj@);
                    assert(rows[u as int].contains(next));
                    assert(g.user_adj@[u as int]@.contains(next));
                    assert(share_a_user(g, at, next));
                    assert(g.item_adj@[next as int]@ == bipartite::fans(
                        rows,
                        next,
                        g.n_users as nat,
                    ));
                    lemma_havers_are_fans(rows, next, g.n_users as nat, u as int);
                    lemma_visit_counts(before.visits, next as int, often);
                    lemma_come_by_step(g, query, alpha, before.visits, at, next);
                }
                let ghost coin = rng::words(*rng);
                assert(coin[0] <= 0xffff_ffff && coin[1] <= 0xffff_ffff);
                let count = visits[next as usize] + 1;
                visits.set(next as usize, count);
                match early {
                    Some((items, enough)) => {
                        if count as usize == enough {
                            reached += 1;
                        }
                    },
                    None => {},
                }
                at = next;
                if rng::coin(rng, alpha) {
                    at = query;
                }
                assert(nats(visits@) =~= w.visits);
            }
        }
        taken += 1;
    }
    proof {
        if taken < steps {
            lemma_done_stays(g, query, alpha, early, stream, taken as nat, steps as nat);
        }
    }
    (visits, taken)
}

/// The basic walk from one item, and how often it was at each. Restarts, with
/// probability `alpha` in units of 2^-53, keep it near the query.
pub fn basic_random_walk(
    rng: &mut ChaCha8Rng,
    g: &Bipartite,
    query: u32,
    steps: usize,
    alpha: u64,
) -> (visits: Visits)
    requires
        g.well_formed(),
        query < g.n_items,
    ensures
        ({
            let w = strolled(g, query, alpha, None, rng::words(*old(rng)), steps as nat);
            visits@ == told(w.visits) && rng::words(*final(rng)) == w.rest
        }),
        visits@.len() == g.n_items,
        is_stroll(g, query, alpha, None, steps as nat, counted(visits@), steps as nat),
{
    tell(&stroll(rng, g, query, steps, alpha, None).0)
}

/// The walks of the first `n` pins, one after another: the visits of each, the
/// steps of all, and the stream that is left.
pub open spec fn pin_walks(
    g: &Bipartite,
    query: Seq<(u32, Double)>,
    steps: Seq<usize>,
    alpha: u64,
    early: EarlyStop,
    stream: Map<nat, u32>,
    n: nat,
) -> (Seq<Seq<nat>>, nat, Map<nat, u32>)
    decreases n,
{
    if n == 0 {
        (Seq::empty(), 0, stream)
    } else {
        let (before, taken, rest) = pin_walks(
            g,
            query,
            steps,
            alpha,
            early,
            stream,
            (n - 1) as nat,
        );
        let w = strolled(g, query[n - 1].0, alpha, early, rest, steps[n - 1] as nat);
        (before.push(w.visits), taken + w.taken, w.rest)
    }
}

pub open spec fn all_nats(lists: Seq<Vec<u64>>) -> Seq<Seq<nat>> {
    Seq::new(lists.len(), |q: int| nats(lists[q]@))
}

/// The pins are items of the graph.
pub open spec fn pins_fit(g: &Bipartite, query: Seq<(u32, Double)>) -> bool {
    forall|q: int| 0 <= q < query.len() ==> (#[trigger] query[q]).0 < g.n_items
}

/// Every pin has a walk of its own.
pub open spec fn are_strolls(
    g: &Bipartite,
    query: Seq<(u32, Double)>,
    alpha: u64,
    early: EarlyStop,
    steps: Seq<usize>,
    walks: Seq<Seq<nat>>,
    n: nat,
) -> bool {
    forall|q: int|
        0 <= q < n ==> is_some_stroll(
            g,
            query[q].0,
            alpha,
            early,
            steps[q] as nat,
            #[trigger] walks[q],
        )
}

fn walk_pins(
    rng: &mut ChaCha8Rng,
    g: &Bipartite,
    query: &[(u32, Double)],
    steps: &[usize],
    alpha: u64,
    early: EarlyStop,
) -> (r: (Vec<Vec<u64>>, u128))
    requires
        g.well_formed(),
        pins_fit(g, query@),
        steps@.len() == query@.len(),
    ensures
        (all_nats(r.0@), r.1 as nat, rng::words(*final(rng))) == pin_walks(
            g,
            query@,
            steps@,
            alpha,
            early,
            rng::words(*old(rng)),
            query@.len(),
        ),
        r.0@.len() == query@.len(),
        forall|q: int| 0 <= q < r.0@.len() ==> (#[trigger] r.0@[q])@.len() == g.n_items,
        r.1 <= step_total(steps@, query@.len()),
        visits_within(all_nats(r.0@), g.n_items as int, query@.len(), r.1 as int),
        are_strolls(g, query@, alpha, early, steps@, all_nats(r.0@), query@.len()),
        early is None ==> r.1 == step_total(steps@, query@.len()),
{
    let ghost stream = rng::words(*rng);
    let mut lists: Vec<Vec<u64>> = Vec::new();
    let mut taken: u128 = 0;
    assert(all_nats(lists@) =~= Seq::empty());
    for q in 0..query.len()
        invariant
            g.well_formed(),
            pins_fit(g, query@),
            steps@.len() == query@.len(),
            (all_nats(lists@), taken as nat, rng::words(*rng)) == pin_walks(
                g,
                query@,
                steps@,
                alpha,
                early,
                stream,
                q as nat,
            ),
            forall|q: int| 0 <= q < lists@.len() ==> (#[trigger] lists@[q])@.len() == g.n_items,
            lists@.len() == q,
            taken <= step_total(steps@, q as nat),
            visits_within(all_nats(lists@), g.n_items as int, q as nat, taken as int),
            taken <= q * 0xffff_ffff_ffff_ffff,
            are_strolls(g, query@, alpha, early, steps@, all_nats(lists@), q as nat),
            early is None ==> taken == step_total(steps@, q as nat),
    {
        let ghost before = lists@;
        assert(query@[q as int].0 < g.n_items);
        let (visits, n) = stroll(rng, g, query[q].0, steps[q], alpha, early);
        assert(q * 0xffff_ffff_ffff_ffff <= 0xffff_ffff_ffff_ffff * 0xffff_ffff_ffff_ffff)
            by (nonlinear_arith)
            requires
                q <= 0xffff_ffff_ffff_ffff,
        ;
        taken = taken + n as u128;
        lists.push(visits);
        proof {
            let (old_all, all) = (all_nats(before), all_nats(lists@));
            assert(all =~= old_all.push(nats(visits@)));
            assert(is_stroll(
                g,
                query@[q as int].0,
                alpha,
                early,
                steps@[q as int] as nat,
                all[q as int],
                n as nat,
            ));
            assert forall|p: int| 0 <= p < q + 1 implies is_some_stroll(
                g,
                query@[p].0,
                alpha,
                early,
                steps@[p] as nat,
                #[trigger] all[p],
            ) by {
                if p < q {
                    assert(all[p] == old_all[p]);
                }
            }
            assert forall|p: int| 0 <= p < g.n_items
                implies #[trigger] visits_of(all, p, (q + 1) as nat) <= taken by {
                lemma_visits_push(old_all, nats(visits@), p, q as nat);
                assert(visits_of(old_all, p, q as nat) <= taken - n);
                assert(visits@[p] <= n);
            }
        }
    }
    (lists, taken)
}

/// One walk per query pin, each with its own budget and its own counts: the
/// boost needs to know which pin a visit came from.
pub fn walk_per_query(
    rng: &mut ChaCha8Rng,
    g: &Bipartite,
    query: &[(u32, Double)],
    steps: &[usize],
    alpha: u64,
) -> (visits: PerQueryVisits)
    requires
        g.well_formed(),
        pins_fit(g, query@),
        steps@.len() == query@.len(),
    ensures
        ({
            let w = pin_walks(
                g,
                query@,
                steps@,
                alpha,
                None,
                rng::words(*old(rng)),
                query@.len(),
            );
            &&& visits@.len() == w.0.len()
            &&& forall|q: int| 0 <= q < visits@.len() ==> (#[trigger] visits@[q])@ == told(w.0[q])
            &&& rng::words(*final(rng)) == w.2
        }),
        forall|q: int| 0 <= q < visits@.len() ==> (#[trigger] visits@[q])@.len() == g.n_items,
        are_strolls(g, query@, alpha, None, steps@, all_counted(visits@), query@.len()),
{
    let (lists, taken) = walk_pins(rng, g, query, steps, alpha, None);
    tell_all(&lists)
}

fn tell_all(lists: &Vec<Vec<u64>>) -> (r: PerQueryVisits)
    ensures
        r@.len() == lists@.len(),
        forall|q: int| 0 <= q < r@.len() ==> (#[trigger] r@[q])@ == told(all_nats(lists@)[q]),
        all_counted(r@) == all_nats(lists@),
{
    let mut r: PerQueryVisits = Vec::new();
    for q in 0..lists.len()
        invariant
            r@.len() == q,
            forall|j: int|
                0 <= j < q ==> (#[trigger] r@[j])@ == told(all_nats(lists@)[j]) && counted(r@[j]@)
                    == all_nats(lists@)[j],
    {
        r.push(tell(&lists[q]));
    }
    assert(all_counted(r@) =~= all_nats(lists@));
    r
}

/// The largest number of users that an item has.
pub open spec fn is_max_degree(g: &Bipartite, d: int) -> bool {
    &&& forall|i: int| 0 <= i < g.n_items ==> (#[trigger] g.item_adj@[i])@.len() <= d
    &&& d == 0 || exists|i: int| 0 <= i < g.n_items && (#[trigger] g.item_adj@[i])@.len() == d
}

/// The largest number of users that an item has, over the whole graph.
pub fn max_item_degree(g: &Bipartite) -> (d: usize)
    requires
        g.item_adj@.len() == g.n_items,
    ensures
        is_max_degree(g, d as int),
{
    let mut d: usize = 0;
    for i in 0..g.n_items
        invariant
            g.item_adj@.len() == g.n_items,
            forall|j: int| 0 <= j < i ==> (#[trigger] g.item_adj@[j])@.len() <= d,
            d == 0 || exists|j: int| 0 <= j < i && (#[trigger] g.item_adj@[j])@.len() == d,
    {
        let n = g.item_adj[i].len();
        if n > d {
            d = n;
            assert(g.item_adj@[i as int]@.len() == d);
        }
    }
    d
}

/// What pin `q` asks for: its weight times the scale of its degree, in double
/// precision.
pub open spec fn claim(g: &Bipartite, query: Seq<(u32, Double)>, scale: Seq<Double>, q: int) -> int {
    double::product(
        query[q].1.value(),
        scale[g.item_adj@[query[q].0 as int]@.len() as int].value(),
    )
}

/// What the first `n` pins ask for, added up one after the other.
pub open spec fn claims(g: &Bipartite, query: Seq<(u32, Double)>, scale: Seq<Double>, n: nat) -> int
    decreases n,
{
    if n == 0 {
        0
    } else {
        double::total(claims(g, query, scale, (n - 1) as nat), claim(g, query, scale, n - 1))
    }
}

/// The steps of pin `q`: its part of all claims, rounded down, and at least one.
pub open spec fn allotted(
    g: &Bipartite,
    query: Seq<(u32, Double)>,
    scale: Seq<Double>,
    total: int,
    q: int,
) -> int {
    let all = claims(g, query, scale, query.len());
    let part = if all == 0 {
        0
    } else {
        double::saturated(
            double::floor(
                double::product(
                    double::quotient(claim(g, query, scale, q), all),
                    double::of(total),
                ),
            ),
        )
    };
    if part == 0 {
        1
    } else {
        part as int
    }
}

/// The scale has an entry for every pin's degree; it and the weights are finite.
pub open spec fn scale_fits(g: &Bipartite, query: Seq<(u32, Double)>, scale: Seq<Double>) -> bool {
    &&& query.len() <= 0x20_0000_0000_0000
    &&& forall|q: int|
        0 <= q < query.len() ==> {
            let d = g.item_adj@[(#[trigger] query[q]).0 as int]@.len() as int;
            query[q].1.finite() && d < scale.len() && scale[d].finite()
        }
}

/// A claim is a number that is not negative.
proof fn lemma_claim(g: &Bipartite, query: Seq<(u32, Double)>, scale: Seq<Double>, q: int)
    requires
        0 <= q < query.len(),
        scale_fits(g, query, scale),
    ensures
        0 <= claim(g, query, scale, q),
        double::rounded(claim(g, query, scale, q), 1) == claim(g, query, scale, q),
{
    let (w, s) = (query[q].1, scale[g.item_adj@[query[q].0 as int]@.len() as int]);
    let (a, b, u) = (w.value(), s.value(), double::one());
    w.lemma_sign();
    s.lemma_sign();
    double::lemma_one();
    assert(0 <= a * b) by (nonlinear_arith)
        requires
            a >= 0,
            b >= 0,
    ;
    double::lemma_rounded_monotone(a * b, u, a * b, u);
    double::lemma_rounded_again(a * b, u);
}

proof fn lemma_claims_grow(
    g: &Bipartite,
    query: Seq<(u32, Double)>,
    scale: Seq<Double>,
    k: nat,
    n: nat,
)
    requires
        k <= n <= query.len(),
        scale_fits(g, query, scale),
    ensures
        0 <= claims(g, query, scale, k) <= claims(g, query, scale, n),
        double::rounded(claims(g, query, scale, n), 1) == claims(g, query, scale, n),
        k < n ==> claim(g, query, scale, k as int) <= claims(g, query, scale, n),
    decreases n,
{
    if n > 0 {
        let before = claims(g, query, scale, (n - 1) as nat);
        let last = claim(g, query, scale, n - 1);
        lemma_claim(g, query, scale, n - 1);
        if k < n {
            lemma_claims_grow(g, query, scale, k, (n - 1) as nat);
        } else {
            lemma_claims_grow(g, query, scale, (n - 1) as nat, (n - 1) as nat);
        }
        double::lemma_total_grows(before, last);
        double::lemma_rounded_again(before + last, 1);
    } else {
        double::lemma_rounded_exact(0, 0, 1);
        assert(0 * pow2(0) == 0) by (nonlinear_arith);
    }
}

/// What a pin can get at most: the whole budget as a double, or one step.
pub open spec fn most_steps(total: int) -> int {
    double::floor(double::of(total)) + 1
}

proof fn lemma_allotted(
    g: &Bipartite,
    query: Seq<(u32, Double)>,
    scale: Seq<Double>,
    total: int,
    q: int,
)
    requires
        0 <= q < query.len(),
        total >= 0,
        scale_fits(g, query, scale),
    ensures
        1 <= allotted(g, query, scale, total, q) <= most_steps(total),
        allotted(g, query, scale, total, q) <= double::floor(double::of(total)) || allotted(
            g,
            query,
            scale,
            total,
            q,
        ) == 1,
{
    let all = claims(g, query, scale, query.len());
    let (c, u, t) = (claim(g, query, scale, q), double::one(), double::of(total));
    lemma_claims_grow(g, query, scale, q as nat, query.len());
    lemma_claim(g, query, scale, q);
    double::lemma_one();
    double::lemma_of_monotone(0, total);
    assert(0 * u == 0) by (nonlinear_arith);
    double::lemma_rounded_exact(0, 0, 1);
    vstd::arithmetic::div_mod::lemma_div_pos_is_pos(t, u);
    if all > 0 {
        assert(0 <= c * u && (c * u) * 1 <= u * all) by (nonlinear_arith)
            requires
                0 <= c <= all,
                u > 0,
        ;
        double::lemma_rounded_monotone(c * u, all, u, 1);
        double::lemma_rounded_exact(1, 1074, 1);
        let f = double::quotient(c, all);
        assert(0 <= f <= u);
        assert(0 <= f * t && (f * t) * 1 <= t * u) by (nonlinear_arith)
            requires
                0 <= f <= u,
                t >= 0,
        ;
        double::lemma_rounded_monotone(f * t, u, t, 1);
        assert(total * u >= 0) by (nonlinear_arith)
            requires
                total >= 0,
                u > 0,
        ;
        double::lemma_rounded_again(total * u, 1);
        let p = double::product(f, t);
        vstd::arithmetic::div_mod::lemma_div_is_ordered(p, t, u);
        vstd::arithmetic::div_mod::lemma_div_pos_is_pos(p, u);
    }
}

/// The steps of a pin are a machine number.
proof fn lemma_steps_fit(
    g: &Bipartite,
    query: Seq<(u32, Double)>,
    scale: Seq<Double>,
    total: usize,
    q: int,
)
    requires
        0 <= q < query.len(),
        scale_fits(g, query, scale),
    ensures
        allotted(g, query, scale, total as int, q) <= usize::MAX,
{
    lemma_allotted(g, query, scale, total as int, q);
    if total < 0x20_0000_0000_0000 {
        let (t, u) = (total as int, double::one());
        double::lemma_one();
        double::lemma_of_exact(t);
        vstd::arithmetic::div_mod::lemma_div_multiples_vanish(t, u);
        assert(t * u == u * t) by (nonlinear_arith);
    }
}

fn claim_of(g: &Bipartite, query: &[(u32, Double)], scale: &Vec<Double>, q: usize) -> (c: Double)
    requires
        g.well_formed(),
        pins_fit(g, query@),
        scale_fits(g, query@, scale@),
        q < query@.len(),
    ensures
        c.normal(),
        c.e <= 4218,
        c.value() == claim(g, query@, scale@, q as int),
{
    assert(query@[q as int].0 < g.n_items);
    let (pin, weight) = query[q];
    weight.times(scale[g.item_degree(pin)])
}

/// How many steps each query pin gets out of a budget: its part by weight and
/// by the scale of its degree, rounded down, and at least one. A scale that
/// grows sub-linearly, `d * (ln D - ln d)` with the largest degree `D` of the
/// whole graph, keeps popular pins from taking all.
pub fn allocate_steps(
    g: &Bipartite,
    query: &[(u32, Double)],
    scale: &Vec<Double>,
    total_steps: usize,
) -> (steps: Vec<usize>)
    requires
        g.well_formed(),
        pins_fit(g, query@),
        scale_fits(g, query@, scale@),
    ensures
        steps@.len() == query@.len(),
        forall|q: int|
            0 <= q < query@.len() ==> #[trigger] steps@[q] == allotted(
                g,
                query@,
                scale@,
                total_steps as int,
                q,
            ),
        forall|q: int|
            0 <= q < query@.len() ==> 1 <= #[trigger] steps@[q] <= most_steps(total_steps as int),
{
    let mut all = double::zero();
    assert(0 * pow2(4300) == 0) by (nonlinear_arith);
    for q in 0..query.len()
        invariant
            g.well_formed(),
            pins_fit(g, query@),
            scale_fits(g, query@, scale@),
            all.normal(),
            all.value() == claims(g, query@, scale@, q as nat),
            0 <= all.value() <= q * pow2(4300),
    {
        let c = claim_of(g, query, scale, q);
        proof {
            c.lemma_value_below(4300);
            double::lemma_total_bound(all.value(), c.value(), q as int, 4300);
            all.lemma_exponent_of_sum(q as int, 4300);
        }
        all = all.plus(c);
    }
    proof {
        all.lemma_exponent_of_sum(query@.len() as int, 4300);
        all.lemma_sign();
    }
    let budget = Double::from_u64(total_steps as u64);
    let mut steps: Vec<usize> = Vec::new();
    for q in 0..query.len()
        invariant
            g.well_formed(),
            pins_fit(g, query@),
            scale_fits(g, query@, scale@),
            all.normal(),
            all.e <= 4364,
            all.value() == claims(g, query@, scale@, query@.len()),
            all.value() == 0 <==> all.m == 0,
            budget.normal(),
            budget.e <= 1202,
            budget.value() == double::of(total_steps as int),
            steps@.len() == q,
            forall|j: int|
                0 <= j < q ==> #[trigger] steps@[j] == allotted(
                    g,
                    query@,
                    scale@,
                    total_steps as int,
                    j,
                ),
            forall|j: int|
                0 <= j < q ==> 1 <= #[trigger] steps@[j] <= most_steps(total_steps as int),
    {
        let c = claim_of(g, query, scale, q);
        proof {
            lemma_allotted(g, query@, scale@, total_steps as int, q as int);
            lemma_steps_fit(g, query@, scale@, total_steps, q as int);
        }
        let mut part: usize = 0;
        if all.m > 0 {
            part = c.over(all).times(budget).to_floor() as usize;
        }
        steps.push(if part == 0 {
            1
        } else {
            part
        });
    }
    steps
}

/// What one visit scores.
pub const VISIT: u128 = 0x100_0000_0000_0000;

/// What the first `n` pins count of item `p`.
pub open spec fn visits_of(per_query: Seq<Seq<nat>>, p: int, n: nat) -> int
    decreases n,
{
    if n == 0 {
        0
    } else {
        visits_of(per_query, p, (n - 1) as nat) + per_query[n - 1][p]
    }
}

/// The root of `a * b`, in units of `1 / VISIT` and rounded down.
pub open spec fn root_of_pair(a: nat, b: nat) -> int {
    math::root((a * b) * VISIT * VISIT)
}

/// The roots that pin `r` makes with the first `n` pins.
pub open spec fn roots_with(per_query: Seq<Seq<nat>>, p: int, r: int, n: nat) -> int
    decreases n,
{
    if n == 0 {
        0
    } else {
        roots_with(per_query, p, r, (n - 1) as nat) + root_of_pair(
            per_query[n - 1][p],
            per_query[r][p],
        )
    }
}

/// The roots of all pairs of the first `n` pins.
pub open spec fn pair_roots(per_query: Seq<Seq<nat>>, p: int, n: nat) -> int
    decreases n,
{
    if n == 0 {
        0
    } else {
        pair_roots(per_query, p, (n - 1) as nat) + roots_with(per_query, p, n - 1, (n - 1) as nat)
    }
}

/// The boosted score of item `p`, the square of the sum of the roots, multiplied
/// out: the visits, and twice the root of every product of two.
pub open spec fn boosted(per_query: Seq<Seq<nat>>, p: int) -> int {
    visits_of(per_query, p, per_query.len()) * VISIT + 2 * pair_roots(
        per_query,
        p,
        per_query.len(),
    )
}

/// Some pin counts item `p`.
pub open spec fn is_counted(lists: Seq<Visits>, p: int) -> bool {
    exists|q: int| 0 <= q < lists.len() && (#[trigger] lists[q])@[p] is Some
}

/// No item has more than `most` visits from the first `n` pins.
spec fn visits_within(per_query: Seq<Seq<nat>>, n_items: int, n: nat, most: int) -> bool {
    forall|p: int| 0 <= p < n_items ==> #[trigger] visits_of(per_query, p, n) <= most
}

/// A root of a product is at most the mean.
proof fn lemma_root_of_pair(a: nat, b: nat)
    ensures
        0 <= root_of_pair(a, b),
        2 * root_of_pair(a, b) <= (a + b) * VISIT,
        a == 0 || b == 0 ==> root_of_pair(a, b) == 0,
{
    let (x, y, v) = (a as int, b as int, VISIT as int);
    let n = (x * y) * v * v;
    assert(n >= 0) by (nonlinear_arith)
        requires
            n == (x * y) * v * v,
            x >= 0,
            y >= 0,
            v >= 0,
    ;
    math::lemma_some_root(n);
    let r = math::root(n);
    assert(2 * r <= (x + y) * v) by (nonlinear_arith)
        requires
            r * r <= (x * y) * v * v,
            r >= 0,
            x >= 0,
            y >= 0,
            v >= 0,
    {
        let m = (x + y) * v;
        assert(m >= 0);
        assert(m * m - 4 * ((x * y) * v * v) == ((x - y) * v) * ((x - y) * v));
        assert(((x - y) * v) * ((x - y) * v) >= 0);
        if 2 * r > m {
            assert((2 * r) * (2 * r) > m * m);
            assert((2 * r) * (2 * r) == 4 * (r * r));
        }
    }
    if a == 0 || b == 0 {
        assert(n == 0) by (nonlinear_arith)
            requires
                n == (x * y) * v * v,
                x == 0 || y == 0,
        ;
        math::lemma_root(0, 0);
    }
}

/// Parts of what is added up are no more than all of it.
proof fn lemma_sums_grow(per_query: Seq<Seq<nat>>, p: int, r: int, k: nat, n: nat)
    requires
        k <= n,
    ensures
        0 <= visits_of(per_query, p, k) <= visits_of(per_query, p, n),
        0 <= roots_with(per_query, p, r, k) <= roots_with(per_query, p, r, n),
        0 <= pair_roots(per_query, p, k) <= pair_roots(per_query, p, n),
    decreases n, k,
{
    if n > 0 {
        lemma_root_of_pair(per_query[n - 1][p], per_query[r][p]);
        lemma_sums_grow(per_query, p, n - 1, (n - 1) as nat, (n - 1) as nat);
        if k < n {
            lemma_sums_grow(per_query, p, r, k, (n - 1) as nat);
        } else {
            lemma_sums_grow(per_query, p, r, (n - 1) as nat, (n - 1) as nat);
        }
    }
}

/// The score of every item has room.
pub open spec fn scores_fit(per_query: Seq<Seq<nat>>, n_items: int) -> bool {
    forall|p: int| 0 <= p < n_items ==> #[trigger] boosted(per_query, p) <= u128::MAX
}

/// The counts of one item.
fn counts_of(per_query: &PerQueryVisits, p: usize, n_items: usize) -> (r: (Vec<u64>, bool))
    requires
        p < n_items,
        forall|q: int| 0 <= q < per_query@.len() ==> (#[trigger] per_query@[q])@.len() == n_items,
    ensures
        r.0@.len() == per_query@.len(),
        forall|q: int|
            0 <= q < per_query@.len() ==> #[trigger] r.0@[q] == all_counted(per_query@)[q][p as int],
        r.1 == is_counted(per_query@, p as int),
{
    let mut counts: Vec<u64> = Vec::new();
    let mut reached = false;
    for q in 0..per_query.len()
        invariant
            p < n_items,
            forall|q: int|
                0 <= q < per_query@.len() ==> (#[trigger] per_query@[q])@.len() == n_items,
            counts@.len() == q,
            forall|j: int|
                0 <= j < q ==> #[trigger] counts@[j] == all_counted(per_query@)[j][p as int],
            reached <==> exists|j: int| 0 <= j < q && (#[trigger] per_query@[j])@[p as int] is Some,
    {
        assert(per_query@[q as int]@.len() == n_items);
        match per_query[q][p] {
            Some(n) => {
                counts.push(n);
                reached = true;
                assert(per_query@[q as int]@[p as int] is Some);
            },
            None => {
                counts.push(0);
            },
        }
    }
    (counts, reached)
}

/// Scores that reward candidates reached from several pins rather than often
/// from one: `(sum of sqrt(visits))^2` per item, in units of `1 / VISIT`. A
/// single source keeps exactly its visits; the root of a product of two counts
/// is rounded down.
pub fn multi_hit_boost(per_query: &PerQueryVisits, n_items: usize) -> (scores: Vec<Option<u128>>)
    requires
        forall|q: int| 0 <= q < per_query@.len() ==> (#[trigger] per_query@[q])@.len() == n_items,
        scores_fit(all_counted(per_query@), n_items as int),
    ensures
        scores@.len() == n_items,
        forall|p: int|
            0 <= p < n_items ==> #[trigger] scores@[p] == (if is_counted(per_query@, p) {
                Some(boosted(all_counted(per_query@), p) as u128)
            } else {
                None
            }),
{
    let ghost all = all_counted(per_query@);
    let mut scores: Vec<Option<u128>> = Vec::new();
    for p in 0..n_items
        invariant
            all == all_counted(per_query@),
            scores_fit(all, n_items as int),
            forall|q: int|
                0 <= q < per_query@.len() ==> (#[trigger] per_query@[q])@.len() == n_items,
            scores@.len() == p,
            forall|i: int|
                0 <= i < p ==> #[trigger] scores@[i] == (if is_counted(per_query@, i) {
                    Some(boosted(all, i) as u128)
                } else {
                    None
                }),
    {
        let (counts, reached) = counts_of(per_query, p, n_items);
        assert(boosted(all, p as int) <= u128::MAX);
        let score = boost(&counts, Ghost(all), Ghost(p as int));
        scores.push(
            if reached {
                Some(score)
            } else {
                None
            },
        );
    }
    scores
}

/// The boosted score of one item.
fn boost(counts: &Vec<u64>, Ghost(all): Ghost<Seq<Seq<nat>>>, Ghost(p): Ghost<int>) -> (score: u128)
    requires
        counts@.len() == all.len(),
        forall|q: int| 0 <= q < all.len() ==> #[trigger] counts@[q] == all[q][p],
        boosted(all, p) <= u128::MAX,
    ensures
        score == boosted(all, p),
{
    let n = counts.len();
    let mut visits: u128 = 0;
    let mut pairs: u128 = 0;
    proof {
        lemma_sums_grow(all, p, 0, 0, n as nat);
        let (v, w) = (visits_of(all, p, n as nat), VISIT as int);
        assert(v <= v * w) by (nonlinear_arith)
            requires
                v >= 0,
                w >= 1,
        ;
    }
    for r in 0..n
        invariant
            n == counts@.len() == all.len(),
            forall|q: int| 0 <= q < all.len() ==> #[trigger] counts@[q] == all[q][p],
            visits_of(all, p, n as nat) <= u128::MAX,
            2 * pair_roots(all, p, n as nat) <= u128::MAX,
            visits == visits_of(all, p, r as nat),
            pairs == pair_roots(all, p, r as nat),
    {
        let b = counts[r];
        proof {
            assert(counts@[r as int] == all[r as int][p]);
            lemma_sums_grow(all, p, r as int, (r + 1) as nat, n as nat);
        }
        visits = visits + b as u128;
        let mut with: u128 = 0;
        for q in 0..r
            invariant
                r < n,
                n == counts@.len() == all.len(),
                forall|q: int| 0 <= q < all.len() ==> #[trigger] counts@[q] == all[q][p],
                b == all[r as int][p],
                pairs + roots_with(all, p, r as int, r as nat) <= u128::MAX,
                with == roots_with(all, p, r as int, q as nat),
        {
            let a = counts[q];
            proof {
                assert(counts@[q as int] == all[q as int][p]);
                lemma_sums_grow(all, p, r as int, (q + 1) as nat, r as nat);
                let (x, y) = (a as int, b as int);
                assert(0 <= x * y <= 0xffff_ffff_ffff_ffff * 0xffff_ffff_ffff_ffff)
                    by (nonlinear_arith)
                    requires
                        0 <= x <= 0xffff_ffff_ffff_ffff,
                        0 <= y <= 0xffff_ffff_ffff_ffff,
                ;
                lemma_root_of_pair(a as nat, b as nat);
            }
            if a > 0 && b > 0 {
                with = with + math::long_root(a as u128 * b as u128);
            }
        }
        pairs = pairs + with;
    }
    visits * VISIT + 2 * pairs
}

/// The boost is a boost: an item scores at least its visits from all pins.
pub proof fn lemma_boost_never_lowers(per_query: Seq<Seq<nat>>, p: int)
    ensures
        visits_of(per_query, p, per_query.len()) * VISIT <= boosted(per_query, p),
{
    lemma_sums_grow(per_query, p, 0, 0, per_query.len());
}

/// An item that only pin `q` reached keeps exactly its visits as its score.
pub proof fn lemma_single_source_keeps_its_score(per_query: Seq<Seq<nat>>, p: int, q: int)
    requires
        0 <= q < per_query.len(),
        forall|r: int| 0 <= r < per_query.len() && r != q ==> (#[trigger] per_query[r])[p] == 0,
    ensures
        boosted(per_query, p) == per_query[q][p] * VISIT,
{
    lemma_one_source(per_query, p, q, per_query.len());
}

proof fn lemma_one_source(per_query: Seq<Seq<nat>>, p: int, q: int, n: nat)
    requires
        0 <= q < per_query.len(),
        n <= per_query.len(),
        forall|r: int| 0 <= r < per_query.len() && r != q ==> (#[trigger] per_query[r])[p] == 0,
    ensures
        visits_of(per_query, p, n) == if q < n {
            per_query[q][p] as int
        } else {
            0
        },
        pair_roots(per_query, p, n) == 0,
    decreases n,
{
    if n > 0 {
        lemma_one_source(per_query, p, q, (n - 1) as nat);
        if n - 1 != q {
            assert(per_query[n - 1][p] == 0);
        }
        lemma_lone_roots(per_query, p, q, n - 1, (n - 1) as nat);
    }
}

proof fn lemma_lone_roots(per_query: Seq<Seq<nat>>, p: int, q: int, r: int, n: nat)
    requires
        0 <= q < per_query.len(),
        n <= r < per_query.len(),
        forall|r: int| 0 <= r < per_query.len() && r != q ==> (#[trigger] per_query[r])[p] == 0,
    ensures
        roots_with(per_query, p, r, n) == 0,
    decreases n,
{
    if n > 0 {
        lemma_lone_roots(per_query, p, q, r, (n - 1) as nat);
        if r != q {
            assert(per_query[r][p] == 0);
        } else {
            assert(per_query[n - 1][p] == 0);
        }
        lemma_root_of_pair(per_query[n - 1][p], per_query[r][p]);
    }
}

/// What the boost can come to: at most as many times the visits as there are
/// pins.
proof fn lemma_boost_bound(per_query: Seq<Seq<nat>>, p: int, n: nat)
    ensures
        0 <= visits_of(per_query, p, n),
        visits_of(per_query, p, n) * VISIT + 2 * pair_roots(per_query, p, n) <= n * (visits_of(
            per_query,
            p,
            n,
        ) * VISIT),
    decreases n,
{
    if n > 0 {
        let m = (n - 1) as int;
        lemma_boost_bound(per_query, p, (n - 1) as nat);
        lemma_roots_bound(per_query, p, m, m as nat);
        let (x, v, w) = (
            visits_of(per_query, p, (n - 1) as nat),
            per_query[n - 1][p] as int,
            VISIT as int,
        );
        assert((x + v) * w == x * w + v * w) by (nonlinear_arith);
        assert((m + 1) * (x * w + v * w) == m * (x * w) + m * (v * w) + x * w + v * w)
            by (nonlinear_arith);
    } else {
        assert(0 * VISIT == 0) by (nonlinear_arith);
    }
}

proof fn lemma_roots_bound(per_query: Seq<Seq<nat>>, p: int, r: int, n: nat)
    ensures
        2 * roots_with(per_query, p, r, n) <= visits_of(per_query, p, n) * VISIT + n * (
        per_query[r][p] * VISIT),
    decreases n,
{
    let (b, w) = (per_query[r][p] as int, VISIT as int);
    if n > 0 {
        lemma_roots_bound(per_query, p, r, (n - 1) as nat);
        let a = per_query[n - 1][p];
        lemma_root_of_pair(a, per_query[r][p]);
        let (x, y, m) = (visits_of(per_query, p, (n - 1) as nat), a as int, (n - 1) as int);
        assert((x + y) * w == x * w + y * w && (y + b) * w == y * w + b * w) by (nonlinear_arith);
        assert((m + 1) * (b * w) == m * (b * w) + b * w) by (nonlinear_arith);
    } else {
        assert(0 * w == 0 && 0 * (b * w) == 0) by (nonlinear_arith);
    }
}

pub open spec fn step_total(steps: Seq<usize>, n: nat) -> int
    decreases n,
{
    if n == 0 {
        0
    } else {
        step_total(steps, (n - 1) as nat) + steps[n - 1]
    }
}

proof fn lemma_visits_push(before: Seq<Seq<nat>>, more: Seq<nat>, p: int, n: nat)
    requires
        n <= before.len(),
    ensures
        visits_of(before.push(more), p, n) == visits_of(before, p, n),
    decreases n,
{
    if n > 0 {
        lemma_visits_push(before, more, p, (n - 1) as nat);
    }
}

/// So a budget that fits gives scores that fit.
proof fn lemma_budget_fits(per_query: Seq<Seq<nat>>, n_items: int, total: int)
    requires
        budget_fits(per_query.len() as int, total),
        visits_within(
            per_query,
            n_items,
            per_query.len(),
            per_query.len() * most_steps(total),
        ),
    ensures
        scores_fit(per_query, n_items),
{
    let n = per_query.len();
    assert forall|p: int| 0 <= p < n_items implies #[trigger] boosted(per_query, p) <= u128::MAX by {
        lemma_boost_bound(per_query, p, n);
        let v = visits_of(per_query, p, n);
        let k = n as int;
        let most = k * most_steps(total);
        assert(v <= most);
        assert(k * (v * VISIT) <= (k * most) * VISIT) by (nonlinear_arith)
            requires
                0 <= v <= most,
                k >= 0,
                VISIT >= 0,
        ;
    }
}

/// All pins together get no more than each could.
proof fn lemma_step_total(
    g: &Bipartite,
    query: Seq<(u32, Double)>,
    scale: Seq<Double>,
    total: int,
    steps: Seq<usize>,
    n: nat,
)
    requires
        n <= query.len(),
        total >= 0,
        scale_fits(g, query, scale),
        is_allotment(g, query, scale, total, steps),
    ensures
        step_total(steps, n) <= n * most_steps(total),
    decreases n,
{
    let m = most_steps(total);
    if n > 0 {
        lemma_step_total(g, query, scale, total, steps, (n - 1) as nat);
        assert(steps[n - 1] == allotted(g, query, scale, total, n - 1));
        lemma_allotted(g, query, scale, total, n - 1);
        assert(n * m == (n - 1) * m + m) by (nonlinear_arith);
    } else {
        assert(0 * m == 0) by (nonlinear_arith);
    }
}

/// The steps and the scores of `k` pins that share a budget have room, whatever
/// the walks do.
pub open spec fn budget_fits(k: int, total: int) -> bool {
    &&& k * most_steps(total) <= u64::MAX
    &&& k * (k * most_steps(total)) < 0x100_0000_0000_0000_0000
}

/// What a query gives.
#[derive(Debug)]
pub struct PixieResult {
    /// The score of each item that was reached.
    pub scores: Vec<Option<u128>>,
    /// Steps taken over all pins; early stopping makes them fewer than the
    /// budget.
    pub steps_taken: u64,
}

/// Shares the budget among the pins, walks from each until it is used up or the
/// walk has seen enough, and boosts what several pins reached.
pub fn pixie_walk(
    rng: &mut ChaCha8Rng,
    g: &Bipartite,
    query: &[(u32, Double)],
    scale: &Vec<Double>,
    total_steps: usize,
    alpha: u64,
    early_stop: EarlyStop,
) -> (r: PixieResult)
    requires
        g.well_formed(),
        pins_fit(g, query@),
        scale_fits(g, query@, scale@),
        budget_fits(query@.len() as int, total_steps as int),
    ensures
        exists|steps: Seq<usize>|
            {
                &&& is_allotment(g, query@, scale@, total_steps as int, steps)
                &&& is_result(
                    g,
                    #[trigger] pin_walks(
                        g,
                        query@,
                        steps,
                        alpha,
                        early_stop,
                        rng::words(*old(rng)),
                        query@.len(),
                    ),
                    &r,
                    rng::words(*final(rng)),
                )
                &&& are_strolls(
                    g,
                    query@,
                    alpha,
                    early_stop,
                    steps,
                    pin_walks(
                        g,
                        query@,
                        steps,
                        alpha,
                        early_stop,
                        rng::words(*old(rng)),
                        query@.len(),
                    ).0,
                    query@.len(),
                )
                &&& early_stop is None ==> r.steps_taken == step_total(steps, query@.len())
            },
{
    let steps = allocate_steps(g, query, scale, total_steps);
    let (lists, steps_taken) = walk_pins(rng, g, query, &steps, alpha, early_stop);
    let per_query = tell_all(&lists);
    proof {
        assert(is_allotment(g, query@, scale@, total_steps as int, steps@));
        lemma_step_total(g, query@, scale@, total_steps as int, steps@, query@.len());
        lemma_budget_fits(all_nats(lists@), g.n_items as int, total_steps as int);
        let walks = all_nats(lists@);
        assert forall|p: int| 0 <= p < g.n_items implies (#[trigger] is_counted(per_query@, p)
            <==> is_reached(walks, p)) by {
            lemma_reached(per_query@, walks, p);
        }
    }
    let scores = multi_hit_boost(&per_query, g.n_items);
    let r = PixieResult { scores, steps_taken: steps_taken as u64 };
    proof {
        let walks = pin_walks(
            g,
            query@,
            steps@,
            alpha,
            early_stop,
            rng::words(*old(rng)),
            query@.len(),
        );
        assert forall|p: int| 0 <= p < g.n_items implies #[trigger] r.scores@[p] == (
        if is_reached(walks.0, p) {
            Some(boosted(walks.0, p) as u128)
        } else {
            None
        }) by {
            assert(is_counted(per_query@, p) <==> is_reached(all_nats(lists@), p));
        }
    }
    r
}

/// The steps of every pin.
pub open spec fn is_allotment(
    g: &Bipartite,
    query: Seq<(u32, Double)>,
    scale: Seq<Double>,
    total: int,
    steps: Seq<usize>,
) -> bool {
    &&& steps.len() == query.len()
    &&& forall|q: int|
        0 <= q < query.len() ==> #[trigger] steps[q] == allotted(g, query, scale, total, q)
}

/// Some walk came by item `p`.
pub open spec fn is_reached(walks: Seq<Seq<nat>>, p: int) -> bool {
    exists|q: int| 0 <= q < walks.len() && (#[trigger] walks[q])[p] > 0
}

proof fn lemma_reached(lists: Seq<Visits>, walks: Seq<Seq<nat>>, p: int)
    requires
        lists.len() == walks.len(),
        forall|q: int| 0 <= q < lists.len() ==> (#[trigger] lists[q])@ == told(walks[q]),
        forall|q: int| 0 <= q < walks.len() ==> 0 <= p < (#[trigger] walks[q]).len(),
    ensures
        is_counted(lists, p) <==> is_reached(walks, p),
{
    if is_counted(lists, p) {
        let q = choose|q: int| 0 <= q < lists.len() && (#[trigger] lists[q])@[p] is Some;
        assert(walks[q].len() > p);
        assert(walks[q][p] > 0);
    }
    if is_reached(walks, p) {
        let q = choose|q: int| 0 <= q < walks.len() && (#[trigger] walks[q])[p] > 0;
        assert(lists[q]@ == told(walks[q]));
        assert(lists[q]@[p] is Some);
    }
}

/// What the walks of the pins come to.
pub open spec fn is_result(
    g: &Bipartite,
    walks: (Seq<Seq<nat>>, nat, Map<nat, u32>),
    r: &PixieResult,
    rest: Map<nat, u32>,
) -> bool {
    &&& r.scores@.len() == g.n_items
    &&& forall|p: int|
        0 <= p < g.n_items ==> #[trigger] r.scores@[p] == (if is_reached(walks.0, p) {
            Some(boosted(walks.0, p) as u128)
        } else {
            None
        })
    &&& r.steps_taken == walks.1
    &&& rest == walks.2
}

/// A pin that asks for more gets no fewer steps.
pub proof fn lemma_larger_claims_get_more(
    g: &Bipartite,
    query: Seq<(u32, Double)>,
    scale: Seq<Double>,
    total: int,
    q: int,
    r: int,
)
    requires
        0 <= total,
        0 <= claim(g, query, scale, q) <= claim(g, query, scale, r),
        claims(g, query, scale, query.len()) >= 0,
    ensures
        allotted(g, query, scale, total, q) <= allotted(g, query, scale, total, r),
{
    let all = claims(g, query, scale, query.len());
    let u = double::one();
    double::lemma_one();
    if all > 0 {
        let (a, b) = (claim(g, query, scale, q), claim(g, query, scale, r));
        assert(0 <= a * u && (a * u) * all <= (b * u) * all) by (nonlinear_arith)
            requires
                0 <= a <= b,
                u > 0,
                all > 0,
        ;
        double::lemma_rounded_monotone(a * u, all, b * u, all);
        double::lemma_of_monotone(0, total);
        double::lemma_of_exact(0);
        let t = double::of(total);
        let (x, y) = (double::quotient(a, all), double::quotient(b, all));
        assert(0 <= x * t && (x * t) * u <= (y * t) * u) by (nonlinear_arith)
            requires
                0 <= x <= y,
                t >= 0,
                u > 0,
        ;
        double::lemma_rounded_monotone(x * t, u, y * t, u);
        let (c, d) = (double::product(x, t), double::product(y, t));
        vstd::arithmetic::div_mod::lemma_div_is_ordered(c, d, u);
        vstd::arithmetic::div_mod::lemma_div_pos_is_pos(c, u);
    }
}

/// A single pin that asks for anything gets the whole budget.
pub proof fn lemma_single_pin_gets_all(
    g: &Bipartite,
    query: Seq<(u32, Double)>,
    scale: Seq<Double>,
    total: int,
)
    requires
        query.len() == 1,
        1 <= total <= 0x20_0000_0000_0000,
        claim(g, query, scale, 0) > 0,
        double::rounded(claim(g, query, scale, 0), 1) == claim(g, query, scale, 0),
    ensures
        allotted(g, query, scale, total, 0) == total,
{
    let c = claim(g, query, scale, 0);
    let u = double::one();
    double::lemma_one();
    reveal_with_fuel(claims, 2);
    assert(claims(g, query, scale, 1) == c);
    // c / c is one.
    double::lemma_rounded_exact(1, 1074, c);
    assert(c * u == (1 * u) * c) by (nonlinear_arith);
    assert(double::quotient(c, c) == u);
    double::lemma_of_exact(total);
    double::lemma_rounded_exact(total, 1074, u);
    assert(u * (total * u) == (total * u) * u) by (nonlinear_arith);
    assert(double::product(u, double::of(total)) == total * u);
    vstd::arithmetic::div_mod::lemma_div_multiples_vanish(total, u);
    assert(total * u == u * total) by (nonlinear_arith);
}

/// Pins that agree count more than one that has all their visits: `n` pins with `v`
/// visits each score as `n * n * v` visits.
pub proof fn lemma_agreeing_pins_boost(per_query: Seq<Seq<nat>>, p: int, v: nat)
    requires
        forall|q: int| 0 <= q < per_query.len() ==> (#[trigger] per_query[q])[p] == v,
    ensures
        boosted(per_query, p) == per_query.len() * per_query.len() * v * VISIT,
{
    let n = per_query.len();
    lemma_agreeing_sums(per_query, p, v, n);
    let w = v * VISIT;
    assert(n * v * VISIT + n * (n - 1) * w == n * n * v * VISIT) by (nonlinear_arith)
        requires
            w == v * VISIT,
    ;
}

proof fn lemma_agreeing_sums(per_query: Seq<Seq<nat>>, p: int, v: nat, n: nat)
    requires
        n <= per_query.len(),
        forall|q: int| 0 <= q < per_query.len() ==> (#[trigger] per_query[q])[p] == v,
    ensures
        visits_of(per_query, p, n) == n * v,
        2 * pair_roots(per_query, p, n) == n * (n - 1) * (v * VISIT),
    decreases n,
{
    let w = v * VISIT;
    if n == 0 {
        assert(0 * v == 0 && 0 * (0 - 1) * w == 0) by (nonlinear_arith);
    } else {
        let m = (n - 1) as nat;
        lemma_agreeing_sums(per_query, p, v, m);
        lemma_agreeing_roots(per_query, p, v, n - 1, m);
        assert(per_query[n - 1][p] == v);
        assert(m * v + v == n * v) by (nonlinear_arith)
            requires
                m == n - 1,
        ;
        assert(m * (m - 1) * w + 2 * (m * w) == n * (n - 1) * w) by (nonlinear_arith)
            requires
                m == n - 1,
        ;
    }
}

proof fn lemma_agreeing_roots(per_query: Seq<Seq<nat>>, p: int, v: nat, r: int, n: nat)
    requires
        n <= r < per_query.len(),
        forall|q: int| 0 <= q < per_query.len() ==> (#[trigger] per_query[q])[p] == v,
    ensures
        roots_with(per_query, p, r, n) == n * (v * VISIT),
    decreases n,
{
    let w = v * VISIT;
    if n == 0 {
        assert(0 * w == 0) by (nonlinear_arith);
    } else {
        lemma_agreeing_roots(per_query, p, v, r, (n - 1) as nat);
        assert(per_query[n - 1][p] == v && per_query[r][p] == v);
        let x = (v * v) * VISIT * VISIT;
        assert(x == w * w && w >= 0) by (nonlinear_arith)
            requires
                x == (v * v) * VISIT * VISIT,
                w == v * VISIT,
                v >= 0,
        ;
        assert(w * w <= x && x < (w + 1) * (w + 1)) by (nonlinear_arith)
            requires
                x == w * w,
                w >= 0,
        ;
        math::lemma_root(x, w);
        assert((n - 1) * w + w == n * w) by (nonlinear_arith);
    }
}

/// A step counts the item that it goes to, and stays there unless it goes back.
pub proof fn lemma_step_counts_where_it_goes(
    g: &Bipartite,
    query: u32,
    alpha: u64,
    early: EarlyStop,
    w: Stroll,
)
    ensures
        ({
            let next = stepped(g, query, alpha, early, w);
            &&& next.taken == w.taken + 1
            &&& alpha == 0 ==> next.visits == w.visits.update(
                next.at as int,
                w.visits[next.at as int] + 1,
            ) || (next.visits == w.visits && next.at == query)
            &&& alpha >= 9_007_199_254_740_992 ==> next.at == query
            &&& next.at == query || next.visits == w.visits.update(
                next.at as int,
                w.visits[next.at as int] + 1,
            )
        }),
{
    let users = g.item_adj@[w.at as int]@;
    let (x, used) = rng::range_draw(w.rest, 0, users.len() as u64);
    let mid = rng::skip_words(w.rest, used);
    let items = g.user_adj@[users[x as int] as int]@;
    let (y, more) = rng::range_draw(mid, 0, items.len() as u64);
    let coin = rng::skip_words(mid, more);
    assert(coin[0] <= 0xffff_ffff && coin[1] <= 0xffff_ffff);
}

} // verus!
