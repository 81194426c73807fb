//! Recommendation lists: how they are cut from scores, and what they are worth.
//!
//! The baseline is the list of the most popular items, the same for everybody.
//! A list is measured against what was held out, against the baseline, and
//! against the lists of other users.

use crate::social::bipartite;
use crate::social::bipartite::Bipartite;
use crate::sorting;
use vstd::prelude::*;

verus! {

/// Item `a` comes before item `b`: its score is higher, or as high and its
/// number smaller.
pub open spec fn ahead(scores: Seq<u128>, a: int, b: int) -> bool {
    scores[a] > scores[b] || (scores[a] == scores[b] && a < b)
}

/// The first `k` of those items that `fit`, best first.
pub open spec fn is_top(
    scores: Seq<u128>,
    fits: spec_fn(int) -> bool,
    k: int,
    r: Seq<u32>,
) -> bool {
    &&& r.len() <= k
    &&& forall|i: int| 0 <= i < r.len() ==> #[trigger] r[i] < scores.len() && fits(r[i] as int)
    &&& forall|i: int, j: int|
        0 <= i < j < r.len() ==> ahead(scores, #[trigger] r[i] as int, #[trigger] r[j] as int)
    &&& forall|x: int|
        #![trigger fits(x)]
        0 <= x < scores.len() && fits(x) && !r.contains(x as u32) ==> r.len() == k && forall|i: int|
            0 <= i < k ==> ahead(scores, #[trigger] r[i] as int, x)
}

/// An item that was scored and is not excluded.
pub open spec fn is_fresh(scores: Seq<Option<u128>>, exclude: Seq<u32>) -> spec_fn(int) -> bool {
    |i: int| scores[i] is Some && !exclude.contains(i as u32)
}

/// What the items that were scored are worth.
pub open spec fn worth(scores: Seq<Option<u128>>) -> Seq<u128> {
    Seq::new(
        scores.len(),
        |i: int|
            match scores[i] {
                Some(s) => s,
                None => 0,
            },
    )
}

pub open spec fn is_any() -> spec_fn(int) -> bool {
    |i: int| true
}

/// An item with its score; the best come first.
#[derive(Clone, Copy, Debug)]
struct Scored {
    score: u128,
    item: u32,
}

impl sorting::Keyed for Scored {
    closed spec fn key(&self) -> int {
        self.item - self.score * 0x1_0000_0000
    }

    proof fn lemma_key_injective(a: Scored, b: Scored) {
    }

    fn at_most(&self, other: &Scored) -> (b: bool) {
        self.score > other.score || (self.score == other.score && self.item <= other.item)
    }
}

/// The scored items of a list.
spec fn tagged(scores: Seq<u128>, items: Seq<u32>) -> Seq<Scored> {
    Seq::new(items.len(), |i: int| Scored { score: scores[items[i] as int], item: items[i] })
}

/// The best of a list of items that holds those that fit, each once.
fn cut(scores: &Vec<u128>, items: &Vec<u32>, k: usize, Ghost(fits): Ghost<spec_fn(int) -> bool>) -> (r: Vec<
    u32,
>)
    requires
        scores@.len() <= u32::MAX,
        sorting::is_strict(items@),
        forall|i: int|
            0 <= i < items@.len() ==> #[trigger] items@[i] < scores@.len() && fits(items@[i] as int),
        forall|x: int|
            #![trigger fits(x)]
            0 <= x < scores@.len() && fits(x) ==> items@.contains(x as u32),
    ensures
        is_top(scores@, fits, k as int, r@),
{
    let mut all: Vec<Scored> = Vec::new();
    for i in 0..items.len()
        invariant
            forall|i: int| 0 <= i < items@.len() ==> #[trigger] items@[i] < scores@.len(),
            all@ == tagged(scores@, items@.take(i as int)),
    {
        assert(items@[i as int] < scores@.len());
        all.push(Scored { score: scores[items[i] as usize], item: items[i] });
        assert(all@ =~= tagged(scores@, items@.take(i + 1)));
    }
    assert(items@.take(items@.len() as int) =~= items@);
    let best = sorting::sorted_distinct(&all);
    let mut r: Vec<u32> = Vec::new();
    let mut i: usize = 0;
    while i < best.len() && i < k
        invariant
            i <= best@.len(),
            i <= k,
            r@.len() == i,
            forall|j: int| 0 <= j < i ==> #[trigger] r@[j] == best@[j].item,
        decreases best@.len() - i,
    {
        r.push(best[i].item);
        i += 1;
    }
    proof {
        assert forall|j: int| 0 <= j < best@.len() implies (#[trigger] best@[j]).item < scores@.len()
            && fits(best@[j].item as int) && best@[j].score == scores@[best@[j].item as int] by {
            assert(best@.contains(best@[j]));
            let q = choose|q: int| 0 <= q < all@.len() && all@[q] == best@[j];
            assert(items@[q] < scores@.len());
        }
        assert forall|a: int, b: int| 0 <= a < b < best@.len() implies ahead(
            scores@,
            (#[trigger] best@[a]).item as int,
            (#[trigger] best@[b]).item as int,
        ) by {
            let (p, q) = (best@[a], best@[b]);
            assert(sorting::Keyed::key(&p) < sorting::Keyed::key(&q));
        }
        assert forall|x: int|
            #![trigger fits(x)]
            0 <= x < scores@.len() && fits(x) && !r@.contains(x as u32) implies r@.len() == k
            && forall|i: int| 0 <= i < k ==> ahead(scores@, #[trigger] r@[i] as int, x) by {
            let q = choose|q: int| 0 <= q < items@.len() && items@[q] == x as u32;
            assert(all@.contains(all@[q]));
            assert(best@.contains(all@[q]));
            let b = choose|b: int| 0 <= b < best@.len() && best@[b] == all@[q];
            if b < r@.len() {
                assert(r@[b] == x as u32);
            }
        }
    }
    r
}

/// The top `k` by score, without the items that are excluded: recommending
/// what someone has is worth nothing. Items without a score do not count.
pub fn topk(scores: &Vec<Option<u128>>, exclude: &[u32], k: usize) -> (r: Vec<u32>)
    requires
        scores@.len() <= u32::MAX,
    ensures
        is_top(worth(scores@), is_fresh(scores@, exclude@), k as int, r@),
{
    let mut items: Vec<u32> = Vec::new();
    let mut values: Vec<u128> = Vec::new();
    let ghost fits = is_fresh(scores@, exclude@);
    for i in 0..scores.len()
        invariant
            scores@.len() <= u32::MAX,
            fits == is_fresh(scores@, exclude@),
            values@ == worth(scores@).take(i as int),
            sorting::is_strict(items@),
            forall|j: int|
                0 <= j < items@.len() ==> #[trigger] items@[j] < i && fits(items@[j] as int),
            forall|x: int|
                #![trigger fits(x)]
                0 <= x < i && fits(x) ==> items@.contains(x as u32),
    {
        let ghost before = items@;
        values.push(
            match scores[i] {
                Some(s) => s,
                None => 0,
            },
        );
        assert(values@ =~= worth(scores@).take(i + 1));
        if scores[i].is_some() && !in_list(exclude, i as u32) {
            items.push(i as u32);
            proof {
                assert(items@[before.len() as int] == i as u32);
            }
        }
        assert forall|x: int| #![trigger fits(x)] 0 <= x < i + 1 && fits(x) implies items@.contains(
            x as u32,
        ) by {
            if x < i {
                let j = choose|j: int| 0 <= j < before.len() && before[j] == x as u32;
                assert(items@[j] == x as u32);
            }
        }
    }
    assert(worth(scores@).take(scores@.len() as int) =~= worth(scores@));
    cut(&values, &items, k, Ghost(fits))
}

/// Whether a list holds an item.
fn in_list(list: &[u32], x: u32) -> (b: bool)
    ensures
        b == list@.contains(x),
{
    for i in 0..list.len()
        invariant
            forall|j: int| 0 <= j < i ==> #[trigger] list@[j] != x,
    {
        if list[i] == x {
            return true;
        }
    }
    false
}

/// Counts as scores.
pub open spec fn widened(visits: Seq<Option<u64>>) -> Seq<Option<u128>> {
    Seq::new(
        visits.len(),
        |i: int|
            match visits[i] {
                Some(n) => Some(n as u128),
                None => None,
            },
    )
}

/// The top `k` by visits, without the items that are excluded.
pub fn topk_from_visits(visits: &Vec<Option<u64>>, exclude: &[u32], k: usize) -> (r: Vec<u32>)
    requires
        visits@.len() <= u32::MAX,
    ensures
        is_top(worth(widened(visits@)), is_fresh(widened(visits@), exclude@), k as int, r@),
{
    let mut scores: Vec<Option<u128>> = Vec::new();
    for i in 0..visits.len()
        invariant
            scores@.len() == i,
            forall|j: int| 0 <= j < i ==> #[trigger] scores@[j] == widened(visits@)[j],
    {
        scores.push(
            match visits[i] {
                Some(n) => Some(n as u128),
                None => None,
            },
        );
    }
    assert(scores@ =~= widened(visits@));
    topk(&scores, exclude, k)
}

/// How many users each item has.
pub open spec fn popularity(g: &Bipartite) -> Seq<u128> {
    Seq::new(g.n_items as nat, |i: int| g.item_adj@[i]@.len() as u128)
}

/// The baseline: the items with the most users, the same list for everybody.
pub fn popularity_topk(g: &Bipartite, k: usize) -> (r: Vec<u32>)
    requires
        g.well_formed(),
    ensures
        is_top(popularity(g), is_any(), k as int, r@),
{
    let mut scores: Vec<u128> = Vec::new();
    let mut items: Vec<u32> = Vec::new();
    for i in 0..g.n_items
        invariant
            g.well_formed(),
            scores@.len() == i,
            items@ == bipartite::numbered(i as nat),
            forall|j: int| 0 <= j < i ==> #[trigger] scores@[j] == g.item_adj@[j]@.len() as u128,
    {
        scores.push(g.item_degree(i as u32) as u128);
        items.push(i as u32);
        assert(items@ =~= bipartite::numbered((i + 1) as nat));
    }
    proof {
        assert(scores@ =~= popularity(g));
        assert forall|x: int| #![trigger is_any()(x)] 0 <= x < scores@.len() && is_any()(x)
            implies items@.contains(
            x as u32,
        ) by {
            assert(items@[x] == x as u32);
        }
    }
    cut(&scores, &items, k, Ghost(is_any()))
}

/// How many of the first `n` entries of `a` are in `b`.
pub open spec fn shared(a: Seq<u32>, b: Seq<u32>, n: nat) -> nat
    decreases n,
{
    if n == 0 {
        0
    } else {
        shared(a, b, (n - 1) as nat) + if b.contains(a[n - 1]) {
            1nat
        } else {
            0
        }
    }
}

/// How many entries of one list are in another, and how many there are.
pub fn overlap(a: &[u32], b: &[u32]) -> (r: (usize, usize))
    ensures
        r.0 == shared(a@, b@, a@.len()),
        r.1 == a@.len(),
        r.0 <= r.1,
{
    let mut n: usize = 0;
    for i in 0..a.len()
        invariant
            n == shared(a@, b@, i as nat),
            n <= i,
    {
        if in_list(b, a[i]) {
            n += 1;
        }
    }
    (n, a.len())
}

/// The longest list that can be compared with another.
pub const MAX_LIST: usize = 0x7fff_ffff;

/// Recommendations of users: a list for each.
pub type Recs = Vec<(u32, Vec<u32>)>;

/// A user with something held out.
pub open spec fn is_judged(g: &Bipartite, rec: (u32, Vec<u32>)) -> bool {
    bipartite::held_items(g.holdout@, rec.0, g.holdout@.len()).len() > 0
}

/// A user for whom something held out is on the list.
pub open spec fn is_hit(g: &Bipartite, rec: (u32, Vec<u32>)) -> bool {
    shared(
        rec.1@,
        bipartite::held_items(g.holdout@, rec.0, g.holdout@.len()),
        rec.1@.len(),
    ) > 0
}

/// The hits among the first `n` users, and the users that are judged.
pub open spec fn hit_counts(g: &Bipartite, recs: Seq<(u32, Vec<u32>)>, n: nat) -> (nat, nat)
    decreases n,
{
    if n == 0 {
        (0, 0)
    } else {
        let (hits, total) = hit_counts(g, recs, (n - 1) as nat);
        if !is_judged(g, recs[n - 1]) {
            (hits, total)
        } else if is_hit(g, recs[n - 1]) {
            (hits + 1, total + 1)
        } else {
            (hits, total + 1)
        }
    }
}

/// For how many users a held-out item is on their list, and how many have one.
pub fn hit_rate(g: &Bipartite, recs: &Recs) -> (r: (usize, usize))
    ensures
        (r.0 as nat, r.1 as nat) == hit_counts(g, recs@, recs@.len()),
        r.0 <= r.1 <= recs@.len(),
{
    let mut hits: usize = 0;
    let mut total: usize = 0;
    for i in 0..recs.len()
        invariant
            (hits as nat, total as nat) == hit_counts(g, recs@, i as nat),
            hits <= total <= i,
    {
        let held = g.holdout_for(recs[i].0);
        if held.len() > 0 {
            total += 1;
            let (found, of) = overlap(&recs[i].1, &held);
            if found > 0 {
                hits += 1;
            }
        }
    }
    (hits, total)
}

/// Of each list that is not empty, how much of it is popular.
pub open spec fn popular_parts(recs: Seq<(u32, Vec<u32>)>, pop: Seq<u32>, n: nat) -> Seq<
    (usize, usize),
>
    decreases n,
{
    if n == 0 {
        Seq::empty()
    } else {
        let before = popular_parts(recs, pop, (n - 1) as nat);
        let list = recs[n - 1].1@;
        if list.len() == 0 {
            before
        } else {
            before.push((shared(list, pop, list.len()) as usize, list.len() as usize))
        }
    }
}

/// How much of each list is on the list of popular items: a part and a whole
/// for each list that is not empty. All of it means a list of bestsellers.
pub fn popularity_overlap(recs: &Recs, pop: &[u32]) -> (parts: Vec<(usize, usize)>)
    ensures
        parts@ == popular_parts(recs@, pop@, recs@.len()),
{
    let mut parts: Vec<(usize, usize)> = Vec::new();
    for i in 0..recs.len()
        invariant
            parts@ == popular_parts(recs@, pop@, i as nat),
    {
        if recs[i].1.len() > 0 {
            parts.push(overlap(&recs[i].1, pop));
        }
    }
    parts
}

/// Two lists as sets: how many entries they share, and how many they have
/// together.
pub open spec fn likeness(a: Seq<u32>, b: Seq<u32>) -> (nat, nat) {
    (a.to_set().intersect(b.to_set()).len(), a.to_set().union(b.to_set()).len())
}

/// The likeness of list `i` to those before place `j`, from `i + 1` on.
pub open spec fn likenesses_from(recs: Seq<(u32, Vec<u32>)>, i: int, j: int) -> Seq<(nat, nat)>
    decreases j - i,
{
    if j <= i + 1 {
        Seq::empty()
    } else {
        let before = likenesses_from(recs, i, j - 1);
        let pair = likeness(recs[i].1@, recs[j - 1].1@);
        if pair.1 == 0 {
            before
        } else {
            before.push(pair)
        }
    }
}

/// The likenesses of the first `n` of `m` lists to those behind them.
pub open spec fn likenesses(recs: Seq<(u32, Vec<u32>)>, n: nat, m: int) -> Seq<(nat, nat)>
    decreases n,
{
    if n == 0 {
        Seq::empty()
    } else {
        likenesses(recs, (n - 1) as nat, m) + likenesses_from(recs, n - 1, m)
    }
}

pub open spec fn nat_pairs(s: Seq<(usize, usize)>) -> Seq<(nat, nat)> {
    Seq::new(s.len(), |i: int| (s[i].0 as nat, s[i].1 as nat))
}

/// Sorted lists hold as many numbers as they are long.
proof fn lemma_strict_set(s: Seq<u32>)
    requires
        sorting::is_strict(s),
    ensures
        s.no_duplicates(),
        s.to_set().len() == s.len(),
{
    assert forall|i: int, j: int| 0 <= i < s.len() && 0 <= j < s.len() && i != j
        implies s[i] != s[j] by {
        if i < j {
            assert(sorting::Keyed::key(&s[i]) < sorting::Keyed::key(&s[j]));
        } else {
            assert(sorting::Keyed::key(&s[j]) < sorting::Keyed::key(&s[i]));
        }
    }
    s.unique_seq_to_set();
}

/// What is shared is counted over a list without repeats.
pub proof fn lemma_shared(a: Seq<u32>, b: Seq<u32>, n: nat)
    requires
        a.no_duplicates(),
        n <= a.len(),
    ensures
        shared(a, b, n) == a.take(n as int).to_set().intersect(b.to_set()).len(),
        shared(a, b, n) <= n,
    decreases n,
{
    let now = a.take(n as int).to_set().intersect(b.to_set());
    if n == 0 {
        assert(now =~= Set::empty());
    } else {
        lemma_shared(a, b, (n - 1) as nat);
        let x = a[n - 1];
        let t0 = a.take(n - 1);
        let t1 = a.take(n as int);
        let before = t0.to_set().intersect(b.to_set());
        assert(t1 =~= t0.push(x));
        assert(!t0.contains(x)) by {
            if t0.contains(x) {
                let j = choose|j: int| 0 <= j < t0.len() && t0[j] == x;
                assert(a[j] == a[n - 1]);
            }
        }
        assert forall|y: u32| #[trigger] t1.to_set().contains(y) <==> t0.to_set().contains(y) || y == x by {
            if t0.contains(y) {
                let j = choose|j: int| 0 <= j < t0.len() && t0[j] == y;
                assert(t1[j] == y);
            }
            assert(t1[n - 1] == x);
            if t1.contains(y) {
                let j = choose|j: int| 0 <= j < t1.len() && t1[j] == y;
                if j < n - 1 {
                    assert(t0[j] == y);
                }
            }
        }
        if b.contains(x) {
            assert(b.to_set().contains(x));
            assert(now =~= before.insert(x));
        } else {
            assert(!b.to_set().contains(x));
            assert(now =~= before);
        }
    }
}

fn compare_lists(a: &Vec<u32>, b: &Vec<u32>) -> (r: (usize, usize))
    requires
        a@.len() + b@.len() <= usize::MAX,
    ensures
        (r.0 as nat, r.1 as nat) == likeness(a@, b@),
{
    let x = sorting::sorted_distinct(a);
    let y = sorting::sorted_distinct(b);
    let (inter, of) = overlap(&x, &y);
    proof {
        lemma_strict_set(x@);
        lemma_strict_set(y@);
        lemma_shared(x@, y@, x@.len());
        assert(x@.take(x@.len() as int) =~= x@);
        assert(x@.to_set() =~= a@.to_set()) by {
            assert forall|v: u32| x@.to_set().contains(v) <==> a@.to_set().contains(v) by {
                assert(x@.contains(v) <==> a@.contains(v));
            }
        }
        assert(y@.to_set() =~= b@.to_set()) by {
            assert forall|v: u32| y@.to_set().contains(v) <==> b@.to_set().contains(v) by {
                assert(y@.contains(v) <==> b@.contains(v));
            }
        }
        vstd::set_lib::lemma_set_intersect_union_lens(x@.to_set(), y@.to_set());
    }
    (inter, x.len() + y.len() - inter)
}

/// How alike the first `sample` lists are, pair by pair: shared entries and
/// entries in all. Nothing shared anywhere is full personalization; everything
/// shared, one list for everybody.
pub fn personalization(recs: &Recs, sample: usize) -> (pairs: Vec<(usize, usize)>)
    requires
        forall|i: int| 0 <= i < recs@.len() ==> (#[trigger] recs@[i]).1@.len() <= MAX_LIST,
    ensures
        ({
            let m = if sample < recs@.len() {
                sample as int
            } else {
                recs@.len() as int
            };
            nat_pairs(pairs@) == likenesses(recs@, m as nat, m)
        }),
{
    let m = if sample < recs.len() {
        sample
    } else {
        recs.len()
    };
    let mut pairs: Vec<(usize, usize)> = Vec::new();
    assert(nat_pairs(pairs@) =~= Seq::empty());
    for i in 0..m
        invariant
            m <= recs@.len(),
            forall|i: int| 0 <= i < recs@.len() ==> (#[trigger] recs@[i]).1@.len() <= MAX_LIST,
            nat_pairs(pairs@) == likenesses(recs@, i as nat, m as int),
    {
        let ghost before = nat_pairs(pairs@);
        assert(before =~= before + likenesses_from(recs@, i as int, i + 1));
        for j in i + 1..m
            invariant
                i < m <= recs@.len(),
                forall|i: int| 0 <= i < recs@.len() ==> (#[trigger] recs@[i]).1@.len() <= MAX_LIST,
                nat_pairs(pairs@) == before + likenesses_from(recs@, i as int, j as int),
        {
            assert(recs@[i as int].1@.len() <= MAX_LIST && recs@[j as int].1@.len() <= MAX_LIST);
            let ghost pairs0 = pairs@;
            let pair = compare_lists(&recs[i].1, &recs[j].1);
            if pair.1 > 0 {
                pairs.push(pair);
                assert(nat_pairs(pairs@) =~= nat_pairs(pairs0).push(
                    (pair.0 as nat, pair.1 as nat),
                ));
            }
            assert(nat_pairs(pairs@) =~= before + likenesses_from(recs@, i as int, j + 1));
        }
    }
    pairs
}

} // verus!
