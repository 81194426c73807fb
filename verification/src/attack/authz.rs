//! Group membership as graph reachability: the recursive check, and the
//! flattened index that answers it by one set intersection.
//!
//! A user is in a group when they are a direct member of it or of one of its
//! sub-groups, at any depth:
//!
//! ```text
//!   U in G  <=>  MEMBER2GROUP(U) meets GROUP2GROUP(G)
//! ```

use crate::graph;
use crate::math;
use crate::rng;
use crate::sorting;
use rand_chacha::ChaCha8Rng;
use vstd::prelude::*;

verus! {

/// The relation tuples about group membership.
pub struct RelStore {
    /// Direct user members of each group, sorted.
    pub direct_users: Vec<Vec<u32>>,
    /// The sub-groups of each group: members of a child are members of it.
    pub children: Vec<Vec<u32>>,
    pub n_users: usize,
}

/// The lengths of the lists together.
pub open spec fn total_len(lists: Seq<Vec<u32>>) -> nat
    decreases lists.len(),
{
    if lists.len() == 0 {
        0
    } else {
        total_len(lists.drop_last()) + lists.last()@.len()
    }
}

proof fn lemma_total_len_take(lists: Seq<Vec<u32>>, i: int)
    requires
        0 <= i <= lists.len(),
    ensures
        total_len(lists.take(i)) <= total_len(lists),
    decreases lists.len(),
{
    if i < lists.len() {
        assert(lists.take(i) =~= lists.drop_last().take(i));
        lemma_total_len_take(lists.drop_last(), i);
    } else {
        assert(lists.take(i) =~= lists);
    }
}

fn sum_lens(lists: &Vec<Vec<u32>>) -> (n: usize)
    requires
        total_len(lists@) <= usize::MAX,
    ensures
        n == total_len(lists@),
{
    let mut n: usize = 0;
    for i in 0..lists.len()
        invariant
            total_len(lists@) <= usize::MAX,
            n == total_len(lists@.take(i as int)),
    {
        proof {
            assert(lists@.take(i + 1).drop_last() =~= lists@.take(i as int));
            lemma_total_len_take(lists@, i + 1);
        }
        n += lists[i].len();
    }
    assert(lists@.take(lists@.len() as int) =~= lists@);
    n
}

impl RelStore {
    /// Both lists cover the same groups, whose ids fit in 32 bits; sub-groups
    /// are groups, members are users, and member lists are sorted.
    pub open spec fn well_formed(&self) -> bool {
        &&& self.children@.len() == self.direct_users@.len()
        &&& self.children@.len() <= 0x1_0000_0000
        &&& 2 * self.children@.len() <= usize::MAX
        &&& forall|g: int, k: int|
            0 <= g < self.children@.len() && 0 <= k < self.children@[g]@.len()
                ==> #[trigger] self.children@[g]@[k] < self.children@.len()
        &&& forall|g: int, k: int|
            0 <= g < self.direct_users@.len() && 0 <= k < self.direct_users@[g]@.len()
                ==> #[trigger] self.direct_users@[g]@[k] < self.n_users
        &&& forall|g: int|
            0 <= g < self.direct_users@.len() ==> sorting::is_sorted(
                (#[trigger] self.direct_users@[g])@,
            )
    }

    /// `b` is a sub-group of `a`.
    pub open spec fn sub(&self) -> graph::Edges {
        |a: usize, b: usize| a < self.children@.len() && self.children@[a as int]@.contains(b as u32)
            && b <= u32::MAX
    }

    /// `user` is a direct member of `g`.
    pub open spec fn direct(&self, user: u32, g: usize) -> bool {
        g < self.direct_users@.len() && self.direct_users@[g as int]@.contains(user)
    }

    /// `user` is a member of `group`, directly or through sub-groups.
    pub open spec fn member(&self, user: u32, group: usize) -> bool {
        exists|g: usize| #[trigger] graph::reach(self.sub(), group, g) && self.direct(user, g)
    }

    pub fn n_groups(&self) -> (n: usize)
        ensures
            n == self.children@.len(),
    {
        self.children.len()
    }

    pub fn tuple_count(&self) -> (n: usize)
        requires
            total_len(self.direct_users@) + total_len(self.children@) <= usize::MAX,
        ensures
            n == total_len(self.direct_users@) + total_len(self.children@),
    {
        sum_lens(&self.direct_users) + sum_lens(&self.children)
    }

    /// The sub-group lists with plain indices.
    fn child_lists(&self) -> (adj: Vec<Vec<usize>>)
        requires
            self.well_formed(),
        ensures
            adj@.len() == self.children@.len(),
            graph::closed_lists(adj@),
            forall|a: usize, b: usize| #[trigger] graph::listed(adj@)(a, b) == self.sub()(a, b),
    {
        let mut adj: Vec<Vec<usize>> = Vec::new();
        for g in 0..self.children.len()
            invariant
                self.well_formed(),
                adj@.len() == g,
                forall|a: int|
                    0 <= a < g ==> (#[trigger] adj@[a])@.len() == self.children@[a]@.len(),
                forall|a: int, k: int|
                    0 <= a < g && 0 <= k < adj@[a]@.len() ==> #[trigger] adj@[a]@[k]
                        == self.children@[a]@[k],
        {
            let list = &self.children[g];
            let mut row: Vec<usize> = Vec::new();
            for k in 0..list.len()
                invariant
                    list@ == self.children@[g as int]@,
                    row@.len() == k,
                    forall|i: int| 0 <= i < k ==> #[trigger] row@[i] == list@[i],
            {
                row.push(list[k] as usize);
            }
            adj.push(row);
        }
        proof {
            assert forall|a: int, k: int| 0 <= a < adj@.len() && 0 <= k < adj@[a]@.len()
                implies #[trigger] adj@[a]@[k]
                < adj@.len() by {
                assert(self.children@[a]@[k] < self.children@.len());
            }
            assert forall|a: usize, b: usize| #[trigger]
                graph::listed(adj@)(a, b) == self.sub()(a, b) by {
                if graph::listed(adj@)(a, b) {
                    let k = choose|k: int| 0 <= k < adj@[a as int]@.len() && adj@[a as int]@[k] == b;
                    assert(adj@[a as int]@[k] == self.children@[a as int]@[k]);
                }
                if self.sub()(a, b) {
                    let c = self.children@[a as int]@;
                    let k = choose|k: int| 0 <= k < c.len() && c[k] == b as u32;
                    assert(adj@[a as int]@.len() == c.len());
                    assert(adj@[a as int]@[k] == b);
                }
            }
        }
        adj
    }
}

/// Whether a sorted list holds `x`, by halving.
fn holds(list: &Vec<u32>, x: u32) -> (found: bool)
    requires
        sorting::is_sorted(list@),
    ensures
        found == list@.contains(x),
{
    let mut lo: usize = 0;
    let mut hi = list.len();
    while lo < hi
        invariant
            lo <= hi <= list@.len(),
            sorting::is_sorted(list@),
            forall|i: int| 0 <= i < lo ==> #[trigger] list@[i] < x,
            forall|i: int| hi <= i < list@.len() ==> #[trigger] list@[i] > x,
        decreases hi - lo,
    {
        let mid = lo + (hi - lo) / 2;
        let y = list[mid];
        if y == x {
            return true;
        }
        if y < x {
            proof {
                assert forall|i: int| 0 <= i < mid + 1 implies #[trigger] list@[i] < x by {
                    assert(sorting::Keyed::key(&list@[i]) <= sorting::Keyed::key(&list@[mid as int]));
                }
            }
            lo = mid + 1;
        } else {
            proof {
                assert forall|i: int| mid <= i < list@.len() implies #[trigger] list@[i] > x by {
                    assert(sorting::Keyed::key(&list@[mid as int]) <= sorting::Keyed::key(&list@[i]));
                }
            }
            hi = mid;
        }
    }
    false
}

/// What a check cost.
#[derive(Clone, Copy, Debug)]
pub struct CheckCost {
    pub tuple_reads: usize,
    pub groups_visited: usize,
}

impl Default for CheckCost {
    fn default() -> (c: CheckCost)
        ensures
            c.tuple_reads == 0,
            c.groups_visited == 0,
    {
        CheckCost { tuple_reads: 0, groups_visited: 0 }
    }
}

/// The groups that a walk from `g` of at most `fuel` groups comes by, counted
/// once per walk that leads to them.
pub open spec fn walk_count(store: &RelStore, g: int, fuel: nat) -> nat
    decreases fuel, 0nat,
{
    if fuel == 0 {
        0
    } else {
        1 + child_walks(store, g, (fuel - 1) as nat, store.children@[g]@.len())
    }
}

/// `walk_count` of the first `k` children of `g` together.
pub open spec fn child_walks(store: &RelStore, g: int, fuel: nat, k: nat) -> nat
    decreases fuel, k + 1,
{
    if k == 0 {
        0
    } else {
        child_walks(store, g, fuel, (k - 1) as nat) + walk_count(
            store,
            store.children@[g]@[k - 1] as int,
            fuel,
        )
    }
}

/// `n`, or the largest machine number where `n` is larger.
pub open spec fn capped(n: int) -> usize {
    if n <= usize::MAX {
        n as usize
    } else {
        usize::MAX
    }
}

fn add_one(x: usize) -> (y: usize)
    ensures
        y == capped(x + 1),
{
    if x < usize::MAX {
        x + 1
    } else {
        usize::MAX
    }
}

/// A direct member can be found within `fuel` groups of `g`.
pub open spec fn findable(store: &RelStore, user: u32, g: usize, fuel: nat) -> bool {
    exists|p: Seq<usize>| #[trigger]
        graph::walks(store.sub(), p, g, p.last()) && p.len() <= fuel && store.direct(
            user,
            p.last(),
        )
}

/// It can be found from one of the first `k` children of `g`.
pub open spec fn child_finds(store: &RelStore, user: u32, g: int, fuel: nat, k: nat) -> bool {
    exists|j: int|
        0 <= j < k && findable(store, user, #[trigger] store.children@[g]@[j] as usize, fuel)
}

/// How many groups are opened from `g` on, each walk anew and child by child,
/// before the first that the user is a direct member of is done with.
pub open spec fn opened(store: &RelStore, user: u32, g: int, fuel: nat) -> nat
    decreases fuel, 0nat,
{
    if fuel == 0 {
        0
    } else if store.direct(user, g as usize) {
        1
    } else {
        1 + opened_below(store, user, g, (fuel - 1) as nat, store.children@[g]@.len())
    }
}

/// `opened` of the first `k` children of `g` together, up to the one that finds.
pub open spec fn opened_below(store: &RelStore, user: u32, g: int, fuel: nat, k: nat) -> nat
    decreases fuel, k + 1,
{
    if k == 0 {
        0
    } else {
        let before = opened_below(store, user, g, fuel, (k - 1) as nat);
        if child_finds(store, user, g, fuel, (k - 1) as nat) {
            before
        } else {
            before + opened(store, user, store.children@[g]@[k - 1] as int, fuel)
        }
    }
}

/// A search opens no more groups than there are walks.
pub proof fn lemma_opened_within_walks(store: &RelStore, user: u32, g: int, fuel: nat)
    ensures
        opened(store, user, g, fuel) <= walk_count(store, g, fuel),
        fuel > 0 ==> opened(store, user, g, fuel) >= 1,
    decreases fuel, 0nat,
{
    if fuel > 0 {
        lemma_opened_below_within(
            store,
            user,
            g,
            (fuel - 1) as nat,
            store.children@[g]@.len(),
        );
    }
}

proof fn lemma_opened_below_within(store: &RelStore, user: u32, g: int, fuel: nat, k: nat)
    ensures
        opened_below(store, user, g, fuel, k) <= child_walks(store, g, fuel, k),
    decreases fuel, k + 1,
{
    if k > 0 {
        lemma_opened_below_within(store, user, g, fuel, (k - 1) as nat);
        lemma_opened_within_walks(store, user, store.children@[g]@[k - 1] as int, fuel);
    }
}

/// After the child that finds, no more is opened.
proof fn lemma_opened_stops(store: &RelStore, user: u32, g: int, fuel: nat, k: nat, n: nat)
    requires
        k <= n,
        child_finds(store, user, g, fuel, k),
    ensures
        opened_below(store, user, g, fuel, n) == opened_below(store, user, g, fuel, k),
    decreases n,
{
    if k < n {
        lemma_opened_stops(store, user, g, fuel, k, (n - 1) as nat);
        let j = choose|j: int|
            0 <= j < k && findable(store, user, #[trigger] store.children@[g]@[j] as usize, fuel);
        assert(findable(store, user, store.children@[g]@[j] as usize, fuel));
        assert(child_finds(store, user, g, fuel, (n - 1) as nat));
    }
}

/// The queue with the first `k` groups of a list that are not in it yet.
pub open spec fn enqueued(queue: Seq<usize>, list: Seq<u32>, k: nat) -> Seq<usize>
    decreases k,
{
    if k == 0 {
        queue
    } else {
        let q = enqueued(queue, list, (k - 1) as nat);
        if q.contains(list[k - 1] as usize) {
            q
        } else {
            q.push(list[k - 1] as usize)
        }
    }
}

/// The groups in the order in which they are first come by, once the first `k`
/// of them are expanded.
pub open spec fn search_order(store: &RelStore, group: usize, k: nat) -> Seq<usize>
    decreases k,
{
    if k == 0 {
        seq![group]
    } else {
        let q = search_order(store, group, (k - 1) as nat);
        let list = store.children@[q[k - 1] as int]@;
        enqueued(q, list, list.len())
    }
}

/// Group number `i` in that order is the first that the user is a direct
/// member of.
pub open spec fn first_find(store: &RelStore, user: u32, group: usize, i: int) -> bool {
    let q = search_order(store, group, i as nat);
    &&& 0 <= i < q.len()
    &&& store.direct(user, q[i])
    &&& forall|j: int| 0 <= j < i ==> !store.direct(user, #[trigger] q[j])
}

proof fn lemma_findable_child(store: &RelStore, user: u32, g: usize, c: usize, fuel: nat)
    requires
        store.sub()(g, c),
        findable(store, user, c, fuel),
    ensures
        findable(store, user, g, fuel + 1),
{
    let e = store.sub();
    let p = choose|p: Seq<usize>| #[trigger]
        graph::walks(e, p, c, p.last()) && p.len() <= fuel && store.direct(user, p.last());
    let q = seq![g] + p;
    assert forall|i: int| 0 <= i < q.len() - 1 implies e(#[trigger] q[i], q[i + 1]) by {
        if i > 0 {
            assert(e(p[i - 1], p[i]));
        }
    }
    assert(q.last() == p.last());
    assert(graph::walks(e, q, g, q.last()));
}

proof fn lemma_findable_split(store: &RelStore, user: u32, g: usize, fuel: nat)
    requires
        findable(store, user, g, fuel + 1),
        !store.direct(user, g),
    ensures
        exists|c: usize| #[trigger] store.sub()(g, c) && findable(store, user, c, fuel),
{
    let e = store.sub();
    let p = choose|p: Seq<usize>| #[trigger]
        graph::walks(e, p, g, p.last()) && p.len() <= fuel + 1 && store.direct(user, p.last());
    assert(p.len() > 1);
    assert(e(p[0], p[1]));
    let q = p.skip(1);
    assert forall|i: int| 0 <= i < q.len() - 1 implies e(#[trigger] q[i], q[i + 1]) by {
        assert(e(p[i + 1], p[i + 2]));
    }
    assert(q.last() == p.last());
    assert(graph::walks(e, q, p[1], q.last()));
    assert(findable(store, user, p[1], fuel));
}

/// Expands every walk from `g` anew, at most `fuel` groups deep.
fn chase(store: &RelStore, user: u32, g: usize, fuel: usize, cost: &mut CheckCost) -> (hit: bool)
    requires
        store.well_formed(),
        g < store.children@.len(),
    ensures
        hit == findable(store, user, g, fuel as nat),
        !hit ==> final(cost).groups_visited == capped(
            old(cost).groups_visited + walk_count(store, g as int, fuel as nat),
        ),
        !hit ==> final(cost).tuple_reads == capped(
            old(cost).tuple_reads + 2 * walk_count(store, g as int, fuel as nat),
        ),
        !hit ==> opened(store, user, g as int, fuel as nat) == walk_count(
            store,
            g as int,
            fuel as nat,
        ),
        hit ==> final(cost).groups_visited == capped(
            old(cost).groups_visited + opened(store, user, g as int, fuel as nat),
        ),
        hit ==> final(cost).tuple_reads == capped(
            old(cost).tuple_reads + 2 * opened(store, user, g as int, fuel as nat) - 1,
        ),
    decreases fuel,
{
    let ghost e = store.sub();
    if fuel == 0 {
        assert(!findable(store, user, g, 0));
        return false;
    }
    cost.groups_visited = add_one(cost.groups_visited);
    cost.tuple_reads = add_one(cost.tuple_reads);
    if holds(&store.direct_users[g], user) {
        proof {
            let p = seq![g];
            assert(graph::walks(e, p, g, p.last()));
        }
        return true;
    }
    cost.tuple_reads = add_one(cost.tuple_reads);
    let list = &store.children[g];
    for k in 0..list.len()
        invariant
            store.well_formed(),
            g < store.children@.len(),
            list@ == store.children@[g as int]@,
            fuel > 0,
            e == store.sub(),
            !store.direct(user, g),
            opened_below(store, user, g as int, (fuel - 1) as nat, k as nat) == child_walks(
                store,
                g as int,
                (fuel - 1) as nat,
                k as nat,
            ),
            !child_finds(store, user, g as int, (fuel - 1) as nat, k as nat),
            cost.groups_visited == capped(
                old(cost).groups_visited + 1 + child_walks(
                    store,
                    g as int,
                    (fuel - 1) as nat,
                    k as nat,
                ),
            ),
            cost.tuple_reads == capped(
                old(cost).tuple_reads + 2 + 2 * child_walks(
                    store,
                    g as int,
                    (fuel - 1) as nat,
                    k as nat,
                ),
            ),
            forall|j: int|
                0 <= j < k ==> !findable(
                    store,
                    user,
                    #[trigger] list@[j] as usize,
                    (fuel - 1) as nat,
                ),
    {
        let c = list[k] as usize;
        assert(store.children@[g as int]@[k as int] < store.children@.len());
        if chase(store, user, c, fuel - 1, cost) {
            proof {
                assert(store.children@[g as int]@[k as int] == c);
                assert(child_finds(store, user, g as int, (fuel - 1) as nat, (k + 1) as nat));
                lemma_opened_stops(
                    store,
                    user,
                    g as int,
                    (fuel - 1) as nat,
                    (k + 1) as nat,
                    list@.len(),
                );
                lemma_opened_within_walks(store, user, c as int, (fuel - 1) as nat);
                assert(list@.contains(c as u32));
                lemma_findable_child(store, user, g, c, (fuel - 1) as nat);
            }
            return true;
        }
    }
    proof {
        if findable(store, user, g, fuel as nat) {
            lemma_findable_split(store, user, g, (fuel - 1) as nat);
            let c = choose|c: usize| #[trigger] e(g, c) && findable(store, user, c, (fuel - 1) as nat);
            let j = choose|j: int| 0 <= j < list@.len() && list@[j] == c as u32;
            assert(!findable(store, user, list@[j] as usize, (fuel - 1) as nat));
        }
    }
    false
}

/// What fuel for every group buys is all there is to find.
proof fn lemma_findable_member(store: &RelStore, user: u32, g: usize)
    requires
        store.well_formed(),
        g < store.children@.len(),
    ensures
        findable(store, user, g, store.children@.len()) == store.member(user, g),
{
    let e = store.sub();
    let n = store.children@.len();
    if findable(store, user, g, n) {
        let p = choose|p: Seq<usize>| #[trigger]
            graph::walks(e, p, g, p.last()) && p.len() <= n && store.direct(user, p.last());
        assert(graph::reach(e, g, p.last()));
    }
    if store.member(user, g) {
        let h = choose|h: usize| #[trigger] graph::reach(e, g, h) && store.direct(user, h);
        let p0 = choose|p: Seq<usize>| #[trigger] graph::walks(e, p, g, h);
        let p = graph::lemma_simple_walk(e, p0, g, h);
        assert forall|i: int| 0 <= i < p.len() implies #[trigger] p[i] < n by {
            if i < p.len() - 1 {
                assert(e(p[i], p[i + 1]));
            }
        }
        math::lemma_distinct_bounded(p, n);
        assert(p.last() == h);
        assert(graph::walks(e, p, g, p.last()));
    }
}

/// The check by pointer chasing. At each group its direct users are read (one
/// tuple read) and, where the user is not among them, its sub-groups (one
/// more). With `memo`, groups that were expanded before are skipped: the cost
/// counts groups. Without it the cost counts walks, and the walks are bounded
/// so that a nesting cycle terminates.
pub fn check_pointer(store: &RelStore, user: u32, group: u32, memo: bool) -> (r: (
    bool,
    CheckCost,
))
    requires
        store.well_formed(),
        group < store.children@.len(),
    ensures
        r.0 == store.member(user, group as usize),
        memo && !r.0 ==> r.1.groups_visited == math::count(
            store.children@.len(),
            |v: int| graph::reach(store.sub(), group as usize, v as usize),
        ) && r.1.tuple_reads == 2 * r.1.groups_visited,
        memo && r.0 ==> r.1.tuple_reads == 2 * r.1.groups_visited - 1 && 1 <= r.1.groups_visited
            <= math::count(
            store.children@.len(),
            |v: int| graph::reach(store.sub(), group as usize, v as usize),
        ) && first_find(store, user, group as usize, r.1.groups_visited - 1),
        !memo && !r.0 ==> r.1.groups_visited == capped(
            walk_count(store, group as int, store.children@.len()) as int,
        ) && r.1.tuple_reads == capped(
            2 * walk_count(store, group as int, store.children@.len()) as int,
        ),
        !memo && r.0 ==> r.1.groups_visited == capped(
            opened(store, user, group as int, store.children@.len()) as int,
        ) && r.1.tuple_reads == capped(
            2 * opened(store, user, group as int, store.children@.len()) - 1,
        ),
{
    if memo {
        return check_memo(store, user, group as usize);
    }
    let mut cost = CheckCost::default();
    let hit = chase(store, user, group as usize, store.children.len(), &mut cost);
    proof {
        lemma_findable_member(store, user, group as usize);
    }
    (hit, cost)
}

/// The memoized search: each group is queued once.
fn check_memo(store: &RelStore, user: u32, group: usize) -> (r: (bool, CheckCost))
    requires
        store.well_formed(),
        group < store.children@.len(),
    ensures
        r.0 == store.member(user, group),
        !r.0 ==> r.1.groups_visited == math::count(
            store.children@.len(),
            |v: int| graph::reach(store.sub(), group, v as usize),
        ) && r.1.tuple_reads == 2 * r.1.groups_visited,
        r.0 ==> r.1.tuple_reads == 2 * r.1.groups_visited - 1 && 1 <= r.1.groups_visited
            <= math::count(
            store.children@.len(),
            |v: int| graph::reach(store.sub(), group, v as usize),
        ) && first_find(store, user, group, r.1.groups_visited - 1),
{
    let n = store.children.len();
    let ghost e = store.sub();
    let ghost reached = |v: int| graph::reach(e, group, v as usize);
    let mut seen: Vec<bool> = vec![false; n];
    let mut queue: Vec<usize> = Vec::new();
    let mut head: usize = 0;
    let mut cost = CheckCost::default();
    seen.set(group, true);
    queue.push(group);
    proof {
        graph::lemma_reach_self(e, group);
        assert(queue@[0] == group);
        assert(queue@ =~= search_order(store, group, 0));
    }
    while head < queue.len()
        invariant
            store.well_formed(),
            n == store.children@.len(),
            e == store.sub(),
            group < n,
            seen@.len() == n,
            seen@[group as int],
            head <= queue@.len() <= n,
            queue@.no_duplicates(),
            forall|i: int| 0 <= i < queue@.len() ==> #[trigger] queue@[i] < n,
            forall|v: int| 0 <= v < n ==> (#[trigger] seen@[v] <==> queue@.contains(v as usize)),
            forall|i: int|
                0 <= i < queue@.len() ==> graph::reach(e, group, #[trigger] queue@[i]),
            forall|i: int| 0 <= i < head ==> !store.direct(user, #[trigger] queue@[i]),
            forall|i: int, b: usize| 0 <= i < head && #[trigger] e(queue@[i], b) ==> seen@[b as int],
            queue@ == search_order(store, group, head as nat),
            cost.groups_visited == head,
            cost.tuple_reads == 2 * head,
        decreases n - head,
    {
        let g = queue[head];
        cost.groups_visited += 1;
        cost.tuple_reads += 1;
        if holds(&store.direct_users[g], user) {
            proof {
                assert(graph::reach(e, group, g) && store.direct(user, g));
                let p = |v: int| queue@.contains(v as usize);
                let reached = |v: int| graph::reach(store.sub(), group, v as usize);
                assert forall|v: int| 0 <= v < n && #[trigger] p(v) implies reached(v) by {
                    let i = choose|i: int| 0 <= i < queue@.len() && queue@[i] == v as usize;
                    assert(graph::reach(e, group, queue@[i]));
                }
                math::lemma_count_members(queue@, n as nat);
                math::lemma_count_monotone(n as nat, p, reached);
            }
            return (true, cost);
        }
        cost.tuple_reads += 1;
        let list = &store.children[g];
        let ghost q0 = queue@;
        for k in 0..list.len()
            invariant
                store.well_formed(),
                n == store.children@.len(),
                e == store.sub(),
                g < n,
                head < q0.len(),
                g == q0[head as int],
                list@ == store.children@[g as int]@,
                seen@.len() == n,
                seen@[group as int],
                q0.len() <= queue@.len() <= n,
                forall|i: int| 0 <= i < q0.len() ==> queue@[i] == #[trigger] q0[i],
                queue@ == enqueued(q0, list@, k as nat),
                queue@.no_duplicates(),
                forall|i: int| 0 <= i < queue@.len() ==> #[trigger] queue@[i] < n,
                forall|v: int|
                    0 <= v < n ==> (#[trigger] seen@[v] <==> queue@.contains(v as usize)),
                forall|i: int|
                    0 <= i < queue@.len() ==> graph::reach(e, group, #[trigger] queue@[i]),
                forall|i: int, b: usize|
                    0 <= i < head && #[trigger] e(q0[i], b) ==> seen@[b as int],
                forall|j: int| 0 <= j < k ==> seen@[#[trigger] list@[j] as int],
        {
            let c = list[k] as usize;
            assert(store.children@[g as int]@[k as int] < store.children@.len());
            if !seen[c] {
                let ghost q1 = queue@;
                let ghost s1 = seen@;
                seen.set(c, true);
                queue.push(c);
                proof {
                    assert(list@.contains(c as u32));
                    assert(e(g, c));
                    assert(q1[head as int] == q0[head as int]);
                    assert(graph::reach(e, group, q1[head as int]));
                    let p = choose|p: Seq<usize>| #[trigger] graph::walks(e, p, group, g);
                    graph::lemma_walk_push(e, p, group, g, c);
                    assert(graph::reach(e, group, c));
                    assert(!q1.contains(c));
                    assert(queue@.no_duplicates()) by {
                        assert forall|i: int, j: int| 0 <= i < queue@.len() && 0 <= j < queue@.len() && i != j
                            implies queue@[i] != queue@[j] by {
                            if i < q1.len() {
                                assert(q1.contains(q1[i]));
                            }
                            if j < q1.len() {
                                assert(q1.contains(q1[j]));
                            }
                        }
                    }
                    math::lemma_distinct_bounded(queue@, n as nat);
                    assert forall|v: int| 0 <= v < n
                        implies (#[trigger] seen@[v] <==> queue@.contains(v as usize)) by {
                        graph::lemma_push_contains(q1, c, v as usize);
                        assert(s1[v] <==> q1.contains(v as usize));
                    }
                    assert forall|i: int, b: usize| 0 <= i < head && #[trigger] e(q0[i], b)
                        implies seen@[b as int] by {
                        assert(s1[b as int]);
                    }
                }
            }
        }
        proof {
            assert forall|i: int, b: usize| 0 <= i < head + 1 && #[trigger] e(queue@[i], b)
                implies seen@[b as int] by {
                assert(queue@[i] == q0[i]);
                if i == head {
                    let j = choose|j: int| 0 <= j < list@.len() && list@[j] == b as u32;
                    assert(seen@[list@[j] as int]);
                } else {
                    assert(e(q0[i], b));
                }
            }
            assert forall|i: int| 0 <= i < head + 1
                implies !store.direct(user, #[trigger] queue@[i]) by {
                assert(queue@[i] == q0[i]);
            }
        }
        head += 1;
    }
    proof {
        let inside = |v: usize| v < n && seen@[v as int];
        assert forall|x: usize, y: usize| inside(x) && #[trigger] e(x, y) implies inside(y) by {
            assert(queue@.contains(x));
            let i = choose|i: int| 0 <= i < queue@.len() && queue@[i] == x;
            assert(e(queue@[i], y));
            let c = store.children@[x as int]@;
            let k = choose|k: int| 0 <= k < c.len() && c[k] == y as u32;
            assert(store.children@[x as int]@[k] < n);
        }
        assert forall|v: usize| #[trigger] graph::reach(e, group, v) implies inside(v) by {
            let p = choose|p: Seq<usize>| #[trigger] graph::walks(e, p, group, v);
            graph::lemma_closed_under_walks(e, inside, p, group, v);
        }
        if store.member(user, group) {
            let h = choose|h: usize| #[trigger] graph::reach(e, group, h) && store.direct(user, h);
            assert(inside(h));
            assert(queue@.contains(h));
            let i = choose|i: int| 0 <= i < queue@.len() && queue@[i] == h;
            assert(!store.direct(user, queue@[i]));
        }
        let p = |v: int| queue@.contains(v as usize);
        let reached = |v: int| graph::reach(store.sub(), group, v as usize);
        assert forall|v: int| 0 <= v < n implies #[trigger] p(v) == reached(v) by {
            if p(v) {
                let i = choose|i: int| 0 <= i < queue@.len() && queue@[i] == v as usize;
                assert(graph::reach(e, group, queue@[i]));
            }
            if reached(v) {
                assert(inside(v as usize));
                assert(seen@[v] <==> queue@.contains(v as usize));
            }
        }
        math::lemma_count_members(queue@, n as nat);
        math::lemma_count_same(n as nat, p, reached);
    }
    (false, cost)
}

/// Some walk of at most `fuel` groups leads from `g` to `v`.
spec fn near(store: &RelStore, g: usize, v: usize, fuel: nat) -> bool {
    exists|p: Seq<usize>| #[trigger] graph::walks(store.sub(), p, g, v) && p.len() <= fuel
}

proof fn lemma_near_counted(store: &RelStore, g: usize, fuel: nat, k: nat)
    requires
        store.well_formed(),
        g < store.children@.len(),
        k <= store.children@[g as int]@.len(),
    ensures
        math::count(
            store.children@.len(),
            |v: int|
                v == g || exists|j: int|
                    0 <= j < k && near(
                        store,
                        #[trigger] store.children@[g as int]@[j] as usize,
                        v as usize,
                        fuel,
                    ),
        ) <= 1 + child_walks(store, g as int, fuel, k),
    decreases fuel, k,
{
    let n = store.children@.len();
    let c = store.children@[g as int]@;
    let here = |v: int|
        v == g || exists|j: int|
            0 <= j < k && near(
                store,
                #[trigger] store.children@[g as int]@[j] as usize,
                v as usize,
                fuel,
            );
    if k == 0 {
        assert forall|v: int| 0 <= v < n implies (#[trigger] here(v) <==> true && v == g) by {}
        math::lemma_count_single(n, here, g as int, true);
    } else {
        assert(store.children@[g as int]@[k - 1] < n);
        lemma_near_counted(store, g, fuel, (k - 1) as nat);
        lemma_near_sub(store, c[k - 1] as usize, fuel);
        let before = |v: int|
            v == g || exists|j: int|
                0 <= j < k - 1 && near(
                    store,
                    #[trigger] store.children@[g as int]@[j] as usize,
                    v as usize,
                    fuel,
                );
        let last = |v: int| near(store, c[k - 1] as usize, v as usize, fuel);
        assert forall|v: int| 0 <= v < n && #[trigger] here(v) implies before(v) || last(v) by {
            if v != g {
                let j = choose|j: int|
                    0 <= j < k && near(
                        store,
                        #[trigger] store.children@[g as int]@[j] as usize,
                        v as usize,
                        fuel,
                    );
                if j < k - 1 {
                    assert(near(store, store.children@[g as int]@[j] as usize, v as usize, fuel));
                }
            }
        }
        math::lemma_count_union(n, here, before, last);
    }
}

proof fn lemma_near_sub(store: &RelStore, g: usize, fuel: nat)
    requires
        store.well_formed(),
        g < store.children@.len(),
    ensures
        math::count(store.children@.len(), |v: int| near(store, g, v as usize, fuel))
            <= walk_count(store, g as int, fuel),
    decreases fuel, 0nat,
{
    let n = store.children@.len();
    let e = store.sub();
    let close = |v: int| near(store, g, v as usize, fuel);
    if fuel == 0 {
        assert forall|v: int| 0 <= v < n implies (#[trigger] close(v) <==> false && v == 0) by {}
        math::lemma_count_single(n, close, 0, false);
    } else {
        let f = (fuel - 1) as nat;
        let k = store.children@[g as int]@.len();
        lemma_near_counted(store, g, f, k);
        let parts = |v: int|
            v == g || exists|j: int|
                0 <= j < k && near(
                    store,
                    #[trigger] store.children@[g as int]@[j] as usize,
                    v as usize,
                    f,
                );
        assert forall|v: int| 0 <= v < n && #[trigger] close(v) implies parts(v) by {
            let p = choose|p: Seq<usize>| #[trigger]
                graph::walks(e, p, g, v as usize) && p.len() <= fuel;
            if p.len() > 1 {
                assert(e(p[0], p[1]));
                graph::lemma_walk_suffix(e, p, g, v as usize, 1);
                let c = store.children@[g as int]@;
                let j = choose|j: int| 0 <= j < c.len() && c[j] == p[1] as u32;
                assert(near(store, p[1], v as usize, f));
                assert(near(store, store.children@[g as int]@[j] as usize, v as usize, f));
            }
        }
        math::lemma_count_monotone(n, close, parts);
    }
}

/// Memoization never costs more: where a check finds nothing, the groups that
/// the memoized search visits are no more than the walks of the other one.
pub proof fn lemma_memo_visits_fewer(store: &RelStore, group: usize)
    requires
        store.well_formed(),
        group < store.children@.len(),
    ensures
        math::count(
            store.children@.len(),
            |v: int| graph::reach(store.sub(), group, v as usize),
        ) <= walk_count(store, group as int, store.children@.len()),
{
    let n = store.children@.len();
    let e = store.sub();
    let close = |v: int| near(store, group, v as usize, n);
    let reached = |v: int| graph::reach(store.sub(), group, v as usize);
    lemma_near_sub(store, group, n);
    assert forall|v: int| 0 <= v < n && #[trigger] reached(v) implies close(v) by {
        let p0 = choose|p: Seq<usize>| #[trigger] graph::walks(e, p, group, v as usize);
        let p = graph::lemma_simple_walk(e, p0, group, v as usize);
        assert forall|i: int| 0 <= i < p.len() implies #[trigger] p[i] < n by {
            if i < p.len() - 1 {
                assert(e(p[i], p[i + 1]));
            } else {
                assert(p[i] == v as usize);
            }
        }
        math::lemma_distinct_bounded(p, n);
    }
    math::lemma_count_monotone(n, reached, close);
}

/// Some number is in both lists.
pub open spec fn meet(a: Seq<u32>, b: Seq<u32>) -> bool {
    exists|x: u32| #[trigger] a.contains(x) && b.contains(x)
}

/// Binary search in `lo..hi`: the first place whose entry is at least `x`, and
/// the comparisons that it takes.
pub open spec fn halved(large: Seq<u32>, lo: int, hi: int, x: u32) -> (int, nat)
    decreases hi - lo,
{
    if lo >= hi {
        (lo, 0)
    } else {
        let mid = lo + (hi - lo) / 2;
        let (at, probes) = if large[mid] < x {
            halved(large, mid + 1, hi, x)
        } else {
            halved(large, lo, mid, x)
        };
        (at, probes + 1)
    }
}

/// A window that widens by doubling steps until its right edge is at or past
/// `x`: both edges, and the comparisons that it takes.
pub open spec fn widened(large: Seq<u32>, x: u32, lo: int, hi: int, step: int) -> (int, int, nat)
    decreases large.len() - hi,
{
    if hi < large.len() && large[hi] < x && step >= 1 {
        let next = if step >= large.len() - hi {
            large.len() as int
        } else {
            hi + step
        };
        let (a, b, probes) = widened(large, x, hi + 1, next, 2 * step);
        (a, b, probes + 1)
    } else {
        (
            lo,
            hi,
            if hi < large.len() {
                1
            } else {
                0
            },
        )
    }
}

/// The place of `x` from `pos` on: widen, then search inside the window.
pub open spec fn sought(large: Seq<u32>, pos: int, x: u32) -> (int, nat) {
    let (lo, hi, first) = widened(large, x, pos, pos, 1);
    let (at, more) = halved(large, lo, hi, x);
    (at, first + more)
}

/// Seeks the numbers of `small` from the `k`-th on, each from where the last
/// search stopped: whether one is found, and the comparisons up to there.
pub open spec fn gallop_scan(small: Seq<u32>, large: Seq<u32>, k: int, pos: int) -> (bool, nat)
    decreases small.len() - k,
{
    if k >= small.len() {
        (false, 0)
    } else {
        let (at, probes) = sought(large, pos, small[k]);
        if at < large.len() && large[at] == small[k] {
            (true, probes + 1)
        } else {
            let (hit, more) = gallop_scan(small, large, k + 1, at);
            (
                hit,
                probes + more + if at < large.len() {
                    1nat
                } else {
                    0
                },
            )
        }
    }
}

/// The galloping intersection of two lists: the smaller one is walked.
pub open spec fn galloped(a: Seq<u32>, b: Seq<u32>) -> (bool, nat) {
    if a.len() <= b.len() {
        gallop_scan(a, b, 0, 0)
    } else {
        gallop_scan(b, a, 0, 0)
    }
}

/// The first place in `lo..hi` whose entry is at least `x`, or `hi`.
fn lower_bound(large: &[u32], lo: usize, hi: usize, x: u32) -> (r: (usize, usize))
    requires
        lo <= hi <= large@.len(),
        sorting::is_sorted(large@),
    ensures
        lo <= r.0 <= hi,
        forall|i: int| lo <= i < r.0 ==> #[trigger] large@[i] < x,
        forall|i: int| r.0 <= i < hi ==> #[trigger] large@[i] >= x,
        r.1 <= math::bits((hi - lo) as nat),
        (r.0 as int, r.1 as nat) == halved(large@, lo as int, hi as int, x),
{
    let mut a = lo;
    let mut b = hi;
    let mut probes: usize = 0;
    proof {
        math::lemma_bits_le((hi - lo) as nat);
    }
    while a < b
        invariant
            lo <= a <= b <= hi <= large@.len(),
            sorting::is_sorted(large@),
            forall|i: int| lo <= i < a ==> #[trigger] large@[i] < x,
            forall|i: int| b <= i < hi ==> #[trigger] large@[i] >= x,
            probes + math::bits((b - a) as nat) <= math::bits((hi - lo) as nat),
            halved(large@, lo as int, hi as int, x).0 == halved(large@, a as int, b as int, x).0,
            halved(large@, lo as int, hi as int, x).1 == probes + halved(
                large@,
                a as int,
                b as int,
                x,
            ).1,
            math::bits((hi - lo) as nat) <= hi - lo,
        decreases b - a,
    {
        let mid = a + (b - a) / 2;
        proof {
            math::lemma_bits_monotone((b - mid - 1) as nat, ((b - a) / 2) as nat);
            assert(((b - a) as nat) / 2 == (mid - a) as nat);
        }
        probes += 1;
        if large[mid] < x {
            proof {
                assert forall|i: int| lo <= i < mid + 1 implies #[trigger] large@[i] < x by {
                    assert(sorting::Keyed::key(&large@[i]) <= sorting::Keyed::key(&large@[mid as int]));
                }
            }
            a = mid + 1;
        } else {
            proof {
                assert forall|i: int| mid <= i < hi implies #[trigger] large@[i] >= x by {
                    assert(sorting::Keyed::key(&large@[mid as int]) <= sorting::Keyed::key(&large@[i]));
                }
            }
            b = mid;
        }
    }
    (a, probes)
}

proof fn lemma_halved(large: Seq<u32>, lo: int, hi: int, x: u32)
    requires
        0 <= lo <= hi <= large.len(),
    ensures
        lo <= halved(large, lo, hi, x).0 <= hi,
        halved(large, lo, hi, x).1 <= math::bits((hi - lo) as nat),
    decreases hi - lo,
{
    if lo < hi {
        let mid = lo + (hi - lo) / 2;
        math::lemma_bits_monotone((hi - mid - 1) as nat, ((hi - lo) / 2) as nat);
        assert(((hi - lo) as nat) / 2 == (mid - lo) as nat);
        if large[mid] < x {
            lemma_halved(large, mid + 1, hi, x);
        } else {
            lemma_halved(large, lo, mid, x);
        }
    }
}

/// A window over `n` entries widens at most `bits(n)` times; `p` times are
/// done.
proof fn lemma_widened(large: Seq<u32>, x: u32, pos: int, lo: int, hi: int, p: nat)
    requires
        0 <= pos <= lo <= hi <= large.len(),
        hi == large.len() || hi + 1 >= pos + math::two_to(p),
        p <= math::bits(large.len()),
    ensures
        ({
            let (a, b, probes) = widened(large, x, lo, hi, math::two_to(p) as int);
            &&& lo <= a <= b <= large.len()
            &&& p + probes <= math::bits(large.len()) + 1
        }),
    decreases large.len() - hi,
{
    let step = math::two_to(p) as int;
    math::lemma_power_positive(p);
    if hi < large.len() && large[hi] < x {
        math::lemma_bits_of_power(p, large.len());
        assert(math::two_to((p + 1) as nat) == 2 * math::two_to(p));
        let next = if step >= large.len() - hi {
            large.len() as int
        } else {
            hi + step
        };
        lemma_widened(large, x, pos, hi + 1, next, (p + 1) as nat);
    }
}

proof fn lemma_sought(large: Seq<u32>, pos: int, x: u32)
    requires
        0 <= pos <= large.len(),
    ensures
        pos <= sought(large, pos, x).0 <= large.len(),
        sought(large, pos, x).1 <= 2 * math::bits(large.len()) + 1,
{
    let (lo, hi, first) = widened(large, x, pos, pos, 1);
    assert(math::two_to(0) == 1);
    lemma_widened(large, x, pos, pos, pos, 0);
    lemma_halved(large, lo, hi, x);
    math::lemma_bits_monotone((hi - lo) as nat, large.len());
}

proof fn lemma_scan_bound(small: Seq<u32>, large: Seq<u32>, k: int, pos: int)
    requires
        0 <= k <= small.len(),
        0 <= pos <= large.len(),
    ensures
        gallop_scan(small, large, k, pos).1 <= (small.len() - k) * (2 * math::bits(large.len()) + 2),
    decreases small.len() - k,
{
    let per = 2 * math::bits(large.len()) + 2;
    let left = small.len() - k;
    if k < small.len() {
        let at = sought(large, pos, small[k]).0;
        lemma_sought(large, pos, small[k]);
        lemma_scan_bound(small, large, k + 1, at);
        assert(left * per == (left - 1) * per + per) by (nonlinear_arith);
        assert((left - 1) * per >= 0) by (nonlinear_arith)
            requires
                left >= 1,
                per >= 0,
        ;
    } else {
        assert(left * per == 0) by (nonlinear_arith)
            requires
                left == 0,
        ;
    }
}

/// Galloping takes comparisons in proportion to the smaller list and to the
/// logarithm of the larger.
pub proof fn lemma_gallop_bound(a: Seq<u32>, b: Seq<u32>)
    ensures
        galloped(a, b).1 <= shorter(a.len(), b.len()) * (2 * math::bits(longer(a.len(), b.len()))
            + 2),
{
    if a.len() <= b.len() {
        lemma_scan_bound(a, b, 0, 0);
    } else {
        lemma_scan_bound(b, a, 0, 0);
    }
}

/// At the end of the list the step no longer matters.
proof fn lemma_window_ends(large: Seq<u32>, x: u32, lo: int, a: int, b: int)
    ensures
        widened(large, x, lo, large.len() as int, a) == widened(
            large,
            x,
            lo,
            large.len() as int,
            b,
        ),
{
}

/// Widens a window over `large` by 1, 2, 4, ... from `pos` until its right
/// edge is at or past `x`, then searches inside it. Returns the first place
/// from `pos` on whose entry is at least `x`, and the comparisons it took.
fn seek(large: &[u32], pos: usize, x: u32) -> (r: (usize, usize))
    requires
        pos <= large@.len(),
        sorting::is_sorted(large@),
    ensures
        pos <= r.0 <= large@.len(),
        forall|i: int| pos <= i < r.0 ==> #[trigger] large@[i] < x,
        forall|i: int| r.0 <= i < large@.len() ==> #[trigger] large@[i] >= x,
        r.1 <= 2 * math::bits(large@.len()) + 1,
        (r.0 as int, r.1 as nat) == sought(large@, pos as int, x),
{
    let ghost whole = widened(large@, x, pos as int, pos as int, 1);
    let len = large.len();
    let mut lo = pos;
    let mut hi = pos;
    let mut step: usize = 1;
    let mut probes: usize = 0;
    proof {
        math::lemma_bits_small(len as nat);
    }
    while hi < len && large[hi] < x
        invariant
            len == large@.len(),
            math::bits(len as nat) <= 64,
            pos <= lo <= hi <= len,
            1 <= step,
            step == math::two_to(probes as nat) || hi == len,
            hi == len || hi + 1 >= pos + math::two_to(probes as nat),
            probes <= math::bits(len as nat),
            sorting::is_sorted(large@),
            forall|i: int| pos <= i < lo ==> #[trigger] large@[i] < x,
            ({
                let w = widened(large@, x, lo as int, hi as int, step as int);
                whole.0 == w.0 && whole.1 == w.1 && whole.2 == probes + w.2
            }),
        decreases len - hi,
    {
        proof {
            math::lemma_bits_of_power(probes as nat, len as nat);
            assert forall|i: int| pos <= i < hi + 1 implies #[trigger] large@[i] < x by {
                assert(sorting::Keyed::key(&large@[i]) <= sorting::Keyed::key(&large@[hi as int]));
            }
            assert(math::two_to((probes + 1) as nat) == 2 * math::two_to(probes as nat));
        }
        probes += 1;
        lo = hi + 1;
        if step >= len - hi {
            proof {
                lemma_window_ends(large@, x, hi + 1, 2 * step, step as int);
            }
            hi = len;
        } else {
            hi = hi + step;
            step = 2 * step;
        }
    }
    if hi < len {
        probes += 1;
    }
    let (at, more) = lower_bound(large, lo, hi, x);
    proof {
        math::lemma_bits_monotone((hi - lo) as nat, len as nat);
        assert forall|i: int| at <= i < len implies #[trigger] large@[i] >= x by {
            if i >= hi {
                assert(sorting::Keyed::key(&large@[hi as int]) <= sorting::Keyed::key(&large@[i]));
            }
        }
    }
    (at, probes + more)
}

/// `large`'s entries before `pos` are below `x`.
spec fn passed(large: Seq<u32>, pos: usize, x: u32) -> bool {
    forall|i: int| 0 <= i < pos ==> #[trigger] large[i] < x
}

/// Seeks each number of the smaller list in the larger one, resuming where the
/// last search stopped.
fn gallop(small: &[u32], large: &[u32]) -> (r: (bool, usize))
    requires
        sorting::is_sorted(small@),
        sorting::is_sorted(large@),
    ensures
        r.0 == meet(small@, large@),
        r.0 == gallop_scan(small@, large@, 0, 0).0,
        r.1 == capped(gallop_scan(small@, large@, 0, 0).1 as int),
{
    let mut pos: usize = 0;
    let mut probes: usize = 0;
    let ghost mut spent: int = 0;
    let ghost whole = gallop_scan(small@, large@, 0, 0);
    for k in 0..small.len()
        invariant
            sorting::is_sorted(small@),
            sorting::is_sorted(large@),
            pos <= large@.len(),
            0 <= spent,
            probes == capped(spent),
            whole == gallop_scan(small@, large@, 0, 0),
            whole.0 == gallop_scan(small@, large@, k as int, pos as int).0,
            whole.1 == spent + gallop_scan(small@, large@, k as int, pos as int).1,
            k < small@.len() ==> passed(large@, pos, small@[k as int]),
            forall|i: int| 0 <= i < k ==> !large@.contains(#[trigger] small@[i]),
    {
        let x = small[k];
        let (at, more) = seek(large, pos, x);
        probes = add_capped(probes, more);
        proof {
            spent = spent + more;
        }
        if at < large.len() {
            probes = add_one(probes);
            proof {
                spent = spent + 1;
            }
            if large[at] == x {
                proof {
                    assert(small@.contains(x) && large@.contains(x));
                }
                return (true, probes);
            }
        }
        proof {
            assert(!large@.contains(x)) by {
                if large@.contains(x) {
                    let i = choose|i: int| 0 <= i < large@.len() && large@[i] == x;
                    if i < pos {
                        assert(large@[i] < x);
                    } else if i >= at {
                        assert(sorting::Keyed::key(&large@[at as int]) <= sorting::Keyed::key(&large@[i]));
                    }
                }
            }
            if k + 1 < small@.len() {
                assert(sorting::Keyed::key(&small@[k as int]) <= sorting::Keyed::key(&small@[k + 1]));
                assert forall|i: int| 0 <= i < at implies #[trigger] large@[i] < small@[k + 1] by {}
            }
        }
        pos = at;
    }
    proof {
        if meet(small@, large@) {
            let x = choose|x: u32| #[trigger] small@.contains(x) && large@.contains(x);
            let i = choose|i: int| 0 <= i < small@.len() && small@[i] == x;
            assert(!large@.contains(small@[i]));
        }
    }
    (false, probes)
}

fn add_capped(x: usize, y: usize) -> (z: usize)
    ensures
        z == capped(x + y),
{
    if x <= usize::MAX - y {
        x + y
    } else {
        usize::MAX
    }
}

/// The shorter of two lengths.
pub open spec fn shorter(a: nat, b: nat) -> nat {
    if a <= b {
        a
    } else {
        b
    }
}

pub open spec fn longer(a: nat, b: nat) -> nat {
    if a <= b {
        b
    } else {
        a
    }
}

/// Whether two sorted lists meet, by galloping search: the smaller list is
/// walked and each of its numbers sought in the larger one. Returns the answer
/// and the comparisons it took, which grow with the smaller list and only with
/// the logarithm of the larger.
pub fn intersect_galloping(a: &[u32], b: &[u32]) -> (r: (bool, usize))
    requires
        sorting::is_sorted(a@),
        sorting::is_sorted(b@),
    ensures
        r.0 == meet(a@, b@),
        r.0 == galloped(a@, b@).0,
        r.1 == capped(galloped(a@, b@).1 as int),
        galloped(a@, b@).1 <= shorter(a@.len(), b@.len()) * (2 * math::bits(
            longer(a@.len(), b@.len()),
        ) + 2),
{
    proof {
        lemma_gallop_bound(a@, b@);
    }
    if a.len() <= b.len() {
        gallop(a, b)
    } else {
        let r = gallop(b, a);
        proof {
            assert(meet(b@, a@) == meet(a@, b@)) by {
                if meet(b@, a@) {
                    let x = choose|x: u32| #[trigger] b@.contains(x) && a@.contains(x);
                    assert(a@.contains(x));
                }
                if meet(a@, b@) {
                    let x = choose|x: u32| #[trigger] a@.contains(x) && b@.contains(x);
                    assert(b@.contains(x));
                }
            }
        }
        r
    }
}

/// The linear merge from places `i` and `j`: whether it meets a common number,
/// and in how many steps.
pub open spec fn merge_scan(a: Seq<u32>, b: Seq<u32>, i: int, j: int) -> (bool, nat)
    decreases a.len() - i + b.len() - j,
    when 0 <= i <= a.len() && 0 <= j <= b.len()
{
    if i == a.len() || j == b.len() {
        (false, 0)
    } else if a[i] == b[j] {
        (true, 1)
    } else {
        let (hit, steps) = if a[i] < b[j] {
            merge_scan(a, b, i + 1, j)
        } else {
            merge_scan(a, b, i, j + 1)
        };
        (hit, steps + 1)
    }
}

/// On sorted lists the merge finds a common number exactly when there is one,
/// in at most one step per entry.
pub proof fn lemma_merge_scan(a: Seq<u32>, b: Seq<u32>, i: int, j: int)
    requires
        0 <= i <= a.len(),
        0 <= j <= b.len(),
    ensures
        merge_scan(a, b, i, j).1 <= a.len() - i + b.len() - j,
        sorting::is_sorted(a) && sorting::is_sorted(b) ==> merge_scan(a, b, i, j).0 == meet(
            a.skip(i),
            b.skip(j),
        ),
    decreases a.len() - i + b.len() - j,
{
    if i < a.len() && j < b.len() {
        let sa = a.skip(i);
        let sb = b.skip(j);
        if a[i] == b[j] {
            assert(sa[0] == a[i] && sb[0] == a[i]);
            assert(sa.contains(a[i]) && sb.contains(a[i]));
        } else if a[i] < b[j] {
            lemma_merge_scan(a, b, i + 1, j);
            if sorting::is_sorted(a) && sorting::is_sorted(b) {
                let ta = a.skip(i + 1);
                if meet(sa, sb) {
                    let x = choose|x: u32| #[trigger] sa.contains(x) && sb.contains(x);
                    let k = choose|k: int| 0 <= k < sa.len() && sa[k] == x;
                    let l = choose|l: int| 0 <= l < sb.len() && sb[l] == x;
                    assert(sorting::Keyed::key(&b[j]) <= sorting::Keyed::key(&b[j + l]));
                    assert(ta[k - 1] == x);
                    assert(ta.contains(x));
                }
                if meet(ta, sb) {
                    let x = choose|x: u32| #[trigger] ta.contains(x) && sb.contains(x);
                    let k = choose|k: int| 0 <= k < ta.len() && ta[k] == x;
                    assert(sa[k + 1] == x);
                    assert(sa.contains(x));
                }
            }
        } else {
            lemma_merge_scan(a, b, i, j + 1);
            if sorting::is_sorted(a) && sorting::is_sorted(b) {
                let tb = b.skip(j + 1);
                if meet(sa, sb) {
                    let x = choose|x: u32| #[trigger] sa.contains(x) && sb.contains(x);
                    let k = choose|k: int| 0 <= k < sa.len() && sa[k] == x;
                    let l = choose|l: int| 0 <= l < sb.len() && sb[l] == x;
                    assert(sorting::Keyed::key(&a[i]) <= sorting::Keyed::key(&a[i + k]));
                    assert(tb[l - 1] == x);
                    assert(tb.contains(x));
                    assert(sa.contains(x));
                }
                if meet(sa, tb) {
                    let x = choose|x: u32| #[trigger] sa.contains(x) && tb.contains(x);
                    let l = choose|l: int| 0 <= l < tb.len() && tb[l] == x;
                    assert(sb[l + 1] == x);
                    assert(sb.contains(x));
                }
            }
        }
    }
}

/// Swapping the lists changes neither the answer nor the steps, and no step is
/// taken exactly when one of them is empty.
pub proof fn lemma_merge_is_symmetric(a: Seq<u32>, b: Seq<u32>)
    ensures
        merge_scan(a, b, 0, 0) == merge_scan(b, a, 0, 0),
        merge_scan(a, b, 0, 0).1 == 0 <==> a.len() == 0 || b.len() == 0,
{
    lemma_merge_swapped(a, b, 0, 0);
}

proof fn lemma_merge_swapped(a: Seq<u32>, b: Seq<u32>, i: int, j: int)
    requires
        0 <= i <= a.len(),
        0 <= j <= b.len(),
    ensures
        merge_scan(a, b, i, j) == merge_scan(b, a, j, i),
    decreases a.len() - i + b.len() - j,
{
    if i < a.len() && j < b.len() && a[i] != b[j] {
        if a[i] < b[j] {
            lemma_merge_swapped(a, b, i + 1, j);
        } else {
            lemma_merge_swapped(a, b, i, j + 1);
        }
    }
}

/// The first `n` entries of `b` are below the last of `a` and not in it: they
/// are all in the way of a merge.
pub open spec fn in_the_way(a: Seq<u32>, b: Seq<u32>, n: int) -> bool {
    &&& a.len() > 0
    &&& 0 <= n <= b.len()
    &&& forall|i: int| 0 <= i < n ==> (#[trigger] b[i]) < a.last() && !a.contains(b[i])
}

proof fn lemma_merge_walks(a: Seq<u32>, b: Seq<u32>, n: int, i: int, j: int)
    requires
        sorting::is_sorted(a),
        in_the_way(a, b, n),
        0 <= i < a.len(),
        0 <= j <= n,
    ensures
        merge_scan(a, b, i, j).1 >= n - j,
    decreases a.len() - i + b.len() - j,
{
    if j < n {
        assert(b[j] < a.last());
        assert(a.contains(a[i]));
        if a[i] < b[j] {
            lemma_merge_walks(a, b, n, i + 1, j);
        } else {
            lemma_merge_walks(a, b, n, i, j + 1);
        }
    }
}

/// On lopsided lists galloping beats the merge: where more entries of the
/// larger list are in the way than `factor` times the galloping bound, the
/// merge takes more than `factor` times as long.
pub proof fn lemma_galloping_beats_the_merge(a: Seq<u32>, b: Seq<u32>, n: int, factor: nat)
    requires
        sorting::is_sorted(a),
        sorting::is_sorted(b),
        a.len() <= b.len(),
        in_the_way(a, b, n),
        factor * (a.len() * (2 * math::bits(b.len()) + 2)) < n,
    ensures
        galloped(a, b).1 * factor < merge_scan(a, b, 0, 0).1,
        galloped(b, a).1 * factor < merge_scan(b, a, 0, 0).1,
{
    lemma_gallop_bound(a, b);
    lemma_gallop_bound(b, a);
    lemma_merge_walks(a, b, n, 0, 0);
    lemma_merge_is_symmetric(a, b);
    let most = (a.len() * (2 * math::bits(b.len()) + 2)) as int;
    let (x, y) = (galloped(a, b).1 as int, galloped(b, a).1 as int);
    assert(x * factor <= factor * most && y * factor <= factor * most) by (nonlinear_arith)
        requires
            x <= most,
            y <= most,
            factor >= 0,
    ;
}

/// The straw man: linear merge.
pub fn intersect_linear(a: &[u32], b: &[u32]) -> (r: (bool, usize))
    requires
        a@.len() + b@.len() <= usize::MAX,
    ensures
        r.0 == merge_scan(a@, b@, 0, 0).0,
        r.1 == merge_scan(a@, b@, 0, 0).1,
        sorting::is_sorted(a@) && sorting::is_sorted(b@) ==> r.0 == meet(a@, b@),
        r.1 <= a@.len() + b@.len(),
{
    proof {
        lemma_merge_scan(a@, b@, 0, 0);
        assert(a@.skip(0) =~= a@);
        assert(b@.skip(0) =~= b@);
    }
    let mut i: usize = 0;
    let mut j: usize = 0;
    let mut steps: usize = 0;
    while i < a.len() && j < b.len()
        invariant
            a@.len() + b@.len() <= usize::MAX,
            i <= a@.len(),
            j <= b@.len(),
            steps == i + j,
            sorting::is_sorted(a@) && sorting::is_sorted(b@) ==> merge_scan(a@, b@, 0, 0).0 == meet(
                a@,
                b@,
            ),
            merge_scan(a@, b@, 0, 0).0 == merge_scan(a@, b@, i as int, j as int).0,
            merge_scan(a@, b@, 0, 0).1 == steps + merge_scan(a@, b@, i as int, j as int).1,
        decreases a@.len() - i + b@.len() - j,
    {
        steps += 1;
        if a[i] == b[j] {
            return (true, steps);
        }
        if a[i] < b[j] {
            i += 1;
        } else {
            j += 1;
        }
    }
    (false, steps)
}

/// The two flattened sets, as ordered integer lists.
pub struct LeopardIndex {
    /// For each group every group below it, at any depth, and itself.
    pub group2group: Vec<Vec<u32>>,
    /// For each user the groups that they are a direct member of.
    pub member2group: Vec<Vec<u32>>,
}

impl LeopardIndex {
    /// The lists are sorted, without repeats.
    pub open spec fn well_formed(&self) -> bool {
        &&& forall|g: int|
            0 <= g < self.group2group@.len() ==> sorting::is_strict(
                (#[trigger] self.group2group@[g])@,
            )
        &&& forall|u: int|
            0 <= u < self.member2group@.len() ==> sorting::is_strict(
                (#[trigger] self.member2group@[u])@,
            )
    }

    /// The lists hold what the store says.
    pub open spec fn indexes(&self, store: &RelStore) -> bool {
        &&& self.group2group@.len() == store.children@.len()
        &&& self.member2group@.len() == store.n_users
        &&& forall|g: int, x: u32|
            0 <= g < self.group2group@.len() ==> (#[trigger] self.group2group@[g]@.contains(x)
                <==> graph::reach(store.sub(), g as usize, x as usize))
        &&& forall|u: int, g: u32|
            0 <= u < self.member2group@.len() ==> (#[trigger] self.member2group@[u]@.contains(g)
                <==> store.direct(u as u32, g as usize))
    }

    /// Builds both sets. Nesting cycles are fine.
    pub fn build(store: &RelStore) -> (index: LeopardIndex)
        requires
            store.well_formed(),
            store.n_users <= 0x1_0000_0000,
        ensures
            index.indexes(store),
            index.well_formed(),
    {
        let n = store.children.len();
        let adj = store.child_lists();
        let mut group2group: Vec<Vec<u32>> = Vec::new();
        for g in 0..n
            invariant
                store.well_formed(),
                n == store.children@.len(),
                adj@.len() == n,
                graph::closed_lists(adj@),
                forall|a: usize, b: usize| #[trigger]
                    graph::listed(adj@)(a, b) == store.sub()(a, b),
                group2group@.len() == g,
                forall|h: int|
                    0 <= h < g ==> sorting::is_strict((#[trigger] group2group@[h])@)
                        && group2group@[h]@.len() <= n,
                forall|h: int, x: u32|
                    0 <= h < g ==> (#[trigger] group2group@[h]@.contains(x) <==> graph::reach(
                        store.sub(),
                        h as usize,
                        x as usize,
                    )),
        {
            let mut seeds: Vec<usize> = Vec::new();
            seeds.push(g);
            let dist = graph::bfs(&adj, &seeds);
            let mut row: Vec<u32> = Vec::new();
            for v in 0..n
                invariant
                    n == store.children@.len(),
                    n <= 0x1_0000_0000,
                    g < n,
                    dist@.len() == n,
                    seeds@ =~= seq![g],
                    forall|v: int|
                        0 <= v < dist@.len() ==> graph::is_distance(
                            graph::listed(adj@),
                            seeds@,
                            v as usize,
                            #[trigger] dist@[v],
                        ),
                    forall|a: usize, b: usize| #[trigger]
                        graph::listed(adj@)(a, b) == store.sub()(a, b),
                    sorting::is_strict(row@),
                    row@.len() <= v,
                    forall|i: int| 0 <= i < row@.len() ==> #[trigger] row@[i] < v,
                    forall|x: u32| #[trigger]
                        row@.contains(x) <==> x < v && graph::reach(store.sub(), g, x as usize),
            {
                let ghost r0 = row@;
                proof {
                    assert(graph::is_distance(graph::listed(adj@), seeds@, v, dist@[v as int]));
                    graph::lemma_single_seed(graph::listed(adj@), g, v, dist@[v as int]);
                    graph::lemma_reach_same(graph::listed(adj@), store.sub(), g, v);
                }
                if dist[v] != usize::MAX {
                    row.push(v as u32);
                }
                proof {
                    assert forall|x: u32| #[trigger] row@.contains(x) <==> x < v + 1
                        && graph::reach(store.sub(), g, x as usize) by {
                        assert(r0.contains(x) <==> x < v && graph::reach(store.sub(), g, x as usize));
                        lemma_push_contains(r0, v as u32, x);
                    }
                }
            }
            proof {
                assert forall|x: u32| #[trigger] row@.contains(x) <==> graph::reach(store.sub(), g, x as usize) by {
                    if graph::reach(store.sub(), g, x as usize) {
                        lemma_sub_closed(store, g, x as usize);
                    }
                }
            }
            group2group.push(row);
        }
        let member2group = direct_groups(store);
        LeopardIndex { group2group, member2group }
    }

    pub fn size_entries(&self) -> (n: usize)
        requires
            total_len(self.group2group@) + total_len(self.member2group@) <= usize::MAX,
        ensures
            n == total_len(self.group2group@) + total_len(self.member2group@),
    {
        sum_lens(&self.group2group) + sum_lens(&self.member2group)
    }

    /// Whether the groups of `user` meet the groups below `group`, with the
    /// cost in comparisons.
    pub fn check(&self, user: u32, group: u32) -> (r: (bool, usize))
        requires
            self.well_formed(),
            user < self.member2group@.len(),
            group < self.group2group@.len(),
        ensures
            r.0 == meet(
                self.member2group@[user as int]@,
                self.group2group@[group as int]@,
            ),
            r.1 == capped(
                galloped(
                    self.member2group@[user as int]@,
                    self.group2group@[group as int]@,
                ).1 as int,
            ),
    {
        let a = &self.member2group[user as usize];
        let b = &self.group2group[group as usize];
        intersect_galloping(a, b)
    }
}

proof fn lemma_push_contains(s: Seq<u32>, x: u32, y: u32)
    ensures
        s.push(x).contains(y) <==> s.contains(y) || x == y,
{
    assert(s.push(x)[s.len() as int] == x);
    if s.contains(y) {
        let i = choose|i: int| 0 <= i < s.len() && s[i] == y;
        assert(s.push(x)[i] == y);
    }
}

proof fn lemma_sub_closed(store: &RelStore, g: usize, x: usize)
    requires
        store.well_formed(),
        g < store.children@.len(),
        graph::reach(store.sub(), g, x),
    ensures
        x < store.children@.len(),
{
    let e = store.sub();
    let p = choose|p: Seq<usize>| #[trigger] graph::walks(e, p, g, x);
    let inside = |v: usize| v < store.children@.len();
    assert forall|a: usize, b: usize| inside(a) && #[trigger] e(a, b) implies inside(b) by {
        let c = store.children@[a as int]@;
        let k = choose|k: int| 0 <= k < c.len() && c[k] == b as u32;
        assert(store.children@[a as int]@[k] < store.children@.len());
    }
    graph::lemma_closed_under_walks(e, inside, p, g, x);
}

/// For each user the groups that they are a direct member of, ascending.
fn direct_groups(store: &RelStore) -> (r: Vec<Vec<u32>>)
    requires
        store.well_formed(),
        store.n_users <= 0x1_0000_0000,
    ensures
        r@.len() == store.n_users,
        forall|u: int|
            0 <= u < r@.len() ==> sorting::is_strict((#[trigger] r@[u])@),
        forall|u: int, g: u32|
            0 <= u < r@.len() ==> (#[trigger] r@[u]@.contains(g) <==> store.direct(
                u as u32,
                g as usize,
            )),
{
    let n = store.children.len();
    let mut r: Vec<Vec<u32>> = math::empty_lists(store.n_users);
    for g in 0..n
        invariant
            store.well_formed(),
            n == store.children@.len(),
            store.n_users <= 0x1_0000_0000,
            r@.len() == store.n_users,
            forall|u: int|
                0 <= u < r@.len() ==> sorting::is_strict((#[trigger] r@[u])@) && r@[u]@.len() <= g,
            forall|u: int, h: u32|
                0 <= u < r@.len() ==> (#[trigger] r@[u]@.contains(h) <==> h < g && store.direct(
                    u as u32,
                    h as usize,
                )),
    {
        let list = &store.direct_users[g];
        for k in 0..list.len()
            invariant
                store.well_formed(),
                n == store.children@.len(),
                g < n,
                store.n_users <= 0x1_0000_0000,
                list@ == store.direct_users@[g as int]@,
                r@.len() == store.n_users,
                forall|u: int|
                    0 <= u < r@.len() ==> sorting::is_strict((#[trigger] r@[u])@) && r@[u]@.len()
                        <= g + (if list@.take(k as int).contains(u as u32) {
                        1int
                    } else {
                        0
                    }),
                forall|u: int, h: u32|
                    0 <= u < r@.len() ==> (#[trigger] r@[u]@.contains(h) <==> (h < g
                        && store.direct(u as u32, h as usize)) || (h == g && list@.take(
                        k as int,
                    ).contains(u as u32))),
        {
            let u = list[k] as usize;
            assert(store.direct_users@[g as int]@[k as int] < store.n_users);
            let len = r[u].len();
            let ghost r0 = r@;
            if len == 0 || r[u][len - 1] != g as u32 {
                proof {
                    assert(!r0[u as int]@.contains(g as u32)) by {
                        if r0[u as int]@.contains(g as u32) {
                            let s = r0[u as int]@;
                            let i = choose|i: int| 0 <= i < s.len() && s[i] == g as u32;
                            assert(s.contains(s[len - 1]));
                            if i < len - 1 {
                                assert(sorting::Keyed::key(&s[i]) < sorting::Keyed::key(&s[len - 1]));
                            }
                        }
                    }
                }
                r[u].push(g as u32);
                proof {
                    let s = r0[u as int]@;
                    let s2 = r@[u as int]@;
                    assert(s2 =~= s.push(g as u32));
                    assert forall|i: int, j: int| 0 <= i < j < s2.len()
                        implies sorting::Keyed::key(&#[trigger] s2[i]) < sorting::Keyed::key(&#[trigger] s2[j]) by {
                        assert(s.contains(s[i]));
                        if j < s.len() {
                            assert(sorting::Keyed::key(&s[i]) < sorting::Keyed::key(&s[j]));
                        }
                    }
                }
            }
            proof {
                let t = list@.take(k as int);
                assert(list@.take(k + 1) =~= t.push(u as u32));
                assert forall|v: int, h: u32| 0 <= v < r@.len()
                    implies (#[trigger] r@[v]@.contains(h) <==> (h < g
                    && store.direct(v as u32, h as usize)) || (h == g && list@.take(
                    k + 1,
                ).contains(v as u32))) by {
                    lemma_push_contains(t, u as u32, v as u32);
                    assert(r0[v]@.contains(h) <==> (h < g && store.direct(v as u32, h as usize)) || (
                    h == g && t.contains(v as u32)));
                    if v == u {
                        lemma_push_contains(r0[v]@, g as u32, h);
                        if r@ == r0 {
                            assert(r0[v]@[len - 1] == g as u32);
                            assert(r0[v]@.contains(g as u32));
                        }
                    }
                }
                assert forall|v: int| 0 <= v < r@.len()
                    implies sorting::is_strict((#[trigger] r@[v])@) && r@[v]@.len()
                    <= g + (if list@.take(k + 1).contains(v as u32) {
                    1int
                } else {
                    0
                }) by {
                    lemma_push_contains(t, u as u32, v as u32);
                    assert(sorting::is_strict(r0[v]@));
                    if v == u {
                        assert(r0[v]@.contains(g as u32) <==> t.contains(v as u32));
                    }
                }
            }
        }
        proof {
            assert(list@.take(list@.len() as int) =~= list@);
            assert forall|u: int, h: u32| 0 <= u < r@.len()
                implies (#[trigger] r@[u]@.contains(h) <==> h < g + 1 && store.direct(
                    u as u32,
                    h as usize,
                )) by {}
        }
    }
    r
}

/// The index answers exactly what pointer chasing answers.
pub proof fn lemma_index_answers_membership(
    store: &RelStore,
    index: &LeopardIndex,
    user: u32,
    group: u32,
)
    requires
        store.well_formed(),
        index.indexes(store),
        user < store.n_users,
        group < store.children@.len(),
    ensures
        meet(index.member2group@[user as int]@, index.group2group@[group as int]@)
            == store.member(user, group as usize),
{
    let a = index.member2group@[user as int]@;
    let b = index.group2group@[group as int]@;
    if meet(a, b) {
        let x = choose|x: u32| #[trigger] a.contains(x) && b.contains(x);
        assert(index.member2group@[user as int]@.contains(x));
        assert(index.group2group@[group as int]@.contains(x));
        assert(graph::reach(store.sub(), group as usize, x as usize));
    }
    if store.member(user, group as usize) {
        let g = choose|g: usize| #[trigger]
            graph::reach(store.sub(), group as usize, g) && store.direct(user, g);
        lemma_sub_closed(store, group as usize, g);
        let x = g as u32;
        assert(index.member2group@[user as int]@.contains(x));
        assert(index.group2group@[group as int]@.contains(x));
        assert(a.contains(x) && b.contains(x));
    }
}

/// The sub-groups of group `g` in a nest of the given shape: of a chain group
/// the next one of the chain and its decoys, of a decoy none.
pub open spec fn nest_children(depth: int, width: int, g: int) -> Seq<u32> {
    if g >= depth {
        Seq::empty()
    } else {
        let decoys = Seq::new(width as nat, |w: int| (depth + g * width + w) as u32);
        if g + 1 < depth {
            seq![(g + 1) as u32] + decoys
        } else {
            decoys
        }
    }
}

/// `store` is the nest that the drawn decoy members describe.
pub open spec fn is_nest(
    store: &RelStore,
    depth: int,
    width: int,
    members: Seq<Vec<u32>>,
    n_users: int,
) -> bool {
    &&& store.well_formed()
    &&& store.n_users == n_users
    &&& store.children@.len() == depth * (1 + width)
    &&& forall|g: int|
        0 <= g < depth * (1 + width) ==> (#[trigger] store.children@[g])@ == nest_children(
            depth,
            width,
            g,
        )
    &&& forall|g: int|
        0 <= g < depth - 1 ==> (#[trigger] store.direct_users@[g])@ == Seq::<u32>::empty()
    &&& store.direct_users@[depth - 1]@ == seq![(n_users - 1) as u32]
    &&& forall|g: int|
        depth <= g < depth * (1 + width) ==> sorting::is_strict(
            (#[trigger] store.direct_users@[g])@,
        )
    &&& forall|g: int, x: u32|
        depth <= g < depth * (1 + width) ==> (#[trigger] store.direct_users@[g]@.contains(x)
            <==> members[g - depth]@.contains(x))
}

/// The group ids of the nest fit, and the needle is a user.
pub open spec fn nest_fits(depth: usize, width: usize, n_users: usize) -> bool {
    &&& depth >= 1
    &&& depth * (1 + width) <= 0x1_0000_0000
    &&& 2 * (depth * (1 + width)) <= usize::MAX
    &&& 1 <= n_users <= u32::MAX
}

proof fn lemma_decoy_place(depth: int, width: int, g: int, w: int)
    requires
        0 <= g < depth,
        0 <= w < width,
    ensures
        depth <= depth + g * width + w < depth * (1 + width),
{
    assert(g * width + width <= depth * width) by (nonlinear_arith)
        requires
            g + 1 <= depth,
            0 <= width,
    ;
    assert(g * width >= 0) by (nonlinear_arith)
        requires
            0 <= g,
            0 <= width,
    ;
    assert(depth * (1 + width) == depth + depth * width) by (nonlinear_arith);
}

/// Puts a nest together from the members of its decoys.
pub fn nest(depth: usize, width: usize, members: &Vec<Vec<u32>>, n_users: usize) -> (r: (
    RelStore,
    u32,
))
    requires
        nest_fits(depth, width, n_users),
        members@.len() == depth * width,
        forall|t: int, k: int|
            0 <= t < members@.len() && 0 <= k < members@[t]@.len() ==> #[trigger] members@[t]@[k]
                < n_users - 1,
    ensures
        is_nest(&r.0, depth as int, width as int, members@, n_users as int),
        r.1 == n_users - 1,
{
    let deep_user = (n_users - 1) as u32;
    let mut children: Vec<Vec<u32>> = Vec::new();
    let mut direct_users: Vec<Vec<u32>> = Vec::new();
    assert(depth * (1 + width) == depth + depth * width) by (nonlinear_arith);
    let n = depth + members.len();
    let mut next = depth;
    assert(0 * width == 0) by (nonlinear_arith);
    for g in 0..depth
        invariant
            nest_fits(depth, width, n_users),
            n == depth * (1 + width),
            depth <= n,
            deep_user == n_users - 1,
            next == depth + g * width,
            children@.len() == g,
            direct_users@.len() == g,
            forall|h: int|
                0 <= h < g ==> (#[trigger] children@[h])@ == nest_children(
                    depth as int,
                    width as int,
                    h,
                ),
            forall|h: int|
                0 <= h < g && h < depth - 1 ==> (#[trigger] direct_users@[h])@ == Seq::<
                    u32,
                >::empty(),
            g == depth ==> direct_users@[depth - 1]@ == seq![(n_users - 1) as u32],
    {
        let mut row: Vec<u32> = Vec::new();
        if g + 1 < depth {
            row.push((g + 1) as u32);
        }
        let ghost head = row@;
        for w in 0..width
            invariant
                nest_fits(depth, width, n_users),
                n == depth * (1 + width),
                g < depth,
                next == depth + g * width + w,
                row@ == head + Seq::new(w as nat, |w: int| (depth + g * width + w) as u32),
        {
            proof {
                lemma_decoy_place(depth as int, width as int, g as int, w as int);
            }
            row.push(next as u32);
            next += 1;
        }
        proof {
            assert(row@ =~= nest_children(depth as int, width as int, g as int));
            assert(depth + g * width + width == depth + (g + 1) * width) by (nonlinear_arith);
        }
        children.push(row);
        let mut users: Vec<u32> = Vec::new();
        if g + 1 == depth {
            users.push(deep_user);
            assert(users@ =~= seq![(n_users - 1) as u32]);
        }
        direct_users.push(users);
    }
    for t in 0..members.len()
        invariant
            nest_fits(depth, width, n_users),
            n == depth * (1 + width),
            n == depth + members@.len(),
            children@.len() == depth + t,
            direct_users@.len() == depth + t,
            forall|h: int|
                0 <= h < depth + t ==> (#[trigger] children@[h])@ == nest_children(
                    depth as int,
                    width as int,
                    h,
                ),
            forall|h: int|
                0 <= h < depth - 1 ==> (#[trigger] direct_users@[h])@ == Seq::<u32>::empty(),
            direct_users@[depth - 1]@ == seq![(n_users - 1) as u32],
            forall|h: int|
                depth <= h < depth + t ==> sorting::is_strict((#[trigger] direct_users@[h])@),
            forall|h: int, x: u32|
                depth <= h < depth + t ==> (#[trigger] direct_users@[h]@.contains(x)
                    <==> members@[h - depth]@.contains(x)),
    {
        let none: Vec<u32> = Vec::new();
        assert(none@ =~= nest_children(depth as int, width as int, depth + t));
        children.push(none);
        let row = sorting::sorted_distinct(&members[t]);
        direct_users.push(row);
    }
    let store = RelStore { direct_users, children, n_users };
    proof {
        assert forall|g: int, k: int| 0 <= g < store.children@.len() && 0 <= k < store.children@[g]@.len()
            implies #[trigger] store.children@[g]@[k]
            < store.children@.len() by {
            assert(store.children@[g]@ == nest_children(depth as int, width as int, g));
            let first: int = if g + 1 < depth {
                1
            } else {
                0
            };
            if k >= first {
                lemma_decoy_place(depth as int, width as int, g, k - first);
            }
        }
        assert forall|g: int, k: int| 0 <= g < store.direct_users@.len() && 0 <= k < store.direct_users@[g]@.len()
            implies #[trigger] store.direct_users@[g]@[k]
            < n_users by {
            let x = store.direct_users@[g]@[k];
            if g >= depth {
                assert(store.direct_users@[g]@.contains(x));
                let m = members@[g - depth]@;
                let i = choose|i: int| 0 <= i < m.len() && m[i] == x;
                assert(members@[g - depth]@[i] < n_users - 1);
            } else if g < depth - 1 {
                assert(store.direct_users@[g]@ == Seq::<u32>::empty());
            }
        }
        assert forall|g: int| 0 <= g < store.direct_users@.len()
            implies sorting::is_sorted((#[trigger] store.direct_users@[g])@) by {
            if g >= depth {
                assert(sorting::is_strict(store.direct_users@[g]@));
                let s = store.direct_users@[g]@;
                assert forall|i: int, j: int| 0 <= i <= j < s.len()
                    implies sorting::Keyed::key(&#[trigger] s[i]) <= sorting::Keyed::key(&#[trigger] s[j]) by {
                    if i < j {
                        assert(sorting::Keyed::key(&s[i]) < sorting::Keyed::key(&s[j]));
                    }
                }
            } else if g < depth - 1 {
                assert(store.direct_users@[g]@ == Seq::<u32>::empty());
            }
        }
    }
    (store, deep_user)
}

/// A nest of groups: one chain of `depth` groups from group 0 down, at every
/// level `width` decoy groups with ordinary members, and one user, the last,
/// who is a direct member of the deepest chain group alone.
pub fn nested_groups(
    rng: &mut ChaCha8Rng,
    depth: usize,
    width: usize,
    members_per_group: usize,
    n_users: usize,
) -> (r: (RelStore, u32))
    requires
        nest_fits(depth, width, n_users),
        width > 0 && members_per_group > 0 ==> n_users >= 2,
    ensures
        exists|members: Vec<Vec<u32>>| #[trigger]
            is_nest(&r.0, depth as int, width as int, members@, n_users as int)
                && members@.len() == depth * width && (forall|t: int|
                0 <= t < members@.len() ==> (#[trigger] members@[t])@ == rng::range_draws_u32(
                    rng::after_rows_u32(
                        rng::words(*old(rng)),
                        0,
                        (n_users - 1) as u32,
                        members_per_group as nat,
                        t as nat,
                    ),
                    0,
                    (n_users - 1) as u32,
                    members_per_group as nat,
                ).0) && (forall|t: int, k: int|
                0 <= t < members@.len() && 0 <= k < members@[t]@.len()
                    ==> #[trigger] members@[t]@[k] < n_users - 1),
        r.1 == n_users - 1,
        rng::words(*final(rng)) == rng::after_rows_u32(
            rng::words(*old(rng)),
            0,
            (n_users - 1) as u32,
            members_per_group as nat,
            (depth * width) as nat,
        ),
{
    proof {
        assert(depth * (1 + width) == depth + depth * width) by (nonlinear_arith);
        assert(depth * width > 0 ==> width > 0) by (nonlinear_arith)
            requires
                width >= 0,
        ;
        assert(depth * width >= 0) by (nonlinear_arith)
            requires
                width >= 0,
                depth >= 0,
        ;
    }
    let members = rng::draw_rows_u32(
        rng,
        0,
        (n_users - 1) as u32,
        members_per_group,
        depth * width,
    );
    nest(depth, width, &members, n_users)
}

/// The needle is found from every group of the chain and from no decoy.
pub proof fn lemma_needle(
    store: &RelStore,
    depth: int,
    width: int,
    members: Seq<Vec<u32>>,
    n_users: int,
    g: int,
)
    requires
        is_nest(store, depth, width, members, n_users),
        depth >= 1,
        width >= 0,
        1 <= n_users <= u32::MAX,
        0 <= g < store.children@.len(),
        forall|t: int, k: int|
            0 <= t < members.len() && 0 <= k < members[t]@.len() ==> #[trigger] members[t]@[k]
                < n_users - 1,
        members.len() == depth * width,
    ensures
        store.member((n_users - 1) as u32, g as usize) <==> g < depth,
    decreases depth - g,
{
    let e = store.sub();
    let needle = (n_users - 1) as u32;
    assert(depth * (1 + width) == depth + depth * width) by (nonlinear_arith);
    if g >= depth {
        if store.member(needle, g as usize) {
            let h = choose|h: usize| #[trigger] graph::reach(e, g as usize, h) && store.direct(needle, h);
            let p = choose|p: Seq<usize>| #[trigger] graph::walks(e, p, g as usize, h);
            if p.len() > 1 {
                assert(e(p[0], p[1]));
                assert(store.children@[g]@ == nest_children(depth, width, g));
            }
            assert(store.direct_users@[g]@.contains(needle));
            let m = members[g - depth]@;
            let i = choose|i: int| 0 <= i < m.len() && m[i] == needle;
            assert(members[g - depth]@[i] < n_users - 1);
        }
    } else if g == depth - 1 {
        graph::lemma_reach_self(e, g as usize);
        assert(store.direct_users@[g]@[0] == needle);
        assert(store.direct(needle, g as usize));
    } else {
        lemma_needle(store, depth, width, members, n_users, g + 1);
        let h = choose|h: usize| #[trigger]
            graph::reach(e, (g + 1) as usize, h) && store.direct(needle, h);
        let p = choose|p: Seq<usize>| #[trigger] graph::walks(e, p, (g + 1) as usize, h);
        assert(store.children@[g]@ == nest_children(depth, width, g));
        assert(store.children@[g]@[0] == (g + 1) as u32);
        assert(e(g as usize, (g + 1) as usize));
        let q = seq![g as usize, (g + 1) as usize];
        assert(graph::walks(e, q, g as usize, (g + 1) as usize));
        graph::lemma_walk_join(e, q, p, g as usize, (g + 1) as usize, h);
        assert(graph::reach(e, g as usize, h));
    }
}

} // verus!
