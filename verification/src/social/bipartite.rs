//! Users, the items they engaged with, and the engagements held back.
//!
//! Two properties are planted. A user's interests concentrate on communities,
//! so that there is something to personalize to. And popularity has a heavy
//! head: a few items collect most of the edges, which is what a naive walk
//! latches onto.

pub use crate::rng::seeded_rng;

use crate::rng;
use crate::sorting;
use crate::zipf;
use crate::zipf::Zipf;
use rand_chacha::ChaCha8Rng;
use vstd::prelude::*;

verus! {

#[derive(Clone, Copy, Debug)]
pub struct BipartiteConfig {
    pub n_users: usize,
    pub n_items: usize,
    pub n_communities: usize,
    pub edges_per_user: usize,
    /// How much of a user's edges is drawn from a community of theirs, in
    /// units of 2^-53. The rest follows global popularity.
    pub community_purity: u64,
    /// Held-out edges per user, used as the prediction target.
    pub holdout_per_user: usize,
    /// How many communities a user draws from.
    pub interests_per_user: usize,
}

impl Default for BipartiteConfig {
    fn default() -> (c: BipartiteConfig)
        ensures
            c == (BipartiteConfig {
                n_users: 3_000,
                n_items: 6_000,
                n_communities: 30,
                edges_per_user: 20,
                community_purity: 0x18_0000_0000_0000,
                holdout_per_user: 2,
                interests_per_user: 1,
            }),
    {
        BipartiteConfig {
            n_users: 3_000,
            n_items: 6_000,
            n_communities: 30,
            edges_per_user: 20,
            community_purity: 0x18_0000_0000_0000,
            holdout_per_user: 2,
            interests_per_user: 1,
        }
    }
}

impl BipartiteConfig {
    /// Items per community; the last one has what is left over as well.
    pub open spec fn per_community(&self) -> int {
        self.n_items as int / self.n_communities as int
    }

    /// How many communities a user has.
    pub open spec fn interests(&self) -> nat {
        let wanted = if self.interests_per_user == 0 {
            1
        } else {
            self.interests_per_user
        };
        if wanted < self.n_communities {
            wanted as nat
        } else {
            self.n_communities as nat
        }
    }

    /// How many engagements a user should have, with those held out.
    pub open spec fn wanted(&self) -> nat {
        (self.edges_per_user + self.holdout_per_user) as nat
    }

    /// Every community has an item, and the numbers fit the machine.
    pub open spec fn fits(&self) -> bool {
        &&& 1 <= self.n_communities <= self.n_items <= u32::MAX
        &&& self.n_users <= u32::MAX
        &&& self.wanted() * 20 <= usize::MAX
    }
}

/// The community of an item: contiguous blocks.
pub open spec fn community_of(cfg: BipartiteConfig, i: int) -> int {
    let c = i / cfg.per_community();
    if c < cfg.n_communities - 1 {
        c
    } else {
        cfg.n_communities - 1
    }
}

/// How many items a community has.
pub open spec fn block_len(cfg: BipartiteConfig, c: int) -> int {
    if c == cfg.n_communities - 1 {
        cfg.n_items - c * cfg.per_community()
    } else {
        cfg.per_community()
    }
}

/// The item at a place of a community, or the last one where the place is
/// behind the end.
pub open spec fn block_item(cfg: BipartiteConfig, c: int, place: int) -> u32 {
    let len = block_len(cfg, c);
    (c * cfg.per_community() + if place < len {
        place
    } else {
        len - 1
    }) as u32
}

/// A list with one more item, unless it is there.
pub open spec fn with_item(list: Seq<u32>, x: u32) -> Seq<u32> {
    if list.contains(x) {
        list
    } else {
        list.push(x)
    }
}

/// Communities are drawn until there are enough, or `draws` are used up.
pub open spec fn drawn_interests(
    n: u64,
    list: Seq<u32>,
    stream: Map<nat, u32>,
    want: nat,
    draws: nat,
) -> (Seq<u32>, Map<nat, u32>)
    decreases draws,
{
    if list.len() >= want || draws == 0 {
        (list, stream)
    } else {
        let (c, used) = rng::range_draw(stream, 0, n);
        drawn_interests(
            n,
            with_item(list, c as u32),
            rng::skip_words(stream, used),
            want,
            (draws - 1) as nat,
        )
    }
}

/// The communities of the first `n` users, each list in order.
pub open spec fn all_interests(cfg: BipartiteConfig, stream: Map<nat, u32>, n: nat) -> (
    Seq<Seq<u32>>,
    Map<nat, u32>,
)
    decreases n,
{
    if n == 0 {
        (Seq::empty(), stream)
    } else {
        let (before, rest) = all_interests(cfg, stream, (n - 1) as nat);
        let (mine, end) = drawn_interests(
            cfg.n_communities as u64,
            Seq::empty(),
            rest,
            cfg.interests(),
            u64::MAX as nat,
        );
        (before.push(sorting::ascending(mine)), end)
    }
}

/// What all users draw from: the items in order of popularity, and how steep
/// popularity is among all items and within a community.
pub ghost struct Market {
    pub ranked: Seq<u32>,
    pub global: Seq<u64>,
    pub local: Seq<u64>,
}

/// One engagement: an item of a community of the user's, or a popular one.
pub open spec fn engagement(
    cfg: BipartiteConfig,
    m: Market,
    mine: Seq<u32>,
    stream: Map<nat, u32>,
) -> (u32, Map<nat, u32>) {
    let (x, used) = rng::range_draw(stream, 0, mine.len() as u64);
    let coin = rng::skip_words(stream, used);
    let after = rng::skip_words(coin, 2);
    if rng::first_u64(coin) / 2048 < cfg.community_purity {
        let (place, end) = zipf::ranked(m.local, after);
        (block_item(cfg, mine[x as int] as int, place as int), end)
    } else {
        let (place, end) = zipf::ranked(m.global, after);
        (m.ranked[place as int], end)
    }
}

/// Engagements are drawn until there are enough, or `tries` are used up.
pub open spec fn engagements(
    cfg: BipartiteConfig,
    m: Market,
    mine: Seq<u32>,
    list: Seq<u32>,
    stream: Map<nat, u32>,
    tries: nat,
) -> (Seq<u32>, Map<nat, u32>)
    decreases tries,
{
    if list.len() >= cfg.wanted() || tries == 0 {
        (list, stream)
    } else {
        let (item, rest) = engagement(cfg, m, mine, stream);
        engagements(cfg, m, mine, with_item(list, item), rest, (tries - 1) as nat)
    }
}

/// A list in the order that a shuffle gives it.
pub open spec fn shuffled(items: Seq<u32>, stream: Map<nat, u32>) -> Seq<u32> {
    Seq::new(items.len(), |i: int| items[rng::shuffle_draw(stream, items.len()).0[i]])
}

/// How many of `n` engagements are held out: one is always left.
pub open spec fn held_len(cfg: BipartiteConfig, n: nat) -> nat {
    if n == 0 {
        0
    } else if cfg.holdout_per_user < n {
        cfg.holdout_per_user as nat
    } else {
        (n - 1) as nat
    }
}

/// The last `h` items with their user, the last one first.
pub open spec fn held_out(u: u32, items: Seq<u32>, h: nat) -> Seq<(u32, u32)> {
    Seq::new(h, |i: int| (u, items[items.len() - 1 - i]))
}

/// The engagements of one user that stay, those held out, and the stream that
/// is left.
pub open spec fn user_row(
    cfg: BipartiteConfig,
    m: Market,
    u: u32,
    mine: Seq<u32>,
    stream: Map<nat, u32>,
) -> (Seq<u32>, Seq<(u32, u32)>, Map<nat, u32>) {
    let (drawn, rest) = engagements(cfg, m, mine, Seq::empty(), stream, cfg.wanted() * 20);
    let mixed = shuffled(sorting::ascending(drawn), rest);
    let h = held_len(cfg, mixed.len());
    (
        sorting::ascending(mixed.take(mixed.len() - h)),
        held_out(u, mixed, h),
        rng::skip_words(rest, rng::shuffle_draw(rest, mixed.len()).1),
    )
}

/// The same of the first `n` users.
pub open spec fn user_rows(
    cfg: BipartiteConfig,
    m: Market,
    interests: Seq<Seq<u32>>,
    stream: Map<nat, u32>,
    n: nat,
) -> (Seq<Seq<u32>>, Seq<(u32, u32)>, Map<nat, u32>)
    decreases n,
{
    if n == 0 {
        (Seq::empty(), Seq::empty(), stream)
    } else {
        let (rows, held, rest) = user_rows(cfg, m, interests, stream, (n - 1) as nat);
        let (row, more, end) = user_row(cfg, m, (n - 1) as u32, interests[n - 1], rest);
        (rows.push(row), held + more, end)
    }
}

/// The users among the first `n` that have an item.
pub open spec fn fans(rows: Seq<Seq<u32>>, i: u32, n: nat) -> Seq<u32>
    decreases n,
{
    if n == 0 {
        Seq::empty()
    } else {
        let before = fans(rows, i, (n - 1) as nat);
        if rows[n - 1].contains(i) {
            before.push((n - 1) as u32)
        } else {
            before
        }
    }
}

/// The items in order.
pub open spec fn numbered(n: nat) -> Seq<u32> {
    Seq::new(n, |i: int| i as u32)
}

pub open spec fn rows_of(lists: Seq<Vec<u32>>) -> Seq<Seq<u32>> {
    Seq::new(lists.len(), |u: int| lists[u]@)
}

#[derive(Debug)]
pub struct Bipartite {
    pub n_users: usize,
    pub n_items: usize,
    /// The items that each user engaged with, without those held out.
    pub user_adj: Vec<Vec<u32>>,
    /// The users of each item, likewise.
    pub item_adj: Vec<Vec<u32>>,
    /// The first community of each user.
    pub user_community: Vec<u32>,
    pub item_community: Vec<u32>,
    /// The engagements that were taken out: the answer key.
    pub holdout: Vec<(u32, u32)>,
}

pub open spec fn held_items(holdout: Seq<(u32, u32)>, u: u32, n: nat) -> Seq<u32>
    decreases n,
{
    if n == 0 {
        Seq::empty()
    } else {
        let before = held_items(holdout, u, (n - 1) as nat);
        if holdout[n - 1].0 == u {
            before.push(holdout[n - 1].1)
        } else {
            before
        }
    }
}

impl Bipartite {
    /// Every list is in order without repeats, both sides tell the same edges,
    /// and what is held out is not among them.
    pub open spec fn well_formed(&self) -> bool {
        &&& self.n_users <= u32::MAX
        &&& self.n_items <= u32::MAX
        &&& self.user_adj@.len() == self.n_users
        &&& self.item_adj@.len() == self.n_items
        &&& forall|u: int|
            0 <= u < self.n_users ==> sorting::is_strict((#[trigger] self.user_adj@[u])@)
        &&& forall|u: int, k: int|
            0 <= u < self.n_users && 0 <= k < self.user_adj@[u]@.len()
                ==> #[trigger] self.user_adj@[u]@[k] < self.n_items
        &&& forall|i: int|
            0 <= i < self.n_items ==> (#[trigger] self.item_adj@[i])@ == fans(
                rows_of(self.user_adj@),
                i as u32,
                self.n_users as nat,
            )
        &&& forall|k: int|
            0 <= k < self.holdout@.len() ==> (#[trigger] self.holdout@[k]).0 < self.n_users
                && self.holdout@[k].1 < self.n_items
                && !self.user_adj@[self.holdout@[k].0 as int]@.contains(self.holdout@[k].1)
    }

    pub fn item_degree(&self, i: u32) -> (d: usize)
        requires
            i < self.item_adj@.len(),
        ensures
            d == self.item_adj@[i as int]@.len(),
    {
        self.item_adj[i as usize].len()
    }

    pub fn user_degree(&self, u: u32) -> (d: usize)
        requires
            u < self.user_adj@.len(),
        ensures
            d == self.user_adj@[u as int]@.len(),
    {
        self.user_adj[u as usize].len()
    }

    /// The items that were held out of a user's engagements.
    pub fn holdout_for(&self, u: u32) -> (items: Vec<u32>)
        ensures
            items@ == held_items(self.holdout@, u, self.holdout@.len()),
    {
        let mut items: Vec<u32> = Vec::new();
        for k in 0..self.holdout.len()
            invariant
                items@ == held_items(self.holdout@, u, k as nat),
        {
            if self.holdout[k].0 == u {
                items.push(self.holdout[k].1);
            }
        }
        items
    }
}

/// Whether a list holds an item.
pub(crate) fn has_item(list: &Vec<u32>, x: u32) -> (b: bool)
    ensures
        b == list@.contains(x),
{
    for i in 0..list.len()
        invariant
            forall|j: int| 0 <= j < i ==> #[trigger] list@[j] != x,
    {
        if list[i] == x {
            return true;
        }
    }
    false
}

pub(crate) fn add_item(list: &mut Vec<u32>, x: u32)
    ensures
        final(list)@ == with_item(old(list)@, x),
{
    if !has_item(list, x) {
        list.push(x);
    }
}

fn sort_items(list: &Vec<u32>) -> (r: Vec<u32>)
    ensures
        r@ == sorting::ascending(list@),
{
    let r = sorting::sorted(list);
    proof {
        sorting::lemma_ascending(list@, r@);
    }
    r
}

/// Distinct numbers below a bound.
pub open spec fn is_choice(list: Seq<u32>, n: int) -> bool {
    &&& list.no_duplicates()
    &&& forall|i: int| 0 <= i < list.len() ==> #[trigger] list[i] < n
}

/// Adding a number below the bound leaves a choice.
pub proof fn lemma_choice_step(list: Seq<u32>, x: u32, n: int)
    requires
        is_choice(list, n),
        x < n,
    ensures
        is_choice(with_item(list, x), n),
        with_item(list, x).len() > 0,
{
    let next = with_item(list, x);
    if !list.contains(x) {
        assert forall|i: int, j: int| 0 <= i < next.len() && 0 <= j < next.len() && i != j
            implies next[i]
            != next[j] by {
            if i == list.len() {
                assert(list.contains(list[j]));
            } else if j == list.len() {
                assert(list.contains(list[i]));
            }
        }
    } else {
        let i = choose|i: int| 0 <= i < list.len() && list[i] == x;
        assert(list.len() > 0);
    }
}

proof fn lemma_choice_sorted(list: Seq<u32>, n: int)
    requires
        is_choice(list, n),
    ensures
        is_choice(sorting::ascending(list), n),
        sorting::is_strict(sorting::ascending(list)),
        sorting::ascending(list).len() == list.len(),
{
    let r = sorting::ascending(list);
    sorting::lemma_ascending_items(list);
    assert forall|i: int| 0 <= i < r.len() implies #[trigger] r[i] < n by {
        assert(r.contains(r[i]));
        let j = choose|j: int| 0 <= j < list.len() && list[j] == r[i];
        assert(list[j] < n);
    }
    assert forall|i: int, j: int| 0 <= i < r.len() && 0 <= j < r.len() && i != j
        implies r[i] != r[j] by {
        if i < j {
            assert(sorting::Keyed::key(&r[i]) < sorting::Keyed::key(&r[j]));
        } else {
            assert(sorting::Keyed::key(&r[j]) < sorting::Keyed::key(&r[i]));
        }
    }
}

/// The communities of one user.
fn draw_interests(rng: &mut ChaCha8Rng, cfg: &BipartiteConfig) -> (mine: Vec<u32>)
    requires
        cfg.fits(),
    ensures
        ({
            let d = drawn_interests(
                cfg.n_communities as u64,
                Seq::empty(),
                rng::words(*old(rng)),
                cfg.interests(),
                u64::MAX as nat,
            );
            mine@ == sorting::ascending(d.0) && rng::words(*final(rng)) == d.1
        }),
        mine@.len() > 0,
        is_choice(mine@, cfg.n_communities as int),
        cfg.interests_per_user <= 1 ==> mine@.len() == 1,
        mine@.len() <= cfg.n_communities,
        mine@.len() > 1 ==> mine@.len() <= cfg.interests_per_user,
{
    let wanted = if cfg.interests_per_user == 0 {
        1
    } else {
        cfg.interests_per_user
    };
    let want = if wanted < cfg.n_communities {
        wanted
    } else {
        cfg.n_communities
    };
    let mut list: Vec<u32> = Vec::new();
    let mut left: u64 = u64::MAX;
    let ghost whole = drawn_interests(
        cfg.n_communities as u64,
        Seq::empty(),
        rng::words(*rng),
        want as nat,
        u64::MAX as nat,
    );
    assert(list@ =~= Seq::empty());
    while list.len() < want && left > 0
        invariant
            cfg.fits(),
            want >= 1,
            whole == drawn_interests(
                cfg.n_communities as u64,
                list@,
                rng::words(*rng),
                want as nat,
                left as nat,
            ),
            left < u64::MAX ==> list@.len() > 0,
            list@.len() <= want,
            is_choice(list@, cfg.n_communities as int),
        decreases left,
    {
        let c = rng::gen_range(rng, 0, cfg.n_communities as u64);
        proof {
            lemma_choice_step(list@, c as u32, cfg.n_communities as int);
        }
        add_item(&mut list, c as u32);
        left = left - 1;
    }
    proof {
        lemma_choice_sorted(list@, cfg.n_communities as int);
    }
    sort_items(&list)
}

/// The blocks of the communities cover the items.
proof fn lemma_block(cfg: BipartiteConfig, c: int)
    requires
        cfg.fits(),
        0 <= c < cfg.n_communities,
    ensures
        cfg.per_community() >= 1,
        block_len(cfg, c) >= 1,
        0 <= c * cfg.per_community() <= cfg.n_items,
        c * cfg.per_community() + block_len(cfg, c) <= cfg.n_items,
{
    let n = cfg.n_items as int;
    let k = cfg.n_communities as int;
    let p = cfg.per_community();
    vstd::arithmetic::div_mod::lemma_fundamental_div_mod(n, k);
    vstd::arithmetic::div_mod::lemma_div_non_zero(n, k);
    assert(0 <= c * p && c * p + p <= k * p) by (nonlinear_arith)
        requires
            0 <= c < k,
            p >= 1,
    ;
}

/// The item is in the block of the community: the blocks have as many items each as
/// all have on average, rounded down, and the last goes to the end.
pub open spec fn in_block(cfg: BipartiteConfig, c: int, item: int) -> bool {
    let per = cfg.n_items as int / cfg.n_communities as int;
    &&& 0 <= c < cfg.n_communities
    &&& c * per <= item < cfg.n_items
    &&& c < cfg.n_communities - 1 ==> item < (c + 1) * per
}

/// The item is in the block of some community of the user's.
pub open spec fn is_of_interest(cfg: BipartiteConfig, mine: Seq<u32>, item: u32) -> bool {
    exists|x: int| 0 <= x < mine.len() && in_block(cfg, (#[trigger] mine[x]) as int, item as int)
}

/// Where engagements never leave the user's communities, these do not.
pub open spec fn suits(cfg: BipartiteConfig, mine: Seq<u32>, items: Seq<u32>) -> bool {
    cfg.community_purity >= 9_007_199_254_740_992 ==> forall|k: int|
        0 <= k < items.len() ==> is_of_interest(cfg, mine, #[trigger] items[k])
}

/// The items of held-out engagements.
pub open spec fn items_held(held: Seq<(u32, u32)>) -> Seq<u32> {
    Seq::new(held.len(), |k: int| held[k].1)
}

/// A user has engagements, at most as many as wanted, and at most as many of them
/// are held out as should be: as many, where more than one is left.
pub open spec fn is_sized(cfg: BipartiteConfig, kept: nat, held: nat) -> bool {
    &&& kept + held <= cfg.edges_per_user + cfg.holdout_per_user
    &&& held <= cfg.holdout_per_user
    &&& cfg.edges_per_user + cfg.holdout_per_user > 0 ==> kept >= 1
    &&& kept > 1 ==> held == cfg.holdout_per_user
}

/// What is part of a list that suits a user suits them.
proof fn lemma_suits_part(cfg: BipartiteConfig, mine: Seq<u32>, all: Seq<u32>, part: Seq<u32>)
    requires
        suits(cfg, mine, all),
        forall|k: int| 0 <= k < part.len() ==> all.contains(#[trigger] part[k]),
    ensures
        suits(cfg, mine, part),
{
    if cfg.community_purity >= 9_007_199_254_740_992 {
        assert forall|k: int| 0 <= k < part.len() implies is_of_interest(
            cfg,
            mine,
            #[trigger] part[k],
        ) by {
            let j = choose|j: int| 0 <= j < all.len() && all[j] == part[k];
            assert(is_of_interest(cfg, mine, all[j]));
        }
    }
}

/// Every item is in the block of its community.
proof fn lemma_community_block(cfg: BipartiteConfig, i: int)
    requires
        cfg.fits(),
        0 <= i < cfg.n_items,
    ensures
        in_block(cfg, community_of(cfg, i), i),
{
    lemma_block(cfg, 0);
    let per = cfg.per_community();
    let c = i / per;
    vstd::arithmetic::div_mod::lemma_fundamental_div_mod(i, per);
    vstd::arithmetic::div_mod::lemma_mod_bound(i, per);
    vstd::arithmetic::div_mod::lemma_div_pos_is_pos(i, per);
    assert(c * per == per * c && (c + 1) * per == per * c + per) by (nonlinear_arith);
    let last = cfg.n_communities - 1;
    if c >= last {
        assert(last * per <= c * per) by (nonlinear_arith)
            requires
                last <= c,
                per >= 1,
        ;
    }
}

/// Draws one engagement of a user.
fn draw_engagement(
    rng: &mut ChaCha8Rng,
    cfg: &BipartiteConfig,
    ranked: &Vec<u32>,
    global: &Zipf,
    local: &Zipf,
    mine: &Vec<u32>,
) -> (item: u32)
    requires
        cfg.fits(),
        ranked@.len() == cfg.n_items,
        is_choice(ranked@, cfg.n_items as int),
        global.well_formed(),
        global.steps@.len() == cfg.n_items,
        local.well_formed(),
        mine@.len() > 0,
        is_choice(mine@, cfg.n_communities as int),
    ensures
        (item, rng::words(*final(rng))) == engagement(
            *cfg,
            (Market { ranked: ranked@, global: global.steps@, local: local.steps@ }),
            mine@,
            rng::words(*old(rng)),
        ),
        item < cfg.n_items,
        cfg.community_purity >= 9_007_199_254_740_992 ==> is_of_interest(*cfg, mine@, item),
{
    let x = rng::draw_index(rng, 0, mine.len());
    let c = mine[x] as usize;
    assert(mine@[x as int] < cfg.n_communities);
    let ghost coin = rng::words(*rng);
    if rng::coin(rng, cfg.community_purity) {
        let place = local.sample(rng);
        proof {
            lemma_block(*cfg, c as int);
        }
        let per = cfg.n_items / cfg.n_communities;
        let start = c * per;
        let len = if c == cfg.n_communities - 1 {
            cfg.n_items - start
        } else {
            per
        };
        let at = if place < len {
            place
        } else {
            len - 1
        };
        proof {
            assert((c + 1) * per == c * per + per) by (nonlinear_arith);
            assert(in_block(*cfg, mine@[x as int] as int, start + at));
        }
        (start + at) as u32
    } else {
        proof {
            assert(coin[0] <= 0xffff_ffff && coin[1] <= 0xffff_ffff);
        }
        let place = global.sample(rng);
        assert(ranked@[place as int] < cfg.n_items);
        ranked[place]
    }
}

/// Draws the engagements of one user.
fn draw_engagements(
    rng: &mut ChaCha8Rng,
    cfg: &BipartiteConfig,
    ranked: &Vec<u32>,
    global: &Zipf,
    local: &Zipf,
    mine: &Vec<u32>,
) -> (list: Vec<u32>)
    requires
        cfg.fits(),
        ranked@.len() == cfg.n_items,
        is_choice(ranked@, cfg.n_items as int),
        global.well_formed(),
        global.steps@.len() == cfg.n_items,
        local.well_formed(),
        mine@.len() > 0,
        is_choice(mine@, cfg.n_communities as int),
    ensures
        (list@, rng::words(*final(rng))) == engagements(
            *cfg,
            (Market { ranked: ranked@, global: global.steps@, local: local.steps@ }),
            mine@,
            Seq::empty(),
            rng::words(*old(rng)),
            cfg.wanted() * 20,
        ),
        is_choice(list@, cfg.n_items as int),
        suits(*cfg, mine@, list@),
        list@.len() <= cfg.wanted(),
        cfg.wanted() > 0 ==> list@.len() > 0,
{
    let want = cfg.edges_per_user + cfg.holdout_per_user;
    let mut left = want * 20;
    let mut list: Vec<u32> = Vec::new();
    let ghost m = Market { ranked: ranked@, global: global.steps@, local: local.steps@ };
    let ghost whole = engagements(
        *cfg,
        m,
        mine@,
        Seq::empty(),
        rng::words(*rng),
        cfg.wanted() * 20,
    );
    assert(list@ =~= Seq::empty());
    while list.len() < want && left > 0
        invariant
            cfg.fits(),
            ranked@.len() == cfg.n_items,
            is_choice(ranked@, cfg.n_items as int),
            global.well_formed(),
            global.steps@.len() == cfg.n_items,
            local.well_formed(),
            mine@.len() > 0,
            is_choice(mine@, cfg.n_communities as int),
            want == cfg.wanted(),
            m == (Market { ranked: ranked@, global: global.steps@, local: local.steps@ }),
            whole == engagements(*cfg, m, mine@, list@, rng::words(*rng), left as nat),
            is_choice(list@, cfg.n_items as int),
            suits(*cfg, mine@, list@),
            list@.len() <= want,
            left < want * 20 ==> list@.len() > 0,
        decreases left,
    {
        let item = draw_engagement(rng, cfg, ranked, global, local, mine);
        proof {
            lemma_choice_step(list@, item, cfg.n_items as int);
        }
        add_item(&mut list, item);
        left = left - 1;
    }
    list
}

/// Shuffling keeps the items.
proof fn lemma_choice_shuffled(list: Seq<u32>, order: Seq<int>, n: int)
    requires
        is_choice(list, n),
        rng::is_order(order, list.len()),
    ensures
        is_choice(Seq::new(list.len(), |i: int| list[order[i]]), n),
{
    let r = Seq::new(list.len(), |i: int| list[order[i]]);
    assert forall|i: int| 0 <= i < r.len() implies #[trigger] r[i] < n by {
        assert(0 <= order[i] < list.len());
        assert(list[order[i]] < n);
    }
    assert forall|i: int, j: int| 0 <= i < r.len() && 0 <= j < r.len() && i != j
        implies r[i] != r[j] by {
        assert(0 <= order[i] < list.len() && 0 <= order[j] < list.len());
        if i < j {
            assert(order[i] != order[j]);
        } else {
            assert(order[j] != order[i]);
        }
    }
}

/// The held-out edges of one user: not among those that stay.
spec fn holds_out(u: u32, row: Seq<u32>, held: Seq<(u32, u32)>, n: int) -> bool {
    forall|k: int|
        0 <= k < held.len() ==> (#[trigger] held[k]).0 == u && held[k].1 < n && !row.contains(
            held[k].1,
        )
}

/// Draws the row of one user; what is held out goes to the answer key.
fn draw_row(
    rng: &mut ChaCha8Rng,
    cfg: &BipartiteConfig,
    ranked: &Vec<u32>,
    global: &Zipf,
    local: &Zipf,
    u: u32,
    mine: &Vec<u32>,
    holdout: &mut Vec<(u32, u32)>,
) -> (row: Vec<u32>)
    requires
        cfg.fits(),
        ranked@.len() == cfg.n_items,
        is_choice(ranked@, cfg.n_items as int),
        global.well_formed(),
        global.steps@.len() == cfg.n_items,
        local.well_formed(),
        mine@.len() > 0,
        is_choice(mine@, cfg.n_communities as int),
    ensures
        ({
            let r = user_row(
                *cfg,
                (Market { ranked: ranked@, global: global.steps@, local: local.steps@ }),
                u,
                mine@,
                rng::words(*old(rng)),
            );
            &&& row@ == r.0
            &&& final(holdout)@ == old(holdout)@ + r.1
            &&& rng::words(*final(rng)) == r.2
            &&& holds_out(u, r.0, r.1, cfg.n_items as int)
            &&& suits(*cfg, mine@, r.0)
            &&& suits(*cfg, mine@, items_held(r.1))
            &&& is_sized(*cfg, r.0.len(), r.1.len())
        }),
        sorting::is_strict(row@),
        is_choice(row@, cfg.n_items as int),
{
    let drawn = draw_engagements(rng, cfg, ranked, global, local, mine);
    let ghost rest = rng::words(*rng);
    let mut items = sort_items(&drawn);
    let ghost order = rng::shuffle_draw(rest, items@.len()).0;
    proof {
        lemma_choice_sorted(drawn@, cfg.n_items as int);
        lemma_choice_sorted(drawn@, cfg.n_items as int);
    }
    let ghost before = items@;
    rng::shuffle(&mut items, rng);
    let ghost mixed = items@;
    let ghost key = holdout@;
    proof {
        lemma_choice_shuffled(before, order, cfg.n_items as int);
        assert(mixed =~= shuffled(before, rest));
    }
    let n = items.len();
    let h = if n == 0 {
        0
    } else if cfg.holdout_per_user < n {
        cfg.holdout_per_user
    } else {
        n - 1
    };
    proof {
        assert(h == held_len(*cfg, mixed.len()));
        assert(mixed.take(n as int) =~= mixed);
        assert(holdout@ =~= key + held_out(u, mixed, 0));
    }
    for k in 0..h
        invariant
            n == mixed.len(),
            h < n || h == 0,
            items@ == mixed.take(n - k),
            holdout@ == key + held_out(u, mixed, k as nat),
    {
        match items.pop() {
            Some(item) => {
                holdout.push((u, item));
            },
            None => {},
        }
        proof {
            assert(items@ =~= mixed.take(n - (k + 1)));
            assert(holdout@ =~= key + held_out(u, mixed, (k + 1) as nat));
        }
    }
    let row = sort_items(&items);
    proof {
        let kept = mixed.take(n - h);
        assert(is_choice(kept, cfg.n_items as int)) by {
            assert forall|i: int| 0 <= i < kept.len() implies #[trigger] kept[i] < cfg.n_items by {
                assert(mixed[i] < cfg.n_items);
            }
        }
        lemma_choice_sorted(kept, cfg.n_items as int);
        sorting::lemma_ascending_items(kept);
        let held = held_out(u, mixed, h as nat);
        assert forall|k: int| 0 <= k < held.len() implies (#[trigger] held[k]).0 == u && held[k].1
            < cfg.n_items && !row@.contains(held[k].1) by {
            let x = mixed[n - 1 - k];
            assert(x < cfg.n_items);
            if row@.contains(x) {
                assert(kept.contains(x));
                let j = choose|j: int| 0 <= j < kept.len() && kept[j] == x;
                assert(mixed[j] == mixed[n - 1 - k]);
            }
        }
        sorting::lemma_ascending_items(drawn@);
        assert forall|k: int| 0 <= k < mixed.len() implies drawn@.contains(#[trigger] mixed[k]) by {
            assert(mixed[k] == before[order[k]]);
            assert(before.contains(before[order[k]]));
        }
        assert forall|k: int| 0 <= k < row@.len() implies drawn@.contains(#[trigger] row@[k]) by {
            assert(row@.contains(row@[k]));
            let j = choose|j: int| 0 <= j < kept.len() && kept[j] == row@[k];
            assert(drawn@.contains(mixed[j]));
        }
        lemma_suits_part(*cfg, mine@, drawn@, row@);
        let out = items_held(held);
        assert forall|k: int| 0 <= k < out.len() implies drawn@.contains(#[trigger] out[k]) by {
            assert(drawn@.contains(mixed[n - 1 - k]));
        }
        lemma_suits_part(*cfg, mine@, drawn@, out);
    }
    row
}

/// Lists are read alike where they hold the same.
proof fn lemma_fans_same(a: Seq<Seq<u32>>, b: Seq<Seq<u32>>, i: u32, n: nat)
    requires
        n <= a.len(),
        n <= b.len(),
        forall|u: int| 0 <= u < n ==> #[trigger] a[u] == b[u],
    ensures
        fans(a, i, n) == fans(b, i, n),
    decreases n,
{
    if n > 0 {
        lemma_fans_same(a, b, i, (n - 1) as nat);
        assert(a[n - 1] == b[n - 1]);
    }
}

/// The other side of the edges.
fn turn_around(rows: &Vec<Vec<u32>>, n_items: usize) -> (lists: Vec<Vec<u32>>)
    requires
        rows@.len() <= u32::MAX,
        n_items <= u32::MAX,
        forall|u: int| 0 <= u < rows@.len() ==> is_choice((#[trigger] rows@[u])@, n_items as int),
    ensures
        lists@.len() == n_items,
        forall|i: int|
            0 <= i < n_items ==> (#[trigger] lists@[i])@ == fans(
                rows_of(rows@),
                i as u32,
                rows@.len(),
            ),
{
    let mut lists: Vec<Vec<u32>> = crate::math::empty_lists(n_items);
    let ghost whole = rows_of(rows@);
    for u in 0..rows.len()
        invariant
            rows@.len() <= u32::MAX,
            n_items <= u32::MAX,
            whole == rows_of(rows@),
            forall|u: int|
                0 <= u < rows@.len() ==> is_choice((#[trigger] rows@[u])@, n_items as int),
            lists@.len() == n_items,
            forall|i: int|
                0 <= i < n_items ==> (#[trigger] lists@[i])@ == fans(whole, i as u32, u as nat),
    {
        let row = &rows[u];
        assert(is_choice(rows@[u as int]@, n_items as int));
        assert(whole[u as int] == row@);
        for k in 0..row.len()
            invariant
                u < rows@.len() <= u32::MAX,
                n_items <= u32::MAX,
                is_choice(row@, n_items as int),
                whole[u as int] == row@,
                lists@.len() == n_items,
                forall|i: int|
                    0 <= i < n_items ==> (#[trigger] lists@[i])@ == if row@.take(k as int).contains(
                        i as u32,
                    ) {
                        fans(whole, i as u32, u as nat).push(u as u32)
                    } else {
                        fans(whole, i as u32, u as nat)
                    },
        {
            let x = row[k] as usize;
            assert(row@[k as int] < n_items);
            let mut list: Vec<u32> = Vec::new();
            let ghost lists0 = lists@;
            std::mem::swap(&mut list, &mut lists[x]);
            list.push(u as u32);
            lists.set(x, list);
            proof {
                let t0 = row@.take(k as int);
                let t1 = row@.take(k + 1);
                assert(t1 =~= t0.push(row@[k as int]));
                if t0.contains(row@[k as int]) {
                    let j = choose|j: int| 0 <= j < t0.len() && t0[j] == row@[k as int];
                    assert(row@[j] == row@[k as int]);
                }
                assert forall|i: int| 0 <= i < n_items
                    implies (#[trigger] lists@[i])@ == if t1.contains(
                    i as u32,
                ) {
                    fans(whole, i as u32, u as nat).push(u as u32)
                } else {
                    fans(whole, i as u32, u as nat)
                } by {
                    assert(t1[k as int] == row@[k as int]);
                    if t0.contains(i as u32) {
                        let j = choose|j: int| 0 <= j < t0.len() && t0[j] == i as u32;
                        assert(t1[j] == i as u32);
                    }
                    if t1.contains(i as u32) {
                        let j = choose|j: int| 0 <= j < t1.len() && t1[j] == i as u32;
                        if j < k {
                            assert(t0[j] == i as u32);
                        }
                    }
                    if i != x {
                        assert(lists@[i] == lists0[i]);
                    }
                }
            }
        }
        assert(row@.take(row@.len() as int) =~= row@);
    }
    lists
}

/// What a seed and a configuration make: all of an instance but the other
/// side of its edges.
pub open spec fn is_instance(
    cfg: BipartiteConfig,
    global: Seq<u64>,
    local: Seq<u64>,
    stream: Map<nat, u32>,
    g: &Bipartite,
    end: Map<nat, u32>,
) -> bool {
    let (interests, s1) = all_interests(cfg, stream, cfg.n_users as nat);
    let ranked = shuffled(numbered(cfg.n_items as nat), s1);
    let s2 = rng::skip_words(s1, rng::shuffle_draw(s1, cfg.n_items as nat).1);
    let (rows, held, rest) = user_rows(
        cfg,
        (Market { ranked, global, local }),
        interests,
        s2,
        cfg.n_users as nat,
    );
    &&& g.n_users == cfg.n_users
    &&& g.n_items == cfg.n_items
    &&& rows_of(g.user_adj@) == rows
    &&& g.holdout@ == held
    &&& g.user_community@ == firsts(interests)
    &&& g.item_community@ == communities(cfg)
    &&& end == rest
}

/// The first entry of each list.
pub open spec fn firsts(lists: Seq<Seq<u32>>) -> Seq<u32> {
    Seq::new(lists.len(), |u: int| lists[u][0])
}

/// The community of each item.
pub open spec fn communities(cfg: BipartiteConfig) -> Seq<u32> {
    Seq::new(cfg.n_items as nat, |i: int| community_of(cfg, i) as u32)
}

fn draw_all_interests(rng: &mut ChaCha8Rng, cfg: &BipartiteConfig) -> (lists: Vec<Vec<u32>>)
    requires
        cfg.fits(),
    ensures
        lists@.len() == cfg.n_users,
        (rows_of(lists@), rng::words(*final(rng))) == all_interests(
            *cfg,
            rng::words(*old(rng)),
            cfg.n_users as nat,
        ),
        forall|u: int|
            0 <= u < lists@.len() ==> (#[trigger] lists@[u])@.len() > 0 && is_choice(
                lists@[u]@,
                cfg.n_communities as int,
            ),
        forall|u: int|
            0 <= u < lists@.len() && cfg.interests_per_user <= 1 ==> (
            #[trigger] lists@[u])@.len() == 1,
{
    let mut lists: Vec<Vec<u32>> = Vec::new();
    let ghost stream = rng::words(*rng);
    assert(rows_of(lists@) =~= Seq::empty());
    for u in 0..cfg.n_users
        invariant
            cfg.fits(),
            lists@.len() == u,
            (rows_of(lists@), rng::words(*rng)) == all_interests(*cfg, stream, u as nat),
            forall|u: int|
                0 <= u < lists@.len() && cfg.interests_per_user <= 1 ==> (
                #[trigger] lists@[u])@.len() == 1,
            forall|u: int|
                0 <= u < lists@.len() ==> (#[trigger] lists@[u])@.len() > 0 && is_choice(
                    lists@[u]@,
                    cfg.n_communities as int,
                ),
    {
        let ghost before = lists@;
        let mine = draw_interests(rng, cfg);
        lists.push(mine);
        assert(rows_of(lists@) =~= rows_of(before).push(mine@));
    }
    lists
}

fn list_communities(cfg: &BipartiteConfig) -> (list: Vec<u32>)
    requires
        cfg.fits(),
    ensures
        list@ == communities(*cfg),
{
    let per = cfg.n_items / cfg.n_communities;
    proof {
        lemma_block(*cfg, 0);
    }
    let mut list: Vec<u32> = Vec::new();
    for i in 0..cfg.n_items
        invariant
            cfg.fits(),
            per == cfg.per_community(),
            per >= 1,
            list@.len() == i,
            forall|j: int| 0 <= j < i ==> #[trigger] list@[j] == community_of(*cfg, j) as u32,
    {
        let c = i / per;
        let last = cfg.n_communities - 1;
        list.push(if c < last {
            c as u32
        } else {
            last as u32
        });
    }
    assert(list@ =~= communities(*cfg));
    list
}

fn rank_items(rng: &mut ChaCha8Rng, n: usize) -> (list: Vec<u32>)
    requires
        n <= u32::MAX,
    ensures
        list@ == shuffled(numbered(n as nat), rng::words(*old(rng))),
        rng::words(*final(rng)) == rng::skip_words(
            rng::words(*old(rng)),
            rng::shuffle_draw(rng::words(*old(rng)), n as nat).1,
        ),
        is_choice(list@, n as int),
{
    let mut list: Vec<u32> = Vec::new();
    for i in 0..n
        invariant
            n <= u32::MAX,
            list@ == numbered(i as nat),
    {
        list.push(i as u32);
        assert(list@ =~= numbered((i + 1) as nat));
    }
    let ghost stream = rng::words(*rng);
    proof {
        assert(list@ =~= numbered(n as nat));
    }
    let ghost before = list@;
    rng::shuffle(&mut list, rng);
    proof {
        lemma_choice_shuffled(before, rng::shuffle_draw(stream, n as nat).0, n as int);
        assert(list@ =~= shuffled(numbered(n as nat), stream));
    }
    list
}

/// What the configuration promises of an interaction graph: items in blocks, users
/// with engagements, and where users have one community and never leave it, all
/// their items, kept and held out, from its block.
pub open spec fn is_planted(cfg: BipartiteConfig, g: &Bipartite) -> bool {
    &&& forall|i: int|
        0 <= i < g.item_community@.len() ==> in_block(cfg, #[trigger] g.item_community@[i] as int, i)
    &&& forall|u: int|
        0 <= u < g.user_adj@.len() ==> (#[trigger] g.user_adj@[u])@.len() <= cfg.edges_per_user
            + cfg.holdout_per_user
    &&& cfg.edges_per_user + cfg.holdout_per_user > 0 ==> forall|u: int|
        0 <= u < g.user_adj@.len() ==> (#[trigger] g.user_adj@[u])@.len() > 0
    &&& cfg.interests_per_user <= 1 && cfg.community_purity >= 9_007_199_254_740_992
        ==> stay_home(cfg, g.user_community@, rows_of(g.user_adj@), g.holdout@)
}

/// Every item of a user is from the block of their community.
pub open spec fn stay_home(
    cfg: BipartiteConfig,
    homes: Seq<u32>,
    rows: Seq<Seq<u32>>,
    held: Seq<(u32, u32)>,
) -> bool {
    &&& forall|u: int, k: int|
        0 <= u < rows.len() && 0 <= k < rows[u].len() ==> in_block(
            cfg,
            homes[u] as int,
            #[trigger] rows[u][k] as int,
        )
    &&& forall|k: int|
        0 <= k < held.len() ==> in_block(
            cfg,
            homes[(#[trigger] held[k]).0 as int] as int,
            held[k].1 as int,
        )
}

/// One user more.
proof fn lemma_one_more_home(
    cfg: BipartiteConfig,
    homes: Seq<u32>,
    rows: Seq<Seq<u32>>,
    held: Seq<(u32, u32)>,
    row: Seq<u32>,
    more: Seq<(u32, u32)>,
)
    requires
        cfg.community_purity >= 9_007_199_254_740_992,
        rows.len() < homes.len(),
        rows.len() <= u32::MAX,
        stay_home(cfg, homes, rows, held),
        suits(cfg, seq![homes[rows.len() as int]], row),
        suits(cfg, seq![homes[rows.len() as int]], items_held(more)),
        forall|k: int| 0 <= k < more.len() ==> (#[trigger] more[k]).0 == rows.len(),
    ensures
        stay_home(cfg, homes, rows.push(row), held + more),
{
    let n = rows.len() as int;
    let mine = seq![homes[n]];
    let (now, all) = (rows.push(row), held + more);
    assert forall|u: int, k: int| 0 <= u < now.len() && 0 <= k < now[u].len() implies in_block(
        cfg,
        homes[u] as int,
        #[trigger] now[u][k] as int,
    ) by {
        if u < n {
            assert(now[u] == rows[u]);
            assert(in_block(cfg, homes[u] as int, rows[u][k] as int));
        } else {
            assert(is_of_interest(cfg, mine, row[k]));
        }
    }
    assert forall|k: int| 0 <= k < all.len() implies in_block(
        cfg,
        homes[(#[trigger] all[k]).0 as int] as int,
        all[k].1 as int,
    ) by {
        if k < held.len() {
            assert(all[k] == held[k]);
        } else {
            let j = k - held.len();
            assert(all[k] == more[j]);
            assert(items_held(more)[j] == more[j].1);
            assert(is_of_interest(cfg, mine, items_held(more)[j]));
        }
    }
}

/// Builds an interaction graph with communities and popular items. `global`
/// says how steep popularity is among all items, `local` within a community.
pub fn bipartite_instance(
    rng: &mut ChaCha8Rng,
    cfg: &BipartiteConfig,
    global: &Zipf,
    local: &Zipf,
) -> (g: Bipartite)
    requires
        cfg.fits(),
        global.well_formed(),
        global.steps@.len() == cfg.n_items,
        local.well_formed(),
    ensures
        g.well_formed(),
        is_instance(
            *cfg,
            global.steps@,
            local.steps@,
            rng::words(*old(rng)),
            &g,
            rng::words(*final(rng)),
        ),
        is_planted(*cfg, &g),
{
    let interests = draw_all_interests(rng, cfg);
    let mut user_community: Vec<u32> = Vec::new();
    for u in 0..interests.len()
        invariant
            user_community@.len() == u,
            forall|j: int| 0 <= j < u ==> #[trigger] user_community@[j] == interests@[j]@[0],
            forall|u: int| 0 <= u < interests@.len() ==> (#[trigger] interests@[u])@.len() > 0,
    {
        assert(interests@[u as int]@.len() > 0);
        user_community.push(interests[u][0]);
    }
    let item_community = list_communities(cfg);
    let ranked = rank_items(rng, cfg.n_items);
    let ghost s2 = rng::words(*rng);
    let ghost m = Market { ranked: ranked@, global: global.steps@, local: local.steps@ };
    let ghost all = rows_of(interests@);
    let mut user_adj: Vec<Vec<u32>> = Vec::new();
    let mut holdout: Vec<(u32, u32)> = Vec::new();
    proof {
        assert(rows_of(user_adj@) =~= Seq::empty());
        assert(holdout@ =~= Seq::empty());
    }
    for u in 0..cfg.n_users
        invariant
            cfg.fits(),
            ranked@.len() == cfg.n_items,
            is_choice(ranked@, cfg.n_items as int),
            global.well_formed(),
            global.steps@.len() == cfg.n_items,
            local.well_formed(),
            interests@.len() == cfg.n_users,
            all == rows_of(interests@),
            m == (Market { ranked: ranked@, global: global.steps@, local: local.steps@ }),
            forall|u: int|
                0 <= u < interests@.len() ==> (#[trigger] interests@[u])@.len() > 0 && is_choice(
                    interests@[u]@,
                    cfg.n_communities as int,
                ),
            user_adj@.len() == u,
            (rows_of(user_adj@), holdout@, rng::words(*rng)) == user_rows(
                *cfg,
                m,
                all,
                s2,
                u as nat,
            ),
            forall|v: int|
                0 <= v < u ==> sorting::is_strict((#[trigger] user_adj@[v])@) && is_choice(
                    user_adj@[v]@,
                    cfg.n_items as int,
                ),
            forall|k: int|
                0 <= k < holdout@.len() ==> (#[trigger] holdout@[k]).0 < u && holdout@[k].1
                    < cfg.n_items && !user_adj@[holdout@[k].0 as int]@.contains(holdout@[k].1),
            user_community@.len() == cfg.n_users,
            forall|j: int|
                0 <= j < cfg.n_users ==> #[trigger] user_community@[j] == interests@[j]@[0],
            forall|u: int|
                0 <= u < interests@.len() && cfg.interests_per_user <= 1 ==> (
                #[trigger] interests@[u])@.len() == 1,
            forall|v: int|
                0 <= v < u ==> (#[trigger] user_adj@[v])@.len() <= cfg.wanted() && (cfg.wanted() > 0
                    ==> user_adj@[v]@.len() > 0),
            cfg.interests_per_user <= 1 && cfg.community_purity >= 9_007_199_254_740_992
                ==> stay_home(*cfg, user_community@, rows_of(user_adj@), holdout@),
    {
        let ghost rows0 = user_adj@;
        let ghost held0 = holdout@;
        assert(interests@[u as int]@.len() > 0);
        let ghost draws = rng::words(*rng);
        let row = draw_row(
            rng,
            cfg,
            &ranked,
            global,
            local,
            u as u32,
            &interests[u],
            &mut holdout,
        );
        user_adj.push(row);
        proof {
            assert(rows_of(user_adj@) =~= rows_of(rows0).push(row@));
            if cfg.interests_per_user <= 1 && cfg.community_purity >= 9_007_199_254_740_992 {
                assert(interests@[u as int]@.len() == 1);
                assert(user_community@[u as int] == interests@[u as int]@[0]);
                assert(interests@[u as int]@ =~= seq![user_community@[u as int]]);
                let more = holdout@.skip(held0.len() as int);
                let drawn = user_row(*cfg, m, u as u32, interests@[u as int]@, draws);
                assert(more =~= drawn.1);
                assert(holdout@ =~= held0 + more);
                lemma_one_more_home(
                    *cfg,
                    user_community@,
                    rows_of(rows0),
                    held0,
                    row@,
                    more,
                );
            }
            assert(all[u as int] == interests@[u as int]@);
            assert forall|k: int| 0 <= k < holdout@.len() implies (#[trigger] holdout@[k]).0 < u + 1
                && holdout@[k].1 < cfg.n_items && !user_adj@[holdout@[k].0 as int]@.contains(
                holdout@[k].1,
            ) by {
                if k < held0.len() {
                    assert(holdout@[k] == held0[k]);
                } else {
                    let more = holdout@.skip(held0.len() as int);
                    assert(holdout@[k] == more[k - held0.len()]);
                }
            }
        }
    }
    let item_adj = turn_around(&user_adj, cfg.n_items);
    proof {
        assert forall|i: int| 0 <= i < item_community@.len() implies in_block(
            *cfg,
            #[trigger] item_community@[i] as int,
            i,
        ) by {
            lemma_community_block(*cfg, i);
        }
        assert(user_community@ =~= firsts(all));
        assert forall|u: int, k: int| 0 <= u < cfg.n_users && 0 <= k < user_adj@[u]@.len()
            implies #[trigger] user_adj@[u]@[k]
            < cfg.n_items by {
            assert(is_choice(user_adj@[u]@, cfg.n_items as int));
        }
    }
    Bipartite {
        n_users: cfg.n_users,
        n_items: cfg.n_items,
        user_adj,
        item_adj,
        user_community,
        item_community,
        holdout,
    }
}

/// Holding out loses nothing and makes nothing up: what a user keeps and what is held
/// out are the engagements that were drawn, as many together.
pub proof fn lemma_holdout_loses_nothing(
    cfg: BipartiteConfig,
    m: Market,
    u: u32,
    mine: Seq<u32>,
    stream: Map<nat, u32>,
    x: u32,
)
    requires
        ({
            let (drawn, rest) = engagements(
                cfg,
                m,
                mine,
                Seq::empty(),
                stream,
                cfg.wanted() * 20,
            );
            rng::is_order(rng::shuffle_draw(rest, drawn.len()).0, drawn.len())
        }),
    ensures
        ({
            let drawn = engagements(
                cfg,
                m,
                mine,
                Seq::empty(),
                stream,
                cfg.wanted() * 20,
            ).0;
            let (row, held, end) = user_row(cfg, m, u, mine, stream);
            &&& row.len() + held.len() == drawn.len()
            &&& row.contains(x) ==> drawn.contains(x)
            &&& held.contains((u, x)) ==> drawn.contains(x)
            &&& drawn.len() > 0 ==> row.len() > 0 && held.len() <= cfg.holdout_per_user
            &&& drawn.len() > cfg.holdout_per_user ==> held.len() == cfg.holdout_per_user
        }),
{
    let (drawn, rest) = engagements(
        cfg,
        m,
        mine,
        Seq::empty(),
        stream,
        cfg.wanted() * 20,
    );
    let sorted = sorting::ascending(drawn);
    sorting::lemma_ascending_items(drawn);
    let order = rng::shuffle_draw(rest, drawn.len()).0;
    let mixed = shuffled(sorted, rest);
    let h = held_len(cfg, mixed.len());
    let kept = mixed.take(mixed.len() - h);
    sorting::lemma_ascending_items(kept);
    let (row, held, end) = user_row(cfg, m, u, mine, stream);
    assert forall|i: int| 0 <= i < mixed.len() implies drawn.contains(#[trigger] mixed[i]) by {
        assert(mixed[i] == sorted[order[i]]);
        assert(sorted.contains(sorted[order[i]]));
    }
    if row.contains(x) {
        let j = choose|j: int| 0 <= j < kept.len() && kept[j] == x;
        assert(mixed[j] == x);
    }
    if held.contains((u, x)) {
        let j = choose|j: int| 0 <= j < held.len() && held[j] == (u, x);
        assert(mixed[mixed.len() - 1 - j] == x);
    }
}

} // verus!
