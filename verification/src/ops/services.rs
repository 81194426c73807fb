//! A service dependency graph, a fault in it, and the traces of requests.
//!
//! Requests enter at a front end and fan out along the dependency edges. One
//! service is broken, and failure propagates up: the symptom appears on every
//! path from the fault to a front end, so the loudest alert is far from the
//! cause. The broken service is slow rather than failing; its callers time
//! out, and its own error rate stays at the baseline.

pub use crate::rng::seeded_rng;

use crate::double;
use crate::double::Double;
use crate::graph;
use crate::math;
use crate::ops::ranking;
use crate::rng;
use crate::text;
use rand_chacha::ChaCha8Rng;
use vstd::prelude::*;
use vstd::string::*;

verus! {

/// Probabilities are in units of 2^-53.
#[derive(Clone, Copy, Debug)]
pub struct TopologyConfig {
    pub n_frontends: usize,
    /// Services per intermediate tier, outermost first.
    pub tier_sizes: [usize; 3],
    /// Shared infrastructure that many services depend on.
    pub n_infra: usize,
    /// Dependency edges from each service to the tier below.
    pub fanout: usize,
    /// How likely an intermediate service also calls infrastructure.
    pub infra_edge_prob: u64,
    /// Requests per measurement window.
    pub n_requests: usize,
    /// How many of the calls into the broken service come back slow.
    pub fault_severity: u64,
    /// How likely a caller gives up on a slow callee and reports an error.
    pub timeout_prob: u64,
    /// How much of a callee's failures a caller inherits.
    pub propagation: u64,
    /// How often anything fails by itself.
    pub baseline_error: u64,
}

impl Default for TopologyConfig {
    fn default() -> (c: TopologyConfig)
        ensures
            c.n_frontends == 4,
            c.tier_sizes@ == seq![10usize, 16usize, 20usize],
            c.n_infra == 5,
            c.fanout == 3,
            c.infra_edge_prob == 4_053_239_664_633_447,
            c.n_requests == 40_000,
            c.fault_severity == 4_953_959_590_107_546,
            c.timeout_prob == 6_305_039_478_318_694,
            c.propagation == 7_205_759_403_792_794,
            c.baseline_error == 36_028_797_018_964,
    {
        let c = TopologyConfig {
            n_frontends: 4,
            tier_sizes: [10, 16, 20],
            n_infra: 5,
            fanout: 3,
            infra_edge_prob: 4_053_239_664_633_447,
            n_requests: 40_000,
            fault_severity: 4_953_959_590_107_546,
            timeout_prob: 6_305_039_478_318_694,
            propagation: 7_205_759_403_792_794,
            baseline_error: 36_028_797_018_964,
        };
        assert(c.tier_sizes@ =~= seq![10usize, 16usize, 20usize]);
        c
    }
}

impl TopologyConfig {
    /// The first service of tier `t`; tier 0 are the front ends, tier 4 the
    /// infrastructure.
    pub open spec fn tier_start(&self, t: int) -> int {
        if t <= 0 {
            0
        } else if t == 1 {
            self.n_frontends as int
        } else if t == 2 {
            self.n_frontends + self.tier_sizes@[0]
        } else if t == 3 {
            self.n_frontends + self.tier_sizes@[0] + self.tier_sizes@[1]
        } else if t == 4 {
            self.n_frontends + self.tier_sizes@[0] + self.tier_sizes@[1] + self.tier_sizes@[2]
        } else {
            self.n_frontends + self.tier_sizes@[0] + self.tier_sizes@[1] + self.tier_sizes@[2]
                + self.n_infra
        }
    }

    /// The tier of a service.
    pub open spec fn tier_of(&self, s: int) -> int {
        if s < self.tier_start(1) {
            0
        } else if s < self.tier_start(2) {
            1
        } else if s < self.tier_start(3) {
            2
        } else if s < self.tier_start(4) {
            3
        } else {
            4
        }
    }

    pub open spec fn services(&self) -> int {
        self.tier_start(5)
    }

    /// There is infrastructure, and the services have numbers.
    pub open spec fn fits(&self) -> bool {
        self.services() <= u32::MAX && self.n_infra > 0
    }
}

#[derive(Debug)]
pub struct Topology {
    pub n_services: usize,
    /// The callees of each caller.
    pub deps: Vec<Vec<u32>>,
    /// The callers of each callee.
    pub rdeps: Vec<Vec<u32>>,
    pub frontends: Vec<u32>,
    pub infra: Vec<u32>,
    /// The one service that is broken.
    pub root_cause: u32,
    pub names: Vec<String>,
}

/// The callees of a list, as values.
pub open spec fn list_values(lists: Seq<Vec<u32>>) -> Seq<Seq<u32>> {
    lists.map_values(|l: Vec<u32>| l@)
}

/// One dependency more, unless it is there.
pub open spec fn with_dep(deps: Seq<Seq<u32>>, caller: int, callee: u32) -> Seq<Seq<u32>> {
    if deps[caller].contains(callee) {
        deps
    } else {
        deps.update(caller, deps[caller].push(callee))
    }
}

/// The dependencies of a caller on the first `k` picks from a tier.
pub open spec fn with_picks(
    deps: Seq<Seq<u32>>,
    caller: int,
    lo: int,
    picks: Seq<usize>,
    k: nat,
) -> Seq<Seq<u32>>
    decreases k,
{
    if k == 0 {
        deps
    } else {
        with_dep(
            with_picks(deps, caller, lo, picks, (k - 1) as nat),
            caller,
            (lo + picks[k - 1]) as u32,
        )
    }
}

pub open spec fn smaller(a: int, b: int) -> int {
    if a < b {
        a
    } else {
        b
    }
}

/// The first `c` services call into the tier below, and the stream that is
/// left.
pub open spec fn tier_links(cfg: TopologyConfig, stream: Map<nat, u32>, c: nat) -> (
    Seq<Seq<u32>>,
    Map<nat, u32>,
)
    decreases c,
{
    if c == 0 {
        (Seq::new(cfg.services() as nat, |s: int| Seq::<u32>::empty()), stream)
    } else {
        let (before, rest) = tier_links(cfg, stream, (c - 1) as nat);
        let t = cfg.tier_of(c - 1);
        let lo = cfg.tier_start(t + 1);
        let width = cfg.tier_start(t + 2) - lo;
        let n = smaller(cfg.fanout as int, width) as nat;
        let (picks, end) = rng::range_draws(rest, 0, width as usize, n);
        (with_picks(before, c - 1, lo, picks, n), end)
    }
}

/// The intermediate services before `c` also call infrastructure, by chance,
/// and the stream that is left.
pub open spec fn infra_links(
    cfg: TopologyConfig,
    deps: Seq<Seq<u32>>,
    stream: Map<nat, u32>,
    c: int,
) -> (Seq<Seq<u32>>, Map<nat, u32>)
    decreases c - cfg.tier_start(1),
{
    if c <= cfg.tier_start(1) {
        (deps, stream)
    } else {
        let (before, rest) = infra_links(cfg, deps, stream, c - 1);
        let mid = rng::skip_words(rest, 2);
        if rng::first_u64(rest) / 2048 < cfg.infra_edge_prob {
            let (x, used) = rng::range_draw(mid, 0, cfg.n_infra as u64);
            (
                with_dep(before, c - 1, (cfg.tier_start(4) + x) as u32),
                rng::skip_words(mid, used),
            )
        } else {
            (before, mid)
        }
    }
}

/// The dependencies of a topology, and the stream that is left.
pub open spec fn drawn_deps(cfg: TopologyConfig, stream: Map<nat, u32>) -> (
    Seq<Seq<u32>>,
    Map<nat, u32>,
) {
    let (deps, rest) = tier_links(cfg, stream, cfg.tier_start(4) as nat);
    infra_links(cfg, deps, rest, cfg.tier_start(4))
}

/// The callers of `v` among the first `n` services.
pub open spec fn callers(deps: Seq<Seq<u32>>, v: int, n: nat) -> Seq<u32>
    decreases n,
{
    if n == 0 {
        Seq::empty()
    } else {
        let before = callers(deps, v, (n - 1) as nat);
        if deps[n - 1].contains(v as u32) {
            before.push((n - 1) as u32)
        } else {
            before
        }
    }
}

/// Numbers from `lo` to `hi`.
pub open spec fn span(lo: int, hi: int) -> Seq<u32> {
    Seq::new((hi - lo) as nat, |i: int| (lo + i) as u32)
}

/// The label of a tier.
pub open spec fn tier_label(t: int) -> Seq<char> {
    if t == 0 {
        seq!['f', 'r', 'o', 'n', 't', 'e', 'n', 'd', '-']
    } else if t == 4 {
        seq!['i', 'n', 'f', 'r', 'a', '-']
    } else if t == 1 {
        seq!['s', 'v', 'c', '1', '-']
    } else if t == 2 {
        seq!['s', 'v', 'c', '2', '-']
    } else {
        seq!['s', 'v', 'c', '3', '-']
    }
}

/// The name of a service: its tier and its number there.
pub open spec fn service_name(cfg: &TopologyConfig, s: int) -> Seq<char> {
    let t = cfg.tier_of(s);
    tier_label(t) + text::decimal((s - cfg.tier_start(t)) as nat)
}

impl Topology {
    /// The two directions agree, no callee is listed twice, and services have
    /// numbers below `n_services`.
    pub open spec fn well_formed(&self) -> bool {
        &&& self.n_services <= u32::MAX
        &&& self.deps@.len() == self.n_services
        &&& self.rdeps@.len() == self.n_services
        &&& forall|s: int, i: int|
            0 <= s < self.n_services && 0 <= i < self.deps@[s]@.len() ==> #[trigger] self.deps@[s]@[i]
                < self.n_services
        &&& forall|s: int|
            0 <= s < self.n_services ==> (#[trigger] self.deps@[s])@.no_duplicates()
        &&& forall|v: int|
            0 <= v < self.n_services ==> (#[trigger] self.rdeps@[v])@ == callers(
                list_values(self.deps@),
                v,
                self.n_services as nat,
            )
        &&& forall|i: int|
            0 <= i < self.frontends@.len() ==> #[trigger] self.frontends@[i] < self.n_services
        &&& self.root_cause < self.n_services
        &&& self.names@.len() == self.n_services
    }

    pub fn is_frontend(&self, s: u32) -> (b: bool)
        ensures
            b == self.frontends@.contains(s),
    {
        for i in 0..self.frontends.len()
            invariant
                forall|j: int| 0 <= j < i ==> #[trigger] self.frontends@[j] != s,
        {
            if self.frontends[i] == s {
                return true;
            }
        }
        false
    }

    pub fn name(&self, s: u32) -> (n: &str)
        requires
            s < self.names@.len(),
        ensures
            n@ == self.names@[s as int]@,
    {
        self.names[s as usize].as_str()
    }
}

/// The topology that a configuration and a stream give.
pub open spec fn is_topology(t: &Topology, cfg: &TopologyConfig, stream: Map<nat, u32>) -> bool {
    &&& t.n_services == cfg.services()
    &&& list_values(t.deps@) == drawn_deps(*cfg, stream).0
    &&& t.frontends@ == span(0, cfg.tier_start(1))
    &&& t.infra@ == span(cfg.tier_start(4), cfg.services())
    &&& forall|s: int|
        0 <= s < cfg.services() ==> (#[trigger] t.names@[s])@ == service_name(cfg, s)
    &&& cfg.tier_start(4) <= t.root_cause < cfg.services()
    &&& forall|s: int|
        cfg.tier_start(4) <= s < cfg.services() ==> (#[trigger] t.rdeps@[s])@.len()
            <= t.rdeps@[t.root_cause as int]@.len()
    &&& forall|s: int|
        t.root_cause < s < cfg.services() ==> (#[trigger] t.rdeps@[s])@.len()
            < t.rdeps@[t.root_cause as int]@.len()
}

/// `v` is in the tier below `s`: the front ends call the first tier, each tier the
/// next, and the last the infrastructure, which calls nothing.
pub open spec fn is_below(cfg: &TopologyConfig, s: int, v: int) -> bool {
    let a = cfg.n_frontends as int;
    let b = a + cfg.tier_sizes@[0];
    let c = b + cfg.tier_sizes@[1];
    let d = c + cfg.tier_sizes@[2];
    if s < a {
        a <= v < b
    } else if s < b {
        b <= v < c
    } else if s < c {
        c <= v < d
    } else if s < d {
        d <= v < d + cfg.n_infra
    } else {
        false
    }
}

/// `v` is infrastructure, and `s` is between it and the front ends.
pub open spec fn is_infra_call(cfg: &TopologyConfig, s: int, v: int) -> bool {
    let d = cfg.n_frontends + cfg.tier_sizes@[0] + cfg.tier_sizes@[1] + cfg.tier_sizes@[2];
    cfg.n_frontends <= s < d <= v < d + cfg.n_infra
}

/// Every call leads to the tier below, or past it to infrastructure.
pub open spec fn calls_down(cfg: &TopologyConfig, s: int, list: Seq<u32>) -> bool {
    forall|i: int|
        0 <= i < list.len() ==> is_below(cfg, s, (#[trigger] list[i]) as int) || is_infra_call(
            cfg,
            s,
            list[i] as int,
        )
}

/// Every call leads to the tier below.
pub open spec fn calls_next(cfg: &TopologyConfig, s: int, list: Seq<u32>) -> bool {
    forall|i: int| 0 <= i < list.len() ==> is_below(cfg, s, (#[trigger] list[i]) as int)
}

/// Some call leads to infrastructure.
pub open spec fn calls_infra(cfg: &TopologyConfig, s: int, list: Seq<u32>) -> bool {
    exists|i: int| 0 <= i < list.len() && is_infra_call(cfg, s, (#[trigger] list[i]) as int)
}

/// The layers of a topology: calls go down, a service calls at most `fanout`
/// services of the tier below and one of the infrastructure, at least one where
/// there is one to call; and how likely infrastructure is called past a tier.
pub open spec fn is_layered(cfg: &TopologyConfig, deps: Seq<Seq<u32>>) -> bool {
    &&& forall|s: int| 0 <= s < deps.len() ==> calls_down(cfg, s, #[trigger] deps[s])
    &&& forall|s: int|
        0 <= s < deps.len() ==> (#[trigger] deps[s]).len() <= cfg.fanout + (if s
            < cfg.n_frontends {
            0int
        } else {
            1
        })
    &&& forall|s: int, v: int|
        0 <= s < deps.len() && cfg.fanout > 0 && #[trigger] is_below(cfg, s, v)
            ==> deps[s].len() > 0
    &&& cfg.infra_edge_prob == 0 ==> forall|s: int|
        0 <= s < deps.len() ==> calls_next(cfg, s, #[trigger] deps[s])
    &&& cfg.infra_edge_prob >= 9_007_199_254_740_992 ==> forall|s: int|
        cfg.n_frontends <= s < deps.len() - cfg.n_infra ==> calls_infra(
            cfg,
            s,
            #[trigger] deps[s],
        )
}

/// The rows that picks from a tier give.
proof fn lemma_picks(deps: Seq<Seq<u32>>, caller: int, lo: int, picks: Seq<usize>, k: nat, width: int)
    requires
        0 <= caller < deps.len(),
        k <= picks.len(),
        0 <= lo,
        lo + width <= u32::MAX,
        forall|i: int| 0 <= i < k ==> #[trigger] picks[i] < width,
    ensures
        ({
            let now = with_picks(deps, caller, lo, picks, k);
            &&& now.len() == deps.len()
            &&& forall|s: int| 0 <= s < deps.len() && s != caller ==> #[trigger] now[s] == deps[s]
            &&& now[caller].len() <= deps[caller].len() + k
            &&& k > 0 ==> now[caller].len() > 0
            &&& forall|i: int|
                0 <= i < now[caller].len() ==> i < deps[caller].len() && #[trigger] now[caller][i]
                    == deps[caller][i] || lo <= now[caller][i] < lo + width
        }),
    decreases k,
{
    if k > 0 {
        lemma_picks(deps, caller, lo, picks, (k - 1) as nat, width);
        assert(picks[k - 1] < width);
    }
}

/// The first `c` services call the tier below, and the others nothing yet.
spec fn tiers_linked(cfg: &TopologyConfig, deps: Seq<Seq<u32>>, c: int) -> bool {
    &&& deps.len() == cfg.services()
    &&& forall|s: int| 0 <= s < deps.len() ==> calls_next(cfg, s, #[trigger] deps[s])
    &&& forall|s: int| 0 <= s < deps.len() ==> (#[trigger] deps[s]).len() <= cfg.fanout
    &&& forall|s: int| c <= s < deps.len() ==> (#[trigger] deps[s]).len() == 0
    &&& forall|s: int, v: int|
        0 <= s < c && cfg.fanout > 0 && #[trigger] is_below(cfg, s, v) ==> deps[s].len() > 0
}

/// Services before `c` have their call past the tiers, if they make one.
spec fn infra_linked(
    cfg: &TopologyConfig,
    tiers: Seq<Seq<u32>>,
    deps: Seq<Seq<u32>>,
    c: int,
) -> bool {
    &&& deps.len() == tiers.len()
    &&& forall|s: int| 0 <= s < deps.len() ==> calls_down(cfg, s, #[trigger] deps[s])
    &&& forall|s: int|
        0 <= s < deps.len() ==> tiers[s].len() <= (#[trigger] deps[s]).len() <= tiers[s].len() + 1
    &&& forall|s: int|
        0 <= s < deps.len() && !(cfg.n_frontends <= s < c) ==> #[trigger] deps[s] == tiers[s]
    &&& cfg.infra_edge_prob >= 9_007_199_254_740_992 ==> forall|s: int|
        cfg.n_frontends <= s < c ==> calls_infra(cfg, s, #[trigger] deps[s])
}

proof fn lemma_infra_step(
    cfg: &TopologyConfig,
    tiers: Seq<Seq<u32>>,
    before: Seq<Seq<u32>>,
    now: Seq<Seq<u32>>,
    c: int,
)
    requires
        infra_linked(cfg, tiers, before, c),
        cfg.n_frontends <= c < before.len(),
        now.len() == before.len(),
        forall|s: int| 0 <= s < now.len() && s != c ==> #[trigger] now[s] == before[s],
        now[c] == before[c] || exists|v: u32|
            is_infra_call(cfg, c, v as int) && now[c] == #[trigger] before[c].push(v),
        cfg.infra_edge_prob >= 9_007_199_254_740_992 ==> calls_infra(cfg, c, now[c]),
    ensures
        infra_linked(cfg, tiers, now, c + 1),
{
    assert(before[c] == tiers[c]);
    assert(calls_down(cfg, c, before[c]));
    assert(calls_down(cfg, c, now[c])) by {
        if now[c] != before[c] {
            let v = choose|v: u32|
                is_infra_call(cfg, c, v as int) && now[c] == #[trigger] before[c].push(v);
            assert forall|i: int| 0 <= i < now[c].len() implies is_below(
                cfg,
                c,
                (#[trigger] now[c][i]) as int,
            ) || is_infra_call(cfg, c, now[c][i] as int) by {
                if i < before[c].len() {
                    assert(now[c][i] == before[c][i]);
                }
            }
        }
    }
    assert forall|s: int| 0 <= s < now.len() implies calls_down(cfg, s, #[trigger] now[s]) by {
        if s != c {
            assert(now[s] == before[s]);
        }
    }
    if cfg.infra_edge_prob >= 9_007_199_254_740_992 {
        assert forall|s: int| cfg.n_frontends <= s < c + 1 implies calls_infra(
            cfg,
            s,
            #[trigger] now[s],
        ) by {
            if s != c {
                assert(now[s] == before[s]);
            }
        }
    }
    assert forall|s: int| 0 <= s < now.len() implies tiers[s].len() <= (#[trigger] now[s]).len()
        <= tiers[s].len() + 1 by {
        if s != c {
            assert(now[s] == before[s]);
        }
    }
}

proof fn lemma_layers(cfg: &TopologyConfig, tiers: Seq<Seq<u32>>, deps: Seq<Seq<u32>>)
    requires
        tiers_linked(cfg, tiers, cfg.tier_start(4)),
        infra_linked(cfg, tiers, deps, cfg.tier_start(4)),
        cfg.infra_edge_prob == 0 ==> deps == tiers,
    ensures
        is_layered(cfg, deps),
{
    assert forall|s: int| 0 <= s < deps.len() implies (#[trigger] deps[s]).len() <= cfg.fanout + (
    if s < cfg.n_frontends {
        0int
    } else {
        1
    }) by {
        assert(tiers[s].len() <= cfg.fanout);
    }
    assert forall|s: int, v: int|
        0 <= s < deps.len() && cfg.fanout > 0 && #[trigger] is_below(cfg, s, v) implies deps[s].len()
        > 0 by {
        assert(s < cfg.tier_start(4));
        assert(tiers[s].len() > 0);
        assert(deps[s].len() >= tiers[s].len());
    }
}

/// Without a chance, no call goes past a tier.
proof fn lemma_no_infra(cfg: TopologyConfig, deps: Seq<Seq<u32>>, stream: Map<nat, u32>, c: int)
    requires
        cfg.infra_edge_prob == 0,
    ensures
        infra_links(cfg, deps, stream, c).0 == deps,
    decreases c - cfg.tier_start(1),
{
    if c > cfg.tier_start(1) {
        lemma_no_infra(cfg, deps, stream, c - 1);
    }
}

fn numbers(lo: usize, hi: usize) -> (v: Vec<u32>)
    requires
        lo <= hi <= u32::MAX,
    ensures
        v@ == span(lo as int, hi as int),
{
    let mut v: Vec<u32> = Vec::new();
    for i in lo..hi
        invariant
            lo <= i <= hi <= u32::MAX,
            v@ == span(lo as int, i as int),
    {
        v.push(i as u32);
        assert(v@ =~= span(lo as int, i + 1));
    }
    v
}

/// The dependencies have no repeats and stay within the services.
spec fn deps_ok(deps: Seq<Vec<u32>>, n: int) -> bool {
    &&& deps.len() == n
    &&& forall|s: int, i: int|
        0 <= s < n && 0 <= i < deps[s]@.len() ==> #[trigger] deps[s]@[i] < n
    &&& forall|s: int| 0 <= s < n ==> (#[trigger] deps[s])@.no_duplicates()
}

fn add_dep(deps: &mut Vec<Vec<u32>>, caller: usize, callee: u32)
    requires
        deps_ok(old(deps)@, old(deps)@.len() as int),
        caller < old(deps)@.len(),
        callee < old(deps)@.len(),
    ensures
        deps_ok(final(deps)@, old(deps)@.len() as int),
        list_values(final(deps)@) == with_dep(list_values(old(deps)@), caller as int, callee),
{
    let ghost before = deps@;
    let mut found = false;
    let n = deps[caller].len();
    for i in 0..n
        invariant
            deps@ == before,
            caller < before.len(),
            n == before[caller as int]@.len(),
            found <==> exists|j: int| 0 <= j < i && #[trigger] before[caller as int]@[j] == callee,
    {
        if deps[caller][i] == callee {
            found = true;
        }
    }
    let ghost list = before[caller as int]@;
    proof {
        assert(list_values(before)[caller as int] == list);
        if list.contains(callee) {
            let j = choose|j: int| 0 <= j < list.len() && list[j] == callee;
            assert(found);
        }
        if found {
            let j = choose|j: int| 0 <= j < n && #[trigger] list[j] == callee;
            assert(list.contains(callee));
        }
    }
    if !found {
        deps[caller].push(callee);
        proof {
            let now = deps@[caller as int]@;
            assert(now =~= list.push(callee));
            assert(list_values(deps@) =~= list_values(before).update(
                caller as int,
                list.push(callee),
            ));
            assert forall|i: int, j: int| 0 <= i < now.len() && 0 <= j < now.len() && i != j
                implies now[i] != now[j] by {
                if i == list.len() {
                    assert(list.contains(list[j]));
                } else if j == list.len() {
                    assert(list.contains(list[i]));
                }
            }
        }
    }
}

/// The dependencies of a topology.
fn draw_deps(rng: &mut ChaCha8Rng, cfg: &TopologyConfig, starts: &Vec<usize>) -> (deps: Vec<
    Vec<u32>,
>)
    requires
        cfg.fits(),
        starts@.len() == 6,
        forall|t: int| 0 <= t < 6 ==> #[trigger] starts@[t] == cfg.tier_start(t),
    ensures
        deps_ok(deps@, cfg.services()),
        (list_values(deps@), rng::words(*final(rng))) == drawn_deps(
            *cfg,
            rng::words(*old(rng)),
        ),
        is_layered(cfg, list_values(deps@)),
{
    let n = starts[5];
    let ghost start = rng::words(*rng);
    let mut deps: Vec<Vec<u32>> = math::empty_lists(n);
    assert(list_values(deps@) =~= tier_links(*cfg, start, 0).0);
    let mut t: usize = 0;
    let (first, last) = (starts[1], starts[4]);
    for c in 0..last
        invariant
            last == cfg.tier_start(4),
            cfg.fits(),
            starts@.len() == 6,
            forall|t: int| 0 <= t < 6 ==> #[trigger] starts@[t] == cfg.tier_start(t),
            n == cfg.services(),
            deps_ok(deps@, n as int),
            (list_values(deps@), rng::words(*rng)) == tier_links(*cfg, start, c as nat),
            t <= 4,
            t <= cfg.tier_of(c as int),
            tiers_linked(cfg, list_values(deps@), c as int),
    {
        while c >= starts[t + 1]
            invariant
                t <= 4,
                c < starts@[4],
                starts@.len() == 6,
                forall|t: int| 0 <= t < 6 ==> #[trigger] starts@[t] == cfg.tier_start(t),
                t <= cfg.tier_of(c as int),
            decreases 4 - t,
        {
            assert(starts@[t + 1] == cfg.tier_start(t + 1));
            t += 1;
        }
        assert(starts@[t + 1] == cfg.tier_start(t + 1));
        assert(starts@[t + 2] == cfg.tier_start(t + 2));
        assert(t == cfg.tier_of(c as int));
        let lo = starts[t + 1];
        let width = starts[t + 2] - lo;
        let k = if cfg.fanout < width {
            cfg.fanout
        } else {
            width
        };
        let picks = rng::draw_indices(rng, 0, width, k);
        let ghost before = list_values(deps@);
        for i in 0..k
            invariant
                cfg.fits(),
                n == cfg.services(),
                c < n,
                lo + width <= n,
                picks@.len() == k,
                forall|i: int| 0 <= i < k ==> 0 <= #[trigger] picks@[i] < width,
                deps_ok(deps@, n as int),
                list_values(deps@) == with_picks(before, c as int, lo as int, picks@, i as nat),
        {
            assert(picks@[i as int] < width);
            add_dep(&mut deps, c, (lo + picks[i]) as u32);
        }
        proof {
            lemma_picks(before, c as int, lo as int, picks@, k as nat, width as int);
        }
    }
    let ghost tiers = list_values(deps@);
    let ghost rest = rng::words(*rng);
    for c in first..last
        invariant
            last == cfg.tier_start(4),
            cfg.fits(),
            starts@.len() == 6,
            forall|t: int| 0 <= t < 6 ==> #[trigger] starts@[t] == cfg.tier_start(t),
            n == cfg.services(),
            deps_ok(deps@, n as int),
            c >= cfg.tier_start(1),
            (list_values(deps@), rng::words(*rng)) == infra_links(*cfg, tiers, rest, c as int),
            tiers_linked(cfg, tiers, last as int),
            infra_linked(cfg, tiers, list_values(deps@), c as int),
    {
        assert(starts@[4] == cfg.tier_start(4));
        let ghost before = list_values(deps@);
        let ghost draw = rng::words(*rng);
        if rng::coin(rng, cfg.infra_edge_prob) {
            let x = rng::draw_index(rng, 0, cfg.n_infra);
            add_dep(&mut deps, c, (starts[4] + x) as u32);
            proof {
                let v = (starts@[4] + x) as u32;
                let row = list_values(deps@)[c as int];
                if before[c as int].contains(v) {
                    let i = choose|i: int| 0 <= i < row.len() && row[i] == v;
                    assert(is_infra_call(cfg, c as int, row[i] as int));
                } else {
                    assert(row == before[c as int].push(v));
                    assert(is_infra_call(cfg, c as int, row[row.len() - 1] as int));
                }
            }
        } else {
            assert(rng::first_u64(draw) / 2048 < 9_007_199_254_740_992) by {
                assert(draw[0] <= 0xffff_ffff && draw[1] <= 0xffff_ffff);
            }
        }
        proof {
            lemma_infra_step(cfg, tiers, before, list_values(deps@), c as int);
        }
    }
    proof {
        if cfg.infra_edge_prob == 0 {
            lemma_no_infra(*cfg, tiers, rest, last as int);
        }
        lemma_layers(cfg, tiers, list_values(deps@));
    }
    deps
}

/// The callers of every service.
fn reverse(deps: &Vec<Vec<u32>>) -> (rdeps: Vec<Vec<u32>>)
    requires
        deps_ok(deps@, deps@.len() as int),
        deps@.len() <= u32::MAX,
    ensures
        rdeps@.len() == deps@.len(),
        forall|v: int|
            0 <= v < rdeps@.len() ==> (#[trigger] rdeps@[v])@ == callers(
                list_values(deps@),
                v,
                deps@.len(),
            ),
{
    let n = deps.len();
    let ghost d = list_values(deps@);
    let mut rdeps: Vec<Vec<u32>> = math::empty_lists(n);
    for c in 0..n
        invariant
            n == deps@.len() <= u32::MAX,
            deps_ok(deps@, n as int),
            d == list_values(deps@),
            rdeps@.len() == n,
            forall|v: int| 0 <= v < n ==> (#[trigger] rdeps@[v])@ == callers(d, v, c as nat),
    {
        let list = &deps[c];
        let ghost before = rdeps@;
        for i in 0..list.len()
            invariant
                n == deps@.len() <= u32::MAX,
                c < n,
                deps_ok(deps@, n as int),
                *list == deps@[c as int],
                before.len() == n,
                rdeps@.len() == n,
                forall|v: int|
                    0 <= v < n ==> (#[trigger] rdeps@[v])@ == (if exists|j: int|
                        0 <= j < i && #[trigger] list@[j] == v {
                        before[v]@.push(c as u32)
                    } else {
                        before[v]@
                    }),
        {
            let v = list[i];
            assert(deps@[c as int]@[i as int] < n);
            let ghost was = rdeps@;
            proof {
                if exists|j: int| 0 <= j < i && #[trigger] list@[j] == v {
                    let j = choose|j: int| 0 <= j < i && #[trigger] list@[j] == v;
                    assert(deps@[c as int]@.no_duplicates());
                    assert(list@[j] != list@[i as int]);
                }
            }
            rdeps[v as usize].push(c as u32);
            proof {
                assert forall|x: int| 0 <= x < n implies (#[trigger] rdeps@[x])@ == (if exists|j: int|
                    0 <= j < i + 1 && #[trigger] list@[j] == x {
                    before[x]@.push(c as u32)
                } else {
                    before[x]@
                }) by {
                    if x == v {
                        assert(list@[i as int] == x);
                        assert(was[x]@ == before[x]@);
                    } else {
                        assert(rdeps@[x] == was[x]);
                        if exists|j: int| 0 <= j < i + 1 && #[trigger] list@[j] == x {
                            let j = choose|j: int| 0 <= j < i + 1 && #[trigger] list@[j] == x;
                            assert(j < i);
                            assert(list@[j] == x);
                        }
                        if exists|j: int| 0 <= j < i && #[trigger] list@[j] == x {
                            let j = choose|j: int| 0 <= j < i && #[trigger] list@[j] == x;
                            assert(list@[j] == x);
                        }
                    }
                }
            }
        }
        proof {
            assert forall|v: int| 0 <= v < n
                implies (#[trigger] rdeps@[v])@ == callers(d, v, (c + 1) as nat) by {
                let l = deps@[c as int]@;
                assert(d[c as int] == l);
                if l.contains(v as u32) {
                    let j = choose|j: int| 0 <= j < l.len() && l[j] == v as u32;
                    assert(list@[j] == v);
                }
                if exists|j: int| 0 <= j < list@.len() && #[trigger] list@[j] == v {
                    let j = choose|j: int| 0 <= j < list@.len() && #[trigger] list@[j] == v;
                    assert(l[j] == v as u32);
                }
            }
        }
    }
    rdeps
}

fn label_of(t: usize) -> (s: &'static str)
    requires
        t < 5,
    ensures
        s@ == tier_label(t as int),
{
    proof {
        reveal_strlit("frontend-");
        reveal_strlit("svc1-");
        reveal_strlit("svc2-");
        reveal_strlit("svc3-");
        reveal_strlit("infra-");
    }
    let s = match t {
        0 => "frontend-",
        1 => "svc1-",
        2 => "svc2-",
        3 => "svc3-",
        _ => "infra-",
    };
    assert(s@ =~= tier_label(t as int));
    s
}

/// The names of the services, tier by tier.
fn name_all(cfg: &TopologyConfig, starts: &Vec<usize>) -> (names: Vec<String>)
    requires
        cfg.fits(),
        starts@.len() == 6,
        forall|t: int| 0 <= t < 6 ==> #[trigger] starts@[t] == cfg.tier_start(t),
    ensures
        names@.len() == cfg.services(),
        forall|s: int|
            0 <= s < names@.len() ==> (#[trigger] names@[s])@ == service_name(cfg, s),
{
    let mut names: Vec<String> = Vec::new();
    let mut t: usize = 0;
    let n = starts[5];
    for s in 0..n
        invariant
            n == cfg.services(),
            cfg.fits(),
            starts@.len() == 6,
            forall|t: int| 0 <= t < 6 ==> #[trigger] starts@[t] == cfg.tier_start(t),
            names@.len() == s,
            forall|r: int| 0 <= r < s ==> (#[trigger] names@[r])@ == service_name(cfg, r),
            t <= 4,
            t <= cfg.tier_of(s as int),
    {
        while t < 4 && s >= starts[t + 1]
            invariant
                t <= 4,
                starts@.len() == 6,
                forall|t: int| 0 <= t < 6 ==> #[trigger] starts@[t] == cfg.tier_start(t),
                t <= cfg.tier_of(s as int),
            decreases 4 - t,
        {
            assert(starts@[t + 1] == cfg.tier_start(t + 1));
            t += 1;
        }
        assert(t < 4 ==> starts@[t + 1] == cfg.tier_start(t + 1));
        assert(starts@[t as int] == cfg.tier_start(t as int));
        assert(t == cfg.tier_of(s as int));
        let mut name = label_of(t).to_owned();
        let digits = text::decimal_of(s - starts[t]);
        name.append(digits.as_str());
        assert(name@ =~= service_name(cfg, s as int));
        names.push(name);
    }
    names
}

/// Draws a topology. The fault goes on the infrastructure with the most
/// callers, the last of them where several have as many.
pub fn topology(rng: &mut ChaCha8Rng, cfg: &TopologyConfig) -> (t: Topology)
    requires
        cfg.fits(),
    ensures
        t.well_formed(),
        is_topology(&t, cfg, rng::words(*old(rng))),
        rng::words(*final(rng)) == drawn_deps(*cfg, rng::words(*old(rng))).1,
        is_layered(cfg, list_values(t.deps@)),
{
    let s1 = cfg.n_frontends;
    let s2 = s1 + cfg.tier_sizes[0];
    let s3 = s2 + cfg.tier_sizes[1];
    let s4 = s3 + cfg.tier_sizes[2];
    let n_services = s4 + cfg.n_infra;
    let starts: Vec<usize> = vec![0, s1, s2, s3, s4, n_services];
    let names = name_all(cfg, &starts);
    let deps = draw_deps(rng, cfg, &starts);
    let rdeps = reverse(&deps);
    let frontends = numbers(0, s1);
    let infra = numbers(s4, n_services);
    let mut root = s4;
    for s in s4..n_services
        invariant
            n_services <= u32::MAX,
            rdeps@.len() == n_services,
            s4 <= s <= n_services,
            s4 <= root < n_services,
            s > s4 ==> root < s,
            s == s4 ==> root == s4,
            forall|v: int|
                s4 <= v < s ==> (#[trigger] rdeps@[v])@.len() <= rdeps@[root as int]@.len(),
            forall|v: int|
                root < v < s ==> (#[trigger] rdeps@[v])@.len() < rdeps@[root as int]@.len(),
    {
        if rdeps[s].len() >= rdeps[root].len() {
            root = s;
        }
    }
    Topology { n_services, deps, rdeps, frontends, infra, root_cause: root as u32, names }
}

/// What a call does, and everything below it.
#[verifier::ext_equal]
pub ghost struct Visit {
    pub failed: bool,
    pub slow: bool,
    /// Services called, in order.
    pub path: Seq<u32>,
    pub edges: Seq<(u32, u32)>,
    /// Services that failed, in the order in which they returned.
    pub broken: Seq<u32>,
    pub latency: nat,
    /// The stream that is left.
    pub rest: Map<nat, u32>,
}

/// How likely a dependency is called at all: 0.75.
pub const CALL_PROB: u64 = 6_755_399_441_055_744;

/// How deep a request goes.
pub const MAX_DEPTH: usize = 6;

pub open spec fn heads(stream: Map<nat, u32>, p: u64) -> bool {
    rng::first_u64(stream) / 2048 < p
}

/// A call before it calls others. The broken service is slow, and fails no
/// more often than any.
pub open spec fn arrived(t: &Topology, cfg: &TopologyConfig, s: u32, stream: Map<nat, u32>) -> Visit {
    let (base, used) = rng::range_draw(stream, 200, 900);
    let s1 = rng::skip_words(stream, used);
    let failed = heads(s1, cfg.baseline_error);
    let s2 = rng::skip_words(s1, 2);
    let none = Visit {
        failed,
        slow: false,
        path: seq![s],
        edges: Seq::empty(),
        broken: Seq::empty(),
        latency: base as nat,
        rest: s2,
    };
    if s == t.root_cause {
        let s3 = rng::skip_words(s2, 2);
        if heads(s2, cfg.fault_severity) {
            let (more, used2) = rng::range_draw(s3, 8_000, 25_000);
            Visit {
                slow: true,
                latency: base as nat + more as nat,
                rest: rng::skip_words(s3, used2),
                ..none
            }
        } else {
            Visit { rest: s3, ..none }
        }
    } else {
        none
    }
}

/// The call with what came back from a callee: a failure propagates by chance,
/// and on a slow callee the caller may time out.
pub open spec fn returned(cfg: &TopologyConfig, s: u32, callee: u32, v: Visit, c: Visit) -> Visit {
    let passed = c.failed && heads(c.rest, cfg.propagation);
    let s1 = if c.failed {
        rng::skip_words(c.rest, 2)
    } else {
        c.rest
    };
    let timed_out = c.slow && heads(s1, cfg.timeout_prob);
    let s2 = if c.slow {
        rng::skip_words(s1, 2)
    } else {
        s1
    };
    Visit {
        failed: v.failed || passed || timed_out,
        slow: v.slow || c.slow,
        path: v.path + c.path,
        edges: v.edges.push((s, callee)) + c.edges,
        broken: v.broken + c.broken,
        latency: v.latency + c.latency,
        rest: s2,
    }
}

/// The call after its first `k` dependencies.
pub open spec fn descended(
    t: &Topology,
    cfg: &TopologyConfig,
    s: u32,
    left: nat,
    k: nat,
    stream: Map<nat, u32>,
) -> Visit
    decreases left, 0nat, k,
{
    if k == 0 || left == 0 {
        arrived(t, cfg, s, stream)
    } else {
        let v = descended(t, cfg, s, left, (k - 1) as nat, stream);
        let callee = t.deps@[s as int]@[k - 1];
        let mid = rng::skip_words(v.rest, 2);
        if heads(v.rest, CALL_PROB) {
            returned(cfg, s, callee, v, visit(t, cfg, callee, (left - 1) as nat, mid))
        } else {
            Visit { rest: mid, ..v }
        }
    }
}

/// A call of a service that may go `left` levels deeper.
pub open spec fn visit(
    t: &Topology,
    cfg: &TopologyConfig,
    s: u32,
    left: nat,
    stream: Map<nat, u32>,
) -> Visit
    decreases left, 1nat, 0nat,
{
    let v = descended(t, cfg, s, left, t.deps@[s as int]@.len(), stream);
    if v.failed {
        Visit { broken: v.broken.push(s), ..v }
    } else {
        v
    }
}

/// A request: it enters at a front end.
pub open spec fn request(t: &Topology, cfg: &TopologyConfig, stream: Map<nat, u32>) -> Visit {
    let (x, used) = rng::range_draw(stream, 0, t.frontends@.len() as u64);
    visit(t, cfg, t.frontends@[x as int], MAX_DEPTH as nat, rng::skip_words(stream, used))
}

/// `n` requests, one after another, and the stream that is left.
pub open spec fn requests(t: &Topology, cfg: &TopologyConfig, stream: Map<nat, u32>, n: nat) -> (
    Seq<Visit>,
    Map<nat, u32>,
)
    decreases n,
{
    if n == 0 {
        (Seq::empty(), stream)
    } else {
        let (before, rest) = requests(t, cfg, stream, (n - 1) as nat);
        let v = request(t, cfg, rest);
        (before.push(v), v.rest)
    }
}

/// How often `x` occurs.
pub open spec fn occurrences(list: Seq<u32>, x: int) -> nat
    decreases list.len(),
{
    if list.len() == 0 {
        0
    } else {
        occurrences(list.drop_last(), x) + (if list.last() == x {
            1nat
        } else {
            0
        })
    }
}

proof fn lemma_occurrences_concat(a: Seq<u32>, b: Seq<u32>, x: int)
    ensures
        occurrences(a + b, x) == occurrences(a, x) + occurrences(b, x),
    decreases b.len(),
{
    if b.len() == 0 {
        assert(a + b =~= a);
    } else {
        assert((a + b).drop_last() =~= a + b.drop_last());
        lemma_occurrences_concat(a, b.drop_last(), x);
    }
}

proof fn lemma_occurrences_push(a: Seq<u32>, y: u32, x: int)
    ensures
        occurrences(a.push(y), x) == occurrences(a, x) + (if y == x {
            1nat
        } else {
            0
        }),
{
    assert(a.push(y).drop_last() =~= a);
}

/// How often `x` is called in the first `n` visits.
pub open spec fn total_calls(visits: Seq<Visit>, x: int, n: nat) -> nat
    decreases n,
{
    if n == 0 {
        0
    } else {
        total_calls(visits, x, (n - 1) as nat) + occurrences(visits[n - 1].path, x)
    }
}

/// How often `x` fails in the first `n` visits.
pub open spec fn total_failures(visits: Seq<Visit>, x: int, n: nat) -> nat
    decreases n,
{
    if n == 0 {
        0
    } else {
        total_failures(visits, x, (n - 1) as nat) + occurrences(visits[n - 1].broken, x)
    }
}

/// One recorded request.
#[derive(Clone, Debug)]
pub struct Trace {
    /// Services visited, in call order.
    pub path: Vec<u32>,
    /// Edges exercised.
    pub edges: Vec<(u32, u32)>,
    pub failed: bool,
    pub latency_us: u64,
}

/// What a trace says.
pub open spec fn trace_of(tr: &Trace, v: Visit) -> bool {
    &&& tr.path@ == v.path
    &&& tr.edges@ == v.edges
    &&& tr.failed == v.failed
    &&& tr.latency_us == math::capped(v.latency as int)
}

#[derive(Debug)]
pub struct Workload {
    pub traces: Vec<Trace>,
    /// Calls and failures per service.
    pub calls: Vec<u64>,
    pub failures: Vec<u64>,
}

/// The records of a request under way.
struct Recorder {
    path: Vec<u32>,
    edges: Vec<(u32, u32)>,
    calls: Vec<u64>,
    failures: Vec<u64>,
    latency: u64,
}

/// `b` is `a` with what a visit adds.
spec fn recorded(
    a: Recorder,
    b: Recorder,
    path: Seq<u32>,
    edges: Seq<(u32, u32)>,
    broken: Seq<u32>,
    latency: nat,
) -> bool {
    &&& b.path@ == a.path@ + path
    &&& b.edges@ == a.edges@ + edges
    &&& b.calls@.len() == a.calls@.len()
    &&& b.failures@.len() == a.failures@.len()
    &&& forall|x: int|
        0 <= x < a.calls@.len() ==> #[trigger] b.calls@[x] == math::capped(
            a.calls@[x] + occurrences(path, x),
        )
    &&& forall|x: int|
        0 <= x < a.failures@.len() ==> #[trigger] b.failures@[x] == math::capped(
            a.failures@[x] + occurrences(broken, x),
        )
    &&& b.latency == math::capped(a.latency + latency)
}

proof fn lemma_recorded_then(
    a: Recorder,
    b: Recorder,
    c: Recorder,
    p: Seq<u32>,
    e: Seq<(u32, u32)>,
    k: Seq<u32>,
    l: nat,
    p2: Seq<u32>,
    e2: Seq<(u32, u32)>,
    k2: Seq<u32>,
    l2: nat,
)
    requires
        recorded(a, b, p, e, k, l),
        recorded(b, c, p2, e2, k2, l2),
    ensures
        recorded(a, c, p + p2, e + e2, k + k2, l + l2),
{
    assert(c.path@ =~= a.path@ + (p + p2));
    assert(c.edges@ =~= a.edges@ + (e + e2));
    assert forall|x: int| 0 <= x < a.calls@.len() implies #[trigger] c.calls@[x] == math::capped(
        a.calls@[x] + occurrences(p + p2, x),
    ) by {
        assert(b.calls@[x] == math::capped(a.calls@[x] + occurrences(p, x)));
        lemma_occurrences_concat(p, p2, x);
    }
    assert forall|x: int| 0 <= x < a.failures@.len() implies #[trigger] c.failures@[x] == math::capped(
        a.failures@[x] + occurrences(k + k2, x),
    ) by {
        assert(b.failures@[x] == math::capped(a.failures@[x] + occurrences(k, x)));
        lemma_occurrences_concat(k, k2, x);
    }
}

fn add_capped(a: u64, b: u64) -> (c: u64)
    ensures
        c == math::capped(a + b),
{
    if b > u64::MAX - a {
        u64::MAX
    } else {
        a + b
    }
}

/// Every call takes from 200 to 900 microseconds, and a slow one of the broken
/// service from 8 to 25 milliseconds more; all add up along the path.
pub open spec fn takes_its_time(t: &Topology, cfg: &TopologyConfig, path: Seq<u32>, us: int) -> bool {
    let broken = occurrences(path, t.root_cause as int);
    &&& 200 * path.len() <= us
    &&& us <= 899 * path.len() + 24_999 * broken
    &&& cfg.fault_severity == 0 ==> us <= 899 * path.len()
    &&& cfg.fault_severity >= 9_007_199_254_740_992 ==> us >= 200 * path.len() + 8_000 * broken
}

/// Follows a call down the dependencies.
#[verifier::rlimit(60)]
fn walk(
    rng: &mut ChaCha8Rng,
    t: &Topology,
    cfg: &TopologyConfig,
    s: u32,
    left: usize,
    rec: &mut Recorder,
) -> (r: (bool, bool))
    requires
        t.well_formed(),
        s < t.n_services,
        old(rec).calls@.len() == t.n_services,
        old(rec).failures@.len() == t.n_services,
    ensures
        ({
            let v = visit(t, cfg, s, left as nat, rng::words(*old(rng)));
            &&& r == (v.failed, v.slow)
            &&& rng::words(*final(rng)) == v.rest
            &&& recorded(*old(rec), *final(rec), v.path, v.edges, v.broken, v.latency)
            &&& takes_its_time(t, cfg, v.path, v.latency as int)
        }),
    decreases left,
{
    let ghost stream = rng::words(*rng);
    let ghost rec0 = *rec;
    let ghost all = visit(t, cfg, s, left as nat, stream);
    rec.path.push(s);
    let mut c = rec.calls[s as usize];
    math::tick(&mut c);
    rec.calls.set(s as usize, c);
    let base = rng::gen_range(rng, 200, 900);
    rec.latency = add_capped(rec.latency, base);
    let mut failed = rng::coin(rng, cfg.baseline_error);
    let mut slow = false;
    if s == t.root_cause && rng::coin(rng, cfg.fault_severity) {
        slow = true;
        let more = rng::gen_range(rng, 8_000, 25_000);
        rec.latency = add_capped(rec.latency, more);
    }
    let ghost v0 = arrived(t, cfg, s, stream);
    proof {
        assert(v0.path =~= seq![s]);
        assert(rec.path@ =~= rec0.path@ + v0.path);
        assert(rec.edges@ =~= rec0.edges@ + v0.edges);
        assert forall|x: int| 0 <= x < rec0.calls@.len()
            implies #[trigger] rec.calls@[x] == math::capped(
            rec0.calls@[x] + occurrences(v0.path, x),
        ) by {
            assert(v0.path =~= Seq::<u32>::empty().push(s));
            lemma_occurrences_push(Seq::empty(), s, x);
        }
        assert(recorded(rec0, *rec, v0.path, v0.edges, v0.broken, v0.latency));
        assert(v0.path =~= Seq::<u32>::empty().push(s));
        lemma_occurrences_push(Seq::empty(), s, t.root_cause as int);
        let s1 = rng::skip_words(stream, rng::range_draw(stream, 200, 900).1);
        let s2 = rng::skip_words(s1, 2);
        assert(rng::first_u64(s2) / 2048 < 9_007_199_254_740_992) by {
            assert(s2[0] <= 0xffff_ffff && s2[1] <= 0xffff_ffff);
        }
        assert(takes_its_time(t, cfg, v0.path, v0.latency as int));
    }
    if left > 0 {
        let list = &t.deps[s as usize];
        for k in 0..list.len()
            invariant
                t.well_formed(),
                s < t.n_services,
                left > 0,
                *list == t.deps@[s as int],
                rec.calls@.len() == t.n_services,
                rec.failures@.len() == t.n_services,
                ({
                    let v = descended(t, cfg, s, left as nat, k as nat, stream);
                    &&& (failed, slow) == (v.failed, v.slow)
                    &&& rng::words(*rng) == v.rest
                    &&& recorded(rec0, *rec, v.path, v.edges, v.broken, v.latency)
                    &&& takes_its_time(t, cfg, v.path, v.latency as int)
                }),
        {
            let ghost v = descended(t, cfg, s, left as nat, k as nat, stream);
            let ghost next = descended(t, cfg, s, left as nat, (k + 1) as nat, stream);
            let callee = list[k];
            assert(t.deps@[s as int]@[k as int] < t.n_services);
            if rng::coin(rng, CALL_PROB) {
                let ghost mid = rng::words(*rng);
                let ghost c = visit(t, cfg, callee, (left - 1) as nat, mid);
                let ghost rec1 = *rec;
                rec.edges.push((s, callee));
                let ghost rec2 = *rec;
                proof {
                    let none = Seq::<u32>::empty();
                    assert(rec2.path@ =~= rec1.path@ + none);
                    assert(rec2.edges@ =~= rec1.edges@ + seq![(s, callee)]);
                    assert(recorded(rec1, rec2, none, seq![(s, callee)], none, 0));
                    lemma_recorded_then(
                        rec0,
                        rec1,
                        rec2,
                        v.path,
                        v.edges,
                        v.broken,
                        v.latency,
                        none,
                        seq![(s, callee)],
                        none,
                        0,
                    );
                }
                let (child_failed, child_slow) = walk(rng, t, cfg, callee, left - 1, rec);
                proof {
                    let none = Seq::<u32>::empty();
                    lemma_recorded_then(
                        rec0,
                        rec2,
                        *rec,
                        v.path + none,
                        v.edges + seq![(s, callee)],
                        v.broken + none,
                        v.latency + 0,
                        c.path,
                        c.edges,
                        c.broken,
                        c.latency,
                    );
                    assert(v.path + none + c.path =~= next.path);
                    lemma_occurrences_concat(v.path, c.path, t.root_cause as int);
                    assert(v.edges + seq![(s, callee)] + c.edges =~= next.edges);
                    assert(v.broken + none + c.broken =~= next.broken);
                }
                if child_failed && rng::coin(rng, cfg.propagation) {
                    failed = true;
                }
                if child_slow {
                    slow = true;
                    if rng::coin(rng, cfg.timeout_prob) {
                        failed = true;
                    }
                }
            }
        }
    }
    let ghost v = descended(t, cfg, s, left as nat, t.deps@[s as int]@.len(), stream);
    if failed {
        let ghost rec1 = *rec;
        let mut c = rec.failures[s as usize];
        math::tick(&mut c);
        rec.failures.set(s as usize, c);
        proof {
            let none = Seq::<u32>::empty();
            assert(rec.path@ =~= rec1.path@ + none);
            assert(rec.edges@ =~= rec1.edges@ + Seq::<(u32, u32)>::empty());
            assert forall|x: int| 0 <= x < rec1.failures@.len()
                implies #[trigger] rec.failures@[x] == math::capped(
                rec1.failures@[x] + occurrences(seq![s], x),
            ) by {
                assert(seq![s] =~= none.push(s));
                lemma_occurrences_push(none, s, x);
            }
            assert(recorded(rec1, *rec, none, Seq::empty(), seq![s], 0));
            lemma_recorded_then(
                rec0,
                rec1,
                *rec,
                v.path,
                v.edges,
                v.broken,
                v.latency,
                none,
                Seq::empty(),
                seq![s],
                0,
            );
            assert(v.path + none =~= all.path);
            assert(v.edges + Seq::<(u32, u32)>::empty() =~= all.edges);
            assert(v.broken + seq![s] =~= all.broken);
        }
    }
    (failed, slow)
}

/// The traces and counts are those of the visits.
pub open spec fn is_measured(
    traces: Seq<Trace>,
    calls: Seq<u64>,
    failures: Seq<u64>,
    visits: Seq<Visit>,
    n_services: int,
) -> bool {
    &&& traces.len() == visits.len()
    &&& forall|i: int| 0 <= i < traces.len() ==> trace_of(&(#[trigger] traces[i]), visits[i])
    &&& calls.len() == n_services
    &&& failures.len() == n_services
    &&& forall|s: int|
        0 <= s < n_services ==> #[trigger] calls[s] == math::capped(
            total_calls(visits, s, visits.len()) as int,
        )
    &&& forall|s: int|
        0 <= s < n_services ==> #[trigger] failures[s] == math::capped(
            total_failures(visits, s, visits.len()) as int,
        )
}

/// Every edge in a trace is a real dependency.
pub open spec fn edges_real(t: &Topology, traces: Seq<Trace>) -> bool {
    forall|i: int, k: int|
        0 <= i < traces.len() && 0 <= k < traces[i].edges@.len() ==> is_configured(
            t,
            #[trigger] traces[i].edges@[k],
        )
}

/// A window of traffic against a topology with one broken service.
pub fn run_workload(rng: &mut ChaCha8Rng, t: &Topology, cfg: &TopologyConfig) -> (w: Workload)
    requires
        t.well_formed(),
        cfg.n_requests > 0 ==> t.frontends@.len() > 0,
    ensures
        is_measured(
            w.traces@,
            w.calls@,
            w.failures@,
            requests(t, cfg, rng::words(*old(rng)), cfg.n_requests as nat).0,
            t.n_services as int,
        ),
        rng::words(*final(rng)) == requests(
            t,
            cfg,
            rng::words(*old(rng)),
            cfg.n_requests as nat,
        ).1,
        w.traces@.len() == cfg.n_requests,
        counts_fit(&w),
        paths_within(w.traces@, t.n_services as int),
        edges_real(t, w.traces@),
        forall|i: int|
            0 <= i < w.traces@.len() && (#[trigger] w.traces@[i]).latency_us < u64::MAX
                ==> takes_its_time(t, cfg, w.traces@[i].path@, w.traces@[i].latency_us as int),
{
    let ghost start = rng::words(*rng);
    let ghost mut visits: Seq<Visit> = Seq::empty();
    let mut traces: Vec<Trace> = Vec::new();
    let mut calls: Vec<u64> = vec![0; t.n_services];
    let mut failures: Vec<u64> = vec![0; t.n_services];
    for i in 0..cfg.n_requests
        invariant
            t.well_formed(),
            cfg.n_requests > 0 ==> t.frontends@.len() > 0,
            start == rng::words(*old(rng)),
            visits.len() == i,
            (visits, rng::words(*rng)) == requests(t, cfg, start, i as nat),
            is_measured(traces@, calls@, failures@, visits, t.n_services as int),
            paths_within(traces@, t.n_services as int),
            edges_real(t, traces@),
            forall|i: int|
                0 <= i < traces@.len() && (#[trigger] traces@[i]).latency_us < u64::MAX
                    ==> takes_its_time(t, cfg, traces@[i].path@, traces@[i].latency_us as int),
    {
        let ghost v = request(t, cfg, rng::words(*rng));
        let ghost before = visits;
        let x = rng::draw_index(rng, 0, t.frontends.len());
        let entry = t.frontends[x];
        assert(t.frontends@[x as int] < t.n_services);
        let ghost (calls0, failures0) = (calls@, failures@);
        let mut rec = Recorder { path: Vec::new(), edges: Vec::new(), calls, failures, latency: 0 };
        let (failed, _slow) = walk(rng, t, cfg, entry, MAX_DEPTH, &mut rec);
        proof {
            visits = visits.push(v);
            assert(rec.path@ =~= v.path);
            assert(rec.edges@ =~= v.edges);
            assert forall|s: int| 0 <= s < t.n_services
                implies #[trigger] rec.calls@[s] == math::capped(
                total_calls(visits, s, (i + 1) as nat) as int,
            ) by {
                lemma_totals_prefix(before, visits, s, i as nat);
                assert(calls0[s] == math::capped(total_calls(before, s, i as nat) as int));
            }
            assert forall|s: int| 0 <= s < t.n_services
                implies #[trigger] rec.failures@[s] == math::capped(
                total_failures(visits, s, (i + 1) as nat) as int,
            ) by {
                lemma_totals_prefix(before, visits, s, i as nat);
                assert(failures0[s] == math::capped(total_failures(before, s, i as nat) as int));
            }
        }
        let ghost traces0 = traces@;
        calls = rec.calls;
        failures = rec.failures;
        traces.push(
            Trace { path: rec.path, edges: rec.edges, failed, latency_us: rec.latency },
        );
        proof {
            assert forall|j: int| 0 <= j < traces@.len()
                implies trace_of(&(#[trigger] traces@[j]), visits[j]) by {
                if j < i {
                    assert(traces@[j] == traces0[j]);
                    assert(trace_of(&traces0[j], before[j]));
                }
            }
            let inner = rng::skip_words(
                requests(t, cfg, start, i as nat).1,
                rng::range_draw(
                    requests(t, cfg, start, i as nat).1,
                    0,
                    t.frontends@.len() as u64,
                ).1,
            );
            assert(v == visit(t, cfg, entry, MAX_DEPTH as nat, inner));
            assert forall|j: int, k: int| 0 <= j < traces@.len() && 0 <= k < traces@[j].path@.len()
                implies #[trigger] traces@[j].path@[k]
                < t.n_services by {
                if j < i {
                    assert(traces@[j] == traces0[j]);
                    assert(traces0[j].path@[k] < t.n_services);
                } else {
                    lemma_visit_path(t, cfg, entry, MAX_DEPTH as nat, inner, k);
                }
            }
            assert forall|j: int, k: int| 0 <= j < traces@.len() && 0 <= k < traces@[j].edges@.len()
                implies is_configured(
                t,
                #[trigger] traces@[j].edges@[k],
            ) by {
                if j < i {
                    assert(traces@[j] == traces0[j]);
                    assert(is_configured(t, traces0[j].edges@[k]));
                } else {
                    lemma_visit_edges(t, cfg, entry, MAX_DEPTH as nat, inner, k);
                }
            }
        }
    }
    Workload { traces, calls, failures }
}

proof fn lemma_totals_prefix(a: Seq<Visit>, b: Seq<Visit>, x: int, n: nat)
    requires
        n <= a.len() <= b.len(),
        forall|i: int| 0 <= i < a.len() ==> #[trigger] a[i] == b[i],
    ensures
        total_calls(a, x, n) == total_calls(b, x, n),
        total_failures(a, x, n) == total_failures(b, x, n),
    decreases n,
{
    if n > 0 {
        lemma_totals_prefix(a, b, x, (n - 1) as nat);
        assert(a[n - 1] == b[n - 1]);
    }
}

/// The error rate of a service, in double precision.
pub open spec fn rate_of(w: &Workload, s: int) -> int {
    if w.calls@[s] == 0 {
        0
    } else {
        double::quotient(double::of(w.failures@[s] as int), double::of(w.calls@[s] as int))
    }
}

/// The service failed in more than the part `threshold` of its calls.
pub open spec fn is_alerting(w: &Workload, s: int, threshold: Double) -> bool {
    w.calls@[s] > 0 && rate_of(w, s) > threshold.value()
}

/// The services of a list that are alerting, in order.
pub open spec fn alerting_below(w: &Workload, threshold: Double, n: nat) -> Seq<u32>
    decreases n,
{
    if n == 0 {
        Seq::empty()
    } else {
        let before = alerting_below(w, threshold, (n - 1) as nat);
        if is_alerting(w, n - 1, threshold) {
            before.push((n - 1) as u32)
        } else {
            before
        }
    }
}

/// As many failure counts as call counts, for services with 32-bit numbers.
pub open spec fn counts_fit(w: &Workload) -> bool {
    w.calls@.len() == w.failures@.len() <= u32::MAX
}

/// The error rate of every service.
pub open spec fn rates(w: &Workload) -> Seq<int> {
    Seq::new(w.calls@.len(), |s: int| rate_of(w, s))
}

/// The failures of every service, as doubles.
pub open spec fn failure_scores(w: &Workload) -> Seq<int> {
    Seq::new(w.failures@.len(), |s: int| double::of(w.failures@[s] as int))
}

impl Workload {
    /// The error rate of a service.
    pub fn error_rate(&self, s: u32) -> (r: Double)
        requires
            s < self.calls@.len(),
            s < self.failures@.len(),
        ensures
            r.normal(),
            r.value() == rate_of(self, s as int),
    {
        let calls = self.calls[s as usize];
        if calls == 0 {
            return double::zero();
        }
        let of = Double::from_u64(calls);
        proof {
            double::lemma_of_positive(calls as int);
            of.lemma_sign();
        }
        Double::from_u64(self.failures[s as usize]).over(of)
    }

    /// The services whose error rate is above `threshold`.
    pub fn alerting(&self, threshold: Double) -> (r: Vec<u32>)
        requires
            counts_fit(self),
            threshold.finite(),
        ensures
            r@ == alerting_below(self, threshold, self.calls@.len()),
    {
        let mut r: Vec<u32> = Vec::new();
        for s in 0..self.calls.len()
            invariant
                counts_fit(self),
                threshold.finite(),
                r@ == alerting_below(self, threshold, s as nat),
        {
            if self.calls[s] > 0 && !threshold.at_least(self.error_rate(s as u32)) {
                r.push(s as u32);
            }
        }
        r
    }
}

/// Ranks the services by their failures.
pub fn rank_by_failures(w: &Workload) -> (r: Vec<u32>)
    requires
        counts_fit(w),
    ensures
        ranking::is_ranking(failure_scores(w), r@, w.calls@.len() as int),
{
    let mut scores: Vec<Double> = Vec::new();
    for s in 0..w.failures.len()
        invariant
            scores@.len() == s,
            forall|i: int|
                0 <= i < s ==> (#[trigger] scores@[i]).normal() && scores@[i].value() == double::of(
                    w.failures@[i] as int,
                ),
    {
        scores.push(Double::from_u64(w.failures[s]));
    }
    assert(ranking::scores_of(scores@) =~= failure_scores(w));
    ranking::rank(&scores)
}

/// Ranks the services by their error rate.
pub fn rank_by_error_rate(w: &Workload) -> (r: Vec<u32>)
    requires
        counts_fit(w),
    ensures
        ranking::is_ranking(rates(w), r@, w.calls@.len() as int),
{
    let mut scores: Vec<Double> = Vec::new();
    for s in 0..w.failures.len()
        invariant
            counts_fit(w),
            scores@.len() == s,
            forall|i: int|
                0 <= i < s ==> (#[trigger] scores@[i]).normal() && scores@[i].value() == rate_of(
                    w,
                    i,
                ),
    {
        scores.push(w.error_rate(s as u32));
    }
    assert(ranking::scores_of(scores@) =~= rates(w));
    ranking::rank(&scores)
}

/// Trace `i` touches service `s`.
pub open spec fn touching(traces: Seq<Trace>, s: int) -> spec_fn(int) -> bool {
    |i: int| traces[i].path@.contains(s as u32)
}

/// Trace `i` touches service `s` and failed.
pub open spec fn touching_failed(traces: Seq<Trace>, s: int) -> spec_fn(int) -> bool {
    |i: int| traces[i].path@.contains(s as u32) && traces[i].failed
}

pub open spec fn has_failed(traces: Seq<Trace>) -> spec_fn(int) -> bool {
    |i: int| traces[i].failed
}

/// Every path stays within the services.
pub open spec fn paths_within(traces: Seq<Trace>, n: int) -> bool {
    forall|i: int, k: int|
        0 <= i < traces.len() && 0 <= k < traces[i].path@.len() ==> #[trigger] traces[i].path@[k]
            < n
}

/// Which services a path touches.
fn touched(path: &Vec<u32>, n: usize) -> (flags: Vec<bool>)
    requires
        forall|k: int| 0 <= k < path@.len() ==> #[trigger] path@[k] < n,
    ensures
        flags@.len() == n,
        forall|s: int|
            0 <= s < n && s <= u32::MAX ==> (#[trigger] flags@[s] <==> path@.contains(s as u32)),
{
    let mut flags: Vec<bool> = vec![false; n];
    for k in 0..path.len()
        invariant
            forall|k: int| 0 <= k < path@.len() ==> #[trigger] path@[k] < n,
            flags@.len() == n,
            forall|s: int|
                0 <= s < n ==> (#[trigger] flags@[s] <==> exists|j: int|
                    0 <= j < k && #[trigger] path@[j] == s),
    {
        let s = path[k] as usize;
        assert(path@[k as int] < n);
        let ghost was = flags@;
        flags.set(s, true);
        proof {
            assert forall|x: int| 0 <= x < n implies (#[trigger] flags@[x] <==> exists|j: int|
                0 <= j < k + 1 && #[trigger] path@[j] == x) by {
                assert(was[x] <==> exists|j: int| 0 <= j < k && #[trigger] path@[j] == x);
                if exists|j: int| 0 <= j < k + 1 && #[trigger] path@[j] == x {
                    let j = choose|j: int| 0 <= j < k + 1 && #[trigger] path@[j] == x;
                    if j < k {
                        assert(path@[j] == x);
                    }
                }
                if exists|j: int| 0 <= j < k && #[trigger] path@[j] == x {
                    let j = choose|j: int| 0 <= j < k && #[trigger] path@[j] == x;
                    assert(path@[j] == x);
                }
                if x == s {
                    assert(path@[k as int] == x);
                }
            }
        }
    }
    proof {
        assert forall|s: int| 0 <= s < n && s <= u32::MAX
            implies (#[trigger] flags@[s] <==> path@.contains(s as u32)) by {
            if path@.contains(s as u32) {
                let j = choose|j: int| 0 <= j < path@.len() && path@[j] == s as u32;
                assert(path@[j] == s);
            }
            if flags@[s] {
                let j = choose|j: int| 0 <= j < path@.len() && #[trigger] path@[j] == s;
                assert(path@[j] == s as u32);
            }
        }
    }
    flags
}

/// For every service: how many requests touched it, and how many of those
/// failed; and how many requests failed at all. This is the observability that
/// an operator has: the outcome of a request, and a trace.
pub fn failure_counts(n_services: usize, traces: &[Trace]) -> (r: (Vec<u64>, Vec<u64>, u64))
    requires
        n_services <= u32::MAX,
        paths_within(traces@, n_services as int),
    ensures
        r.0@.len() == n_services,
        r.1@.len() == n_services,
        forall|s: int|
            0 <= s < n_services ==> #[trigger] r.0@[s] == math::count(
                traces@.len(),
                touching(traces@, s),
            ),
        forall|s: int|
            0 <= s < n_services ==> #[trigger] r.1@[s] == math::count(
                traces@.len(),
                touching_failed(traces@, s),
            ),
        r.2 == math::count(traces@.len(), has_failed(traces@)),
{
    let mut touch: Vec<u64> = vec![0; n_services];
    let mut both: Vec<u64> = vec![0; n_services];
    let mut failed: u64 = 0;
    for i in 0..traces.len()
        invariant
            n_services <= u32::MAX,
            paths_within(traces@, n_services as int),
            touch@.len() == n_services,
            both@.len() == n_services,
            forall|s: int|
                0 <= s < n_services ==> #[trigger] touch@[s] == math::count(
                    i as nat,
                    touching(traces@, s),
                ),
            forall|s: int|
                0 <= s < n_services ==> #[trigger] both@[s] == math::count(
                    i as nat,
                    touching_failed(traces@, s),
                ),
            failed <= i,
            failed == math::count(i as nat, has_failed(traces@)),
    {
        let tr = &traces[i];
        if tr.failed {
            failed += 1;
        }
        proof {
            assert forall|k: int| 0 <= k < tr.path@.len()
                implies #[trigger] tr.path@[k] < n_services by {
                assert(traces@[i as int].path@[k] < n_services);
            }
        }
        let flags = touched(&tr.path, n_services);
        for s in 0..n_services
            invariant
                n_services <= u32::MAX,
                i < traces.len(),
                traces.len() == traces@.len(),
                *tr == traces@[i as int],
                flags@.len() == n_services,
                forall|s: int|
                    0 <= s < n_services ==> (#[trigger] flags@[s] <==> tr.path@.contains(s as u32)),
                touch@.len() == n_services,
                both@.len() == n_services,
                forall|x: int|
                    0 <= x < n_services ==> #[trigger] touch@[x] == math::count(
                        (if x < s {
                            (i + 1) as nat
                        } else {
                            i as nat
                        }),
                        touching(traces@, x),
                    ),
                forall|x: int|
                    0 <= x < n_services ==> #[trigger] both@[x] == math::count(
                        (if x < s {
                            (i + 1) as nat
                        } else {
                            i as nat
                        }),
                        touching_failed(traces@, x),
                    ),
        {
            proof {
                math::lemma_count_le(i as nat, touching(traces@, s as int));
                math::lemma_count_le(i as nat, touching_failed(traces@, s as int));
                assert(touching(traces@, s as int)(i as int) == flags@[s as int]);
                assert(touching_failed(traces@, s as int)(i as int) == (flags@[s as int]
                    && tr.failed));
            }
            if flags[s] {
                let a = touch[s] + 1;
                touch.set(s, a);
                if tr.failed {
                    let b = both[s] + 1;
                    both.set(s, b);
                }
            }
        }
    }
    (touch, both, failed)
}

/// Trace `i` entered at service `f`.
pub open spec fn entering(traces: Seq<Trace>, f: u32) -> spec_fn(int) -> bool {
    |i: int| traces[i].path@.len() > 0 && traces[i].path@[0] == f
}

/// Trace `i` entered at service `f` and touched service `s`.
pub open spec fn entering_touching(traces: Seq<Trace>, f: u32, s: int) -> spec_fn(int) -> bool {
    |i: int|
        traces[i].path@.len() > 0 && traces[i].path@[0] == f && traces[i].path@.contains(s as u32)
}

/// Of the requests that entered at `f`: how many touched each service, and how
/// many there were.
fn entry_counts(n_services: usize, traces: &[Trace], f: u32) -> (r: (Vec<u64>, u64))
    requires
        n_services <= u32::MAX,
        paths_within(traces@, n_services as int),
    ensures
        r.0@.len() == n_services,
        forall|s: int|
            0 <= s < n_services ==> #[trigger] r.0@[s] == math::count(
                traces@.len(),
                entering_touching(traces@, f, s),
            ),
        r.1 == math::count(traces@.len(), entering(traces@, f)),
{
    let mut row: Vec<u64> = vec![0; n_services];
    let mut total: u64 = 0;
    for i in 0..traces.len()
        invariant
            n_services <= u32::MAX,
            paths_within(traces@, n_services as int),
            row@.len() == n_services,
            forall|s: int|
                0 <= s < n_services ==> #[trigger] row@[s] == math::count(
                    i as nat,
                    entering_touching(traces@, f, s),
                ),
            total <= i,
            total == math::count(i as nat, entering(traces@, f)),
    {
        let tr = &traces[i];
        if tr.path.len() > 0 && tr.path[0] == f {
            total += 1;
            proof {
                assert forall|k: int| 0 <= k < tr.path@.len()
                    implies #[trigger] tr.path@[k] < n_services by {
                    assert(traces@[i as int].path@[k] < n_services);
                }
            }
            let flags = touched(&tr.path, n_services);
            for s in 0..n_services
                invariant
                    n_services <= u32::MAX,
                    i < traces.len(),
                    traces.len() == traces@.len(),
                    *tr == traces@[i as int],
                    tr.path@.len() > 0,
                    tr.path@[0] == f,
                    flags@.len() == n_services,
                    forall|s: int|
                        0 <= s < n_services ==> (#[trigger] flags@[s] <==> tr.path@.contains(
                            s as u32,
                        )),
                    row@.len() == n_services,
                    forall|x: int|
                        0 <= x < n_services ==> #[trigger] row@[x] == math::count(
                            (if x < s {
                                (i + 1) as nat
                            } else {
                                i as nat
                            }),
                            entering_touching(traces@, f, x),
                        ),
            {
                proof {
                    math::lemma_count_le(i as nat, entering_touching(traces@, f, s as int));
                    assert(entering_touching(traces@, f, s as int)(i as int) == flags@[s as int]);
                }
                if flags[s] {
                    let a = row[s] + 1;
                    row.set(s, a);
                }
            }
        }
    }
    (row, total)
}

/// For each front end: how many of its requests touched each service, and how
/// many requests it had. The participation of a service is the first by the
/// second.
pub fn participation(t: &Topology, w: &Workload) -> (r: Vec<(Vec<u64>, u64)>)
    requires
        t.n_services <= u32::MAX,
        paths_within(w.traces@, t.n_services as int),
    ensures
        r@.len() == t.frontends@.len(),
        forall|i: int|
            0 <= i < r@.len() ==> (#[trigger] r@[i]).0@.len() == t.n_services && r@[i].1
                == math::count(w.traces@.len(), entering(w.traces@, t.frontends@[i])),
        forall|i: int, s: int|
            0 <= i < r@.len() && 0 <= s < t.n_services ==> #[trigger] r@[i].0@[s] == math::count(
                w.traces@.len(),
                entering_touching(w.traces@, t.frontends@[i], s),
            ),
{
    let mut r: Vec<(Vec<u64>, u64)> = Vec::new();
    for i in 0..t.frontends.len()
        invariant
            t.n_services <= u32::MAX,
            paths_within(w.traces@, t.n_services as int),
            r@.len() == i,
            forall|i: int|
                0 <= i < r@.len() ==> (#[trigger] r@[i]).0@.len() == t.n_services && r@[i].1
                    == math::count(w.traces@.len(), entering(w.traces@, t.frontends@[i])),
            forall|i: int, s: int|
                0 <= i < r@.len() && 0 <= s < t.n_services ==> #[trigger] r@[i].0@[s]
                    == math::count(
                    w.traces@.len(),
                    entering_touching(w.traces@, t.frontends@[i], s),
                ),
    {
        let entry = entry_counts(t.n_services, &w.traces, t.frontends[i]);
        let ghost before = r@;
        r.push(entry);
        proof {
            assert forall|j: int, s: int| 0 <= j < r@.len() && 0 <= s < t.n_services
                implies #[trigger] r@[j].0@[s]
                == math::count(
                w.traces@.len(),
                entering_touching(w.traces@, t.frontends@[j], s),
            ) by {
                if j < i {
                    assert(r@[j] == before[j]);
                    assert(before[j].0@[s] == math::count(
                        w.traces@.len(),
                        entering_touching(w.traces@, t.frontends@[j], s),
                    ));
                }
            }
        }
    }
    r
}

/// The configured dependencies.
pub open spec fn calls_edge(t: &Topology) -> graph::Edges {
    |a: usize, b: usize| a < t.n_services && b <= u32::MAX && t.deps@[a as int]@.contains(b as u32)
}

/// The edge is configured.
pub open spec fn is_configured(t: &Topology, e: (u32, u32)) -> bool {
    e.0 < t.n_services && t.deps@[e.0 as int]@.contains(e.1)
}

/// The front ends, as nodes.
pub open spec fn entry_nodes(t: &Topology) -> Seq<usize> {
    Seq::new(t.frontends@.len(), |i: int| t.frontends@[i] as usize)
}

/// Some request can reach the service.
pub open spec fn is_reachable(t: &Topology, s: u32) -> bool {
    graph::reach_any(calls_edge(t), entry_nodes(t), s as usize)
}

/// The edges of the services that a flag is set for.
fn flagged_edges(t: &Topology, flags: &Vec<bool>) -> (edges: Vec<(u32, u32)>)
    requires
        t.well_formed(),
        flags@.len() == t.n_services,
    ensures
        edges@.no_duplicates(),
        forall|e: (u32, u32)| #[trigger]
            edges@.contains(e) <==> is_configured(t, e) && flags@[e.0 as int],
{
    let mut edges: Vec<(u32, u32)> = Vec::new();
    for v in 0..t.n_services
        invariant
            t.well_formed(),
            flags@.len() == t.n_services,
            edges@.no_duplicates(),
            forall|e: (u32, u32)| #[trigger]
                edges@.contains(e) <==> is_configured(t, e) && flags@[e.0 as int] && e.0 < v,
    {
        if flags[v] {
            let list = &t.deps[v];
            let ghost before = edges@;
            for k in 0..list.len()
                invariant
                    t.well_formed(),
                    v < t.n_services,
                    *list == t.deps@[v as int],
                    edges@.no_duplicates(),
                    forall|e: (u32, u32)| #[trigger] before.contains(e) ==> e.0 < v,
                    forall|e: (u32, u32)| #[trigger]
                        edges@.contains(e) <==> before.contains(e) || (e.0 == v && exists|j: int|
                            0 <= j < k && #[trigger] list@[j] == e.1),
            {
                let c = list[k];
                let ghost was = edges@;
                edges.push((v as u32, c));
                proof {
                    assert(!was.contains((v as u32, c))) by {
                        if was.contains((v as u32, c)) {
                            let j = choose|j: int| 0 <= j < k && #[trigger] list@[j] == c;
                            assert(t.deps@[v as int]@.no_duplicates());
                            assert(list@[j] != list@[k as int]);
                        }
                    }
                    assert forall|i: int, j: int| 0 <= i < edges@.len() && 0 <= j < edges@.len() && i != j
                        implies edges@[i]
                        != edges@[j] by {
                        if i == was.len() {
                            assert(was.contains(was[j]));
                        } else if j == was.len() {
                            assert(was.contains(was[i]));
                        }
                    }
                    assert forall|e: (u32, u32)| #[trigger] edges@.contains(e) <==> before.contains(e) || (e.0 == v
                        && exists|j: int| 0 <= j < k + 1 && #[trigger] list@[j] == e.1) by {
                        assert(was.contains(e) <==> before.contains(e) || (e.0 == v && exists|j: int|
                            0 <= j < k && #[trigger] list@[j] == e.1));
                        if was.contains(e) {
                            let i = choose|i: int| 0 <= i < was.len() && was[i] == e;
                            assert(edges@[i] == e);
                        }
                        if edges@.contains(e) {
                            let i = choose|i: int| 0 <= i < edges@.len() && edges@[i] == e;
                            if i < was.len() {
                                assert(was[i] == e);
                            } else {
                                assert(list@[k as int] == e.1);
                            }
                        }
                        assert(edges@[was.len() as int] == (v as u32, c));
                        if exists|j: int| 0 <= j < k && #[trigger] list@[j] == e.1 {
                            let j = choose|j: int| 0 <= j < k && #[trigger] list@[j] == e.1;
                            assert(list@[j] == e.1);
                        }
                    }
                }
            }
            proof {
                assert forall|e: (u32, u32)| #[trigger] edges@.contains(e) <==> is_configured(t, e) && flags@[e.0 as int]
                    && e.0 < v + 1 by {
                    assert(before.contains(e) <==> is_configured(t, e) && flags@[e.0 as int] && e.0 < v);
                    if e.0 == v && is_configured(t, e) {
                        let j = choose|j: int| 0 <= j < list@.len() && list@[j] == e.1;
                        assert(list@[j] == e.1);
                    }
                    if e.0 == v && exists|j: int| 0 <= j < list@.len() && #[trigger] list@[j] == e.1 {
                        let j = choose|j: int| 0 <= j < list@.len() && #[trigger] list@[j] == e.1;
                        assert(list@.contains(e.1));
                    }
                }
            }
        }
    }
    edges
}

/// The dependency edges that requests can reach from a front end. Edges off a
/// service that no request enters are configured, and invisible.
pub fn all_edges(t: &Topology) -> (edges: Vec<(u32, u32)>)
    requires
        t.well_formed(),
    ensures
        edges@.no_duplicates(),
        forall|e: (u32, u32)| #[trigger]
            edges@.contains(e) <==> is_configured(t, e) && is_reachable(t, e.0),
{
    let mut adj: Vec<Vec<usize>> = Vec::new();
    for v in 0..t.n_services
        invariant
            t.well_formed(),
            adj@.len() == v,
            forall|w: int|
                0 <= w < v ==> (#[trigger] adj@[w])@ == Seq::new(
                    t.deps@[w]@.len(),
                    |i: int| t.deps@[w]@[i] as usize,
                ),
    {
        let mut row: Vec<usize> = Vec::new();
        let list = &t.deps[v];
        for i in 0..list.len()
            invariant
                row@.len() == i,
                forall|j: int| 0 <= j < i ==> #[trigger] row@[j] == list@[j],
        {
            row.push(list[i] as usize);
        }
        assert(row@ =~= Seq::new(t.deps@[v as int]@.len(), |i: int| t.deps@[v as int]@[i] as usize));
        adj.push(row);
    }
    let mut seeds: Vec<usize> = Vec::new();
    for i in 0..t.frontends.len()
        invariant
            seeds@.len() == i,
            forall|j: int| 0 <= j < i ==> #[trigger] seeds@[j] == t.frontends@[j],
    {
        seeds.push(t.frontends[i] as usize);
    }
    proof {
        assert(seeds@ =~= entry_nodes(t));
        assert forall|a: int, k: int| 0 <= a < adj@.len() && 0 <= k < adj@[a]@.len()
            implies #[trigger] adj@[a]@[k]
            < adj@.len() by {
            assert(adj@[a]@[k] == t.deps@[a]@[k]);
        }
        assert forall|i: int| 0 <= i < seeds@.len() implies #[trigger] seeds@[i] < adj@.len() by {
            assert(t.frontends@[i] < t.n_services);
        }
    }
    let dist = graph::bfs(&adj, &seeds);
    let mut flags: Vec<bool> = Vec::new();
    for v in 0..t.n_services
        invariant
            dist@.len() == t.n_services,
            flags@.len() == v,
            forall|w: int| 0 <= w < v ==> #[trigger] flags@[w] == (dist@[w] != usize::MAX),
    {
        flags.push(dist[v] != usize::MAX);
    }
    proof {
        let e = graph::listed(adj@);
        let f = calls_edge(t);
        assert forall|a: usize, b: usize| #[trigger] e(a, b) == f(a, b) by {
            if a < t.n_services {
                let row = adj@[a as int]@;
                let list = t.deps@[a as int]@;
                if row.contains(b) {
                    let i = choose|i: int| 0 <= i < row.len() && row[i] == b;
                    assert(list[i] == b as u32);
                }
                if b <= u32::MAX && list.contains(b as u32) {
                    let i = choose|i: int| 0 <= i < list.len() && list[i] == b as u32;
                    assert(row[i] == b);
                }
            }
        }
        assert forall|v: int| 0 <= v < t.n_services
            implies #[trigger] flags@[v] == is_reachable(t, v as u32) by {
            assert(graph::is_distance(e, seeds@, v as usize, dist@[v]));
            lemma_same_reach(e, f, seeds@, v as usize);
            if dist@[v] != usize::MAX {
                let (s, p) = choose|s: usize, p: Seq<usize>|
                    seeds@.contains(s) && #[trigger] graph::walks(e, p, s, v as usize) && p.len()
                        == dist@[v] + 1;
                assert(graph::reach(e, s, v as usize));
            }
        }
    }
    let edges = flagged_edges(t, &flags);
    proof {
        assert forall|e: (u32, u32)| #[trigger] edges@.contains(e) <==> is_configured(t, e) && is_reachable(t, e.0) by {
            if e.0 < t.n_services {
                assert(flags@[e.0 as int] == is_reachable(t, e.0));
            }
        }
    }
    edges
}

proof fn lemma_same_reach(e: graph::Edges, f: graph::Edges, seeds: Seq<usize>, v: usize)
    requires
        forall|a: usize, b: usize| #[trigger] e(a, b) == f(a, b),
    ensures
        graph::reach_any(e, seeds, v) == graph::reach_any(f, seeds, v),
{
    assert forall|s: usize| graph::reach(e, s, v) == graph::reach(f, s, v) by {
        graph::lemma_reach_same(e, f, s, v);
    }
    if graph::reach_any(e, seeds, v) {
        let s = choose|s: usize| seeds.contains(s) && #[trigger] graph::reach(e, s, v);
        assert(graph::reach(f, s, v));
    }
    if graph::reach_any(f, seeds, v) {
        let s = choose|s: usize| seeds.contains(s) && #[trigger] graph::reach(f, s, v);
        assert(graph::reach(e, s, v));
    }
}

/// Every configured edge, reachable or not.
pub fn configured_edges(t: &Topology) -> (edges: Vec<(u32, u32)>)
    requires
        t.well_formed(),
    ensures
        edges@.no_duplicates(),
        forall|e: (u32, u32)| #[trigger] edges@.contains(e) <==> is_configured(t, e),
{
    let flags: Vec<bool> = vec![true; t.n_services];
    flagged_edges(t, &flags)
}

/// A call stays within the services.
proof fn lemma_visit_path(
    t: &Topology,
    cfg: &TopologyConfig,
    s: u32,
    left: nat,
    stream: Map<nat, u32>,
    i: int,
)
    requires
        t.well_formed(),
        s < t.n_services,
        0 <= i < visit(t, cfg, s, left, stream).path.len(),
    ensures
        visit(t, cfg, s, left, stream).path[i] < t.n_services,
    decreases left, 1nat, 0nat,
{
    lemma_descended_path(t, cfg, s, left, t.deps@[s as int]@.len(), stream, i);
}

proof fn lemma_descended_path(
    t: &Topology,
    cfg: &TopologyConfig,
    s: u32,
    left: nat,
    k: nat,
    stream: Map<nat, u32>,
    i: int,
)
    requires
        t.well_formed(),
        s < t.n_services,
        k <= t.deps@[s as int]@.len(),
        0 <= i < descended(t, cfg, s, left, k, stream).path.len(),
    ensures
        descended(t, cfg, s, left, k, stream).path[i] < t.n_services,
    decreases left, 0nat, k,
{
    if k > 0 && left > 0 {
        let v = descended(t, cfg, s, left, (k - 1) as nat, stream);
        let callee = t.deps@[s as int]@[k - 1];
        assert(callee < t.n_services);
        let mid = rng::skip_words(v.rest, 2);
        if i < v.path.len() {
            lemma_descended_path(t, cfg, s, left, (k - 1) as nat, stream, i);
        } else if heads(v.rest, CALL_PROB) {
            lemma_visit_path(t, cfg, callee, (left - 1) as nat, mid, i - v.path.len());
        }
    }
}

/// What a call adds to a trace are configured edges.
proof fn lemma_visit_edges(
    t: &Topology,
    cfg: &TopologyConfig,
    s: u32,
    left: nat,
    stream: Map<nat, u32>,
    i: int,
)
    requires
        t.well_formed(),
        s < t.n_services,
        0 <= i < visit(t, cfg, s, left, stream).edges.len(),
    ensures
        is_configured(t, visit(t, cfg, s, left, stream).edges[i]),
    decreases left, 1nat, 0nat,
{
    lemma_descended_edges(t, cfg, s, left, t.deps@[s as int]@.len(), stream, i);
}

proof fn lemma_descended_edges(
    t: &Topology,
    cfg: &TopologyConfig,
    s: u32,
    left: nat,
    k: nat,
    stream: Map<nat, u32>,
    i: int,
)
    requires
        t.well_formed(),
        s < t.n_services,
        k <= t.deps@[s as int]@.len(),
        0 <= i < descended(t, cfg, s, left, k, stream).edges.len(),
    ensures
        is_configured(t, descended(t, cfg, s, left, k, stream).edges[i]),
    decreases left, 0nat, k,
{
    if k > 0 && left > 0 {
        let v = descended(t, cfg, s, left, (k - 1) as nat, stream);
        let callee = t.deps@[s as int]@[k - 1];
        assert(callee < t.n_services);
        let mid = rng::skip_words(v.rest, 2);
        if i < v.edges.len() {
            lemma_descended_edges(t, cfg, s, left, (k - 1) as nat, stream, i);
        } else if heads(v.rest, CALL_PROB) {
            if i == v.edges.len() {
                assert(t.deps@[s as int]@.contains(callee));
            } else {
                lemma_visit_edges(
                    t,
                    cfg,
                    callee,
                    (left - 1) as nat,
                    mid,
                    i - v.edges.len() - 1,
                );
            }
        }
    }
}

/// A service that depends on nothing fails no more often than the baseline:
/// where it is slow, it still does not fail.
pub proof fn lemma_gray_failure(
    t: &Topology,
    cfg: &TopologyConfig,
    s: u32,
    left: nat,
    stream: Map<nat, u32>,
)
    requires
        t.deps@[s as int]@.len() == 0,
    ensures
        visit(t, cfg, s, left, stream).failed == heads(
            rng::skip_words(stream, rng::range_draw(stream, 200, 900).1),
            cfg.baseline_error,
        ),
        visit(t, cfg, s, left, stream).path == seq![s],
{
}

} // verus!
