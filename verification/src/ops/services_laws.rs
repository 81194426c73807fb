//! What a request leaves behind: its path, and how failures and delays come to it.

use crate::double;
use crate::ops::services;
use crate::ops::services::{Topology, TopologyConfig, Visit, Workload};
use crate::rng;
use crate::text;
use vstd::prelude::*;

verus! {

/// A chance that always comes.
pub open spec fn is_sure(p: u64) -> bool {
    p >= 9_007_199_254_740_992
}

/// A chance of nothing never comes, and a sure one always does; a dependency is
/// called where the draw is in the lower three quarters.
pub proof fn lemma_chances(stream: Map<nat, u32>, p: u64)
    ensures
        p == 0 ==> !services::heads(stream, p),
        is_sure(p) ==> services::heads(stream, p),
        services::heads(stream, services::CALL_PROB) <==> 4 * rng::first_u64(stream) < 3
            * 0x1_0000_0000_0000_0000int,
{
    assert(stream[0] <= 0xffff_ffff && stream[1] <= 0xffff_ffff);
}

/// How often a service is in a list.
pub open spec fn times(list: Seq<u32>, x: u32) -> int
    decreases list.len(),
{
    if list.len() == 0 {
        0
    } else {
        times(list.drop_last(), x) + (if list.last() == x {
            1int
        } else {
            0
        })
    }
}

proof fn lemma_times_concat(a: Seq<u32>, b: Seq<u32>, x: u32)
    ensures
        times(a + b, x) == times(a, x) + times(b, x),
    decreases b.len(),
{
    if b.len() == 0 {
        assert(a + b =~= a);
    } else {
        assert((a + b).drop_last() =~= a + b.drop_last());
        lemma_times_concat(a, b.drop_last(), x);
    }
}

proof fn lemma_times_push(a: Seq<u32>, y: u32, x: u32)
    ensures
        times(a.push(y), x) == times(a, x) + (if y == x {
            1int
        } else {
            0
        }),
{
    assert(a.push(y).drop_last() =~= a);
}

proof fn lemma_times(list: Seq<u32>, x: u32)
    ensures
        times(list, x) == services::occurrences(list, x as int),
        times(list, x) >= 0,
    decreases list.len(),
{
    if list.len() > 0 {
        lemma_times(list.drop_last(), x);
    }
}

/// The path of a request: it starts where it enters, and every other service on it
/// was called by one before it.
pub open spec fn is_call_path(v: Visit, s: u32) -> bool {
    &&& v.path.len() == v.edges.len() + 1
    &&& v.path[0] == s
    &&& forall|i: int|
        0 <= i < v.edges.len() ==> v.path[i + 1] == (#[trigger] v.edges[i]).1 && exists|j: int|
            0 <= j <= i && #[trigger] v.path[j] == v.edges[i].0
}

/// How failures and delays come to a call: by the baseline, by a failed callee or by
/// a slow one, and slowness by the fault alone.
pub open spec fn is_caused(t: &Topology, cfg: &TopologyConfig, s: u32, v: Visit) -> bool {
    &&& v.slow ==> v.path.contains(t.root_cause)
    &&& cfg.fault_severity == 0 ==> !v.slow
    &&& is_sure(cfg.fault_severity) && v.path.contains(t.root_cause) ==> v.slow
    &&& cfg.baseline_error == 0 && v.failed ==> v.path.contains(t.root_cause)
    &&& cfg.baseline_error == 0 && cfg.timeout_prob == 0 ==> !v.failed && v.broken.len() == 0
    &&& cfg.baseline_error == 0 && !v.slow ==> !v.failed && v.broken.len() == 0
    &&& is_sure(cfg.propagation) && v.broken.len() > 0 ==> v.failed
    &&& is_sure(cfg.timeout_prob) && v.slow && s != t.root_cause ==> v.failed
    &&& is_sure(cfg.baseline_error) ==> v.failed
}

proof fn lemma_arrived(t: &Topology, cfg: &TopologyConfig, s: u32, stream: Map<nat, u32>)
    ensures
        is_call_path(services::arrived(t, cfg, s, stream), s),
        is_caused(t, cfg, s, services::arrived(t, cfg, s, stream)),
        services::arrived(t, cfg, s, stream).path == seq![s],
        services::arrived(t, cfg, s, stream).broken.len() == 0,
{
    let v = services::arrived(t, cfg, s, stream);
    let s1 = rng::skip_words(stream, rng::range_draw(stream, 200, 900).1);
    lemma_chances(s1, cfg.baseline_error);
    lemma_chances(rng::skip_words(s1, 2), cfg.fault_severity);
    assert(v.path[0] == s);
}

proof fn lemma_returned_path(cfg: &TopologyConfig, s: u32, callee: u32, v: Visit, c: Visit)
    requires
        is_call_path(v, s),
        is_call_path(c, callee),
    ensures
        is_call_path(services::returned(cfg, s, callee, v, c), s),
{
    let now = services::returned(cfg, s, callee, v, c);
    let n = v.edges.len() as int;
    assert forall|i: int| 0 <= i < now.edges.len() implies now.path[i + 1] == (
    #[trigger] now.edges[i]).1 && exists|j: int|
        0 <= j <= i && #[trigger] now.path[j] == now.edges[i].0 by {
        if i < n {
            assert(now.edges[i] == v.edges[i]);
            let j = choose|j: int| 0 <= j <= i && #[trigger] v.path[j] == v.edges[i].0;
            assert(now.path[j] == v.path[j]);
        } else if i == n {
            assert(now.path[0] == s);
        } else {
            let k = i - n - 1;
            assert(now.edges[i] == c.edges[k]);
            let j = choose|j: int| 0 <= j <= k && #[trigger] c.path[j] == c.edges[k].0;
            assert(now.path[n + 1 + j] == c.path[j]);
        }
    }
}

proof fn lemma_returned_cause(
    t: &Topology,
    cfg: &TopologyConfig,
    s: u32,
    callee: u32,
    v: Visit,
    c: Visit,
)
    requires
        is_caused(t, cfg, s, v),
        is_caused(t, cfg, callee, c),
        c.failed ==> c.broken.len() > 0,
    ensures
        is_caused(t, cfg, s, services::returned(cfg, s, callee, v, c)),
{
    let now = services::returned(cfg, s, callee, v, c);
    lemma_chances(c.rest, cfg.propagation);
    let s1 = if c.failed {
        rng::skip_words(c.rest, 2)
    } else {
        c.rest
    };
    lemma_chances(s1, cfg.timeout_prob);
    let root = t.root_cause;
    if v.path.contains(root) {
        let i = choose|i: int| 0 <= i < v.path.len() && v.path[i] == root;
        assert(now.path[i] == root);
    }
    if c.path.contains(root) {
        let i = choose|i: int| 0 <= i < c.path.len() && c.path[i] == root;
        assert(now.path[v.path.len() + i] == root);
    }
    if now.path.contains(root) {
        let i = choose|i: int| 0 <= i < now.path.len() && now.path[i] == root;
        if i < v.path.len() {
            assert(v.path[i] == root);
        } else {
            assert(c.path[i - v.path.len()] == root);
        }
    }
}

proof fn lemma_descended(
    t: &Topology,
    cfg: &TopologyConfig,
    s: u32,
    left: nat,
    k: nat,
    stream: Map<nat, u32>,
    x: u32,
)
    ensures
        ({
            let v = services::descended(t, cfg, s, left, k, stream);
            let own = if x == s {
                1int
            } else {
                0
            };
            &&& is_call_path(v, s)
            &&& is_caused(t, cfg, s, v)
            &&& 0 <= times(v.broken, x)
            &&& times(v.broken, x) + own <= times(v.path, x)
            &&& is_sure(cfg.baseline_error) ==> times(v.broken, x) + own == times(v.path, x)
        }),
    decreases left, 0nat, k,
{
    lemma_arrived(t, cfg, s, stream);
    if k == 0 || left == 0 {
        assert(seq![s] =~= Seq::<u32>::empty().push(s));
        lemma_times_push(Seq::empty(), s, x);
    } else {
        let v = services::descended(t, cfg, s, left, (k - 1) as nat, stream);
        let callee = t.deps@[s as int]@[k - 1];
        let mid = rng::skip_words(v.rest, 2);
        lemma_descended(t, cfg, s, left, (k - 1) as nat, stream, x);
        if services::heads(v.rest, services::CALL_PROB) {
            let c = services::visit(t, cfg, callee, (left - 1) as nat, mid);
            lemma_visit(t, cfg, callee, (left - 1) as nat, mid, x);
            lemma_returned_path(cfg, s, callee, v, c);
            lemma_returned_cause(t, cfg, s, callee, v, c);
            lemma_times_concat(v.path, c.path, x);
            lemma_times_concat(v.broken, c.broken, x);
        }
    }
}

/// What holds of every call, however the coins fall: its path is one of calls,
/// failures and delays have their causes, a call fails at most as often as it is
/// made, and the one that the request enters at fails last.
pub proof fn lemma_visit(
    t: &Topology,
    cfg: &TopologyConfig,
    s: u32,
    left: nat,
    stream: Map<nat, u32>,
    x: u32,
)
    ensures
        ({
            let v = services::visit(t, cfg, s, left, stream);
            &&& is_call_path(v, s)
            &&& is_caused(t, cfg, s, v)
            &&& 0 <= times(v.broken, x) <= times(v.path, x)
            &&& v.failed ==> v.broken.len() > 0 && v.broken.last() == s
            &&& is_sure(cfg.baseline_error) ==> times(v.broken, x) == times(v.path, x)
            &&& left == 0 ==> v.path == seq![s]
        }),
    decreases left, 1nat, 0nat,
{
    let d = services::descended(t, cfg, s, left, t.deps@[s as int]@.len(), stream);
    lemma_descended(t, cfg, s, left, t.deps@[s as int]@.len(), stream, x);
    lemma_arrived(t, cfg, s, stream);
    lemma_times_push(d.broken, s, x);
}

/// How many calls there are where every dependency is called, down to `left` levels
/// below: the first `k` dependencies, and the call itself.
pub open spec fn all_calls(t: &Topology, s: u32, left: nat, k: nat) -> nat
    decreases left, k,
{
    if k == 0 || left == 0 {
        1
    } else {
        let callee = t.deps@[s as int]@[k - 1];
        all_calls(t, s, left, (k - 1) as nat) + all_calls(
            t,
            callee,
            (left - 1) as nat,
            t.deps@[callee as int]@.len(),
        )
    }
}

/// A stream in which every coin with a chance comes up.
pub open spec fn zeros() -> Map<nat, u32> {
    Map::new(|i: nat| true, |i: nat| 0u32)
}

proof fn lemma_zeros(n: nat)
    ensures
        rng::skip_words(zeros(), n) == zeros(),
{
    assert(rng::skip_words(zeros(), n) =~= zeros());
}

proof fn lemma_all_called(t: &Topology, cfg: &TopologyConfig, s: u32, left: nat, k: nat)
    ensures
        services::descended(t, cfg, s, left, k, zeros()).path.len() == all_calls(t, s, left, k),
        services::descended(t, cfg, s, left, k, zeros()).rest == zeros(),
    decreases left, k,
{
    lemma_zeros(2);
    if k == 0 || left == 0 {
        lemma_zeros(rng::range_draw(zeros(), 200, 900).1);
        lemma_zeros(rng::range_draw(zeros(), 8_000, 25_000).1);
    } else {
        let callee = t.deps@[s as int]@[k - 1];
        lemma_all_called(t, cfg, s, left, (k - 1) as nat);
        let n = t.deps@[callee as int]@.len();
        lemma_all_called(t, cfg, callee, (left - 1) as nat, n);
        assert(zeros()[0] == 0 && zeros()[1] == 0);
        let v = services::descended(t, cfg, s, left, (k - 1) as nat, zeros());
        let d = services::descended(t, cfg, callee, (left - 1) as nat, n, zeros());
        let c = services::visit(t, cfg, callee, (left - 1) as nat, zeros());
        assert(c.path == d.path && c.rest == d.rest);
        assert(services::heads(v.rest, services::CALL_PROB));
        assert(services::descended(t, cfg, s, left, k, zeros()) == services::returned(
            cfg,
            s,
            callee,
            v,
            c,
        ));
    }
}

/// Where every dependency is called, a request goes down six levels and no further.
pub proof fn lemma_request_depth(t: &Topology, cfg: &TopologyConfig)
    ensures
        ({
            let v = services::request(t, cfg, zeros());
            v.path.len() == all_calls(t, v.path[0], 6, t.deps@[v.path[0] as int]@.len())
        }),
{
    let (x, used) = rng::range_draw(zeros(), 0, t.frontends@.len() as u64);
    lemma_zeros(used);
    let s = t.frontends@[x as int];
    lemma_all_called(t, cfg, s, 6, t.deps@[s as int]@.len());
    lemma_visit(t, cfg, s, 6, zeros(), s);
}

/// No service fails more often than it is called.
pub proof fn lemma_failures_are_calls(
    t: &Topology,
    cfg: &TopologyConfig,
    stream: Map<nat, u32>,
    n: nat,
    k: nat,
    x: u32,
)
    requires
        k <= n,
    ensures
        ({
            let visits = services::requests(t, cfg, stream, n).0;
            services::total_failures(visits, x as int, k) <= services::total_calls(
                visits,
                x as int,
                k,
            )
        }),
    decreases k,
{
    let visits = services::requests(t, cfg, stream, n).0;
    if k > 0 {
        lemma_failures_are_calls(t, cfg, stream, n, (k - 1) as nat, x);
        let (s, left, w) = lemma_is_visit(t, cfg, stream, n, k - 1);
        lemma_visit(t, cfg, s, left, w, x);
        lemma_times(visits[k - 1].path, x);
        lemma_times(visits[k - 1].broken, x);
    }
}

proof fn lemma_is_visit(
    t: &Topology,
    cfg: &TopologyConfig,
    stream: Map<nat, u32>,
    n: nat,
    i: int,
) -> (r: (u32, nat, Map<nat, u32>))
    requires
        0 <= i < n,
    ensures
        services::requests(t, cfg, stream, n).0.len() == n,
        services::requests(t, cfg, stream, n).0[i] == services::visit(t, cfg, r.0, r.1, r.2),
    decreases n,
{
    let (before, rest) = services::requests(t, cfg, stream, (n - 1) as nat);
    if n >= 2 {
        let _ = lemma_is_visit(t, cfg, stream, (n - 1) as nat, if i < n - 1 {
            i
        } else {
            0
        });
    }
    if i < n - 1 {
        lemma_is_visit(t, cfg, stream, (n - 1) as nat, i)
    } else {
        let (x, used) = rng::range_draw(rest, 0, t.frontends@.len() as u64);
        (t.frontends@[x as int], services::MAX_DEPTH as nat, rng::skip_words(rest, used))
    }
}

/// The name of a service says its tier and its number there, so that no two services
/// have one name.
pub proof fn lemma_names(cfg: &TopologyConfig, s: int, r: int)
    requires
        0 <= s < r < cfg.services(),
    ensures
        services::service_name(cfg, s) != services::service_name(cfg, r),
        s < cfg.n_frontends ==> services::service_name(cfg, s) == "frontend-"@ + text::decimal(
            s as nat,
        ),
        s >= cfg.services() - cfg.n_infra ==> services::service_name(cfg, s) == "infra-"@
            + text::decimal((s - (cfg.services() - cfg.n_infra)) as nat),
{
    reveal_strlit("frontend-");
    reveal_strlit("infra-");
    assert("frontend-"@ =~= services::tier_label(0));
    assert("infra-"@ =~= services::tier_label(4));
    let (t, w) = (cfg.tier_of(s), cfg.tier_of(r));
    let (a, b) = (services::tier_label(t), services::tier_label(w));
    let (i, j) = ((s - cfg.tier_start(t)) as nat, (r - cfg.tier_start(w)) as nat);
    let (x, y) = (services::service_name(cfg, s), services::service_name(cfg, r));
    if x == y {
        assert(x[0] == a[0] && y[0] == b[0]);
        if t == w {
            assert(x.skip(a.len() as int) =~= text::decimal(i));
            assert(y.skip(a.len() as int) =~= text::decimal(j));
            text::lemma_decimal_injective(i, j);
        } else if 1 <= t <= 3 && 1 <= w <= 3 {
            assert(x[3] == a[3] && y[3] == b[3]);
        }
    }
}

/// Error rates order services as exact fractions do: a service that failed in no larger
/// part of its calls has no higher rate, and the rate is nothing where nothing failed
/// and one where everything did.
pub proof fn lemma_error_rates(w: &Workload, a: int, b: int)
    requires
        0 < w.calls@[a] <= 0x20_0000_0000_0000,
        0 < w.calls@[b] <= 0x20_0000_0000_0000,
        w.failures@[a] <= w.calls@[a],
        w.failures@[b] <= w.calls@[b],
    ensures
        w.failures@[a] * w.calls@[b] <= w.failures@[b] * w.calls@[a] ==> services::rate_of(w, a)
            <= services::rate_of(w, b),
        0 <= services::rate_of(w, a) <= double::one(),
        w.failures@[a] == 0 ==> services::rate_of(w, a) == 0,
        w.failures@[a] == w.calls@[a] ==> services::rate_of(w, a) == double::one(),
{
    let u = double::one();
    let (f, c) = (w.failures@[a] as int, w.calls@[a] as int);
    let (g, d) = (w.failures@[b] as int, w.calls@[b] as int);
    double::lemma_one();
    double::lemma_of_exact(f);
    double::lemma_of_exact(c);
    double::lemma_of_exact(g);
    double::lemma_of_exact(d);
    assert(c * u > 0 && d * u > 0 && (f * u) * u >= 0 && (g * u) * u >= 0) by (nonlinear_arith)
        requires
            c > 0,
            d > 0,
            f >= 0,
            g >= 0,
            u > 0,
    ;
    if f * d <= g * c {
        assert(((f * u) * u) * (d * u) <= ((g * u) * u) * (c * u)) by (nonlinear_arith)
            requires
                f * d <= g * c,
                u > 0,
        ;
        double::lemma_rounded_monotone((f * u) * u, c * u, (g * u) * u, d * u);
    }
    assert(((f * u) * u) * (c * u) <= ((c * u) * u) * (c * u)) by (nonlinear_arith)
        requires
            0 <= f <= c,
            u > 0,
    ;
    assert((c * u) * u >= 0) by (nonlinear_arith)
        requires
            c > 0,
            u > 0,
    ;
    double::lemma_rounded_monotone((f * u) * u, c * u, (c * u) * u, c * u);
    double::lemma_rounded_exact(1, 1074, c * u);
    assert((c * u) * u == (1 * u) * (c * u)) by (nonlinear_arith);
    if f == 0 {
        double::lemma_rounded_exact(0, 0, c * u);
        assert(0 * vstd::arithmetic::power2::pow2(0) == 0) by (nonlinear_arith);
        assert((f * u) * u == 0 && 0 * (c * u) == 0) by (nonlinear_arith)
            requires
                f == 0,
        ;
    }
}

/// Where nothing is passed on and nobody times out, a call fails by itself or not at
/// all, whatever it calls.
pub proof fn lemma_isolated_calls(
    t: &Topology,
    cfg: &TopologyConfig,
    s: u32,
    left: nat,
    k: nat,
    stream: Map<nat, u32>,
)
    requires
        cfg.propagation == 0,
        cfg.timeout_prob == 0,
    ensures
        services::descended(t, cfg, s, left, k, stream).failed == services::heads(
            rng::skip_words(stream, rng::range_draw(stream, 200, 900).1),
            cfg.baseline_error,
        ),
    decreases k,
{
    if k > 0 && left > 0 {
        lemma_isolated_calls(t, cfg, s, left, (k - 1) as nat, stream);
        let v = services::descended(t, cfg, s, left, (k - 1) as nat, stream);
        let callee = t.deps@[s as int]@[k - 1];
        let c = services::visit(t, cfg, callee, (left - 1) as nat, rng::skip_words(v.rest, 2));
        lemma_chances(c.rest, cfg.propagation);
        lemma_chances(
            if c.failed {
                rng::skip_words(c.rest, 2)
            } else {
                c.rest
            },
            cfg.timeout_prob,
        );
    }
}

} // verus!
