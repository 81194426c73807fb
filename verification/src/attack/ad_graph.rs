//! A synthetic Active-Directory-shaped identity graph, and the two views of
//! privilege that it tells apart: what the list view says ("who is in Domain
//! Admins?") and what the graph view says ("what sequence of rights gets me
//! there?").
//!
//! All nodes share one id space:
//!
//! ```text
//!   [0, n_users)                                users
//!   [n_users, n_users + n_groups)               groups   (tier zero = last)
//!   [n_users + n_groups, .. + n_computers)      computers
//! ```
//!
//! An edge means "control of the source yields control of the target".

use crate::graph;
use crate::math;
use vstd::prelude::*;

verus! {

#[derive(Clone, Copy, Debug, PartialEq, Eq, Structural)]
pub enum EdgeKind {
    /// User or group into a group: the member inherits the group's rights.
    MemberOf,
    /// Group to computer: local admin on the machine.
    AdminTo,
    /// Computer to user: that user's token sits on the box.
    HasSession,
    /// Principal to group: can rewrite the group's ACL, so join it.
    GenericAll,
}

/// The groups at the top of the group id space: tier zero last, before it the
/// group nested into it (`t0_ops`), `helpdesk` with `AdminTo` on every session
/// host, and `staff`, nested into `helpdesk`.
pub const RESERVED_GROUPS: usize = 4;

#[derive(Clone, Copy, Debug)]
pub struct AdConfig {
    pub n_users: usize,
    pub n_groups: usize,
    pub n_computers: usize,
    /// `MemberOf` edges per user, into ordinary groups.
    pub groups_per_user: usize,
    /// Random group-into-group nesting edges among ordinary groups.
    pub group_nesting: usize,
    /// Random `AdminTo` edges (ordinary group to ordinary computer).
    pub admin_edges: usize,
    /// Computers `[0, session_hosts)` are the servers where privileged tokens
    /// land; random `AdminTo` edges never target them.
    pub session_hosts: usize,
    /// How many users are operators whose tokens are worth stealing.
    pub privileged_users: usize,
    /// `HasSession` edges from session hosts to privileged users.
    pub privileged_sessions: usize,
    /// `HasSession` edges from ordinary computers to ordinary users.
    pub ordinary_sessions: usize,
    /// `GenericAll` edges (principal to ordinary group).
    pub acl_edges: usize,
    /// Users with a direct `MemberOf` edge to tier zero.
    pub tier_zero_members: usize,
    /// Members of the nested `t0_ops` group.
    pub t0_ops_members: usize,
    /// Chance that a user is a member of `staff`, in units of 2^-53.
    pub staff_fraction: u64,
    /// Dedicated groups with `AdminTo` on one session host each, wired into
    /// nothing else: narrow second-best paths.
    pub service_groups: usize,
    pub service_group_members: usize,
    /// Ordinary workstations that hold a privileged token against policy.
    pub da_on_workstation: usize,
}

impl Default for AdConfig {
    fn default() -> (cfg: AdConfig)
        ensures
            cfg == default_config(),
    {
        AdConfig {
            n_users: 2_000,
            n_groups: 400,
            n_computers: 1_000,
            groups_per_user: 3,
            group_nesting: 600,
            admin_edges: 1_200,
            session_hosts: 25,
            privileged_users: 40,
            privileged_sessions: 600,
            ordinary_sessions: 2_000,
            acl_edges: 150,
            tier_zero_members: 5,
            t0_ops_members: 3,
            staff_fraction: 4_953_959_590_107_546,
            service_groups: 3,
            service_group_members: 8,
            da_on_workstation: 2,
        }
    }
}

/// The everyday directory: 55% of the users are staff.
pub open spec fn default_config() -> AdConfig {
    AdConfig {
        n_users: 2_000,
        n_groups: 400,
        n_computers: 1_000,
        groups_per_user: 3,
        group_nesting: 600,
        admin_edges: 1_200,
        session_hosts: 25,
        privileged_users: 40,
        privileged_sessions: 600,
        ordinary_sessions: 2_000,
        acl_edges: 150,
        tier_zero_members: 5,
        t0_ops_members: 3,
        staff_fraction: 4_953_959_590_107_546,
        service_groups: 3,
        service_group_members: 8,
        da_on_workstation: 2,
    }
}

impl AdConfig {
    /// The tiered directory: privileged tokens land only on separately
    /// administered hosts, and exactly one group is local admin on them. This
    /// is what creates choke points.
    pub fn tiered() -> (cfg: AdConfig)
        ensures
            cfg == (AdConfig { service_groups: 0, da_on_workstation: 0, ..default_config() }),
    {
        let mut cfg = AdConfig::default();
        cfg.service_groups = 0;
        cfg.da_on_workstation = 0;
        cfg
    }

    pub open spec fn nodes(&self) -> int {
        self.n_users + self.n_groups + self.n_computers
    }

    /// Ordinary groups outside the service band.
    pub open spec fn mesh(&self) -> int {
        self.n_groups - RESERVED_GROUPS - self.service_groups
    }

    /// Users `[0, privileged())` are the operators, at least one.
    pub open spec fn privileged(&self) -> int {
        let p = if self.privileged_users <= self.n_users {
            self.privileged_users
        } else {
            self.n_users
        };
        if p >= 1 {
            p as int
        } else {
            1
        }
    }

    /// Every draw has a nonempty range to draw from and every edge ends at a
    /// node.
    pub open spec fn valid(&self) -> bool {
        &&& self.nodes() <= usize::MAX
        &&& self.mesh() >= 0
        &&& self.group_nesting > 0 ==> self.mesh() > 0
        &&& self.n_users > 0 && self.groups_per_user > 0 ==> self.mesh() > 0
        &&& self.acl_edges > 0 ==> self.mesh() > 0
        &&& self.admin_edges > 0 ==> self.mesh() > 0 && self.session_hosts < self.n_computers
        &&& self.privileged_sessions > 0 ==> self.session_hosts > 0
        &&& self.ordinary_sessions > 0 ==> self.session_hosts < self.n_computers
            && self.privileged() < self.n_users
        &&& self.service_groups > 0 ==> self.n_computers > 0
        &&& self.service_groups > 0 && self.service_group_members > 0 ==> self.n_users > 0
        &&& self.tier_zero_members + self.t0_ops_members <= self.nodes()
        &&& self.session_hosts + self.da_on_workstation <= self.n_computers
    }
}

/// An edge of the graph: source, target, kind.
pub type Edge = (usize, usize, EdgeKind);

pub struct AdGraph {
    pub n_users: usize,
    pub n_groups: usize,
    pub n_computers: usize,
    /// Id of the tier-zero group ("Domain Admins").
    pub tier_zero: usize,
    /// Id of the group nested inside tier zero.
    pub t0_ops: usize,
    /// Id of the group with `AdminTo` on every session host.
    pub helpdesk: usize,
    /// Id of the group nested inside `helpdesk`.
    pub staff: usize,
    /// Service-account groups: narrow alternate routes onto a session host.
    pub service_group_ids: Vec<usize>,
    /// Ordinary workstations holding a privileged token against policy.
    pub violation_hosts: Vec<usize>,
    /// `(from, to, kind)`, at most one edge from any node to any other.
    pub edges: Vec<Edge>,
    /// Forward adjacency over all edge kinds.
    pub adj: Vec<Vec<usize>>,
    /// Forward adjacency over `MemberOf` only, the console's view.
    pub memberof_adj: Vec<Vec<usize>>,
}

/// Some edge of the list leads from `a` to `b`.
pub open spec fn joined(edges: Seq<Edge>, a: usize, b: usize) -> bool {
    exists|i: int| 0 <= i < edges.len() && (#[trigger] edges[i]).0 == a && edges[i].1 == b
}

/// The targets of the edges out of `a`, in list order; with `members_only`,
/// of its `MemberOf` edges.
pub open spec fn targets(edges: Seq<Edge>, members_only: bool, a: usize) -> Seq<usize>
    decreases edges.len(),
{
    if edges.len() == 0 {
        Seq::empty()
    } else {
        let before = targets(edges.drop_last(), members_only, a);
        let e = edges.last();
        if e.0 == a && (members_only ==> e.2 == EdgeKind::MemberOf) {
            before.push(e.1)
        } else {
            before
        }
    }
}

/// The sources of the edges into `b`, in list order.
pub open spec fn sources(edges: Seq<Edge>, b: usize) -> Seq<usize>
    decreases edges.len(),
{
    if edges.len() == 0 {
        Seq::empty()
    } else {
        let before = sources(edges.drop_last(), b);
        if edges.last().1 == b {
            before.push(edges.last().0)
        } else {
            before
        }
    }
}

proof fn lemma_targets(edges: Seq<Edge>, members_only: bool, a: usize, b: usize)
    ensures
        targets(edges, members_only, a).contains(b) <==> exists|i: int|
            0 <= i < edges.len() && (#[trigger] edges[i]).0 == a && edges[i].1 == b && (members_only
                ==> edges[i].2 == EdgeKind::MemberOf),
    decreases edges.len(),
{
    if edges.len() > 0 {
        let before = targets(edges.drop_last(), members_only, a);
        let now = targets(edges, members_only, a);
        let e = edges.last();
        lemma_targets(edges.drop_last(), members_only, a, b);
        if now.contains(b) {
            let k = choose|k: int| 0 <= k < now.len() && now[k] == b;
            if k < before.len() {
                assert(before[k] == b);
                let i = choose|i: int|
                    0 <= i < edges.drop_last().len() && (#[trigger] edges.drop_last()[i]).0 == a
                        && edges.drop_last()[i].1 == b && (members_only ==> edges.drop_last()[i].2
                        == EdgeKind::MemberOf);
                assert(edges[i] == edges.drop_last()[i]);
            } else {
                assert(edges[edges.len() - 1] == e);
            }
        }
        if exists|i: int|
            0 <= i < edges.len() && (#[trigger] edges[i]).0 == a && edges[i].1 == b && (members_only
                ==> edges[i].2 == EdgeKind::MemberOf) {
            let i = choose|i: int|
                0 <= i < edges.len() && (#[trigger] edges[i]).0 == a && edges[i].1 == b && (
                members_only ==> edges[i].2 == EdgeKind::MemberOf);
            if i < edges.len() - 1 {
                assert(edges.drop_last()[i] == edges[i]);
                let k = choose|k: int| 0 <= k < before.len() && before[k] == b;
                assert(now[k] == b);
            } else {
                assert(now[before.len() as int] == b);
            }
        }
    }
}

proof fn lemma_sources(edges: Seq<Edge>, a: usize, b: usize)
    ensures
        sources(edges, b).contains(a) <==> joined(edges, a, b),
    decreases edges.len(),
{
    if edges.len() > 0 {
        let before = sources(edges.drop_last(), b);
        let now = sources(edges, b);
        lemma_sources(edges.drop_last(), a, b);
        if now.contains(a) {
            let k = choose|k: int| 0 <= k < now.len() && now[k] == a;
            if k < before.len() {
                assert(before[k] == a);
                let i = choose|i: int|
                    0 <= i < edges.drop_last().len() && (#[trigger] edges.drop_last()[i]).0 == a
                        && edges.drop_last()[i].1 == b;
                assert(edges[i] == edges.drop_last()[i]);
            } else {
                assert(edges[edges.len() - 1] == edges.last());
            }
        }
        if joined(edges, a, b) {
            let i = choose|i: int|
                0 <= i < edges.len() && (#[trigger] edges[i]).0 == a && edges[i].1 == b;
            if i < edges.len() - 1 {
                assert(edges.drop_last()[i] == edges[i]);
                let k = choose|k: int| 0 <= k < before.len() && before[k] == a;
                assert(now[k] == a);
            } else {
                assert(now[before.len() as int] == a);
            }
        }
    }
}

impl AdGraph {
    pub open spec fn nodes(&self) -> int {
        self.n_users + self.n_groups + self.n_computers
    }

    /// The ids fit, tier zero is a node, edges end at nodes, and both
    /// adjacency lists are read off the edge list.
    pub open spec fn well_formed(&self) -> bool {
        &&& self.nodes() <= usize::MAX
        &&& self.tier_zero < self.nodes()
        &&& self.adj@.len() == self.nodes()
        &&& self.memberof_adj@.len() == self.nodes()
        &&& forall|i: int|
            0 <= i < self.edges@.len() ==> (#[trigger] self.edges@[i]).0 < self.nodes()
                && self.edges@[i].1 < self.nodes()
        &&& forall|a: int|
            0 <= a < self.nodes() ==> (#[trigger] self.adj@[a])@ == targets(
                self.edges@,
                false,
                a as usize,
            )
        &&& forall|a: int|
            0 <= a < self.nodes() ==> (#[trigger] self.memberof_adj@[a])@ == targets(
                self.edges@,
                true,
                a as usize,
            )
    }

    /// The edges as a relation.
    pub open spec fn rel(&self) -> graph::Edges {
        |a: usize, b: usize| joined(self.edges@, a, b)
    }

    /// The `MemberOf` edges as a relation.
    pub open spec fn member_rel(&self) -> graph::Edges {
        |a: usize, b: usize|
            exists|i: int|
                0 <= i < self.edges@.len() && (#[trigger] self.edges@[i]).0 == a && self.edges@[i].1
                    == b && self.edges@[i].2 == EdgeKind::MemberOf
    }

    /// Some attack path leads from `u` to tier zero.
    pub open spec fn exposed(&self, u: usize) -> bool {
        graph::reach(self.rel(), u, self.tier_zero)
    }

    pub fn n_nodes(&self) -> (n: usize)
        requires
            self.nodes() <= usize::MAX,
        ensures
            n == self.nodes(),
    {
        self.n_users + self.n_groups + self.n_computers
    }

    pub fn is_user(&self, id: usize) -> (b: bool)
        ensures
            b == (id < self.n_users),
    {
        id < self.n_users
    }

    pub fn is_group(&self, id: usize) -> (b: bool)
        requires
            self.nodes() <= usize::MAX,
        ensures
            b == (self.n_users <= id < self.n_users + self.n_groups),
    {
        id >= self.n_users && id < self.n_users + self.n_groups
    }

    pub fn is_computer(&self, id: usize) -> (b: bool)
        requires
            self.nodes() <= usize::MAX,
        ensures
            b == (id >= self.n_users + self.n_groups),
    {
        id >= self.n_users + self.n_groups
    }

    pub fn group(&self, g: usize) -> (id: usize)
        requires
            self.n_users + g <= usize::MAX,
        ensures
            id == self.n_users + g,
    {
        self.n_users + g
    }

    pub fn computer(&self, c: usize) -> (id: usize)
        requires
            self.n_users + self.n_groups + c <= usize::MAX,
        ensures
            id == self.n_users + self.n_groups + c,
    {
        self.n_users + self.n_groups + c
    }

    /// Reverse adjacency: for each node the sources of its incoming edges.
    pub fn reverse_adj(&self) -> (rev: Vec<Vec<usize>>)
        requires
            self.well_formed(),
        ensures
            rev@.len() == self.nodes(),
            forall|b: int|
                0 <= b < rev@.len() ==> (#[trigger] rev@[b])@ == sources(self.edges@, b as usize),
    {
        let mut rev: Vec<Vec<usize>> = math::empty_lists(self.n_nodes());
        for i in 0..self.edges.len()
            invariant
                self.well_formed(),
                rev@.len() == self.nodes(),
                forall|b: int|
                    0 <= b < rev@.len() ==> (#[trigger] rev@[b])@ == sources(
                        self.edges@.take(i as int),
                        b as usize,
                    ),
        {
            let (u, v, _) = self.edges[i];
            assert(self.edges@[i as int].1 < self.nodes());
            rev[v].push(u);
            assert(self.edges@.take(i + 1).drop_last() =~= self.edges@.take(i as int));
        }
        assert(self.edges@.take(self.edges@.len() as int) =~= self.edges@);
        rev
    }

    /// The reverse lists are closed and list the edges backwards.
    pub proof fn lemma_reverse(&self, rev: Seq<Vec<usize>>)
        requires
            self.well_formed(),
            rev.len() == self.nodes(),
            forall|b: int|
                0 <= b < rev.len() ==> (#[trigger] rev[b])@ == sources(self.edges@, b as usize),
        ensures
            graph::closed_lists(rev),
            forall|a: usize, b: usize|
                #[trigger] graph::listed(rev)(a, b) == graph::flip(self.rel())(a, b),
    {
        assert forall|b: int, k: int| 0 <= b < rev.len() && 0 <= k < rev[b]@.len()
            implies #[trigger] rev[b]@[k]
            < rev.len() by {
            let a = rev[b]@[k];
            assert(sources(self.edges@, b as usize).contains(a));
            lemma_sources(self.edges@, a, b as usize);
        }
        assert forall|a: usize, b: usize| #[trigger]
            graph::listed(rev)(a, b) == graph::flip(self.rel())(a, b) by {
            lemma_sources(self.edges@, b, a);
            if a < rev.len() {
                assert(rev[a as int]@ == sources(self.edges@, a));
            }
        }
    }

    /// The forward lists are closed and list the edges.
    pub proof fn lemma_forward(&self)
        requires
            self.well_formed(),
        ensures
            graph::closed_lists(self.adj@),
            graph::closed_lists(self.memberof_adj@),
            forall|a: usize, b: usize| #[trigger]
                graph::listed(self.adj@)(a, b) == self.rel()(a, b),
            forall|a: usize, b: usize| #[trigger]
                graph::listed(self.memberof_adj@)(a, b) == self.member_rel()(a, b),
    {
        assert forall|a: int, k: int| 0 <= a < self.adj@.len() && 0 <= k < self.adj@[a]@.len()
            implies #[trigger] self.adj@[a]@[k]
            < self.adj@.len() by {
            assert(targets(self.edges@, false, a as usize).contains(self.adj@[a]@[k]));
            lemma_targets(self.edges@, false, a as usize, self.adj@[a]@[k]);
        }
        assert forall|a: int, k: int|
            0 <= a < self.memberof_adj@.len() && 0 <= k < self.memberof_adj@[a]@.len()
                implies #[trigger] self.memberof_adj@[a]@[k]
            < self.memberof_adj@.len() by {
            assert(targets(self.edges@, true, a as usize).contains(self.memberof_adj@[a]@[k]));
            lemma_targets(self.edges@, true, a as usize, self.memberof_adj@[a]@[k]);
        }
        assert forall|a: usize, b: usize| #[trigger]
            graph::listed(self.adj@)(a, b) == self.rel()(a, b) by {
            lemma_targets(self.edges@, false, a, b);
            if a < self.adj@.len() {
                assert(self.adj@[a as int]@ == targets(self.edges@, false, a));
            }
        }
        assert forall|a: usize, b: usize| #[trigger]
            graph::listed(self.memberof_adj@)(a, b) == self.member_rel()(a, b) by {
            lemma_targets(self.edges@, true, a, b);
            if a < self.memberof_adj@.len() {
                assert(self.memberof_adj@[a as int]@ == targets(self.edges@, true, a));
            }
        }
    }
}

/// The nodes that `target` reaches along `rev`: where `rev` is a reversed
/// graph, the nodes that can reach `target`. One traversal, not one per node.
pub fn reaches(rev: &[Vec<usize>], target: usize) -> (seen: Vec<bool>)
    requires
        graph::closed_lists(rev@),
        target < rev@.len(),
    ensures
        seen@.len() == rev@.len(),
        forall|v: int|
            0 <= v < seen@.len() ==> #[trigger] seen@[v] == graph::reach(
                graph::listed(rev@),
                target,
                v as usize,
            ),
{
    let mut seeds: Vec<usize> = Vec::new();
    seeds.push(target);
    let dist = graph::bfs(rev, &seeds);
    let mut seen: Vec<bool> = Vec::new();
    for v in 0..dist.len()
        invariant
            seeds@ =~= seq![target],
            dist@.len() == rev@.len(),
            forall|v: int|
                0 <= v < dist@.len() ==> graph::is_distance(
                    graph::listed(rev@),
                    seeds@,
                    v as usize,
                    #[trigger] dist@[v],
                ),
            seen@.len() == v,
            forall|i: int|
                0 <= i < v ==> #[trigger] seen@[i] == graph::reach(
                    graph::listed(rev@),
                    target,
                    i as usize,
                ),
    {
        assert(graph::is_distance(graph::listed(rev@), seeds@, v, dist@[v as int]));
        proof {
            graph::lemma_single_seed(graph::listed(rev@), target, v, dist@[v as int]);
        }
        seen.push(dist[v] != usize::MAX);
    }
    seen
}

fn reverse_of(adj: &[Vec<usize>]) -> (rev: Vec<Vec<usize>>)
    requires
        graph::closed_lists(adj@),
    ensures
        rev@.len() == adj@.len(),
        graph::closed_lists(rev@),
        forall|a: usize, b: usize| #[trigger]
            graph::listed(rev@)(a, b) == graph::listed(adj@)(b, a),
{
    let n = adj.len();
    let mut rev: Vec<Vec<usize>> = math::empty_lists(n);
    for u in 0..n
        invariant
            n == adj@.len(),
            rev@.len() == n,
            graph::closed_lists(adj@),
            graph::closed_lists(rev@),
            forall|a: int, b: usize|
                0 <= a < n ==> (#[trigger] rev@[a]@.contains(b) <==> b < u && adj@[b as int]@.contains(
                    a as usize,
                )),
    {
        let outs = &adj[u];
        for k in 0..outs.len()
            invariant
                n == adj@.len(),
                rev@.len() == n,
                u < n,
                outs@ == adj@[u as int]@,
                graph::closed_lists(adj@),
                graph::closed_lists(rev@),
                forall|a: int, b: usize|
                    0 <= a < n ==> (#[trigger] rev@[a]@.contains(b) <==> (b < u
                        && adj@[b as int]@.contains(a as usize)) || (b == u && outs@.take(
                        k as int,
                    ).contains(a as usize))),
        {
            let v = outs[k];
            assert(adj@[u as int]@[k as int] < adj@.len());
            let ghost before = rev@;
            rev[v].push(u);
            proof {
                assert(outs@.take(k + 1) =~= outs@.take(k as int).push(v));
                assert forall|a: int, i: int| 0 <= a < rev@.len() && 0 <= i < rev@[a]@.len()
                    implies #[trigger] rev@[a]@[i]
                    < rev@.len() by {
                    if a == v && i < before[a]@.len() {
                        assert(before[a]@[i] < before.len());
                    } else if a != v {
                        assert(before[a]@[i] < before.len());
                    }
                }
                assert forall|a: int, b: usize| 0 <= a < n
                    implies (#[trigger] rev@[a]@.contains(b) <==> (b < u
                        && adj@[b as int]@.contains(a as usize)) || (b == u && outs@.take(
                        k + 1,
                    ).contains(a as usize))) by {
                    graph::lemma_push_contains(outs@.take(k as int), v, a as usize);
                    assert(before[a]@.contains(b) <==> (b < u
                        && adj@[b as int]@.contains(a as usize)) || (b == u && outs@.take(
                        k as int,
                    ).contains(a as usize)));
                    if a == v {
                        graph::lemma_push_contains(before[a]@, u, b);
                    }
                }
            }
        }
        assert(outs@.take(outs@.len() as int) =~= outs@);
    }
    proof {
        assert forall|a: usize, b: usize| #[trigger]
            graph::listed(rev@)(a, b) == graph::listed(adj@)(b, a) by {
            if a < n {
                assert(rev@[a as int]@.contains(b) <==> b < n && adj@[b as int]@.contains(a));
            } else if b < n && adj@[b as int]@.contains(a) {
                let k = choose|k: int| 0 <= k < adj@[b as int]@.len() && adj@[b as int]@[k] == a;
                assert(adj@[b as int]@[k] < adj@.len());
            }
        }
    }
    rev
}

/// Counts the `true` among the first `n` flags.
fn count_flags(flags: &Vec<bool>, n: usize) -> (c: usize)
    requires
        n <= flags@.len(),
    ensures
        c == math::count(n as nat, |i: int| flags@[i]),
{
    let mut c: usize = 0;
    for i in 0..n
        invariant
            n <= flags@.len(),
            c <= i,
            c == math::count(i as nat, |i: int| flags@[i]),
    {
        if flags[i] {
            c += 1;
        }
    }
    c
}

/// Edge `i` makes a user a member of tier zero.
pub open spec fn is_direct(g: &AdGraph) -> spec_fn(int) -> bool {
    |i: int|
        g.edges@[i].1 == g.tier_zero && g.edges@[i].2 == EdgeKind::MemberOf && g.edges@[i].0
            < g.n_users
}

/// A user who is in tier zero through nested groups.
pub open spec fn is_nested(g: &AdGraph) -> spec_fn(int) -> bool {
    |u: int| graph::reach(g.member_rel(), u as usize, g.tier_zero)
}

/// A user with an attack path to tier zero.
pub open spec fn is_exposed(g: &AdGraph) -> spec_fn(int) -> bool {
    |u: int| g.exposed(u as usize)
}

/// The list view: users with a `MemberOf` edge straight into tier zero.
pub fn direct_tier_zero_members(g: &AdGraph) -> (n: usize)
    ensures
        n == math::count(g.edges@.len(), is_direct(g)),
{
    let mut n: usize = 0;
    for i in 0..g.edges.len()
        invariant
            n <= i,
            n == math::count(i as nat, is_direct(g)),
    {
        let (u, v, k) = g.edges[i];
        if v == g.tier_zero && k == EdgeKind::MemberOf && g.is_user(u) {
            n += 1;
        }
    }
    n
}

/// The better list view: users in tier zero through nested groups.
pub fn memberof_reachable_users(g: &AdGraph) -> (n: usize)
    requires
        g.well_formed(),
    ensures
        n == math::count(g.n_users as nat, is_nested(g)),
{
    proof {
        g.lemma_forward();
    }
    let rev = reverse_of(&g.memberof_adj);
    let seen = reaches(&rev, g.tier_zero);
    proof {
        let e = g.member_rel();
        let p = |i: int| seen@[i];
        let q = is_nested(g);
        assert forall|u: int| 0 <= u < g.n_users implies #[trigger] p(u) == q(u) by {
            assert forall|a: usize, b: usize| #[trigger] graph::listed(rev@)(a, b) == graph::flip(e)(a, b) by {
                assert(graph::listed(g.memberof_adj@)(b, a) == e(b, a));
            }
            graph::lemma_reach_same(graph::listed(rev@), graph::flip(e), g.tier_zero, u as usize);
            graph::lemma_reach_flip(e, u as usize, g.tier_zero);
        }
        math::lemma_count_same(g.n_users as nat, p, q);
    }
    count_flags(&seen, g.n_users)
}

/// The flags of `reaches` over the reversed graph say who is exposed.
pub proof fn lemma_seen_exposed(g: &AdGraph, rev: Seq<Vec<usize>>, u: usize)
    requires
        g.well_formed(),
        rev.len() == g.nodes(),
        forall|b: int|
            0 <= b < rev.len() ==> (#[trigger] rev[b])@ == sources(g.edges@, b as usize),
    ensures
        graph::reach(graph::listed(rev), g.tier_zero, u) == g.exposed(u),
{
    g.lemma_reverse(rev);
    graph::lemma_reach_same(graph::listed(rev), graph::flip(g.rel()), g.tier_zero, u);
    graph::lemma_reach_flip(g.rel(), u, g.tier_zero);
}

/// The graph view: users with any attack path to tier zero.
pub fn attack_path_reachable_users(g: &AdGraph) -> (n: usize)
    requires
        g.well_formed(),
    ensures
        n == math::count(g.n_users as nat, is_exposed(g)),
{
    let rev = g.reverse_adj();
    proof {
        g.lemma_reverse(rev@);
    }
    let seen = reaches(&rev, g.tier_zero);
    proof {
        let p = |i: int| seen@[i];
        let q = is_exposed(g);
        assert forall|u: int| 0 <= u < g.n_users implies #[trigger] p(u) == q(u) by {
            lemma_seen_exposed(g, rev@, u as usize);
        }
        math::lemma_count_same(g.n_users as nat, p, q);
    }
    count_flags(&seen, g.n_users)
}

/// Shortest attack-path lengths in edges: how many users have a path at all,
/// the lengths of their shortest paths together, and the longest of these.
/// The mean is the second over the first.
pub fn attack_path_lengths(g: &AdGraph) -> (r: (usize, u128, usize))
    requires
        g.well_formed(),
    ensures
        r.0 == math::count(g.n_users as nat, is_exposed(g)),
        r.1 == math::sum(g.n_users as nat, |u: int| path_length(g, u)),
        forall|u: int| 0 <= u < g.n_users ==> #[trigger] path_length(g, u) <= r.2,
        r.2 == 0 || exists|u: int| 0 <= u < g.n_users && #[trigger] path_length(g, u) == r.2,
{
    let rev = g.reverse_adj();
    let mut seeds: Vec<usize> = Vec::new();
    seeds.push(g.tier_zero);
    proof {
        g.lemma_reverse(rev@);
        assert(graph::listed(rev@) =~= graph::flip(g.rel()));
        assert(seeds@ =~= seq![g.tier_zero]);
    }
    let dist = graph::bfs(&rev, &seeds);
    let mut reaching: usize = 0;
    let mut total: u128 = 0;
    let mut longest: usize = 0;
    for u in 0..g.n_users
        invariant
            g.well_formed(),
            dist@.len() == g.nodes(),
            forall|v: int|
                0 <= v < dist@.len() ==> graph::is_distance(
                    graph::flip(g.rel()),
                    seq![g.tier_zero],
                    v as usize,
                    #[trigger] dist@[v],
                ),
            reaching <= u,
            reaching == math::count(u as nat, is_exposed(g)),
            total <= u * usize::MAX,
            total == math::sum(u as nat, |u: int| path_length(g, u)),
            forall|v: int| 0 <= v < u ==> #[trigger] path_length(g, v) <= longest,
            longest == 0 || exists|v: int| 0 <= v < u && #[trigger] path_length(g, v) == longest,
    {
        let d = dist[u];
        proof {
            graph::lemma_reverse_label(g.rel(), u, g.tier_zero, d);
            assert(u * usize::MAX + usize::MAX <= u128::MAX) by (nonlinear_arith)
                requires
                    u < usize::MAX,
                    usize::MAX <= 0xffff_ffff_ffff_ffff,
            ;
            assert(u * usize::MAX + usize::MAX == (u + 1) * usize::MAX) by (nonlinear_arith);
        }
        if d != usize::MAX {
            assert(path_length(g, u as int) == d);
            reaching += 1;
            total += d as u128;
            if d > longest {
                longest = d;
            }
        } else {
            assert(path_length(g, u as int) == 0);
        }
    }
    (reaching, total, longest)
}

/// The number of edges of a shortest attack path of user `u`, 0 without one.
pub open spec fn path_length(g: &AdGraph, u: int) -> int {
    if g.exposed(u as usize) {
        graph::hops(g.rel(), u as usize, g.tier_zero) as int
    } else {
        0
    }
}

/// One of the first `k` edges makes user `u` a member of tier zero.
spec fn made_direct(g: &AdGraph, k: int) -> spec_fn(int) -> bool {
    |u: int| exists|i: int| 0 <= i < k && is_direct(g)(i) && (#[trigger] g.edges@[i]).0 == u
}

/// Where no edge is there twice, direct memberships are as many as the users
/// that have one.
proof fn lemma_direct_users(g: &AdGraph, k: nat)
    requires
        g.edges@.no_duplicates(),
        k <= g.edges@.len(),
    ensures
        math::count(k, is_direct(g)) == math::count(g.n_users as nat, made_direct(g, k as int)),
    decreases k,
{
    let n = g.n_users as nat;
    let now = made_direct(g, k as int);
    if k == 0 {
        math::lemma_count_single(n, now, -1, false);
    } else {
        lemma_direct_users(g, (k - 1) as nat);
        let before = made_direct(g, k - 1);
        let e = g.edges@[k - 1];
        let u = e.0 as int;
        let one = |x: int| x == u && is_direct(g)(k - 1);
        assert forall|x: int| 0 <= x < n
            implies #[trigger] now(x) == (before(x) || one(x)) && !(before(x) && one(x)) by {
            if now(x) {
                let i = choose|i: int|
                    0 <= i < k && is_direct(g)(i) && (#[trigger] g.edges@[i]).0 == x;
                if i < k - 1 {
                    assert(before(x));
                }
            }
            if before(x) {
                let i = choose|i: int|
                    0 <= i < k - 1 && is_direct(g)(i) && (#[trigger] g.edges@[i]).0 == x;
                assert(now(x));
                if one(x) {
                    assert(g.edges@[i] == g.edges@[k - 1]);
                }
            }
        }
        math::lemma_count_split(n, now, before, one);
        math::lemma_count_single(n, one, u, is_direct(g)(k - 1));
    }
}

/// The list view undercounts the graph view: direct members are at most the
/// members through nested groups, those at most the users with an attack path,
/// and those at most all users. With nothing but memberships, the last two
/// views are one.
pub proof fn lemma_views_nest(g: &AdGraph)
    requires
        g.edges@.no_duplicates(),
    ensures
        math::count(g.edges@.len(), is_direct(g)) <= math::count(g.n_users as nat, is_nested(g)),
        math::count(g.n_users as nat, is_nested(g)) <= math::count(
            g.n_users as nat,
            is_exposed(g),
        ),
        math::count(g.n_users as nat, is_exposed(g)) <= g.n_users,
        (forall|i: int|
            0 <= i < g.edges@.len() ==> (#[trigger] g.edges@[i]).2 == EdgeKind::MemberOf)
            ==> math::count(g.n_users as nat, is_nested(g)) == math::count(
            g.n_users as nat,
            is_exposed(g),
        ),
{
    let n = g.n_users as nat;
    let (e, f) = (g.member_rel(), g.rel());
    let direct = made_direct(g, g.edges@.len() as int);
    lemma_direct_users(g, g.edges@.len());
    assert forall|u: int| 0 <= u < n && #[trigger] direct(u) implies is_nested(g)(u) by {
        let i = choose|i: int|
            0 <= i < g.edges@.len() && is_direct(g)(i) && (#[trigger] g.edges@[i]).0 == u;
        assert(e(u as usize, g.tier_zero));
        graph::lemma_reach_edge(e, u as usize, g.tier_zero);
    }
    math::lemma_count_monotone(n, direct, is_nested(g));
    assert forall|a: usize, b: usize| #[trigger] e(a, b) implies f(a, b) by {
        let i = choose|i: int|
            0 <= i < g.edges@.len() && (#[trigger] g.edges@[i]).0 == a && g.edges@[i].1 == b
                && g.edges@[i].2 == EdgeKind::MemberOf;
        assert(g.edges@[i].0 == a);
    }
    assert forall|u: int| 0 <= u < n && #[trigger] is_nested(g)(u) implies is_exposed(g)(u) by {
        graph::lemma_reach_more(e, f, u as usize, g.tier_zero);
    }
    math::lemma_count_monotone(n, is_nested(g), is_exposed(g));
    math::lemma_count_le(n, is_exposed(g));
    if forall|i: int| 0 <= i < g.edges@.len() ==> (#[trigger] g.edges@[i]).2 == EdgeKind::MemberOf {
        assert forall|a: usize, b: usize| #[trigger] e(a, b) == f(a, b) by {
            if f(a, b) {
                let i = choose|i: int|
                    0 <= i < g.edges@.len() && (#[trigger] g.edges@[i]).0 == a && g.edges@[i].1 == b;
                assert(g.edges@[i].2 == EdgeKind::MemberOf);
            }
        }
        assert forall|u: int| 0 <= u < n implies #[trigger] is_nested(g)(u) == is_exposed(g)(u) by {
            graph::lemma_reach_same(e, f, u as usize, g.tier_zero);
        }
        math::lemma_count_same(n, is_nested(g), is_exposed(g));
    }
}

} // verus!
