//! Building a random directory: first everything that chance decides is drawn,
//! then the graph is put together from the draws.

use crate::attack::ad_graph;
use crate::attack::ad_graph::{AdConfig, AdGraph, Edge, EdgeKind};
use crate::math;
use crate::rng;
use rand_chacha::ChaCha8Rng;
use std::collections::HashSet;
use vstd::prelude::*;

verus! {

broadcast use vstd::std_specs::hash::group_hash_axioms;

/// Everything that chance decides about a directory, in drawing order.
pub struct AdDraws {
    /// Two ordinary groups, the lower nested into the higher.
    pub nesting: Vec<(usize, usize)>,
    /// For each user the ordinary groups that they join.
    pub joins: Vec<Vec<usize>>,
    /// For each user whether they are staff.
    pub staff: Vec<bool>,
    /// For each service group its members.
    pub service: Vec<Vec<usize>>,
    /// An ordinary group and an ordinary computer that it administers.
    pub admin: Vec<(usize, usize)>,
    /// A session host and the operator whose token lands there.
    pub privileged: Vec<(usize, usize)>,
    /// An ordinary computer and an ordinary user logged into it.
    pub ordinary: Vec<(usize, usize)>,
    /// A user or ordinary group (one id space) and the group it can rewrite.
    pub acl: Vec<(usize, usize)>,
}

pub open spec fn rows_below(rows: Seq<Vec<usize>>, n: nat, bound: int) -> bool {
    &&& rows.len() == n
    &&& forall|i: int, j: int|
        0 <= i < rows.len() && 0 <= j < rows[i]@.len() ==> #[trigger] rows[i]@[j] < bound
}

pub open spec fn pairs_in(
    pairs: Seq<(usize, usize)>,
    lo0: int,
    hi0: int,
    lo1: int,
    hi1: int,
) -> bool {
    forall|i: int|
        0 <= i < pairs.len() ==> lo0 <= (#[trigger] pairs[i]).0 < hi0 && lo1 <= pairs[i].1 < hi1
}

/// The draws lie in the ranges that the configuration draws from.
pub open spec fn fits(cfg: AdConfig, d: AdDraws) -> bool {
    &&& pairs_in(d.nesting@, 0, cfg.mesh(), 0, cfg.mesh())
    &&& rows_below(d.joins@, cfg.n_users as nat, cfg.mesh())
    &&& d.staff@.len() == cfg.n_users
    &&& rows_below(d.service@, cfg.service_groups as nat, cfg.n_users as int)
    &&& pairs_in(
        d.admin@,
        0,
        cfg.mesh(),
        cfg.session_hosts as int,
        cfg.n_computers as int,
    )
    &&& pairs_in(d.privileged@, 0, cfg.session_hosts as int, 0, cfg.privileged())
    &&& pairs_in(
        d.ordinary@,
        cfg.session_hosts as int,
        cfg.n_computers as int,
        cfg.privileged(),
        cfg.n_users as int,
    )
    &&& pairs_in(d.acl@, 0, cfg.n_users + cfg.mesh(), 0, cfg.mesh())
}

/// `d` is what the stream `s0` gives, and `s1` is left of it.
pub open spec fn drawn(cfg: AdConfig, d: AdDraws, s0: Map<nat, u32>, s1: Map<nat, u32>) -> bool {
    let mesh = cfg.mesh() as usize;
    let op = cfg.privileged() as usize;
    let n = rng::pair_draws(s0, (0, mesh), (0, mesh), cfg.group_nesting as nat);
    let join_row = |u: int|
        rng::range_draws(
            rng::after_rows(n.1, 0, mesh, cfg.groups_per_user as nat, u as nat),
            0,
            mesh,
            cfg.groups_per_user as nat,
        ).0;
    let after_joins = rng::after_rows(
        n.1,
        0,
        mesh,
        cfg.groups_per_user as nat,
        cfg.n_users as nat,
    );
    let staff = rng::coin_draws(after_joins, cfg.staff_fraction, cfg.n_users as nat);
    let service_row = |i: int|
        rng::range_draws(
            rng::after_rows(staff.1, 0, cfg.n_users, cfg.service_group_members as nat, i as nat),
            0,
            cfg.n_users,
            cfg.service_group_members as nat,
        ).0;
    let after_service = rng::after_rows(
        staff.1,
        0,
        cfg.n_users,
        cfg.service_group_members as nat,
        cfg.service_groups as nat,
    );
    let admin = rng::pair_draws(
        after_service,
        (0, mesh),
        (cfg.session_hosts, cfg.n_computers),
        cfg.admin_edges as nat,
    );
    let privileged = rng::pair_draws(
        admin.1,
        (0, cfg.session_hosts),
        (0, op),
        cfg.privileged_sessions as nat,
    );
    let ordinary = rng::pair_draws(
        privileged.1,
        (cfg.session_hosts, cfg.n_computers),
        (op, cfg.n_users),
        cfg.ordinary_sessions as nat,
    );
    let acl = rng::pair_draws(
        ordinary.1,
        (0, (cfg.n_users + mesh) as usize),
        (0, mesh),
        cfg.acl_edges as nat,
    );
    &&& d.nesting@ == n.0
    &&& d.joins@.len() == cfg.n_users
    &&& forall|u: int| 0 <= u < cfg.n_users ==> (#[trigger] d.joins@[u])@ == join_row(u)
    &&& d.staff@ == staff.0
    &&& d.service@.len() == cfg.service_groups
    &&& forall|i: int|
        0 <= i < cfg.service_groups ==> (#[trigger] d.service@[i])@ == service_row(i)
    &&& d.admin@ == admin.0
    &&& d.privileged@ == privileged.0
    &&& d.ordinary@ == ordinary.0
    &&& d.acl@ == acl.0
    &&& s1 == acl.1
}

/// Draws everything that chance decides.
pub fn draw_directory(rng: &mut ChaCha8Rng, cfg: &AdConfig) -> (d: AdDraws)
    requires
        cfg.valid(),
    ensures
        fits(*cfg, d),
        drawn(*cfg, d, rng::words(*old(rng)), rng::words(*final(rng))),
{
    let mesh = cfg.n_groups - ad_graph::RESERVED_GROUPS - cfg.service_groups;
    let op = operators(cfg);
    let nesting = rng::draw_pairs(rng, (0, mesh), (0, mesh), cfg.group_nesting);
    let joins = rng::draw_rows(rng, 0, mesh, cfg.groups_per_user, cfg.n_users);
    let staff = rng::draw_coins(rng, cfg.staff_fraction, cfg.n_users);
    let service = rng::draw_rows(
        rng,
        0,
        cfg.n_users,
        cfg.service_group_members,
        cfg.service_groups,
    );
    let admin = rng::draw_pairs(
        rng,
        (0, mesh),
        (cfg.session_hosts, cfg.n_computers),
        cfg.admin_edges,
    );
    let privileged = rng::draw_pairs(
        rng,
        (0, cfg.session_hosts),
        (0, op),
        cfg.privileged_sessions,
    );
    let ordinary = rng::draw_pairs(
        rng,
        (cfg.session_hosts, cfg.n_computers),
        (op, cfg.n_users),
        cfg.ordinary_sessions,
    );
    let acl = rng::draw_pairs(rng, (0, cfg.n_users + mesh), (0, mesh), cfg.acl_edges);
    AdDraws { nesting, joins, staff, service, admin, privileged, ordinary, acl }
}

fn operators(cfg: &AdConfig) -> (p: usize)
    ensures
        p == cfg.privileged(),
{
    let p = if cfg.privileged_users <= cfg.n_users {
        cfg.privileged_users
    } else {
        cfg.n_users
    };
    if p >= 1 {
        p
    } else {
        1
    }
}

/// The candidates that stay: no self loops, and of several edges from one
/// node to another the first.
pub open spec fn first_edges(cands: Seq<Edge>) -> Seq<Edge>
    decreases cands.len(),
{
    if cands.len() == 0 {
        Seq::empty()
    } else {
        let before = first_edges(cands.drop_last());
        let e = cands.last();
        if e.0 == e.1 || ad_graph::joined(before, e.0, e.1) {
            before
        } else {
            before.push(e)
        }
    }
}

/// What is common to the ids of one configuration.
pub open spec fn top_group(cfg: AdConfig, below: int) -> usize {
    (cfg.n_users + cfg.n_groups - below) as usize
}

pub open spec fn host(cfg: AdConfig, c: int) -> usize {
    (cfg.n_users + cfg.n_groups + c) as usize
}

pub open spec fn group(cfg: AdConfig, g: int) -> usize {
    (cfg.n_users + g) as usize
}

/// Nesting goes upward: the lower-numbered group into the higher.
pub open spec fn nesting_edges(cfg: AdConfig, d: AdDraws, n: nat) -> Seq<Edge> {
    Seq::new(
        n,
        |i: int|
            {
                let (a, b) = d.nesting@[i];
                if a <= b {
                    (group(cfg, a as int), group(cfg, b as int), EdgeKind::MemberOf)
                } else {
                    (group(cfg, b as int), group(cfg, a as int), EdgeKind::MemberOf)
                }
            },
    )
}

pub open spec fn join_edges(cfg: AdConfig, d: AdDraws, u: int, n: nat) -> Seq<Edge> {
    Seq::new(
        n,
        |j: int| (u as usize, group(cfg, d.joins@[u]@[j] as int), EdgeKind::MemberOf),
    )
}

/// The group memberships of the first `k` users.
pub open spec fn all_join_edges(cfg: AdConfig, d: AdDraws, k: nat) -> Seq<Edge>
    decreases k,
{
    if k == 0 {
        Seq::empty()
    } else {
        all_join_edges(cfg, d, (k - 1) as nat) + join_edges(
            cfg,
            d,
            k - 1,
            d.joins@[k - 1]@.len(),
        )
    }
}

/// Direct members of tier zero.
pub open spec fn tier_zero_edges(cfg: AdConfig, n: nat) -> Seq<Edge> {
    Seq::new(n, |i: int| (i as usize, top_group(cfg, 1), EdgeKind::MemberOf))
}

/// Members of the group nested into tier zero.
pub open spec fn t0_ops_edges(cfg: AdConfig, n: nat) -> Seq<Edge> {
    Seq::new(
        n,
        |i: int| ((cfg.tier_zero_members + i) as usize, top_group(cfg, 2), EdgeKind::MemberOf),
    )
}

/// `helpdesk` administers every session host.
pub open spec fn helpdesk_edges(cfg: AdConfig, n: nat) -> Seq<Edge> {
    Seq::new(n, |h: int| (top_group(cfg, 3), host(cfg, h), EdgeKind::AdminTo))
}

/// The staff among the first `k` users.
pub open spec fn staff_edges(cfg: AdConfig, d: AdDraws, k: nat) -> Seq<Edge>
    decreases k,
{
    if k == 0 {
        Seq::empty()
    } else {
        let before = staff_edges(cfg, d, (k - 1) as nat);
        if d.staff@[k - 1] {
            before.push(((k - 1) as usize, top_group(cfg, 4), EdgeKind::MemberOf))
        } else {
            before
        }
    }
}

/// The session host of service group `i`.
pub open spec fn service_host(cfg: AdConfig, i: int) -> usize {
    host(
        cfg,
        if cfg.session_hosts == 0 {
            0
        } else {
            i % cfg.session_hosts as int
        },
    )
}

pub open spec fn service_members(cfg: AdConfig, d: AdDraws, i: int, n: nat) -> Seq<Edge> {
    Seq::new(n, |j: int| (d.service@[i]@[j], group(cfg, cfg.mesh() + i), EdgeKind::MemberOf))
}

/// The first `k` service groups: each administers one host, then come its
/// members.
pub open spec fn service_edges(cfg: AdConfig, d: AdDraws, k: nat) -> Seq<Edge>
    decreases k,
{
    if k == 0 {
        Seq::empty()
    } else {
        service_edges(cfg, d, (k - 1) as nat).push(
            (group(cfg, cfg.mesh() + k - 1), service_host(cfg, k - 1), EdgeKind::AdminTo),
        ) + service_members(cfg, d, k - 1, d.service@[k - 1]@.len())
    }
}

pub open spec fn admin_edges(cfg: AdConfig, d: AdDraws, n: nat) -> Seq<Edge> {
    Seq::new(
        n,
        |i: int|
            (
                group(cfg, d.admin@[i].0 as int),
                host(cfg, d.admin@[i].1 as int),
                EdgeKind::AdminTo,
            ),
    )
}

pub open spec fn session_edges(cfg: AdConfig, pairs: Seq<(usize, usize)>, n: nat) -> Seq<Edge> {
    Seq::new(n, |i: int| (host(cfg, pairs[i].0 as int), pairs[i].1, EdgeKind::HasSession))
}

/// Privileged tokens on ordinary workstations.
pub open spec fn violation_edges(cfg: AdConfig, n: nat) -> Seq<Edge> {
    Seq::new(
        n,
        |i: int|
            (
                host(cfg, cfg.session_hosts + i),
                (i % cfg.privileged()) as usize,
                EdgeKind::HasSession,
            ),
    )
}

pub open spec fn acl_edges(cfg: AdConfig, d: AdDraws, n: nat) -> Seq<Edge> {
    Seq::new(n, |i: int| (d.acl@[i].0, group(cfg, d.acl@[i].1 as int), EdgeKind::GenericAll))
}

/// Who belongs to what: the mesh, tier zero and the group nested into it.
pub open spec fn membership_part(cfg: AdConfig, d: AdDraws) -> Seq<Edge> {
    (nesting_edges(cfg, d, d.nesting@.len()) + all_join_edges(cfg, d, cfg.n_users as nat)
        + tier_zero_edges(cfg, cfg.tier_zero_members as nat)).push(
        (top_group(cfg, 2), top_group(cfg, 1), EdgeKind::MemberOf),
    ) + t0_ops_edges(cfg, cfg.t0_ops_members as nat)
}

/// The planted choke structure: most users are `staff`, `staff` is nested
/// inside `helpdesk`, and `helpdesk` is local admin on every session host; the
/// service groups are the ways around it.
pub open spec fn choke_part(cfg: AdConfig, d: AdDraws) -> Seq<Edge> {
    seq![(top_group(cfg, 4), top_group(cfg, 3), EdgeKind::MemberOf)] + helpdesk_edges(
        cfg,
        cfg.session_hosts as nat,
    ) + staff_edges(cfg, d, cfg.n_users as nat) + service_edges(cfg, d, cfg.service_groups as nat)
}

/// Local admins, tokens on machines and rewritable groups.
pub open spec fn machine_part(cfg: AdConfig, d: AdDraws) -> Seq<Edge> {
    admin_edges(cfg, d, d.admin@.len()) + session_edges(cfg, d.privileged@, d.privileged@.len())
        + session_edges(cfg, d.ordinary@, d.ordinary@.len()) + violation_edges(
        cfg,
        cfg.da_on_workstation as nat,
    ) + acl_edges(cfg, d, d.acl@.len())
}

/// All candidate edges, in order.
pub open spec fn candidates(cfg: AdConfig, d: AdDraws) -> Seq<Edge> {
    membership_part(cfg, d) + choke_part(cfg, d) + machine_part(cfg, d)
}

/// `g` is the directory that the draws describe.
pub open spec fn built(cfg: AdConfig, d: AdDraws, g: AdGraph) -> bool {
    &&& g.well_formed()
    &&& g.n_users == cfg.n_users
    &&& g.n_groups == cfg.n_groups
    &&& g.n_computers == cfg.n_computers
    &&& g.tier_zero == top_group(cfg, 1)
    &&& g.t0_ops == top_group(cfg, 2)
    &&& g.helpdesk == top_group(cfg, 3)
    &&& g.staff == top_group(cfg, 4)
    &&& g.service_group_ids@ == Seq::new(
        cfg.service_groups as nat,
        |i: int| group(cfg, cfg.mesh() + i),
    )
    &&& g.violation_hosts@ == Seq::new(
        cfg.da_on_workstation as nat,
        |i: int| host(cfg, cfg.session_hosts + i),
    )
    &&& g.edges@ == first_edges(candidates(cfg, d))
}

/// The edges kept so far, with what was offered.
struct EdgeList {
    edges: Vec<Edge>,
    seen: HashSet<u128>,
    offered: Ghost<Seq<Edge>>,
}

spec fn pair_key(a: usize, b: usize) -> u128 {
    (a * 0x1_0000_0000_0000_0000 + b) as u128
}

impl EdgeList {
    spec fn inv(&self, n: int) -> bool {
        &&& self.edges@ == first_edges(self.offered@)
        &&& forall|a: usize, b: usize| #[trigger]
            self.seen@.contains(pair_key(a, b)) == ad_graph::joined(self.edges@, a, b)
        &&& forall|i: int|
            0 <= i < self.edges@.len() ==> (#[trigger] self.edges@[i]).0 < n && self.edges@[i].1 < n
    }

    fn new(n: Ghost<int>) -> (list: EdgeList)
        ensures
            list.inv(n@),
            list.offered@ == Seq::<Edge>::empty(),
    {
        EdgeList { edges: Vec::new(), seen: HashSet::new(), offered: Ghost(Seq::empty()) }
    }

    fn offer(&mut self, a: usize, b: usize, k: EdgeKind, n: Ghost<int>)
        requires
            old(self).inv(n@),
            a < n@,
            b < n@,
        ensures
            final(self).inv(n@),
            final(self).offered@ == old(self).offered@.push((a, b, k)),
    {
        let ghost before = self.edges@;
        let ghost cands = self.offered@.push((a, b, k));
        proof {
            assert(cands.drop_last() =~= self.offered@);
            self.offered@ = cands;
        }
        assert(a * 0x1_0000_0000_0000_0000 + b <= u128::MAX);
        let key: u128 = a as u128 * 0x1_0000_0000_0000_0000 + b as u128;
        assert(key == pair_key(a, b));
        if a != b && self.seen.insert(key) {
            self.edges.push((a, b, k));
            proof {
                assert forall|x: usize, y: usize| #[trigger]
                    self.seen@.contains(pair_key(x, y)) == ad_graph::joined(self.edges@, x, y) by {
                    assert(old(self).seen@.contains(pair_key(x, y)) == ad_graph::joined(before, x, y));
                    if x == a && y == b {
                        assert(self.edges@[before.len() as int] == (a, b, k));
                    } else {
                        assert(pair_key(x, y) != key);
                        if ad_graph::joined(before, x, y) {
                            let i = choose|i: int|
                                0 <= i < before.len() && (#[trigger] before[i]).0 == x && before[i].1
                                    == y;
                            assert(self.edges@[i] == before[i]);
                        }
                        if ad_graph::joined(self.edges@, x, y) {
                            let i = choose|i: int|
                                0 <= i < self.edges@.len() && (#[trigger] self.edges@[i]).0 == x
                                    && self.edges@[i].1 == y;
                            assert(before[i] == self.edges@[i]);
                        }
                    }
                }
            }
        } else {
            proof {
                assert(self.seen@ =~= old(self).seen@);
            }
        }
    }
}

/// Offers the membership candidates.
fn offer_membership(list: &mut EdgeList, cfg: &AdConfig, d: &AdDraws, n: Ghost<int>)
    requires
        cfg.valid(),
        fits(*cfg, *d),
        n@ == cfg.nodes(),
        old(list).inv(n@),
    ensures
        final(list).inv(n@),
        final(list).offered@ == old(list).offered@ + membership_part(*cfg, *d),
{
    let ghost n = n@;
    let ghost s0 = list.offered@;
    assert(s0 =~= s0 + nesting_edges(*cfg, *d, 0));
    for i in 0..d.nesting.len()
        invariant
            cfg.valid(),
            fits(*cfg, *d),
            n == cfg.nodes(),
            list.inv(n),
            list.offered@ == s0 + nesting_edges(*cfg, *d, i as nat),
    {
        let (a, b) = d.nesting[i];
        assert(d.nesting@[i as int].0 < cfg.mesh() && d.nesting@[i as int].1 < cfg.mesh());
        let (lo, hi) = if a <= b {
            (cfg.n_users + a, cfg.n_users + b)
        } else {
            (cfg.n_users + b, cfg.n_users + a)
        };
        list.offer(lo, hi, EdgeKind::MemberOf, Ghost(n));
        assert(list.offered@ =~= s0 + nesting_edges(*cfg, *d, (i + 1) as nat));
    }
    let ghost s1 = list.offered@;
    assert(s1 =~= s1 + all_join_edges(*cfg, *d, 0));
    for u in 0..cfg.n_users
        invariant
            cfg.valid(),
            fits(*cfg, *d),
            n == cfg.nodes(),
            list.inv(n),
            list.offered@ == s1 + all_join_edges(*cfg, *d, u as nat),
    {
        let ghost r0 = list.offered@;
        let row = &d.joins[u];
        assert(r0 =~= r0 + join_edges(*cfg, *d, u as int, 0));
        for j in 0..row.len()
            invariant
                cfg.valid(),
                fits(*cfg, *d),
                n == cfg.nodes(),
                u < cfg.n_users,
                row@ == d.joins@[u as int]@,
                list.inv(n),
                list.offered@ == r0 + join_edges(*cfg, *d, u as int, j as nat),
        {
            assert(d.joins@[u as int]@[j as int] < cfg.mesh());
            list.offer(u, cfg.n_users + row[j], EdgeKind::MemberOf, Ghost(n));
            assert(list.offered@ =~= r0 + join_edges(*cfg, *d, u as int, (j + 1) as nat));
        }
        assert(list.offered@ =~= s1 + all_join_edges(*cfg, *d, (u + 1) as nat));
    }
    let tier_zero = cfg.n_users + cfg.n_groups - 1;
    let t0_ops = cfg.n_users + cfg.n_groups - 2;
    let ghost s2 = list.offered@;
    assert(s2 =~= s2 + tier_zero_edges(*cfg, 0));
    for i in 0..cfg.tier_zero_members
        invariant
            cfg.valid(),
            fits(*cfg, *d),
            n == cfg.nodes(),
            list.inv(n),
            list.offered@ == s2 + tier_zero_edges(*cfg, i as nat),
            tier_zero == top_group(*cfg, 1),
    {
        list.offer(i, tier_zero, EdgeKind::MemberOf, Ghost(n));
        assert(list.offered@ =~= s2 + tier_zero_edges(*cfg, (i + 1) as nat));
    }
    list.offer(t0_ops, tier_zero, EdgeKind::MemberOf, Ghost(n));
    let ghost s3 = list.offered@;
    assert(s3 =~= s3 + t0_ops_edges(*cfg, 0));
    for i in 0..cfg.t0_ops_members
        invariant
            cfg.valid(),
            fits(*cfg, *d),
            n == cfg.nodes(),
            list.inv(n),
            list.offered@ == s3 + t0_ops_edges(*cfg, i as nat),
            t0_ops == top_group(*cfg, 2),
    {
        list.offer(cfg.tier_zero_members + i, t0_ops, EdgeKind::MemberOf, Ghost(n));
        assert(list.offered@ =~= s3 + t0_ops_edges(*cfg, (i + 1) as nat));
    }
    assert(list.offered@ =~= s0 + membership_part(*cfg, *d));
}

/// Offers the candidates of the planted choke structure.
fn offer_choke(list: &mut EdgeList, cfg: &AdConfig, d: &AdDraws, n: Ghost<int>)
    requires
        cfg.valid(),
        fits(*cfg, *d),
        n@ == cfg.nodes(),
        old(list).inv(n@),
    ensures
        final(list).inv(n@),
        final(list).offered@ == old(list).offered@ + choke_part(*cfg, *d),
{
    let ghost n = n@;
    let ghost s0 = list.offered@;
    let helpdesk = cfg.n_users + cfg.n_groups - 3;
    let staff = cfg.n_users + cfg.n_groups - 4;
    list.offer(staff, helpdesk, EdgeKind::MemberOf, Ghost(n));
    let ghost s1 = list.offered@;
    assert(s1 =~= s1 + helpdesk_edges(*cfg, 0));
    for h in 0..cfg.session_hosts
        invariant
            cfg.valid(),
            fits(*cfg, *d),
            n == cfg.nodes(),
            list.inv(n),
            list.offered@ == s1 + helpdesk_edges(*cfg, h as nat),
            helpdesk == top_group(*cfg, 3),
    {
        list.offer(helpdesk, cfg.n_users + cfg.n_groups + h, EdgeKind::AdminTo, Ghost(n));
        assert(list.offered@ =~= s1 + helpdesk_edges(*cfg, (h + 1) as nat));
    }
    let ghost s2 = list.offered@;
    assert(s2 =~= s2 + staff_edges(*cfg, *d, 0));
    for u in 0..cfg.n_users
        invariant
            cfg.valid(),
            fits(*cfg, *d),
            n == cfg.nodes(),
            list.inv(n),
            staff == top_group(*cfg, 4),
            list.offered@ == s2 + staff_edges(*cfg, *d, u as nat),
    {
        if d.staff[u] {
            list.offer(u, staff, EdgeKind::MemberOf, Ghost(n));
        }
        assert(list.offered@ =~= s2 + staff_edges(*cfg, *d, (u + 1) as nat));
    }
    let mesh = cfg.n_groups - ad_graph::RESERVED_GROUPS - cfg.service_groups;
    let ghost s3 = list.offered@;
    assert(s3 =~= s3 + service_edges(*cfg, *d, 0));
    for i in 0..cfg.service_groups
        invariant
            cfg.valid(),
            fits(*cfg, *d),
            n == cfg.nodes(),
            mesh == cfg.mesh(),
            list.inv(n),
            list.offered@ == s3 + service_edges(*cfg, *d, i as nat),
    {
        let g = cfg.n_users + mesh + i;
        let h = if cfg.session_hosts == 0 {
            0
        } else {
            i % cfg.session_hosts
        };
        assert(h < cfg.n_computers);
        list.offer(g, cfg.n_users + cfg.n_groups + h, EdgeKind::AdminTo, Ghost(n));
        let ghost r0 = list.offered@;
        let row = &d.service[i];
        assert(r0 =~= r0 + service_members(*cfg, *d, i as int, 0));
        for j in 0..row.len()
            invariant
                cfg.valid(),
                fits(*cfg, *d),
                n == cfg.nodes(),
                i < cfg.service_groups,
                g == group(*cfg, cfg.mesh() + i),
                g < n,
                row@ == d.service@[i as int]@,
                list.inv(n),
                list.offered@ == r0 + service_members(*cfg, *d, i as int, j as nat),
        {
            assert(d.service@[i as int]@[j as int] < cfg.n_users);
            list.offer(row[j], g, EdgeKind::MemberOf, Ghost(n));
            assert(list.offered@ =~= r0 + service_members(*cfg, *d, i as int, (j + 1) as nat));
        }
        assert(list.offered@ =~= s3 + service_edges(*cfg, *d, (i + 1) as nat));
    }
    assert(list.offered@ =~= s0 + choke_part(*cfg, *d));
}

/// Offers the candidates that touch machines, and the rewritable groups.
fn offer_machines(list: &mut EdgeList, cfg: &AdConfig, d: &AdDraws, n: Ghost<int>)
    requires
        cfg.valid(),
        fits(*cfg, *d),
        n@ == cfg.nodes(),
        old(list).inv(n@),
    ensures
        final(list).inv(n@),
        final(list).offered@ == old(list).offered@ + machine_part(*cfg, *d),
{
    let ghost n = n@;
    let ghost s0 = list.offered@;
    let first = cfg.n_users + cfg.n_groups;
    assert(s0 =~= s0 + admin_edges(*cfg, *d, 0));
    for i in 0..d.admin.len()
        invariant
            cfg.valid(),
            fits(*cfg, *d),
            n == cfg.nodes(),
            list.inv(n),
            list.offered@ == s0 + admin_edges(*cfg, *d, i as nat),
            first == cfg.n_users + cfg.n_groups,
    {
        let (a, b) = d.admin[i];
        assert(d.admin@[i as int].0 < cfg.mesh() && d.admin@[i as int].1 < cfg.n_computers);
        list.offer(cfg.n_users + a, first + b, EdgeKind::AdminTo, Ghost(n));
        assert(list.offered@ =~= s0 + admin_edges(*cfg, *d, (i + 1) as nat));
    }
    let ghost s1 = list.offered@;
    assert(s1 =~= s1 + session_edges(*cfg, d.privileged@, 0));
    for i in 0..d.privileged.len()
        invariant
            cfg.valid(),
            fits(*cfg, *d),
            n == cfg.nodes(),
            list.inv(n),
            list.offered@ == s1 + session_edges(*cfg, d.privileged@, i as nat),
            first == cfg.n_users + cfg.n_groups,
    {
        let (a, b) = d.privileged[i];
        assert(d.privileged@[i as int].0 < cfg.session_hosts && d.privileged@[i as int].1
            < cfg.privileged());
        list.offer(first + a, b, EdgeKind::HasSession, Ghost(n));
        assert(list.offered@ =~= s1 + session_edges(*cfg, d.privileged@, (i + 1) as nat));
    }
    let ghost s2 = list.offered@;
    assert(s2 =~= s2 + session_edges(*cfg, d.ordinary@, 0));
    for i in 0..d.ordinary.len()
        invariant
            cfg.valid(),
            fits(*cfg, *d),
            n == cfg.nodes(),
            list.inv(n),
            list.offered@ == s2 + session_edges(*cfg, d.ordinary@, i as nat),
            first == cfg.n_users + cfg.n_groups,
    {
        let (a, b) = d.ordinary[i];
        assert(d.ordinary@[i as int].0 < cfg.n_computers && d.ordinary@[i as int].1 < cfg.n_users);
        list.offer(first + a, b, EdgeKind::HasSession, Ghost(n));
        assert(list.offered@ =~= s2 + session_edges(*cfg, d.ordinary@, (i + 1) as nat));
    }
    let op = operators(cfg);
    let ghost s3 = list.offered@;
    assert(s3 =~= s3 + violation_edges(*cfg, 0));
    for i in 0..cfg.da_on_workstation
        invariant
            cfg.valid(),
            fits(*cfg, *d),
            n == cfg.nodes(),
            list.inv(n),
            list.offered@ == s3 + violation_edges(*cfg, i as nat),
            first == cfg.n_users + cfg.n_groups,
            op == cfg.privileged(),
    {
        list.offer(first + cfg.session_hosts + i, i % op, EdgeKind::HasSession, Ghost(n));
        assert(list.offered@ =~= s3 + violation_edges(*cfg, (i + 1) as nat));
    }
    let ghost s4 = list.offered@;
    assert(s4 =~= s4 + acl_edges(*cfg, *d, 0));
    for i in 0..d.acl.len()
        invariant
            cfg.valid(),
            fits(*cfg, *d),
            n == cfg.nodes(),
            list.inv(n),
            list.offered@ == s4 + acl_edges(*cfg, *d, i as nat),
    {
        let (a, b) = d.acl[i];
        assert(d.acl@[i as int].0 < cfg.n_users + cfg.mesh() && d.acl@[i as int].1 < cfg.mesh());
        list.offer(a, cfg.n_users + b, EdgeKind::GenericAll, Ghost(n));
        assert(list.offered@ =~= s4 + acl_edges(*cfg, *d, (i + 1) as nat));
    }
    assert(list.offered@ =~= s0 + machine_part(*cfg, *d));
}

/// The adjacency lists of an edge list.
pub(crate) fn lists_of(edges: &Vec<Edge>, n: usize, members_only: bool) -> (adj: Vec<
    Vec<usize>,
>)
    requires
        forall|i: int| 0 <= i < edges@.len() ==> (#[trigger] edges@[i]).0 < n,
    ensures
        adj@.len() == n,
        forall|a: int|
            0 <= a < n ==> (#[trigger] adj@[a])@ == ad_graph::targets(
                edges@,
                members_only,
                a as usize,
            ),
{
    let mut adj: Vec<Vec<usize>> = math::empty_lists(n);
    for i in 0..edges.len()
        invariant
            forall|i: int| 0 <= i < edges@.len() ==> (#[trigger] edges@[i]).0 < n,
            adj@.len() == n,
            forall|a: int|
                0 <= a < n ==> (#[trigger] adj@[a])@ == ad_graph::targets(
                    edges@.take(i as int),
                    members_only,
                    a as usize,
                ),
    {
        let (u, v, k) = edges[i];
        assert(edges@[i as int].0 < n);
        assert(edges@.take(i + 1).drop_last() =~= edges@.take(i as int));
        if !members_only || k == EdgeKind::MemberOf {
            adj[u].push(v);
        }
    }
    assert(edges@.take(edges@.len() as int) =~= edges@);
    adj
}

/// Puts the directory together from its draws.
pub fn assemble(cfg: &AdConfig, d: &AdDraws) -> (g: AdGraph)
    requires
        cfg.valid(),
        fits(*cfg, *d),
    ensures
        built(*cfg, *d, g),
{
    let n = cfg.n_users + cfg.n_groups + cfg.n_computers;
    let mesh = cfg.n_groups - ad_graph::RESERVED_GROUPS - cfg.service_groups;
    let mut list = EdgeList::new(Ghost(n as int));
    offer_membership(&mut list, cfg, d, Ghost(n as int));
    offer_choke(&mut list, cfg, d, Ghost(n as int));
    offer_machines(&mut list, cfg, d, Ghost(n as int));
    assert(list.offered@ =~= candidates(*cfg, *d));
    let mut service_group_ids: Vec<usize> = Vec::new();
    for i in 0..cfg.service_groups
        invariant
            cfg.valid(),
            mesh == cfg.mesh(),
            service_group_ids@ == Seq::new(i as nat, |i: int| group(*cfg, cfg.mesh() + i)),
    {
        service_group_ids.push(cfg.n_users + mesh + i);
    }
    let mut violation_hosts: Vec<usize> = Vec::new();
    for i in 0..cfg.da_on_workstation
        invariant
            cfg.valid(),
            violation_hosts@ == Seq::new(i as nat, |i: int| host(*cfg, cfg.session_hosts + i)),
    {
        violation_hosts.push(cfg.n_users + cfg.n_groups + cfg.session_hosts + i);
    }
    let adj = lists_of(&list.edges, n, false);
    let memberof_adj = lists_of(&list.edges, n, true);
    AdGraph {
        n_users: cfg.n_users,
        n_groups: cfg.n_groups,
        n_computers: cfg.n_computers,
        tier_zero: cfg.n_users + cfg.n_groups - 1,
        t0_ops: cfg.n_users + cfg.n_groups - 2,
        helpdesk: cfg.n_users + cfg.n_groups - 3,
        staff: cfg.n_users + cfg.n_groups - 4,
        service_group_ids,
        violation_hosts,
        edges: list.edges,
        adj,
        memberof_adj,
    }
}

/// Builds a random directory. The stream of the generator decides it: equal
/// streams give equal directories.
pub fn ad_instance(rng: &mut ChaCha8Rng, cfg: &AdConfig) -> (g: AdGraph)
    requires
        cfg.valid(),
    ensures
        exists|d: AdDraws| #[trigger]
            drawn(*cfg, d, rng::words(*old(rng)), rng::words(*final(rng))) && fits(*cfg, d)
                && built(*cfg, d, g),
        g.well_formed(),
{
    let d = draw_directory(rng, cfg);
    assemble(cfg, &d)
}

/// A kept edge list has no self loop and at most one edge from any node to
/// any other.
pub proof fn lemma_first_edges_distinct(cands: Seq<Edge>)
    ensures
        forall|i: int|
            0 <= i < first_edges(cands).len() ==> (#[trigger] first_edges(cands)[i]).0
                != first_edges(cands)[i].1,
        forall|i: int, j: int|
            0 <= i < j < first_edges(cands).len() ==> (#[trigger] first_edges(cands)[i]).0 != (
            #[trigger] first_edges(cands)[j]).0 || first_edges(cands)[i].1 != first_edges(
                cands,
            )[j].1,
    decreases cands.len(),
{
    if cands.len() > 0 {
        let before = first_edges(cands.drop_last());
        lemma_first_edges_distinct(cands.drop_last());
        let now = first_edges(cands);
        assert forall|i: int, j: int| 0 <= i < j < now.len() implies (#[trigger] now[i]).0 != (
        #[trigger] now[j]).0 || now[i].1 != now[j].1 by {
            if now.len() > before.len() && j == before.len() {
                assert(before[i] == now[i]);
            } else {
                assert(before[i] == now[i] && before[j] == now[j]);
            }
        }
        assert forall|i: int| 0 <= i < now.len() implies (#[trigger] now[i]).0 != now[i].1 by {
            if i < before.len() {
                assert(before[i] == now[i]);
            }
        }
    }
}

/// Two directories drawn from equal streams have the same edges, groups and
/// hosts.
pub proof fn lemma_directory_determined(
    cfg: AdConfig,
    stream: Map<nat, u32>,
    d1: AdDraws,
    rest1: Map<nat, u32>,
    g1: AdGraph,
    d2: AdDraws,
    rest2: Map<nat, u32>,
    g2: AdGraph,
)
    requires
        drawn(cfg, d1, stream, rest1),
        built(cfg, d1, g1),
        drawn(cfg, d2, stream, rest2),
        built(cfg, d2, g2),
    ensures
        g1.edges@ == g2.edges@,
        g1.service_group_ids@ == g2.service_group_ids@,
        g1.violation_hosts@ == g2.violation_hosts@,
        g1.tier_zero == g2.tier_zero,
        rest1 == rest2,
{
    lemma_joins_determined(cfg, d1, d2, cfg.n_users as nat);
    lemma_staff_determined(cfg, d1, d2, cfg.n_users as nat);
    lemma_service_determined(cfg, d1, d2, cfg.service_groups as nat);
    let m = d1.nesting@.len();
    assert(nesting_edges(cfg, d1, m) =~= nesting_edges(cfg, d2, m));
    assert(admin_edges(cfg, d1, d1.admin@.len()) =~= admin_edges(cfg, d2, d1.admin@.len()));
    assert(acl_edges(cfg, d1, d1.acl@.len()) =~= acl_edges(cfg, d2, d1.acl@.len()));
    assert(membership_part(cfg, d1) == membership_part(cfg, d2));
    assert(choke_part(cfg, d1) == choke_part(cfg, d2));
    assert(machine_part(cfg, d1) == machine_part(cfg, d2));
}

proof fn lemma_joins_determined(cfg: AdConfig, d1: AdDraws, d2: AdDraws, k: nat)
    requires
        forall|u: int| 0 <= u < k ==> (#[trigger] d1.joins@[u])@ == d2.joins@[u]@,
    ensures
        all_join_edges(cfg, d1, k) == all_join_edges(cfg, d2, k),
    decreases k,
{
    if k > 0 {
        lemma_joins_determined(cfg, d1, d2, (k - 1) as nat);
        assert(d1.joins@[k - 1]@ == d2.joins@[k - 1]@);
        assert(join_edges(cfg, d1, k - 1, d1.joins@[k - 1]@.len()) =~= join_edges(
            cfg,
            d2,
            k - 1,
            d2.joins@[k - 1]@.len(),
        ));
    }
}

proof fn lemma_staff_determined(cfg: AdConfig, d1: AdDraws, d2: AdDraws, k: nat)
    requires
        d1.staff@ == d2.staff@,
    ensures
        staff_edges(cfg, d1, k) == staff_edges(cfg, d2, k),
    decreases k,
{
    if k > 0 {
        lemma_staff_determined(cfg, d1, d2, (k - 1) as nat);
    }
}

proof fn lemma_service_determined(cfg: AdConfig, d1: AdDraws, d2: AdDraws, k: nat)
    requires
        forall|u: int| 0 <= u < k ==> (#[trigger] d1.service@[u])@ == d2.service@[u]@,
    ensures
        service_edges(cfg, d1, k) == service_edges(cfg, d2, k),
    decreases k,
{
    if k > 0 {
        lemma_service_determined(cfg, d1, d2, (k - 1) as nat);
        assert(d1.service@[k - 1]@ == d2.service@[k - 1]@);
        assert(service_members(cfg, d1, k - 1, d1.service@[k - 1]@.len()) =~= service_members(
            cfg,
            d2,
            k - 1,
            d2.service@[k - 1]@.len(),
        ));
    }
}

} // verus!
