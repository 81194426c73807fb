//! Which edges a random directory has, and which it cannot have.

use crate::attack::ad_graph;
use crate::attack::ad_graph::{AdConfig, AdGraph, Edge, EdgeKind};
use crate::attack::ad_instance;
use crate::attack::ad_instance::AdDraws;
use vstd::prelude::*;

verus! {

/// The edge is one that a directory of this configuration can have: memberships
/// lead into groups and up, local admins are groups, tokens lie on machines, and
/// only ordinary groups can be rewritten. Tier zero is entered by its members and
/// by the group nested into it, that one by its members, and `helpdesk` by `staff`.
/// Session hosts are administered by `helpdesk` and the service groups and hold
/// tokens of operators; ordinary hosts hold those of the others, but for the
/// violations.
pub open spec fn is_possible(cfg: AdConfig, e: Edge) -> bool {
    let (a, b) = (e.0 as int, e.1 as int);
    let users = cfg.n_users as int;
    let hosts = users + cfg.n_groups;
    let servers = hosts + cfg.session_hosts;
    let band = hosts - 4 - cfg.service_groups;
    let operators = if cfg.privileged_users < 1 {
        1
    } else if cfg.privileged_users > users {
        users
    } else {
        cfg.privileged_users as int
    };
    match e.2 {
        EdgeKind::MemberOf => {
            &&& users <= b < hosts
            &&& 0 <= a < hosts
            &&& a >= users ==> a < b
            &&& b == hosts - 1 ==> a < cfg.tier_zero_members || a == hosts - 2
            &&& b == hosts - 2 ==> cfg.tier_zero_members <= a < cfg.tier_zero_members
                + cfg.t0_ops_members
            &&& b == hosts - 3 ==> a == hosts - 4
            &&& b >= band ==> a < users || a == hosts - 4 || a == hosts - 2
        },
        EdgeKind::AdminTo => {
            &&& users <= a < hosts
            &&& hosts <= b < hosts + cfg.n_computers
            &&& b < servers ==> a == hosts - 3 || band <= a < hosts - 4
            &&& b >= servers ==> a < band
        },
        EdgeKind::HasSession => {
            &&& hosts <= a < hosts + cfg.n_computers
            &&& 0 <= b < users
            &&& a < servers ==> b < operators
            &&& a >= servers + cfg.da_on_workstation ==> b >= operators
        },
        EdgeKind::GenericAll => {
            &&& 0 <= a < band
            &&& users <= b < band
        },
    }
}

/// There are users and session hosts, and the members of tier zero are users.
pub open spec fn is_sensible(cfg: AdConfig) -> bool {
    &&& cfg.n_users > 0
    &&& cfg.session_hosts > 0
    &&& cfg.tier_zero_members + cfg.t0_ops_members <= cfg.n_users
}

spec fn all_possible(cfg: AdConfig, edges: Seq<Edge>) -> bool {
    forall|i: int| 0 <= i < edges.len() ==> is_possible(cfg, #[trigger] edges[i])
}

proof fn lemma_both(cfg: AdConfig, a: Seq<Edge>, b: Seq<Edge>)
    requires
        all_possible(cfg, a),
        all_possible(cfg, b),
    ensures
        all_possible(cfg, a + b),
{
    let c = a + b;
    assert forall|i: int| 0 <= i < c.len() implies is_possible(cfg, #[trigger] c[i]) by {
        if i < a.len() {
            assert(c[i] == a[i]);
        } else {
            assert(c[i] == b[i - a.len()]);
        }
    }
}

proof fn lemma_one_more(cfg: AdConfig, a: Seq<Edge>, e: Edge)
    requires
        all_possible(cfg, a),
        is_possible(cfg, e),
    ensures
        all_possible(cfg, a.push(e)),
{
    let c = a.push(e);
    assert forall|i: int| 0 <= i < c.len() implies is_possible(cfg, #[trigger] c[i]) by {
        if i < a.len() {
            assert(c[i] == a[i]);
        }
    }
}

proof fn lemma_joins(cfg: AdConfig, d: AdDraws, k: nat)
    requires
        cfg.valid(),
        is_sensible(cfg),
        ad_instance::fits(cfg, d),
        k <= cfg.n_users,
    ensures
        all_possible(cfg, ad_instance::all_join_edges(cfg, d, k)),
    decreases k,
{
    if k > 0 {
        lemma_joins(cfg, d, (k - 1) as nat);
        let row = ad_instance::join_edges(cfg, d, k - 1, d.joins@[k - 1]@.len());
        assert forall|j: int| 0 <= j < row.len() implies is_possible(cfg, #[trigger] row[j]) by {
            assert(d.joins@[k - 1]@[j] < cfg.mesh());
        }
        lemma_both(cfg, ad_instance::all_join_edges(cfg, d, (k - 1) as nat), row);
    }
}

proof fn lemma_staff(cfg: AdConfig, d: AdDraws, k: nat)
    requires
        cfg.valid(),
        is_sensible(cfg),
        k <= cfg.n_users,
    ensures
        all_possible(cfg, ad_instance::staff_edges(cfg, d, k)),
    decreases k,
{
    if k > 0 {
        lemma_staff(cfg, d, (k - 1) as nat);
        let e: Edge = ((k - 1) as usize, ad_instance::top_group(cfg, 4), EdgeKind::MemberOf);
        lemma_one_more(cfg, ad_instance::staff_edges(cfg, d, (k - 1) as nat), e);
    }
}

proof fn lemma_service(cfg: AdConfig, d: AdDraws, k: nat)
    requires
        cfg.valid(),
        is_sensible(cfg),
        ad_instance::fits(cfg, d),
        k <= cfg.service_groups,
    ensures
        all_possible(cfg, ad_instance::service_edges(cfg, d, k)),
    decreases k,
{
    if k > 0 {
        lemma_service(cfg, d, (k - 1) as nat);
        let before = ad_instance::service_edges(cfg, d, (k - 1) as nat);
        let (i, m) = (k - 1, cfg.session_hosts as int);
        assert(0 <= i % m < m);
        let e: Edge = (
            ad_instance::group(cfg, cfg.mesh() + i),
            ad_instance::service_host(cfg, i),
            EdgeKind::AdminTo,
        );
        lemma_one_more(cfg, before, e);
        let row = ad_instance::service_members(cfg, d, i, d.service@[i]@.len());
        assert forall|j: int| 0 <= j < row.len() implies is_possible(cfg, #[trigger] row[j]) by {
            assert(d.service@[i]@[j] < cfg.n_users);
        }
        lemma_both(cfg, before.push(e), row);
    }
}

proof fn lemma_membership(cfg: AdConfig, d: AdDraws)
    requires
        cfg.valid(),
        is_sensible(cfg),
        ad_instance::fits(cfg, d),
    ensures
        all_possible(cfg, without_loops(ad_instance::membership_part(cfg, d))),
{
    let n = d.nesting@.len();
    let nest = ad_instance::nesting_edges(cfg, d, n);
    let joins = ad_instance::all_join_edges(cfg, d, cfg.n_users as nat);
    let zero = ad_instance::tier_zero_edges(cfg, cfg.tier_zero_members as nat);
    let e: Edge = (
        ad_instance::top_group(cfg, 2),
        ad_instance::top_group(cfg, 1),
        EdgeKind::MemberOf,
    );
    let ops = ad_instance::t0_ops_edges(cfg, cfg.t0_ops_members as nat);
    lemma_joins(cfg, d, cfg.n_users as nat);
    let all = ad_instance::membership_part(cfg, d);
    assert(all =~= nest + (joins + zero + seq![e] + ops));
    assert(all_possible(cfg, seq![e]));
    lemma_both(cfg, joins, zero);
    lemma_both(cfg, joins + zero, seq![e]);
    lemma_both(cfg, joins + zero + seq![e], ops);
    let rest = joins + zero + seq![e] + ops;
    assert forall|i: int| 0 <= i < nest.len() && nest[i].0 != nest[i].1 implies is_possible(
        cfg,
        #[trigger] nest[i],
    ) by {
        assert(d.nesting@[i].0 < cfg.mesh() && d.nesting@[i].1 < cfg.mesh());
    }
    let kept = without_loops(all);
    assert forall|i: int| 0 <= i < kept.len() implies is_possible(cfg, #[trigger] kept[i]) by {
        lemma_without_loops(all, i);
        let j = choose|j: int| 0 <= j < all.len() && #[trigger] all[j] == kept[i];
        if j < nest.len() {
            assert(all[j] == nest[j]);
        } else {
            assert(all[j] == rest[j - nest.len()]);
        }
    }
}

/// The edges that lead from one node to another.
spec fn without_loops(edges: Seq<Edge>) -> Seq<Edge>
    decreases edges.len(),
{
    if edges.len() == 0 {
        edges
    } else if edges.last().0 == edges.last().1 {
        without_loops(edges.drop_last())
    } else {
        without_loops(edges.drop_last()).push(edges.last())
    }
}

proof fn lemma_without_loops(edges: Seq<Edge>, i: int)
    requires
        0 <= i < without_loops(edges).len(),
    ensures
        without_loops(edges)[i].0 != without_loops(edges)[i].1,
        exists|j: int| 0 <= j < edges.len() && #[trigger] edges[j] == without_loops(edges)[i],
    decreases edges.len(),
{
    let short = edges.drop_last();
    if i < without_loops(short).len() {
        lemma_without_loops(short, i);
        let j = choose|j: int| 0 <= j < short.len() && #[trigger] short[j] == without_loops(short)[i];
        assert(edges[j] == short[j]);
    } else {
        assert(edges[edges.len() - 1] == edges.last());
    }
}

proof fn lemma_choke(cfg: AdConfig, d: AdDraws)
    requires
        cfg.valid(),
        is_sensible(cfg),
        ad_instance::fits(cfg, d),
    ensures
        all_possible(cfg, ad_instance::choke_part(cfg, d)),
{
    let e: Edge = (
        ad_instance::top_group(cfg, 4),
        ad_instance::top_group(cfg, 3),
        EdgeKind::MemberOf,
    );
    let help = ad_instance::helpdesk_edges(cfg, cfg.session_hosts as nat);
    let staff = ad_instance::staff_edges(cfg, d, cfg.n_users as nat);
    let service = ad_instance::service_edges(cfg, d, cfg.service_groups as nat);
    lemma_staff(cfg, d, cfg.n_users as nat);
    lemma_service(cfg, d, cfg.service_groups as nat);
    assert(all_possible(cfg, seq![e]));
    assert(all_possible(cfg, help));
    lemma_both(cfg, seq![e], help);
    lemma_both(cfg, seq![e] + help, staff);
    lemma_both(cfg, seq![e] + help + staff, service);
}

proof fn lemma_machines(cfg: AdConfig, d: AdDraws)
    requires
        cfg.valid(),
        is_sensible(cfg),
        ad_instance::fits(cfg, d),
    ensures
        all_possible(cfg, ad_instance::machine_part(cfg, d)),
{
    let admin = ad_instance::admin_edges(cfg, d, d.admin@.len());
    let privileged = ad_instance::session_edges(cfg, d.privileged@, d.privileged@.len());
    let ordinary = ad_instance::session_edges(cfg, d.ordinary@, d.ordinary@.len());
    let violations = ad_instance::violation_edges(cfg, cfg.da_on_workstation as nat);
    let acl = ad_instance::acl_edges(cfg, d, d.acl@.len());
    assert forall|i: int| 0 <= i < admin.len() implies is_possible(cfg, #[trigger] admin[i]) by {
        assert(d.admin@[i].0 < cfg.mesh());
    }
    assert forall|i: int| 0 <= i < privileged.len() implies is_possible(
        cfg,
        #[trigger] privileged[i],
    ) by {
        assert(d.privileged@[i].0 < cfg.session_hosts);
    }
    assert forall|i: int| 0 <= i < ordinary.len() implies is_possible(
        cfg,
        #[trigger] ordinary[i],
    ) by {
        assert(d.ordinary@[i].0 < cfg.n_computers);
    }
    assert forall|i: int| 0 <= i < violations.len() implies is_possible(
        cfg,
        #[trigger] violations[i],
    ) by {
        let p = cfg.privileged();
        assert(0 <= i % p < p);
    }
    assert forall|i: int| 0 <= i < acl.len() implies is_possible(cfg, #[trigger] acl[i]) by {
        assert(d.acl@[i].1 < cfg.mesh());
    }
    lemma_both(cfg, admin, privileged);
    lemma_both(cfg, admin + privileged, ordinary);
    lemma_both(cfg, admin + privileged + ordinary, violations);
    lemma_both(cfg, admin + privileged + ordinary + violations, acl);
}

/// What is kept of the candidates is among them, and joins what they join.
proof fn lemma_kept(cands: Seq<Edge>, i: int)
    requires
        0 <= i < ad_instance::first_edges(cands).len(),
    ensures
        ad_instance::first_edges(cands)[i].0 != ad_instance::first_edges(cands)[i].1,
        exists|j: int|
            0 <= j < cands.len() && #[trigger] cands[j] == ad_instance::first_edges(cands)[i],
    decreases cands.len(),
{
    let short = cands.drop_last();
    let before = ad_instance::first_edges(short);
    if i < before.len() {
        lemma_kept(short, i);
        let j = choose|j: int| 0 <= j < short.len() && #[trigger] short[j] == before[i];
        assert(cands[j] == short[j]);
    } else {
        assert(cands[cands.len() - 1] == cands.last());
    }
}

/// A directory has no edge but possible ones.
pub proof fn lemma_only_possible_edges(cfg: AdConfig, d: AdDraws, g: AdGraph, i: int)
    requires
        cfg.valid(),
        is_sensible(cfg),
        ad_instance::fits(cfg, d),
        ad_instance::built(cfg, d, g),
        0 <= i < g.edges@.len(),
    ensures
        is_possible(cfg, g.edges@[i]),
{
    let a = ad_instance::membership_part(cfg, d);
    let b = ad_instance::choke_part(cfg, d);
    let c = ad_instance::machine_part(cfg, d);
    let all = ad_instance::candidates(cfg, d);
    lemma_membership(cfg, d);
    lemma_choke(cfg, d);
    lemma_machines(cfg, d);
    lemma_kept(all, i);
    let j = choose|j: int| 0 <= j < all.len() && #[trigger] all[j] == g.edges@[i];
    if j < a.len() {
        assert(all[j] == a[j]);
        lemma_no_loop_is_kept(a, j);
        let kept = without_loops(a);
        let k = choose|k: int| 0 <= k < kept.len() && #[trigger] kept[k] == a[j];
        assert(is_possible(cfg, kept[k]));
    } else if j < a.len() + b.len() {
        assert(all[j] == b[j - a.len()]);
    } else {
        assert(all[j] == c[j - a.len() - b.len()]);
    }
}

proof fn lemma_no_loop_is_kept(edges: Seq<Edge>, j: int)
    requires
        0 <= j < edges.len(),
        edges[j].0 != edges[j].1,
    ensures
        exists|k: int|
            0 <= k < without_loops(edges).len() && #[trigger] without_loops(edges)[k] == edges[j],
    decreases edges.len(),
{
    let short = edges.drop_last();
    let (now, before) = (without_loops(edges), without_loops(short));
    if j < edges.len() - 1 {
        assert(short[j] == edges[j]);
        lemma_no_loop_is_kept(short, j);
        let k = choose|k: int| 0 <= k < before.len() && #[trigger] before[k] == short[j];
        assert(now[k] == before[k]);
    } else {
        assert(now[now.len() - 1] == edges[j]);
    }
}

proof fn lemma_joins_stay(cands: Seq<Edge>, a: usize, b: usize)
    requires
        ad_graph::joined(cands, a, b),
        a != b,
    ensures
        ad_graph::joined(ad_instance::first_edges(cands), a, b),
    decreases cands.len(),
{
    let short = cands.drop_last();
    let (now, before) = (ad_instance::first_edges(cands), ad_instance::first_edges(short));
    let i = choose|i: int| 0 <= i < cands.len() && (#[trigger] cands[i]).0 == a && cands[i].1 == b;
    if i < cands.len() - 1 {
        assert(short[i] == cands[i]);
        lemma_joins_stay(short, a, b);
        let k = choose|k: int|
            0 <= k < before.len() && (#[trigger] before[k]).0 == a && before[k].1 == b;
        assert(now[k] == before[k]);
    } else if !ad_graph::joined(before, a, b) {
        assert(now[now.len() - 1] == cands.last());
    }
}

proof fn lemma_joins_concat(a: Seq<Edge>, b: Seq<Edge>, x: usize, y: usize)
    ensures
        ad_graph::joined(a, x, y) ==> ad_graph::joined(a + b, x, y),
        ad_graph::joined(b, x, y) ==> ad_graph::joined(a + b, x, y),
{
    if ad_graph::joined(a, x, y) {
        let i = choose|i: int| 0 <= i < a.len() && (#[trigger] a[i]).0 == x && a[i].1 == y;
        assert((a + b)[i] == a[i]);
    }
    if ad_graph::joined(b, x, y) {
        let i = choose|i: int| 0 <= i < b.len() && (#[trigger] b[i]).0 == x && b[i].1 == y;
        assert((a + b)[a.len() + i] == b[i]);
    }
}

proof fn lemma_staff_joins(cfg: AdConfig, d: AdDraws, k: nat, u: int)
    requires
        0 <= u < k,
        d.staff@[u],
    ensures
        ad_graph::joined(
            ad_instance::staff_edges(cfg, d, k),
            u as usize,
            ad_instance::top_group(cfg, 4),
        ),
    decreases k,
{
    let now = ad_instance::staff_edges(cfg, d, k);
    let before = ad_instance::staff_edges(cfg, d, (k - 1) as nat);
    let t = ad_instance::top_group(cfg, 4);
    if u < k - 1 {
        lemma_staff_joins(cfg, d, (k - 1) as nat, u);
        let i = choose|i: int|
            0 <= i < before.len() && (#[trigger] before[i]).0 == u as usize && before[i].1 == t;
        assert(now[i] == before[i]);
    } else {
        assert(now[now.len() - 1].0 == u as usize);
    }
}

proof fn lemma_service_joins(cfg: AdConfig, d: AdDraws, k: nat, i: int)
    requires
        0 <= i < k,
    ensures
        ad_graph::joined(
            ad_instance::service_edges(cfg, d, k),
            ad_instance::group(cfg, cfg.mesh() + i),
            ad_instance::service_host(cfg, i),
        ),
        forall|j: int|
            0 <= j < d.service@[i]@.len() ==> ad_graph::joined(
                ad_instance::service_edges(cfg, d, k),
                #[trigger] d.service@[i]@[j],
                ad_instance::group(cfg, cfg.mesh() + i),
            ),
    decreases k,
{
    let now = ad_instance::service_edges(cfg, d, k);
    let before = ad_instance::service_edges(cfg, d, (k - 1) as nat);
    let e: Edge = (
        ad_instance::group(cfg, cfg.mesh() + k - 1),
        ad_instance::service_host(cfg, k - 1),
        EdgeKind::AdminTo,
    );
    let row = ad_instance::service_members(cfg, d, k - 1, d.service@[k - 1]@.len());
    let (x, y) = (ad_instance::group(cfg, cfg.mesh() + i), ad_instance::service_host(cfg, i));
    assert(now =~= before + (seq![e] + row));
    if i < k - 1 {
        lemma_service_joins(cfg, d, (k - 1) as nat, i);
        lemma_joins_concat(before, seq![e] + row, x, y);
    } else {
        assert((seq![e] + row)[0] == e);
        lemma_joins_concat(before, seq![e] + row, x, y);
    }
    assert forall|j: int| 0 <= j < d.service@[i]@.len() implies ad_graph::joined(
        now,
        #[trigger] d.service@[i]@[j],
        x,
    ) by {
        let m = d.service@[i]@[j];
        if i == k - 1 {
            assert((seq![e] + row)[1 + j] == row[j]);
        }
        lemma_joins_concat(before, seq![e] + row, m, x);
    }
}

/// An edge leads from the group to some session host.
pub open spec fn administers_a_server(cfg: AdConfig, edges: Seq<Edge>, x: usize) -> bool {
    let hosts = cfg.n_users + cfg.n_groups;
    exists|h: usize|
        hosts <= h < hosts + cfg.session_hosts && #[trigger] ad_graph::joined(edges, x, h)
}

/// The planted structure is there: `staff` is nested into `helpdesk`, `helpdesk` is
/// local admin on every session host, every user drawn for `staff` is in it, every
/// service group is local admin on a session host, and its members are in it.
pub proof fn lemma_choke_structure(cfg: AdConfig, d: AdDraws, g: AdGraph)
    requires
        cfg.valid(),
        is_sensible(cfg),
        ad_instance::fits(cfg, d),
        ad_instance::built(cfg, d, g),
    ensures
        g.staff == cfg.n_users + cfg.n_groups - 4,
        g.helpdesk == cfg.n_users + cfg.n_groups - 3,
        ad_graph::joined(g.edges@, g.staff, g.helpdesk),
        forall|h: usize|
            cfg.n_users + cfg.n_groups <= h < cfg.n_users + cfg.n_groups + cfg.session_hosts
                ==> #[trigger] ad_graph::joined(g.edges@, g.helpdesk, h),
        forall|u: usize|
            u < cfg.n_users && d.staff@[u as int] ==> #[trigger] ad_graph::joined(
                g.edges@,
                u,
                g.staff,
            ),
        forall|i: int, j: int|
            0 <= i < cfg.service_groups && 0 <= j < d.service@[i]@.len() ==> ad_graph::joined(
                g.edges@,
                #[trigger] d.service@[i]@[j],
                g.service_group_ids@[i],
            ),
        forall|i: int|
            0 <= i < cfg.service_groups ==> administers_a_server(
                cfg,
                g.edges@,
                #[trigger] g.service_group_ids@[i],
            ),
{
    let a = ad_instance::membership_part(cfg, d);
    let c = ad_instance::machine_part(cfg, d);
    let all = ad_instance::candidates(cfg, d);
    let e: Edge = (g.staff, g.helpdesk, EdgeKind::MemberOf);
    let help = ad_instance::helpdesk_edges(cfg, cfg.session_hosts as nat);
    let staff = ad_instance::staff_edges(cfg, d, cfg.n_users as nat);
    let service = ad_instance::service_edges(cfg, d, cfg.service_groups as nat);
    assert(all =~= (a + seq![e]) + (help + (staff + (service + c))));
    assert((a + seq![e])[a.len() as int] == e);
    lemma_joins_concat(a + seq![e], help + (staff + (service + c)), g.staff, g.helpdesk);
    lemma_joins_stay(all, g.staff, g.helpdesk);
    let hosts = cfg.n_users + cfg.n_groups;
    assert forall|h: usize| hosts <= h < hosts + cfg.session_hosts implies
        #[trigger] ad_graph::joined(g.edges@, g.helpdesk, h) by {
        assert(help[h - hosts].0 == g.helpdesk && help[h - hosts].1 == h);
        lemma_joins_concat(help, staff + (service + c), g.helpdesk, h);
        lemma_joins_concat(a + seq![e], help + (staff + (service + c)), g.helpdesk, h);
        lemma_joins_stay(all, g.helpdesk, h);
    }
    assert forall|u: usize| u < cfg.n_users && d.staff@[u as int] implies
        #[trigger] ad_graph::joined(g.edges@, u, g.staff) by {
        lemma_staff_joins(cfg, d, cfg.n_users as nat, u as int);
        lemma_joins_concat(staff, service + c, u, g.staff);
        lemma_joins_concat(help, staff + (service + c), u, g.staff);
        lemma_joins_concat(a + seq![e], help + (staff + (service + c)), u, g.staff);
        lemma_joins_stay(all, u, g.staff);
    }
    assert forall|i: int, j: int| 0 <= i < cfg.service_groups && 0 <= j < d.service@[i]@.len()
        implies ad_graph::joined(
        g.edges@,
        #[trigger] d.service@[i]@[j],
        g.service_group_ids@[i],
    ) by {
        let (m, x) = (d.service@[i]@[j], g.service_group_ids@[i]);
        lemma_service_joins(cfg, d, cfg.service_groups as nat, i);
        lemma_service_to_graph(cfg, d, g, m, x);
    }
    assert forall|i: int| 0 <= i < cfg.service_groups implies administers_a_server(
        cfg,
        g.edges@,
        #[trigger] g.service_group_ids@[i],
    ) by {
        let (x, y) = (g.service_group_ids@[i], ad_instance::service_host(cfg, i));
        let m = cfg.session_hosts as int;
        assert(0 <= i % m < m);
        lemma_service_joins(cfg, d, cfg.service_groups as nat, i);
        lemma_service_to_graph(cfg, d, g, x, y);
    }
}

proof fn lemma_service_to_graph(cfg: AdConfig, d: AdDraws, g: AdGraph, x: usize, y: usize)
    requires
        ad_instance::built(cfg, d, g),
        x != y,
        ad_graph::joined(ad_instance::service_edges(cfg, d, cfg.service_groups as nat), x, y),
    ensures
        ad_graph::joined(g.edges@, x, y),
{
    let a = ad_instance::membership_part(cfg, d);
    let c = ad_instance::machine_part(cfg, d);
    let all = ad_instance::candidates(cfg, d);
    let e: Edge = (
        ad_instance::top_group(cfg, 4),
        ad_instance::top_group(cfg, 3),
        EdgeKind::MemberOf,
    );
    let help = ad_instance::helpdesk_edges(cfg, cfg.session_hosts as nat);
    let staff = ad_instance::staff_edges(cfg, d, cfg.n_users as nat);
    let service = ad_instance::service_edges(cfg, d, cfg.service_groups as nat);
    assert(all =~= (a + seq![e] + help + staff) + (service + c));
    lemma_joins_concat(service, c, x, y);
    lemma_joins_concat(a + seq![e] + help + staff, service + c, x, y);
    lemma_joins_stay(all, x, y);
}

/// The other memberships and the machines are there too: those of tier zero and of
/// the group nested into it, and for every draw of a local admin, of a token and of
/// a group to rewrite an edge.
pub proof fn lemma_drawn_edges(cfg: AdConfig, d: AdDraws, g: AdGraph, i: int)
    requires
        cfg.valid(),
        is_sensible(cfg),
        ad_instance::fits(cfg, d),
        ad_instance::built(cfg, d, g),
        i >= 0,
    ensures
        ({
            let (users, hosts) = (cfg.n_users as int, cfg.n_users + cfg.n_groups);
            &&& g.tier_zero == hosts - 1
            &&& g.t0_ops == hosts - 2
            &&& ad_graph::joined(g.edges@, g.t0_ops, g.tier_zero)
            &&& i < cfg.tier_zero_members ==> ad_graph::joined(g.edges@, i as usize, g.tier_zero)
            &&& i < cfg.t0_ops_members ==> ad_graph::joined(
                g.edges@,
                (cfg.tier_zero_members + i) as usize,
                g.t0_ops,
            )
            &&& i < d.admin@.len() ==> ad_graph::joined(
                g.edges@,
                (users + d.admin@[i].0) as usize,
                (hosts + d.admin@[i].1) as usize,
            )
            &&& i < d.privileged@.len() ==> ad_graph::joined(
                g.edges@,
                (hosts + d.privileged@[i].0) as usize,
                d.privileged@[i].1,
            )
            &&& i < d.ordinary@.len() ==> ad_graph::joined(
                g.edges@,
                (hosts + d.ordinary@[i].0) as usize,
                d.ordinary@[i].1,
            )
            &&& i < d.acl@.len() && d.acl@[i].0 != users + d.acl@[i].1 ==> ad_graph::joined(
                g.edges@,
                d.acl@[i].0,
                (users + d.acl@[i].1) as usize,
            )
            &&& i < cfg.da_on_workstation ==> exists|u: usize|
                u < users && (cfg.privileged_users > 1 ==> u < cfg.privileged_users)
                    && #[trigger] ad_graph::joined(
                    g.edges@,
                    (hosts + cfg.session_hosts + i) as usize,
                    u,
                )
        }),
{
    let (users, hosts) = (cfg.n_users as int, cfg.n_users + cfg.n_groups);
    let e: Edge = (g.t0_ops, g.tier_zero, EdgeKind::MemberOf);
    let zero = ad_instance::tier_zero_edges(cfg, cfg.tier_zero_members as nat);
    let ops = ad_instance::t0_ops_edges(cfg, cfg.t0_ops_members as nat);
    let admin = ad_instance::admin_edges(cfg, d, d.admin@.len());
    let privileged = ad_instance::session_edges(cfg, d.privileged@, d.privileged@.len());
    let ordinary = ad_instance::session_edges(cfg, d.ordinary@, d.ordinary@.len());
    let violations = ad_instance::violation_edges(cfg, cfg.da_on_workstation as nat);
    let acl = ad_instance::acl_edges(cfg, d, d.acl@.len());
    assert(seq![e][0] == e);
    lemma_member_joins(cfg, d, g, g.t0_ops, g.tier_zero);
    if i < cfg.tier_zero_members {
        assert(zero[i].0 == i as usize);
        lemma_member_joins(cfg, d, g, i as usize, g.tier_zero);
    }
    if i < cfg.t0_ops_members {
        assert(ops[i].0 == (cfg.tier_zero_members + i) as usize);
        lemma_member_joins(cfg, d, g, ops[i].0, g.t0_ops);
    }
    if i < d.admin@.len() {
        assert(d.admin@[i].0 < cfg.mesh());
        lemma_machine_joins(cfg, d, g, admin[i].0, admin[i].1);
    }
    if i < d.privileged@.len() {
        assert(d.privileged@[i].0 < cfg.session_hosts);
        lemma_machine_joins(cfg, d, g, privileged[i].0, privileged[i].1);
    }
    if i < d.ordinary@.len() {
        assert(d.ordinary@[i].0 < cfg.n_computers);
        lemma_machine_joins(cfg, d, g, ordinary[i].0, ordinary[i].1);
    }
    if i < cfg.da_on_workstation {
        let p = cfg.privileged();
        assert(0 <= i % p < p);
        lemma_machine_joins(cfg, d, g, violations[i].0, violations[i].1);
        assert(ad_graph::joined(
            g.edges@,
            (hosts + cfg.session_hosts + i) as usize,
            violations[i].1,
        ));
    }
    if i < d.acl@.len() && d.acl@[i].0 != users + d.acl@[i].1 {
        assert(d.acl@[i].1 < cfg.mesh());
        lemma_machine_joins(cfg, d, g, acl[i].0, acl[i].1);
    }
}

proof fn lemma_member_joins(cfg: AdConfig, d: AdDraws, g: AdGraph, x: usize, y: usize)
    requires
        ad_instance::built(cfg, d, g),
        x != y,
        ({
            let e: Edge = (g.t0_ops, g.tier_zero, EdgeKind::MemberOf);
            ||| ad_graph::joined(
                ad_instance::tier_zero_edges(cfg, cfg.tier_zero_members as nat),
                x,
                y,
            )
            ||| ad_graph::joined(seq![e], x, y)
            ||| ad_graph::joined(ad_instance::t0_ops_edges(cfg, cfg.t0_ops_members as nat), x, y)
        }),
    ensures
        ad_graph::joined(g.edges@, x, y),
{
    let nest = ad_instance::nesting_edges(cfg, d, d.nesting@.len());
    let joins = ad_instance::all_join_edges(cfg, d, cfg.n_users as nat);
    let zero = ad_instance::tier_zero_edges(cfg, cfg.tier_zero_members as nat);
    let e: Edge = (g.t0_ops, g.tier_zero, EdgeKind::MemberOf);
    let ops = ad_instance::t0_ops_edges(cfg, cfg.t0_ops_members as nat);
    let members = ad_instance::membership_part(cfg, d);
    let choke = ad_instance::choke_part(cfg, d);
    let machines = ad_instance::machine_part(cfg, d);
    assert(members =~= (nest + joins) + (zero + (seq![e] + ops)));
    lemma_joins_concat(seq![e], ops, x, y);
    lemma_joins_concat(zero, seq![e] + ops, x, y);
    lemma_joins_concat(nest + joins, zero + (seq![e] + ops), x, y);
    lemma_joins_concat(members, choke, x, y);
    lemma_joins_concat(members + choke, machines, x, y);
    lemma_joins_stay(ad_instance::candidates(cfg, d), x, y);
}

proof fn lemma_machine_joins(cfg: AdConfig, d: AdDraws, g: AdGraph, x: usize, y: usize)
    requires
        ad_instance::built(cfg, d, g),
        x != y,
        ({
            ||| ad_graph::joined(ad_instance::admin_edges(cfg, d, d.admin@.len()), x, y)
            ||| ad_graph::joined(
                ad_instance::session_edges(cfg, d.privileged@, d.privileged@.len()),
                x,
                y,
            )
            ||| ad_graph::joined(
                ad_instance::session_edges(cfg, d.ordinary@, d.ordinary@.len()),
                x,
                y,
            )
            ||| ad_graph::joined(
                ad_instance::violation_edges(cfg, cfg.da_on_workstation as nat),
                x,
                y,
            )
            ||| ad_graph::joined(ad_instance::acl_edges(cfg, d, d.acl@.len()), x, y)
        }),
    ensures
        ad_graph::joined(g.edges@, x, y),
{
    let admin = ad_instance::admin_edges(cfg, d, d.admin@.len());
    let privileged = ad_instance::session_edges(cfg, d.privileged@, d.privileged@.len());
    let ordinary = ad_instance::session_edges(cfg, d.ordinary@, d.ordinary@.len());
    let violations = ad_instance::violation_edges(cfg, cfg.da_on_workstation as nat);
    let acl = ad_instance::acl_edges(cfg, d, d.acl@.len());
    lemma_joins_concat(admin, privileged, x, y);
    lemma_joins_concat(admin + privileged, ordinary, x, y);
    lemma_joins_concat(admin + privileged + ordinary, violations, x, y);
    lemma_joins_concat(admin + privileged + ordinary + violations, acl, x, y);
    lemma_joins_concat(
        ad_instance::membership_part(cfg, d) + ad_instance::choke_part(cfg, d),
        ad_instance::machine_part(cfg, d),
        x,
        y,
    );
    lemma_joins_stay(ad_instance::candidates(cfg, d), x, y);
}

proof fn lemma_user_joins(cfg: AdConfig, d: AdDraws, k: nat, u: int, j: int)
    requires
        0 <= u < k,
        0 <= j < d.joins@[u]@.len(),
    ensures
        ad_graph::joined(
            ad_instance::all_join_edges(cfg, d, k),
            u as usize,
            ad_instance::group(cfg, d.joins@[u]@[j] as int),
        ),
    decreases k,
{
    let y = ad_instance::group(cfg, d.joins@[u]@[j] as int);
    let before = ad_instance::all_join_edges(cfg, d, (k - 1) as nat);
    let row = ad_instance::join_edges(cfg, d, k - 1, d.joins@[k - 1]@.len());
    if u < k - 1 {
        lemma_user_joins(cfg, d, (k - 1) as nat, u, j);
    } else {
        assert(row[j].0 == u as usize && row[j].1 == y);
    }
    lemma_joins_concat(before, row, u as usize, y);
}

/// The mesh is there: every user is in the groups drawn for them, and of two groups
/// drawn for nesting the lower is in the higher.
pub proof fn lemma_mesh(cfg: AdConfig, d: AdDraws, g: AdGraph, u: int, i: int)
    requires
        cfg.valid(),
        is_sensible(cfg),
        ad_instance::fits(cfg, d),
        ad_instance::built(cfg, d, g),
        i >= 0,
    ensures
        0 <= u < cfg.n_users && i < d.joins@[u]@.len() ==> ad_graph::joined(
            g.edges@,
            u as usize,
            (cfg.n_users + d.joins@[u]@[i]) as usize,
        ),
        i < d.nesting@.len() && d.nesting@[i].0 < d.nesting@[i].1 ==> ad_graph::joined(
            g.edges@,
            (cfg.n_users + d.nesting@[i].0) as usize,
            (cfg.n_users + d.nesting@[i].1) as usize,
        ),
        i < d.nesting@.len() && d.nesting@[i].1 < d.nesting@[i].0 ==> ad_graph::joined(
            g.edges@,
            (cfg.n_users + d.nesting@[i].1) as usize,
            (cfg.n_users + d.nesting@[i].0) as usize,
        ),
{
    if 0 <= u < cfg.n_users && i < d.joins@[u]@.len() {
        assert(d.joins@[u]@[i] < cfg.mesh());
        lemma_user_joins(cfg, d, cfg.n_users as nat, u, i);
        lemma_mesh_joins(cfg, d, g, u as usize, ad_instance::group(cfg, d.joins@[u]@[i] as int));
    }
    if i < d.nesting@.len() && d.nesting@[i].0 != d.nesting@[i].1 {
        assert(d.nesting@[i].0 < cfg.mesh() && d.nesting@[i].1 < cfg.mesh());
        let e = ad_instance::nesting_edges(cfg, d, d.nesting@.len())[i];
        lemma_mesh_joins(cfg, d, g, e.0, e.1);
    }
}

proof fn lemma_mesh_joins(cfg: AdConfig, d: AdDraws, g: AdGraph, x: usize, y: usize)
    requires
        ad_instance::built(cfg, d, g),
        x != y,
        ad_graph::joined(ad_instance::nesting_edges(cfg, d, d.nesting@.len()), x, y)
            || ad_graph::joined(ad_instance::all_join_edges(cfg, d, cfg.n_users as nat), x, y),
    ensures
        ad_graph::joined(g.edges@, x, y),
{
    let nest = ad_instance::nesting_edges(cfg, d, d.nesting@.len());
    let joins = ad_instance::all_join_edges(cfg, d, cfg.n_users as nat);
    let zero = ad_instance::tier_zero_edges(cfg, cfg.tier_zero_members as nat);
    let e: Edge = (
        ad_instance::top_group(cfg, 2),
        ad_instance::top_group(cfg, 1),
        EdgeKind::MemberOf,
    );
    let ops = ad_instance::t0_ops_edges(cfg, cfg.t0_ops_members as nat);
    let members = ad_instance::membership_part(cfg, d);
    let choke = ad_instance::choke_part(cfg, d);
    assert(members =~= (nest + joins) + (zero + (seq![e] + ops)));
    lemma_joins_concat(nest, joins, x, y);
    lemma_joins_concat(nest + joins, zero + (seq![e] + ops), x, y);
    lemma_joins_concat(members, choke, x, y);
    lemma_joins_concat(members + choke, ad_instance::machine_part(cfg, d), x, y);
    lemma_joins_stay(ad_instance::candidates(cfg, d), x, y);
}

} // verus!
