//! A knowledge graph, and a question that ranking passages one by one cannot
//! answer.
//!
//! Two query entities each connect to many candidates; one candidate, the
//! answer, connects to both, and no passage mentions both. Counting the
//! passages that mention a query entity finds the answer at one hop, where it
//! is named in two of them; at two hops no passage near a candidate mentions a
//! query entity at all.

pub use crate::rng::seeded_rng;

use crate::graph;
use crate::math;
use crate::rng;
use rand_chacha::ChaCha8Rng;
use vstd::prelude::*;

verus! {

/// One fact, stated by one passage.
#[derive(Clone, Copy, Debug, PartialEq, Eq, Structural)]
pub struct Passage {
    pub src: usize,
    pub dst: usize,
}

#[derive(Debug)]
pub struct Kg {
    pub n_nodes: usize,
    pub passages: Vec<Passage>,
    /// Undirected adjacency.
    pub adj: Vec<Vec<usize>>,
    /// The passages that mention each node.
    pub mentions: Vec<Vec<usize>>,
}

/// What a passage adds to a list: first for its source, then for its target.
pub open spec fn with_both<T>(list: Seq<T>, p: Passage, v: int, at_src: T, at_dst: T) -> Seq<T> {
    let one = if p.src == v {
        list.push(at_src)
    } else {
        list
    };
    if p.dst == v {
        one.push(at_dst)
    } else {
        one
    }
}

/// The neighbours that the first `k` passages give a node.
pub open spec fn neighbours(passages: Seq<Passage>, v: int, k: nat) -> Seq<usize>
    decreases k,
{
    if k == 0 {
        Seq::empty()
    } else {
        let p = passages[k - 1];
        with_both(neighbours(passages, v, (k - 1) as nat), p, v, p.dst, p.src)
    }
}

/// Which of the first `k` passages mention a node.
pub open spec fn mentioning(passages: Seq<Passage>, v: int, k: nat) -> Seq<usize>
    decreases k,
{
    if k == 0 {
        Seq::empty()
    } else {
        let p = passages[k - 1];
        with_both(
            mentioning(passages, v, (k - 1) as nat),
            p,
            v,
            (k - 1) as usize,
            (k - 1) as usize,
        )
    }
}

proof fn lemma_prefix(a: Seq<Passage>, b: Seq<Passage>, v: int, k: nat)
    requires
        k <= a.len() <= b.len(),
        forall|i: int| 0 <= i < a.len() ==> #[trigger] a[i] == b[i],
    ensures
        neighbours(a, v, k) == neighbours(b, v, k),
        mentioning(a, v, k) == mentioning(b, v, k),
    decreases k,
{
    if k > 0 {
        lemma_prefix(a, b, v, (k - 1) as nat);
        assert(a[k - 1] == b[k - 1]);
    }
}

/// Neighbours are ends of passages.
proof fn lemma_neighbours_below(passages: Seq<Passage>, v: int, k: nat, n: int, i: int)
    requires
        k <= passages.len(),
        forall|j: int|
            0 <= j < passages.len() ==> (#[trigger] passages[j]).src < n && passages[j].dst < n,
        0 <= i < neighbours(passages, v, k).len(),
    ensures
        neighbours(passages, v, k)[i] < n,
    decreases k,
{
    if k > 0 {
        let before = neighbours(passages, v, (k - 1) as nat);
        assert(passages[k - 1].src < n && passages[k - 1].dst < n);
        if i < before.len() {
            lemma_neighbours_below(passages, v, (k - 1) as nat, n, i);
        }
    }
}

/// Mentions are passages.
proof fn lemma_mentions_below(passages: Seq<Passage>, v: int, k: nat, i: int)
    requires
        k <= passages.len() <= usize::MAX,
        0 <= i < mentioning(passages, v, k).len(),
    ensures
        mentioning(passages, v, k)[i] < k,
    decreases k,
{
    if k > 0 {
        let before = mentioning(passages, v, (k - 1) as nat);
        if i < before.len() {
            lemma_mentions_below(passages, v, (k - 1) as nat, i);
        }
    }
}

impl Kg {
    pub open spec fn well_formed(&self) -> bool {
        &&& self.adj@.len() == self.n_nodes
        &&& self.mentions@.len() == self.n_nodes
        &&& forall|i: int|
            0 <= i < self.passages@.len() ==> (#[trigger] self.passages@[i]).src < self.n_nodes
                && self.passages@[i].dst < self.n_nodes
        &&& forall|v: int|
            0 <= v < self.n_nodes ==> (#[trigger] self.adj@[v])@ == neighbours(
                self.passages@,
                v,
                self.passages@.len(),
            )
        &&& forall|v: int|
            0 <= v < self.n_nodes ==> (#[trigger] self.mentions@[v])@ == mentioning(
                self.passages@,
                v,
                self.passages@.len(),
            )
    }

    pub fn new(n_nodes: usize) -> (kg: Kg)
        ensures
            kg.well_formed(),
            kg.n_nodes == n_nodes,
            kg.passages@ == Seq::<Passage>::empty(),
    {
        Kg {
            n_nodes,
            passages: Vec::new(),
            adj: math::empty_lists(n_nodes),
            mentions: math::empty_lists(n_nodes),
        }
    }

    pub fn add_fact(&mut self, src: usize, dst: usize)
        requires
            old(self).well_formed(),
            src < old(self).n_nodes,
            dst < old(self).n_nodes,
        ensures
            final(self).well_formed(),
            final(self).n_nodes == old(self).n_nodes,
            final(self).passages@ == old(self).passages@.push(Passage { src, dst }),
    {
        let ghost before = self.passages@;
        let pid = self.passages.len();
        self.passages.push(Passage { src, dst });
        self.adj[src].push(dst);
        self.adj[dst].push(src);
        self.mentions[src].push(pid);
        self.mentions[dst].push(pid);
        proof {
            let now = self.passages@;
            assert forall|v: int| 0 <= v < self.n_nodes
                implies (#[trigger] self.adj@[v])@ == neighbours(now, v, now.len()) by {
                lemma_prefix(before, now, v, before.len());
            }
            assert forall|v: int| 0 <= v < self.n_nodes
                implies (#[trigger] self.mentions@[v])@ == mentioning(now, v, now.len()) by {
                lemma_prefix(before, now, v, before.len());
            }
        }
    }

    /// Hop distance from any seed to every node; `usize::MAX` where there is
    /// no way.
    pub fn bfs_dist(&self, seeds: &[usize]) -> (dist: Vec<usize>)
        requires
            self.well_formed(),
            forall|i: int| 0 <= i < seeds@.len() ==> #[trigger] seeds@[i] < self.n_nodes,
        ensures
            dist@.len() == self.n_nodes,
            forall|v: int|
                0 <= v < dist@.len() ==> graph::is_distance(
                    graph::listed(self.adj@),
                    seeds@,
                    v as usize,
                    #[trigger] dist@[v],
                ),
    {
        proof {
            assert forall|a: int, k: int| 0 <= a < self.adj@.len() && 0 <= k < self.adj@[a]@.len()
                implies #[trigger] self.adj@[a]@[k]
                < self.adj@.len() by {
                assert(self.adj@[a]@ == neighbours(self.passages@, a, self.passages@.len()));
                lemma_neighbours_below(
                    self.passages@,
                    a,
                    self.passages@.len(),
                    self.n_nodes as int,
                    k,
                );
            }
        }
        graph::bfs(&self.adj, seeds)
    }
}

/// A path-finding instance: which candidate connects both seeds?
#[derive(Debug)]
pub struct Instance {
    pub kg: Kg,
    pub seeds: [usize; 2],
    /// All answer candidates, each `hops` from a seed.
    pub candidates: Vec<usize>,
    /// The one candidate that both seeds lead to.
    pub answer: usize,
    /// The passages on the two chains to the answer.
    pub gold_passages: Vec<usize>,
    pub hops: usize,
}

/// The node of the answer; the seeds are 0 and 1.
pub open spec fn answer_node() -> int {
    2
}

/// How many nodes the chains of one seed add.
pub open spec fn chain_room(h: int, d: int) -> int {
    (h - 1) + d * h
}

/// The first node of chain `c` of a seed whose chains start at `start`. Chain
/// 0 ends at the answer and so has one node less.
pub open spec fn chain_start(h: int, start: int, c: int) -> int {
    if c == 0 {
        start
    } else {
        start + (h - 1) + (c - 1) * h
    }
}

/// Node `t` of a chain.
pub open spec fn chain_node(h: int, start: int, gold: bool, t: int) -> int {
    if gold && t == h - 1 {
        answer_node()
    } else {
        start + t
    }
}

/// Fact `t` of a chain: from the node before to the node.
pub open spec fn chain_fact(h: int, seed: int, start: int, gold: bool, t: int) -> Passage {
    Passage {
        src: (if t == 0 {
            seed
        } else {
            start + t - 1
        }) as usize,
        dst: chain_node(h, start, gold, t) as usize,
    }
}

/// The first `n` facts of a chain.
pub open spec fn chain_facts(h: int, seed: int, start: int, gold: bool, n: nat) -> Seq<Passage> {
    Seq::new(n, |t: int| chain_fact(h, seed, start, gold, t))
}

/// The facts of the first `c` chains of a seed.
pub open spec fn seed_facts(h: int, seed: int, start: int, c: nat) -> Seq<Passage>
    decreases c,
{
    if c == 0 {
        Seq::empty()
    } else {
        seed_facts(h, seed, start, (c - 1) as nat) + chain_facts(
            h,
            seed,
            chain_start(h, start, c - 1),
            c == 1,
            h as nat,
        )
    }
}

/// Where the chains of a seed start.
pub open spec fn seed_start(h: int, d: int, seed: int) -> int {
    if seed == 0 {
        3
    } else {
        3 + chain_room(h, d)
    }
}

/// All facts of an instance.
pub open spec fn instance_facts(h: int, d: int) -> Seq<Passage> {
    seed_facts(h, 0, seed_start(h, d, 0), (d + 1) as nat) + seed_facts(
        h,
        1,
        seed_start(h, d, 1),
        (d + 1) as nat,
    )
}

/// The dead ends of the first `c` chains of a seed.
pub open spec fn dead_ends(h: int, start: int, c: nat) -> Seq<usize>
    decreases c,
{
    if c <= 1 {
        Seq::empty()
    } else {
        dead_ends(h, start, (c - 1) as nat).push((chain_start(h, start, c - 1) + h - 1) as usize)
    }
}

/// The candidates of an instance: the answer, then the dead ends.
pub open spec fn instance_candidates(h: int, d: int) -> Seq<usize> {
    seq![answer_node() as usize] + dead_ends(h, seed_start(h, d, 0), (d + 1) as nat) + dead_ends(
        h,
        seed_start(h, d, 1),
        (d + 1) as nat,
    )
}

/// `h` numbers from `from` on.
pub open spec fn run_from(from: int, h: nat) -> Seq<usize> {
    Seq::new(h, |i: int| (from + i) as usize)
}

/// The instance of a question.
pub open spec fn is_instance(inst: &Instance, h: int, d: int) -> bool {
    &&& inst.kg.well_formed()
    &&& inst.kg.n_nodes == 3 + 2 * chain_room(h, d)
    &&& inst.kg.passages@ == instance_facts(h, d)
    &&& inst.seeds@ == seq![0usize, 1usize]
    &&& inst.candidates@ == instance_candidates(h, d)
    &&& inst.answer == answer_node()
    &&& inst.gold_passages@ == run_from(0, h as nat) + run_from((d + 1) * h, h as nat)
    &&& inst.hops == h
}

/// Every chain has `h` facts.
pub proof fn lemma_seed_facts_len(h: int, seed: int, start: int, c: nat)
    requires
        h >= 0,
    ensures
        seed_facts(h, seed, start, c).len() == c * h,
    decreases c,
{
    if c > 0 {
        lemma_seed_facts_len(h, seed, start, (c - 1) as nat);
        assert(c * h == (c - 1) * h + h) by (nonlinear_arith);
    } else {
        assert(c * h == 0) by (nonlinear_arith)
            requires
                c == 0,
        ;
    }
}

/// A chain stays in the room of its seed.
pub proof fn lemma_chain_room(h: int, d: int, start: int, c: int)
    requires
        h >= 1,
        0 <= c <= d,
        start >= 0,
    ensures
        c == 0 ==> chain_start(h, start, c) + h - 1 <= start + chain_room(h, d),
        c > 0 ==> start <= chain_start(h, start, c) && chain_start(h, start, c) + h <= start
            + chain_room(h, d),
        chain_room(h, d) >= 0,
        chain_start(h, start, c + 1) == chain_start(h, start, c) + (if c == 0 {
            h - 1
        } else {
            h
        }),
{
    assert(d * h >= 0) by (nonlinear_arith)
        requires
            d >= 0,
            h >= 1,
    ;
    if c > 0 {
        assert((c - 1) * h + h == c * h && c * h <= d * h && (c - 1) * h >= 0) by (nonlinear_arith)
            requires
                1 <= c <= d,
                h >= 1,
        ;
    }
}

/// Builds an instance: both seeds grow `distractors` chains of `hops` facts to
/// dead ends, and one chain each that meets at the answer.
pub fn path_finding_instance(hops: usize, distractors: usize) -> (inst: Instance)
    requires
        hops >= 1,
        3 + 2 * chain_room(hops as int, distractors as int) <= usize::MAX,
    ensures
        is_instance(&inst, hops as int, distractors as int),
        rankable(&inst),
{
    let ghost h = hops as int;
    let ghost d = distractors as int;
    proof {
        lemma_chain_room(h, d, 3, 0);
        assert(d * h >= d) by (nonlinear_arith)
            requires
                d >= 0,
                h >= 1,
        ;
    }
    let chains = distractors + 1;
    let n_nodes = 3 + 2 * ((hops - 1) + distractors * hops);
    let mut kg = Kg::new(n_nodes);
    let mut next: usize = 3;
    let mut gold_passages: Vec<usize> = Vec::new();
    let mut candidates: Vec<usize> = Vec::new();
    candidates.push(2);
    let ghost facts0 = seed_facts(h, 0, seed_start(h, d, 0), (d + 1) as nat);
    assert(candidates@ =~= seq![2usize]);
    for seed in 0usize..2
        invariant
            h == hops,
            d == distractors,
            hops >= 1,
            chains == d + 1,
            n_nodes == 3 + 2 * chain_room(h, d),
            kg.well_formed(),
            kg.n_nodes == n_nodes,
            facts0 == seed_facts(h, 0, seed_start(h, d, 0), (d + 1) as nat),
            seed == 0 ==> kg.passages@ == Seq::<Passage>::empty(),
            seed == 1 ==> kg.passages@ == facts0,
            seed == 2 ==> kg.passages@ == instance_facts(h, d),
            seed == 0 ==> gold_passages@ == Seq::<usize>::empty(),
            seed == 1 ==> gold_passages@ == run_from(0, h as nat),
            seed == 2 ==> gold_passages@ == run_from(0, h as nat) + run_from((d + 1) * h, h as nat),
            seed == 0 ==> candidates@ == seq![2usize],
            seed == 1 ==> candidates@ == seq![2usize] + dead_ends(
                h,
                seed_start(h, d, 0),
                (d + 1) as nat,
            ),
            seed == 2 ==> candidates@ == instance_candidates(h, d),
            seed < 2 ==> next == seed_start(h, d, seed as int),
    {
        let ghost start = seed_start(h, d, seed as int);
        let ghost facts = kg.passages@;
        let ghost cands = candidates@;
        let ghost golds = gold_passages@;
        proof {
            lemma_chain_room(h, d, start, 0);
            lemma_seed_facts_len(h, 0, seed_start(h, d, 0), (d + 1) as nat);
            assert(facts =~= facts + seed_facts(h, seed as int, start, 0));
            assert(cands =~= cands + dead_ends(h, start, 0));
            if seed == 1 {
                assert(facts.len() == (d + 1) * h);
            } else {
                assert(facts.len() == 0);
            }
        }
        for chain in 0..chains
            invariant
                h == hops,
                d == distractors,
                hops >= 1,
                chains == d + 1,
                seed < 2,
                n_nodes == 3 + 2 * chain_room(h, d),
                start == seed_start(h, d, seed as int),
                kg.well_formed(),
                kg.n_nodes == n_nodes,
                kg.passages@ == facts + seed_facts(h, seed as int, start, chain as nat),
                candidates@ == cands + dead_ends(h, start, chain as nat),
                chain == 0 ==> gold_passages@ == golds,
                chain > 0 ==> gold_passages@ == golds + run_from(facts.len() as int, h as nat),
                next == chain_start(h, start, chain as int),
        {
            let is_gold = chain == 0;
            let ghost first = next as int;
            let ghost done = kg.passages@;
            proof {
                lemma_chain_room(h, d, start, chain as int);
                lemma_chain_room(h, d, 3, 0);
                assert(done =~= done + chain_facts(h, seed as int, first, is_gold, 0));
                assert(golds =~= golds + run_from(facts.len() as int, 0));
            }
            let mut prev = seed;
            for step in 0..hops
                invariant
                    h == hops,
                    d == distractors,
                    hops >= 1,
                    seed < 2,
                    is_gold == (chain == 0),
                    chain <= d,
                    n_nodes == 3 + 2 * chain_room(h, d),
                    start == seed_start(h, d, seed as int),
                    0 <= chain_room(h, d),
                    first == chain_start(h, start, chain as int),
                    3 <= first,
                    first + h <= n_nodes || (is_gold && first + h - 1 <= n_nodes),
                    kg.well_formed(),
                    kg.n_nodes == n_nodes,
                    kg.passages@ == done + chain_facts(
                        h,
                        seed as int,
                        first,
                        is_gold,
                        step as nat,
                    ),
                    done == facts + seed_facts(h, seed as int, start, chain as nat),
                    chain == 0 ==> done.len() == facts.len(),
                    prev == (if step == 0 {
                        seed as int
                    } else {
                        chain_node(h, first, is_gold, step - 1)
                    }),
                    next == first + step - (if is_gold && step == h {
                        1int
                    } else {
                        0
                    }),
                    is_gold ==> gold_passages@ == golds + run_from(
                        facts.len() as int,
                        step as nat,
                    ),
                    !is_gold ==> gold_passages@ == golds + run_from(facts.len() as int, h as nat),
                    candidates@ == cands + dead_ends(
                        h,
                        start,
                        (if step == h {
                            (chain + 1) as nat
                        } else {
                            chain as nat
                        }),
                    ),
            {
                let last = step == hops - 1;
                let node = if last && is_gold {
                    2
                } else {
                    let n = next;
                    next += 1;
                    if last {
                        candidates.push(n);
                    }
                    n
                };
                let pid = kg.passages.len();
                kg.add_fact(prev, node);
                if is_gold {
                    gold_passages.push(pid);
                    assert(gold_passages@ =~= golds + run_from(
                        facts.len() as int,
                        (step + 1) as nat,
                    ));
                }
                proof {
                    assert(kg.passages@ =~= done + chain_facts(
                        h,
                        seed as int,
                        first,
                        is_gold,
                        (step + 1) as nat,
                    ));
                    if last {
                        assert(candidates@ =~= cands + dead_ends(h, start, (chain + 1) as nat));
                    }
                }
                prev = node;
            }
            proof {
                assert(kg.passages@ =~= facts + seed_facts(
                    h,
                    seed as int,
                    start,
                    (chain + 1) as nat,
                ));
            }
        }
        proof {
            if seed == 0 {
                assert(kg.passages@ =~= facts0);
                assert(gold_passages@ =~= run_from(0, h as nat));
                assert(candidates@ =~= seq![2usize] + dead_ends(
                    h,
                    seed_start(h, d, 0),
                    (d + 1) as nat,
                ));
                lemma_seed_end(h, d, start);
            } else {
                assert(kg.passages@ =~= instance_facts(h, d));
                assert(candidates@ =~= instance_candidates(h, d));
            }
        }
    }
    let inst = Instance { kg, seeds: [0, 1], candidates, answer: 2, gold_passages, hops };
    proof {
        assert(inst.seeds@ =~= seq![0usize, 1usize]);
        lemma_instance_rankable(&inst, h, d);
    }
    inst
}

/// The dead ends of a seed lie in its room.
proof fn lemma_dead_ends(h: int, d: int, start: int, c: nat, i: int)
    requires
        h >= 1,
        c <= d + 1,
        start >= 3,
        start + chain_room(h, d) <= usize::MAX,
        0 <= i < dead_ends(h, start, c).len(),
    ensures
        i + 1 < c,
        dead_ends(h, start, c)[i] == chain_start(h, start, i + 1) + h - 1,
        start <= dead_ends(h, start, c)[i] < start + chain_room(h, d),
    decreases c,
{
    if c > 1 {
        let before = dead_ends(h, start, (c - 1) as nat);
        lemma_dead_ends_len(h, start, (c - 1) as nat);
        lemma_chain_room(h, d, start, c - 1);
        if i < before.len() {
            lemma_dead_ends(h, d, start, (c - 1) as nat, i);
        }
    }
}

proof fn lemma_dead_ends_len(h: int, start: int, c: nat)
    ensures
        dead_ends(h, start, c).len() == (if c <= 1 {
            0nat
        } else {
            (c - 1) as nat
        }),
    decreases c,
{
    if c > 1 {
        lemma_dead_ends_len(h, start, (c - 1) as nat);
    }
}

/// The parts of an instance fit together.
proof fn lemma_instance_rankable(inst: &Instance, h: int, d: int)
    requires
        h >= 1,
        d >= 0,
        is_instance(inst, h, d),
    ensures
        rankable(inst),
{
    lemma_chain_room(h, d, 3, 0);
    let c = inst.candidates@;
    assert(c[0] == inst.answer);
    let a = dead_ends(h, seed_start(h, d, 0), (d + 1) as nat);
    let b = dead_ends(h, seed_start(h, d, 1), (d + 1) as nat);
    assert forall|i: int| 0 <= i < c.len() implies #[trigger] c[i] < inst.kg.n_nodes by {
        if 1 <= i < 1 + a.len() {
            assert(c[i] == a[i - 1]);
            lemma_dead_ends(h, d, seed_start(h, d, 0), (d + 1) as nat, i - 1);
        } else if i >= 1 + a.len() {
            assert(c[i] == b[i - 1 - a.len()]);
            lemma_dead_ends(h, d, seed_start(h, d, 1), (d + 1) as nat, i - 1 - a.len());
        }
    }
}

/// The chains of a seed fill its room.
proof fn lemma_seed_end(h: int, d: int, start: int)
    requires
        h >= 1,
        d >= 0,
    ensures
        chain_start(h, start, d + 1) == start + chain_room(h, d),
{
    assert((d + 1 - 1) * h == d * h);
}

/// The passage mentions a seed.
pub open spec fn touches(p: Passage, seeds: Seq<usize>) -> bool {
    seeds.contains(p.src) || seeds.contains(p.dst)
}

pub open spec fn seed_mention(kg: &Kg, seeds: Seq<usize>, v: int) -> spec_fn(int) -> bool {
    |i: int| touches(kg.passages@[kg.mentions@[v]@[i] as int], seeds)
}

/// How many mentions of a node stand in a passage that mentions a seed.
pub open spec fn mention_score(kg: &Kg, seeds: Seq<usize>, v: int) -> nat {
    math::count(kg.mentions@[v]@.len(), seed_mention(kg, seeds, v))
}

/// A node with a higher score than the answer.
pub open spec fn ahead(order: Seq<usize>, scores: Seq<u64>, answer: usize) -> spec_fn(int) -> bool {
    |j: int| scores[order[j] as int] > scores[answer as int]
}

/// A node with the score of the answer.
pub open spec fn level_with(order: Seq<usize>, scores: Seq<u64>, answer: usize) -> spec_fn(
    int,
) -> bool {
    |j: int| scores[order[j] as int] == scores[answer as int]
}

/// Where the answer first stands.
pub open spec fn first_at(order: Seq<usize>, answer: usize, at: int) -> bool {
    &&& 0 <= at < order.len()
    &&& order[at] == answer
    &&& forall|j: int| 0 <= j < at ==> #[trigger] order[j] != answer
}

/// `rank` is the answer's place, from 1 on, where the nodes are sorted by
/// score, highest first, and nodes with one score keep their order.
pub open spec fn is_rank(order: Seq<usize>, scores: Seq<u64>, answer: usize, rank: int) -> bool {
    exists|at: int| #[trigger]
        first_at(order, answer, at) && rank == 1 + math::count(
            order.len(),
            ahead(order, scores, answer),
        ) + math::count(at as nat, level_with(order, scores, answer))
}

/// The place of the answer under a score.
pub fn rank_in(order: &Vec<usize>, scores: &Vec<u64>, answer: usize) -> (rank: usize)
    requires
        order@.contains(answer),
        answer < scores@.len(),
        forall|i: int| 0 <= i < order@.len() ==> #[trigger] order@[i] < scores@.len(),
    ensures
        is_rank(order@, scores@, answer, rank as int),
        1 <= rank <= order@.len(),
{
    let mut higher: usize = 0;
    let mut equal_before: usize = 0;
    let mut at: Option<usize> = None;
    let ghost up = ahead(order@, scores@, answer);
    let ghost eq = level_with(order@, scores@, answer);
    for j in 0..order.len()
        invariant
            answer < scores@.len(),
            forall|i: int| 0 <= i < order@.len() ==> #[trigger] order@[i] < scores@.len(),
            up == ahead(order@, scores@, answer),
            eq == level_with(order@, scores@, answer),
            higher == math::count(j as nat, up),
            higher + equal_before <= j,
            match at {
                None => {
                    &&& forall|i: int| 0 <= i < j ==> #[trigger] order@[i] != answer
                    &&& equal_before == math::count(j as nat, eq)
                },
                Some(p) => {
                    &&& p < j
                    &&& first_at(order@, answer, p as int)
                    &&& equal_before == math::count(p as nat, eq)
                    &&& higher + equal_before < j
                },
            },
    {
        let v = order[j];
        assert(order@[j as int] < scores@.len());
        if scores[v] > scores[answer] {
            higher += 1;
        }
        if at.is_none() {
            if v == answer {
                at = Some(j);
            } else if scores[v] == scores[answer] {
                equal_before += 1;
            }
        }
    }
    proof {
        if at is None {
            let i = choose|i: int| 0 <= i < order@.len() && order@[i] == answer;
            assert(order@[i] != answer);
        }
    }
    1 + higher + equal_before
}

/// A list in the order that a shuffle gives it.
pub open spec fn shuffled(items: Seq<usize>, stream: Map<nat, u32>) -> Seq<usize> {
    Seq::new(items.len(), |i: int| items[rng::shuffle_draw(stream, items.len()).0[i]])
}

/// The instance can be ranked: its parts fit together.
pub open spec fn rankable(inst: &Instance) -> bool {
    &&& inst.kg.well_formed()
    &&& inst.candidates@.contains(inst.answer)
    &&& forall|i: int|
        0 <= i < inst.candidates@.len() ==> #[trigger] inst.candidates@[i] < inst.kg.n_nodes
    &&& forall|i: int| 0 <= i < inst.seeds@.len() ==> #[trigger] inst.seeds@[i] < inst.kg.n_nodes
}

/// Ranks the answer among the candidates under a score per node, highest
/// first; ties break by shuffling.
pub fn score_rank(rng: &mut ChaCha8Rng, inst: &Instance, scores: &Vec<u64>) -> (rank: usize)
    requires
        rankable(inst),
        scores@.len() == inst.kg.n_nodes,
    ensures
        is_rank(
            shuffled(inst.candidates@, rng::words(*old(rng))),
            scores@,
            inst.answer,
            rank as int,
        ),
        1 <= rank <= inst.candidates@.len(),
        rng::is_order(
            rng::shuffle_draw(rng::words(*old(rng)), inst.candidates@.len()).0,
            inst.candidates@.len(),
        ),
        rng::words(*final(rng)) == rng::skip_words(
            rng::words(*old(rng)),
            rng::shuffle_draw(rng::words(*old(rng)), inst.candidates@.len()).1,
        ),
{
    let mut order = inst.candidates.clone();
    rng::shuffle(&mut order, rng);
    proof {
        let from = rng::shuffle_draw(rng::words(*old(rng)), inst.candidates@.len()).0;
        let n = inst.candidates@.len();
        assert(order@ =~= shuffled(inst.candidates@, rng::words(*old(rng))));
        assert forall|i: int| 0 <= i < order@.len() implies #[trigger] order@[i] < scores@.len() by {
            assert(0 <= from[i] < n);
            assert(order@[i] == inst.candidates@[from[i]]);
        }
        let c = choose|c: int| 0 <= c < n && inst.candidates@[c] == inst.answer;
        lemma_order_hits(from, n, c);
        let i = choose|i: int| 0 <= i < n && from[i] == c;
        assert(order@[i] == inst.answer);
    }
    rank_in(&order, scores, inst.answer)
}

/// A permutation takes every value.
proof fn lemma_order_hits(order: Seq<int>, n: nat, c: int)
    requires
        rng::is_order(order, n),
        0 <= c < n,
    ensures
        exists|i: int| 0 <= i < n && order[i] == c,
{
    if forall|i: int| 0 <= i < n ==> order[i] != c {
        let range = vstd::set_lib::set_int_range(0, n as int);
        vstd::set_lib::lemma_int_range(0, n as int);
        assert(order.no_duplicates()) by {
            assert forall|i: int, j: int| 0 <= i < order.len() && 0 <= j < order.len() && i != j
                implies order[i] != order[j] by {
                if i < j {
                    assert(order[i] != order[j]);
                } else {
                    assert(order[j] != order[i]);
                }
            }
        }
        order.unique_seq_to_set();
        let rest = range.remove(c);
        assert(order.to_set().subset_of(rest)) by {
            assert forall|x: int| order.to_set().contains(x) implies rest.contains(x) by {
                let i = choose|i: int| 0 <= i < order.len() && order[i] == x;
                assert(0 <= order[i] < n);
            }
        }
        vstd::set_lib::lemma_len_subset(order.to_set(), rest);
        assert(false);
    }
}

/// The mention score of every node.
fn mention_scores(kg: &Kg, seeds: &[usize]) -> (scores: Vec<u64>)
    requires
        kg.well_formed(),
    ensures
        scores@.len() == kg.n_nodes,
        forall|v: int|
            0 <= v < kg.n_nodes ==> #[trigger] scores@[v] == mention_score(kg, seeds@, v),
{
    let mut scores: Vec<u64> = Vec::new();
    for v in 0..kg.n_nodes
        invariant
            kg.well_formed(),
            scores@.len() == v,
            forall|w: int|
                0 <= w < v ==> #[trigger] scores@[w] == mention_score(kg, seeds@, w),
    {
        let list = &kg.mentions[v];
        let mut n: u64 = 0;
        for i in 0..list.len()
            invariant
                kg.well_formed(),
                v < kg.n_nodes,
                *list == kg.mentions@[v as int],
                n <= i,
                n == math::count(i as nat, seed_mention(kg, seeds@, v as int)),
        {
            proof {
                assert(kg.passages.len() == kg.passages@.len());
                assert(kg.mentions@[v as int]@ == mentioning(
                    kg.passages@,
                    v as int,
                    kg.passages@.len(),
                ));
                lemma_mentions_below(kg.passages@, v as int, kg.passages@.len(), i as int);
            }
            let p = kg.passages[list[i]];
            if is_in(seeds, p.src) || is_in(seeds, p.dst) {
                n += 1;
            }
        }
        scores.push(n);
    }
    scores
}

fn is_in(list: &[usize], x: usize) -> (b: bool)
    ensures
        b == list@.contains(x),
{
    for i in 0..list.len()
        invariant
            forall|j: int| 0 <= j < i ==> #[trigger] list@[j] != x,
    {
        if list[i] == x {
            return true;
        }
    }
    false
}

/// A score list that a ranking used.
pub open spec fn mention_scored(inst: &Instance, scores: Seq<u64>) -> bool {
    &&& scores.len() == inst.kg.n_nodes
    &&& forall|v: int|
        0 <= v < inst.kg.n_nodes ==> #[trigger] scores[v] == mention_score(
            &inst.kg,
            inst.seeds@,
            v,
        )
}

/// Mention-count ranking: each candidate is scored by how many of its
/// passages mention a seed.
pub fn mention_rank(rng: &mut ChaCha8Rng, inst: &Instance) -> (rank: usize)
    requires
        rankable(inst),
    ensures
        exists|scores: Seq<u64>| #[trigger]
            mention_scored(inst, scores) && is_rank(
                shuffled(inst.candidates@, rng::words(*old(rng))),
                scores,
                inst.answer,
                rank as int,
            ),
        1 <= rank <= inst.candidates@.len(),
        rng::words(*final(rng)) == rng::skip_words(
            rng::words(*old(rng)),
            rng::shuffle_draw(rng::words(*old(rng)), inst.candidates@.len()).1,
        ),
{
    let scores = mention_scores(&inst.kg, &inst.seeds);
    assert(mention_scored(inst, scores@));
    score_rank(rng, inst, &scores)
}

/// Closer to a seed is better: the score is the distance from the top.
pub open spec fn distance_scored(inst: &Instance, scores: Seq<u64>) -> bool {
    &&& scores.len() == inst.kg.n_nodes
    &&& forall|v: int|
        0 <= v < inst.kg.n_nodes ==> graph::is_distance(
            graph::listed(inst.kg.adj@),
            inst.seeds@,
            v as usize,
            (usize::MAX - #[trigger] scores[v]) as usize,
        )
}

/// The distances of all nodes from the nearest seed.
pub open spec fn are_distances(inst: &Instance, dist: Seq<usize>) -> bool {
    &&& dist.len() == inst.kg.n_nodes
    &&& forall|v: int|
        0 <= v < inst.kg.n_nodes ==> graph::is_distance(
            graph::listed(inst.kg.adj@),
            inst.seeds@,
            v as usize,
            #[trigger] dist[v],
        )
}

/// Candidate `j` is closer than the answer.
pub open spec fn is_closer(order: Seq<usize>, dist: Seq<usize>, answer: usize) -> spec_fn(
    int,
) -> bool {
    |j: int| dist[order[j] as int] < dist[answer as int]
}

/// Candidate `j` is as close as the answer or closer.
pub open spec fn is_as_close(order: Seq<usize>, dist: Seq<usize>, answer: usize) -> spec_fn(
    int,
) -> bool {
    |j: int| dist[order[j] as int] <= dist[answer as int]
}

/// The answer ranks behind every candidate that is closer, and before every one that is
/// farther away.
pub open spec fn closer_comes_first(
    order: Seq<usize>,
    dist: Seq<usize>,
    answer: usize,
    rank: int,
) -> bool {
    math::count(order.len(), is_closer(order, dist, answer)) < rank <= math::count(
        order.len(),
        is_as_close(order, dist, answer),
    )
}

proof fn lemma_closer_comes_first(
    order: Seq<usize>,
    dist: Seq<usize>,
    scores: Seq<u64>,
    answer: usize,
    rank: int,
)
    requires
        is_rank(order, scores, answer, rank),
        dist.len() == scores.len(),
        answer < dist.len(),
        forall|j: int| 0 <= j < order.len() ==> #[trigger] order[j] < dist.len(),
        forall|v: int| 0 <= v < dist.len() ==> #[trigger] scores[v] == usize::MAX - dist[v],
    ensures
        closer_comes_first(order, dist, answer, rank),
{
    let n = order.len();
    let at = choose|at: int| #[trigger]
        first_at(order, answer, at) && rank == 1 + math::count(
            order.len(),
            ahead(order, scores, answer),
        ) + math::count(at as nat, level_with(order, scores, answer));
    let (closer, close) = (is_closer(order, dist, answer), is_as_close(order, dist, answer));
    let (up, level) = (ahead(order, scores, answer), level_with(order, scores, answer));
    assert(scores[answer as int] == usize::MAX - dist[answer as int]);
    assert forall|j: int| 0 <= j < n implies #[trigger] closer(j) == up(j) && close(j) == (up(j)
        || level(j)) && !(up(j) && level(j)) by {
        assert(order[j] < dist.len());
        assert(scores[order[j] as int] == usize::MAX - dist[order[j] as int]);
    }
    math::lemma_count_same(n, closer, up);
    assert forall|j: int| 0 <= j < n implies #[trigger] close(j) == (up(j) || level(j)) && !(up(j)
        && level(j)) by {
        assert(closer(j) == up(j));
    }
    math::lemma_count_split(n, close, up, level);
    lemma_level_before(level, at as nat, n);
}

/// What holds at a place holds once more up to it and behind.
proof fn lemma_level_before(p: spec_fn(int) -> bool, at: nat, n: nat)
    requires
        at < n,
        p(at as int),
    ensures
        math::count(at, p) + 1 <= math::count(n, p),
    decreases n,
{
    if at < n - 1 {
        lemma_level_before(p, at, (n - 1) as nat);
    }
}

/// Ranking by breadth-first distance, closer first.
pub fn bfs_rank(rng: &mut ChaCha8Rng, inst: &Instance) -> (rank: usize)
    requires
        rankable(inst),
    ensures
        exists|dist: Seq<usize>| #[trigger]
            are_distances(inst, dist) && closer_comes_first(
                shuffled(inst.candidates@, rng::words(*old(rng))),
                dist,
                inst.answer,
                rank as int,
            ),
        exists|scores: Seq<u64>| #[trigger]
            distance_scored(inst, scores) && is_rank(
                shuffled(inst.candidates@, rng::words(*old(rng))),
                scores,
                inst.answer,
                rank as int,
            ),
        1 <= rank <= inst.candidates@.len(),
        rng::words(*final(rng)) == rng::skip_words(
            rng::words(*old(rng)),
            rng::shuffle_draw(rng::words(*old(rng)), inst.candidates@.len()).1,
        ),
{
    let dist = inst.kg.bfs_dist(&inst.seeds);
    let mut scores: Vec<u64> = Vec::new();
    for v in 0..dist.len()
        invariant
            scores@.len() == v,
            forall|w: int| 0 <= w < v ==> #[trigger] scores@[w] == usize::MAX - dist@[w],
    {
        scores.push((usize::MAX - dist[v]) as u64);
    }
    proof {
        assert forall|v: int| 0 <= v < inst.kg.n_nodes implies graph::is_distance(
            graph::listed(inst.kg.adj@),
            inst.seeds@,
            v as usize,
            (usize::MAX - #[trigger] scores@[v]) as usize,
        ) by {
            assert(scores@[v] == usize::MAX - dist@[v]);
        }
        assert(distance_scored(inst, scores@));
    }
    let ghost places = rng::shuffle_draw(rng::words(*rng), inst.candidates@.len()).0;
    let ghost order = shuffled(inst.candidates@, rng::words(*rng));
    let rank = score_rank(rng, inst, &scores);
    proof {
        assert forall|j: int| 0 <= j < order.len() implies #[trigger] order[j] < dist@.len() by {
            assert(order[j] == inst.candidates@[places[j]]);
        }
        assert(are_distances(inst, dist@));
        lemma_closer_comes_first(order, dist@, scores@, inst.answer, rank as int);
    }
    rank
}

/// The facts of the first `n` drawn pairs; a pair of one node is none.
pub open spec fn drawn_facts(pairs: Seq<(usize, usize)>, n: nat) -> Seq<Passage>
    decreases n,
{
    if n == 0 {
        Seq::empty()
    } else {
        let before = drawn_facts(pairs, (n - 1) as nat);
        let (a, b) = pairs[n - 1];
        if a != b {
            before.push(Passage { src: a, dst: b })
        } else {
            before
        }
    }
}

/// A random knowledge graph of `n` nodes with about `avg_deg` facts per node.
pub fn random_kg(rng: &mut ChaCha8Rng, n: usize, avg_deg: usize) -> (kg: Kg)
    requires
        n * avg_deg <= usize::MAX,
    ensures
        kg.well_formed(),
        kg.n_nodes == n,
        ({
            let m = (n * avg_deg / 2) as nat;
            let (pairs, rest) = rng::pair_draws(rng::words(*old(rng)), (0, n), (0, n), m);
            kg.passages@ == drawn_facts(pairs, m) && rng::words(*final(rng)) == rest
        }),
{
    let mut kg = Kg::new(n);
    let m = n * avg_deg / 2;
    proof {
        if m > 0 {
            assert(n > 0) by (nonlinear_arith)
                requires
                    n * avg_deg > 0,
                    n >= 0,
            ;
        }
    }
    let pairs = rng::draw_pairs(rng, (0, n), (0, n), m);
    for i in 0..pairs.len()
        invariant
            kg.well_formed(),
            kg.n_nodes == n,
            forall|i: int|
                0 <= i < pairs@.len() ==> (#[trigger] pairs@[i]).0 < n && pairs@[i].1 < n,
            kg.passages@ == drawn_facts(pairs@, i as nat),
    {
        let (a, b) = pairs[i];
        assert(pairs@[i as int].0 < n);
        if a != b {
            kg.add_fact(a, b);
        }
    }
    kg
}

/// How the answer is ranked.
#[derive(Clone, Copy, Debug)]
pub enum Ranking {
    Mentions,
    Distance,
}

/// `rank` is what one trial gives, whose shuffle reads `stream`.
pub open spec fn is_trial(h: int, d: int, by: Ranking, stream: Map<nat, u32>, rank: int) -> bool {
    exists|inst: Instance, scores: Seq<u64>|
        {
            &&& #[trigger] is_instance(&inst, h, d)
            &&& match by {
                Ranking::Mentions => mention_scored(&inst, scores),
                Ranking::Distance => distance_scored(&inst, scores),
            }
            &&& #[trigger] is_rank(
                shuffled(instance_candidates(h, d), stream),
                scores,
                answer_node() as usize,
                rank,
            )
        }
}

pub open spec fn rank_at(ranks: Seq<usize>) -> spec_fn(int) -> int {
    |i: int| ranks[i] as int
}

/// The seeds of `n` trials, and the stream that is left.
pub open spec fn trial_seeds(stream: Map<nat, u32>, n: nat) -> (Seq<u64>, Map<nat, u32>)
    decreases n,
{
    if n == 0 {
        (Seq::empty(), stream)
    } else {
        let (before, rest) = trial_seeds(stream, (n - 1) as nat);
        (before.push(rng::first_u64(rest) as u64), rng::skip_words(rest, 2))
    }
}

proof fn lemma_seeds_prefix(stream: Map<nat, u32>, k: nat, n: nat)
    requires
        k <= n,
    ensures
        trial_seeds(stream, n).0.len() == n,
        forall|i: int|
            0 <= i < k ==> #[trigger] trial_seeds(stream, n).0[i] == trial_seeds(stream, k).0[i],
    decreases n,
{
    if n > 0 {
        lemma_seeds_prefix(stream, (if k < n {
            k
        } else {
            (n - 1) as nat
        }), (n - 1) as nat);
    }
}

/// The answer's ranks over some trials, added up. Each trial has a generator
/// of its own, seeded with a number from this one.
pub fn total_rank(
    rng: &mut ChaCha8Rng,
    trials: usize,
    hops: usize,
    distractors: usize,
    by: Ranking,
) -> (total: u64)
    requires
        hops >= 1,
        3 + 2 * chain_room(hops as int, distractors as int) <= usize::MAX,
        trials * (2 * distractors + 1) <= u64::MAX,
    ensures
        exists|ranks: Seq<usize>|
            {
                &&& ranks.len() == trials
                &&& total == math::sum(trials as nat, #[trigger] rank_at(ranks))
                &&& forall|i: int|
                    0 <= i < trials ==> is_trial(
                        hops as int,
                        distractors as int,
                        by,
                        rng::seeded_words(
                            trial_seeds(rng::words(*old(rng)), trials as nat).0[i],
                        ),
                        #[trigger] ranks[i] as int,
                    )
            },
        rng::words(*final(rng)) == trial_seeds(rng::words(*old(rng)), trials as nat).1,
{
    let ghost h = hops as int;
    let ghost d = distractors as int;
    let ghost start = rng::words(*rng);
    let ghost mut ranks: Seq<usize> = Seq::empty();
    let mut total: u64 = 0;
    for i in 0..trials
        invariant
            h == hops,
            d == distractors,
            hops >= 1,
            3 + 2 * chain_room(h, d) <= usize::MAX,
            trials * (2 * d + 1) <= u64::MAX,
            start == rng::words(*old(rng)),
            rng::words(*rng) == trial_seeds(start, i as nat).1,
            ranks.len() == i,
            total == math::sum(i as nat, rank_at(ranks)),
            total <= i * (2 * d + 1),
            forall|j: int|
                0 <= j < i ==> is_trial(
                    h,
                    d,
                    by,
                    rng::seeded_words(trial_seeds(start, i as nat).0[j]),
                    #[trigger] ranks[j] as int,
                ),
    {
        let inst = path_finding_instance(hops, distractors);
        let seed = rng::next_u64(rng);
        let mut own = rng::seeded_rng(seed);
        let ghost stream = rng::words(own);
        let r = match by {
            Ranking::Mentions => mention_rank(&mut own, &inst),
            Ranking::Distance => bfs_rank(&mut own, &inst),
        };
        proof {
            lemma_candidate_count(h, d);
            assert(is_trial(h, d, by, stream, r as int)) by {
                match by {
                    Ranking::Mentions => {
                        let scores = choose|scores: Seq<u64>| #[trigger]
                            mention_scored(&inst, scores) && is_rank(
                                shuffled(inst.candidates@, stream),
                                scores,
                                inst.answer,
                                r as int,
                            );
                        assert(is_instance(&inst, h, d));
                        assert(is_rank(
                            shuffled(instance_candidates(h, d), stream),
                            scores,
                            answer_node() as usize,
                            r as int,
                        ));
                    },
                    Ranking::Distance => {
                        let scores = choose|scores: Seq<u64>| #[trigger]
                            distance_scored(&inst, scores) && is_rank(
                                shuffled(inst.candidates@, stream),
                                scores,
                                inst.answer,
                                r as int,
                            );
                        assert(is_instance(&inst, h, d));
                        assert(is_rank(
                            shuffled(instance_candidates(h, d), stream),
                            scores,
                            answer_node() as usize,
                            r as int,
                        ));
                    },
                }
            }
            let more = ranks.push(r);
            math::lemma_sum_same(i as nat, rank_at(ranks), rank_at(more));
            ranks = more;
            let k = 2 * d + 1;
            assert(i * k + k == (i + 1) * k && (i + 1) * k <= trials * k) by (nonlinear_arith)
                requires
                    0 <= i < trials,
                    k >= 1,
            ;
            lemma_seeds_prefix(start, i as nat, (i + 1) as nat);
            lemma_seeds_prefix(start, i as nat, i as nat);
        }
        total = total + r as u64;
    }
    total
}

proof fn lemma_candidate_count(h: int, d: int)
    requires
        d >= 0,
    ensures
        instance_candidates(h, d).len() == 2 * d + 1,
{
    lemma_dead_ends_len(h, seed_start(h, d, 0), (d + 1) as nat);
    lemma_dead_ends_len(h, seed_start(h, d, 1), (d + 1) as nat);
}

/// How far a node of an instance is from the seed of its chain.
pub open spec fn level(h: int, d: int, v: int) -> int {
    if v < 2 {
        0
    } else if v == answer_node() {
        h
    } else {
        let place = if v < 3 + chain_room(h, d) {
            v - 3
        } else {
            v - 3 - chain_room(h, d)
        };
        if place + 1 < h {
            place + 1
        } else {
            (place + 1) % h + 1
        }
    }
}

/// Node `t` of chain `c` is at level `t + 1`.
proof fn lemma_chain_level(h: int, d: int, seed: int, c: int, t: int)
    requires
        h >= 1,
        0 <= c <= d,
        0 <= t < h,
        0 <= seed < 2,
    ensures
        level(h, d, chain_node(h, chain_start(h, seed_start(h, d, seed), c), c == 0, t)) == t + 1,
        chain_node(h, chain_start(h, seed_start(h, d, seed), c), c == 0, t) >= 2,
        chain_node(h, chain_start(h, seed_start(h, d, seed), c), c == 0, t) < 3 + 2 * chain_room(
            h,
            d,
        ),
{
    let start = seed_start(h, d, seed);
    lemma_chain_room(h, d, 3, 0);
    lemma_chain_room(h, d, start, c);
    let v = chain_node(h, chain_start(h, start, c), c == 0, t);
    if c == 0 {
        if t < h - 1 {
            assert(v == start + t);
        }
    } else {
        let place = v - start;
        assert(place + 1 == c * h + t) by (nonlinear_arith)
            requires
                place == (h - 1) + (c - 1) * h + t,
        ;
        assert(c * h >= h) by (nonlinear_arith)
            requires
                c >= 1,
                h >= 1,
        ;
        vstd::arithmetic::div_mod::lemma_fundamental_div_mod_converse(place + 1, h, c, t);
    }
}

/// A fact of an instance is a fact of a chain.
spec fn is_chain_fact(h: int, d: int, p: Passage, seed: int, c: int, t: int) -> bool {
    &&& 0 <= seed < 2
    &&& 0 <= c <= d
    &&& 0 <= t < h
    &&& p == chain_fact(h, seed, chain_start(h, seed_start(h, d, seed), c), c == 0, t)
}

/// Fact `i` of a seed is fact `i % h` of its chain `i / h`.
pub proof fn lemma_seed_fact_shape(h: int, seed: int, start: int, n: nat, i: int) -> (r: (int, int))
    requires
        h >= 1,
        0 <= i < seed_facts(h, seed, start, n).len(),
    ensures
        0 <= r.0 < n,
        0 <= r.1 < h,
        i == r.0 * h + r.1,
        seed_facts(h, seed, start, n)[i] == chain_fact(
            h,
            seed,
            chain_start(h, start, r.0),
            r.0 == 0,
            r.1,
        ),
    decreases n,
{
    let before = seed_facts(h, seed, start, (n - 1) as nat);
    lemma_seed_facts_len(h, seed, start, (n - 1) as nat);
    if i < before.len() {
        lemma_seed_fact_shape(h, seed, start, (n - 1) as nat, i)
    } else {
        (n - 1, i - before.len())
    }
}

/// Every fact leads one level up.
pub proof fn lemma_facts_climb(h: int, d: int, i: int)
    requires
        h >= 1,
        d >= 0,
        3 + 2 * chain_room(h, d) <= usize::MAX,
        0 <= i < instance_facts(h, d).len(),
    ensures
        level(h, d, instance_facts(h, d)[i].dst as int) == level(
            h,
            d,
            instance_facts(h, d)[i].src as int,
        ) + 1,
        level(h, d, instance_facts(h, d)[i].src as int) >= 0,
        instance_facts(h, d)[i].dst >= 2,
        instance_facts(h, d)[i].src < 2 <==> level(
            h,
            d,
            instance_facts(h, d)[i].src as int,
        ) == 0,
{
    let first = seed_facts(h, 0, seed_start(h, d, 0), (d + 1) as nat);
    let p = instance_facts(h, d)[i];
    let seed: int = if i < first.len() {
        0
    } else {
        1
    };
    let start = seed_start(h, d, seed);
    let (c, t) = if i < first.len() {
        lemma_seed_fact_shape(h, 0, start, (d + 1) as nat, i)
    } else {
        lemma_seed_fact_shape(h, 1, start, (d + 1) as nat, i - first.len())
    };
    assert(is_chain_fact(h, d, p, seed, c, t));
    lemma_chain_level(h, d, seed, c, t);
    lemma_chain_room(h, d, 3, 0);
    if t > 0 {
        lemma_chain_level(h, d, seed, c, t - 1);
        lemma_chain_room(h, d, start, c);
    }
}

/// No passage mentions both seeds.
pub proof fn lemma_no_passage_has_both(h: int, d: int, i: int)
    requires
        h >= 1,
        d >= 0,
        3 + 2 * chain_room(h, d) <= usize::MAX,
        0 <= i < instance_facts(h, d).len(),
    ensures
        !(instance_facts(h, d)[i].src < 2 && instance_facts(h, d)[i].dst < 2),
{
    lemma_facts_climb(h, d, i);
}

/// Every candidate is at the level that the question asks for.
pub proof fn lemma_candidate_levels(h: int, d: int, i: int)
    requires
        h >= 1,
        d >= 0,
        3 + 2 * chain_room(h, d) <= usize::MAX,
        0 <= i < instance_candidates(h, d).len(),
    ensures
        level(h, d, instance_candidates(h, d)[i] as int) == h,
{
    let c = instance_candidates(h, d);
    let a = dead_ends(h, seed_start(h, d, 0), (d + 1) as nat);
    let b = dead_ends(h, seed_start(h, d, 1), (d + 1) as nat);
    lemma_chain_room(h, d, 3, 0);
    if 1 <= i < 1 + a.len() {
        assert(c[i] == a[i - 1]);
        lemma_dead_ends(h, d, seed_start(h, d, 0), (d + 1) as nat, i - 1);
        lemma_chain_level(h, d, 0, i, h - 1);
    } else if i >= 1 + a.len() {
        let j = i - 1 - a.len();
        assert(c[i] == b[j]);
        lemma_dead_ends(h, d, seed_start(h, d, 1), (d + 1) as nat, j);
        lemma_chain_level(h, d, 1, j + 1, h - 1);
    }
}

/// A node that a passage mentions is one of its ends.
proof fn lemma_mention_is_end(passages: Seq<Passage>, v: int, k: nat, i: int)
    requires
        k <= passages.len() <= usize::MAX,
        0 <= i < mentioning(passages, v, k).len(),
    ensures
        ({
            let p = passages[mentioning(passages, v, k)[i] as int];
            mentioning(passages, v, k)[i] < k && (p.src == v || p.dst == v)
        }),
    decreases k,
{
    if k > 0 {
        let before = mentioning(passages, v, (k - 1) as nat);
        if i < before.len() {
            lemma_mention_is_end(passages, v, (k - 1) as nat, i);
        }
    }
}

/// At two hops and more no passage near a candidate mentions a seed: every
/// candidate scores 0, and ranking by mentions is ranking by chance.
pub proof fn lemma_mentions_collapse(inst: &Instance, h: int, d: int, i: int)
    requires
        h >= 2,
        d >= 0,
        is_instance(inst, h, d),
        0 <= i < inst.candidates@.len(),
    ensures
        mention_score(&inst.kg, inst.seeds@, inst.candidates@[i] as int) == 0,
{
    let v = inst.candidates@[i] as int;
    let kg = &inst.kg;
    lemma_instance_rankable(inst, h, d);
    assert(v < kg.n_nodes);
    lemma_candidate_levels(h, d, i);
    let p = seed_mention(kg, inst.seeds@, v);
    let list = kg.mentions@[v]@;
    assert(list == mentioning(kg.passages@, v, kg.passages@.len()));
    assert(kg.passages.len() == kg.passages@.len());
    assert forall|j: int| 0 <= j < list.len() implies !#[trigger] p(j) by {
        lemma_mention_is_end(kg.passages@, v, kg.passages@.len(), j);
        let pid = list[j] as int;
        lemma_facts_climb(h, d, pid);
        let f = kg.passages@[pid];
        assert(inst.seeds@ == seq![0usize, 1usize]);
        if inst.seeds@.contains(f.src) {
            let s = choose|s: int| 0 <= s < 2 && inst.seeds@[s] == f.src;
            assert(f.src < 2);
        }
        if inst.seeds@.contains(f.dst) {
            let s = choose|s: int| 0 <= s < 2 && inst.seeds@[s] == f.dst;
            assert(f.dst < 2);
        }
    }
    math::lemma_count_single(list.len(), p, 0, false);
}

/// The passage joins the two nodes.
pub open spec fn joins(p: Passage, v: int, w: int) -> bool {
    (p.src == v && p.dst == w) || (p.dst == v && p.src == w)
}

/// Neighbours are the nodes that a passage joins.
proof fn lemma_adjacent(passages: Seq<Passage>, v: int, k: nat, w: usize)
    requires
        k <= passages.len(),
    ensures
        neighbours(passages, v, k).contains(w) <==> exists|i: int|
            0 <= i < k && joins(#[trigger] passages[i], v, w as int),
    decreases k,
{
    let now = neighbours(passages, v, k);
    if k > 0 {
        let p = passages[k - 1];
        let before = neighbours(passages, v, (k - 1) as nat);
        lemma_adjacent(passages, v, (k - 1) as nat, w);
        if now.contains(w) {
            let j = choose|j: int| 0 <= j < now.len() && now[j] == w;
            if j < before.len() {
                assert(before[j] == w);
            } else {
                assert(joins(passages[k - 1], v, w as int));
            }
        }
        if exists|i: int| 0 <= i < k && joins(#[trigger] passages[i], v, w as int) {
            let i = choose|i: int| 0 <= i < k && joins(#[trigger] passages[i], v, w as int);
            if i < k - 1 {
                let j = choose|j: int| 0 <= j < before.len() && before[j] == w;
                assert(now[j] == w);
            } else if p.src == v && p.dst == w {
                assert(now[before.len() as int] == w);
            } else {
                assert(now[now.len() - 1] == w);
            }
        }
    }
}

/// Every fact of a chain is in the instance.
pub proof fn lemma_seed_fact_there(h: int, seed: int, start: int, n: nat, c: int, t: int) -> (i: int)
    requires
        h >= 1,
        0 <= c < n,
        0 <= t < h,
    ensures
        0 <= i < seed_facts(h, seed, start, n).len(),
        i == c * h + t,
        seed_facts(h, seed, start, n)[i] == chain_fact(
            h,
            seed,
            chain_start(h, start, c),
            c == 0,
            t,
        ),
    decreases n,
{
    let before = seed_facts(h, seed, start, (n - 1) as nat);
    lemma_seed_facts_len(h, seed, start, (n - 1) as nat);
    if c < n - 1 {
        lemma_seed_fact_there(h, seed, start, (n - 1) as nat, c, t)
    } else {
        (before.len() + t) as int
    }
}

/// The nodes of a chain from its seed on.
spec fn chain_walk(h: int, d: int, seed: int, c: int) -> Seq<usize> {
    Seq::new(
        (h + 1) as nat,
        |j: int|
            if j == 0 {
                seed as usize
            } else {
                chain_node(h, chain_start(h, seed_start(h, d, seed), c), c == 0, j - 1) as usize
            },
    )
}

/// Each candidate is the end of a chain.
pub proof fn lemma_candidate_chain(h: int, d: int, i: int) -> (r: (int, int))
    requires
        h >= 1,
        d >= 0,
        3 + 2 * chain_room(h, d) <= usize::MAX,
        0 <= i < instance_candidates(h, d).len(),
    ensures
        0 <= r.0 < 2,
        0 <= r.1 <= d,
        instance_candidates(h, d)[i] == chain_node(
            h,
            chain_start(h, seed_start(h, d, r.0), r.1),
            r.1 == 0,
            h - 1,
        ),
{
    let c = instance_candidates(h, d);
    let a = dead_ends(h, seed_start(h, d, 0), (d + 1) as nat);
    let b = dead_ends(h, seed_start(h, d, 1), (d + 1) as nat);
    lemma_chain_room(h, d, 3, 0);
    if i == 0 {
        (0, 0)
    } else if i < 1 + a.len() {
        assert(c[i] == a[i - 1]);
        lemma_dead_ends(h, d, seed_start(h, d, 0), (d + 1) as nat, i - 1);
        (0, i)
    } else {
        let j = i - 1 - a.len();
        assert(c[i] == b[j]);
        lemma_dead_ends(h, d, seed_start(h, d, 1), (d + 1) as nat, j);
        (1, j + 1)
    }
}

/// Along a walk the level goes up by at most one per edge.
proof fn lemma_walk_level(inst: &Instance, h: int, d: int, p: Seq<usize>, k: int)
    requires
        h >= 1,
        d >= 0,
        is_instance(inst, h, d),
        graph::is_walk(graph::listed(inst.kg.adj@), p),
        p[0] < 2,
        0 <= k < p.len(),
    ensures
        level(h, d, p[k] as int) <= k,
    decreases k,
{
    if k > 0 {
        lemma_walk_level(inst, h, d, p, k - 1);
        let e = graph::listed(inst.kg.adj@);
        assert(e(p[k - 1], p[k - 1 + 1]));
        let facts = inst.kg.passages@;
        let v = p[k - 1] as int;
        assert(inst.kg.adj@[v]@ == neighbours(facts, v, facts.len()));
        lemma_adjacent(facts, v, facts.len(), p[k]);
        let i = choose|i: int| 0 <= i < facts.len() && joins(#[trigger] facts[i], v, p[k] as int);
        lemma_facts_climb(h, d, i);
    }
}

/// Every candidate, the answer among them, is as many hops from the nearest
/// seed as the instance says: distance tells the answer from no other.
pub proof fn lemma_candidates_are_equally_far(inst: &Instance, h: int, d: int, i: int)
    requires
        h >= 1,
        d >= 0,
        is_instance(inst, h, d),
        0 <= i < inst.candidates@.len(),
        h < usize::MAX,
    ensures
        graph::is_distance(
            graph::listed(inst.kg.adj@),
            inst.seeds@,
            inst.candidates@[i],
            h as usize,
        ),
{
    let e = graph::listed(inst.kg.adj@);
    let v = inst.candidates@[i];
    let facts = inst.kg.passages@;
    lemma_chain_room(h, d, 3, 0);
    let (seed, c) = lemma_candidate_chain(h, d, i);
    let start = seed_start(h, d, seed);
    let p = chain_walk(h, d, seed, c);
    assert forall|j: int| 0 <= j < p.len() - 1 implies e(#[trigger] p[j], p[j + 1]) by {
        lemma_chain_level(h, d, seed, c, j);
        if j > 0 {
            lemma_chain_level(h, d, seed, c, j - 1);
        }
        let at = lemma_seed_fact_there(h, seed, start, (d + 1) as nat, c, j);
        let first = seed_facts(h, 0, seed_start(h, d, 0), (d + 1) as nat);
        let k = if seed == 0 {
            at
        } else {
            first.len() + at
        };
        let f = chain_fact(h, seed, chain_start(h, start, c), c == 0, j);
        assert(facts[k] == f);
        assert(joins(facts[k], p[j] as int, p[j + 1] as int));
        lemma_adjacent(facts, p[j] as int, facts.len(), p[j + 1]);
        assert(inst.kg.adj@[p[j] as int]@ == neighbours(facts, p[j] as int, facts.len()));
    }
    assert(inst.seeds@[seed] == seed as usize);
    assert(inst.seeds@.contains(seed as usize));
    assert(graph::walks(e, p, seed as usize, v));
    assert(graph::within(e, inst.seeds@, v, h as nat));
    lemma_candidate_levels(h, d, i);
    assert forall|k: nat| #[trigger] graph::within(e, inst.seeds@, v, k) implies h <= k by {
        let (s, w) = choose|s: usize, w: Seq<usize>|
            inst.seeds@.contains(s) && #[trigger] graph::walks(e, w, s, v) && w.len() == k + 1;
        let j = choose|j: int| 0 <= j < inst.seeds@.len() && inst.seeds@[j] == s;
        assert(s < 2);
        lemma_walk_level(inst, h, d, w, k as int);
    }
}

/// The target of fact `i` where every chain has one fact.
proof fn lemma_one_hop_facts(d: int, seed: int, start: int, n: nat, i: int)
    requires
        0 <= i < n,
        0 <= seed < 2,
    ensures
        seed_facts(1, seed, start, n).len() == n,
        seed_facts(1, seed, start, n)[i] == (Passage {
            src: seed as usize,
            dst: (if i == 0 {
                answer_node()
            } else {
                start + i - 1
            }) as usize,
        }),
    decreases n,
{
    lemma_seed_facts_len(1, seed, start, n);
    lemma_seed_facts_len(1, seed, start, (n - 1) as nat);
    if i < n - 1 {
        lemma_one_hop_facts(d, seed, start, (n - 1) as nat, i);
    }
}

/// How many ends of the first `k` passages that mention a seed are `v`.
spec fn seed_ends(passages: Seq<Passage>, seeds: Seq<usize>, v: int, k: nat) -> nat
    decreases k,
{
    if k == 0 {
        0
    } else {
        let p = passages[k - 1];
        seed_ends(passages, seeds, v, (k - 1) as nat) + (if touches(p, seeds) && p.src == v {
            1nat
        } else {
            0
        }) + (if touches(p, seeds) && p.dst == v {
            1nat
        } else {
            0
        })
    }
}

spec fn listed_touch(passages: Seq<Passage>, seeds: Seq<usize>, list: Seq<usize>) -> spec_fn(
    int,
) -> bool {
    |i: int| touches(passages[list[i] as int], seeds)
}

/// Counting through the list of mentions is counting the ends.
proof fn lemma_score_counts_ends(passages: Seq<Passage>, seeds: Seq<usize>, v: int, k: nat)
    requires
        k <= passages.len() <= usize::MAX,
    ensures
        math::count(
            mentioning(passages, v, k).len(),
            listed_touch(passages, seeds, mentioning(passages, v, k)),
        ) == seed_ends(passages, seeds, v, k),
    decreases k,
{
    if k > 0 {
        lemma_score_counts_ends(passages, seeds, v, (k - 1) as nat);
        let before = mentioning(passages, v, (k - 1) as nat);
        let now = mentioning(passages, v, k);
        let a = listed_touch(passages, seeds, before);
        let b = listed_touch(passages, seeds, now);
        math::lemma_count_same(before.len(), a, b);
        let n = before.len();
        let p = passages[k - 1];
        if p.src == v {
            assert(now[n as int] == k - 1);
            assert(b(n as int) == touches(p, seeds));
            assert(math::count(n + 1, b) == math::count(n, b) + (if b(n as int) {
                1nat
            } else {
                0
            }));
        }
        if p.dst == v && p.src == v {
            assert(now[(n + 1) as int] == k - 1);
            assert(b((n + 1) as int) == touches(p, seeds));
        } else if p.dst == v {
            assert(now[n as int] == k - 1);
            assert(b(n as int) == touches(p, seeds));
        }
    }
}

/// At one hop the answer is named next to both seeds and every other
/// candidate next to one: the answer scores 2, the others at most 1, and the
/// answer is first however ties are broken.
pub proof fn lemma_mentions_solve_one_hop(
    inst: &Instance,
    d: int,
    scores: Seq<u64>,
    order: Seq<usize>,
    rank: int,
)
    requires
        d >= 0,
        is_instance(inst, 1, d),
        mention_scored(inst, scores),
        forall|i: int| 0 <= i < order.len() ==> inst.candidates@.contains(#[trigger] order[i]),
        is_rank(order, scores, inst.answer, rank),
        order.no_duplicates(),
    ensures
        scores[inst.answer as int] == 2,
        rank == 1,
{
    let seeds = inst.seeds@;
    lemma_instance_rankable(inst, 1, d);
    lemma_one_hop_score(inst, d, inst.answer);
    assert(scores[inst.answer as int] == mention_score(&inst.kg, seeds, inst.answer as int));
    let up = ahead(order, scores, inst.answer);
    let eq = level_with(order, scores, inst.answer);
    assert forall|j: int| 0 <= j < order.len()
        implies !#[trigger] up(j) && (order[j] != inst.answer ==> !eq(j)) by {
        let v = order[j];
        assert(inst.candidates@.contains(v));
        let i = choose|i: int| 0 <= i < inst.candidates@.len() && inst.candidates@[i] == v;
        assert(v < inst.kg.n_nodes);
        lemma_candidate_levels(1, d, i);
        lemma_one_hop_score(inst, d, v);
        assert(scores[v as int] == mention_score(&inst.kg, seeds, v as int));
    }
    math::lemma_count_single(order.len(), up, 0, false);
    let at = choose|at: int| #[trigger]
        first_at(order, inst.answer, at) && rank == 1 + math::count(order.len(), up)
            + math::count(at as nat, eq);
    assert forall|j: int| 0 <= j < at implies !#[trigger] eq(j) by {
        assert(!up(j));
        assert(order[j] != inst.answer);
    }
    math::lemma_count_single(at as nat, eq, 0, false);
}

/// The score of a node that is no seed, where every chain has one fact.
proof fn lemma_one_hop_score(inst: &Instance, d: int, v: usize)
    requires
        d >= 0,
        is_instance(inst, 1, d),
        2 <= v < inst.kg.n_nodes || v == inst.answer,
    ensures
        v == inst.answer ==> mention_score(&inst.kg, inst.seeds@, v as int) == 2,
        v != inst.answer ==> mention_score(&inst.kg, inst.seeds@, v as int) <= 1,
{
    let facts = inst.kg.passages@;
    let seeds = inst.seeds@;
    let n = facts.len();
    lemma_chain_room(1, d, 3, 0);
    assert(inst.kg.passages.len() == n);
    assert(inst.kg.mentions@[v as int]@ == mentioning(facts, v as int, n));
    lemma_score_counts_ends(facts, seeds, v as int, n);
    math::lemma_count_same(
        mentioning(facts, v as int, n).len(),
        seed_mention(&inst.kg, seeds, v as int),
        listed_touch(facts, seeds, mentioning(facts, v as int, n)),
    );
    lemma_one_hop_shape(inst, d);
    lemma_one_hop_ends(inst, d, v as int, n);
}

/// Fact `i` where every chain has one fact.
spec fn one_hop_dst(d: int, i: int) -> int {
    if i == 0 || i == d + 1 {
        answer_node()
    } else if i <= d {
        3 + i - 1
    } else {
        3 + d + (i - d - 1) - 1
    }
}

proof fn lemma_one_hop_shape(inst: &Instance, d: int)
    requires
        d >= 0,
        is_instance(inst, 1, d),
    ensures
        inst.kg.passages@.len() == 2 * (d + 1),
        forall|i: int|
            0 <= i < 2 * (d + 1) ==> (#[trigger] inst.kg.passages@[i]).src < 2
                && inst.kg.passages@[i].dst == one_hop_dst(d, i),
{
    let a = seed_facts(1, 0, seed_start(1, d, 0), (d + 1) as nat);
    let b = seed_facts(1, 1, seed_start(1, d, 1), (d + 1) as nat);
    lemma_one_hop_facts(d, 0, seed_start(1, d, 0), (d + 1) as nat, 0);
    lemma_one_hop_facts(d, 1, seed_start(1, d, 1), (d + 1) as nat, 0);
    assert forall|i: int| 0 <= i < 2 * (d + 1)
        implies (#[trigger] inst.kg.passages@[i]).src < 2 && inst.kg.passages@[i].dst
        == one_hop_dst(d, i) by {
        if i < d + 1 {
            assert(inst.kg.passages@[i] == a[i]);
            lemma_one_hop_facts(d, 0, seed_start(1, d, 0), (d + 1) as nat, i);
        } else {
            assert(inst.kg.passages@[i] == b[i - (d + 1)]);
            lemma_one_hop_facts(d, 1, seed_start(1, d, 1), (d + 1) as nat, i - (d + 1));
        }
    }
}

/// How often `v` is the target of the first `k` facts.
proof fn lemma_one_hop_ends(inst: &Instance, d: int, v: int, k: nat)
    requires
        d >= 0,
        is_instance(inst, 1, d),
        v >= 2,
        k <= 2 * (d + 1),
        inst.kg.passages@.len() == 2 * (d + 1),
        forall|i: int|
            0 <= i < 2 * (d + 1) ==> (#[trigger] inst.kg.passages@[i]).src < 2
                && inst.kg.passages@[i].dst == one_hop_dst(d, i),
    ensures
        v == answer_node() ==> seed_ends(inst.kg.passages@, inst.seeds@, v, k) == (if k > d + 1 {
            2nat
        } else if k > 0 {
            1
        } else {
            0
        }),
        v != answer_node() ==> seed_ends(inst.kg.passages@, inst.seeds@, v, k) == (if 3 <= v && v
            < 3 + d {
            if k > v - 2 {
                1nat
            } else {
                0
            }
        } else if 3 + d <= v && v < 3 + 2 * d {
            if k > v - 1 {
                1nat
            } else {
                0
            }
        } else {
            0
        }),
    decreases k,
{
    if k > 0 {
        lemma_one_hop_ends(inst, d, v, (k - 1) as nat);
        let p = inst.kg.passages@[k - 1];
        assert(inst.seeds@[p.src as int] == p.src);
        assert(inst.seeds@.contains(p.src));
        assert(touches(p, inst.seeds@));
    }
}

/// The facts of drawn pairs are the pairs, but for those of one node.
pub proof fn lemma_drawn_facts(pairs: Seq<(usize, usize)>, n: nat, p: Passage)
    requires
        n <= pairs.len(),
    ensures
        drawn_facts(pairs, n).len() <= n,
        drawn_facts(pairs, n).contains(p) <==> p.src != p.dst && exists|i: int|
            0 <= i < n && #[trigger] pairs[i] == (p.src, p.dst),
    decreases n,
{
    let now = drawn_facts(pairs, n);
    if n > 0 {
        let before = drawn_facts(pairs, (n - 1) as nat);
        lemma_drawn_facts(pairs, (n - 1) as nat, p);
        if before.contains(p) {
            let j = choose|j: int| 0 <= j < before.len() && before[j] == p;
            assert(now[j] == p);
        }
        if pairs[n - 1] == (p.src, p.dst) && p.src != p.dst {
            assert(now[now.len() - 1] == p);
        }
        if now.contains(p) {
            let j = choose|j: int| 0 <= j < now.len() && now[j] == p;
            if j < before.len() {
                assert(before[j] == p);
            } else {
                assert(pairs[n - 1] == (p.src, p.dst));
            }
        }
    }
}

} // verus!
