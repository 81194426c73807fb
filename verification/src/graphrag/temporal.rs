//! A bi-temporal edge store.
//!
//! Each fact has two timelines: event time, when it was true in the world, and
//! ingestion time, when the system learned of it. Nothing is ever deleted: a
//! contradicted fact stays, with the time at which it stopped being true and
//! the time at which that was learned. So "what was true in March?" and "what
//! did we know in March?" are different questions with different answers.

use vstd::prelude::*;

verus! {

/// One fact with its two timelines. An entity has one current value per
/// relation.
#[derive(Clone, Copy, Debug, PartialEq, Eq, Structural)]
pub struct Edge {
    pub src: u32,
    pub rel: u32,
    pub dst: u32,
    /// Event time at which the fact became true.
    pub t_valid: u64,
    /// Event time at which it stopped being true.
    pub t_invalid: Option<u64>,
    /// Ingestion time at which the system learned the fact.
    pub t_created: u64,
    /// Ingestion time at which the system learned that it was superseded.
    pub t_expired: Option<u64>,
}

#[derive(Debug)]
pub struct TemporalStore {
    pub edges: Vec<Edge>,
}

impl Default for TemporalStore {
    fn default() -> (s: TemporalStore)
        ensures
            s.well_formed(),
            s.edges@ == Seq::<Edge>::empty(),
    {
        TemporalStore::new()
    }
}

/// The time has come by `t`.
pub open spec fn come_by(at: Option<u64>, t: u64) -> bool {
    at matches Some(x) && x <= t
}

/// The edge is one to see: learned by `t_ingest`, true at `t_event`, and not
/// known by then to have stopped being so.
pub open spec fn visible(e: Edge, t_event: u64, t_ingest: u64) -> bool {
    &&& e.t_created <= t_ingest
    &&& e.t_valid <= t_event
    &&& !(come_by(e.t_expired, t_ingest) && come_by(e.t_invalid, t_event))
}

/// The edges of a list that are visible, in order.
pub open spec fn visible_edges(edges: Seq<Edge>, t_event: u64, t_ingest: u64) -> Seq<Edge>
    decreases edges.len(),
{
    if edges.len() == 0 {
        Seq::empty()
    } else {
        let before = visible_edges(edges.drop_last(), t_event, t_ingest);
        if visible(edges.last(), t_event, t_ingest) {
            before.push(edges.last())
        } else {
            before
        }
    }
}

/// A new fact contradicts the edge: it is still valid, of the same entity and
/// relation, with another value.
pub open spec fn contradicted(e: Edge, src: u32, rel: u32, dst: u32) -> bool {
    e.t_invalid is None && e.src == src && e.rel == rel && e.dst != dst
}

/// The edge after a new fact.
pub open spec fn revised(
    e: Edge,
    src: u32,
    rel: u32,
    dst: u32,
    t_valid: u64,
    t_ingest: u64,
) -> Edge {
    if contradicted(e, src, rel, dst) {
        Edge { t_invalid: Some(t_valid), t_expired: Some(t_ingest), ..e }
    } else {
        e
    }
}

/// The edge of a new fact.
pub open spec fn fresh(src: u32, rel: u32, dst: u32, t_valid: u64, t_ingest: u64) -> Edge {
    Edge { src, rel, dst, t_valid, t_invalid: None, t_created: t_ingest, t_expired: None }
}

impl TemporalStore {
    /// An end is learned when it is set, and at most one value per entity and
    /// relation has none.
    pub open spec fn well_formed(&self) -> bool {
        &&& forall|i: int|
            0 <= i < self.edges@.len() ==> ((#[trigger] self.edges@[i]).t_invalid is Some
                <==> self.edges@[i].t_expired is Some)
        &&& forall|i: int, j: int|
            0 <= i < self.edges@.len() && 0 <= j < self.edges@.len() && (
            #[trigger] self.edges@[i]).t_invalid is None && (
            #[trigger] self.edges@[j]).t_invalid is None && self.edges@[i].src
                == self.edges@[j].src && self.edges@[i].rel == self.edges@[j].rel
                ==> self.edges@[i].dst == self.edges@[j].dst
    }

    pub fn new() -> (s: TemporalStore)
        ensures
            s.well_formed(),
            s.edges@ == Seq::<Edge>::empty(),
    {
        TemporalStore { edges: Vec::new() }
    }

    /// Takes in a fact, valid from `t_valid`, learned at `t_ingest`. What it
    /// contradicts is ended, not removed.
    pub fn ingest(&mut self, src: u32, rel: u32, dst: u32, t_valid: u64, t_ingest: u64)
        requires
            old(self).well_formed(),
        ensures
            final(self).well_formed(),
            final(self).edges@.len() == old(self).edges@.len() + 1,
            forall|i: int|
                0 <= i < old(self).edges@.len() ==> #[trigger] final(self).edges@[i] == revised(
                    old(self).edges@[i],
                    src,
                    rel,
                    dst,
                    t_valid,
                    t_ingest,
                ),
            final(self).edges@.last() == fresh(src, rel, dst, t_valid, t_ingest),
    {
        let ghost before = self.edges@;
        let n = self.edges.len();
        for i in 0..n
            invariant
                n == before.len() == self.edges@.len(),
                forall|j: int|
                    0 <= j < i ==> #[trigger] self.edges@[j] == revised(
                        before[j],
                        src,
                        rel,
                        dst,
                        t_valid,
                        t_ingest,
                    ),
                forall|j: int| i <= j < n ==> #[trigger] self.edges@[j] == before[j],
        {
            let mut e = self.edges[i];
            if e.t_invalid.is_none() && e.src == src && e.rel == rel && e.dst != dst {
                e.t_invalid = Some(t_valid);
                e.t_expired = Some(t_ingest);
                self.edges.set(i, e);
            }
        }
        self.edges.push(
            Edge {
                src,
                rel,
                dst,
                t_valid,
                t_invalid: None,
                t_created: t_ingest,
                t_expired: None,
            },
        );
        proof {
            assert forall|i: int| 0 <= i < self.edges@.len()
                implies ((#[trigger] self.edges@[i]).t_invalid is Some
                <==> self.edges@[i].t_expired is Some) by {
                if i < n {
                    assert(self.edges@[i] == revised(before[i], src, rel, dst, t_valid, t_ingest));
                    assert(before[i].t_invalid is Some <==> before[i].t_expired is Some);
                }
            }
            assert forall|i: int, j: int| 0 <= i < self.edges@.len() && 0 <= j < self.edges@.len() && (
            #[trigger] self.edges@[i]).t_invalid is None && (#[trigger] self.edges@[j]).t_invalid is None
                && self.edges@[i].src == self.edges@[j].src && self.edges@[i].rel == self.edges@[j].rel
                    implies self.edges@[i].dst
                == self.edges@[j].dst by {
                if i < n {
                    assert(self.edges@[i] == revised(before[i], src, rel, dst, t_valid, t_ingest));
                }
                if j < n {
                    assert(self.edges@[j] == revised(before[j], src, rel, dst, t_valid, t_ingest));
                }
                if i < n && j < n {
                    assert(before[i].t_invalid is None && before[j].t_invalid is None);
                }
            }
        }
    }

    /// Edges valid at event time `t_event`, as known at ingestion time
    /// `t_ingest`.
    pub fn as_of(&self, t_event: u64, t_ingest: u64) -> (r: Vec<&Edge>)
        ensures
            r@.len() == visible_edges(self.edges@, t_event, t_ingest).len(),
            forall|i: int|
                0 <= i < r@.len() ==> *(#[trigger] r@[i]) == visible_edges(
                    self.edges@,
                    t_event,
                    t_ingest,
                )[i],
    {
        let mut r: Vec<&Edge> = Vec::new();
        for i in 0..self.edges.len()
            invariant
                r@.len() == visible_edges(self.edges@.take(i as int), t_event, t_ingest).len(),
                forall|j: int|
                    0 <= j < r@.len() ==> *(#[trigger] r@[j]) == visible_edges(
                        self.edges@.take(i as int),
                        t_event,
                        t_ingest,
                    )[j],
        {
            assert(self.edges@.take(i + 1).drop_last() =~= self.edges@.take(i as int));
            let e = &self.edges[i];
            let ended = match (e.t_expired, e.t_invalid) {
                (Some(x), Some(y)) => x <= t_ingest && y <= t_event,
                _ => false,
            };
            if e.t_created <= t_ingest && e.t_valid <= t_event && !ended {
                r.push(e);
            }
        }
        assert(self.edges@.take(self.edges@.len() as int) =~= self.edges@);
        r
    }

    /// The current view: valid now, by the latest knowledge.
    pub fn current(&self) -> (r: Vec<&Edge>)
        ensures
            r@.len() == visible_edges(self.edges@, u64::MAX, u64::MAX).len(),
            forall|i: int|
                0 <= i < r@.len() ==> *(#[trigger] r@[i]) == visible_edges(
                    self.edges@,
                    u64::MAX,
                    u64::MAX,
                )[i],
    {
        self.as_of(u64::MAX, u64::MAX)
    }
}

/// What was known stays known: a fact that is learned later changes no answer
/// about an earlier state of knowledge.
pub proof fn lemma_the_past_stays(
    before: Seq<Edge>,
    after: Seq<Edge>,
    src: u32,
    rel: u32,
    dst: u32,
    t_valid: u64,
    t_ingest: u64,
    t_event: u64,
    known: u64,
)
    requires
        forall|i: int|
            0 <= i < before.len() ==> ((#[trigger] before[i]).t_invalid is Some
                <==> before[i].t_expired is Some),
        after.len() == before.len() + 1,
        forall|i: int|
            0 <= i < before.len() ==> #[trigger] after[i] == revised(
                before[i],
                src,
                rel,
                dst,
                t_valid,
                t_ingest,
            ),
        after.last() == fresh(src, rel, dst, t_valid, t_ingest),
        known < t_ingest,
    ensures
        forall|i: int|
            0 <= i < before.len() ==> visible(#[trigger] after[i], t_event, known) == visible(
                before[i],
                t_event,
                known,
            ),
        !visible(after.last(), t_event, known),
{
    assert forall|i: int| 0 <= i < before.len()
        implies visible(#[trigger] after[i], t_event, known) == visible(
        before[i],
        t_event,
        known,
    ) by {
        assert(before[i].t_invalid is Some <==> before[i].t_expired is Some);
    }
}

/// In the current view an entity has one value per relation.
pub proof fn lemma_one_current_value(store: &TemporalStore, a: Edge, b: Edge)
    requires
        store.well_formed(),
        visible_edges(store.edges@, u64::MAX, u64::MAX).contains(a),
        visible_edges(store.edges@, u64::MAX, u64::MAX).contains(b),
        a.src == b.src,
        a.rel == b.rel,
    ensures
        a.dst == b.dst,
{
    lemma_visible_edges(store.edges@, u64::MAX, u64::MAX, a);
    lemma_visible_edges(store.edges@, u64::MAX, u64::MAX, b);
    let i = choose|i: int| 0 <= i < store.edges@.len() && store.edges@[i] == a;
    let j = choose|j: int| 0 <= j < store.edges@.len() && store.edges@[j] == b;
    assert(store.edges@[i].t_invalid is None);
    assert(store.edges@[j].t_invalid is None);
}

/// The visible edges are the edges that are visible.
pub proof fn lemma_visible_edges(edges: Seq<Edge>, t_event: u64, t_ingest: u64, e: Edge)
    ensures
        visible_edges(edges, t_event, t_ingest).contains(e) <==> edges.contains(e) && visible(
            e,
            t_event,
            t_ingest,
        ),
    decreases edges.len(),
{
    if edges.len() > 0 {
        let first = edges.drop_last();
        let before = visible_edges(first, t_event, t_ingest);
        let now = visible_edges(edges, t_event, t_ingest);
        lemma_visible_edges(first, t_event, t_ingest, e);
        if edges.contains(e) {
            let i = choose|i: int| 0 <= i < edges.len() && edges[i] == e;
            if i < first.len() {
                assert(first[i] == e);
            }
        }
        if first.contains(e) {
            let i = choose|i: int| 0 <= i < first.len() && first[i] == e;
            assert(edges[i] == e);
        }
        assert(edges.contains(edges.last()));
        if visible(edges.last(), t_event, t_ingest) {
            assert(now[before.len() as int] == edges.last());
            if before.contains(e) {
                let i = choose|i: int| 0 <= i < before.len() && before[i] == e;
                assert(now[i] == e);
            }
            if now.contains(e) {
                let i = choose|i: int| 0 <= i < now.len() && now[i] == e;
                if i < before.len() {
                    assert(before[i] == e);
                }
            }
        }
    }
}

} // verus!
