//! What a fact does to what is known, at every point of both timelines.

use crate::graphrag::temporal;
use crate::graphrag::temporal::Edge;
use vstd::prelude::*;

verus! {

/// A new fact is seen from the time on at which it became true, by everyone who asks
/// what was known once it was learned.
pub proof fn lemma_new_fact_is_seen(
    src: u32,
    rel: u32,
    dst: u32,
    t_valid: u64,
    t_ingest: u64,
    event: u64,
    known: u64,
)
    ensures
        ({
            let e = temporal::fresh(src, rel, dst, t_valid, t_ingest);
            &&& e.src == src && e.rel == rel && e.dst == dst
            &&& temporal::visible(e, event, known) <==> t_valid <= event && t_ingest <= known
        }),
{
}

/// A fact that is superseded stays true before the new one became true, and for those
/// who ask what was known before the new one was learned.
pub proof fn lemma_superseded_fact(
    e: Edge,
    src: u32,
    rel: u32,
    dst: u32,
    t_valid: u64,
    t_ingest: u64,
    event: u64,
    known: u64,
)
    requires
        e.src == src,
        e.rel == rel,
        e.dst != dst,
        e.t_invalid is None,
        e.t_expired is None,
    ensures
        ({
            let now = temporal::revised(e, src, rel, dst, t_valid, t_ingest);
            &&& (now.src, now.rel, now.dst, now.t_valid, now.t_created) == (
                e.src,
                e.rel,
                e.dst,
                e.t_valid,
                e.t_created,
            )
            &&& temporal::visible(now, event, known) <==> e.t_created <= known && e.t_valid
                <= event && (event < t_valid || known < t_ingest)
        }),
{
}

/// A fact leaves alone what has ended already, what is of another entity or relation,
/// and what says the same.
pub proof fn lemma_other_facts_stay(
    e: Edge,
    src: u32,
    rel: u32,
    dst: u32,
    t_valid: u64,
    t_ingest: u64,
)
    requires
        e.src != src || e.rel != rel || e.dst == dst || e.t_invalid is Some,
    ensures
        temporal::revised(e, src, rel, dst, t_valid, t_ingest) == e,
{
}

/// So the value of an entity changes at the time the new fact became true: of a fact
/// and the one that supersedes it, exactly one is seen at every later event time by
/// those who know both.
pub proof fn lemma_one_value_at_a_time(
    e: Edge,
    dst: u32,
    t_valid: u64,
    t_ingest: u64,
    event: u64,
    known: u64,
)
    requires
        e.dst != dst,
        e.t_invalid is None,
        e.t_expired is None,
        e.t_created <= known,
        t_ingest <= known,
        e.t_valid <= event,
        e.t_valid <= t_valid,
    ensures
        temporal::visible(
            temporal::revised(e, e.src, e.rel, dst, t_valid, t_ingest),
            event,
            known,
        ) != temporal::visible(
            temporal::fresh(e.src, e.rel, dst, t_valid, t_ingest),
            event,
            known,
        ),
{
}

} // verus!
