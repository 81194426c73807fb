//! Record linkage: which records are of one person.
//!
//! A pair of records has an agreement pattern over the fields; whether a
//! pattern counts as a match is up to the caller, who weighs it. Only pairs
//! that agree on a blocking key are compared, in two passes, so that one typo
//! cannot hide a duplicate; pairs that match are merged.

use crate::graph;
use crate::math;
use crate::onchain::clustering;
use crate::onchain::union_find;
use crate::onchain::union_find::UnionFind;
use crate::rng;
use crate::sorting;
use rand_chacha::ChaCha8Rng;
use std::collections::HashMap;
use vstd::prelude::*;

verus! {

broadcast use vstd::std_specs::hash::group_hash_axioms;

pub const FIELDS: usize = 5;

/// How many patterns there are.
pub const PATTERNS: usize = 32;

/// How many values a field has: first name, last name, date of birth, city,
/// phone.
pub open spec fn pool(f: int) -> u32 {
    if f == 0 {
        200
    } else if f == 1 {
        500
    } else if f == 2 {
        3650
    } else if f == 3 {
        200
    } else {
        2000
    }
}

/// How often a field is corrupted, in units of 2^-53: 0.10, 0.07, 0.03, 0.12
/// and 0.05.
pub open spec fn typo(f: int) -> u64 {
    if f == 0 {
        900_719_925_474_100
    } else if f == 1 {
        630_503_947_831_870
    } else if f == 2 {
        270_215_977_642_230
    } else if f == 3 {
        1_080_863_910_568_919
    } else {
        450_359_962_737_050
    }
}

pub fn pool_size(f: usize) -> (n: u32)
    ensures
        n == pool(f as int),
        n > 0,
{
    match f {
        0 => 200,
        1 => 500,
        2 => 3650,
        3 => 200,
        _ => 2000,
    }
}

pub fn typo_rate(f: usize) -> (t: u64)
    ensures
        t == typo(f as int),
{
    match f {
        0 => 900_719_925_474_100,
        1 => 630_503_947_831_870,
        2 => 270_215_977_642_230,
        3 => 1_080_863_910_568_919,
        _ => 450_359_962_737_050,
    }
}

#[derive(Clone, Copy, Debug)]
pub struct Record {
    pub entity: usize,
    pub fields: [u32; FIELDS],
}

/// The first `f` fields of a person, and the stream that is left.
pub open spec fn person(stream: Map<nat, u32>, f: nat) -> (Seq<u32>, Map<nat, u32>)
    decreases f,
{
    if f == 0 {
        (Seq::empty(), stream)
    } else {
        let (before, rest) = person(stream, (f - 1) as nat);
        let (x, used) = rng::range_draw_u32(rest, 0, pool(f - 1));
        (before.push(x), rng::skip_words(rest, used))
    }
}

/// The first `f` fields of a record of a person, each kept or redrawn, and the
/// stream that is left.
pub open spec fn copied(truth: Seq<u32>, stream: Map<nat, u32>, f: nat) -> (
    Seq<u32>,
    Map<nat, u32>,
)
    decreases f,
{
    if f == 0 {
        (Seq::empty(), stream)
    } else {
        let (before, rest) = copied(truth, stream, (f - 1) as nat);
        let mid = rng::skip_words(rest, 2);
        if rng::first_u64(rest) / 2048 < typo(f - 1) {
            let (x, used) = rng::range_draw_u32(mid, 0, pool(f - 1));
            (before.push(x), rng::skip_words(mid, used))
        } else {
            (before.push(truth[f - 1]), mid)
        }
    }
}

/// `d` records of the person after the first `e`, behind those of the first
/// `e`, and the stream that is left.
pub open spec fn population(stream: Map<nat, u32>, dups: nat, e: nat) -> (
    Seq<(int, Seq<u32>)>,
    Map<nat, u32>,
)
    decreases e,
{
    if e == 0 {
        (Seq::empty(), stream)
    } else {
        let (before, rest) = population(stream, dups, (e - 1) as nat);
        let (truth, mid) = person(rest, FIELDS as nat);
        let (rows, end) = copies(truth, mid, dups, e - 1);
        (before + rows, end)
    }
}

/// `d` records of one person, and the stream that is left.
pub open spec fn copies(truth: Seq<u32>, stream: Map<nat, u32>, d: nat, entity: int) -> (
    Seq<(int, Seq<u32>)>,
    Map<nat, u32>,
)
    decreases d,
{
    if d == 0 {
        (Seq::empty(), stream)
    } else {
        let (before, rest) = copies(truth, stream, (d - 1) as nat, entity);
        let (fields, end) = copied(truth, rest, FIELDS as nat);
        (before.push((entity, fields)), end)
    }
}

/// The records as values.
pub open spec fn record_values(records: Seq<Record>) -> Seq<(int, Seq<u32>)> {
    records.map_values(|r: Record| (r.entity as int, r.fields@))
}

fn draw_person(rng: &mut ChaCha8Rng) -> (truth: Vec<u32>)
    ensures
        truth@.len() == FIELDS,
        (truth@, rng::words(*final(rng))) == person(rng::words(*old(rng)), FIELDS as nat),
{
    let mut truth: Vec<u32> = Vec::new();
    for f in 0..FIELDS
        invariant
            truth@.len() == f,
            (truth@, rng::words(*rng)) == person(rng::words(*old(rng)), f as nat),
    {
        let x = rng::gen_range_u32(rng, 0, pool_size(f));
        truth.push(x);
    }
    truth
}

fn draw_copy(rng: &mut ChaCha8Rng, truth: &Vec<u32>) -> (fields: [u32; FIELDS])
    requires
        truth@.len() == FIELDS,
    ensures
        (fields@, rng::words(*final(rng))) == copied(
            truth@,
            rng::words(*old(rng)),
            FIELDS as nat,
        ),
{
    let mut v: Vec<u32> = Vec::new();
    for f in 0..FIELDS
        invariant
            truth@.len() == FIELDS,
            v@.len() == f,
            (v@, rng::words(*rng)) == copied(truth@, rng::words(*old(rng)), f as nat),
    {
        let x = if rng::coin(rng, typo_rate(f)) {
            rng::gen_range_u32(rng, 0, pool_size(f))
        } else {
            truth[f]
        };
        v.push(x);
    }
    let fields = [v[0], v[1], v[2], v[3], v[4]];
    assert(fields@ =~= v@);
    fields
}

/// `dups` records each of `n_entities` people; every field of every record is
/// corrupted with its own rate.
pub fn generate_records(rng: &mut ChaCha8Rng, n_entities: usize, dups: usize) -> (records: Vec<
    Record,
>)
    ensures
        (record_values(records@), rng::words(*final(rng))) == population(
            rng::words(*old(rng)),
            dups as nat,
            n_entities as nat,
        ),
{
    let mut records: Vec<Record> = Vec::new();
    assert(record_values(records@) =~= Seq::empty());
    for entity in 0..n_entities
        invariant
            (record_values(records@), rng::words(*rng)) == population(
                rng::words(*old(rng)),
                dups as nat,
                entity as nat,
            ),
    {
        let ghost before = record_values(records@);
        let truth = draw_person(rng);
        let ghost mid = rng::words(*rng);
        assert(before =~= before + copies(truth@, mid, 0, entity as int).0);
        for d in 0..dups
            invariant
                truth@.len() == FIELDS,
                record_values(records@) == before + copies(
                    truth@,
                    mid,
                    d as nat,
                    entity as int,
                ).0,
                rng::words(*rng) == copies(truth@, mid, d as nat, entity as int).1,
        {
            let fields = draw_copy(rng, &truth);
            let ghost was = records@;
            let r = Record { entity, fields };
            records.push(r);
            proof {
                assert(record_values(records@) =~= record_values(was).push(
                    (entity as int, fields@),
                ));
                assert(record_values(records@) =~= before + copies(
                    truth@,
                    mid,
                    (d + 1) as nat,
                    entity as int,
                ).0);
            }
        }
    }
    records
}

/// The two records agree on a field.
pub open spec fn agree(a: Record, b: Record, f: int) -> bool {
    a.fields@[f] == b.fields@[f]
}

pub fn agreement(a: &Record, b: &Record) -> (pat: [bool; FIELDS])
    ensures
        forall|f: int| 0 <= f < FIELDS ==> #[trigger] pat@[f] == agree(*a, *b, f),
{
    let pat = [
        a.fields[0] == b.fields[0],
        a.fields[1] == b.fields[1],
        a.fields[2] == b.fields[2],
        a.fields[3] == b.fields[3],
        a.fields[4] == b.fields[4],
    ];
    pat
}

/// The number of a pattern: bit `f` for field `f`.
pub open spec fn pattern_number(a: Record, b: Record) -> int {
    (if agree(a, b, 0) {
        1int
    } else {
        0
    }) + (if agree(a, b, 1) {
        2int
    } else {
        0
    }) + (if agree(a, b, 2) {
        4int
    } else {
        0
    }) + (if agree(a, b, 3) {
        8int
    } else {
        0
    }) + (if agree(a, b, 4) {
        16int
    } else {
        0
    })
}

pub fn pattern_of(a: &Record, b: &Record) -> (p: usize)
    ensures
        p == pattern_number(*a, *b),
        p < PATTERNS,
{
    let pat = agreement(a, b);
    let mut p: usize = 0;
    if pat[0] {
        p += 1;
    }
    if pat[1] {
        p += 2;
    }
    if pat[2] {
        p += 4;
    }
    if pat[3] {
        p += 8;
    }
    if pat[4] {
        p += 16;
    }
    p
}

/// The pair is one of two records, in order, that agree on a field.
pub open spec fn is_block_pair(records: Seq<Record>, f: int, p: (usize, usize)) -> bool {
    p.0 < p.1 < records.len() && agree(records[p.0 as int], records[p.1 as int], f)
}

/// The places of each value among the first `n` records.
spec fn bucketed(m: Map<u64, Vec<usize>>, records: Seq<Record>, f: int, n: int) -> bool {
    &&& forall|k: u64, i: int|
        m.contains_key(k) && 0 <= i < m[k]@.len() ==> (#[trigger] m[k]@[i]) < n
            && records[m[k]@[i] as int].fields@[f] == k
    &&& forall|i: int|
        0 <= i < n ==> m.contains_key((#[trigger] records[i]).fields@[f] as u64)
            && m[records[i].fields@[f] as u64]@.contains(i as usize)
}

/// One blocking pass: all pairs that agree on a field, in order.
pub fn block_pairs(records: &[Record], key_field: usize) -> (pairs: Vec<(usize, usize)>)
    requires
        key_field < FIELDS,
    ensures
        sorting::is_strict(pairs@),
        forall|p: (usize, usize)| #[trigger]
            pairs@.contains(p) <==> is_block_pair(records@, key_field as int, p),
{
    let ghost f = key_field as int;
    let mut buckets: HashMap<u64, Vec<usize>> = HashMap::new();
    let mut found: Vec<(usize, usize)> = Vec::new();
    for j in 0..records.len()
        invariant
            key_field < FIELDS,
            f == key_field,
            bucketed(buckets@, records@, f, j as int),
            forall|p: (usize, usize)| #[trigger]
                found@.contains(p) <==> is_block_pair(records@, f, p) && p.1 < j,
    {
        let k = records[j].fields[key_field] as u64;
        let ghost m0 = buckets@;
        let mut bucket = match buckets.remove(&k) {
            Some(b) => b,
            None => Vec::new(),
        };
        let ghost b0 = bucket@;
        let ghost found0 = found@;
        for x in 0..bucket.len()
            invariant
                j < records@.len(),
                f == key_field,
                k == records@[j as int].fields@[f],
                bucket@ == b0,
                forall|i: int|
                    0 <= i < b0.len() ==> (#[trigger] b0[i]) < j && records@[b0[i] as int].fields@[f]
                        == k,
                forall|p: (usize, usize)| #[trigger]
                    found0.contains(p) <==> is_block_pair(records@, f, p) && p.1 < j,
                forall|p: (usize, usize)| #[trigger]
                    found@.contains(p) <==> found0.contains(p) || (p.1 == j && exists|i: int|
                        0 <= i < x && #[trigger] b0[i] == p.0),
        {
            let ghost was = found@;
            let e = (bucket[x], j);
            found.push(e);
            proof {
                assert forall|p: (usize, usize)| #[trigger] found@.contains(p) <==> found0.contains(p) || (p.1 == j
                    && exists|i: int| 0 <= i < x + 1 && #[trigger] b0[i] == p.0) by {
                    assert(was.contains(p) <==> found0.contains(p) || (p.1 == j && exists|i: int|
                        0 <= i < x && #[trigger] b0[i] == p.0));
                    if was.contains(p) {
                        let i = choose|i: int| 0 <= i < was.len() && was[i] == p;
                        assert(found@[i] == p);
                    }
                    if found@.contains(p) {
                        let i = choose|i: int| 0 <= i < found@.len() && found@[i] == p;
                        if i < was.len() {
                            assert(was[i] == p);
                        } else {
                            assert(b0[x as int] == p.0);
                        }
                    }
                    assert(found@[was.len() as int] == e);
                    if exists|i: int| 0 <= i < x && #[trigger] b0[i] == p.0 {
                        let i = choose|i: int| 0 <= i < x && #[trigger] b0[i] == p.0;
                        assert(b0[i] == p.0);
                    }
                }
            }
        }
        proof {
            assert forall|p: (usize, usize)| #[trigger] found@.contains(p) <==> is_block_pair(records@, f, p) && p.1 < j
                + 1 by {
                assert(found0.contains(p) <==> is_block_pair(records@, f, p) && p.1 < j);
                if p.1 == j && is_block_pair(records@, f, p) {
                    let i0 = p.0 as int;
                    assert(m0.contains_key(records@[i0].fields@[f] as u64));
                    assert(m0[records@[i0].fields@[f] as u64]@.contains(i0 as usize));
                    let i = choose|i: int| 0 <= i < b0.len() && b0[i] == p.0;
                    assert(b0[i] == p.0);
                }
                if p.1 == j && exists|i: int| 0 <= i < b0.len() && #[trigger] b0[i] == p.0 {
                    let i = choose|i: int| 0 <= i < b0.len() && #[trigger] b0[i] == p.0;
                    assert(b0[i] < j);
                }
            }
        }
        bucket.push(j);
        let ghost b1 = bucket@;
        buckets.insert(k, bucket);
        proof {
            let m = buckets@;
            assert(m[k]@ == b1);
            assert forall|q: u64, i: int| m.contains_key(q) && 0 <= i < m[q]@.len()
                implies (#[trigger] m[q]@[i]) < j + 1
                && records@[m[q]@[i] as int].fields@[f] == q by {
                if q != k {
                    assert(m0[q]@[i] < j);
                } else if i < b0.len() {
                    assert(b0[i] < j);
                }
            }
            assert forall|i: int| 0 <= i < j + 1
                implies m.contains_key((#[trigger] records@[i]).fields@[f] as u64)
                && m[records@[i].fields@[f] as u64]@.contains(i as usize) by {
                let q = records@[i].fields@[f] as u64;
                if i < j {
                    assert(m0.contains_key(q) && m0[q]@.contains(i as usize));
                    if q == k {
                        let x = choose|x: int| 0 <= x < b0.len() && b0[x] == i as usize;
                        assert(b1[x] == i as usize);
                    }
                } else {
                    assert(b1[b0.len() as int] == j);
                }
            }
        }
    }
    let pairs = sorting::sorted_distinct(&found);
    proof {
        assert forall|p: (usize, usize)| #[trigger] pairs@.contains(p) <==> is_block_pair(records@, f, p) by {
            assert(found@.contains(p) <==> is_block_pair(records@, f, p) && p.1 < records@.len());
        }
    }
    pairs
}

/// Two blocking passes, by last name and by date of birth, together: a pair of
/// duplicates is lost only where both were corrupted.
pub fn candidate_pairs(records: &[Record]) -> (pairs: Vec<(usize, usize)>)
    ensures
        sorting::is_strict(pairs@),
        forall|p: (usize, usize)| #[trigger]
            pairs@.contains(p) <==> is_block_pair(records@, 1, p) || is_block_pair(records@, 2, p),
{
    let mut all = block_pairs(records, 1);
    let mut more = block_pairs(records, 2);
    let ghost a = all@;
    let ghost b = more@;
    all.append(&mut more);
    let pairs = sorting::sorted_distinct(&all);
    proof {
        assert forall|p: (usize, usize)| #[trigger] pairs@.contains(p) <==> is_block_pair(records@, 1, p)
            || is_block_pair(records@, 2, p) by {
            assert(a.contains(p) <==> is_block_pair(records@, 1, p));
            assert(b.contains(p) <==> is_block_pair(records@, 2, p));
            if all@.contains(p) {
                let i = choose|i: int| 0 <= i < all@.len() && all@[i] == p;
                if i < a.len() {
                    assert(a[i] == p);
                } else {
                    assert(b[i - a.len()] == p);
                }
            }
            if a.contains(p) {
                let i = choose|i: int| 0 <= i < a.len() && a[i] == p;
                assert(all@[i] == p);
            }
            if b.contains(p) {
                let i = choose|i: int| 0 <= i < b.len() && b[i] == p;
                assert(all@[i + a.len()] == p);
            }
        }
    }
    pairs
}

/// How many pairs there are without blocking.
pub fn naive_pair_count(n: usize) -> (k: usize)
    requires
        n > 0,
        n * (n - 1) <= usize::MAX,
    ensures
        k == n * (n - 1) / 2,
{
    n * (n - 1) / 2
}

/// `n` pairs of different places below `len`, and the stream that is left: the
/// second place is drawn from those that are left.
pub open spec fn random_pairs(stream: Map<nat, u32>, len: usize, n: nat) -> (
    Seq<(usize, usize)>,
    Map<nat, u32>,
)
    decreases n,
{
    if n == 0 {
        (Seq::empty(), stream)
    } else {
        let (before, rest) = random_pairs(stream, len, (n - 1) as nat);
        let (i, used) = rng::range_draw(rest, 0, len as u64);
        let mid = rng::skip_words(rest, used);
        let (j, used2) = rng::range_draw(mid, 0, (len - 1) as u64);
        (
            before.push(
                (
                    i as usize,
                    if j < i {
                        j as usize
                    } else {
                        (j + 1) as usize
                    },
                ),
            ),
            rng::skip_words(mid, used2),
        )
    }
}

/// The pairs are of two different places that there are.
pub open spec fn pairs_differ(pairs: Seq<(usize, usize)>, n: int) -> bool {
    forall|k: int|
        0 <= k < pairs.len() ==> (#[trigger] pairs[k]).0 < n && pairs[k].1 < n && pairs[k].0
            != pairs[k].1
}

pub open spec fn agreeing(records: Seq<Record>, pairs: Seq<(usize, usize)>, f: int) -> spec_fn(
    int,
) -> bool {
    |s: int| agree(records[pairs[s].0 as int], records[pairs[s].1 as int], f)
}

/// How many of `samples` random pairs of records agree, field by field. Random
/// pairs are nearly all of different people, so this is how often a field
/// agrees by chance.
pub fn estimate_u_random(rng: &mut ChaCha8Rng, records: &[Record], samples: usize) -> (counts: Vec<
    u64,
>)
    requires
        samples > 0 ==> records@.len() >= 2,
    ensures
        counts@.len() == FIELDS,
        ({
            let (pairs, rest) = random_pairs(
                rng::words(*old(rng)),
                records@.len() as usize,
                samples as nat,
            );
            &&& forall|f: int|
                0 <= f < FIELDS ==> #[trigger] counts@[f] == math::count(
                    samples as nat,
                    agreeing(records@, pairs, f),
                )
            &&& rng::words(*final(rng)) == rest
            &&& pairs_differ(pairs, records@.len() as int)
        }),
{
    let n = records.len();
    let mut counts: Vec<u64> = vec![0; FIELDS];
    let ghost start = rng::words(*rng);
    let ghost mut pairs: Seq<(usize, usize)> = Seq::empty();
    for s in 0..samples
        invariant
            samples > 0 ==> n >= 2,
            n == records@.len(),
            start == rng::words(*old(rng)),
            counts@.len() == FIELDS,
            pairs.len() == s,
            (pairs, rng::words(*rng)) == random_pairs(start, n, s as nat),
            pairs_differ(pairs, n as int),
            forall|f: int|
                0 <= f < FIELDS ==> #[trigger] counts@[f] == math::count(
                    s as nat,
                    agreeing(records@, pairs, f),
                ),
    {
        let i = rng::draw_index(rng, 0, n);
        let k = rng::draw_index(rng, 0, n - 1);
        let j = if k < i {
            k
        } else {
            k + 1
        };
        let pat = agreement(&records[i], &records[j]);
        let ghost before = pairs;
        proof {
            pairs = pairs.push((i, j));
            assert(pairs_differ(pairs, n as int)) by {
                assert forall|k: int| 0 <= k < pairs.len() implies (#[trigger] pairs[k]).0 < n
                    && pairs[k].1 < n && pairs[k].0 != pairs[k].1 by {
                    if k < before.len() {
                        assert(pairs[k] == before[k]);
                    }
                }
            }
            assert forall|f: int| 0 <= f < FIELDS implies #[trigger] counts@[f] == math::count(
                s as nat,
                agreeing(records@, pairs, f),
            ) by {
                math::lemma_count_same(
                    s as nat,
                    agreeing(records@, before, f),
                    agreeing(records@, pairs, f),
                );
            }
        }
        for f in 0..FIELDS
            invariant
                s < samples,
                counts@.len() == FIELDS,
                forall|g: int|
                    0 <= g < FIELDS ==> pat@[g] == (#[trigger] agreeing(records@, pairs, g))(
                        s as int,
                    ),
                forall|g: int|
                    0 <= g < FIELDS ==> #[trigger] counts@[g] == math::count(
                        (if g < f {
                            (s + 1) as nat
                        } else {
                            s as nat
                        }),
                        agreeing(records@, pairs, g),
                    ),
        {
            proof {
                math::lemma_count_le(s as nat, agreeing(records@, pairs, f as int));
                assert(pat@[f as int] == agreeing(records@, pairs, f as int)(s as int));
            }
            if pat[f] {
                let c = counts[f] + 1;
                counts.set(f, c);
            }
        }
    }
    counts
}

pub open spec fn has_pattern(records: Seq<Record>, pairs: Seq<(usize, usize)>, p: int) -> spec_fn(
    int,
) -> bool {
    |i: int| pattern_number(records[pairs[i].0 as int], records[pairs[i].1 as int]) == p
}

/// The pairs are of places that there are.
pub open spec fn pairs_within(records: Seq<Record>, pairs: Seq<(usize, usize)>) -> bool {
    forall|i: int|
        0 <= i < pairs.len() ==> (#[trigger] pairs[i]).0 < records.len() && pairs[i].1
            < records.len()
}

/// How many of the pairs have each agreement pattern.
pub fn pattern_counts(records: &[Record], pairs: &[(usize, usize)]) -> (counts: Vec<u64>)
    requires
        pairs_within(records@, pairs@),
    ensures
        counts@.len() == PATTERNS,
        forall|p: int|
            0 <= p < PATTERNS ==> #[trigger] counts@[p] == math::count(
                pairs@.len(),
                has_pattern(records@, pairs@, p),
            ),
{
    let mut counts: Vec<u64> = vec![0; PATTERNS];
    for i in 0..pairs.len()
        invariant
            pairs_within(records@, pairs@),
            counts@.len() == PATTERNS,
            forall|p: int|
                0 <= p < PATTERNS ==> #[trigger] counts@[p] == math::count(
                    i as nat,
                    has_pattern(records@, pairs@, p),
                ),
    {
        let (a, b) = pairs[i];
        assert(pairs@[i as int].0 < records@.len());
        let p = pattern_of(&records[a], &records[b]);
        proof {
            math::lemma_count_le(i as nat, has_pattern(records@, pairs@, p as int));
        }
        let c = counts[p] + 1;
        counts.set(p, c);
    }
    counts
}

/// Two records are linked: they were compared, and their pattern counts as a
/// match.
pub open spec fn linked(records: Seq<Record>, accept: Seq<bool>) -> graph::Edges {
    |a: usize, b: usize|
        is_link(records, accept, (a, b)) || is_link(records, accept, (b, a))
}

pub open spec fn is_link(records: Seq<Record>, accept: Seq<bool>, p: (usize, usize)) -> bool {
    &&& is_block_pair(records, 1, p) || is_block_pair(records, 2, p)
    &&& accept[pattern_number(records[p.0 as int], records[p.1 as int])]
}

/// Merges the candidate pairs whose pattern is accepted: records get one label
/// where links lead from one to the other.
pub fn link(records: &[Record], accept: &Vec<bool>) -> (labels: Vec<u32>)
    requires
        records@.len() <= u32::MAX,
        accept@.len() == PATTERNS,
    ensures
        labels@.len() == records@.len(),
        forall|a: usize, b: usize|
            a < labels@.len() && b < labels@.len() ==> (labels@[a as int] == labels@[b as int]
                <==> #[trigger] graph::reach(linked(records@, accept@), a, b)),
{
    let n = records.len();
    let pairs = candidate_pairs(records);
    let mut uf = UnionFind::new(n);
    let ghost mut taken: Seq<(u32, u32)> = Seq::empty();
    proof {
        clustering::lemma_no_pairs(&uf, n as nat);
    }
    for i in 0..pairs.len()
        invariant
            n == records@.len() <= u32::MAX,
            accept@.len() == PATTERNS,
            forall|p: (usize, usize)| #[trigger]
                pairs@.contains(p) <==> is_block_pair(records@, 1, p) || is_block_pair(
                    records@,
                    2,
                    p,
                ),
            clustering::merged(&uf, taken, n as nat),
            forall|k: int|
                0 <= k < taken.len() ==> is_link(
                    records@,
                    accept@,
                    ((#[trigger] taken[k]).0 as usize, taken[k].1 as usize),
                ),
            forall|k: int|
                0 <= k < i && is_link(records@, accept@, #[trigger] pairs@[k]) ==> taken.contains(
                    (pairs@[k].0 as u32, pairs@[k].1 as u32),
                ),
    {
        let (a, b) = pairs[i];
        proof {
            assert(pairs@.contains(pairs@[i as int]));
        }
        let ghost before = taken;
        if accept[pattern_of(&records[a], &records[b])] {
            clustering::merge(&mut uf, a as u32, b as u32, Ghost(taken), Ghost(n as nat));
            proof {
                taken = taken.push((a as u32, b as u32));
            }
        }
        proof {
            assert forall|k: int| 0 <= k < i + 1 && is_link(records@, accept@, #[trigger] pairs@[k])
                implies taken.contains(
                (pairs@[k].0 as u32, pairs@[k].1 as u32),
            ) by {
                if k < i {
                    let x = (pairs@[k].0 as u32, pairs@[k].1 as u32);
                    assert(before.contains(x));
                    let j = choose|j: int| 0 <= j < before.len() && before[j] == x;
                    assert(taken[j] == x);
                } else {
                    assert(taken[before.len() as int] == (a as u32, b as u32));
                }
            }
        }
    }
    let ghost settled = uf;
    let labels = uf.labels();
    proof {
        let e = linked(records@, accept@);
        let f = union_find::pair_rel(taken);
        assert forall|x: usize, y: usize| #[trigger] f(x, y) == e(x, y) by {
            if f(x, y) {
                let i = choose|i: int|
                    0 <= i < taken.len() && ((#[trigger] taken[i]).0 == x && taken[i].1 == y
                        || taken[i].0 == y && taken[i].1 == x);
                assert(is_link(records@, accept@, (taken[i].0 as usize, taken[i].1 as usize)));
            }
            if e(x, y) {
                let p = if is_link(records@, accept@, (x, y)) {
                    (x, y)
                } else {
                    (y, x)
                };
                assert(pairs@.contains(p));
                let k = choose|k: int| 0 <= k < pairs@.len() && pairs@[k] == p;
                assert(is_link(records@, accept@, pairs@[k]));
                let t = (p.0 as u32, p.1 as u32);
                assert(taken.contains(t));
                let i = choose|i: int| 0 <= i < taken.len() && taken[i] == t;
                assert(taken[i].0 == p.0 && taken[i].1 == p.1);
            }
        }
        assert forall|a: usize, b: usize| a < labels@.len() && b < labels@.len()
            implies (labels@[a as int] == labels@[b as int]
                <==> #[trigger] graph::reach(e, a, b)) by {
            assert(settled.same(a as u32, b as u32) == graph::reach(f, a, b));
            graph::lemma_reach_same(f, e, a, b);
        }
    }
    labels
}

pub open spec fn entity_key(records: Seq<Record>) -> spec_fn(int) -> int {
    |a: int| records[a].entity as int
}

/// A key for label and entity together.
pub open spec fn joint_key(records: Seq<Record>, labels: Seq<u32>) -> spec_fn(int) -> int {
    |a: int| labels[a] * 0x1_0000_0000_0000_0000 + records[a].entity
}

/// A pair has equal joint keys exactly when it has one label and one entity.
pub proof fn lemma_joint_key(records: Seq<Record>, labels: Seq<u32>, a: int, b: int)
    ensures
        joint_key(records, labels)(a) == joint_key(records, labels)(b) <==> labels[a] == labels[b]
            && records[a].entity == records[b].entity,
{
}

/// How the pairs that a clustering puts together compare with the truth: pairs
/// of one person among them, all of them, and all pairs of one person.
/// Precision is the first by the second, recall the first by the third.
pub fn pair_precision_recall(records: &[Record], clusters: &[u32]) -> (r: (u64, u64, u64))
    requires
        clusters@.len() == records@.len() <= u32::MAX,
    ensures
        r.0 == clustering::equal_pairs(joint_key(records@, clusters@), records@.len()),
        r.1 == clustering::equal_pairs(clustering::label_key(clusters@), records@.len()),
        r.2 == clustering::equal_pairs(entity_key(records@), records@.len()),
{
    let mut by_label: HashMap<u128, u64> = HashMap::new();
    let mut by_entity: HashMap<u128, u64> = HashMap::new();
    let mut by_both: HashMap<u128, u64> = HashMap::new();
    let (mut correct, mut predicted, mut truth): (u64, u64, u64) = (0, 0, 0);
    let ghost lk = clustering::label_key(clusters@);
    let ghost ek = entity_key(records@);
    let ghost jk = joint_key(records@, clusters@);
    for a in 0..records.len()
        invariant
            clusters@.len() == records@.len() <= u32::MAX,
            lk == clustering::label_key(clusters@),
            ek == entity_key(records@),
            jk == joint_key(records@, clusters@),
            clustering::tallies(by_label@, lk, a as nat),
            clustering::tallies(by_entity@, ek, a as nat),
            clustering::tallies(by_both@, jk, a as nat),
            correct == clustering::equal_pairs(jk, a as nat),
            predicted == clustering::equal_pairs(lk, a as nat),
            truth == clustering::equal_pairs(ek, a as nat),
            correct <= a * a,
            predicted <= a * a,
            truth <= a * a,
    {
        let c = clusters[a] as u128;
        let e = records[a].entity as u128;
        proof {
            assert(a * a + 2 * a + 1 == (a + 1) * (a + 1)) by (nonlinear_arith);
            assert((a + 1) * (a + 1) <= 0xffff_ffff * 0xffff_ffff) by (nonlinear_arith)
                requires
                    a + 1 <= 0xffff_ffff,
                    a >= 0,
            ;
        }
        let x = clustering::tally(&mut by_label, c, Ghost(lk), a);
        let y = clustering::tally(&mut by_entity, e, Ghost(ek), a);
        let z = clustering::tally(&mut by_both, c * 0x1_0000_0000_0000_0000 + e, Ghost(jk), a);
        correct += z;
        predicted += x;
        truth += y;
    }
    (correct, predicted, truth)
}

pub open spec fn is_match(records: Seq<Record>, pairs: Seq<(usize, usize)>) -> spec_fn(int) -> bool {
    |i: int| records[pairs[i].0 as int].entity == records[pairs[i].1 as int].entity
}

pub open spec fn match_agreeing(
    records: Seq<Record>,
    pairs: Seq<(usize, usize)>,
    f: int,
) -> spec_fn(int) -> bool {
    |i: int|
        records[pairs[i].0 as int].entity == records[pairs[i].1 as int].entity && agree(
            records[pairs[i].0 as int],
            records[pairs[i].1 as int],
            f,
        )
}

/// By the labels: how many of the pairs are of one person, and how many of
/// those agree on each field.
pub fn empirical_m(records: &[Record], pairs: &[(usize, usize)]) -> (r: (u64, Vec<u64>))
    requires
        pairs_within(records@, pairs@),
    ensures
        r.0 == math::count(pairs@.len(), is_match(records@, pairs@)),
        r.1@.len() == FIELDS,
        forall|f: int|
            0 <= f < FIELDS ==> #[trigger] r.1@[f] == math::count(
                pairs@.len(),
                match_agreeing(records@, pairs@, f),
            ),
{
    let mut matched: u64 = 0;
    let mut counts: Vec<u64> = vec![0; FIELDS];
    for i in 0..pairs.len()
        invariant
            pairs_within(records@, pairs@),
            matched <= i,
            matched == math::count(i as nat, is_match(records@, pairs@)),
            counts@.len() == FIELDS,
            forall|f: int|
                0 <= f < FIELDS ==> #[trigger] counts@[f] == math::count(
                    i as nat,
                    match_agreeing(records@, pairs@, f),
                ),
    {
        let (a, b) = pairs[i];
        assert(pairs@[i as int].0 < records@.len());
        if records[a].entity == records[b].entity {
            matched += 1;
            let pat = agreement(&records[a], &records[b]);
            for f in 0..FIELDS
                invariant
                    i < pairs@.len(),
                    counts@.len() == FIELDS,
                    forall|g: int|
                        0 <= g < FIELDS ==> pat@[g] == (#[trigger] match_agreeing(
                            records@,
                            pairs@,
                            g,
                        ))(i as int),
                    forall|g: int|
                        0 <= g < FIELDS ==> #[trigger] counts@[g] == math::count(
                            (if g < f {
                                (i + 1) as nat
                            } else {
                                i as nat
                            }),
                            match_agreeing(records@, pairs@, g),
                        ),
            {
                proof {
                    assert(pairs.len() == pairs@.len());
                    math::lemma_count_le(i as nat, match_agreeing(records@, pairs@, f as int));
                    assert(pat@[f as int] == match_agreeing(records@, pairs@, f as int)(i as int));
                }
                if pat[f] {
                    let c = counts[f] + 1;
                    counts.set(f, c);
                }
            }
        }
    }
    (matched, counts)
}

} // verus!
