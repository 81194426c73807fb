//! Seeded randomness.
//!
//! Everything random in this crate comes out of a `ChaCha8Rng`. The generator
//! is read as the endless stream of 32-bit words that it still holds; each
//! draw says which value it makes of that stream and how many words it takes.

use rand::seq::SliceRandom;
use rand::{Rng, RngCore, SeedableRng};
use rand_chacha::ChaCha8Rng;
use vstd::prelude::*;

verus! {

/// The outside generator, opaque to proofs.
#[verifier::external_type_specification]
#[verifier::external_body]
pub struct ExChaCha8Rng(ChaCha8Rng);

/// The words that a generator still holds, in the order it gives them out.
pub uninterp spec fn words(rng: ChaCha8Rng) -> Map<nat, u32>;

/// The words of the generator that `ChaCha8Rng::seed_from_u64` makes.
pub uninterp spec fn seeded_words(seed: u64) -> Map<nat, u32>;

/// What `Rng::gen_range(lo..hi)` on `u64` makes of a stream: the value, and
/// the number of words that it takes (a rejected word pair is drawn again).
pub uninterp spec fn range_draw(stream: Map<nat, u32>, lo: u64, hi: u64) -> (u64, nat);

/// Where each place of a shuffled slice of length `len` came from, and the
/// number of words that the shuffle takes.
pub uninterp spec fn shuffle_draw(stream: Map<nat, u32>, len: nat) -> (Seq<int>, nat);

/// A stream without its first `n` words.
pub open spec fn skip_words(stream: Map<nat, u32>, n: nat) -> Map<nat, u32> {
    Map::new(|i: nat| true, |i: nat| stream[i + n])
}

/// The 64-bit number that the first two words of a stream make.
pub open spec fn first_u64(stream: Map<nat, u32>) -> int {
    stream[0] + stream[1] * 0x1_0000_0000
}

/// `ChaCha8Rng::seed_from_u64`: equal seeds give equal streams.
#[verifier::external_body]
pub fn seeded_rng(seed: u64) -> (rng: ChaCha8Rng)
    ensures
        words(rng) == seeded_words(seed),
{
    ChaCha8Rng::seed_from_u64(seed)
}

/// `RngCore::next_u64`: the next two words, low half first.
#[verifier::external_body]
pub(crate) fn next_u64(rng: &mut ChaCha8Rng) -> (r: u64)
    ensures
        r == first_u64(words(*old(rng))),
        words(*final(rng)) == skip_words(words(*old(rng)), 2),
{
    rng.next_u64()
}

/// `Rng::gen_range` over `u64`: a value of the half-open range, fixed by the
/// stream.
#[verifier::external_body]
pub(crate) fn gen_range(rng: &mut ChaCha8Rng, lo: u64, hi: u64) -> (r: u64)
    requires
        lo < hi,
    ensures
        lo <= r < hi,
        r == range_draw(words(*old(rng)), lo, hi).0,
        words(*final(rng)) == skip_words(words(*old(rng)), range_draw(words(*old(rng)), lo, hi).1),
{
    rng.gen_range(lo..hi)
}

/// What `Rng::gen_range(lo..hi)` on `u32` makes of a stream: the value, and
/// the number of words that it takes.
pub uninterp spec fn range_draw_u32(stream: Map<nat, u32>, lo: u32, hi: u32) -> (u32, nat);

/// `Rng::gen_range` over `u32`: a value of the half-open range, fixed by the
/// stream.
#[verifier::external_body]
pub(crate) fn gen_range_u32(rng: &mut ChaCha8Rng, lo: u32, hi: u32) -> (r: u32)
    requires
        lo < hi,
    ensures
        lo <= r < hi,
        r == range_draw_u32(words(*old(rng)), lo, hi).0,
        words(*final(rng)) == skip_words(
            words(*old(rng)),
            range_draw_u32(words(*old(rng)), lo, hi).1,
        ),
{
    rng.gen_range(lo..hi)
}

/// `order` lists each of `0..len` once.
pub open spec fn is_order(order: Seq<int>, len: nat) -> bool {
    &&& order.len() == len
    &&& forall|i: int| 0 <= i < len ==> 0 <= #[trigger] order[i] < len
    &&& forall|i: int, j: int| 0 <= i < j < len ==> order[i] != order[j]
}

/// `SliceRandom::shuffle`: a permutation of the items, fixed by the stream and
/// the length alone.
#[verifier::external_body]
pub(crate) fn shuffle<T>(items: &mut Vec<T>, rng: &mut ChaCha8Rng)
    ensures
        is_order(shuffle_draw(words(*old(rng)), old(items)@.len()).0, final(items)@.len()),
        final(items)@ == Seq::new(
            old(items)@.len(),
            |i: int| old(items)@[shuffle_draw(words(*old(rng)), old(items)@.len()).0[i]],
        ),
        words(*final(rng)) == skip_words(
            words(*old(rng)),
            shuffle_draw(words(*old(rng)), old(items)@.len()).1,
        ),
{
    items.shuffle(rng)
}

/// Which place `SliceRandom::choose` picks of a slice of length `len`, and the
/// number of words that it takes.
pub uninterp spec fn choose_draw(stream: Map<nat, u32>, len: nat) -> (int, nat);

/// `SliceRandom::choose` on a slice that is not empty: one of its items, the
/// place fixed by the stream and the length alone.
#[verifier::external_body]
pub(crate) fn choose_item<T: Copy>(items: &Vec<T>, rng: &mut ChaCha8Rng) -> (item: T)
    requires
        items@.len() > 0,
    ensures
        item == items@[choose_draw(words(*old(rng)), items@.len()).0],
        items@.contains(item),
        words(*final(rng)) == skip_words(
            words(*old(rng)),
            choose_draw(words(*old(rng)), items@.len()).1,
        ),
{
    *items.choose(rng).unwrap()
}

/// A probability in units of 2^-53: the scale on which the generator draws
/// its uniform fractions, so that comparing a draw with it is exact.
pub const UNIT: u64 = 0x20_0000_0000_0000;

/// A biased coin: heads when a uniform 53-bit fraction falls below
/// `threshold / 2^53`.
pub fn coin(rng: &mut ChaCha8Rng, threshold: u64) -> (heads: bool)
    ensures
        heads == (first_u64(words(*old(rng))) / 2048 < threshold),
        words(*final(rng)) == skip_words(words(*old(rng)), 2),
        threshold == 0 ==> !heads,
        threshold >= UNIT ==> heads,
{
    next_u64(rng) / 2048 < threshold
}

/// The stream and the values of `n` draws from `lo..hi`, one after another.
pub open spec fn range_draws(
    stream: Map<nat, u32>,
    lo: usize,
    hi: usize,
    n: nat,
) -> (Seq<usize>, Map<nat, u32>)
    decreases n,
{
    if n == 0 {
        (Seq::empty(), stream)
    } else {
        let (before, rest) = range_draws(stream, lo, hi, (n - 1) as nat);
        let (value, used) = range_draw(rest, lo as u64, hi as u64);
        (before.push(value as usize), skip_words(rest, used))
    }
}

/// The stream and the values of `n` pairs of draws, the first of each pair
/// from `lo.0..hi.0`, the second from `lo.1..hi.1`.
pub open spec fn pair_draws(
    stream: Map<nat, u32>,
    a: (usize, usize),
    b: (usize, usize),
    n: nat,
) -> (Seq<(usize, usize)>, Map<nat, u32>)
    decreases n,
{
    if n == 0 {
        (Seq::empty(), stream)
    } else {
        let (before, rest) = pair_draws(stream, a, b, (n - 1) as nat);
        let (x, used_x) = range_draw(rest, a.0 as u64, a.1 as u64);
        let mid = skip_words(rest, used_x);
        let (y, used_y) = range_draw(mid, b.0 as u64, b.1 as u64);
        (before.push((x as usize, y as usize)), skip_words(mid, used_y))
    }
}

/// The stream and the outcomes of `n` tosses of one coin.
pub open spec fn coin_draws(stream: Map<nat, u32>, threshold: u64, n: nat) -> (
    Seq<bool>,
    Map<nat, u32>,
)
    decreases n,
{
    if n == 0 {
        (Seq::empty(), stream)
    } else {
        let (before, rest) = coin_draws(stream, threshold, (n - 1) as nat);
        (before.push(first_u64(rest) / 2048 < threshold), skip_words(rest, 2))
    }
}

/// The stream that is left after `rows` rows of `per` draws from `lo..hi`.
pub open spec fn after_rows(
    stream: Map<nat, u32>,
    lo: usize,
    hi: usize,
    per: nat,
    rows: nat,
) -> Map<nat, u32>
    decreases rows,
{
    if rows == 0 {
        stream
    } else {
        range_draws(after_rows(stream, lo, hi, per, (rows - 1) as nat), lo, hi, per).1
    }
}

/// One draw from `lo..hi`.
pub fn draw_index(rng: &mut ChaCha8Rng, lo: usize, hi: usize) -> (r: usize)
    requires
        lo < hi,
    ensures
        lo <= r < hi,
        r == range_draw(words(*old(rng)), lo as u64, hi as u64).0,
        words(*final(rng)) == skip_words(
            words(*old(rng)),
            range_draw(words(*old(rng)), lo as u64, hi as u64).1,
        ),
{
    gen_range(rng, lo as u64, hi as u64) as usize
}

/// `n` draws from `lo..hi`.
pub fn draw_indices(rng: &mut ChaCha8Rng, lo: usize, hi: usize, n: usize) -> (r: Vec<usize>)
    requires
        n > 0 ==> lo < hi,
    ensures
        r@.len() == n,
        forall|i: int| 0 <= i < n ==> lo <= #[trigger] r@[i] < hi,
        (r@, words(*final(rng))) == range_draws(words(*old(rng)), lo, hi, n as nat),
{
    let mut r: Vec<usize> = Vec::new();
    for i in 0..n
        invariant
            n > 0 ==> lo < hi,
            r@.len() == i,
            forall|j: int| 0 <= j < i ==> lo <= #[trigger] r@[j] < hi,
            (r@, words(*rng)) == range_draws(words(*old(rng)), lo, hi, i as nat),
    {
        let x = draw_index(rng, lo, hi);
        r.push(x);
    }
    r
}

/// `n` pairs of draws.
pub fn draw_pairs(
    rng: &mut ChaCha8Rng,
    a: (usize, usize),
    b: (usize, usize),
    n: usize,
) -> (r: Vec<(usize, usize)>)
    requires
        n > 0 ==> a.0 < a.1 && b.0 < b.1,
    ensures
        r@.len() == n,
        forall|i: int|
            0 <= i < n ==> a.0 <= (#[trigger] r@[i]).0 < a.1 && b.0 <= r@[i].1 < b.1,
        (r@, words(*final(rng))) == pair_draws(words(*old(rng)), a, b, n as nat),
{
    let mut r: Vec<(usize, usize)> = Vec::new();
    for i in 0..n
        invariant
            n > 0 ==> a.0 < a.1 && b.0 < b.1,
            r@.len() == i,
            forall|j: int|
                0 <= j < i ==> a.0 <= (#[trigger] r@[j]).0 < a.1 && b.0 <= r@[j].1 < b.1,
            (r@, words(*rng)) == pair_draws(words(*old(rng)), a, b, i as nat),
    {
        let x = draw_index(rng, a.0, a.1);
        let y = draw_index(rng, b.0, b.1);
        r.push((x, y));
    }
    r
}

/// `n` tosses of one coin.
pub fn draw_coins(rng: &mut ChaCha8Rng, threshold: u64, n: usize) -> (r: Vec<bool>)
    ensures
        r@.len() == n,
        (r@, words(*final(rng))) == coin_draws(words(*old(rng)), threshold, n as nat),
{
    let mut r: Vec<bool> = Vec::new();
    for i in 0..n
        invariant
            r@.len() == i,
            (r@, words(*rng)) == coin_draws(words(*old(rng)), threshold, i as nat),
    {
        let x = coin(rng, threshold);
        r.push(x);
    }
    r
}

/// `n` rows of `per` draws from `lo..hi`.
pub fn draw_rows(rng: &mut ChaCha8Rng, lo: usize, hi: usize, per: usize, n: usize) -> (r: Vec<
    Vec<usize>,
>)
    requires
        n > 0 && per > 0 ==> lo < hi,
    ensures
        r@.len() == n,
        forall|i: int|
            0 <= i < n ==> (#[trigger] r@[i])@ == range_draws(
                after_rows(words(*old(rng)), lo, hi, per as nat, i as nat),
                lo,
                hi,
                per as nat,
            ).0,
        forall|i: int, j: int|
            0 <= i < n && 0 <= j < r@[i]@.len() ==> lo <= #[trigger] r@[i]@[j] < hi,
        words(*final(rng)) == after_rows(words(*old(rng)), lo, hi, per as nat, n as nat),
{
    let mut r: Vec<Vec<usize>> = Vec::new();
    for k in 0..n
        invariant
            n > 0 && per > 0 ==> lo < hi,
            r@.len() == k,
            forall|i: int|
                0 <= i < k ==> (#[trigger] r@[i])@ == range_draws(
                    after_rows(words(*old(rng)), lo, hi, per as nat, i as nat),
                    lo,
                    hi,
                    per as nat,
                ).0,
            forall|i: int, j: int|
                0 <= i < k && 0 <= j < r@[i]@.len() ==> lo <= #[trigger] r@[i]@[j] < hi,
            words(*rng) == after_rows(words(*old(rng)), lo, hi, per as nat, k as nat),
    {
        let row = draw_indices(rng, lo, hi, per);
        r.push(row);
    }
    r
}

/// The stream and the values of `n` 32-bit draws from `lo..hi`.
pub open spec fn range_draws_u32(stream: Map<nat, u32>, lo: u32, hi: u32, n: nat) -> (
    Seq<u32>,
    Map<nat, u32>,
)
    decreases n,
{
    if n == 0 {
        (Seq::empty(), stream)
    } else {
        let (before, rest) = range_draws_u32(stream, lo, hi, (n - 1) as nat);
        let (value, used) = range_draw_u32(rest, lo, hi);
        (before.push(value), skip_words(rest, used))
    }
}

/// The stream that is left after `rows` rows of `per` 32-bit draws.
pub open spec fn after_rows_u32(
    stream: Map<nat, u32>,
    lo: u32,
    hi: u32,
    per: nat,
    rows: nat,
) -> Map<nat, u32>
    decreases rows,
{
    if rows == 0 {
        stream
    } else {
        range_draws_u32(after_rows_u32(stream, lo, hi, per, (rows - 1) as nat), lo, hi, per).1
    }
}

/// `n` rows of `per` 32-bit draws from `lo..hi`.
pub fn draw_rows_u32(rng: &mut ChaCha8Rng, lo: u32, hi: u32, per: usize, n: usize) -> (r: Vec<
    Vec<u32>,
>)
    requires
        n > 0 && per > 0 ==> lo < hi,
    ensures
        r@.len() == n,
        forall|i: int|
            0 <= i < n ==> (#[trigger] r@[i])@ == range_draws_u32(
                after_rows_u32(words(*old(rng)), lo, hi, per as nat, i as nat),
                lo,
                hi,
                per as nat,
            ).0,
        forall|i: int, j: int|
            0 <= i < n && 0 <= j < r@[i]@.len() ==> lo <= #[trigger] r@[i]@[j] < hi,
        words(*final(rng)) == after_rows_u32(words(*old(rng)), lo, hi, per as nat, n as nat),
{
    let mut r: Vec<Vec<u32>> = Vec::new();
    for k in 0..n
        invariant
            n > 0 && per > 0 ==> lo < hi,
            r@.len() == k,
            forall|i: int|
                0 <= i < k ==> (#[trigger] r@[i])@ == range_draws_u32(
                    after_rows_u32(words(*old(rng)), lo, hi, per as nat, i as nat),
                    lo,
                    hi,
                    per as nat,
                ).0,
            forall|i: int, j: int|
                0 <= i < k && 0 <= j < r@[i]@.len() ==> lo <= #[trigger] r@[i]@[j] < hi,
            words(*rng) == after_rows_u32(words(*old(rng)), lo, hi, per as nat, k as nat),
    {
        let ghost start = words(*rng);
        let mut row: Vec<u32> = Vec::new();
        for j in 0..per
            invariant
                n > 0 && per > 0 ==> lo < hi,
                n > 0,
                forall|i: int| 0 <= i < row@.len() ==> lo <= #[trigger] row@[i] < hi,
                (row@, words(*rng)) == range_draws_u32(start, lo, hi, j as nat),
        {
            let x = gen_range_u32(rng, lo, hi);
            row.push(x);
        }
        r.push(row);
    }
    r
}

} // verus!
