//! A log-bucketed latency histogram.
//!
//! Bucket boundaries grow geometrically, so memory is fixed at construction,
//! and a percentile that is read back is too large by at most a factor of
//! `2^-sub_bits`, never too small: a relative error bound, which is what
//! latency needs.
//!
//! Values below `2^sub_bits` have buckets of their own; above that, each range
//! `[2^k, 2^(k+1))` is split into `2^sub_bits` equal ones.

use crate::debugging::workload;
use crate::double::Double;
use crate::math;
use crate::sorting;
use vstd::arithmetic::power2::*;
use vstd::bits::*;
use vstd::prelude::*;
use vstd::std_specs::bits::*;

verus! {

/// How many low bits of `v` its bucket drops.
pub open spec fn dropped(b: nat, v: nat) -> nat {
    if math::bits(v) > b + 1 {
        (math::bits(v) - 1 - b) as nat
    } else {
        0
    }
}

/// The bucket of a value: the exponent, then the leading bits.
pub open spec fn bucket(b: nat, v: nat) -> nat {
    dropped(b, v) * pow2(b) + v / pow2(dropped(b, v))
}

/// How many low bits the values of bucket `i` drop.
pub open spec fn scale(b: nat, i: nat) -> nat {
    if i < 2 * pow2(b) {
        0
    } else {
        (i / pow2(b) - 1) as nat
    }
}

/// The largest value of bucket `i`.
pub open spec fn upper(b: nat, i: nat) -> nat {
    ((i - scale(b, i) * pow2(b) + 1) * pow2(scale(b, i)) - 1) as nat
}

/// How many buckets hold all 64-bit values.
pub open spec fn bucket_total(b: nat) -> nat {
    ((65 - b) * pow2(b)) as nat
}

/// A number with `k` digits is at least `2^(k-1)` and less than `2^k`.
proof fn lemma_digits(v: nat)
    ensures
        v < pow2(math::bits(v)),
        v > 0 ==> math::bits(v) > 0 && pow2((math::bits(v) - 1) as nat) <= v,
    decreases v,
{
    lemma2_to64();
    if v > 0 {
        lemma_digits(v / 2);
        let k = math::bits(v / 2);
        lemma_pow2_unfold(k + 1);
        if v / 2 > 0 {
            lemma_pow2_unfold(k);
        } else {
            assert(v == 1);
        }
    }
}

proof fn lemma_leading_zeros(i: u64)
    ensures
        u64_leading_zeros(i) == 64 - math::bits(i as nat),
    decreases i,
{
    reveal(u64_leading_zeros);
    if i > 0 {
        lemma_leading_zeros(i / 2);
    }
}

/// The leading bits of a value.
proof fn lemma_shape(b: nat, v: nat)
    ensures
        ({
            let e = dropped(b, v);
            let m = v / pow2(e);
            &&& pow2(e) > 0
            &&& pow2(b) > 0
            &&& m * pow2(e) <= v < (m + 1) * pow2(e)
            &&& m < 2 * pow2(b)
            &&& e > 0 ==> pow2(b) <= m && pow2(b) * pow2(e) <= v
            &&& v <= u64::MAX && b < 64 ==> e + b <= 63
        }),
{
    let e = dropped(b, v);
    let pe = pow2(e) as int;
    let pb = pow2(b) as int;
    let m = v as int / pe;
    lemma_pow2_pos(e);
    lemma_pow2_pos(b);
    vstd::arithmetic::div_mod::lemma_fundamental_div_mod(v as int, pe);
    assert(0 <= v as int % pe < pe);
    assert(m * pe <= v < (m + 1) * pe) by (nonlinear_arith)
        requires
            v == pe * m + v as int % pe,
            0 <= v as int % pe < pe,
    ;
    assert(m >= 0) by (nonlinear_arith)
        requires
            v < (m + 1) * pe,
            pe > 0,
            v >= 0,
    ;
    lemma_digits(v);
    if v <= u64::MAX {
        math::lemma_bits_small(v);
    }
    if e > 0 {
        let k = (math::bits(v) - 1) as nat;
        assert(k == b + e);
        lemma_pow2_adds(b, e);
        lemma_pow2_unfold(k + 1);
        assert(pb * pe <= v < 2 * (pb * pe));
        assert(m < 2 * pb) by (nonlinear_arith)
            requires
                m * pe <= v,
                v < 2 * (pb * pe),
                pe > 0,
        ;
        assert(pb <= m) by (nonlinear_arith)
            requires
                v < (m + 1) * pe,
                pb * pe <= v,
                pe > 0,
        ;
    } else {
        lemma2_to64();
        assert(pe == 1);
        assert(m == v) by (nonlinear_arith)
            requires
                m * pe <= v < (m + 1) * pe,
                pe == 1,
        ;
        lemma_pow2_unfold(b + 1);
        if math::bits(v) < b + 1 {
            lemma_pow2_strictly_increases(math::bits(v), b + 1);
        }
    }
}

/// The bucket tells the exponent and the leading bits.
proof fn lemma_bucket_parts(b: nat, v: nat)
    ensures
        scale(b, bucket(b, v)) == dropped(b, v),
        bucket(b, v) - scale(b, bucket(b, v)) * pow2(b) == v / pow2(dropped(b, v)),
{
    lemma_shape(b, v);
    let e = dropped(b, v) as int;
    let pb = pow2(b) as int;
    let m = (v / pow2(dropped(b, v))) as int;
    let i = bucket(b, v) as int;
    assert(i == e * pb + m);
    if e > 0 {
        assert(i >= 2 * pb) by (nonlinear_arith)
            requires
                i == e * pb + m,
                e >= 1,
                m >= pb,
                pb > 0,
        ;
        assert(i == pb * (e + 1) + (m - pb)) by (nonlinear_arith)
            requires
                i == e * pb + m,
        ;
        vstd::arithmetic::div_mod::lemma_div_multiples_vanish_fancy(e + 1, m - pb, pb);
    }
}

/// The reported bound of a value's bucket is never below the value, and above
/// it by at most one part in `2^b`.
pub proof fn lemma_relative_error(b: nat, v: nat)
    ensures
        v <= upper(b, bucket(b, v)),
        (upper(b, bucket(b, v)) - v) * pow2(b) <= v,
{
    lemma_shape(b, v);
    lemma_bucket_parts(b, v);
    let e = dropped(b, v);
    let pe = pow2(e) as int;
    let pb = pow2(b) as int;
    let m = (v / pow2(e)) as int;
    let u = (m + 1) * pe - 1;
    assert(u == upper(b, bucket(b, v))) by {
        assert(u >= 0);
    }
    if e > 0 {
        assert((u - v) * pb <= v) by (nonlinear_arith)
            requires
                u == (m + 1) * pe - 1,
                m * pe <= v,
                pb * pe <= v,
                pb > 0,
        ;
    } else {
        lemma2_to64();
        assert(u == v) by (nonlinear_arith)
            requires
                u == (m + 1) * pe - 1,
                m * pe <= v < (m + 1) * pe,
                pe == 1,
        ;
        assert((u - v) * pb == 0) by (nonlinear_arith)
            requires
                u == v,
        ;
    }
}

/// Larger values are in no earlier bucket.
pub proof fn lemma_bucket_monotone(b: nat, v: nat, w: nat)
    requires
        v <= w,
    ensures
        bucket(b, v) <= bucket(b, w),
{
    lemma_shape(b, v);
    lemma_shape(b, w);
    let e = dropped(b, v) as int;
    let f = dropped(b, w) as int;
    let pb = pow2(b) as int;
    let m = (v / pow2(dropped(b, v))) as int;
    let k = (w / pow2(dropped(b, w))) as int;
    math::lemma_bits_monotone(v, w);
    assert(e <= f);
    if e == f {
        vstd::arithmetic::div_mod::lemma_div_is_ordered(v as int, w as int, pow2(e as nat) as int);
    } else {
        assert(e * pb + m <= f * pb + k) by (nonlinear_arith)
            requires
                e + 1 <= f,
                m < 2 * pb,
                k >= pb,
                pb > 0,
        ;
    }
}

/// The bound of a bucket is its largest value: it is in the bucket, and no
/// larger one is.
pub proof fn lemma_upper_is_largest(b: nat, i: nat)
    requires
        b < 64,
        i < bucket_total(b),
    ensures
        upper(b, i) <= u64::MAX,
        bucket(b, upper(b, i)) == i,
        bucket(b, upper(b, i) + 1) == i + 1,
{
    let s = scale(b, i);
    lemma_pow2_pos(b);
    lemma_pow2_pos(s);
    let pb = pow2(b) as int;
    let ps = pow2(s) as int;
    let m = i - s * pb;
    if i >= 2 * pb {
        vstd::arithmetic::div_mod::lemma_fundamental_div_mod(i as int, pb);
        let r = i as int % pb;
        let d = i as int / pb;
        assert(d >= 2) by (nonlinear_arith)
            requires
                i == pb * d + r,
                0 <= r < pb,
                i >= 2 * pb,
                pb > 0,
        ;
        assert(s == d - 1);
        assert(i == pb * (s + 1) + r);
        assert(m == pb + r) by (nonlinear_arith)
            requires
                i == pb * (s + 1) + r,
                m == i - s * pb,
        ;
        assert(s + 1 < 65 - b) by (nonlinear_arith)
            requires
                i == pb * (s + 1) + r,
                0 <= r,
                i < (65 - b) * pb,
                pb > 0,
        ;
        assert(pb <= m < 2 * pb);
    } else {
        lemma2_to64();
        assert(m == i) by (nonlinear_arith)
            requires
                m == i - s * pb,
                s == 0,
        ;
    }
    assert(0 <= m < 2 * pb);
    let u = (m + 1) * ps - 1;
    assert(u >= 0) by (nonlinear_arith)
        requires
            u == (m + 1) * ps - 1,
            m >= 0,
            ps >= 1,
    ;
    lemma_pow2_adds(b, s);
    lemma_pow2_unfold(b + s + 1);
    assert(u + 1 <= 2 * (pb * ps)) by (nonlinear_arith)
        requires
            u == (m + 1) * ps - 1,
            m + 1 <= 2 * pb,
            ps >= 1,
    ;
    assert(u + 1 <= pow2(b + s + 1));
    assert(pow2(b + s + 1) <= pow2(64)) by {
        if b + s + 1 < 64 {
            lemma_pow2_strictly_increases(b + s + 1, 64);
        }
    }
    lemma2_to64();
    lemma2_to64_rest();
    if s > 0 {
        assert(pb * ps <= u) by (nonlinear_arith)
            requires
                u == (m + 1) * ps - 1,
                m >= pb,
                ps >= 1,
        ;
    }
    lemma_between(b, s, u as nat);
    assert(u == ps * m + (ps - 1)) by (nonlinear_arith)
        requires
            u == (m + 1) * ps - 1,
    ;
    vstd::arithmetic::div_mod::lemma_div_multiples_vanish_fancy(m, ps - 1, ps);
    assert(bucket(b, u as nat) == i);
    // The next value starts the next bucket.
    let w = u + 1;
    if m + 1 < 2 * pb {
        assert(w < 2 * (pb * ps)) by (nonlinear_arith)
            requires
                w == (m + 1) * ps,
                m + 1 < 2 * pb,
                ps >= 1,
        ;
        lemma_between(b, s, w as nat);
        assert(w == ps * (m + 1)) by (nonlinear_arith)
            requires
                w == (m + 1) * ps,
        ;
        vstd::arithmetic::div_mod::lemma_div_multiples_vanish(m + 1, ps);
        assert(bucket(b, w as nat) == i + 1);
    } else {
        assert(m + 1 == 2 * pb);
        assert(w == 2 * (pb * ps)) by (nonlinear_arith)
            requires
                w == (m + 1) * ps,
                m + 1 == 2 * pb,
        ;
        lemma_pow2_unfold(s + 1);
        let pt = pow2(s + 1) as int;
        assert(pt == 2 * ps);
        assert(pb * pt == w) by (nonlinear_arith)
            requires
                w == 2 * (pb * ps),
                pt == 2 * ps,
        ;
        assert(w < 2 * (pb * pt)) by (nonlinear_arith)
            requires
                pb * pt == w,
                w > 0,
        ;
        lemma_between(b, s + 1, w as nat);
        assert(w == pt * pb) by (nonlinear_arith)
            requires
                pb * pt == w,
        ;
        vstd::arithmetic::div_mod::lemma_div_multiples_vanish(pb, pt);
        assert((s + 1) * pb + pb == i + 1) by (nonlinear_arith)
            requires
                m == i - s * pb,
                m + 1 == 2 * pb,
        ;
        assert(bucket(b, w as nat) == i + 1);
    }
}

/// A value between two powers drops what the lower one says.
proof fn lemma_between(b: nat, s: nat, v: nat)
    requires
        v < 2 * (pow2(b) * pow2(s)),
        s > 0 ==> pow2(b) * pow2(s) <= v,
    ensures
        dropped(b, v) == s,
{
    lemma_pow2_adds(b, s);
    lemma_pow2_unfold(b + s + 1);
    lemma_digits(v);
    let k = math::bits(v);
    if k > b + s + 1 {
        if k - 1 > b + s + 1 {
            lemma_pow2_strictly_increases(b + s + 1, (k - 1) as nat);
        }
        assert(false);
    }
    if s > 0 && k < b + s + 1 {
        if k < b + s {
            lemma_pow2_strictly_increases(k, b + s);
        }
        assert(false);
    }
}

/// Every 64-bit value has a bucket.
pub proof fn lemma_bucket_in_range(b: nat, v: u64)
    requires
        b < 64,
    ensures
        bucket(b, v as nat) < bucket_total(b),
{
    lemma_shape(b, v as nat);
    let e = dropped(b, v as nat) as int;
    let pb = pow2(b) as int;
    let m = (v as nat / pow2(dropped(b, v as nat))) as int;
    assert(e * pb + m < (65 - b) * pb) by (nonlinear_arith)
        requires
            e + b <= 63,
            m < 2 * pb,
            pb > 0,
    ;
}

/// How many samples the first `n` buckets hold.
pub open spec fn cumulative(counts: Seq<u64>, n: nat) -> nat
    decreases n,
{
    if n == 0 {
        0
    } else {
        cumulative(counts, (n - 1) as nat) + counts[n - 1] as nat
    }
}

/// Bucket `i` is the one that the sample of the given rank is in.
pub open spec fn covers(counts: Seq<u64>, i: int, rank: nat) -> bool {
    &&& 0 <= i < counts.len()
    &&& cumulative(counts, i as nat) < rank <= cumulative(counts, (i + 1) as nat)
}

/// How many of the samples fall into bucket `i`.
pub open spec fn tally(samples: Seq<u64>, b: nat, i: int) -> nat
    decreases samples.len(),
{
    if samples.len() == 0 {
        0
    } else {
        tally(samples.drop_last(), b, i) + (if bucket(b, samples.last() as nat) == i {
            1nat
        } else {
            0
        })
    }
}

/// The counts are those of the samples.
pub open spec fn records(counts: Seq<u64>, b: nat, samples: Seq<u64>) -> bool {
    forall|i: int| 0 <= i < counts.len() ==> #[trigger] counts[i] == tally(samples, b, i)
}

proof fn lemma_cumulative_monotone(counts: Seq<u64>, k: nat, n: nat)
    requires
        k <= n,
    ensures
        cumulative(counts, k) <= cumulative(counts, n),
    decreases n,
{
    if k < n {
        lemma_cumulative_monotone(counts, k, (n - 1) as nat);
    }
}

proof fn lemma_cumulative_bump(counts: Seq<u64>, at: int, n: nat)
    requires
        0 <= at < counts.len(),
        n <= counts.len(),
        counts[at] < u64::MAX,
    ensures
        cumulative(counts.update(at, (counts[at] + 1) as u64), n) == cumulative(counts, n) + (if at
            < n {
            1nat
        } else {
            0
        }),
    decreases n,
{
    if n > 0 {
        lemma_cumulative_bump(counts, at, (n - 1) as nat);
    }
}

proof fn lemma_cumulative_sum(a: Seq<u64>, b: Seq<u64>, c: Seq<u64>, n: nat)
    requires
        n <= a.len() == b.len() == c.len(),
        forall|i: int| 0 <= i < a.len() ==> #[trigger] c[i] == a[i] + b[i],
    ensures
        cumulative(c, n) == cumulative(a, n) + cumulative(b, n),
    decreases n,
{
    if n > 0 {
        lemma_cumulative_sum(a, b, c, (n - 1) as nat);
        assert(c[n - 1] == a[n - 1] + b[n - 1]);
    }
}

proof fn lemma_cumulative_zero(counts: Seq<u64>, n: nat)
    requires
        n <= counts.len(),
        forall|i: int| 0 <= i < counts.len() ==> #[trigger] counts[i] == 0,
    ensures
        cumulative(counts, n) == 0,
    decreases n,
{
    if n > 0 {
        lemma_cumulative_zero(counts, (n - 1) as nat);
    }
}

/// The buckets of two lists of samples add up.
proof fn lemma_tally_concat(s: Seq<u64>, t: Seq<u64>, b: nat, i: int)
    ensures
        tally(s + t, b, i) == tally(s, b, i) + tally(t, b, i),
    decreases t.len(),
{
    if t.len() == 0 {
        assert(s + t =~= s);
    } else {
        assert((s + t).drop_last() =~= s + t.drop_last());
        lemma_tally_concat(s, t.drop_last(), b, i);
    }
}

pub struct LogHistogram {
    pub sub_bits: u32,
    pub counts: Vec<u64>,
    pub total: u64,
}

impl LogHistogram {
    /// The number of samples in each bucket.
    pub open spec fn counts(&self) -> Seq<u64> {
        self.counts@
    }

    /// How many samples were recorded.
    pub open spec fn samples(&self) -> u64 {
        self.total
    }

    pub open spec fn well_formed(&self) -> bool {
        &&& self.sub_bits < 64
        &&& self.counts().len() == bucket_total(self.sub_bits as nat)
        &&& cumulative(self.counts(), self.counts().len()) == self.samples()
    }

    /// The histogram holds these samples.
    pub open spec fn holds(&self, samples: Seq<u64>) -> bool {
        records(self.counts(), self.sub_bits as nat, samples)
    }

    /// The number of buckets is fixed at construction.
    pub fn new(sub_bits: u32) -> (h: LogHistogram)
        requires
            sub_bits < 64,
            bucket_total(sub_bits as nat) <= usize::MAX,
        ensures
            h.well_formed(),
            h.sub_bits == sub_bits,
            h.samples() == 0,
            h.holds(Seq::empty()),
    {
        proof {
            lemma_power_fits(sub_bits as nat);
            let pb = pow2(sub_bits as nat) as int;
            assert(pb <= (65 - sub_bits) * pb) by (nonlinear_arith)
                requires
                    sub_bits < 64,
                    pb > 0,
            ;
        }
        let width: usize = (1u64 << (sub_bits as u64)) as usize;
        let buckets = (65 - sub_bits as usize) * width;
        let h = LogHistogram { sub_bits, counts: vec![0; buckets], total: 0 };
        proof {
            lemma_cumulative_zero(h.counts@, h.counts@.len());
        }
        h
    }

    /// The bucket of a value.
    pub fn index(&self, value: u64) -> (i: usize)
        requires
            self.well_formed(),
        ensures
            i == bucket(self.sub_bits as nat, value as nat),
            i < self.counts().len(),
    {
        let b = self.sub_bits;
        let ghost bn = b as nat;
        let digits = 64 - value.leading_zeros();
        proof {
            lemma_leading_zeros(value);
            lemma_shape(bn, value as nat);
            lemma_bucket_in_range(bn, value);
            math::lemma_bits_small(value as nat);
        }
        let e: u32 = if digits > b + 1 {
            digits - 1 - b
        } else {
            0
        };
        proof {
            lemma_u64_shr_is_div(value, e as u64);
            lemma_pow2_pos(bn);
            assert(self.counts@.len() == self.counts.len());
            let pb = pow2(bn) as int;
            let m = (value as nat / pow2(e as nat)) as int;
            assert(e * pb + m < self.counts@.len());
            assert(e * pb >= 0) by (nonlinear_arith)
                requires
                    pb > 0,
            ;
            assert(pb <= self.counts@.len()) by (nonlinear_arith)
                requires
                    self.counts@.len() == (65 - bn) * pb,
                    bn < 64,
                    pb > 0,
            ;
            lemma_power_fits(bn);
        }
        let width: usize = (1u64 << (b as u64)) as usize;
        e as usize * width + (value >> (e as u64)) as usize
    }

    /// The largest value that maps to bucket `idx`.
    pub fn upper_bound(&self, idx: usize) -> (v: u64)
        requires
            self.well_formed(),
            idx < self.counts().len(),
        ensures
            v == upper(self.sub_bits as nat, idx as nat),
    {
        let b = self.sub_bits;
        let ghost bn = b as nat;
        proof {
            lemma_upper_is_largest(bn, idx as nat);
            lemma_upper_parts(bn, idx as nat);
            lemma_power_fits(bn);
            lemma_pow2_pos(bn);
            assert(self.counts@.len() == self.counts.len());
            let pb = pow2(bn) as int;
            assert(pb <= self.counts@.len()) by (nonlinear_arith)
                requires
                    self.counts@.len() == (65 - bn) * pb,
                    bn < 64,
                    pb > 0,
            ;
        }
        let width: usize = (1u64 << (b as u64)) as usize;
        let s: usize = if idx / width < 2 {
            0
        } else {
            idx / width - 1
        };
        proof {
            lemma_scale_by_quotient(bn, idx as nat);
            lemma_power_fits(s as nat);
        }
        let m = (idx - s * width) as u64;
        proof {
            lemma_u64_shl_is_mul(m, s as u64);
            let ps = pow2(s as nat) as int;
            assert((m + 1) * ps - 1 == m * ps + (ps - 1)) by (nonlinear_arith);
        }
        (m << (s as u64)) + ((1u64 << (s as u64)) - 1)
    }

    pub fn record(&mut self, value: u64)
        requires
            old(self).well_formed(),
            old(self).samples() < u64::MAX,
        ensures
            final(self).well_formed(),
            final(self).sub_bits == old(self).sub_bits,
            final(self).samples() == old(self).samples() + 1,
            ({
                let i = bucket(old(self).sub_bits as nat, value as nat) as int;
                final(self).counts() == old(self).counts().update(
                    i,
                    (old(self).counts()[i] + 1) as u64,
                )
            }),
            forall|samples: Seq<u64>| #[trigger]
                old(self).holds(samples) ==> final(self).holds(samples.push(value)),
    {
        let i = self.index(value);
        let ghost c = self.counts@;
        let ghost b = self.sub_bits as nat;
        proof {
            lemma_cumulative_monotone(c, (i + 1) as nat, c.len());
            lemma_cumulative_bump(c, i as int, c.len());
        }
        let n = self.counts[i] + 1;
        self.counts.set(i, n);
        self.total = self.total + 1;
        proof {
            assert forall|samples: Seq<u64>| #[trigger] old(self).holds(samples)
                implies self.holds(samples.push(value)) by {
                let more = samples.push(value);
                assert(more.drop_last() =~= samples);
                assert forall|j: int| 0 <= j < self.counts@.len()
                    implies #[trigger] self.counts@[j] == tally(more, b, j) by {
                    assert(c[j] == tally(samples, b, j));
                }
            }
        }
    }

    /// Nearest-rank percentile over the bucket counts: the upper bound of the
    /// bucket that the ranked sample is in.
    pub fn percentile(&self, p: Double) -> (v: u64)
        requires
            self.well_formed(),
            self.samples() > 0,
            p.finite(),
        ensures
            exists|i: int|
                #[trigger] covers(
                    self.counts(),
                    i,
                    workload::nearest_rank(self.samples() as nat, p),
                ) && v == upper(self.sub_bits as nat, i as nat),
    {
        let rank = workload::rank_of(self.total, p);
        let mut seen: u64 = 0;
        let mut i: usize = 0;
        let n = self.counts.len();
        proof {
            assert(n > 0) by {
                if n == 0 {
                    assert(cumulative(self.counts@, 0) == 0);
                }
            }
            assert(cumulative(self.counts@, 1) == cumulative(self.counts@, 0) + self.counts@[0]);
            lemma_cumulative_monotone(self.counts@, 1, n as nat);
        }
        while seen + self.counts[i] < rank
            invariant
                self.well_formed(),
                n == self.counts@.len(),
                i < n,
                seen == cumulative(self.counts@, i as nat),
                seen + self.counts@[i as int] <= self.total,
                seen < rank <= self.total,
            decreases n - i,
        {
            proof {
                assert(cumulative(self.counts@, (i + 1) as nat) < rank);
                if i + 1 == n {
                    assert(false);
                }
                lemma_cumulative_monotone(self.counts@, (i + 2) as nat, n as nat);
            }
            seen = seen + self.counts[i];
            i += 1;
        }
        proof {
            assert(covers(self.counts(), i as int, rank as nat));
        }
        self.upper_bound(i)
    }

    /// Pointwise sum: histograms of different threads or shards merge exactly.
    pub fn merge(&mut self, other: &LogHistogram)
        requires
            old(self).well_formed(),
            other.well_formed(),
            old(self).sub_bits == other.sub_bits,
            old(self).samples() + other.samples() <= u64::MAX,
        ensures
            final(self).well_formed(),
            final(self).sub_bits == old(self).sub_bits,
            final(self).samples() == old(self).samples() + other.samples(),
            forall|i: int|
                0 <= i < final(self).counts().len() ==> #[trigger] final(self).counts()[i] == old(
                    self,
                ).counts()[i] + other.counts()[i],
            forall|s: Seq<u64>, t: Seq<u64>|
                #![trigger old(self).holds(s), other.holds(t)]
                old(self).holds(s) && other.holds(t) ==> final(self).holds(s + t),
    {
        let ghost a = self.counts@;
        let n = self.counts.len();
        for i in 0..n
            invariant
                n == a.len() == other.counts@.len() == self.counts@.len(),
                self.sub_bits == old(self).sub_bits,
                self.total == old(self).total,
                cumulative(a, a.len()) == self.total,
                cumulative(other.counts@, a.len()) == other.total,
                self.total + other.total <= u64::MAX,
                forall|j: int|
                    0 <= j < i ==> #[trigger] self.counts@[j] == a[j] + other.counts@[j],
                forall|j: int| i <= j < n ==> #[trigger] self.counts@[j] == a[j],
        {
            proof {
                lemma_cumulative_monotone(a, (i + 1) as nat, a.len());
                lemma_cumulative_monotone(other.counts@, (i + 1) as nat, a.len());
            }
            let c = self.counts[i] + other.counts[i];
            self.counts.set(i, c);
        }
        self.total = self.total + other.total;
        proof {
            lemma_cumulative_sum(a, other.counts@, self.counts@, a.len());
            let b = self.sub_bits as nat;
            assert forall|s: Seq<u64>, t: Seq<u64>|
                #![trigger old(self).holds(s), other.holds(t)]
                old(self).holds(s) && other.holds(t) implies self.holds(s + t) by {
                assert forall|i: int| 0 <= i < self.counts@.len()
                    implies #[trigger] self.counts@[i] == tally(s + t, b, i) by {
                    lemma_tally_concat(s, t, b, i);
                    assert(a[i] == tally(s, b, i));
                    assert(other.counts@[i] == tally(t, b, i));
                }
            }
        }
    }

    pub fn total(&self) -> (n: u64)
        ensures
            n == self.samples(),
    {
        self.total
    }

    pub fn bucket_count(&self) -> (n: usize)
        ensures
            n == self.counts().len(),
    {
        self.counts.len()
    }
}

proof fn lemma_power_fits(k: nat)
    requires
        k < 64,
    ensures
        1u64 << (k as u64) == pow2(k),
        0 < pow2(k) <= u64::MAX,
{
    lemma_pow2_pos(k);
    lemma_u64_pow2_no_overflow(k);
    assert(1 * pow2(k) <= u64::MAX);
    lemma_u64_shl_is_mul(1, k as u64);
}

/// The parts of a bucket's bound fit a machine word.
proof fn lemma_upper_parts(b: nat, i: nat)
    requires
        b < 64,
        i < bucket_total(b),
    ensures
        ({
            let s = scale(b, i);
            let m = i - s * pow2(b);
            &&& s < 64
            &&& 0 <= s * pow2(b)
            &&& 0 <= m
            &&& 0 <= m * pow2(s) <= u64::MAX
            &&& m * pow2(s) + (pow2(s) - 1) == upper(b, i)
        }),
{
    lemma_upper_is_largest(b, i);
    lemma_bucket_parts(b, upper(b, i));
    lemma_shape(b, upper(b, i));
    let s = scale(b, i);
    let ps = pow2(s) as int;
    let pb = pow2(b) as int;
    let m = i - s * pb;
    assert(m == upper(b, i) / pow2(s));
    assert(s * pb >= 0) by (nonlinear_arith)
        requires
            pb > 0,
            s >= 0,
    ;
    assert((m + 1) * ps - 1 == m * ps + (ps - 1)) by (nonlinear_arith);
    assert(m * ps >= 0) by (nonlinear_arith)
        requires
            m >= 0,
            ps > 0,
    ;
}

proof fn lemma_scale_by_quotient(b: nat, i: nat)
    ensures
        i / pow2(b) < 2 ==> scale(b, i) == 0,
        i / pow2(b) >= 2 ==> scale(b, i) == i / pow2(b) - 1,
{
    lemma_pow2_pos(b);
    let pb = pow2(b) as int;
    let d = i as int / pb;
    let r = i as int % pb;
    vstd::arithmetic::div_mod::lemma_fundamental_div_mod(i as int, pb);
    if d < 2 {
        assert(i < 2 * pb) by (nonlinear_arith)
            requires
                i == pb * d + r,
                0 <= r < pb,
                d <= 1,
        ;
    } else {
        assert(i >= 2 * pb) by (nonlinear_arith)
            requires
                i == pb * d + r,
                0 <= r,
                d >= 2,
                pb > 0,
        ;
    }
}

/// How many samples are in buckets before `n`.
spec fn below(samples: Seq<u64>, b: nat, n: int) -> nat
    decreases samples.len(),
{
    if samples.len() == 0 {
        0
    } else {
        below(samples.drop_last(), b, n) + (if bucket(b, samples.last() as nat) < n {
            1nat
        } else {
            0
        })
    }
}

proof fn lemma_below_step(samples: Seq<u64>, b: nat, n: int)
    ensures
        below(samples, b, n + 1) == below(samples, b, n) + tally(samples, b, n),
    decreases samples.len(),
{
    if samples.len() > 0 {
        lemma_below_step(samples.drop_last(), b, n);
    }
}

proof fn lemma_cumulative_is_below(counts: Seq<u64>, samples: Seq<u64>, b: nat, n: nat)
    requires
        records(counts, b, samples),
        n <= counts.len(),
    ensures
        cumulative(counts, n) == below(samples, b, n as int),
    decreases n,
{
    if n == 0 {
        lemma_below_none(samples, b);
    } else {
        lemma_cumulative_is_below(counts, samples, b, (n - 1) as nat);
        lemma_below_step(samples, b, n - 1);
        assert(counts[n - 1] == tally(samples, b, n - 1));
    }
}

proof fn lemma_below_none(samples: Seq<u64>, b: nat)
    ensures
        below(samples, b, 0) == 0,
    decreases samples.len(),
{
    if samples.len() > 0 {
        lemma_below_none(samples.drop_last(), b);
    }
}

/// Where only the first `k` can be below, at most `k` are.
proof fn lemma_below_at_most(samples: Seq<u64>, b: nat, n: int, k: nat)
    requires
        forall|j: int| k <= j < samples.len() ==> bucket(b, #[trigger] samples[j] as nat) >= n,
    ensures
        below(samples, b, n) <= k,
    decreases samples.len(),
{
    if samples.len() > 0 {
        let s0 = samples.drop_last();
        if samples.len() <= k {
            lemma_below_at_most(s0, b, n, (samples.len() - 1) as nat);
        } else {
            assert(bucket(b, samples[samples.len() - 1] as nat) >= n);
            assert forall|j: int| k <= j < s0.len() implies bucket(b, #[trigger] s0[j] as nat) >= n by {
                assert(s0[j] == samples[j]);
            }
            lemma_below_at_most(s0, b, n, k);
        }
    }
}

/// Where the first `k` are below, at least `k` are.
proof fn lemma_below_at_least(samples: Seq<u64>, b: nat, n: int, k: nat)
    requires
        k <= samples.len(),
        forall|j: int| 0 <= j < k ==> bucket(b, #[trigger] samples[j] as nat) < n,
    ensures
        below(samples, b, n) >= k,
    decreases samples.len(),
{
    if samples.len() > 0 {
        let s0 = samples.drop_last();
        let k0 = if k == samples.len() {
            (k - 1) as nat
        } else {
            k
        };
        assert forall|j: int| 0 <= j < k0 implies bucket(b, #[trigger] s0[j] as nat) < n by {
            assert(s0[j] == samples[j]);
        }
        lemma_below_at_least(s0, b, n, k0);
        if k == samples.len() {
            assert(bucket(b, samples[samples.len() - 1] as nat) < n);
        }
    }
}

proof fn lemma_tally_remove(s: Seq<u64>, at: int, b: nat, i: int)
    requires
        0 <= at < s.len(),
    ensures
        tally(s, b, i) == tally(s.remove(at), b, i) + (if bucket(b, s[at] as nat) == i {
            1nat
        } else {
            0
        }),
    decreases s.len(),
{
    if at == s.len() - 1 {
        assert(s.remove(at) =~= s.drop_last());
    } else {
        lemma_tally_remove(s.drop_last(), at, b, i);
        assert(s.remove(at).drop_last() =~= s.drop_last().remove(at));
        assert(s.remove(at).last() == s.last());
    }
}

/// The buckets do not depend on the order of the samples.
proof fn lemma_tally_order(s: Seq<u64>, t: Seq<u64>, b: nat, i: int)
    requires
        s.to_multiset() == t.to_multiset(),
    ensures
        tally(s, b, i) == tally(t, b, i),
    decreases s.len(),
{
    s.to_multiset_ensures();
    t.to_multiset_ensures();
    if s.len() > 0 {
        let x = s.last();
        assert(s.contains(x));
        assert(s.to_multiset().count(x) > 0);
        assert(t.to_multiset().count(x) > 0);
        let j = choose|j: int| 0 <= j < t.len() && t[j] == x;
        lemma_tally_remove(t, j, b, i);
        assert(s.remove(s.len() - 1) =~= s.drop_last());
        assert(s.drop_last().to_multiset() == t.remove(j).to_multiset());
        lemma_tally_order(s.drop_last(), t.remove(j), b, i);
    }
}

/// What a percentile that is read back says of the samples: it is not below
/// the sample of that rank, and above it by at most one part in
/// `2^sub_bits`.
pub proof fn lemma_percentile_error(
    h: &LogHistogram,
    samples: Seq<u64>,
    ranked: Seq<u64>,
    rank: nat,
    i: int,
)
    requires
        h.well_formed(),
        h.holds(samples),
        sorting::is_sorted(ranked),
        ranked.to_multiset() == samples.to_multiset(),
        1 <= rank <= ranked.len(),
        covers(h.counts(), i, rank),
    ensures
        ({
            let estimate = upper(h.sub_bits as nat, i as nat);
            let exact = ranked[rank - 1] as int;
            &&& exact <= estimate
            &&& (estimate - exact) * pow2(h.sub_bits as nat) <= exact
        }),
{
    let b = h.sub_bits as nat;
    let counts = h.counts();
    let x = ranked[rank - 1];
    assert(records(counts, b, ranked)) by {
        assert forall|j: int| 0 <= j < counts.len()
            implies #[trigger] counts[j] == tally(ranked, b, j) by {
            lemma_tally_order(samples, ranked, b, j);
        }
    }
    lemma_cumulative_is_below(counts, ranked, b, i as nat);
    lemma_cumulative_is_below(counts, ranked, b, (i + 1) as nat);
    if bucket(b, x as nat) > i {
        assert forall|j: int| rank - 1 <= j < ranked.len()
            implies bucket(b, #[trigger] ranked[j] as nat) >= i + 1 by {
            assert(sorting::Keyed::key(&ranked[rank - 1]) <= sorting::Keyed::key(&ranked[j]));
            lemma_bucket_monotone(b, x as nat, ranked[j] as nat);
        }
        lemma_below_at_most(ranked, b, i + 1, (rank - 1) as nat);
    }
    if bucket(b, x as nat) < i {
        assert forall|j: int| 0 <= j < rank implies bucket(b, #[trigger] ranked[j] as nat) < i by {
            assert(sorting::Keyed::key(&ranked[j]) <= sorting::Keyed::key(&ranked[rank - 1]));
            lemma_bucket_monotone(b, ranked[j] as nat, x as nat);
        }
        lemma_below_at_least(ranked, b, i, rank);
    }
    lemma_relative_error(b, x as nat);
}

} // verus!
