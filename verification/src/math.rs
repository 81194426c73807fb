//! Counting and summing, as specifications and as the small executable
//! helpers that the other modules share.

use vstd::prelude::*;

verus! {

/// How many of `0..n` satisfy `p`.
pub open spec fn count(n: nat, p: spec_fn(int) -> bool) -> nat
    decreases n,
{
    if n == 0 {
        0
    } else {
        count((n - 1) as nat, p) + (if p(n - 1) {
            1nat
        } else {
            0
        })
    }
}

/// The sum of `f` over `0..n`.
pub open spec fn sum(n: nat, f: spec_fn(int) -> int) -> int
    decreases n,
{
    if n == 0 {
        0
    } else {
        sum((n - 1) as nat, f) + f(n - 1)
    }
}

pub proof fn lemma_count_le(n: nat, p: spec_fn(int) -> bool)
    ensures
        count(n, p) <= n,
    decreases n,
{
    if n > 0 {
        lemma_count_le((n - 1) as nat, p);
    }
}

pub proof fn lemma_count_same(n: nat, p: spec_fn(int) -> bool, q: spec_fn(int) -> bool)
    requires
        forall|i: int| 0 <= i < n ==> #[trigger] p(i) == q(i),
    ensures
        count(n, p) == count(n, q),
    decreases n,
{
    if n > 0 {
        lemma_count_same((n - 1) as nat, p, q);
    }
}

pub proof fn lemma_count_split(
    n: nat,
    p: spec_fn(int) -> bool,
    q: spec_fn(int) -> bool,
    r: spec_fn(int) -> bool,
)
    requires
        forall|i: int| 0 <= i < n ==> #[trigger] p(i) == (q(i) || r(i)) && !(q(i) && r(i)),
    ensures
        count(n, p) == count(n, q) + count(n, r),
    decreases n,
{
    if n > 0 {
        lemma_count_split((n - 1) as nat, p, q, r);
    }
}

pub proof fn lemma_count_monotone(n: nat, p: spec_fn(int) -> bool, q: spec_fn(int) -> bool)
    requires
        forall|i: int| 0 <= i < n && #[trigger] p(i) ==> q(i),
    ensures
        count(n, p) <= count(n, q),
    decreases n,
{
    if n > 0 {
        lemma_count_monotone((n - 1) as nat, p, q);
    }
}

pub proof fn lemma_sum_same(n: nat, f: spec_fn(int) -> int, g: spec_fn(int) -> int)
    requires
        forall|i: int| 0 <= i < n ==> #[trigger] f(i) == g(i),
    ensures
        sum(n, f) == sum(n, g),
    decreases n,
{
    if n > 0 {
        lemma_sum_same((n - 1) as nat, f, g);
    }
}

/// A sequence of distinct numbers below `n` has at most `n` of them.
pub proof fn lemma_distinct_bounded(s: Seq<usize>, n: nat)
    requires
        s.no_duplicates(),
        forall|i: int| 0 <= i < s.len() ==> #[trigger] s[i] < n,
    ensures
        s.len() <= n,
{
    let ints = s.map_values(|x: usize| x as int);
    assert(ints.no_duplicates());
    ints.unique_seq_to_set();
    let range = vstd::set_lib::set_int_range(0, n as int);
    vstd::set_lib::lemma_int_range(0, n as int);
    assert(ints.to_set().subset_of(range));
    vstd::set_lib::lemma_len_subset(ints.to_set(), range);
}

/// A predicate that only `x` can satisfy.
pub proof fn lemma_count_single(n: nat, p: spec_fn(int) -> bool, x: int, holds: bool)
    requires
        forall|i: int| 0 <= i < n ==> (#[trigger] p(i) <==> holds && i == x),
    ensures
        count(n, p) == (if holds && 0 <= x < n {
            1nat
        } else {
            0
        }),
    decreases n,
{
    if n > 0 {
        lemma_count_single((n - 1) as nat, p, x, holds);
    }
}

/// The members of a sequence of distinct numbers below `n`, counted.
pub proof fn lemma_count_members(s: Seq<usize>, n: nat)
    requires
        s.no_duplicates(),
        n <= usize::MAX + 1,
        forall|i: int| 0 <= i < s.len() ==> #[trigger] s[i] < n,
    ensures
        count(n, |v: int| s.contains(v as usize)) == s.len(),
    decreases s.len(),
{
    let p = |v: int| s.contains(v as usize);
    if s.len() == 0 {
        lemma_count_single(n, p, 0, false);
    } else {
        let r = s.drop_last();
        let x = s.last();
        lemma_count_members(r, n);
        let q = |v: int| r.contains(v as usize);
        let o = |v: int| v == x;
        assert forall|v: int| 0 <= v < n
            implies #[trigger] p(v) == (q(v) || o(v)) && !(q(v) && o(v)) by {
            assert(s[s.len() - 1] == x);
            if q(v) {
                let i = choose|i: int| 0 <= i < r.len() && r[i] == v as usize;
                assert(s[i] == v as usize);
            }
            if p(v) {
                let i = choose|i: int| 0 <= i < s.len() && s[i] == v as usize;
                if i < s.len() - 1 {
                    assert(r[i] == v as usize);
                }
            }
        }
        lemma_count_split(n, p, q, o);
        lemma_count_single(n, o, x as int, true);
    }
}

/// The number of binary digits of `n`.
pub open spec fn bits(n: nat) -> nat
    decreases n,
{
    if n == 0 {
        0
    } else {
        1 + bits(n / 2)
    }
}

pub proof fn lemma_bits_monotone(a: nat, b: nat)
    requires
        a <= b,
    ensures
        bits(a) <= bits(b),
    decreases b,
{
    if a > 0 {
        lemma_bits_monotone(a / 2, b / 2);
    }
}

/// 2 to the power `k`.
pub open spec fn two_to(k: nat) -> nat
    decreases k,
{
    if k == 0 {
        1
    } else {
        2 * two_to((k - 1) as nat)
    }
}

pub proof fn lemma_power_positive(k: nat)
    ensures
        two_to(k) >= 1,
    decreases k,
{
    if k > 0 {
        lemma_power_positive((k - 1) as nat);
    }
}

pub proof fn lemma_bits_of_power(k: nat, n: nat)
    requires
        two_to(k) <= n,
    ensures
        k + 1 <= bits(n),
    decreases k,
{
    if k > 0 {
        assert(two_to((k - 1) as nat) <= n / 2);
        lemma_bits_of_power((k - 1) as nat, n / 2);
    } else {
        lemma_bits_monotone(1, n);
        reveal_with_fuel(bits, 2);
    }
}

pub proof fn lemma_count_union(
    n: nat,
    p: spec_fn(int) -> bool,
    q: spec_fn(int) -> bool,
    r: spec_fn(int) -> bool,
)
    requires
        forall|i: int| 0 <= i < n && #[trigger] p(i) ==> q(i) || r(i),
    ensures
        count(n, p) <= count(n, q) + count(n, r),
    decreases n,
{
    if n > 0 {
        lemma_count_union((n - 1) as nat, p, q, r);
    }
}

pub proof fn lemma_bits_le(n: nat)
    ensures
        bits(n) <= n,
    decreases n,
{
    if n > 0 {
        lemma_bits_le(n / 2);
    }
}

/// Machine numbers have at most 64 digits.
pub proof fn lemma_bits_small(n: nat)
    requires
        n <= u64::MAX,
    ensures
        bits(n) <= 64,
{
    lemma_bits_monotone(n, u64::MAX as nat);
    reveal_with_fuel(bits, 65);
}

/// The sum of `f` over the entries of a sequence.
pub open spec fn sum_over(s: Seq<usize>, f: spec_fn(int) -> int) -> int
    decreases s.len(),
{
    if s.len() == 0 {
        0
    } else {
        sum_over(s.drop_last(), f) + f(s.last() as int)
    }
}

pub proof fn lemma_sum_over_same(s: Seq<usize>, f: spec_fn(int) -> int, g: spec_fn(int) -> int)
    requires
        forall|i: int| 0 <= i < s.len() ==> f(#[trigger] s[i] as int) == g(s[i] as int),
    ensures
        sum_over(s, f) == sum_over(s, g),
    decreases s.len(),
{
    if s.len() > 0 {
        assert(f(s[s.len() - 1] as int) == g(s[s.len() - 1] as int));
        assert forall|i: int| 0 <= i < s.drop_last().len() implies f(
            #[trigger] s.drop_last()[i] as int,
        ) == g(s.drop_last()[i] as int) by {
            assert(s.drop_last()[i] == s[i]);
        }
        lemma_sum_over_same(s.drop_last(), f, g);
    }
}

pub proof fn lemma_sum_add(
    n: nat,
    f: spec_fn(int) -> int,
    g: spec_fn(int) -> int,
    h: spec_fn(int) -> int,
)
    requires
        forall|i: int| 0 <= i < n ==> #[trigger] h(i) == f(i) + g(i),
    ensures
        sum(n, h) == sum(n, f) + sum(n, g),
    decreases n,
{
    if n > 0 {
        lemma_sum_add((n - 1) as nat, f, g, h);
    }
}

pub proof fn lemma_sum_le(n: nat, f: spec_fn(int) -> int, g: spec_fn(int) -> int)
    requires
        forall|i: int| 0 <= i < n ==> #[trigger] f(i) <= g(i),
    ensures
        sum(n, f) <= sum(n, g),
    decreases n,
{
    if n > 0 {
        lemma_sum_le((n - 1) as nat, f, g);
    }
}

/// A sum in two parts.
pub proof fn lemma_sum_split(a: nat, b: nat, f: spec_fn(int) -> int)
    ensures
        sum(a + b, f) == sum(a, f) + sum(b, |i: int| f(a + i)),
    decreases b,
{
    let g = |i: int| f(a + i);
    if b > 0 {
        lemma_sum_split(a, (b - 1) as nat, f);
        assert(sum((a + b) as nat, f) == sum((a + b - 1) as nat, f) + f(a + b - 1));
        assert(g(b - 1) == f(a + b - 1));
    }
}

/// A function that is zero but at two places.
pub proof fn lemma_sum_pair(n: nat, f: spec_fn(int) -> int, x: int, y: int)
    requires
        0 <= x < n,
        0 <= y < n,
        x != y,
        forall|i: int| 0 <= i < n && i != x && i != y ==> #[trigger] f(i) == 0,
    ensures
        sum(n, f) == f(x) + f(y),
{
    let a = |i: int|
        if i == x {
            f(x)
        } else {
            0
        };
    let b = |i: int|
        if i == y {
            f(y)
        } else {
            0
        };
    lemma_sum_single(n, a, x, f(x));
    lemma_sum_single(n, b, y, f(y));
    assert forall|i: int| 0 <= i < n implies #[trigger] f(i) == a(i) + b(i) by {}
    lemma_sum_add(n, a, b, f);
}

/// A function that is zero but at `x`.
pub proof fn lemma_sum_single(n: nat, f: spec_fn(int) -> int, x: int, y: int)
    requires
        forall|i: int|
            0 <= i < n ==> #[trigger] f(i) == (if i == x {
                y
            } else {
                0
            }),
    ensures
        sum(n, f) == (if 0 <= x < n {
            y
        } else {
            0
        }),
    decreases n,
{
    if n > 0 {
        lemma_sum_single((n - 1) as nat, f, x, y);
    }
}

/// Summing over distinct numbers below `n` is summing over `0..n` where the
/// others count nothing.
pub proof fn lemma_sum_members(s: Seq<usize>, n: nat, f: spec_fn(int) -> int)
    requires
        s.no_duplicates(),
        n <= usize::MAX + 1,
        forall|i: int| 0 <= i < s.len() ==> #[trigger] s[i] < n,
    ensures
        sum(
            n,
            |v: int|
                if s.contains(v as usize) {
                    f(v)
                } else {
                    0
                },
        ) == sum_over(s, f),
    decreases s.len(),
{
    let p = |v: int|
        if s.contains(v as usize) {
            f(v)
        } else {
            0
        };
    if s.len() == 0 {
        lemma_sum_single(n, p, 0, 0);
    } else {
        let r = s.drop_last();
        let x = s.last();
        lemma_sum_members(r, n, f);
        let q = |v: int|
            if r.contains(v as usize) {
                f(v)
            } else {
                0
            };
        let o = |v: int|
            if v == x {
                f(v)
            } else {
                0
            };
        assert forall|v: int| 0 <= v < n implies #[trigger] p(v) == q(v) + o(v) by {
            assert(s[s.len() - 1] == x);
            if r.contains(v as usize) {
                let i = choose|i: int| 0 <= i < r.len() && r[i] == v as usize;
                assert(s[i] == v as usize);
            }
            if s.contains(v as usize) {
                let i = choose|i: int| 0 <= i < s.len() && s[i] == v as usize;
                if i < s.len() - 1 {
                    assert(r[i] == v as usize);
                }
            }
        }
        lemma_sum_add(n, q, o, p);
        lemma_sum_single(n, o, x as int, f(x as int));
    }
}

/// A prefix of a sum of nonnegative terms is at most the sum.
pub proof fn lemma_sum_prefix(k: nat, n: nat, f: spec_fn(int) -> int)
    requires
        k <= n,
        forall|i: int| 0 <= i < n ==> 0 <= #[trigger] f(i),
    ensures
        0 <= sum(k, f) <= sum(n, f),
    decreases n,
{
    if n > 0 {
        if k < n {
            lemma_sum_prefix(k, (n - 1) as nat, f);
        } else {
            lemma_sum_prefix((n - 1) as nat, (n - 1) as nat, f);
        }
    }
}

pub proof fn lemma_count_positive(n: nat, p: spec_fn(int) -> bool, x: int)
    requires
        0 <= x < n,
        p(x),
    ensures
        count(n, p) > 0,
    decreases n,
{
    if x < n - 1 {
        lemma_count_positive((n - 1) as nat, p, x);
    }
}

pub proof fn lemma_sum_const(n: nat, f: spec_fn(int) -> int, x: int)
    requires
        forall|i: int| 0 <= i < n ==> #[trigger] f(i) == x,
    ensures
        sum(n, f) == n * x,
    decreases n,
{
    if n > 0 {
        lemma_sum_const((n - 1) as nat, f, x);
        assert((n - 1) * x + x == n * x) by (nonlinear_arith);
    } else {
        assert(0 * x == 0) by (nonlinear_arith);
    }
}

/// A prefix of a sum of nonnegative terms is at most the sum.
pub proof fn lemma_sum_over_take(s: Seq<usize>, f: spec_fn(int) -> int, k: int)
    requires
        0 <= k <= s.len(),
        forall|i: int| 0 <= #[trigger] f(i),
    ensures
        0 <= sum_over(s.take(k), f) <= sum_over(s, f),
    decreases s.len(),
{
    if k < s.len() {
        assert(s.take(k) =~= s.drop_last().take(k));
        lemma_sum_over_take(s.drop_last(), f, k);
    } else {
        assert(s.take(k) =~= s);
        if s.len() > 0 {
            lemma_sum_over_take(s.drop_last(), f, s.len() - 1);
            assert(s.drop_last().take(s.len() - 1) =~= s.drop_last());
        }
    }
}

/// Distinct numbers below `n` are at most `n`.
pub proof fn lemma_distinct_numbers(list: Seq<u32>, n: nat)
    requires
        list.no_duplicates(),
        forall|i: int| 0 <= i < list.len() ==> #[trigger] list[i] < n,
    ensures
        list.len() <= n,
{
    let wide = list.map_values(|x: u32| x as usize);
    assert forall|i: int, j: int| 0 <= i < wide.len() && 0 <= j < wide.len() && i != j
        implies wide[i] != wide[j] by {
        assert(list[i] != list[j]);
    }
    assert forall|i: int| 0 <= i < wide.len() implies #[trigger] wide[i] < n by {
        assert(list[i] < n);
    }
    lemma_distinct_bounded(wide, n);
}

/// `n` empty lists.
pub fn empty_lists<T>(n: usize) -> (lists: Vec<Vec<T>>)
    ensures
        lists@.len() == n,
        forall|i: int| 0 <= i < n ==> (#[trigger] lists@[i])@ == Seq::<T>::empty(),
{
    let mut lists: Vec<Vec<T>> = Vec::new();
    for i in 0..n
        invariant
            lists@.len() == i,
            forall|j: int| 0 <= j < i ==> (#[trigger] lists@[j])@ == Seq::<T>::empty(),
    {
        lists.push(Vec::new());
    }
    lists
}

/// `n`, or the largest counter value where `n` is larger.
pub open spec fn capped(n: int) -> u64 {
    if n <= u64::MAX {
        n as u64
    } else {
        u64::MAX
    }
}

/// Counts one more.
pub fn tick(counter: &mut u64)
    ensures
        *final(counter) == capped(*old(counter) + 1),
{
    if *counter < u64::MAX {
        *counter = *counter + 1;
    }
}

/// A list without repeats whose entries are all in another is no longer than it.
pub proof fn lemma_subset_len<A>(a: Seq<A>, b: Seq<A>)
    requires
        a.no_duplicates(),
        forall|x: A| #[trigger] a.contains(x) ==> b.contains(x),
    ensures
        a.len() <= b.len(),
{
    a.unique_seq_to_set();
    assert(a.to_set().subset_of(b.to_set()));
    vstd::set_lib::lemma_len_subset(a.to_set(), b.to_set());
    b.lemma_cardinality_of_set();
}

/// `r` is the square root of `x`, rounded down.
pub open spec fn is_root(x: int, r: int) -> bool {
    &&& 0 <= r
    &&& r * r <= x < (r + 1) * (r + 1)
}

/// The square root, rounded down.
pub open spec fn root(x: int) -> int {
    choose|r: int| is_root(x, r)
}

/// There is one root.
pub proof fn lemma_root(x: int, r: int)
    requires
        is_root(x, r),
    ensures
        root(x) == r,
{
    let q = root(x);
    assert(is_root(x, q));
    if q < r {
        assert((q + 1) * (q + 1) <= r * r) by (nonlinear_arith)
            requires
                0 <= q,
                q + 1 <= r,
        ;
    } else if r < q {
        assert((r + 1) * (r + 1) <= q * q) by (nonlinear_arith)
            requires
                0 <= r,
                r + 1 <= q,
        ;
    }
}

/// Every number has a root.
pub proof fn lemma_some_root(x: int)
    requires
        0 <= x,
    ensures
        is_root(x, root(x)),
    decreases x,
{
    if x == 0 {
        assert(is_root(0, 0)) by (nonlinear_arith);
    } else {
        lemma_some_root(x - 1);
        let r = root(x - 1);
        if x < (r + 1) * (r + 1) {
            assert(is_root(x, r));
        } else {
            assert(is_root(x, r + 1)) by (nonlinear_arith)
                requires
                    0 <= r,
                    r * r <= x - 1 < (r + 1) * (r + 1),
                    x >= (r + 1) * (r + 1),
            ;
        }
    }
}

/// The square root, rounded down, by halving.
pub fn isqrt(x: u128) -> (r: u64)
    ensures
        r == root(x as int),
        is_root(x as int, r as int),
{
    let mut lo: u128 = 0;
    let mut hi: u128 = 0x1_0000_0000_0000_0000;
    while hi - lo > 1
        invariant
            0 <= lo < hi <= 0x1_0000_0000_0000_0000,
            lo * lo <= x < hi * hi,
        decreases hi - lo,
    {
        let mid = lo + (hi - lo) / 2;
        assert(0 <= mid * mid <= 0xffff_ffff_ffff_ffff * 0xffff_ffff_ffff_ffff) by (nonlinear_arith)
            requires
                0 <= mid <= 0xffff_ffff_ffff_ffff,
        ;
        if mid * mid <= x {
            lo = mid;
        } else {
            hi = mid;
        }
    }
    proof {
        assert(hi == lo + 1);
        lemma_root(x as int, lo as int);
    }
    lo as u64
}

/// `a + b` less `c` where it reaches `c`, and whether it did.
fn add_below(a: u128, b: u128, c: u128) -> (r: (u128, bool))
    requires
        a < c,
        b < c,
    ensures
        r.0 < c,
        a + b == r.0 + if r.1 {
            c as int
        } else {
            0
        },
{
    if a >= c - b {
        (a - (c - b), true)
    } else {
        (a + b, false)
    }
}

/// The quotient and the rest of `a * b / c`, bit by bit of `b`.
pub fn mul_div(a: u128, b: u128, c: u128) -> (r: (u128, u128))
    requires
        a < c,
    ensures
        a * b == c * r.0 + r.1,
        r.1 < c,
        r.0 <= b,
{
    let (mut q, mut rest): (u128, u128) = (0, 0);
    let mut left = b;
    let mut bit: u128 = 0x8000_0000_0000_0000_0000_0000_0000_0000;
    let ghost mut done: int = 0;
    proof {
        assert(a * 0 == 0 && c * 0 == 0) by (nonlinear_arith);
        vstd::arithmetic::power2::lemma2_to64_rest();
        vstd::arithmetic::power2::lemma_pow2_adds(63, 64);
        vstd::arithmetic::power2::lemma2_to64();
        assert(bit == vstd::arithmetic::power2::pow2(127));
    }
    while bit > 0
        invariant
            a < c,
            rest < c,
            is_bit(bit as int),
            bit > 0 ==> b - left == done * (2 * bit) && left < 2 * bit,
            bit == 0 ==> b == done,
            0 <= done <= b,
            a * done == c * q + rest,
            0 <= q <= done,
        decreases bit,
    {
        let ghost (d0, q0, r0) = (done, q as int, rest as int);
        let (twice, over) = add_below(rest, rest, c);
        let mut up: u128 = if over {
            1
        } else {
            0
        };
        let mut next = twice;
        proof {
            done = 2 * d0;
        }
        if left >= bit {
            left = left - bit;
            let (sum, more) = add_below(twice, a, c);
            next = sum;
            if more {
                up = up + 1;
            }
            proof {
                done = 2 * d0 + 1;
            }
        }
        proof {
            let (ai, ci, bi, ui) = (a as int, c as int, bit as int, up as int);
            assert(ai * (2 * d0) == 2 * (ai * d0) && ai * (2 * d0 + 1) == 2 * (ai * d0) + ai)
                by (nonlinear_arith);
            assert(ci * (2 * q0 + ui) == 2 * (ci * q0) + ci * ui) by (nonlinear_arith);
            assert(ci * ui == if ui == 0 {
                0
            } else if ui == 1 {
                ci
            } else {
                2 * ci
            }) by (nonlinear_arith)
                requires
                    0 <= ui <= 2,
            ;
            assert(d0 * (2 * bi) == (2 * d0) * bi && (2 * d0 + 1) * bi == (2 * d0) * bi + bi)
                by (nonlinear_arith);
            let di = done;
            assert(b - left == di * bi);
            assert(di <= di * bi) by (nonlinear_arith)
                requires
                    bi >= 1,
                    di >= 0,
            ;
            let (qi, ni) = (2 * q0 + ui, next as int);
            assert(ai * di == ci * qi + ni);
            assert(qi <= di) by (nonlinear_arith)
                requires
                    ai * di == ci * qi + ni,
                    0 <= ai < ci,
                    ni >= 0,
                    di >= 0,
            ;
            lemma_bit_halves(bi);
            assert(bi == 1 ==> di * bi == di) by (nonlinear_arith);
        }
        q = 2 * q + up;
        rest = next;
        bit = bit / 2;
    }
    (q, rest)
}

/// A power of two, or nothing.
spec fn is_bit(n: int) -> bool {
    n == 0 || exists|k: nat| n == #[trigger] vstd::arithmetic::power2::pow2(k)
}

proof fn lemma_bit_halves(n: int)
    requires
        n > 0,
        is_bit(n),
    ensures
        n == 1 || n == 2 * (n / 2),
        is_bit(n / 2),
        n == 1 ==> n / 2 == 0,
{
    let k = choose|k: nat| n == #[trigger] vstd::arithmetic::power2::pow2(k);
    vstd::arithmetic::power2::lemma2_to64();
    if k > 0 {
        vstd::arithmetic::power2::lemma_pow2_unfold(k);
        assert(n / 2 == vstd::arithmetic::power2::pow2((k - 1) as nat));
    }
}

proof fn lemma_pow2_upto(i: nat)
    requires
        i <= 56,
    ensures
        0 < vstd::arithmetic::power2::pow2(i) <= 0x100_0000_0000_0000,
{
    vstd::arithmetic::power2::lemma2_to64_rest();
    vstd::arithmetic::power2::lemma_pow2_adds(i, (56 - i) as nat);
    vstd::arithmetic::power2::lemma_pow2_pos(i);
    vstd::arithmetic::power2::lemma_pow2_pos((56 - i) as nat);
    let (x, y) = (
        vstd::arithmetic::power2::pow2(i) as int,
        vstd::arithmetic::power2::pow2((56 - i) as nat) as int,
    );
    assert(x <= x * y) by (nonlinear_arith)
        requires
            x > 0,
            y >= 1,
    ;
}

/// The square root of `x` times `2^112`, digit by digit.
pub fn long_root(x: u128) -> (r: u128)
    ensures
        r == root(x * 0x100_0000_0000_0000 * 0x100_0000_0000_0000),
{
    let first = isqrt(x);
    let mut r: u128 = first as u128;
    let mut rest: u128 = 0;
    proof {
        let (a, b) = (first as int, x as int);
        assert(0 <= a * a <= 0xffff_ffff_ffff_ffff * 0xffff_ffff_ffff_ffff) by (nonlinear_arith)
            requires
                0 <= a <= 0xffff_ffff_ffff_ffff,
        ;
        assert((a + 1) * (a + 1) == a * a + 2 * a + 1) by (nonlinear_arith);
        vstd::arithmetic::power2::lemma2_to64();
        assert(b * 1 == b);
    }
    rest = x - r * r;
    for i in 0..56u32
        invariant
            r * r + rest == x * vstd::arithmetic::power2::pow2((2 * i) as nat),
            rest <= 2 * r,
            r < 0x1_0000_0000_0000_0000 * vstd::arithmetic::power2::pow2(i as nat),
    {
        proof {
            lemma_pow2_upto(i as nat);
            vstd::arithmetic::power2::lemma_pow2_unfold((i + 1) as nat);
            vstd::arithmetic::power2::lemma_pow2_unfold((2 * i + 1) as nat);
            vstd::arithmetic::power2::lemma_pow2_unfold((2 * i + 2) as nat);
            let (b, h, s) = (
                x as int,
                vstd::arithmetic::power2::pow2((2 * i) as nat) as int,
                r as int,
            );
            assert(b * (2 * (2 * h)) == 4 * (b * h)) by (nonlinear_arith);
            assert((2 * s) * (2 * s) == 4 * (s * s) && (2 * s + 1) * (2 * s + 1) == 4 * (s * s) + 4
                * s + 1) by (nonlinear_arith);
        }
        if 4 * rest > 4 * r {
            rest = 4 * rest - (4 * r + 1);
            r = 2 * r + 1;
        } else {
            rest = 4 * rest;
            r = 2 * r;
        }
    }
    proof {
        vstd::arithmetic::power2::lemma2_to64_rest();
        vstd::arithmetic::power2::lemma_pow2_adds(56, 56);
        let (b, s, w) = (x as int, r as int, 0x100_0000_0000_0000int);
        assert(b * (w * w) == b * w * w) by (nonlinear_arith);
        assert((s + 1) * (s + 1) == s * s + 2 * s + 1) by (nonlinear_arith);
        lemma_root(b * w * w, s);
    }
    r
}

} // verus!
