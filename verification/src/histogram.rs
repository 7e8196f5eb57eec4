//! Sums over bucket histograms, shared by the entropy estimates.

use vstd::prelude::*;

verus! {

/// Sum of the first `n` buckets.
pub open spec fn sum_counts(h: Seq<int>, n: int) -> int
    decreases n,
{
    if n <= 0 {
        0
    } else {
        sum_counts(h, n - 1) + h[n - 1]
    }
}

/// Sum of the squares of the first `n` buckets.
pub open spec fn sum_squares(h: Seq<int>, n: int) -> int
    decreases n,
{
    if n <= 0 {
        0
    } else {
        sum_squares(h, n - 1) + h[n - 1] * h[n - 1]
    }
}

/// The histogram held in a bucket array, as integers.
pub open spec fn counts_view<const N: usize>(counts: [u8; N]) -> Seq<int> {
    counts@.map_values(|x: u8| x as int)
}

/// Every square is at least its non-negative count, so the sum of squares is
/// at least the sum of the counts.
pub proof fn lemma_squares_dominate(h: Seq<int>, n: int)
    requires
        0 <= n <= h.len(),
        forall|k: int| 0 <= k < n ==> 0 <= #[trigger] h[k],
    ensures
        sum_squares(h, n) >= sum_counts(h, n),
        sum_counts(h, n) >= 0,
    decreases n,
{
    if n > 0 {
        lemma_squares_dominate(h, n - 1);
        let x = h[n - 1];
        assert(x * x >= x) by (nonlinear_arith)
            requires
                x >= 0,
        ;
    }
}

/// A histogram with a positive bucket has a positive total.
pub proof fn lemma_sum_positive(h: Seq<int>, n: int, j: int)
    requires
        0 <= j < n <= h.len(),
        h[j] > 0,
        forall|k: int| 0 <= k < n ==> 0 <= #[trigger] h[k],
    ensures
        sum_counts(h, n) > 0,
    decreases n,
{
    lemma_squares_dominate(h, n - 1);
    if j < n - 1 {
        lemma_sum_positive(h, n - 1, j);
    }
}

/// Adding one to bucket `j` adds one to the total when `j` is among the first `n` buckets.
pub proof fn lemma_sum_add_one(h1: Seq<int>, h2: Seq<int>, n: int, j: int)
    requires
        0 <= n <= h1.len(),
        n <= h2.len(),
        forall|b: int| 0 <= b < n ==> #[trigger] h2[b] == h1[b] + if b == j { 1int } else { 0int },
    ensures
        sum_counts(h2, n) == sum_counts(h1, n) + if 0 <= j < n {
            1int
        } else {
            0int
        },
    decreases n,
{
    if n > 0 {
        lemma_sum_add_one(h1, h2, n - 1, j);
        assert(h2[n - 1] == h1[n - 1] + if n - 1 == j { 1int } else { 0int });
    }
}

/// An empty histogram has total zero.
pub proof fn lemma_zero_sum(h: Seq<int>, n: int)
    requires
        0 <= n <= h.len(),
        forall|b: int| 0 <= b < n ==> #[trigger] h[b] == 0,
    ensures
        sum_counts(h, n) == 0,
    decreases n,
{
    if n > 0 {
        lemma_zero_sum(h, n - 1);
    }
}

/// The sum of squares of non-negative counts is at most the square of their sum.
pub proof fn lemma_squares_le_square_of_sum(h: Seq<int>, n: int)
    requires
        0 <= n <= h.len(),
        forall|b: int| 0 <= b < n ==> 0 <= #[trigger] h[b],
    ensures
        0 <= sum_counts(h, n),
        0 <= sum_squares(h, n) <= sum_counts(h, n) * sum_counts(h, n),
    decreases n,
{
    if n > 0 {
        lemma_squares_le_square_of_sum(h, n - 1);
        let t = sum_counts(h, n - 1);
        let q = sum_squares(h, n - 1);
        let x = h[n - 1];
        assert(0 <= q + x * x <= (t + x) * (t + x)) by (nonlinear_arith)
            requires
                0 <= q <= t * t,
                0 <= t,
                0 <= x,
        ;
    }
}

/// Sum of the squares of a bucket array whose buckets hold at most 52 each.
pub fn sum_of_squares<const N: usize>(counts: &[u8; N]) -> (r: usize)
    requires
        N <= 64,
        forall|b: int| 0 <= b < N ==> #[trigger] counts[b] <= 52,
    ensures
        r == sum_squares(counts_view(*counts), N as int),
{
    let ghost h = counts_view(*counts);
    let mut sum: usize = 0;
    let mut b: usize = 0;
    while b < N
        invariant
            N <= 64,
            0 <= b <= N,
            h == counts_view(*counts),
            forall|k: int| 0 <= k < N ==> #[trigger] counts[k] <= 52,
            sum == sum_squares(h, b as int),
            sum <= 2704 * b,
        decreases N - b,
    {
        let count = counts[b] as usize;
        assert(h[b as int] == count);
        assert(count * count <= 2704) by (nonlinear_arith)
            requires
                count <= 52,
        ;
        sum += count * count;
        b += 1;
    }
    sum
}

/// Sum of `f(x)` over `lo <= x < hi`.
pub open spec fn range_sum(f: spec_fn(int) -> int, lo: int, hi: int) -> int
    decreases hi - lo,
{
    if hi <= lo {
        0
    } else {
        range_sum(f, lo, hi - 1) + f(hi - 1)
    }
}

/// A range sum splits at any point between its ends.
pub proof fn lemma_range_sum_split(f: spec_fn(int) -> int, lo: int, mid: int, hi: int)
    requires
        lo <= mid <= hi,
    ensures
        range_sum(f, lo, hi) == range_sum(f, lo, mid) + range_sum(f, mid, hi),
    decreases hi - mid,
{
    if hi > mid {
        lemma_range_sum_split(f, lo, mid, hi - 1);
    }
}

/// Summing `f` over `lo..hi` is summing `g` over the range moved by `d`, when
/// `f(x) == g(x + d)` there.
pub proof fn lemma_range_sum_shift(f: spec_fn(int) -> int, g: spec_fn(int) -> int, lo: int, hi: int, d: int)
    requires
        forall|x: int| lo <= x < hi ==> #[trigger] f(x) == g(x + d),
    ensures
        range_sum(f, lo, hi) == range_sum(g, lo + d, hi + d),
    decreases hi - lo,
{
    if hi > lo {
        lemma_range_sum_shift(f, g, lo, hi - 1, d);
        assert(f(hi - 1) == g(hi - 1 + d));
    }
}

/// A range sum of zeros is zero.
pub proof fn lemma_range_sum_zero(f: spec_fn(int) -> int, lo: int, hi: int)
    requires
        forall|x: int| lo <= x < hi ==> #[trigger] f(x) == 0,
    ensures
        range_sum(f, lo, hi) == 0,
    decreases hi - lo,
{
    if hi > lo {
        lemma_range_sum_zero(f, lo, hi - 1);
    }
}

/// The sum of squares of the first `n` buckets as a range sum.
pub proof fn lemma_sum_squares_range(h: Seq<int>, f: spec_fn(int) -> int, n: int)
    requires
        forall|b: int| 0 <= b < n ==> #[trigger] f(b) == h[b] * h[b],
    ensures
        sum_squares(h, n) == range_sum(f, 0, n),
    decreases n,
{
    if n > 0 {
        lemma_sum_squares_range(h, f, n - 1);
        assert(f(n - 1) == h[n - 1] * h[n - 1]);
    }
}

} // verus!
