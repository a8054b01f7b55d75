//! Distance metrics over integer points.
//!
//! A metric combines one contribution per axis by addition. The per-axis
//! contribution is also what the traversals use as a lower bound when they
//! weigh whether a subtree on the far side of a split can hold a closer point.
use vstd::prelude::*;

verus! {

/// The largest value a one-axis contribution can take: `(2^32 - 1)^2 < 2^64`.
pub open spec fn axis_bound() -> int {
    0x1_0000_0000_0000_0000
}

/// The distance metrics supported by the query engine.
#[derive(Clone, Copy, Debug, PartialEq, Eq, Structural)]
pub enum Metric {
    /// Sum of absolute coordinate differences.
    Manhattan,
    /// Sum of squared coordinate differences.
    SquaredEuclidean,
}

/// The absolute difference of two integers.
pub open spec fn abs_diff(a: int, b: int) -> int {
    if a >= b { a - b } else { b - a }
}

/// What a metric attributes to a difference along a single axis.
pub open spec fn axis_dist(m: Metric, a: int, b: int) -> int {
    match m {
        Metric::Manhattan => abs_diff(a, b),
        Metric::SquaredEuclidean => abs_diff(a, b) * abs_diff(a, b),
    }
}

/// Sum of the one-axis contributions over the first `n` axes.
pub open spec fn dist_upto(m: Metric, p: Seq<i32>, q: Seq<i32>, n: nat) -> int
    decreases n,
{
    if n == 0 {
        0
    } else {
        dist_upto(m, p, q, (n - 1) as nat) + axis_dist(m, p[n - 1] as int, q[n - 1] as int)
    }
}

/// The full distance between two points of equal dimension.
pub open spec fn dist(m: Metric, p: Seq<i32>, q: Seq<i32>) -> int {
    dist_upto(m, p, q, p.len())
}

/// Distances are never negative.
pub proof fn lemma_dist_upto_nonneg(m: Metric, p: Seq<i32>, q: Seq<i32>, n: nat)
    ensures
        dist_upto(m, p, q, n) >= 0,
    decreases n,
{
    if n > 0 {
        lemma_dist_upto_nonneg(m, p, q, (n - 1) as nat);
        let x = abs_diff(p[n - 1] as int, q[n - 1] as int);
        assert(x * x >= 0) by (nonlinear_arith);
    }
}

/// A one-axis contribution between two `i32` values fits below `2^64`.
pub proof fn lemma_axis_dist_range(m: Metric, a: i32, b: i32)
    ensures
        0 <= axis_dist(m, a as int, b as int) < axis_bound(),
{
    let d = abs_diff(a as int, b as int);
    assert(0 <= d < 0x1_0000_0000);
    if m == Metric::SquaredEuclidean {
        assert(0 <= d * d < 0x1_0000_0000_0000_0000) by (nonlinear_arith)
            requires 0 <= d < 0x1_0000_0000;
    }
}

/// Every prefix sum is non-negative and below `n` times the per-axis bound.
pub proof fn lemma_dist_upto_range(m: Metric, p: Seq<i32>, q: Seq<i32>, n: nat)
    requires
        n <= p.len(),
        n <= q.len(),
    ensures
        0 <= dist_upto(m, p, q, n) <= n * (axis_bound() - 1),
    decreases n,
{
    if n > 0 {
        lemma_dist_upto_range(m, p, q, (n - 1) as nat);
        lemma_axis_dist_range(m, p[n - 1], q[n - 1]);
        assert((n - 1) * (axis_bound() - 1) + (axis_bound() - 1) == n * (axis_bound() - 1))
            by (nonlinear_arith);
    }
}

/// A sum of non-negative contributions is at least any one of them.
pub proof fn lemma_dist_upto_ge_axis(m: Metric, p: Seq<i32>, q: Seq<i32>, n: nat, a: int)
    requires
        0 <= a < n,
        n <= p.len(),
        n <= q.len(),
    ensures
        dist_upto(m, p, q, n) >= axis_dist(m, p[a] as int, q[a] as int),
    decreases n,
{
    lemma_dist_upto_range(m, p, q, (n - 1) as nat);
    lemma_axis_dist_range(m, p[n - 1], q[n - 1]);
    if a < n - 1 {
        lemma_dist_upto_ge_axis(m, p, q, (n - 1) as nat, a);
    }
}

/// The one-axis contribution grows with the coordinate difference.
pub proof fn lemma_axis_dist_monotonic(m: Metric, a: int, b: int, c: int, d: int)
    requires
        abs_diff(a, b) <= abs_diff(c, d),
    ensures
        axis_dist(m, a, b) <= axis_dist(m, c, d),
{
    let x = abs_diff(a, b);
    let y = abs_diff(c, d);
    if m == Metric::SquaredEuclidean {
        assert(x * x <= y * y) by (nonlinear_arith)
            requires 0 <= x <= y;
    }
}

/// A point whose coordinate on `axis` lies beyond `split` (seen from `q`) is
/// at least the one-axis contribution of `split` away from `q`.
pub proof fn lemma_far_side_bound(m: Metric, q: Seq<i32>, p: Seq<i32>, axis: int, split: i32)
    requires
        q.len() == p.len(),
        0 <= axis < q.len(),
        (q[axis] < split && p[axis] >= split) || (q[axis] >= split && p[axis] < split),
    ensures
        dist(m, q, p) >= axis_dist(m, q[axis] as int, split as int),
{
    lemma_dist_upto_ge_axis(m, q, p, q.len(), axis);
    lemma_axis_dist_monotonic(m, q[axis] as int, split as int, q[axis] as int, p[axis] as int);
}

/// Distance between two points is below `u128::MAX`.
pub proof fn lemma_dist_range(m: Metric, p: Seq<i32>, q: Seq<i32>)
    requires
        p.len() == q.len(),
        p.len() <= usize::MAX,
    ensures
        0 <= dist(m, p, q) < u128::MAX,
{
    lemma_dist_upto_range(m, p, q, p.len());
    let n = p.len();
    assert(n * (axis_bound() - 1) < u128::MAX) by (nonlinear_arith)
        requires n <= usize::MAX, usize::MAX <= 0xffff_ffff_ffff_ffff;
}

/// The one-axis contribution between two values whose difference fits in 32 bits.
pub fn dist1(m: Metric, a: i64, b: i64) -> (r: u128)
    requires
        abs_diff(a as int, b as int) < 0x1_0000_0000,
    ensures
        r == axis_dist(m, a as int, b as int),
        r < axis_bound(),
{
    let d: u64 = if a >= b {
        (a - b) as u64
    } else {
        (b - a) as u64
    };
    match m {
        Metric::Manhattan => d as u128,
        Metric::SquaredEuclidean => {
            assert(d * d < 0x1_0000_0000_0000_0000) by (nonlinear_arith)
                requires d < 0x1_0000_0000;
            (d as u128) * (d as u128)
        },
    }
}

/// The full distance between two points.
pub fn distance<const K: usize>(m: Metric, p: &[i32; K], q: &[i32; K]) -> (r: u128)
    ensures
        r == dist(m, p@, q@),
{
    let mut acc: u128 = 0;
    let mut i: usize = 0;
    while i < K
        invariant
            i <= K,
            p@.len() == K,
            q@.len() == K,
            acc == dist_upto(m, p@, q@, i as nat),
        decreases K - i,
    {
        proof {
            lemma_dist_upto_range(m, p@, q@, (i + 1) as nat);
            let n = i + 1;
            assert(n * (axis_bound() - 1) < u128::MAX) by (nonlinear_arith)
                requires n <= usize::MAX, usize::MAX <= 0xffff_ffff_ffff_ffff;
        }
        let d = dist1(m, p[i] as i64, q[i] as i64);
        acc = acc + d;
        i = i + 1;
    }
    acc
}

} // verus!
