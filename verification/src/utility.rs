//! The distance metric used by the clustering engine.
//!
//! Coordinates are plain integers (pixel units, or fine clock units for the
//! time axis).  The metric is the squared Euclidean distance: the clustering
//! engine only ever compares a distance against a radius, and for
//! non-negative quantities `sqrt(d) < eps` holds exactly when `d < eps * eps`,
//! so the square root itself is never needed.

use vstd::prelude::*;

verus! {

/// Largest coordinate magnitude the metric accepts; keeps every squared
/// difference, and any sum of up to 65536 of them, inside `u128`.
pub const COORD_BOUND: i64 = 0x2000_0000_0000;

/// Upper bound on one squared per-axis difference: (2 * COORD_BOUND)^2 = 2^92.
pub const TERM_BOUND: u128 = 0x1000_0000_0000_0000_0000_0000;

/// Squared Euclidean distance over the first `k` axes.
pub open spec fn dist_sq_prefix(a: Seq<i64>, b: Seq<i64>, k: int) -> int
    decreases k,
{
    if k <= 0 {
        0
    } else {
        let d = a[k - 1] - b[k - 1];
        dist_sq_prefix(a, b, k - 1) + d * d
    }
}

/// Squared Euclidean distance between two coordinate vectors
/// (over their common prefix; callers use equal-length vectors).
pub open spec fn dist_sq(a: Seq<i64>, b: Seq<i64>) -> int {
    if a.len() <= b.len() {
        dist_sq_prefix(a, b, a.len() as int)
    } else {
        dist_sq_prefix(a, b, b.len() as int)
    }
}

/// Each squared term is non-negative and bounded, so every prefix sum is
/// non-negative and at most `k * (2 * COORD_BOUND)^2`.
pub proof fn lemma_dist_sq_prefix_bounds(a: Seq<i64>, b: Seq<i64>, k: int)
    requires
        0 <= k <= a.len(),
        k <= b.len(),
        forall|i: int| 0 <= i < a.len() ==> -COORD_BOUND <= #[trigger] a[i] <= COORD_BOUND,
        forall|i: int| 0 <= i < b.len() ==> -COORD_BOUND <= #[trigger] b[i] <= COORD_BOUND,
    ensures
        0 <= dist_sq_prefix(a, b, k) <= k * (TERM_BOUND as int),
    decreases k,
{
    let t = TERM_BOUND as int;
    if k > 0 {
        lemma_dist_sq_prefix_bounds(a, b, k - 1);
        let d = a[k - 1] - b[k - 1];
        assert(-(2 * COORD_BOUND) as int <= d <= (2 * COORD_BOUND) as int);
        assert(0 <= d * d <= t) by (nonlinear_arith)
            requires -0x4000_0000_0000 <= d <= 0x4000_0000_0000, t == 0x1000_0000_0000_0000_0000_0000;
        assert((k - 1) * t + t == k * t) by (nonlinear_arith);
    } else {
        assert(k * t == 0) by (nonlinear_arith) requires k == 0;
    }
}

/// The metric is symmetric: swapping the two vectors gives the same value.
pub proof fn lemma_dist_sq_symmetric(a: Seq<i64>, b: Seq<i64>)
    ensures
        dist_sq(a, b) == dist_sq(b, a),
{
    let k = if a.len() <= b.len() { a.len() as int } else { b.len() as int };
    lemma_dist_sq_prefix_symmetric(a, b, k);
}

proof fn lemma_dist_sq_prefix_symmetric(a: Seq<i64>, b: Seq<i64>, k: int)
    ensures
        dist_sq_prefix(a, b, k) == dist_sq_prefix(b, a, k),
    decreases k,
{
    if k > 0 {
        lemma_dist_sq_prefix_symmetric(a, b, k - 1);
        let d = a[k - 1] - b[k - 1];
        let e = b[k - 1] - a[k - 1];
        assert(d * d == e * e) by (nonlinear_arith) requires d == -e;
    }
}

/// Squared Euclidean distance between two equal-length coordinate vectors.
pub fn euclidean_distance_sq(a: &Vec<i64>, b: &Vec<i64>) -> (r: u128)
    requires
        a@.len() == b@.len(),
        a@.len() <= 0x10000,
        forall|i: int| 0 <= i < a@.len() ==> -COORD_BOUND <= #[trigger] a@[i] <= COORD_BOUND,
        forall|i: int| 0 <= i < b@.len() ==> -COORD_BOUND <= #[trigger] b@[i] <= COORD_BOUND,
    ensures
        r as int == dist_sq(a@, b@),
{
    let ghost t: int = TERM_BOUND as int;
    let mut sum: u128 = 0;
    let mut i: usize = 0;
    while i < a.len()
        invariant
            a@.len() == b@.len(),
            a@.len() <= 0x10000,
            i <= a@.len(),
            forall|j: int| 0 <= j < a@.len() ==> -COORD_BOUND <= #[trigger] a@[j] <= COORD_BOUND,
            forall|j: int| 0 <= j < b@.len() ==> -COORD_BOUND <= #[trigger] b@[j] <= COORD_BOUND,
            sum as int == dist_sq_prefix(a@, b@, i as int),
            t == TERM_BOUND as int,
            sum as int <= i as int * t,
        decreases a@.len() - i,
    {
        proof {
            lemma_dist_sq_prefix_bounds(a@, b@, i as int);
        }
        let d: i64 = a[i] - b[i];
        let dw: i128 = d as i128;
        proof {
            assert(0 <= dw * dw <= t) by (nonlinear_arith)
                requires -0x4000_0000_0000 <= dw <= 0x4000_0000_0000, t == 0x1000_0000_0000_0000_0000_0000;
            assert(i as int * t + t == (i + 1) as int * t) by (nonlinear_arith);
            assert(0x10000 * t < u128::MAX);
            assert(i as int * t <= 0x10000 * t) by (nonlinear_arith)
                requires 0 <= i as int <= 0x10000, t >= 0;
        }
        let d2: u128 = (dw * dw) as u128;
        sum = sum + d2;
        i = i + 1;
    }
    sum
}

} // verus!
