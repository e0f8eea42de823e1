use vstd::prelude::*;

verus! {

/// Largest magnitude a point coordinate may have.  Keeping coordinates in
/// this range lets every distance be computed in 64 bits without overflow.
pub const COORD_LIMIT: i64 = 1048576;

/// Largest point dimension the library accepts.
pub const DIM_LIMIT: usize = 4096;

/// Largest value one L1 summand can take: `2 * COORD_LIMIT`.
pub const L1_TERM_LIMIT: i64 = 2097152;

/// Largest value one squared-L2 summand can take: `(2 * COORD_LIMIT)^2`.
pub const L2_TERM_LIMIT: i64 = 4398046511104;

/// Upper bound on any distance the library produces:
/// `DIM_LIMIT * L2_TERM_LIMIT`.
pub const DIST_LIMIT: u64 = 18014398509481984;

/// Marker for the L1 (taxicab) metric over integer coordinate vectors.
pub struct L1 {}

/// Marker for the L2 metric family.  Distances are reported as squared
/// Euclidean lengths, so that every reported value is an exact integer;
/// squaring preserves the ordering of distances.
pub struct L2 {}

/// Which metric a point cloud measures distances with.
#[derive(Clone, Copy, PartialEq, Eq, Structural, Debug)]
pub enum Metric {
    /// Sum of absolute coordinate differences.
    L1,
    /// Sum of squared coordinate differences (squared Euclidean).
    L2,
}

/// `|a - b|` over mathematical integers.
pub open spec fn abs_diff(a: int, b: int) -> int {
    if a >= b {
        a - b
    } else {
        b - a
    }
}

/// L1 distance of the first `n` coordinates.
pub open spec fn l1_prefix(p: Seq<i64>, q: Seq<i64>, n: int) -> int
    decreases n,
{
    if n <= 0 {
        0
    } else {
        l1_prefix(p, q, n - 1) + abs_diff(p[n - 1] as int, q[n - 1] as int)
    }
}

/// Squared-L2 distance of the first `n` coordinates.
pub open spec fn l2_prefix(p: Seq<i64>, q: Seq<i64>, n: int) -> int
    decreases n,
{
    if n <= 0 {
        0
    } else {
        let d = p[n - 1] as int - q[n - 1] as int;
        l2_prefix(p, q, n - 1) + d * d
    }
}

/// What the chosen metric says the distance between two points is.
pub open spec fn metric_dist(m: Metric, p: Seq<i64>, q: Seq<i64>) -> int {
    match m {
        Metric::L1 => l1_prefix(p, q, p.len() as int),
        Metric::L2 => l2_prefix(p, q, p.len() as int),
    }
}

/// A point the library can measure: bounded dimension, bounded coordinates.
pub open spec fn point_ok(p: Seq<i64>) -> bool {
    &&& p.len() <= DIM_LIMIT
    &&& forall|i: int| 0 <= i < p.len() ==> -COORD_LIMIT <= #[trigger] p[i] <= COORD_LIMIT
}

/// Distances are non-negative and bounded by `n` times the largest summand.
pub proof fn lemma_prefix_bounds(p: Seq<i64>, q: Seq<i64>, n: int)
    requires
        0 <= n <= p.len(),
        n <= q.len(),
        point_ok(p),
        point_ok(q),
    ensures
        0 <= l1_prefix(p, q, n) <= n * (L1_TERM_LIMIT as int),
        0 <= l2_prefix(p, q, n) <= n * (L2_TERM_LIMIT as int),
    decreases n,
{
    if n > 0 {
        lemma_prefix_bounds(p, q, n - 1);
        let d = p[n - 1] as int - q[n - 1] as int;
        assert(-2 * (COORD_LIMIT as int) <= d <= 2 * (COORD_LIMIT as int));
        assert(0 <= d * d <= L2_TERM_LIMIT as int) by (nonlinear_arith)
            requires
                -2 * (COORD_LIMIT as int) <= d <= 2 * (COORD_LIMIT as int),
        {
        }
    }
}

/// The distance from any point to itself is zero.
pub proof fn lemma_metric_self_zero(m: Metric, p: Seq<i64>)
    ensures
        metric_dist(m, p, p) == 0,
{
    lemma_prefix_self_zero(p, p.len() as int);
}

proof fn lemma_prefix_self_zero(p: Seq<i64>, n: int)
    requires
        0 <= n <= p.len(),
    ensures
        l1_prefix(p, p, n) == 0,
        l2_prefix(p, p, n) == 0,
    decreases n,
{
    if n > 0 {
        lemma_prefix_self_zero(p, n - 1);
    }
}

/// Both metrics are symmetric.
pub proof fn lemma_metric_symmetric(m: Metric, p: Seq<i64>, q: Seq<i64>)
    requires
        p.len() == q.len(),
    ensures
        metric_dist(m, p, q) == metric_dist(m, q, p),
{
    lemma_prefix_symmetric(p, q, p.len() as int);
}

proof fn lemma_prefix_symmetric(p: Seq<i64>, q: Seq<i64>, n: int)
    requires
        0 <= n <= p.len(),
        n <= q.len(),
    ensures
        l1_prefix(p, q, n) == l1_prefix(q, p, n),
        l2_prefix(p, q, n) == l2_prefix(q, p, n),
    decreases n,
{
    if n > 0 {
        lemma_prefix_symmetric(p, q, n - 1);
        let d = p[n - 1] as int - q[n - 1] as int;
        let e = q[n - 1] as int - p[n - 1] as int;
        assert(d * d == e * e) by (nonlinear_arith)
            requires
                d == -e,
        {
        }
    }
}

/// Measures the distance between two points of equal dimension under the
/// chosen metric, exactly.
pub fn distance_points(m: Metric, p: &Vec<i64>, q: &Vec<i64>) -> (d: u64)
    requires
        p@.len() == q@.len(),
        point_ok(p@),
        point_ok(q@),
    ensures
        d as int == metric_dist(m, p@, q@),
        d <= DIST_LIMIT,
{
    let n: usize = p.len();
    let mut acc: u64 = 0;
    let mut i: usize = 0;
    while i < n
        invariant
            0 <= i <= n,
            n == p@.len() == q@.len(),
            point_ok(p@),
            point_ok(q@),
            acc as int == match m {
                Metric::L1 => l1_prefix(p@, q@, i as int),
                Metric::L2 => l2_prefix(p@, q@, i as int),
            },
            acc as int <= (i as int) * (L2_TERM_LIMIT as int),
        decreases n - i,
    {
        proof {
            lemma_prefix_bounds(p@, q@, i + 1);
        }
        let a: i64 = p[i];
        let b: i64 = q[i];
        let term: i64 = match m {
            Metric::L1 => {
                if a >= b {
                    a - b
                } else {
                    b - a
                }
            },
            Metric::L2 => {
                let d: i64 = a - b;
                proof {
                    assert(0 <= (d as int) * (d as int) <= L2_TERM_LIMIT as int)
                        by (nonlinear_arith)
                        requires
                            -2 * (COORD_LIMIT as int) <= d as int <= 2 * (COORD_LIMIT as int),
                    {
                    }
                }
                d * d
            },
        };
        proof {
            assert((i as int) * (L2_TERM_LIMIT as int) + L2_TERM_LIMIT as int == (i as int + 1)
                * (L2_TERM_LIMIT as int)) by (nonlinear_arith);
            assert((i as int + 1) * (L2_TERM_LIMIT as int) <= (DIM_LIMIT as int) * (
            L2_TERM_LIMIT as int)) by (nonlinear_arith)
                requires
                    i as int + 1 <= DIM_LIMIT as int,
            {
            }
        }
        acc = acc + (term as u64);
        i = i + 1;
    }
    proof {
        assert((n as int) * (L2_TERM_LIMIT as int) <= (DIM_LIMIT as int) * (L2_TERM_LIMIT as int))
            by (nonlinear_arith)
            requires
                n as int <= DIM_LIMIT as int,
        {
        }
    }
    acc
}

impl L1 {
    /// The L1 distance between two points of equal dimension.
    pub fn distance(p: &Vec<i64>, q: &Vec<i64>) -> (d: u64)
        requires
            p@.len() == q@.len(),
            point_ok(p@),
            point_ok(q@),
        ensures
            d as int == metric_dist(Metric::L1, p@, q@),
    {
        distance_points(Metric::L1, p, q)
    }
}

impl L2 {
    /// The squared L2 distance between two points of equal dimension.
    pub fn distance(p: &Vec<i64>, q: &Vec<i64>) -> (d: u64)
        requires
            p@.len() == q@.len(),
            point_ok(p@),
            point_ok(q@),
        ensures
            d as int == metric_dist(Metric::L2, p@, q@),
    {
        distance_points(Metric::L2, p, q)
    }
}

} // verus!
