use vstd::prelude::*;

use crate::errors::TreeError;
use crate::metrics::{metric_dist, point_ok, distance_points, Metric, DIM_LIMIT, DIST_LIMIT};

verus! {

/// Largest number of points a cloud may hold.
pub const POINT_LIMIT: usize = 1048576;

/// Immutable-after-build storage of `N` points of one fixed dimension, one
/// label per point, and the metric that measures distances between them.
pub struct PointCloud {
    pub points: Vec<Vec<i64>>,
    pub labels: Vec<i64>,
    pub dim: usize,
    pub metric: Metric,
}

/// Validity of a point cloud: non-empty, bounded size, every row has the
/// common dimension and bounded coordinates, one label per point.
pub open spec fn cloud_wf(c: PointCloud) -> bool {
    &&& 1 <= c.points@.len() <= POINT_LIMIT
    &&& 1 <= c.dim <= DIM_LIMIT
    &&& c.labels@.len() == c.points@.len()
    &&& forall|i: int|
        0 <= i < c.points@.len() ==> (#[trigger] c.points@[i])@.len() == c.dim && point_ok(
            c.points@[i]@,
        )
}

/// Distance between two stored points, with the stored point `i` first.
pub open spec fn dist_pts(c: PointCloud, i: int, j: int) -> int {
    metric_dist(c.metric, c.points@[i]@, c.points@[j]@)
}

/// Distance from an external query point to stored point `i`.
pub open spec fn dist_q(c: PointCloud, q: Seq<i64>, i: int) -> int {
    metric_dist(c.metric, q, c.points@[i]@)
}

/// The input rows that `PointCloud::new` accepts.
pub open spec fn rows_ok(points: Seq<Vec<i64>>) -> bool {
    &&& 1 <= points.len() <= POINT_LIMIT
    &&& 1 <= points[0]@.len() <= DIM_LIMIT
    &&& forall|i: int|
        0 <= i < points.len() ==> (#[trigger] points[i])@.len() == points[0]@.len() && point_ok(
            points[i]@,
        )
}

impl PointCloud {
    /// Builds a cloud from raw rows and optional labels; absent labels
    /// default to zero.  Returns `DataError` exactly when the rows are
    /// empty, oversized, ragged, out of coordinate range, or the label
    /// count does not match the point count.
    pub fn new(points: Vec<Vec<i64>>, labels: Option<Vec<i64>>, metric: Metric) -> (r: Result<
        PointCloud,
        TreeError,
    >)
        ensures
            r is Ok <==> rows_ok(points@) && (labels matches Some(l) ==> l@.len()
                == points@.len()),
            r matches Ok(c) ==> cloud_wf(c) && c.points@ == points@ && c.metric == metric && c.dim
                == points@[0]@.len() && c.labels@.len() == points@.len() && (labels matches Some(l)
                ==> c.labels@ == l@),
            r matches Err(e) ==> e == TreeError::DataError,
    {
        let n: usize = points.len();
        if n == 0 || n > POINT_LIMIT {
            return Err(TreeError::DataError);
        }
        let dim: usize = points[0].len();
        if dim == 0 || dim > DIM_LIMIT {
            return Err(TreeError::DataError);
        }
        let mut i: usize = 0;
        while i < n
            invariant
                0 <= i <= n,
                n == points@.len(),
                dim == points@[0]@.len(),
                1 <= dim <= DIM_LIMIT,
                forall|j: int|
                    0 <= j < i ==> (#[trigger] points@[j])@.len() == dim && point_ok(points@[j]@),
            decreases n - i,
        {
            let row = &points[i];
            if row.len() != dim {
                return Err(TreeError::DataError);
            }
            let mut k: usize = 0;
            while k < dim
                invariant
                    0 <= k <= dim,
                    dim == row@.len(),
                    0 <= i < points@.len(),
                    row@ == points@[i as int]@,
                    forall|t: int|
                        0 <= t < k ==> -crate::metrics::COORD_LIMIT <= #[trigger] row@[t]
                            <= crate::metrics::COORD_LIMIT,
                decreases dim - k,
            {
                let v: i64 = row[k];
                if v < -crate::metrics::COORD_LIMIT || v > crate::metrics::COORD_LIMIT {
                    return Err(TreeError::DataError);
                }
                k = k + 1;
            }
            i = i + 1;
        }
        let labels_vec: Vec<i64> = match labels {
            Some(l) => {
                if l.len() != n {
                    return Err(TreeError::DataError);
                }
                l
            },
            None => {
                let mut zeros: Vec<i64> = Vec::new();
                let mut j: usize = 0;
                while j < n
                    invariant
                        0 <= j <= n,
                        zeros@.len() == j,
                    decreases n - j,
                {
                    zeros.push(0);
                    j = j + 1;
                }
                zeros
            },
        };
        Ok(PointCloud { points, labels: labels_vec, dim, metric })
    }

    /// How many points the cloud holds.
    pub fn len(&self) -> (n: usize)
        ensures
            n == self.points@.len(),
    {
        self.points.len()
    }

    /// A borrowed view of one stored point.
    pub fn point(&self, i: usize) -> (p: &Vec<i64>)
        requires
            i < self.points@.len(),
        ensures
            p == self.points@[i as int],
    {
        &self.points[i]
    }

    /// The label attached to one stored point.
    pub fn label(&self, i: usize) -> (l: i64)
        requires
            cloud_wf(*self),
            i < self.points@.len(),
        ensures
            l == self.labels@[i as int],
    {
        self.labels[i]
    }

    /// Exact distance between two stored points.
    pub fn distance(&self, i: usize, j: usize) -> (d: u64)
        requires
            cloud_wf(*self),
            i < self.points@.len(),
            j < self.points@.len(),
        ensures
            d as int == dist_pts(*self, i as int, j as int),
            d <= DIST_LIMIT,
    {
        distance_points(self.metric, &self.points[i], &self.points[j])
    }

    /// Exact distance from a query point to one stored point.
    pub fn distance_to(&self, q: &Vec<i64>, i: usize) -> (d: u64)
        requires
            cloud_wf(*self),
            q@.len() == self.dim,
            point_ok(q@),
            i < self.points@.len(),
        ensures
            d as int == dist_q(*self, q@, i as int),
            d <= DIST_LIMIT,
    {
        distance_points(self.metric, q, &self.points[i])
    }
}

} // verus!
