//! A multiresolution spatial index (a cover tree) over integer-coordinate
//! points, together with an online Bayesian drift tracker.
//!
//! The tree is built once over a reference point cloud and then queried
//! through immutable reader snapshots: exact nearest-neighbour queries,
//! "dry" insertions that report the routing path a point would take, and
//! per-node statistics (counts, radii, diagonal Gaussian moments and
//! Dirichlet concentrations over children).  A `BayesCategoricalTracker`
//! consumes dry-insertion paths of a stream of points and maintains
//! per-node Dirichlet posterior counts; a `DirichletBaseline` calibrates
//! the null distribution of those posteriors by feeding the tracker with
//! points sampled from the tree's own point cloud.
//!
//! All geometry is exact: coordinates are bounded integers and distances
//! are the L1 metric or the squared L2 metric, so every quantity in the
//! library is an integer and every contract is exact.

pub mod errors;
pub mod metrics;
pub mod points;
pub mod address;
pub mod plugins;
pub mod tree;
pub mod query;
pub mod tracker;
pub mod baseline;
pub mod covertree;
