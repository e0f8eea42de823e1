use vstd::prelude::*;

verus! {

/// Every failure the library can report.
///
/// `ConfigurationError` and `DataError` are fatal at build time: no tree is
/// ever produced from invalid builder parameters or an invalid point cloud.
/// `NotFound` is recoverable and local to a single query.  `StateError`
/// signals misuse of a component's lifecycle, such as updating a tracker
/// that was already finalized or attaching a plugin before the base
/// summaries exist.
#[derive(Clone, Copy, PartialEq, Eq, Structural, Debug)]
pub enum TreeError {
    /// Invalid builder parameters (scale base or cutoff out of range).
    ConfigurationError,
    /// Invalid input data (empty cloud, ragged rows, out-of-range values).
    DataError,
    /// A queried scale index or node address does not exist.
    NotFound,
    /// A component was used outside its legal lifecycle.
    StateError,
}

} // verus!
