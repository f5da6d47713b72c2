use vstd::prelude::*;

verus! {

/// Errors surfaced by offset-tracking queries. Both are recoverable: callers
/// skip the partition (exposition) or record the lag as unknown (lag join).
#[derive(Clone, Debug, PartialEq, Eq)]
pub enum PartitionOffsetsError {
    /// A query referenced a topic partition the register has never seen.
    LagEstimatorNotFound(String, u32),
    /// The estimator does not yet hold the history element the query needs.
    NotEnoughData,
}

pub type PartitionOffsetsResult<T> = Result<T, PartitionOffsetsError>;

} // verus!
