use vstd::prelude::*;

verus! {

/// A watermark sample retained in history: at wall-clock instant `at_ms`
/// (milliseconds since the Unix epoch), the latest offset observed on the
/// partition was `offset`.
#[derive(Clone, Copy, Debug, PartialEq, Eq, Structural)]
pub struct TrackedOffset {
    pub offset: u64,
    pub at_ms: u64,
}

} // verus!
