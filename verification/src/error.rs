//! Failure taxonomy of the aggregation pipeline.

use vstd::prelude::*;

verus! {

/// Why a run was aborted.
///
/// No failure is recovered mid-run: partial aggregates are meaningless, so
/// the first failure aborts the whole computation.
#[derive(Debug, Clone, Copy, PartialEq, Eq, Structural)]
pub enum Error {
    /// The requested partition count cannot be met: the buffer holds too few
    /// line terminators past the candidate boundaries, so some partition
    /// would be empty.
    Configuration,
    /// The line starting at byte `offset` of the buffer does not end in the
    /// expected `;<sign?><1-2 digits>.<digit>` suffix, or the buffer's tail
    /// after the last terminator is not empty.
    MalformedRecord { offset: usize },
}

} // verus!
