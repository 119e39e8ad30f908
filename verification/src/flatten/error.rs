//! What can be wrong with partitions that are flattened.

use vstd::prelude::*;

verus! {

/// Why partitions cannot be flattened.
#[derive(Debug, Clone, Copy, PartialEq, Eq, Structural)]
pub enum FlattenError {
    /// The partition refers to something that does not exist.
    Malformed,
    /// The partition has no stage.
    NoStage,
    /// The partition needs more words than a block has threads.
    TooManyWords,
    /// The partition needs more macro phases than its metadata can hold.
    TooManyPhases,
    /// The pin is needed for a write-out, but no stage writes it out.
    Unplaced(usize),
    /// The pin is needed from the state, but nothing keeps it there.
    Unmapped(usize),
    /// The pin is needed in the given stage, but it is not there.
    Missing(usize, usize),
    /// A primary output is constant.
    ConstantOutput,
    /// A flip-flop stores a constant one.
    ConstantOne,
    /// A macro that has no write-out is an endpoint.
    NotDsp,
    /// The threads of a block cannot read all that the partition needs.
    TooManyReads,
    /// There is no free position for a macro output.
    NoFreePosition,
    /// The state does not fit.
    StateTooLarge,
}

} // verus!
