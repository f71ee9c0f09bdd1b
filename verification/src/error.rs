use vstd::prelude::*;

verus! {

/// Why an execution was abandoned.
#[derive(Debug, Clone, Copy, PartialEq, Eq, Structural)]
pub enum Error {
    /// A loop start has no loop end after it.
    UnmatchedLoopStart,
    /// A loop end has no loop start before it.
    UnmatchedLoopEnd,
    /// The tape was addressed outside its cells.
    OutOfBounds,
    /// The execution would not end within its step budget.
    Timeout,
}

} // verus!
