use vstd::prelude::*;

verus! {

/// Why a position or a board could not be built.
#[derive(Clone, Copy, Debug, PartialEq, Eq, Structural)]
pub enum BoardError {
    /// A cell outside the 5x4 grid was asked for.
    OutOfRange,
    /// Two tokens, of the same side or of opposite sides, share a cell.
    InvariantViolation,
}

} // verus!
