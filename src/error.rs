use vstd::prelude::*;

verus! {

/// Why the engine refused a request.
#[derive(Clone, Copy, PartialEq, Eq, Structural, Debug)]
pub enum ZertzError {
    /// A board size other than 37, 40, 43, 44, 48 or 61 rings.
    InvalidBoardSize(u8),
    /// The ring to remove is not a removable vacant ring.
    InvalidRingToRemove,
    /// The target is not a vacant ring, or no marble of that colour is left
    /// to place.
    InvalidPuttingMarble,
    /// A jump over a cell without a marble: the engine's own fault.
    FailedToCatchMarble,
    /// A request that does not fit what the game waits for.
    InvalidInputData,
    /// A saved position that cannot be played from: a marble missing or
    /// extra, no player to move, a ring outside the board, or a record made
    /// on another board.
    InvalidPosition,
}

} // verus!
