//! What a move and a game can come to.

use vstd::prelude::*;

verus! {

/// Why the engine refuses a request.
#[derive(Clone, Copy, Debug, PartialEq, Eq, Structural)]
pub enum BoardError {
    /// The grid cannot hold the mines and leave the first move free: the
    /// number of mines is not below the number of cells, or the number of
    /// cells does not fit the machine.
    Configuration,
    /// The coordinates lie off the grid.
    OutOfBounds,
}

/// What uncovering a cell came to.
#[derive(Clone, Copy, Debug, PartialEq, Eq, Structural)]
pub enum Outcome {
    /// The cell was revealed before; nothing changed.
    AlreadyRevealed,
    /// The cell holds a mine: the game is lost.
    HitMine,
    /// The cell was safe; it and the region around it are revealed.
    Revealed,
}

/// Where a game stands.
#[derive(Clone, Copy, Debug, PartialEq, Eq, Structural)]
pub enum Phase {
    /// No mine has been laid: the first move is still to come.
    MinesPending,
    /// Mines are laid, and neither side has won.
    InPlay,
    /// Every safe cell is revealed.
    Won,
    /// A mine was uncovered.
    Lost,
}

} // verus!
