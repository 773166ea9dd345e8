use vstd::prelude::*;

verus! {

/// Everything that can go wrong while a board state is reconstructed.
#[derive(Copy, Clone, Debug, PartialEq, Eq, Structural)]
pub enum GobanError {
    /// A node-number points past the end of the chosen line.
    InsufficientSgfNodes,
    /// The requested game index is not in the collection.
    MissingGame,
    /// The requested variation id was never assigned.
    MissingVariation,
    /// A stone was placed out of bounds or onto an occupied point.
    InvalidMove,
    /// An explicit display rectangle exceeds the board.
    InvalidRange,
    /// A malformed or oversized board-size declaration.
    InvalidSzProperty,
}

/// Errors for values handed in by the caller (command-line shaped input).
#[derive(Clone, Debug)]
pub enum UsageError {
    InvalidRange,
    InvalidFirstMoveNumber,
    InvalidLastMoveNumber,
    InvalidBoardSides,
    InvalidNodeNumber(String),
    InvalidTextOutputOption(String),
    InvalidTileSet,
}

/// Failures of the variation-index queries.
#[derive(Copy, Clone, Debug, PartialEq, Eq, Structural)]
pub enum QueryError {
    GameNotFound,
    VariationNotFound,
}

} // verus!
