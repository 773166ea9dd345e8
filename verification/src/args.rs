use vstd::prelude::*;

verus! {

/// What the caller asks the program to do.
#[derive(Debug, Clone, Copy, PartialEq, Eq, Structural)]
pub enum Command {
    /// Print a tree of the record's variations.
    Query,
}

/// The shape of the rendered output.
#[derive(Debug, Clone, Copy, PartialEq, Eq, Structural)]
pub enum OutputFormat {
    Svg,
    Text,
    Png,
}

/// Which move numbers a rendering writes onto the stones.
#[derive(Debug, Clone, Copy, PartialEq, Eq, Structural)]
pub struct MoveNumberOptions {
    /// First move to number.
    pub start: u64,
    /// Last move to number, if bounded.
    pub end: Option<u64>,
    /// The number printed on the first numbered move.
    pub count_from: u64,
}

} // verus!
