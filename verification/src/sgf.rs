use vstd::prelude::*;

verus! {

/// A property of one game-record node, already parsed into plain values.
///
/// Coordinates are zero-based `(x, y)` pairs.  Only the properties the
/// board simulator reads are distinguished; every other property kind is
/// `Other` and is ignored during replay.
#[derive(Clone, Debug)]
pub enum Prop {
    /// A black move, or `None` for a pass.
    B(Option<(u8, u8)>),
    /// A white move, or `None` for a pass.
    W(Option<(u8, u8)>),
    /// Setup: add black stones.
    AB(Vec<(u8, u8)>),
    /// Setup: add white stones.
    AW(Vec<(u8, u8)>),
    /// Setup: erase points.
    AE(Vec<(u8, u8)>),
    /// Override the move counter.
    MN(u64),
    /// Markup: marks (an `X`).
    MA(Vec<(u8, u8)>),
    /// Markup: triangles.
    TR(Vec<(u8, u8)>),
    /// Markup: circles.
    CR(Vec<(u8, u8)>),
    /// Markup: squares.
    SQ(Vec<(u8, u8)>),
    /// Markup: selected points.
    SL(Vec<(u8, u8)>),
    /// Markup: dimmed points.
    DD(Vec<(u8, u8)>),
    /// Markup: text labels.
    LB(Vec<((u8, u8), String)>),
    /// Markup: lines between point pairs.
    LN(Vec<((u8, u8), (u8, u8))>),
    /// Markup: arrows between point pairs.
    AR(Vec<((u8, u8), (u8, u8))>),
    /// Board size declaration: `(columns, rows)`.
    SZ(u8, u8),
    /// A board-size declaration that could not be read.
    SzInvalid,
    /// Any property kind the simulator does not read.
    Other,
}

/// One node of a game record: its properties and its child nodes.
#[derive(Debug)]
pub struct GameNode {
    pub properties: Vec<Prop>,
    pub children: Vec<GameNode>,
}

impl GameNode {
    /// Total number of nodes in this subtree (used as a termination measure).
    pub open spec fn count(self) -> nat
        decreases self,
    {
        1 + Self::count_seq(self.children@)
    }

    /// Total number of nodes in a forest.
    pub open spec fn count_seq(s: Seq<GameNode>) -> nat
        decreases s,
    {
        if s.len() == 0 {
            0
        } else {
            s[0].count() + Self::count_seq(s.skip(1))
        }
    }
}

} // verus!
