use vstd::prelude::*;

use crate::errors::UsageError;

verus! {

/// One edge of the board.
#[derive(Debug, Clone, Copy, PartialEq, Eq, Hash, Structural)]
pub enum BoardSide {
    North,
    East,
    South,
    West,
}

impl BoardSide {
    /// The bit this side occupies in a side set.
    pub open spec fn spec_bit(self) -> u8 {
        match self {
            BoardSide::North => 1u8,
            BoardSide::East => 2u8,
            BoardSide::South => 4u8,
            BoardSide::West => 8u8,
        }
    }

    fn bit(self) -> (r: u8)
        ensures
            r == self.spec_bit(),
    {
        match self {
            BoardSide::North => 1,
            BoardSide::East => 2,
            BoardSide::South => 4,
            BoardSide::West => 8,
        }
    }
}

/// A set of board edges, packed into one byte.
#[derive(Debug, Clone, Copy, PartialEq, Eq, Hash, Structural)]
pub struct BoardSideSet(u8);

impl BoardSideSet {
    /// Which sides the set holds.
    pub closed spec fn spec_contains(self, side: BoardSide) -> bool {
        self.0 & side.spec_bit() != 0
    }

    /// The empty set of sides.
    pub fn new() -> (r: BoardSideSet)
        ensures
            forall|side: BoardSide| !r.spec_contains(side),
    {
        let r = BoardSideSet(0);
        proof {
            assert forall|side: BoardSide| !r.spec_contains(side) by {
                assert(0u8 & side.spec_bit() == 0) by (bit_vector);
            }
        }
        r
    }

    /// Does the set hold no side at all?
    pub fn is_empty(&self) -> (r: bool)
        ensures
            r <==> forall|side: BoardSide| !self.spec_contains(side),
    {
        let r = self.0 & 15 == 0;
        proof {
            let v = self.0;
            if v & 15 == 0 {
                assert forall|side: BoardSide| !self.spec_contains(side) by {
                    let b = side.spec_bit();
                    assert(v & 15 == 0 && (b == 1 || b == 2 || b == 4 || b == 8) ==> v & b == 0)
                        by (bit_vector);
                }
            } else {
                assert(!(v & 1 == 0 && v & 2 == 0 && v & 4 == 0 && v & 8 == 0) ==> !(v & 15 == 0))
                    by (bit_vector);
                assert(!(forall|side: BoardSide| !self.spec_contains(side))) by {
                    if self.spec_contains(BoardSide::North) {
                        assert(self.spec_contains(BoardSide::North));
                    } else if self.spec_contains(BoardSide::East) {
                    } else if self.spec_contains(BoardSide::South) {
                    } else {
                        assert(v & 1 == 0 && v & 2 == 0 && v & 4 == 0 && !(v & 15 == 0) ==> v & 8
                            != 0) by (bit_vector);
                        assert(self.spec_contains(BoardSide::West));
                    }
                }
            }
        }
        r
    }

    /// Does the set hold this side?
    pub fn contains(&self, side: BoardSide) -> (r: bool)
        ensures
            r == self.spec_contains(side),
    {
        self.0 & side.bit() != 0
    }

    /// Puts one side into the set.
    pub fn insert(&mut self, side: BoardSide)
        ensures
            final(self).spec_contains(side),
            forall|other: BoardSide| #[trigger]
                final(self).spec_contains(other) <==> (old(self).spec_contains(other) || other
                    == side),
    {
        let ghost v0 = self.0;
        self.0 = self.0 | side.bit();
        proof {
            let b = side.spec_bit();
            assert((b == 1 || b == 2 || b == 4 || b == 8) ==> (v0 | b) & b != 0) by (bit_vector);
            assert forall|other: BoardSide| #[trigger]
                self.spec_contains(other) <==> (old(self).spec_contains(other) || other
                    == side) by {
                let c = other.spec_bit();
                if other != side {
                    assert(((b == 1 || b == 2 || b == 4 || b == 8) && (c == 1 || c == 2 || c == 4
                        || c == 8) && b != c) ==> ((v0 | b) & c == v0 & c)) by (bit_vector);
                }
            }
        }
    }
}

impl Default for BoardSideSet {
    /// The default set holds no side.
    fn default() -> (r: Self)
        ensures
            forall|side: BoardSide| !r.spec_contains(side),
    {
        let r = BoardSideSet(0);
        proof {
            assert forall|side: BoardSide| !r.spec_contains(side) by {
                assert(0u8 & side.spec_bit() == 0) by (bit_vector);
            }
        }
        r
    }
}

/// Reads a side set from its letter form: one letter per side.
pub fn parse_board_sides(s: &Vec<char>) -> (r: Result<BoardSideSet, UsageError>)
    ensures
        r is Ok <==> (forall|i: int|
            0 <= i < s@.len() ==> (#[trigger] s@[i] == 'n' || s@[i] == 'e' || s@[i] == 's'
                || s@[i] == 'w')),
{
    let mut value = BoardSideSet::new();
    let mut i: usize = 0;
    while i < s.len()
        invariant
            0 <= i <= s@.len(),
            forall|j: int|
                0 <= j < i ==> (#[trigger] s@[j] == 'n' || s@[j] == 'e' || s@[j] == 's' || s@[j]
                    == 'w'),
        decreases s@.len() - i,
    {
        let c = s[i];
        if c == 'n' {
            value.insert(BoardSide::North);
        } else if c == 'e' {
            value.insert(BoardSide::East);
        } else if c == 's' {
            value.insert(BoardSide::South);
        } else if c == 'w' {
            value.insert(BoardSide::West);
        } else {
            return Err(UsageError::InvalidBoardSides);
        }
        i = i + 1;
    }
    Ok(value)
}

} // verus!
