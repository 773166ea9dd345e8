use vstd::prelude::*;

use crate::errors::UsageError;
use crate::goban::{Goban, GobanView, StoneColor, in_bounds};

verus! {

/// The eleven glyphs a text diagram is drawn with: white stone, black
/// stone, the four corners, the four edges, and an inner point.
#[derive(Debug, Clone)]
pub struct TileSet {
    tiles: [char; 11],
}

/// The glyph drawn at one point of the board.
pub open spec fn spec_char_at(v: GobanView, tiles: Seq<char>, x: u8, y: u8) -> char {
    let max_x = v.size.0 - 1;
    let max_y = v.size.1 - 1;
    if v.stones.contains_key((x, y)) {
        if v.stones[(x, y)] is White {
            tiles[0]
        } else {
            tiles[1]
        }
    } else if x == 0 && y == 0 {
        tiles[2]
    } else if x == max_x && y == 0 {
        tiles[3]
    } else if x == 0 && y == max_y {
        tiles[4]
    } else if x == max_x && y == max_y {
        tiles[5]
    } else if y == 0 {
        tiles[6]
    } else if x == 0 {
        tiles[7]
    } else if y == max_y {
        tiles[8]
    } else if x == max_x {
        tiles[9]
    } else {
        tiles[10]
    }
}

impl TileSet {
    /// The glyphs, in order.
    pub closed spec fn spec_tiles(self) -> Seq<char> {
        self.tiles@
    }

    /// Builds a tile set from exactly eleven glyphs.
    pub fn from_chars(chars: &Vec<char>) -> (r: Result<TileSet, UsageError>)
        ensures
            r is Ok <==> chars@.len() == 11,
            r is Ok ==> r->Ok_0.spec_tiles() == chars@,
    {
        if chars.len() != 11 {
            return Err(UsageError::InvalidTileSet);
        }
        let tiles: [char; 11] = [
            chars[0],
            chars[1],
            chars[2],
            chars[3],
            chars[4],
            chars[5],
            chars[6],
            chars[7],
            chars[8],
            chars[9],
            chars[10],
        ];
        let r = TileSet { tiles };
        proof {
            assert(r.spec_tiles() =~= chars@);
        }
        Ok(r)
    }

    /// The glyph for one point of a finished board.
    pub fn char_at(&self, goban: &Goban, x: u8, y: u8) -> (c: char)
        requires
            goban.wf(),
            in_bounds((x, y), goban@.size),
        ensures
            c == spec_char_at(goban@, self.spec_tiles(), x, y),
    {
        let max_x = goban.size().0 - 1;
        let max_y = goban.size().1 - 1;
        match goban.stone_color(x, y) {
            Some(StoneColor::White) => self.tiles[0],
            Some(StoneColor::Black) => self.tiles[1],
            None => {
                if x == 0 && y == 0 {
                    self.tiles[2]
                } else if x == max_x && y == 0 {
                    self.tiles[3]
                } else if x == 0 && y == max_y {
                    self.tiles[4]
                } else if x == max_x && y == max_y {
                    self.tiles[5]
                } else if y == 0 {
                    self.tiles[6]
                } else if x == 0 {
                    self.tiles[7]
                } else if y == max_y {
                    self.tiles[8]
                } else if x == max_x {
                    self.tiles[9]
                } else {
                    self.tiles[10]
                }
            },
        }
    }
}

impl Default for TileSet {
    /// The traditional box-drawing glyphs.
    fn default() -> (r: Self)
        ensures
            r.spec_tiles() =~= seq![
                '\u{25cf}',
                '\u{25cb}',
                '\u{250f}',
                '\u{2513}',
                '\u{2517}',
                '\u{251b}',
                '\u{252f}',
                '\u{2520}',
                '\u{2537}',
                '\u{2528}',
                '\u{253c}',
            ],
    {
        TileSet {
            tiles: [
                '\u{25cf}',
                '\u{25cb}',
                '\u{250f}',
                '\u{2513}',
                '\u{2517}',
                '\u{251b}',
                '\u{252f}',
                '\u{2520}',
                '\u{2537}',
                '\u{2528}',
                '\u{253c}',
            ],
        }
    }
}

} // verus!
