//! A tile names one cell of the 9x12 board.
//!
//! Tiles are ordered column-major (column first, then row); the game-start
//! race uses this order to find the single lowest starting tile.

use vstd::prelude::*;
use vstd::string::StringExecFns;

verus! {

/// One of the 108 board cells, as (row, column).
#[derive(Debug, PartialEq, Eq, Clone, Copy, Hash, Structural)]
pub struct Tile {
    pub row: usize,
    pub col: usize,
}

/// Column-major strict order on tiles: `a` comes before `b` when `a` is in an
/// earlier column, or in the same column and an earlier row.
pub open spec fn tile_before(a: Tile, b: Tile) -> bool {
    a.col < b.col || (a.col == b.col && a.row < b.row)
}

/// The display label of the column at index `c`: columns are numbered from 1.
pub open spec fn col_label_spec(c: int) -> Seq<char> {
    if c == 0 {
        "1"@
    } else if c == 1 {
        "2"@
    } else if c == 2 {
        "3"@
    } else if c == 3 {
        "4"@
    } else if c == 4 {
        "5"@
    } else if c == 5 {
        "6"@
    } else if c == 6 {
        "7"@
    } else if c == 7 {
        "8"@
    } else if c == 8 {
        "9"@
    } else if c == 9 {
        "10"@
    } else if c == 10 {
        "11"@
    } else {
        "12"@
    }
}

/// The display label of the row at index `r`: rows are lettered from `A`.
pub open spec fn row_label_spec(r: int) -> Seq<char> {
    if r == 0 {
        "A"@
    } else if r == 1 {
        "B"@
    } else if r == 2 {
        "C"@
    } else if r == 3 {
        "D"@
    } else if r == 4 {
        "E"@
    } else if r == 5 {
        "F"@
    } else if r == 6 {
        "G"@
    } else if r == 7 {
        "H"@
    } else {
        "I"@
    }
}

impl Tile {
    /// Whether this tile comes strictly before `other` in column-major order.
    pub fn precedes(&self, other: &Tile) -> (r: bool)
        ensures
            r == tile_before(*self, *other),
    {
        self.col < other.col || (self.col == other.col && self.row < other.row)
    }

    /// The display label of this tile, column number first, as in `"1-A"`.
    pub fn label(&self) -> (s: String)
        requires
            self.row < 9,
            self.col < 12,
        ensures
            s@ == col_label_spec(self.col as int) + "-"@ + row_label_spec(self.row as int),
    {
        let col_part: &'static str = if self.col == 0 {
            "1"
        } else if self.col == 1 {
            "2"
        } else if self.col == 2 {
            "3"
        } else if self.col == 3 {
            "4"
        } else if self.col == 4 {
            "5"
        } else if self.col == 5 {
            "6"
        } else if self.col == 6 {
            "7"
        } else if self.col == 7 {
            "8"
        } else if self.col == 8 {
            "9"
        } else if self.col == 9 {
            "10"
        } else if self.col == 10 {
            "11"
        } else {
            "12"
        };
        let row_part: &'static str = if self.row == 0 {
            "A"
        } else if self.row == 1 {
            "B"
        } else if self.row == 2 {
            "C"
        } else if self.row == 3 {
            "D"
        } else if self.row == 4 {
            "E"
        } else if self.row == 5 {
            "F"
        } else if self.row == 6 {
            "G"
        } else if self.row == 7 {
            "H"
        } else {
            "I"
        };
        String::from_str(col_part).concat("-").concat(row_part)
    }
}

} // verus!
