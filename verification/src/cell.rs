//! One position of the grid.

use vstd::prelude::*;

verus! {

/// The state of one grid position.
#[derive(Clone, Copy, Debug, PartialEq, Eq, Structural)]
pub struct Cell {
    /// Whether the player can see what the cell holds.
    pub revealed: bool,
    /// Whether a mine lies here. Fixed once the mines are laid.
    pub has_mine: bool,
    /// How many of the up to eight neighbours hold a mine.
    pub adjacent_mines: u8,
}

/// The glyph that stands for a cell whose content the player may not see.
pub const HIDDEN_GLYPH: char = '?';

/// The glyph that stands for a revealed cell without neighbouring mines.
pub const BLANK_GLYPH: char = ' ';

/// The digit for a count of neighbouring mines from 1 to 8; the hidden
/// glyph for any other number.
pub open spec fn count_glyph(count: u8) -> char {
    if count == 1 {
        '1'
    } else if count == 2 {
        '2'
    } else if count == 3 {
        '3'
    } else if count == 4 {
        '4'
    } else if count == 5 {
        '5'
    } else if count == 6 {
        '6'
    } else if count == 7 {
        '7'
    } else if count == 8 {
        '8'
    } else {
        HIDDEN_GLYPH
    }
}

impl Cell {
    /// A covered cell without a mine and without mined neighbours.
    pub open spec fn blank() -> Cell {
        Cell { revealed: false, has_mine: false, adjacent_mines: 0 }
    }

    /// What the player sees of this cell: the hidden glyph while it is
    /// covered or holds a mine, a blank when no neighbour is mined, the
    /// count of mined neighbours otherwise.
    pub open spec fn glyph_of(self) -> char {
        if !self.revealed || self.has_mine {
            HIDDEN_GLYPH
        } else if self.adjacent_mines == 0 {
            BLANK_GLYPH
        } else {
            count_glyph(self.adjacent_mines)
        }
    }

    /// Creates a covered cell without a mine.
    pub fn new() -> (cell: Cell)
        ensures
            cell == Cell::blank(),
    {
        Cell { revealed: false, has_mine: false, adjacent_mines: 0 }
    }

    /// The character that a renderer prints for this cell.
    pub fn glyph(&self) -> (glyph: char)
        ensures
            glyph == self.glyph_of(),
    {
        if !self.revealed || self.has_mine {
            HIDDEN_GLYPH
        } else if self.adjacent_mines == 0 {
            BLANK_GLYPH
        } else if self.adjacent_mines == 1 {
            '1'
        } else if self.adjacent_mines == 2 {
            '2'
        } else if self.adjacent_mines == 3 {
            '3'
        } else if self.adjacent_mines == 4 {
            '4'
        } else if self.adjacent_mines == 5 {
            '5'
        } else if self.adjacent_mines == 6 {
            '6'
        } else if self.adjacent_mines == 7 {
            '7'
        } else if self.adjacent_mines == 8 {
            '8'
        } else {
            HIDDEN_GLYPH
        }
    }
}

} // verus!
