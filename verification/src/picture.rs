//! What a renderer prints of a board.

use vstd::prelude::*;
use crate::board::Board;

verus! {

impl Board {
    /// The picture of the board, row by row from the top row, which is the
    /// one with the highest `y`, down to row 0; within a row from column 0
    /// on. Each cell is shown by its glyph.
    pub fn render(&self) -> (rows: Vec<Vec<char>>)
        requires
            self.well_formed(),
        ensures
            rows@.len() == self@.height,
            forall|r: int| 0 <= r < rows@.len() ==> (#[trigger] rows@[r])@.len() == self@.width,
            forall|r: int, x: int|
                0 <= r < self@.height && 0 <= x < self@.width ==> (#[trigger] rows@[r]@[x])
                    == self@.cell(x, self@.height - 1 - r).glyph_of(),
    {
        let width = self.width();
        let height = self.height();
        let mut rows: Vec<Vec<char>> = Vec::new();
        let mut r: usize = 0;
        while r < height
            invariant
                r <= height,
                width == self@.width,
                height == self@.height,
                self.well_formed(),
                rows@.len() == r,
                forall|q: int| 0 <= q < r ==> (#[trigger] rows@[q])@.len() == width,
                forall|q: int, x: int|
                    0 <= q < r && 0 <= x < width ==> (#[trigger] rows@[q]@[x]) == self@.cell(
                        x,
                        height - 1 - q,
                    ).glyph_of(),
            decreases height - r,
        {
            let y = height - 1 - r;
            let mut row: Vec<char> = Vec::new();
            let mut x: usize = 0;
            while x < width
                invariant
                    x <= width,
                    y < height,
                    width == self@.width,
                    height == self@.height,
                    self.well_formed(),
                    row@.len() == x,
                    forall|a: int|
                        0 <= a < x ==> (#[trigger] row@[a]) == self@.cell(a, y as int).glyph_of(),
                decreases width - x,
            {
                row.push(self.at(x, y).glyph());
                x += 1;
            }
            rows.push(row);
            r += 1;
        }
        rows
    }
}

} // verus!
