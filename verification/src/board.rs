//! The board as it is stored, and how the stored grid answers to its model.

use vstd::prelude::*;
use crate::cell::Cell;
use crate::model::BoardView;
use crate::status::BoardError;

verus! {

/// The coordinate one step below `base`, `base` itself, or one step above
/// it, as `delta` is 0, 1 or 2; none where that leaves `0..limit`.
fn shifted(base: usize, delta: usize, limit: usize) -> (moved: Option<usize>)
    requires
        base < limit,
        delta <= 2,
    ensures
        match moved {
            Some(coordinate) => coordinate == base + delta - 1 && coordinate < limit,
            None => base + delta - 1 < 0 || base + delta - 1 >= limit,
        },
{
    if delta == 0 {
        if base == 0 {
            None
        } else {
            Some(base - 1)
        }
    } else if delta == 1 {
        Some(base)
    } else if base + 1 < limit {
        Some(base + 1)
    } else {
        None
    }
}

/// The grid of a game together with the flags of its life cycle.
///
/// A board is made by [`Board::new`] and changed by the moves of the game
/// only. Its model is the [`BoardView`] that `view` returns.
#[derive(Clone, Debug)]
pub struct Board {
    width: usize,
    height: usize,
    mine_count: usize,
    grid: Vec<Vec<Cell>>,
    mines_placed: bool,
    game_over: bool,
}

impl View for Board {
    type V = BoardView;

    closed spec fn view(&self) -> BoardView {
        BoardView {
            width: self.width as nat,
            height: self.height as nat,
            mine_count: self.mine_count as nat,
            cells: Seq::new(self.grid@.len(), |x: int| self.grid@[x]@),
            mines_placed: self.mines_placed,
            game_over: self.game_over,
        }
    }
}

impl Board {
    /// The stored grid has the dimensions that the board records, the
    /// number of cells fits the machine, and there are more cells than
    /// configured mines.
    pub closed spec fn well_formed(&self) -> bool {
        &&& self.grid@.len() == self.width
        &&& forall|x: int| 0 <= x < self.width ==> (#[trigger] self.grid@[x])@.len() == self.height
        &&& self.width * self.height <= usize::MAX
        &&& self.mine_count < self.width * self.height
    }

    /// The board is well formed and in a state between two moves of a game.
    pub open spec fn inv(&self) -> bool {
        self.well_formed() && self@.valid()
    }

    /// A well-formed board has a grid-shaped view with more cells than
    /// mines, and the machine can count its cells.
    pub proof fn lemma_well_formed_view(&self)
        requires
            self.well_formed(),
        ensures
            self@.shaped(),
            self@.width * self@.height <= usize::MAX,
            self@.mine_count < self@.width * self@.height,
    {
    }

    /// Creates the board of a new game: `width` columns of `height` covered
    /// cells, with `mine_count` mines to be laid on the first move.
    ///
    /// The configuration is refused unless the number of mines is below the
    /// number of cells, so that the mines fit beside the first move, and the
    /// number of cells fits the machine.
    pub fn new(width: usize, height: usize, mine_count: usize) -> (made: Result<Board, BoardError>)
        ensures
            match made {
                Ok(board) => {
                    &&& width * height <= usize::MAX
                    &&& mine_count < width * height
                    &&& board.inv()
                    &&& board@ == BoardView::fresh(width as nat, height as nat, mine_count as nat)
                },
                Err(error) => {
                    &&& error == BoardError::Configuration
                    &&& (width * height > usize::MAX || mine_count >= width * height)
                },
            },
    {
        let total = match width.checked_mul(height) {
            Some(total) => total,
            None => {
                return Err(BoardError::Configuration);
            },
        };
        if mine_count >= total {
            return Err(BoardError::Configuration);
        }
        let mut grid: Vec<Vec<Cell>> = Vec::new();
        let mut x: usize = 0;
        while x < width
            invariant
                x <= width,
                grid@.len() == x,
                forall|i: int| 0 <= i < x ==> (#[trigger] grid@[i])@ == Seq::new(
                    height as nat,
                    |y: int| Cell::blank(),
                ),
            decreases width - x,
        {
            let mut column: Vec<Cell> = Vec::new();
            let mut y: usize = 0;
            while y < height
                invariant
                    y <= height,
                    column@.len() == y,
                    forall|j: int| 0 <= j < y ==> #[trigger] column@[j] == Cell::blank(),
                decreases height - y,
            {
                column.push(Cell::new());
                y += 1;
            }
            assert(column@ =~= Seq::new(height as nat, |y: int| Cell::blank()));
            grid.push(column);
            x += 1;
        }
        let board = Board { width, height, mine_count, grid, mines_placed: false, game_over: false };
        proof {
            let fresh = BoardView::fresh(width as nat, height as nat, mine_count as nat);
            assert(board@.cells =~= fresh.cells);
            assert(board@ == fresh);
            assert(board@.mines() =~= Set::empty());
            assert(!board@.mine_shown());
        }
        Ok(board)
    }

    /// The number of columns.
    pub fn width(&self) -> (width: usize)
        ensures
            width == self@.width,
    {
        self.width
    }

    /// The number of rows.
    pub fn height(&self) -> (height: usize)
        ensures
            height == self@.height,
    {
        self.height
    }

    /// The number of mines that the board is configured for.
    pub fn mine_count(&self) -> (mine_count: usize)
        ensures
            mine_count == self@.mine_count,
    {
        self.mine_count
    }

    /// The number of cells.
    pub fn cell_count(&self) -> (cell_count: usize)
        requires
            self.well_formed(),
        ensures
            cell_count == self@.width * self@.height,
            self@.mine_count < cell_count,
    {
        self.width * self.height
    }

    /// Whether the mines have been laid.
    pub fn mines_placed(&self) -> (placed: bool)
        ensures
            placed == self@.mines_placed,
    {
        self.mines_placed
    }

    /// Whether a mined cell has been uncovered.
    pub fn game_over(&self) -> (over: bool)
        ensures
            over == self@.game_over,
    {
        self.game_over
    }

    /// The cell at `(x, y)`, or none where that lies off the grid.
    pub fn cell(&self, x: usize, y: usize) -> (cell: Option<Cell>)
        requires
            self.well_formed(),
        ensures
            cell == (if self@.in_bounds(x as int, y as int) {
                Some(self@.cell(x as int, y as int))
            } else {
                None
            }),
    {
        if x < self.width && y < self.height {
            Some(self.grid[x][y])
        } else {
            None
        }
    }

    /// The cell at the position `(x, y)` of the grid.
    pub(crate) fn at(&self, x: usize, y: usize) -> (cell: Cell)
        requires
            self.well_formed(),
            self@.in_bounds(x as int, y as int),
        ensures
            cell == self@.cell(x as int, y as int),
    {
        self.grid[x][y]
    }

    /// The position `(x + dx - 1, y + dy - 1)`, with `dx` and `dy` from 0 to
    /// 2, or none where that lies off the grid: the candidate is computed
    /// first and discarded if it leaves the grid, so that no coordinate
    /// ever wraps.
    pub(crate) fn neighbor(&self, x: usize, dx: usize, y: usize, dy: usize) -> (found: Option<
        (usize, usize),
    >)
        requires
            self.well_formed(),
            self@.in_bounds(x as int, y as int),
            dx <= 2,
            dy <= 2,
        ensures
            match found {
                Some(position) => {
                    &&& position.0 == x + dx - 1
                    &&& position.1 == y + dy - 1
                    &&& self@.in_bounds(position.0 as int, position.1 as int)
                },
                None => !self@.in_bounds(x + dx - 1, y + dy - 1),
            },
    {
        match shifted(x, dx, self.width) {
            Some(nx) => match shifted(y, dy, self.height) {
                Some(ny) => Some((nx, ny)),
                None => None,
            },
            None => None,
        }
    }

    /// Reveals the cell at `(x, y)`.
    pub(crate) fn mark_revealed(&mut self, x: usize, y: usize)
        requires
            old(self).well_formed(),
            old(self)@.in_bounds(x as int, y as int),
        ensures
            final(self).well_formed(),
            final(self)@ == old(self)@.with_revealed(x as int, y as int),
    {
        self.grid[x][y].revealed = true;
        proof {
            let target = old(self)@.with_revealed(x as int, y as int);
            assert forall|a: int| 0 <= a < self.width implies #[trigger] self@.cells[a]
                =~= target.cells[a] by {}
            assert(self@.cells =~= target.cells);
        }
    }

    /// Lays a mine at `(x, y)`.
    pub(crate) fn mark_mine(&mut self, x: usize, y: usize)
        requires
            old(self).well_formed(),
            old(self)@.in_bounds(x as int, y as int),
        ensures
            final(self).well_formed(),
            final(self)@ == old(self)@.with_mine(x as int, y as int),
    {
        self.grid[x][y].has_mine = true;
        proof {
            let target = old(self)@.with_mine(x as int, y as int);
            assert forall|a: int| 0 <= a < self.width implies #[trigger] self@.cells[a]
                =~= target.cells[a] by {}
            assert(self@.cells =~= target.cells);
        }
    }

    /// Stores `count` as the number of mines around `(x, y)`.
    pub(crate) fn mark_count(&mut self, x: usize, y: usize, count: u8)
        requires
            old(self).well_formed(),
            old(self)@.in_bounds(x as int, y as int),
        ensures
            final(self).well_formed(),
            final(self)@ == old(self)@.with_count(x as int, y as int, count),
    {
        self.grid[x][y].adjacent_mines = count;
        proof {
            let target = old(self)@.with_count(x as int, y as int, count);
            assert forall|a: int| 0 <= a < self.width implies #[trigger] self@.cells[a]
                =~= target.cells[a] by {}
            assert(self@.cells =~= target.cells);
        }
    }

    /// Records that the mines are laid.
    pub(crate) fn mark_mined(&mut self)
        requires
            old(self).well_formed(),
        ensures
            final(self).well_formed(),
            final(self)@ == (BoardView { mines_placed: true, ..old(self)@ }),
    {
        self.mines_placed = true;
    }

    /// Records that a mine was uncovered.
    pub(crate) fn mark_lost(&mut self)
        requires
            old(self).well_formed(),
        ensures
            final(self).well_formed(),
            final(self)@ == (BoardView { game_over: true, ..old(self)@ }),
    {
        self.game_over = true;
    }
}

} // verus!
