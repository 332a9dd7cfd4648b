//! The mathematical model of a board, over which every contract is stated.

use vstd::prelude::*;
use crate::cell::Cell;
use crate::positions::Pos;

verus! {

/// A board as a mathematical value: its dimensions, its cells by column and
/// row, and the two flags of the game's life cycle.
pub struct BoardView {
    /// The number of columns.
    pub width: nat,
    /// The number of rows.
    pub height: nat,
    /// The number of mines that the board is configured for.
    pub mine_count: nat,
    /// The cells: `cells[x][y]` is the cell in column `x` and row `y`.
    pub cells: Seq<Seq<Cell>>,
    /// Whether the mines have been laid.
    pub mines_placed: bool,
    /// Whether a mined cell has been uncovered.
    pub game_over: bool,
}

/// Whether two positions share an edge or a corner.
pub open spec fn adjacent(x1: int, y1: int, x2: int, y2: int) -> bool {
    &&& x1 - 1 <= x2 <= x1 + 1
    &&& y1 - 1 <= y2 <= y1 + 1
    &&& !(x1 == x2 && y1 == y2)
}

impl BoardView {
    /// The board before the first move: `width` columns of `height` covered
    /// cells, no mine laid, no count set.
    pub open spec fn fresh(width: nat, height: nat, mine_count: nat) -> BoardView {
        BoardView {
            width,
            height,
            mine_count,
            cells: Seq::new(width, |x: int| Seq::new(height, |y: int| Cell::blank())),
            mines_placed: false,
            game_over: false,
        }
    }

    /// The cells form a grid of `width` columns of `height` cells each.
    pub open spec fn shaped(self) -> bool {
        &&& self.cells.len() == self.width
        &&& forall|x: int| 0 <= x < self.width ==> (#[trigger] self.cells[x]).len() == self.height
    }

    /// Whether `(x, y)` lies on the grid.
    pub open spec fn in_bounds(self, x: int, y: int) -> bool {
        0 <= x < self.width && 0 <= y < self.height
    }

    /// The cell at `(x, y)`.
    pub open spec fn cell(self, x: int, y: int) -> Cell
        recommends
            self.in_bounds(x, y),
    {
        self.cells[x][y]
    }

    /// Whether `(x, y)` lies on the grid and holds a mine.
    pub open spec fn mine(self, x: int, y: int) -> bool {
        self.in_bounds(x, y) && self.cell(x, y).has_mine
    }

    /// Whether `(x, y)` lies on the grid and is revealed.
    pub open spec fn shown(self, x: int, y: int) -> bool {
        self.in_bounds(x, y) && self.cell(x, y).revealed
    }

    /// Whether `(x, y)` lies on the grid and is still covered.
    pub open spec fn hidden(self, x: int, y: int) -> bool {
        self.in_bounds(x, y) && !self.cell(x, y).revealed
    }

    /// 1 if `(x, y)` lies on the grid and holds a mine, 0 otherwise.
    pub open spec fn mine_unit(self, x: int, y: int) -> int {
        if self.mine(x, y) {
            1
        } else {
            0
        }
    }

    /// The number of mines on the up to eight neighbours of `(x, y)`;
    /// positions off the grid count for nothing.
    pub open spec fn neighbor_mines(self, x: int, y: int) -> int {
        self.mine_unit(x - 1, y - 1) + self.mine_unit(x - 1, y) + self.mine_unit(x - 1, y + 1)
            + self.mine_unit(x, y - 1) + self.mine_unit(x, y + 1) + self.mine_unit(x + 1, y - 1)
            + self.mine_unit(x + 1, y) + self.mine_unit(x + 1, y + 1)
    }

    /// The mined positions among the up to eight neighbours of `(x, y)`.
    pub open spec fn mined_neighbors(self, x: int, y: int) -> Set<Pos> {
        Set::new(|p: Pos| self.mine(p.0, p.1) && adjacent(x, y, p.0, p.1))
    }

    /// Every cell's stored count is the number of mines around it.
    pub open spec fn counts_valid(self) -> bool {
        forall|x: int, y: int|
            self.in_bounds(x, y) ==> (#[trigger] self.cell(x, y)).adjacent_mines
                == self.neighbor_mines(x, y)
    }

    /// This board with the cell at `(x, y)` replaced by `cell`.
    pub open spec fn with_cell(self, x: int, y: int, cell: Cell) -> BoardView
        recommends
            self.in_bounds(x, y),
    {
        BoardView { cells: self.cells.update(x, self.cells[x].update(y, cell)), ..self }
    }

    /// This board with the cell at `(x, y)` revealed.
    pub open spec fn with_revealed(self, x: int, y: int) -> BoardView
        recommends
            self.in_bounds(x, y),
    {
        self.with_cell(x, y, Cell { revealed: true, ..self.cell(x, y) })
    }

    /// This board with `count` stored as the number of mines around
    /// `(x, y)`.
    pub open spec fn with_count(self, x: int, y: int, count: u8) -> BoardView
        recommends
            self.in_bounds(x, y),
    {
        self.with_cell(x, y, Cell { adjacent_mines: count, ..self.cell(x, y) })
    }

    /// This board with a mine at `(x, y)`.
    pub open spec fn with_mine(self, x: int, y: int) -> BoardView
        recommends
            self.in_bounds(x, y),
    {
        self.with_cell(x, y, Cell { has_mine: true, ..self.cell(x, y) })
    }

    /// Whether `other` has the dimensions and the number of mines of this
    /// board.
    pub open spec fn same_size(self, other: BoardView) -> bool {
        &&& self.width == other.width
        &&& self.height == other.height
        &&& self.mine_count == other.mine_count
    }

    /// Whether `other` has the shape, the dimensions, the configuration and
    /// the flags of this board.
    pub open spec fn same_stage(self, other: BoardView) -> bool {
        &&& self.shaped()
        &&& other.shaped()
        &&& self.same_size(other)
        &&& self.mines_placed == other.mines_placed
        &&& self.game_over == other.game_over
    }

    /// Whether `other` has the dimensions, the configuration and the flags
    /// of this board, and in every cell the same mine and the same count.
    pub open spec fn same_ground(self, other: BoardView) -> bool {
        &&& self.same_stage(other)
        &&& forall|x: int, y: int|
            #![trigger self.cell(x, y)]
            #![trigger other.cell(x, y)]
            self.in_bounds(x, y) ==> self.cell(x, y).has_mine == other.cell(x, y).has_mine
                && self.cell(x, y).adjacent_mines == other.cell(x, y).adjacent_mines
    }

    /// Whether this board is `earlier` with some more cells revealed and
    /// nothing else changed.
    pub open spec fn grown_from(self, earlier: BoardView) -> bool {
        &&& self.same_ground(earlier)
        &&& forall|x: int, y: int|
            #![trigger self.cell(x, y)]
            #![trigger earlier.cell(x, y)]
            self.in_bounds(x, y) && earlier.cell(x, y).revealed ==> self.cell(x, y).revealed
    }

    /// This board with every cell's count set to the number of mines
    /// around the cell.
    pub open spec fn counted(self) -> BoardView {
        BoardView {
            cells: Seq::new(
                self.width,
                |x: int|
                    Seq::new(
                        self.height,
                        |y: int|
                            Cell {
                                adjacent_mines: self.neighbor_mines(x, y) as u8,
                                ..self.cell(x, y)
                            },
                    ),
            ),
            ..self
        }
    }

    /// The positions that hold a mine.
    pub open spec fn mines(self) -> Set<Pos> {
        Set::new(|p: Pos| self.mine(p.0, p.1))
    }

    /// The positions that are still covered.
    pub open spec fn covered(self) -> Set<Pos> {
        Set::new(|p: Pos| self.hidden(p.0, p.1))
    }

    /// The positions without a mine that are revealed.
    pub open spec fn safe_shown(self) -> Set<Pos> {
        Set::new(|p: Pos| self.shown(p.0, p.1) && !self.cell(p.0, p.1).has_mine)
    }

    /// No cell has been revealed yet.
    pub open spec fn untouched(self) -> bool {
        forall|x: int, y: int| self.in_bounds(x, y) ==> !(#[trigger] self.cell(x, y)).revealed
    }

    /// Around every revealed cell that holds no mine and has the count 0,
    /// all neighbours are revealed too.
    pub open spec fn settled(self) -> bool {
        forall|x: int, y: int, nx: int, ny: int|
            #![trigger self.cell(x, y), self.cell(nx, ny)]
            self.shown(x, y) && !self.cell(x, y).has_mine && self.cell(x, y).adjacent_mines == 0
                && self.in_bounds(nx, ny) && adjacent(x, y, nx, ny) ==> self.cell(nx, ny).revealed
    }

    /// Whether some mine lies uncovered.
    pub open spec fn mine_shown(self) -> bool {
        exists|x: int, y: int| self.in_bounds(x, y) && self.is_shown_mine(x, y)
    }

    /// Whether the cell at `(x, y)` is a revealed mine.
    pub open spec fn is_shown_mine(self, x: int, y: int) -> bool {
        self.cell(x, y).has_mine && self.cell(x, y).revealed
    }

    /// The player has won: every cell without a mine is revealed.
    pub open spec fn won(self) -> bool {
        forall|x: int, y: int|
            self.in_bounds(x, y) && !(#[trigger] self.cell(x, y)).has_mine ==> self.cell(
                x,
                y,
            ).revealed
    }

    /// The state of a board between two moves of a game.
    ///
    /// The grid has its shape and more cells than mines; every count is the
    /// number of mines around its cell; no mine lies on the board before the
    /// mines are laid and exactly `mine_count` afterwards; the revealed area
    /// is closed under the flood fill; and the game is over exactly when a
    /// mine lies uncovered.
    pub open spec fn valid(self) -> bool {
        &&& self.shaped()
        &&& self.mine_count < self.width * self.height
        &&& self.counts_valid()
        &&& self.mines_placed ==> self.mines().len() == self.mine_count
        &&& !self.mines_placed ==> self.mines() =~= Set::<Pos>::empty()
        &&& self.settled()
        &&& self.game_over <==> self.mine_shown()
    }
}

/// Counting the mines around every cell makes every count valid and
/// changes nothing but the counts.
pub proof fn lemma_counted(board: BoardView)
    requires
        board.shaped(),
    ensures
        board.counted().shaped(),
        board.counted().counts_valid(),
        board.counted().mines() == board.mines(),
        forall|x: int, y: int|
            #![trigger board.counted().cell(x, y)]
            board.in_bounds(x, y) ==> board.counted().cell(x, y).has_mine == board.cell(
                x,
                y,
            ).has_mine && board.counted().cell(x, y).revealed == board.cell(x, y).revealed,
{
    let after = board.counted();
    assert forall|x: int| 0 <= x < after.width implies (#[trigger] after.cells[x]).len()
        == after.height by {}
    assert forall|x: int, y: int| after.mine(x, y) == board.mine(x, y) by {
        if board.in_bounds(x, y) {
            assert(after.cells[x].len() == board.height);
            assert(after.cell(x, y).has_mine == board.cell(x, y).has_mine);
        }
    }
    assert forall|x: int, y: int| after.in_bounds(x, y) implies (#[trigger] after.cell(
        x,
        y,
    )).adjacent_mines == after.neighbor_mines(x, y) by {
        assert(after.neighbor_mines(x, y) == board.neighbor_mines(x, y));
        assert(after.cell(x, y).adjacent_mines == board.neighbor_mines(x, y) as u8);
    }
    assert(after.mines() =~= board.mines());
}

/// Counting the mines again where every count is valid changes nothing.
pub proof fn lemma_counted_again(board: BoardView)
    requires
        board.shaped(),
        board.counts_valid(),
    ensures
        board.counted() == board,
{
    let after = board.counted();
    assert forall|x: int| 0 <= x < board.width implies #[trigger] after.cells[x]
        =~= board.cells[x] by {
        assert forall|y: int| 0 <= y < board.height implies after.cells[x][y]
            == board.cells[x][y] by {
            assert(board.cell(x, y).adjacent_mines == board.neighbor_mines(x, y));
        }
    }
    assert(after.cells =~= board.cells);
}

/// The set `s` together with `p` if `p` holds a mine on `board`.
spec fn with_if_mined(board: BoardView, s: Set<Pos>, p: Pos) -> Set<Pos> {
    if board.mine(p.0, p.1) {
        s.insert(p)
    } else {
        s
    }
}

/// The number of mines around a position is the number of its mined
/// neighbours on the grid.
pub proof fn lemma_neighbor_mines_count(board: BoardView, x: int, y: int)
    ensures
        board.mined_neighbors(x, y).finite(),
        board.mined_neighbors(x, y).len() == board.neighbor_mines(x, y),
        0 <= board.neighbor_mines(x, y) <= 8,
{
    let s0 = Set::<Pos>::empty();
    let s1 = with_if_mined(board, s0, (x - 1, y - 1));
    let s2 = with_if_mined(board, s1, (x - 1, y));
    let s3 = with_if_mined(board, s2, (x - 1, y + 1));
    let s4 = with_if_mined(board, s3, (x, y - 1));
    let s5 = with_if_mined(board, s4, (x, y + 1));
    let s6 = with_if_mined(board, s5, (x + 1, y - 1));
    let s7 = with_if_mined(board, s6, (x + 1, y));
    let s8 = with_if_mined(board, s7, (x + 1, y + 1));
    assert(s1.finite() && s1.len() == board.mine_unit(x - 1, y - 1));
    assert(s2.finite() && s2.len() == s1.len() + board.mine_unit(x - 1, y));
    assert(s3.finite() && s3.len() == s2.len() + board.mine_unit(x - 1, y + 1));
    assert(s4.finite() && s4.len() == s3.len() + board.mine_unit(x, y - 1));
    assert(s5.finite() && s5.len() == s4.len() + board.mine_unit(x, y + 1));
    assert(s6.finite() && s6.len() == s5.len() + board.mine_unit(x + 1, y - 1));
    assert(s7.finite() && s7.len() == s6.len() + board.mine_unit(x + 1, y));
    assert(s8.finite() && s8.len() == s7.len() + board.mine_unit(x + 1, y + 1));
    assert(s8 =~= board.mined_neighbors(x, y));
}

} // verus!
