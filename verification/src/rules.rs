//! The moves of the game over the model, and why they keep a board in a
//! state between two moves.

use vstd::prelude::*;
use crate::flood::lemma_flooded_cells;
use crate::flood::lemma_flooded_nowhere;
use crate::flood::lemma_flooded_seams;
use crate::model::adjacent;
use crate::model::BoardView;
use crate::positions::Pos;
use crate::status::Outcome;
use crate::status::Phase;

verus! {

impl BoardView {
    /// What uncovering `(x, y)` comes to.
    pub open spec fn outcome_at(self, x: int, y: int) -> Outcome {
        if self.cell(x, y).revealed {
            Outcome::AlreadyRevealed
        } else if self.cell(x, y).has_mine {
            Outcome::HitMine
        } else {
            Outcome::Revealed
        }
    }

    /// The board after the mine at `(x, y)` was uncovered: that one cell is
    /// revealed and the game is over.
    pub open spec fn blown(self, x: int, y: int) -> BoardView {
        BoardView { game_over: true, ..self.with_revealed(x, y) }
    }

    /// The board after `(x, y)` was uncovered: unchanged if the cell was
    /// revealed before, lost if it holds a mine, flood-filled from the cell
    /// otherwise.
    pub open spec fn uncovered(self, x: int, y: int) -> BoardView {
        if !self.hidden(x, y) {
            self
        } else if self.cell(x, y).has_mine {
            self.blown(x, y)
        } else {
            self.flooded(x, y)
        }
    }

    /// Whether a move at `(x, y)` opens the game: no mines are laid yet, and
    /// the cell lies covered on the grid.
    pub open spec fn opens_at(self, x: int, y: int) -> bool {
        !self.mines_placed && self.hidden(x, y)
    }

    /// Where the game stands.
    pub open spec fn phase(self) -> Phase {
        if self.game_over {
            Phase::Lost
        } else if self.won() {
            Phase::Won
        } else if self.mines_placed {
            Phase::InPlay
        } else {
            Phase::MinesPending
        }
    }

    /// Whether `path` is a chain of cells on the grid, each next to the one
    /// before, in which every cell but the last has the count 0.
    pub open spec fn is_region_path(self, path: Seq<Pos>) -> bool {
        &&& path.len() > 0
        &&& forall|i: int| 0 <= i < path.len() ==> self.in_bounds((#[trigger] path[i]).0, path[i].1)
        &&& forall|i: int|
            0 <= i < path.len() - 1 ==> self.cell((#[trigger] path[i]).0, path[i].1).adjacent_mines
                == 0 && adjacent(path[i].0, path[i].1, path[i + 1].0, path[i + 1].1)
    }

    /// Whether `path` is such a chain from `(x, y)` to `(cx, cy)`.
    pub open spec fn region_path_between(self, path: Seq<Pos>, x: int, y: int, cx: int, cy: int) -> bool {
        &&& self.is_region_path(path)
        &&& path[0] == (x, y)
        &&& path[path.len() - 1] == (cx, cy)
    }

    /// Whether `(cx, cy)` belongs to the region of `(x, y)`: the cells with
    /// the count 0 that are connected to `(x, y)`, together with the cells
    /// that border on them. The region of a cell with another count is that
    /// cell alone.
    pub open spec fn in_region(self, x: int, y: int, cx: int, cy: int) -> bool {
        exists|path: Seq<Pos>| #[trigger] self.region_path_between(path, x, y, cx, cy)
    }
}

/// Where every count is valid, no cell next to a cell with the count 0
/// holds a mine.
pub proof fn lemma_zero_count_neighbors_safe(board: BoardView, x: int, y: int, nx: int, ny: int)
    requires
        board.counts_valid(),
        board.in_bounds(x, y),
        board.cell(x, y).adjacent_mines == 0,
        adjacent(x, y, nx, ny),
    ensures
        !board.mine(nx, ny),
{
    assert(board.neighbor_mines(x, y) == 0);
    assert(board.mine_unit(nx, ny) == 0) by {
        if nx == x - 1 {
            if ny == y - 1 {
                assert(board.mine_unit(x - 1, y - 1) == 0);
            } else if ny == y {
                assert(board.mine_unit(x - 1, y) == 0);
            } else {
                assert(board.mine_unit(x - 1, y + 1) == 0);
            }
        } else if nx == x {
            if ny == y - 1 {
                assert(board.mine_unit(x, y - 1) == 0);
            } else {
                assert(board.mine_unit(x, y + 1) == 0);
            }
        } else {
            if ny == y - 1 {
                assert(board.mine_unit(x + 1, y - 1) == 0);
            } else if ny == y {
                assert(board.mine_unit(x + 1, y) == 0);
            } else {
                assert(board.mine_unit(x + 1, y + 1) == 0);
            }
        }
    }
}

/// Along a chain that starts on a cell without a mine, no cell holds a mine.
proof fn lemma_region_path_safe(board: BoardView, path: Seq<Pos>, i: int)
    requires
        board.counts_valid(),
        board.is_region_path(path),
        !board.mine(path[0].0, path[0].1),
        0 <= i < path.len(),
    ensures
        !board.mine(path[i].0, path[i].1),
    decreases i,
{
    if i > 0 {
        lemma_region_path_safe(board, path, i - 1);
        let a = path[i - 1];
        let d = path[i];
        assert(board.in_bounds(a.0, a.1));
        assert(board.cell(a.0, a.1).adjacent_mines == 0);
        assert(adjacent(a.0, a.1, d.0, d.1));
        lemma_zero_count_neighbors_safe(board, a.0, a.1, d.0, d.1);
    }
}

/// A way of the flood fill is a chain of the region.
pub proof fn lemma_flood_path_in_region(board: BoardView, path: Seq<Pos>)
    requires
        board.is_flood_path(path),
    ensures
        board.is_region_path(path),
{
    assert forall|i: int| 0 <= i < path.len() implies board.in_bounds(
        (#[trigger] path[i]).0,
        path[i].1,
    ) by {
        assert(board.hidden(path[i].0, path[i].1));
    }
}

/// The flood fill never reveals a mine: on a board whose counts are valid,
/// a fill that starts on a cell without a mine reaches no mine.
pub proof fn lemma_flood_avoids_mines(board: BoardView, x: int, y: int, cx: int, cy: int)
    requires
        board.counts_valid(),
        !board.mine(x, y),
        board.flood_reaches(x, y, cx, cy),
    ensures
        !board.mine(cx, cy),
{
    let path = choose|path: Seq<Pos>| #[trigger] board.flood_path_between(path, x, y, cx, cy);
    lemma_flood_path_in_region(board, path);
    lemma_region_path_safe(board, path, path.len() - 1);
}

/// On a board between two moves, a chain from a covered cell without a
/// mine that ends on a covered cell runs over covered cells only.
pub proof fn lemma_region_path_covered(board: BoardView, path: Seq<Pos>, i: int)
    requires
        board.valid(),
        board.is_region_path(path),
        !board.mine(path[0].0, path[0].1),
        board.hidden(path[path.len() - 1].0, path[path.len() - 1].1),
        0 <= i < path.len(),
    ensures
        board.hidden(path[i].0, path[i].1),
    decreases path.len() - i,
{
    if i < path.len() - 1 {
        lemma_region_path_covered(board, path, i + 1);
        lemma_region_path_safe(board, path, i);
        let a = path[i];
        let d = path[i + 1];
        assert(board.in_bounds(a.0, a.1));
        assert(board.cell(a.0, a.1).adjacent_mines == 0);
        assert(adjacent(a.0, a.1, d.0, d.1));
        if board.cell(a.0, a.1).revealed {
            assert(board.shown(a.0, a.1));
            assert(board.cell(d.0, d.1).revealed);
        }
    }
}

/// A flood fill from a cell without a mine keeps a board in a state
/// between two moves.
pub proof fn lemma_flooded_valid(board: BoardView, x: int, y: int)
    requires
        board.valid(),
        !board.mine(x, y),
    ensures
        board.flooded(x, y).valid(),
{
    let after = board.flooded(x, y);
    if !board.hidden(x, y) {
        lemma_flooded_nowhere(board, x, y);
    } else {
        lemma_flooded_cells(board, x, y);
        assert forall|a: int, b: int| after.mine(a, b) == board.mine(a, b) by {
            if board.in_bounds(a, b) {
                assert(after.cell(a, b).has_mine == board.cell(a, b).has_mine);
            }
        }
        assert(after.mines() =~= board.mines());
        assert forall|a: int, b: int| after.in_bounds(a, b) implies (#[trigger] after.cell(
            a,
            b,
        )).adjacent_mines == after.neighbor_mines(a, b) by {
            assert(after.neighbor_mines(a, b) == board.neighbor_mines(a, b));
            assert(after.cell(a, b).adjacent_mines == board.cell(a, b).adjacent_mines);
        }
        assert forall|a: int, b: int, na: int, nb: int|
            #![trigger after.cell(a, b), after.cell(na, nb)]
            after.shown(a, b) && !after.cell(a, b).has_mine && after.cell(a, b).adjacent_mines
                == 0 && after.in_bounds(na, nb) && adjacent(a, b, na, nb) implies after.cell(
            na,
            nb,
        ).revealed by {
            if !after.cell(na, nb).revealed {
                assert(after.seam(a, b, na, nb));
                lemma_flooded_seams(board, x, y, a, b, na, nb);
                assert(board.cell(a, b).has_mine == after.cell(a, b).has_mine);
                assert(board.cell(a, b).adjacent_mines == after.cell(a, b).adjacent_mines);
                assert(board.cell(na, nb).revealed);
            }
        }
        assert forall|a: int, b: int| after.in_bounds(a, b) implies after.is_shown_mine(a, b)
            == board.is_shown_mine(a, b) by {
            assert(after.cell(a, b).has_mine == board.cell(a, b).has_mine);
            if after.cell(a, b).has_mine && !board.cell(a, b).revealed
                && after.cell(a, b).revealed {
                lemma_flood_avoids_mines(board, x, y, a, b);
            }
        }
        if board.mine_shown() {
            let (a, b) = choose|a: int, b: int| board.in_bounds(a, b) && board.is_shown_mine(a, b);
            assert(after.in_bounds(a, b) && after.is_shown_mine(a, b));
        }
        if after.mine_shown() {
            let (a, b) = choose|a: int, b: int| after.in_bounds(a, b) && after.is_shown_mine(a, b);
            assert(board.in_bounds(a, b) && board.is_shown_mine(a, b));
        }
    }
}

/// Uncovering a mine keeps a board in a state between two moves, with the
/// game over.
pub proof fn lemma_blown_valid(board: BoardView, x: int, y: int)
    requires
        board.valid(),
        board.hidden(x, y),
        board.mine(x, y),
    ensures
        board.blown(x, y).valid(),
        board.blown(x, y).game_over,
{
    let after = board.blown(x, y);
    assert forall|a: int| 0 <= a < after.width implies (#[trigger] after.cells[a]).len()
        == after.height by {}
    assert forall|a: int, b: int| board.in_bounds(a, b) implies (#[trigger] after.cell(a, b)).has_mine
        == board.cell(a, b).has_mine && after.cell(a, b).adjacent_mines == board.cell(
        a,
        b,
    ).adjacent_mines && after.cell(a, b).revealed == (board.cell(a, b).revealed || (a == x && b
        == y)) by {}
    assert forall|a: int, b: int| after.mine(a, b) == board.mine(a, b) by {
        if board.in_bounds(a, b) {
            assert(after.cell(a, b).has_mine == board.cell(a, b).has_mine);
        }
    }
    assert(after.mines() =~= board.mines());
    assert forall|a: int, b: int| after.in_bounds(a, b) implies (#[trigger] after.cell(
        a,
        b,
    )).adjacent_mines == after.neighbor_mines(a, b) by {
        assert(after.neighbor_mines(a, b) == board.neighbor_mines(a, b));
        assert(after.cell(a, b).adjacent_mines == board.cell(a, b).adjacent_mines);
    }
    assert forall|a: int, b: int, na: int, nb: int|
        #![trigger after.cell(a, b), after.cell(na, nb)]
        after.shown(a, b) && !after.cell(a, b).has_mine && after.cell(a, b).adjacent_mines == 0
            && after.in_bounds(na, nb) && adjacent(a, b, na, nb) implies after.cell(
        na,
        nb,
    ).revealed by {
        assert(board.cell(a, b).has_mine == after.cell(a, b).has_mine);
        assert(board.cell(a, b).revealed);
        assert(board.cell(na, nb).revealed);
    }
    assert(after.in_bounds(x, y) && after.is_shown_mine(x, y));
}

/// Uncovering a cell of the grid keeps a board in a state between two
/// moves.
pub proof fn lemma_uncovered_valid(board: BoardView, x: int, y: int)
    requires
        board.valid(),
    ensures
        board.uncovered(x, y).valid(),
{
    if board.hidden(x, y) {
        if board.cell(x, y).has_mine {
            lemma_blown_valid(board, x, y);
        } else {
            lemma_flooded_valid(board, x, y);
        }
    }
}

/// How far two coordinates lie apart.
spec fn gap(a: int, b: int) -> int {
    if a <= b {
        b - a
    } else {
        a - b
    }
}

/// On a board without mines, a revealed cell means that every cell is
/// revealed: the flood fill that revealed it met no count to stop at.
proof fn lemma_unmined_spreads(board: BoardView, ax: int, ay: int, tx: int, ty: int)
    requires
        board.valid(),
        !board.mines_placed,
        board.shown(ax, ay),
        board.in_bounds(tx, ty),
    ensures
        board.shown(tx, ty),
    decreases gap(ax, tx) + gap(ay, ty),
{
    if ax != tx || ay != ty {
        let nx = if ax < tx {
            ax + 1
        } else if ax > tx {
            ax - 1
        } else {
            ax
        };
        let ny = if ay < ty {
            ay + 1
        } else if ay > ty {
            ay - 1
        } else {
            ay
        };
        assert forall|x: int, y: int| !board.mine(x, y) by {
            assert(!board.mines().contains((x, y)));
        }
        assert(board.neighbor_mines(ax, ay) == 0);
        assert(board.cell(ax, ay).adjacent_mines == 0);
        assert(!board.cell(ax, ay).has_mine) by {
            assert(!board.mine(ax, ay));
        }
        assert(adjacent(ax, ay, nx, ny));
        assert(board.in_bounds(nx, ny));
        assert(board.cell(nx, ny).revealed);
        lemma_unmined_spreads(board, nx, ny, tx, ty);
    }
}

/// Before the mines are laid, a covered cell means that no cell has been
/// revealed.
pub proof fn lemma_pending_untouched(board: BoardView, x: int, y: int)
    requires
        board.valid(),
        !board.mines_placed,
        board.hidden(x, y),
    ensures
        board.untouched(),
{
    assert forall|a: int, b: int| board.in_bounds(a, b) implies !(#[trigger] board.cell(
        a,
        b,
    )).revealed by {
        if board.cell(a, b).revealed {
            lemma_unmined_spreads(board, a, b, x, y);
        }
    }
}

} // verus!
