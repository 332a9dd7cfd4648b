//! The flood fill as a mathematical relation, and what follows from it.

use vstd::prelude::*;
use vstd::set_lib::lemma_len_subset;
use crate::cell::Cell;
use crate::model::adjacent;
use crate::model::BoardView;
use crate::positions::all_positions;
use crate::positions::lemma_positions_bounded;
use crate::positions::Pos;

verus! {

impl BoardView {
    /// Whether `path` is a way that the flood fill can take: a chain of
    /// covered cells on the grid, each next to the one before, in which
    /// every cell but the last has the count 0.
    pub open spec fn is_flood_path(self, path: Seq<Pos>) -> bool {
        &&& path.len() > 0
        &&& forall|i: int| 0 <= i < path.len() ==> self.hidden((#[trigger] path[i]).0, path[i].1)
        &&& forall|i: int|
            0 <= i < path.len() - 1 ==> self.cell((#[trigger] path[i]).0, path[i].1).adjacent_mines
                == 0 && adjacent(path[i].0, path[i].1, path[i + 1].0, path[i + 1].1)
    }

    /// Whether `path` is a way of the flood fill from `(x, y)` to
    /// `(cx, cy)`.
    pub open spec fn flood_path_between(self, path: Seq<Pos>, x: int, y: int, cx: int, cy: int) -> bool {
        &&& self.is_flood_path(path)
        &&& path[0] == (x, y)
        &&& path[path.len() - 1] == (cx, cy)
    }

    /// Whether a flood fill that starts at `(x, y)` reveals `(cx, cy)`.
    pub open spec fn flood_reaches(self, x: int, y: int, cx: int, cy: int) -> bool {
        exists|path: Seq<Pos>| #[trigger] self.flood_path_between(path, x, y, cx, cy)
    }

    /// The board after a flood fill from `(x, y)`: every cell that the fill
    /// reaches is revealed, and nothing else changes.
    pub open spec fn flooded(self, x: int, y: int) -> BoardView {
        BoardView {
            cells: Seq::new(
                self.width,
                |a: int|
                    Seq::new(
                        self.height,
                        |b: int|
                            if self.flood_reaches(x, y, a, b) {
                                Cell { revealed: true, ..self.cell(a, b) }
                            } else {
                                self.cell(a, b)
                            },
                    ),
            ),
            ..self
        }
    }

    /// Whether the revealed cell at `(x, y)` has the count 0 while its
    /// neighbour `(nx, ny)` is still covered: a place where a flood fill has
    /// yet to go on.
    pub open spec fn seam(self, x: int, y: int, nx: int, ny: int) -> bool {
        &&& self.shown(x, y)
        &&& self.cell(x, y).adjacent_mines == 0
        &&& adjacent(x, y, nx, ny)
        &&& self.hidden(nx, ny)
    }

    /// The state of a flood fill from the covered cell `(x, y)` of `start`
    /// that is under way: this board is `start` with `(x, y)` and some more
    /// cells revealed, each of which the fill reaches, and it has no seam
    /// that `start` did not have, but for those at `(x, y)` itself.
    pub open spec fn flooding_from(self, start: BoardView, x: int, y: int) -> bool {
        &&& start.hidden(x, y)
        &&& self.grown_from(start)
        &&& self.shown(x, y)
        &&& forall|cx: int, cy: int|
            #![trigger self.cell(cx, cy)]
            self.shown(cx, cy) && start.hidden(cx, cy) ==> start.flood_reaches(x, y, cx, cy)
        &&& forall|ax: int, ay: int, nx: int, ny: int| #[trigger]
            self.seam(ax, ay, nx, ny) ==> start.shown(ax, ay) || (ax == x && ay == y)
    }
}

/// A covered cell is reached by the flood fill that starts on it.
pub proof fn lemma_flood_reaches_start(board: BoardView, x: int, y: int)
    requires
        board.hidden(x, y),
    ensures
        board.flood_reaches(x, y, x, y),
{
    let path = seq![(x, y)];
    assert(board.flood_path_between(path, x, y, x, y));
}

/// The flood fill goes on from a reached cell with the count 0 to each of
/// its covered neighbours.
pub proof fn lemma_flood_reaches_next(board: BoardView, x: int, y: int, cx: int, cy: int, nx: int, ny: int)
    requires
        board.flood_reaches(x, y, cx, cy),
        board.cell(cx, cy).adjacent_mines == 0,
        adjacent(cx, cy, nx, ny),
        board.hidden(nx, ny),
    ensures
        board.flood_reaches(x, y, nx, ny),
{
    let path = choose|path: Seq<Pos>| #[trigger] board.flood_path_between(path, x, y, cx, cy);
    let longer = path.push((nx, ny));
    assert forall|i: int| 0 <= i < longer.len() implies board.hidden(
        (#[trigger] longer[i]).0,
        longer[i].1,
    ) by {
        if i < path.len() {
            assert(longer[i] == path[i]);
        }
    }
    assert forall|i: int| 0 <= i < longer.len() - 1 implies board.cell(
        (#[trigger] longer[i]).0,
        longer[i].1,
    ).adjacent_mines == 0 && adjacent(longer[i].0, longer[i].1, longer[i + 1].0, longer[i + 1].1) by {
        assert(longer[i] == path[i]);
        if i < path.len() - 1 {
            assert(longer[i + 1] == path[i + 1]);
        }
    }
    assert(board.flood_path_between(longer, x, y, nx, ny));
}

/// A flood fill from a covered cell with the count 0 reaches what a flood
/// fill from one of its neighbours reaches.
pub proof fn lemma_flood_reaches_through(board: BoardView, x: int, y: int, nx: int, ny: int, cx: int, cy: int)
    requires
        board.hidden(x, y),
        board.cell(x, y).adjacent_mines == 0,
        adjacent(x, y, nx, ny),
        board.flood_reaches(nx, ny, cx, cy),
    ensures
        board.flood_reaches(x, y, cx, cy),
{
    let path = choose|path: Seq<Pos>| #[trigger] board.flood_path_between(path, nx, ny, cx, cy);
    let longer = seq![(x, y)] + path;
    assert forall|i: int| 0 <= i < longer.len() implies board.hidden(
        (#[trigger] longer[i]).0,
        longer[i].1,
    ) by {
        if i > 0 {
            assert(longer[i] == path[i - 1]);
        }
    }
    assert forall|i: int| 0 <= i < longer.len() - 1 implies board.cell(
        (#[trigger] longer[i]).0,
        longer[i].1,
    ).adjacent_mines == 0 && adjacent(longer[i].0, longer[i].1, longer[i + 1].0, longer[i + 1].1) by {
        assert(longer[i + 1] == path[i]);
        if i > 0 {
            assert(longer[i] == path[i - 1]);
        }
    }
    assert(board.flood_path_between(longer, x, y, cx, cy));
}

/// What a flood fill reaches on a board, it reaches on every earlier board
/// from which that board has grown.
pub proof fn lemma_flood_reaches_earlier(later: BoardView, earlier: BoardView, x: int, y: int, cx: int, cy: int)
    requires
        later.grown_from(earlier),
        later.flood_reaches(x, y, cx, cy),
    ensures
        earlier.flood_reaches(x, y, cx, cy),
{
    let path = choose|path: Seq<Pos>| #[trigger] later.flood_path_between(path, x, y, cx, cy);
    assert forall|i: int| 0 <= i < path.len() implies earlier.hidden(
        (#[trigger] path[i]).0,
        path[i].1,
    ) by {
        assert(later.hidden(path[i].0, path[i].1));
        assert(!later.cell(path[i].0, path[i].1).revealed);
    }
    assert forall|i: int| 0 <= i < path.len() - 1 implies earlier.cell(
        (#[trigger] path[i]).0,
        path[i].1,
    ).adjacent_mines == 0 && adjacent(path[i].0, path[i].1, path[i + 1].0, path[i + 1].1) by {
        assert(later.hidden(path[i].0, path[i].1));
        assert(later.cell(path[i].0, path[i].1).adjacent_mines == 0);
    }
    assert(earlier.flood_path_between(path, x, y, cx, cy));
}

/// What a flood fill does to each cell: it reveals the cells that it
/// reaches and leaves every other cell as it was.
pub proof fn lemma_flooded_cells(board: BoardView, x: int, y: int)
    requires
        board.shaped(),
    ensures
        board.flooded(x, y).grown_from(board),
        forall|cx: int, cy: int|
            #![trigger board.flooded(x, y).cell(cx, cy)]
            board.in_bounds(cx, cy) ==> board.flooded(x, y).cell(cx, cy).revealed == (board.cell(
                cx,
                cy,
            ).revealed || board.flood_reaches(x, y, cx, cy)),
{
    let after = board.flooded(x, y);
    assert forall|cx: int, cy: int| board.in_bounds(cx, cy) implies (#[trigger] after.cell(
        cx,
        cy,
    )).has_mine == board.cell(cx, cy).has_mine && after.cell(cx, cy).adjacent_mines == board.cell(
        cx,
        cy,
    ).adjacent_mines && after.cell(cx, cy).revealed == (board.cell(cx, cy).revealed
        || board.flood_reaches(x, y, cx, cy)) by {
        assert(after.cells[cx].len() == board.height);
    }
    assert forall|cx: int| 0 <= cx < after.width implies (#[trigger] after.cells[cx]).len()
        == after.height by {}
}

/// A flood fill that starts off the grid or on a revealed cell changes
/// nothing.
pub proof fn lemma_flooded_nowhere(board: BoardView, x: int, y: int)
    requires
        board.shaped(),
        !board.hidden(x, y),
    ensures
        board.flooded(x, y) == board,
{
    let after = board.flooded(x, y);
    assert forall|cx: int, cy: int| !board.flood_reaches(x, y, cx, cy) by {
        if board.flood_reaches(x, y, cx, cy) {
            let path = choose|path: Seq<Pos>| #[trigger]
                board.flood_path_between(path, x, y, cx, cy);
            assert(board.hidden(path[0].0, path[0].1));
        }
    }
    assert forall|cx: int| 0 <= cx < board.width implies #[trigger] after.cells[cx]
        =~= board.cells[cx] by {}
    assert(after.cells =~= board.cells);
}

/// A board that has grown from another while one of that board's covered
/// cells was revealed has fewer covered cells.
pub proof fn lemma_covered_fewer(later: BoardView, earlier: BoardView, x: int, y: int)
    requires
        later.grown_from(earlier),
        earlier.hidden(x, y),
        later.shown(x, y),
    ensures
        earlier.covered().finite(),
        later.covered().len() < earlier.covered().len(),
{
    let grid = all_positions(earlier.width, earlier.height);
    assert(earlier.covered().subset_of(grid));
    lemma_positions_bounded(earlier.covered(), earlier.width, earlier.height);
    let rest = earlier.covered().remove((x, y));
    assert(earlier.covered().contains((x, y)));
    assert forall|p: Pos| later.covered().contains(p) implies rest.contains(p) by {
        assert(later.hidden(p.0, p.1));
        assert(!later.cell(p.0, p.1).revealed);
    }
    assert(later.covered().subset_of(rest));
    lemma_len_subset(later.covered(), rest);
}

/// Revealing a covered cell begins the flood fill from it.
pub proof fn lemma_flooding_begins(start: BoardView, x: int, y: int)
    requires
        start.shaped(),
        start.hidden(x, y),
    ensures
        start.with_revealed(x, y).flooding_from(start, x, y),
{
    let first = start.with_revealed(x, y);
    assert forall|cx: int| 0 <= cx < first.width implies (#[trigger] first.cells[cx]).len()
        == first.height by {}
    assert forall|cx: int, cy: int| start.in_bounds(cx, cy) implies (#[trigger] first.cell(
        cx,
        cy,
    )) == (if cx == x && cy == y {
        Cell { revealed: true, ..start.cell(x, y) }
    } else {
        start.cell(cx, cy)
    }) by {}
    lemma_flood_reaches_start(start, x, y);
    assert forall|ax: int, ay: int, nx: int, ny: int| #[trigger]
        first.seam(ax, ay, nx, ny) implies start.shown(ax, ay) || (ax == x && ay == y) by {
        assert(first.cell(ax, ay).revealed);
    }
}

/// A flood fill leaves no seam that was not there before.
pub proof fn lemma_flooded_seams(board: BoardView, x: int, y: int, ax: int, ay: int, nx: int, ny: int)
    requires
        board.shaped(),
        board.flooded(x, y).seam(ax, ay, nx, ny),
    ensures
        board.shown(ax, ay),
{
    let after = board.flooded(x, y);
    lemma_flooded_cells(board, x, y);
    assert(after.cell(ax, ay).revealed);
    assert(!after.cell(nx, ny).revealed);
    if !board.cell(ax, ay).revealed {
        assert(board.flood_reaches(x, y, ax, ay));
        assert(board.cell(ax, ay).adjacent_mines == 0);
        lemma_flood_reaches_next(board, x, y, ax, ay, nx, ny);
    }
}

/// One step of a flood fill under way from `(x, y)`: flooding from the
/// neighbour `(nx, ny)` keeps the fill under way and leaves that neighbour
/// revealed.
pub proof fn lemma_flooding_goes_on(start: BoardView, mid: BoardView, x: int, y: int, nx: int, ny: int)
    requires
        mid.flooding_from(start, x, y),
        start.cell(x, y).adjacent_mines == 0,
        adjacent(x, y, nx, ny),
    ensures
        mid.flooded(nx, ny).grown_from(mid),
        mid.flooded(nx, ny).flooding_from(start, x, y),
        mid.in_bounds(nx, ny) ==> mid.flooded(nx, ny).shown(nx, ny),
{
    let after = mid.flooded(nx, ny);
    lemma_flooded_cells(mid, nx, ny);
    assert(after.grown_from(start)) by {
        assert forall|cx: int, cy: int|
            #![trigger after.cell(cx, cy)]
            #![trigger start.cell(cx, cy)]
            after.in_bounds(cx, cy) implies after.cell(cx, cy).has_mine == start.cell(
            cx,
            cy,
        ).has_mine && after.cell(cx, cy).adjacent_mines == start.cell(cx, cy).adjacent_mines && (
        start.cell(cx, cy).revealed ==> after.cell(cx, cy).revealed) by {
            assert(mid.cell(cx, cy).has_mine == start.cell(cx, cy).has_mine);
            assert(after.cell(cx, cy).has_mine == mid.cell(cx, cy).has_mine);
        }
    }
    assert(after.shown(x, y)) by {
        assert(mid.cell(x, y).revealed);
        assert(after.cell(x, y).revealed);
    }
    assert forall|cx: int, cy: int|
        #![trigger after.cell(cx, cy)]
        after.shown(cx, cy) && start.hidden(cx, cy) implies start.flood_reaches(x, y, cx, cy) by {
        if !mid.cell(cx, cy).revealed {
            assert(mid.flood_reaches(nx, ny, cx, cy));
            lemma_flood_reaches_earlier(mid, start, nx, ny, cx, cy);
            lemma_flood_reaches_through(start, x, y, nx, ny, cx, cy);
        }
    }
    assert forall|ax: int, ay: int, tx: int, ty: int| #[trigger]
        after.seam(ax, ay, tx, ty) implies start.shown(ax, ay) || (ax == x && ay == y) by {
        lemma_flooded_seams(mid, nx, ny, ax, ay, tx, ty);
        assert(!after.cell(tx, ty).revealed);
        assert(!mid.cell(tx, ty).revealed);
        assert(after.cell(ax, ay).adjacent_mines == mid.cell(ax, ay).adjacent_mines);
        assert(mid.seam(ax, ay, tx, ty));
    }
    if mid.in_bounds(nx, ny) {
        if !mid.cell(nx, ny).revealed {
            lemma_flood_reaches_start(mid, nx, ny);
        }
        assert(after.cell(nx, ny).revealed);
    }
}

/// Along a way of a finished flood fill every cell is revealed.
proof fn lemma_flood_path_revealed(start: BoardView, done: BoardView, x: int, y: int, path: Seq<Pos>, i: int)
    requires
        done.flooding_from(start, x, y),
        forall|nx: int, ny: int| !done.seam(x, y, nx, ny),
        start.is_flood_path(path),
        path[0] == (x, y),
        0 <= i < path.len(),
    ensures
        done.shown(path[i].0, path[i].1),
    decreases i,
{
    if i > 0 {
        lemma_flood_path_revealed(start, done, x, y, path, i - 1);
        let a = path[i - 1];
        let d = path[i];
        assert(start.hidden(a.0, a.1));
        assert(start.hidden(d.0, d.1));
        assert(start.cell(a.0, a.1).adjacent_mines == 0);
        assert(adjacent(a.0, a.1, d.0, d.1));
        assert(done.cell(a.0, a.1).adjacent_mines == 0);
        if !done.cell(d.0, d.1).revealed {
            assert(done.seam(a.0, a.1, d.0, d.1));
        }
    }
}

/// A flood fill under way from `(x, y)` that has left no seam at `(x, y)`
/// is finished: the board is the flooded board.
pub proof fn lemma_flooding_ends(start: BoardView, done: BoardView, x: int, y: int)
    requires
        done.flooding_from(start, x, y),
        forall|nx: int, ny: int| !done.seam(x, y, nx, ny),
    ensures
        done == start.flooded(x, y),
{
    let after = start.flooded(x, y);
    lemma_flooded_cells(start, x, y);
    assert forall|cx: int, cy: int| start.in_bounds(cx, cy) implies #[trigger] done.cell(cx, cy)
        == after.cell(cx, cy) by {
        assert(done.cell(cx, cy).has_mine == start.cell(cx, cy).has_mine);
        assert(after.cell(cx, cy).has_mine == start.cell(cx, cy).has_mine);
        if start.flood_reaches(x, y, cx, cy) {
            let path = choose|path: Seq<Pos>| #[trigger]
                start.flood_path_between(path, x, y, cx, cy);
            lemma_flood_path_revealed(start, done, x, y, path, path.len() - 1);
        }
    }
    assert forall|cx: int| 0 <= cx < start.width implies #[trigger] done.cells[cx]
        =~= after.cells[cx] by {
        assert forall|cy: int| 0 <= cy < start.height implies done.cells[cx][cy]
            == after.cells[cx][cy] by {
            assert(done.cell(cx, cy) == after.cell(cx, cy));
        }
    }
    assert(done.cells =~= after.cells);
}

} // verus!
