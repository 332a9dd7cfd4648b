//! The laws of the game, proved over the model.
//!
//! Each law speaks of the spec functions in which the contracts of the
//! moves are stated, so that what is proved here holds of every board that
//! the executable functions return.

use vstd::prelude::*;
use vstd::set_lib::*;
use crate::flood::lemma_flood_reaches_start;
use crate::flood::lemma_flooded_cells;
use crate::layout::lemma_laid;
use crate::layout::lemma_play_starts;
use crate::model::lemma_counted;
use crate::model::lemma_neighbor_mines_count;
use crate::model::BoardView;
use crate::positions::all_positions;
use crate::positions::lemma_all_positions;
use crate::positions::lemma_positions_bounded;
use crate::positions::Pos;
use crate::rules::lemma_flood_avoids_mines;
use crate::rules::lemma_flood_path_in_region;
use crate::rules::lemma_region_path_covered;
use crate::status::Outcome;

verus! {

/// Whatever ranks are drawn, as long as they fit, laying the mines on an
/// untouched board on which none lie gives a board on which play can start:
/// it holds exactly `mine_count` mines, none of them on the position that
/// stays free, every count is valid, and no cell is revealed.
pub proof fn lemma_mines_laid(board: BoardView, ex: int, ey: int, ranks: Seq<usize>)
    requires
        board.valid(),
        !board.mines_placed,
        board.untouched(),
        board.in_bounds(ex, ey),
        board.ranks_fit(ranks),
    ensures
        board.mined(ex, ey, ranks).valid(),
        board.mined(ex, ey, ranks).mines_placed,
        board.mined(ex, ey, ranks).same_size(board),
        board.mined(ex, ey, ranks).mines().len() == board.mine_count,
        !board.mined(ex, ey, ranks).mine(ex, ey),
        board.mined(ex, ey, ranks).untouched(),
        board.mined(ex, ey, ranks).counts_valid(),
{
    assert(!board.mine(ex, ey)) by {
        assert(!board.mines().contains((ex, ey)));
    }
    assert(board.mines().len() == 0);
    lemma_laid(board, ex, ey, ranks);
    let laid = board.laid(ex, ey, ranks);
    assert(!board.game_over) by {
        if board.mine_shown() {
            let (x, y) = choose|x: int, y: int| board.in_bounds(x, y) && board.is_shown_mine(x, y);
            assert(!board.cell(x, y).revealed);
        }
    }
    lemma_play_starts(laid);
    let ready = board.mined(ex, ey, ranks);
    assert(!ready.mine(ex, ey)) by {
        assert(!laid.mines().contains((ex, ey)));
        assert(!ready.mines().contains((ex, ey)));
    }
}

/// The first move is never a loss: on the board that comes of laying the
/// mines with `(x, y)` kept free, uncovering `(x, y)` reveals a safe cell.
pub proof fn lemma_first_move_safe(board: BoardView, x: int, y: int, ranks: Seq<usize>)
    requires
        board.valid(),
        !board.mines_placed,
        board.untouched(),
        board.in_bounds(x, y),
        board.ranks_fit(ranks),
    ensures
        board.mined(x, y, ranks).outcome_at(x, y) == Outcome::Revealed,
        board.mined(x, y, ranks).uncovered(x, y) == board.mined(x, y, ranks).flooded(x, y),
        !board.mined(x, y, ranks).uncovered(x, y).game_over,
{
    lemma_mines_laid(board, x, y, ranks);
    let ready = board.mined(x, y, ranks);
    assert(!ready.cell(x, y).revealed);
    assert(!ready.cell(x, y).has_mine);
    assert(!ready.game_over) by {
        if ready.mine_shown() {
            let (a, b) = choose|a: int, b: int| ready.in_bounds(a, b) && ready.is_shown_mine(a, b);
            assert(!ready.cell(a, b).revealed);
        }
    }
}

/// Every count is exact: once the mines around every cell are counted, and
/// on every board between two moves, the count of a cell is the number of
/// its neighbours on the grid that hold a mine.
pub proof fn lemma_counts_exact(board: BoardView, x: int, y: int)
    requires
        board.shaped(),
        board.in_bounds(x, y),
    ensures
        board.mined_neighbors(x, y).finite(),
        board.counted().cell(x, y).adjacent_mines == board.mined_neighbors(x, y).len(),
        board.counts_valid() ==> board.cell(x, y).adjacent_mines == board.mined_neighbors(
            x,
            y,
        ).len(),
{
    lemma_neighbor_mines_count(board, x, y);
    lemma_counted(board);
    assert(board.counted().cells[x].len() == board.height);
    assert(board.counted().cell(x, y).adjacent_mines == board.neighbor_mines(x, y) as u8);
    if board.counts_valid() {
        assert(board.cell(x, y).adjacent_mines == board.neighbor_mines(x, y));
    }
}

/// The flood fill never reveals a mine: where every count is valid, after
/// a fill from a cell without a mine the only revealed mines are those that
/// were revealed before.
pub proof fn lemma_flood_shows_no_mine(board: BoardView, x: int, y: int, cx: int, cy: int)
    requires
        board.shaped(),
        board.counts_valid(),
        !board.mine(x, y),
        board.in_bounds(cx, cy),
        board.flooded(x, y).is_shown_mine(cx, cy),
    ensures
        board.is_shown_mine(cx, cy),
{
    lemma_flooded_cells(board, x, y);
    assert(board.flooded(x, y).cell(cx, cy).has_mine == board.cell(cx, cy).has_mine);
    if !board.cell(cx, cy).revealed {
        assert(board.flood_reaches(x, y, cx, cy));
        lemma_flood_avoids_mines(board, x, y, cx, cy);
    }
}

/// The flood fill from a covered cell without a mine reveals the whole
/// region of that cell and stops there: after it, the revealed cells are
/// those that were revealed before and those of the region.
pub proof fn lemma_flood_reveals_region(board: BoardView, x: int, y: int, cx: int, cy: int)
    requires
        board.valid(),
        board.hidden(x, y),
        !board.mine(x, y),
        board.in_bounds(cx, cy),
    ensures
        board.flood_reaches(x, y, cx, cy) <==> board.hidden(cx, cy) && board.in_region(x, y, cx, cy),
        board.flooded(x, y).shown(cx, cy) <==> board.shown(cx, cy) || board.in_region(x, y, cx, cy),
{
    lemma_flooded_cells(board, x, y);
    assert(board.flooded(x, y).cell(cx, cy).revealed == (board.cell(cx, cy).revealed
        || board.flood_reaches(x, y, cx, cy)));
    if board.flood_reaches(x, y, cx, cy) {
        let path = choose|path: Seq<Pos>| #[trigger] board.flood_path_between(path, x, y, cx, cy);
        lemma_flood_path_in_region(board, path);
        assert(board.region_path_between(path, x, y, cx, cy));
        assert(board.hidden(path[path.len() - 1].0, path[path.len() - 1].1));
    }
    if board.hidden(cx, cy) && board.in_region(x, y, cx, cy) {
        let path = choose|path: Seq<Pos>| #[trigger] board.region_path_between(path, x, y, cx, cy);
        assert forall|i: int| 0 <= i < path.len() implies board.hidden(
            (#[trigger] path[i]).0,
            path[i].1,
        ) by {
            lemma_region_path_covered(board, path, i);
        }
        assert(board.flood_path_between(path, x, y, cx, cy));
    }
}

/// The player has won exactly when the revealed cells without a mine are
/// as many as the cells of the grid less the mines.
pub proof fn lemma_won_by_count(board: BoardView)
    requires
        board.shaped(),
    ensures
        board.safe_shown().finite(),
        board.mines().finite(),
        board.won() <==> board.safe_shown().len() == board.width * board.height
            - board.mines().len(),
{
    let grid = all_positions(board.width, board.height);
    let safe = grid.difference(board.mines());
    lemma_all_positions(board.width, board.height);
    lemma_positions_bounded(board.mines(), board.width, board.height);
    lemma_positions_bounded(board.safe_shown(), board.width, board.height);
    lemma_set_disjoint_lens(safe, board.mines());
    assert(safe + board.mines() =~= grid);
    assert(board.safe_shown().subset_of(safe));
    lemma_len_subset(board.safe_shown(), safe);
    if board.won() {
        assert forall|p: Pos| safe.contains(p) implies board.safe_shown().contains(p) by {
            assert(!board.cell(p.0, p.1).has_mine);
        }
        assert(board.safe_shown() =~= safe);
    }
    if board.safe_shown().len() == safe.len() {
        lemma_subset_equality(board.safe_shown(), safe);
        assert forall|a: int, b: int|
            board.in_bounds(a, b) && !(#[trigger] board.cell(a, b)).has_mine implies board.cell(
            a,
            b,
        ).revealed by {
            assert(safe.contains((a, b)));
            assert(board.safe_shown().contains((a, b)));
        }
    }
}

/// Uncovering a covered mine loses the game: the game is over, only that
/// cell is revealed, and the player is no nearer to a win than before.
pub proof fn lemma_mine_hit_loses(board: BoardView, x: int, y: int)
    requires
        board.shaped(),
        board.hidden(x, y),
        board.mine(x, y),
    ensures
        board.outcome_at(x, y) == Outcome::HitMine,
        board.uncovered(x, y) == board.blown(x, y),
        board.uncovered(x, y).game_over,
        board.uncovered(x, y).won() == board.won(),
        !board.won() ==> !board.uncovered(x, y).won(),
{
    let after = board.uncovered(x, y);
    assert forall|a: int, b: int| board.in_bounds(a, b) implies (#[trigger] after.cell(a, b)).has_mine
        == board.cell(a, b).has_mine && after.cell(a, b).revealed == (board.cell(a, b).revealed
        || (a == x && b == y)) by {}
    if board.won() {
        assert forall|a: int, b: int|
            after.in_bounds(a, b) && !(#[trigger] after.cell(a, b)).has_mine implies after.cell(
            a,
            b,
        ).revealed by {
            assert(!board.cell(a, b).has_mine);
        }
    }
    if after.won() {
        assert forall|a: int, b: int|
            board.in_bounds(a, b) && !(#[trigger] board.cell(a, b)).has_mine implies board.cell(
            a,
            b,
        ).revealed by {
            assert(!after.cell(a, b).has_mine);
        }
    }
}

/// Uncovering leaves the cell revealed, so that uncovering it again reports
/// that it was revealed already and changes nothing: two calls give the
/// board that one call gives.
pub proof fn lemma_uncover_idempotent(board: BoardView, x: int, y: int)
    requires
        board.shaped(),
        board.in_bounds(x, y),
    ensures
        board.uncovered(x, y).shown(x, y),
        board.uncovered(x, y).outcome_at(x, y) == Outcome::AlreadyRevealed,
        board.uncovered(x, y).uncovered(x, y) == board.uncovered(x, y),
{
    if board.hidden(x, y) {
        if board.cell(x, y).has_mine {
            assert(board.blown(x, y).cell(x, y).revealed);
        } else {
            lemma_flooded_cells(board, x, y);
            lemma_flood_reaches_start(board, x, y);
            assert(board.flooded(x, y).cell(x, y).revealed);
        }
    }
}

/// Uncovering a cell that is revealed already changes nothing.
pub proof fn lemma_uncover_revealed(board: BoardView, x: int, y: int)
    requires
        board.shown(x, y),
    ensures
        board.outcome_at(x, y) == Outcome::AlreadyRevealed,
        board.uncovered(x, y) == board,
{
}

/// Uncovering a cell only reveals: it moves no mine, changes no count and
/// covers no cell again; the mines stay laid, and a game that is over
/// stays over.
pub proof fn lemma_uncover_only_reveals(board: BoardView, x: int, y: int, cx: int, cy: int)
    requires
        board.shaped(),
        board.in_bounds(cx, cy),
    ensures
        board.uncovered(x, y).same_size(board),
        board.uncovered(x, y).mines_placed == board.mines_placed,
        board.game_over ==> board.uncovered(x, y).game_over,
        board.uncovered(x, y).cell(cx, cy).has_mine == board.cell(cx, cy).has_mine,
        board.uncovered(x, y).cell(cx, cy).adjacent_mines == board.cell(cx, cy).adjacent_mines,
        board.cell(cx, cy).revealed ==> board.uncovered(x, y).cell(cx, cy).revealed,
{
    if board.hidden(x, y) {
        if board.cell(x, y).has_mine {
            assert(board.blown(x, y).cell(cx, cy) == (if cx == x && cy == y {
                crate::cell::Cell { revealed: true, ..board.cell(x, y) }
            } else {
                board.cell(cx, cy)
            }));
        } else {
            lemma_flooded_cells(board, x, y);
            assert(board.flooded(x, y).cell(cx, cy).has_mine == board.cell(cx, cy).has_mine);
        }
    }
}

} // verus!
