//! Where the mines go: cells picked by rank among those still free.

use vstd::prelude::*;
use vstd::set_lib::*;
use crate::model::lemma_counted;
use crate::model::BoardView;
use crate::positions::all_positions;
use crate::positions::lemma_all_positions;
use crate::positions::lemma_positions_bounded;
use crate::positions::lemma_ranked_exists;
use crate::positions::ranked;
use crate::positions::Pos;

verus! {

impl BoardView {
    /// Whether a mine may be laid at `(x, y)` when `(ex, ey)` is to stay
    /// free: the position lies on the grid, holds no mine yet, and is not
    /// `(ex, ey)`.
    pub open spec fn eligible(self, ex: int, ey: int, x: int, y: int) -> bool {
        self.in_bounds(x, y) && !self.cell(x, y).has_mine && !(x == ex && y == ey)
    }

    /// The positions where a mine may be laid.
    pub open spec fn eligible_set(self, ex: int, ey: int) -> Set<Pos> {
        Set::new(|p: Pos| self.eligible(ex, ey, p.0, p.1))
    }

    /// The eligible position of the given rank: the scan of the grid meets
    /// exactly `rank` eligible positions before it.
    pub open spec fn pick(self, ex: int, ey: int, rank: int) -> Pos {
        ranked(self.eligible_set(ex, ey), rank)
    }

    /// This board with one mine more for each rank in turn: each rank picks
    /// among the positions that are eligible once the mines before it lie.
    pub open spec fn laid(self, ex: int, ey: int, ranks: Seq<usize>) -> BoardView
        decreases ranks.len(),
    {
        if ranks.len() == 0 {
            self
        } else {
            let before = self.laid(ex, ey, ranks.drop_last());
            let p = before.pick(ex, ey, ranks.last() as int);
            before.with_mine(p.0, p.1)
        }
    }

    /// The board on which play starts: this board with the mines that
    /// `ranks` pick, every count set, and marked as mined.
    pub open spec fn mined(self, ex: int, ey: int, ranks: Seq<usize>) -> BoardView {
        BoardView { mines_placed: true, ..self.laid(ex, ey, ranks).counted() }
    }

    /// Whether `ranks` pick one position for each configured mine: there
    /// are `mine_count` of them, and each is below the number of positions
    /// that are eligible when its turn comes.
    pub open spec fn ranks_fit(self, ranks: Seq<usize>) -> bool {
        &&& ranks.len() == self.mine_count
        &&& forall|i: int|
            0 <= i < ranks.len() ==> (#[trigger] ranks[i]) < self.width * self.height - 1 - i
    }
}

/// The eligible positions are finitely many, no more than the cells.
pub proof fn lemma_eligible_finite(board: BoardView, ex: int, ey: int)
    ensures
        board.eligible_set(ex, ey).finite(),
        board.eligible_set(ex, ey).subset_of(all_positions(board.width, board.height)),
{
    let grid = all_positions(board.width, board.height);
    assert(board.eligible_set(ex, ey).subset_of(grid));
    lemma_positions_bounded(board.eligible_set(ex, ey), board.width, board.height);
}

/// The mines of a board are finitely many, no more than its cells.
pub proof fn lemma_mines_finite(board: BoardView)
    ensures
        board.mines().finite(),
        board.mines().subset_of(all_positions(board.width, board.height)),
        board.mines().len() <= board.width * board.height,
{
    assert(board.mines().subset_of(all_positions(board.width, board.height)));
    lemma_positions_bounded(board.mines(), board.width, board.height);
}

/// Beside the mines and the one position that stays free, every position
/// of the grid is eligible.
pub proof fn lemma_eligible_count(board: BoardView, ex: int, ey: int)
    requires
        board.in_bounds(ex, ey),
        !board.mine(ex, ey),
    ensures
        board.eligible_set(ex, ey).len() == board.width * board.height - board.mines().len() - 1,
{
    let grid = all_positions(board.width, board.height);
    let free = board.eligible_set(ex, ey);
    let kept = free.insert((ex, ey));
    lemma_all_positions(board.width, board.height);
    lemma_eligible_finite(board, ex, ey);
    lemma_mines_finite(board);
    assert(!free.contains((ex, ey)));
    assert(kept.disjoint(board.mines()));
    lemma_set_disjoint_lens(kept, board.mines());
    assert(kept + board.mines() =~= grid);
}

/// Laying a mine on an eligible position adds that position to the mines
/// and changes nothing else.
pub proof fn lemma_with_mine(board: BoardView, ex: int, ey: int, x: int, y: int)
    requires
        board.shaped(),
        board.eligible(ex, ey, x, y),
    ensures
        board.with_mine(x, y).same_stage(board),
        board.with_mine(x, y).mines() == board.mines().insert((x, y)),
        !board.mines().contains((x, y)),
        board.with_mine(x, y).mines().len() == board.mines().len() + 1,
        board.untouched() ==> board.with_mine(x, y).untouched(),
{
    let after = board.with_mine(x, y);
    lemma_mines_finite(board);
    assert forall|a: int| 0 <= a < after.width implies (#[trigger] after.cells[a]).len()
        == after.height by {}
    assert forall|a: int, b: int| board.in_bounds(a, b) implies (#[trigger] after.cell(a, b)).has_mine
        == (board.cell(a, b).has_mine || (a == x && b == y)) && after.cell(a, b).revealed
        == board.cell(a, b).revealed by {}
    assert(after.mines() =~= board.mines().insert((x, y)));
}

/// Once all mines lie on an untouched board, counting them and marking the
/// board as mined gives a board on which play can start.
pub proof fn lemma_play_starts(laid: BoardView)
    requires
        laid.shaped(),
        laid.mine_count < laid.width * laid.height,
        laid.untouched(),
        !laid.game_over,
        laid.mines().len() == laid.mine_count,
    ensures
        (BoardView { mines_placed: true, ..laid.counted() }).valid(),
        (BoardView { mines_placed: true, ..laid.counted() }).untouched(),
        (BoardView { mines_placed: true, ..laid.counted() }).mines() == laid.mines(),
        (BoardView { mines_placed: true, ..laid.counted() }).same_stage(
            BoardView { mines_placed: true, ..laid },
        ),
{
    let counted = laid.counted();
    let ready = BoardView { mines_placed: true, ..counted };
    lemma_counted(laid);
    assert forall|x: int, y: int| ready.in_bounds(x, y) implies #[trigger] ready.cell(x, y)
        == counted.cell(x, y) by {}
    assert forall|x: int, y: int| ready.mine(x, y) == counted.mine(x, y) by {}
    assert(ready.mines() =~= counted.mines());
    assert forall|x: int, y: int| ready.in_bounds(x, y) implies (#[trigger] ready.cell(
        x,
        y,
    )).adjacent_mines == ready.neighbor_mines(x, y) by {
        assert(ready.neighbor_mines(x, y) == counted.neighbor_mines(x, y));
    }
    assert forall|x: int, y: int| ready.in_bounds(x, y) implies !(#[trigger] ready.cell(
        x,
        y,
    )).revealed by {
        assert(!laid.cell(x, y).revealed);
    }
    assert(!ready.mine_shown());
}

/// Laying one mine for each rank on a grid-shaped board adds as many
/// mines as there are ranks, never on the position that stays free, and
/// changes nothing else.
pub proof fn lemma_laid(board: BoardView, ex: int, ey: int, ranks: Seq<usize>)
    requires
        board.shaped(),
        board.in_bounds(ex, ey),
        !board.mine(ex, ey),
        forall|i: int|
            0 <= i < ranks.len() ==> (#[trigger] ranks[i]) < board.width * board.height
                - board.mines().len() - 1 - i,
    ensures
        board.laid(ex, ey, ranks).same_stage(board),
        board.laid(ex, ey, ranks).mines().len() == board.mines().len() + ranks.len(),
        board.mines().subset_of(board.laid(ex, ey, ranks).mines()),
        !board.laid(ex, ey, ranks).mine(ex, ey),
        board.untouched() ==> board.laid(ex, ey, ranks).untouched(),
    decreases ranks.len(),
{
    if ranks.len() > 0 {
        let before = board.laid(ex, ey, ranks.drop_last());
        assert forall|i: int| 0 <= i < ranks.drop_last().len() implies (
        #[trigger] ranks.drop_last()[i]) < board.width * board.height - board.mines().len() - 1
            - i by {
            assert(ranks.drop_last()[i] == ranks[i]);
        }
        lemma_laid(board, ex, ey, ranks.drop_last());
        let rank = ranks.last() as int;
        assert(rank == ranks[ranks.len() - 1]);
        lemma_eligible_count(before, ex, ey);
        lemma_eligible_finite(before, ex, ey);
        lemma_ranked_exists(before.eligible_set(ex, ey), before.width, before.height, rank);
        let p = before.pick(ex, ey, rank);
        assert(before.eligible_set(ex, ey).contains(p));
        assert(before.eligible(ex, ey, p.0, p.1));
        lemma_with_mine(before, ex, ey, p.0, p.1);
        let after = before.with_mine(p.0, p.1);
        assert(!after.mine(ex, ey)) by {
            assert(!before.mines().contains((ex, ey)));
            assert(!after.mines().contains((ex, ey)));
        }
    }
}

} // verus!
