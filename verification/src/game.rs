//! The moves of the game: uncovering cells, and telling a win from a loss.

use vstd::prelude::*;
use crate::board::Board;
use crate::flood::lemma_covered_fewer;
use crate::flood::lemma_flooded_nowhere;
use crate::flood::lemma_flooding_begins;
use crate::flood::lemma_flooding_ends;
use crate::flood::lemma_flooding_goes_on;
use crate::model::adjacent;
use crate::rules::lemma_flooded_valid;
use crate::rules::lemma_pending_untouched;
use crate::rules::lemma_uncovered_valid;
use crate::status::BoardError;
use crate::status::Outcome;
use crate::status::Phase;

verus! {

impl Board {
    /// Flood-fills from `(x, y)`: reveals the cell unless it lies off the
    /// grid or is revealed already, and, where its count is 0, goes on in
    /// the same way from each of its up to eight neighbours.
    ///
    /// The cells revealed are those that a chain of covered cells joins to
    /// `(x, y)`, every cell of the chain but the last having the count 0.
    /// Nothing else changes. Between two moves of a game, a fill
    /// that starts on a cell without a mine reveals no mine and leaves the
    /// board in such a state.
    ///
    /// The fill calls itself once for each cell that it reveals, so the
    /// stack grows with the size of the region.
    pub fn recursive_uncover(&mut self, x: usize, y: usize)
        requires
            old(self).well_formed(),
        ensures
            final(self).well_formed(),
            final(self)@ == old(self)@.flooded(x as int, y as int),
            old(self).inv() && !old(self)@.mine(x as int, y as int) ==> final(self).inv(),
        decreases old(self)@.covered().len(),
    {
        let ghost start = self@;
        proof {
            self.lemma_well_formed_view();
            if start.valid() && !start.mine(x as int, y as int) {
                lemma_flooded_valid(start, x as int, y as int);
            }
        }
        if x >= self.width() || y >= self.height() {
            proof {
                lemma_flooded_nowhere(start, x as int, y as int);
            }
            return ;
        }
        if self.at(x, y).revealed {
            proof {
                lemma_flooded_nowhere(start, x as int, y as int);
            }
            return ;
        }
        self.mark_revealed(x, y);
        proof {
            lemma_flooding_begins(start, x as int, y as int);
        }
        if self.at(x, y).adjacent_mines > 0 {
            proof {
                assert(self@.cell(x as int, y as int).adjacent_mines > 0);
                lemma_flooding_ends(start, self@, x as int, y as int);
            }
            return ;
        }
        assert(start.cell(x as int, y as int).adjacent_mines == 0) by {
            assert(self@.cell(x as int, y as int).adjacent_mines == 0);
        }
        let mut dx: usize = 0;
        while dx < 3
            invariant
                dx <= 3,
                start == old(self)@,
                self.well_formed(),
                start.in_bounds(x as int, y as int),
                start.cell(x as int, y as int).adjacent_mines == 0,
                self@.flooding_from(start, x as int, y as int),
                forall|nx: int, ny: int|
                    #![trigger self@.cell(nx, ny)]
                    self@.in_bounds(nx, ny) && adjacent(x as int, y as int, nx, ny) && nx - x + 1
                        < dx ==> self@.cell(nx, ny).revealed,
            decreases 3 - dx,
        {
            let mut dy: usize = 0;
            while dy < 3
                invariant
                    dx < 3,
                    dy <= 3,
                    start == old(self)@,
                    self.well_formed(),
                    start.in_bounds(x as int, y as int),
                    start.cell(x as int, y as int).adjacent_mines == 0,
                    self@.flooding_from(start, x as int, y as int),
                    forall|nx: int, ny: int|
                        #![trigger self@.cell(nx, ny)]
                        self@.in_bounds(nx, ny) && adjacent(x as int, y as int, nx, ny) && (nx - x
                            + 1 < dx || (nx - x + 1 == dx && ny - y + 1 < dy)) ==> self@.cell(
                            nx,
                            ny,
                        ).revealed,
                decreases 3 - dy,
            {
                if !(dx == 1 && dy == 1) {
                    if let Some(next) = self.neighbor(x, dx, y, dy) {
                        let ghost mid = self@;
                        proof {
                            lemma_covered_fewer(mid, start, x as int, y as int);
                            lemma_flooding_goes_on(
                                start,
                                mid,
                                x as int,
                                y as int,
                                next.0 as int,
                                next.1 as int,
                            );
                        }
                        self.recursive_uncover(next.0, next.1);
                        proof {
                            assert forall|ax: int, ay: int|
                                #![trigger self@.cell(ax, ay)]
                                self@.in_bounds(ax, ay) && adjacent(x as int, y as int, ax, ay) && (
                                ax - x + 1 < dx || (ax - x + 1 == dx && ay - y + 1 < dy
                                    + 1)) implies self@.cell(ax, ay).revealed by {
                                if ax == next.0 && ay == next.1 {
                                } else {
                                    assert(mid.cell(ax, ay).revealed);
                                }
                            }
                        }
                    }
                }
                dy += 1;
            }
            dx += 1;
        }
        proof {
            assert forall|nx: int, ny: int| !self@.seam(x as int, y as int, nx, ny) by {
                if self@.seam(x as int, y as int, nx, ny) {
                    assert(self@.cell(nx, ny).revealed);
                }
            }
            lemma_flooding_ends(start, self@, x as int, y as int);
        }
    }

    /// Uncovers the cell at `(x, y)`.
    ///
    /// A cell that was revealed before stays as it is, and so does the
    /// board. A cell with a mine is revealed and ends the game; no other
    /// cell is touched. Any other cell is revealed by a flood fill from it.
    pub fn uncover(&mut self, x: usize, y: usize) -> (outcome: Outcome)
        requires
            old(self).inv(),
            old(self)@.in_bounds(x as int, y as int),
        ensures
            final(self).inv(),
            final(self)@.same_size(old(self)@),
            outcome == old(self)@.outcome_at(x as int, y as int),
            final(self)@ == old(self)@.uncovered(x as int, y as int),
    {
        proof {
            lemma_uncovered_valid(self@, x as int, y as int);
        }
        let cell = self.at(x, y);
        if cell.revealed {
            return Outcome::AlreadyRevealed;
        }
        if cell.has_mine {
            self.mark_revealed(x, y);
            self.mark_lost();
            return Outcome::HitMine;
        }
        self.recursive_uncover(x, y);
        Outcome::Revealed
    }

    /// Whether the player has won: every cell without a mine is revealed.
    pub fn check_win(&self) -> (won: bool)
        requires
            self.well_formed(),
        ensures
            won == self@.won(),
    {
        let width = self.width();
        let height = self.height();
        let mut won = true;
        let mut x: usize = 0;
        while x < width
            invariant
                x <= width,
                width == self@.width,
                height == self@.height,
                self.well_formed(),
                won <==> forall|a: int, b: int|
                    0 <= a < x && 0 <= b < height && !(#[trigger] self@.cell(a, b)).has_mine
                        ==> self@.cell(a, b).revealed,
            decreases width - x,
        {
            let mut y: usize = 0;
            while y < height
                invariant
                    x < width,
                    y <= height,
                    width == self@.width,
                    height == self@.height,
                    self.well_formed(),
                    won <==> forall|a: int, b: int|
                        (0 <= a < x && 0 <= b < height || a == x && 0 <= b < y) && !(
                        #[trigger] self@.cell(a, b)).has_mine ==> self@.cell(a, b).revealed,
                decreases height - y,
            {
                let cell = self.at(x, y);
                if !cell.has_mine && !cell.revealed {
                    assert(!self@.cell(x as int, y as int).has_mine && !self@.cell(
                        x as int,
                        y as int,
                    ).revealed);
                    won = false;
                }
                y += 1;
            }
            x += 1;
        }
        won
    }

    /// Where the game stands: lost once a mine is uncovered, won once every
    /// safe cell is revealed, else waiting for the first move or in play.
    pub fn phase(&self) -> (phase: Phase)
        requires
            self.well_formed(),
        ensures
            phase == self@.phase(),
    {
        if self.game_over() {
            Phase::Lost
        } else if self.check_win() {
            Phase::Won
        } else if self.mines_placed() {
            Phase::InPlay
        } else {
            Phase::MinesPending
        }
    }

    /// Plays one move at `(x, y)`: refuses coordinates off the grid, lays
    /// the mines first if none are laid and the cell is covered, keeping
    /// `(x, y)` free of them, and uncovers the cell.
    ///
    /// The move that lays the mines never hits one.
    pub fn play(&mut self, x: usize, y: usize) -> (played: Result<Outcome, BoardError>)
        requires
            old(self).inv(),
        ensures
            final(self).inv(),
            final(self)@.same_size(old(self)@),
            match played {
                Ok(outcome) => {
                    &&& old(self)@.in_bounds(x as int, y as int)
                    &&& if old(self)@.opens_at(x as int, y as int) {
                        &&& outcome == Outcome::Revealed
                        &&& exists|ranks: Seq<usize>|
                            old(self)@.ranks_fit(ranks) && final(self)@ == (#[trigger] old(
                                self,
                            )@.mined(x as int, y as int, ranks)).flooded(x as int, y as int)
                    } else {
                        &&& outcome == old(self)@.outcome_at(x as int, y as int)
                        &&& final(self)@ == old(self)@.uncovered(x as int, y as int)
                    }
                },
                Err(error) => {
                    &&& error == BoardError::OutOfBounds
                    &&& !old(self)@.in_bounds(x as int, y as int)
                    &&& final(self)@ == old(self)@
                },
            },
    {
        if x >= self.width() || y >= self.height() {
            return Err(BoardError::OutOfBounds);
        }
        if !self.mines_placed() && !self.at(x, y).revealed {
            proof {
                lemma_pending_untouched(self@, x as int, y as int);
            }
            self.place_mines(x, y);
            let ghost ready = self@;
            let outcome = self.uncover(x, y);
            proof {
                assert(!ready.cell(x as int, y as int).revealed);
                assert(!ready.cell(x as int, y as int).has_mine);
            }
            Ok(outcome)
        } else {
            let outcome = self.uncover(x, y);
            Ok(outcome)
        }
    }
}

} // verus!
