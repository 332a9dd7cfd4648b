//! Laying the mines, counting them around every cell, and listing them.

use vstd::prelude::*;
use crate::board::Board;
use crate::layout::lemma_eligible_count;
use crate::layout::lemma_eligible_finite;
use crate::layout::lemma_mines_finite;
use crate::layout::lemma_play_starts;
use crate::layout::lemma_with_mine;
use crate::model::lemma_counted;
use crate::model::lemma_counted_again;
use crate::model::BoardView;
use crate::positions::all_positions;
use crate::positions::is_ranked;
use crate::positions::lemma_met_before_column;
use crate::positions::lemma_met_before_next;
use crate::positions::lemma_ranked_covers;
use crate::positions::lemma_ranked_is;
use crate::positions::lemma_ranks_ascend;
use crate::positions::met_before;
use crate::positions::precedes;
use crate::random::random_below;

verus! {

impl Board {
    /// 1 if the position `(x + dx - 1, y + dy - 1)` lies on the grid and
    /// holds a mine, 0 otherwise.
    fn mine_unit(&self, x: usize, dx: usize, y: usize, dy: usize) -> (unit: u8)
        requires
            self.well_formed(),
            self@.in_bounds(x as int, y as int),
            dx <= 2,
            dy <= 2,
        ensures
            unit == self@.mine_unit(x + dx - 1, y + dy - 1),
    {
        match self.neighbor(x, dx, y, dy) {
            Some(position) => if self.at(position.0, position.1).has_mine {
                1
            } else {
                0
            },
            None => 0,
        }
    }

    /// Counts the mines on the up to eight neighbours of `(x, y)`.
    fn count_neighbor_mines(&self, x: usize, y: usize) -> (count: u8)
        requires
            self.well_formed(),
            self@.in_bounds(x as int, y as int),
        ensures
            count == self@.neighbor_mines(x as int, y as int),
    {
        self.mine_unit(x, 0, y, 0) + self.mine_unit(x, 0, y, 1) + self.mine_unit(x, 0, y, 2)
            + self.mine_unit(x, 1, y, 0) + self.mine_unit(x, 1, y, 2) + self.mine_unit(x, 2, y, 0)
            + self.mine_unit(x, 2, y, 1) + self.mine_unit(x, 2, y, 2)
    }

    /// Sets every cell's count to the number of mines on its up to eight
    /// neighbours; neighbours off the grid count for nothing.
    ///
    /// Where the counts are valid already, as they are between two moves of
    /// a game, nothing changes.
    pub fn calculate_adjacent_mines(&mut self)
        requires
            old(self).well_formed(),
        ensures
            final(self).well_formed(),
            final(self)@ == old(self)@.counted(),
            final(self)@.counts_valid(),
            old(self).inv() ==> final(self)@ == old(self)@,
    {
        let ghost start = self@;
        proof {
            self.lemma_well_formed_view();
            lemma_counted(start);
            if start.counts_valid() {
                lemma_counted_again(start);
            }
        }
        let width = self.width();
        let height = self.height();
        let mut x: usize = 0;
        while x < width
            invariant
                x <= width,
                width == start.width,
                height == start.height,
                self.well_formed(),
                self@.same_stage(start),
                forall|a: int, b: int|
                    #![trigger self@.cell(a, b)]
                    start.in_bounds(a, b) ==> self@.cell(a, b) == (if a < x {
                        start.counted().cell(a, b)
                    } else {
                        start.cell(a, b)
                    }),
            decreases width - x,
        {
            let mut y: usize = 0;
            while y < height
                invariant
                    x < width,
                    y <= height,
                    width == start.width,
                    height == start.height,
                    self.well_formed(),
                    self@.same_stage(start),
                    forall|a: int, b: int|
                        #![trigger self@.cell(a, b)]
                        start.in_bounds(a, b) ==> self@.cell(a, b) == (if a < x || (a == x && b
                            < y) {
                            start.counted().cell(a, b)
                        } else {
                            start.cell(a, b)
                        }),
                decreases height - y,
            {
                let ghost mid = self@;
                proof {
                    assert forall|a: int, b: int| mid.mine(a, b) == start.mine(a, b) by {
                        if start.in_bounds(a, b) {
                            lemma_counted(start);
                            assert(mid.cell(a, b).has_mine == start.cell(a, b).has_mine);
                        }
                    }
                    assert(mid.neighbor_mines(x as int, y as int) == start.neighbor_mines(
                        x as int,
                        y as int,
                    ));
                }
                let count = self.count_neighbor_mines(x, y);
                self.mark_count(x, y, count);
                proof {
                    assert(self@.cells[x as int].len() == height);
                    assert forall|a: int, b: int|
                        #![trigger self@.cell(a, b)]
                        start.in_bounds(a, b) implies self@.cell(a, b) == (if a < x || (a == x
                        && b < y + 1) {
                        start.counted().cell(a, b)
                    } else {
                        start.cell(a, b)
                    }) by {
                        assert(start.counted().cells[a].len() == start.height);
                        if a == x && b == y {
                        } else {
                            assert(self@.cell(a, b) == mid.cell(a, b));
                        }
                    }
                }
                y += 1;
            }
            x += 1;
        }
        proof {
            lemma_counted(start);
            let target = start.counted();
            assert forall|a: int| 0 <= a < width implies #[trigger] self@.cells[a]
                =~= target.cells[a] by {
                assert forall|b: int| 0 <= b < height implies self@.cells[a][b]
                    == target.cells[a][b] by {
                    assert(self@.cell(a, b) == target.cell(a, b));
                }
            }
            assert(self@.cells =~= target.cells);
        }
    }

    /// Finds the position of the given rank among those where a mine may
    /// still be laid when `(exclude_x, exclude_y)` is to stay free.
    fn find_pick(&self, exclude_x: usize, exclude_y: usize, rank: usize) -> (found: (usize, usize))
        requires
            self.well_formed(),
            rank < self@.eligible_set(exclude_x as int, exclude_y as int).len(),
        ensures
            self@.eligible(exclude_x as int, exclude_y as int, found.0 as int, found.1 as int),
            self@.pick(exclude_x as int, exclude_y as int, rank as int) == (
                found.0 as int,
                found.1 as int,
            ),
    {
        let ghost free = self@.eligible_set(exclude_x as int, exclude_y as int);
        let width = self.width();
        let height = self.height();
        let mut remaining: usize = rank;
        let mut x: usize = 0;
        proof {
            lemma_eligible_finite(self@, exclude_x as int, exclude_y as int);
            lemma_met_before_column(free, self@.width, self@.height, 0);
        }
        while x < width
            invariant
                x <= width,
                width == self@.width,
                height == self@.height,
                self.well_formed(),
                free == self@.eligible_set(exclude_x as int, exclude_y as int),
                free.finite(),
                free.subset_of(all_positions(self@.width, self@.height)),
                rank < free.len(),
                remaining <= rank,
                rank - remaining == met_before(free, x as int, 0).len(),
            decreases width - x,
        {
            let mut y: usize = 0;
            while y < height
                invariant
                    x < width,
                    y <= height,
                    width == self@.width,
                    height == self@.height,
                    self.well_formed(),
                    free == self@.eligible_set(exclude_x as int, exclude_y as int),
                    free.finite(),
                    free.subset_of(all_positions(self@.width, self@.height)),
                    rank < free.len(),
                    remaining <= rank,
                    rank - remaining == met_before(free, x as int, y as int).len(),
                decreases height - y,
            {
                proof {
                    lemma_met_before_next(free, x as int, y as int);
                    assert(free.contains((x as int, y as int)) == self@.eligible(
                        exclude_x as int,
                        exclude_y as int,
                        x as int,
                        y as int,
                    ));
                }
                if !self.at(x, y).has_mine && !(x == exclude_x && y == exclude_y) {
                    if remaining == 0 {
                        proof {
                            assert(is_ranked(free, rank as int, x as int, y as int));
                            lemma_ranked_is(free, rank as int, x as int, y as int);
                        }
                        return (x, y);
                    }
                    remaining -= 1;
                }
                y += 1;
            }
            proof {
                lemma_met_before_column(free, self@.width, self@.height, x as int);
            }
            x += 1;
        }
        proof {
            // The scan has met every eligible position, more than `rank` of
            // them: it cannot have come here.
            lemma_met_before_column(free, self@.width, self@.height, 0);
            assert(false);
        }
        (0, 0)
    }

    /// Lays the mines that `ranks` pick, one after the other, leaving
    /// `(exclude_x, exclude_y)` free; then counts the mines around every
    /// cell and marks the board as mined.
    ///
    /// Each rank picks among the positions that hold no mine yet and are not
    /// the excluded one, in the order of a scan by columns: rank 0 is the
    /// first of them. This is the whole of [`Board::place_mines`] but for
    /// the chance: the same ranks always give the same board.
    pub fn place_mines_ranked(&mut self, exclude_x: usize, exclude_y: usize, ranks: &Vec<usize>)
        requires
            old(self).inv(),
            !old(self)@.mines_placed,
            old(self)@.untouched(),
            old(self)@.in_bounds(exclude_x as int, exclude_y as int),
            old(self)@.ranks_fit(ranks@),
        ensures
            final(self).inv(),
            final(self)@ == old(self)@.mined(exclude_x as int, exclude_y as int, ranks@),
            final(self)@.mines_placed,
            final(self)@.same_size(old(self)@),
            final(self)@.mines().len() == final(self)@.mine_count,
            !final(self)@.mine(exclude_x as int, exclude_y as int),
            final(self)@.untouched(),
    {
        let ghost start = self@;
        let ghost ex = exclude_x as int;
        let ghost ey = exclude_y as int;
        let mut i: usize = 0;
        proof {
            assert(ranks@.take(0) =~= Seq::<usize>::empty());
            assert(start.mines().len() == 0);
            assert(!start.mines().contains((ex, ey)));
        }
        while i < ranks.len()
            invariant
                i <= ranks.len(),
                ex == exclude_x,
                ey == exclude_y,
                self.well_formed(),
                start.in_bounds(ex, ey),
                start.ranks_fit(ranks@),
                self@.same_stage(start),
                self@ == start.laid(ex, ey, ranks@.take(i as int)),
                self@.mines().len() == i,
                !self@.mine(ex, ey),
                self@.untouched(),
            decreases ranks.len() - i,
        {
            let ghost mid = self@;
            proof {
                lemma_eligible_count(mid, ex, ey);
            }
            let at = self.find_pick(exclude_x, exclude_y, ranks[i]);
            self.mark_mine(at.0, at.1);
            proof {
                lemma_with_mine(mid, ex, ey, at.0 as int, at.1 as int);
                assert(ranks@.take(i + 1).drop_last() =~= ranks@.take(i as int));
                assert(ranks@.take(i + 1).last() == ranks@[i as int]);
                assert(!self@.mine(ex, ey)) by {
                    assert(!mid.mines().contains((ex, ey)));
                    assert(!self@.mines().contains((ex, ey)));
                }
            }
            i += 1;
        }
        proof {
            assert(ranks@.take(ranks@.len() as int) =~= ranks@);
        }
        let ghost laid = self@;
        proof {
            assert(!start.game_over) by {
                if start.mine_shown() {
                    let (x, y) = choose|x: int, y: int|
                        start.in_bounds(x, y) && start.is_shown_mine(x, y);
                    assert(!start.cell(x, y).revealed);
                }
            }
            lemma_play_starts(laid);
        }
        self.calculate_adjacent_mines();
        self.mark_mined();
        proof {
            let ready = BoardView { mines_placed: true, ..laid.counted() };
            assert(self@ == ready);
            assert(!ready.mine(ex, ey)) by {
                assert(!laid.mines().contains((ex, ey)));
                assert(!ready.mines().contains((ex, ey)));
            }
        }
    }

    /// Draws one rank for each of `count` mines: the rank at index `i` lies
    /// below `free - i`.
    fn draw_ranks(count: usize, free: usize) -> (ranks: Vec<usize>)
        requires
            count <= free,
        ensures
            ranks@.len() == count,
            forall|i: int| 0 <= i < count ==> (#[trigger] ranks@[i]) < free - i,
    {
        let mut generator = rand::thread_rng();
        let mut ranks: Vec<usize> = Vec::new();
        let mut i: usize = 0;
        while i < count
            invariant
                i <= count,
                count <= free,
                ranks@.len() == i,
                forall|j: int| 0 <= j < i ==> (#[trigger] ranks@[j]) < free - j,
            decreases count - i,
        {
            let rank = random_below(&mut generator, free - i);
            ranks.push(rank);
            i += 1;
        }
        ranks
    }

    /// Lays `mine_count` mines on distinct cells drawn at random, each
    /// choice uniform among the cells still free, and never on
    /// `(exclude_x, exclude_y)`; then counts the mines around every cell and
    /// marks the board as mined.
    ///
    /// To be called once in a game, before any cell is uncovered. Whatever
    /// the draws, the board then holds exactly `mine_count` mines, none of
    /// them on the excluded cell, and every count is valid; the draws decide
    /// which of the boards that `mined` describes comes out.
    pub fn place_mines(&mut self, exclude_x: usize, exclude_y: usize)
        requires
            old(self).inv(),
            !old(self)@.mines_placed,
            old(self)@.untouched(),
            old(self)@.in_bounds(exclude_x as int, exclude_y as int),
        ensures
            final(self).inv(),
            exists|ranks: Seq<usize>|
                old(self)@.ranks_fit(ranks) && final(self)@ == #[trigger] old(self)@.mined(
                    exclude_x as int,
                    exclude_y as int,
                    ranks,
                ),
            final(self)@.mines_placed,
            final(self)@.same_size(old(self)@),
            final(self)@.mines().len() == final(self)@.mine_count,
            !final(self)@.mine(exclude_x as int, exclude_y as int),
            final(self)@.untouched(),
    {
        let free = self.cell_count() - 1;
        let ranks = Board::draw_ranks(self.mine_count(), free);
        self.place_mines_ranked(exclude_x, exclude_y, &ranks);
    }

    /// The coordinates of all mines, in the order of a scan by columns and
    /// within a column by rows.
    pub fn mine_list(&self) -> (list: Vec<(usize, usize)>)
        requires
            self.well_formed(),
        ensures
            list@.len() == self@.mines().len(),
            forall|i: int|
                0 <= i < list@.len() ==> self@.mine(
                    (#[trigger] list@[i]).0 as int,
                    list@[i].1 as int,
                ),
            forall|i: int, j: int|
                0 <= i < j < list@.len() ==> precedes(
                    ((#[trigger] list@[i]).0 as int, list@[i].1 as int),
                    ((#[trigger] list@[j]).0 as int, list@[j].1 as int),
                ),
            forall|x: usize, y: usize| #[trigger]
                self@.mine(x as int, y as int) ==> list@.contains((x, y)),
    {
        let ghost mines = self@.mines();
        let width = self.width();
        let height = self.height();
        let mut list: Vec<(usize, usize)> = Vec::new();
        let mut x: usize = 0;
        proof {
            lemma_mines_finite(self@);
            lemma_met_before_column(mines, self@.width, self@.height, 0);
        }
        while x < width
            invariant
                x <= width,
                width == self@.width,
                height == self@.height,
                self.well_formed(),
                mines == self@.mines(),
                mines.finite(),
                mines.subset_of(all_positions(self@.width, self@.height)),
                list@.len() == met_before(mines, x as int, 0).len(),
                forall|i: int|
                    0 <= i < list@.len() ==> is_ranked(
                        mines,
                        i,
                        (#[trigger] list@[i]).0 as int,
                        list@[i].1 as int,
                    ),
            decreases width - x,
        {
            let mut y: usize = 0;
            while y < height
                invariant
                    x < width,
                    y <= height,
                    width == self@.width,
                    height == self@.height,
                    self.well_formed(),
                    mines == self@.mines(),
                    mines.finite(),
                    mines.subset_of(all_positions(self@.width, self@.height)),
                    list@.len() == met_before(mines, x as int, y as int).len(),
                    forall|i: int|
                        0 <= i < list@.len() ==> is_ranked(
                            mines,
                            i,
                            (#[trigger] list@[i]).0 as int,
                            list@[i].1 as int,
                        ),
                decreases height - y,
            {
                proof {
                    lemma_met_before_next(mines, x as int, y as int);
                    assert(mines.contains((x as int, y as int)) == self@.mine(x as int, y as int));
                }
                if self.at(x, y).has_mine {
                    list.push((x, y));
                }
                y += 1;
            }
            proof {
                lemma_met_before_column(mines, self@.width, self@.height, x as int);
            }
            x += 1;
        }
        proof {
            lemma_met_before_column(mines, self@.width, self@.height, 0);
            assert forall|i: int, j: int| 0 <= i < j < list@.len() implies precedes(
                ((#[trigger] list@[i]).0 as int, list@[i].1 as int),
                ((#[trigger] list@[j]).0 as int, list@[j].1 as int),
            ) by {
                lemma_ranks_ascend(
                    mines,
                    i,
                    list@[i].0 as int,
                    list@[i].1 as int,
                    j,
                    list@[j].0 as int,
                    list@[j].1 as int,
                );
            }
            assert forall|x: usize, y: usize| #[trigger]
                self@.mine(x as int, y as int) implies list@.contains((x, y)) by {
                lemma_ranked_covers(mines, x as int, y as int);
                let rank = met_before(mines, x as int, y as int).len() as int;
                lemma_ranked_is(mines, rank, list@[rank].0 as int, list@[rank].1 as int);
                assert(list@[rank] == (x, y));
            }
        }
        list
    }
}

} // verus!
