//! Finite sets of grid positions and their sizes.

use vstd::prelude::*;
use vstd::set_lib::*;

verus! {

/// A grid position: column and row.
pub type Pos = (int, int);

/// The positions of a grid of `width` columns and `height` rows.
pub open spec fn all_positions(width: nat, height: nat) -> Set<Pos> {
    Set::new(|p: Pos| 0 <= p.0 < width && 0 <= p.1 < height)
}

/// The first `height` positions of column `x`.
pub open spec fn column_positions(x: int, height: nat) -> Set<Pos> {
    Set::new(|p: Pos| p.0 == x && 0 <= p.1 < height)
}

/// A column of `height` cells has `height` positions.
pub proof fn lemma_column_positions(x: int, height: nat)
    ensures
        column_positions(x, height).finite(),
        column_positions(x, height).len() == height,
    decreases height,
{
    if height == 0 {
        assert(column_positions(x, height) =~= Set::<Pos>::empty());
    } else {
        let shorter = (height - 1) as nat;
        lemma_column_positions(x, shorter);
        assert(column_positions(x, height) =~= column_positions(x, shorter).insert(
            (x, height - 1),
        ));
    }
}

/// A grid of `width` columns and `height` rows has `width * height`
/// positions.
pub proof fn lemma_all_positions(width: nat, height: nat)
    ensures
        all_positions(width, height).finite(),
        all_positions(width, height).len() == width * height,
    decreases width,
{
    if width == 0 {
        assert(all_positions(width, height) =~= Set::<Pos>::empty());
        assert(width * height == 0) by (nonlinear_arith)
            requires
                width == 0,
        ;
    } else {
        let narrower = (width - 1) as nat;
        lemma_all_positions(narrower, height);
        lemma_column_positions(width - 1, height);
        let left = all_positions(narrower, height);
        let last = column_positions(width - 1, height);
        assert(all_positions(width, height) =~= left + last);
        assert(left.disjoint(last));
        lemma_set_disjoint_lens(left, last);
        assert(width * height == narrower * height + height) by (nonlinear_arith)
            requires
                width == narrower + 1,
        ;
    }
}

/// A set of grid positions is finite and no larger than the grid.
pub proof fn lemma_positions_bounded(s: Set<Pos>, width: nat, height: nat)
    requires
        s.subset_of(all_positions(width, height)),
    ensures
        s.finite(),
        s.len() <= width * height,
{
    lemma_all_positions(width, height);
    lemma_len_subset(s, all_positions(width, height));
}

/// The order in which a grid is scanned: column by column, and within a
/// column row by row.
pub open spec fn precedes(a: Pos, b: Pos) -> bool {
    a.0 < b.0 || (a.0 == b.0 && a.1 < b.1)
}

/// The positions of `s` that a scan meets before it comes to `(x, y)`.
pub open spec fn met_before(s: Set<Pos>, x: int, y: int) -> Set<Pos> {
    Set::new(|p: Pos| s.contains(p) && precedes(p, (x, y)))
}

/// Whether `(x, y)` is the position of the given rank in `s`: it belongs to
/// `s`, and a scan meets exactly `rank` positions of `s` before it.
pub open spec fn is_ranked(s: Set<Pos>, rank: int, x: int, y: int) -> bool {
    s.contains((x, y)) && met_before(s, x, y).len() == rank
}

/// The position of the given rank in `s`.
pub open spec fn ranked(s: Set<Pos>, rank: int) -> Pos {
    choose|p: Pos| is_ranked(s, rank, p.0, p.1)
}

/// What a scan has met of a finite set is finite and no more than the set.
pub proof fn lemma_met_before_bounded(s: Set<Pos>, x: int, y: int)
    requires
        s.finite(),
    ensures
        met_before(s, x, y).finite(),
        met_before(s, x, y).len() <= s.len(),
{
    assert(met_before(s, x, y).subset_of(s));
    lemma_len_subset(met_before(s, x, y), s);
}

/// One step of a scan within a column: the position `(x, y)` joins those
/// met before if it belongs to the set.
pub proof fn lemma_met_before_next(s: Set<Pos>, x: int, y: int)
    requires
        s.finite(),
    ensures
        met_before(s, x, y + 1).len() == met_before(s, x, y).len() + (if s.contains((x, y)) {
            1int
        } else {
            0int
        }),
{
    let before = met_before(s, x, y);
    let after = met_before(s, x, y + 1);
    lemma_met_before_bounded(s, x, y);
    if s.contains((x, y)) {
        assert(!before.contains((x, y)));
        assert(after =~= before.insert((x, y)));
    } else {
        assert(after =~= before);
    }
}

/// A scan of a set on a grid has met nothing when it starts, passes from
/// the end of a column to the start of the next without meeting a position,
/// and has met the whole set when it ends.
pub proof fn lemma_met_before_column(s: Set<Pos>, width: nat, height: nat, x: int)
    requires
        s.subset_of(all_positions(width, height)),
    ensures
        met_before(s, x + 1, 0) == met_before(s, x, height as int),
        met_before(s, 0, 0).len() == 0,
        met_before(s, width as int, 0) == s,
{
    assert(met_before(s, x + 1, 0) =~= met_before(s, x, height as int));
    assert(met_before(s, 0, 0) =~= Set::<Pos>::empty());
    assert(met_before(s, width as int, 0) =~= s);
}

/// A position of the set has a lower rank than every position that the
/// scan meets after it.
pub proof fn lemma_rank_order(s: Set<Pos>, x1: int, y1: int, x2: int, y2: int)
    requires
        s.finite(),
        s.contains((x1, y1)),
        precedes((x1, y1), (x2, y2)),
    ensures
        met_before(s, x1, y1).len() < met_before(s, x2, y2).len(),
{
    let first = met_before(s, x1, y1);
    let second = met_before(s, x2, y2);
    lemma_met_before_bounded(s, x1, y1);
    lemma_met_before_bounded(s, x2, y2);
    let more = first.insert((x1, y1));
    assert(!first.contains((x1, y1)));
    assert(more.subset_of(second));
    lemma_len_subset(more, second);
}

/// No two positions of a set have the same rank, and the position that has
/// a rank is the one that `ranked` names.
pub proof fn lemma_rank_unique(s: Set<Pos>, rank: int, x1: int, y1: int, x2: int, y2: int)
    requires
        s.finite(),
        is_ranked(s, rank, x1, y1),
        is_ranked(s, rank, x2, y2),
    ensures
        x1 == x2 && y1 == y2,
{
    if precedes((x1, y1), (x2, y2)) {
        lemma_rank_order(s, x1, y1, x2, y2);
    } else if precedes((x2, y2), (x1, y1)) {
        lemma_rank_order(s, x2, y2, x1, y1);
    }
}

/// The position that has a rank is the one that `ranked` names.
pub proof fn lemma_ranked_is(s: Set<Pos>, rank: int, x: int, y: int)
    requires
        s.finite(),
        is_ranked(s, rank, x, y),
    ensures
        ranked(s, rank) == (x, y),
{
    let p = (x, y);
    assert(is_ranked(s, rank, p.0, p.1));
    let q = ranked(s, rank);
    lemma_rank_unique(s, rank, x, y, q.0, q.1);
}

/// Every position of a finite set has a rank below the size of the set,
/// and is the position that `ranked` names for that rank.
pub proof fn lemma_ranked_covers(s: Set<Pos>, x: int, y: int)
    requires
        s.finite(),
        s.contains((x, y)),
    ensures
        met_before(s, x, y).len() < s.len(),
        ranked(s, met_before(s, x, y).len() as int) == (x, y),
{
    let before = met_before(s, x, y);
    lemma_met_before_bounded(s, x, y);
    let more = before.insert((x, y));
    assert(!before.contains((x, y)));
    assert(more.subset_of(s));
    lemma_len_subset(more, s);
    lemma_ranked_is(s, before.len() as int, x, y);
}

/// Of two positions of a finite set, the one with the lower rank comes
/// first in the scan.
pub proof fn lemma_ranks_ascend(s: Set<Pos>, i: int, x1: int, y1: int, j: int, x2: int, y2: int)
    requires
        s.finite(),
        is_ranked(s, i, x1, y1),
        is_ranked(s, j, x2, y2),
        i < j,
    ensures
        precedes((x1, y1), (x2, y2)),
{
    if precedes((x2, y2), (x1, y1)) {
        lemma_rank_order(s, x2, y2, x1, y1);
    }
}

/// A scan that has not yet met `rank` positions of the set, while the set
/// holds more than `rank`, comes to the position of that rank.
proof fn lemma_rank_found_from(s: Set<Pos>, width: nat, height: nat, rank: int, x: int, y: int)
    requires
        s.subset_of(all_positions(width, height)),
        0 <= x <= width,
        0 <= y <= height,
        x < width || y == 0,
        met_before(s, x, y).len() <= rank < s.len(),
    ensures
        exists|p: Pos| #[trigger] is_ranked(s, rank, p.0, p.1),
    decreases width - x, height - y,
{
    lemma_positions_bounded(s, width, height);
    if x >= width {
        lemma_met_before_column(s, width, height, 0);
    } else if y >= height {
        lemma_met_before_column(s, width, height, x);
        lemma_rank_found_from(s, width, height, rank, x + 1, 0);
    } else {
        lemma_met_before_next(s, x, y);
        if s.contains((x, y)) && met_before(s, x, y).len() == rank {
            let p = (x, y);
            assert(is_ranked(s, rank, p.0, p.1));
        } else {
            lemma_rank_found_from(s, width, height, rank, x, y + 1);
        }
    }
}

/// A set of grid positions has a position of every rank below its size.
pub proof fn lemma_ranked_exists(s: Set<Pos>, width: nat, height: nat, rank: int)
    requires
        s.subset_of(all_positions(width, height)),
        0 <= rank < s.len(),
    ensures
        is_ranked(s, rank, ranked(s, rank).0, ranked(s, rank).1),
{
    lemma_met_before_column(s, width, height, 0);
    lemma_rank_found_from(s, width, height, rank, 0, 0);
}

} // verus!
