use minesweeper::Board;
use minesweeper::BoardError;
use minesweeper::Cell;
use minesweeper::Outcome;
use minesweeper::Phase;

/// The ranks that make `place_mines_ranked` lay exactly `mines`, which must
/// be sorted by column and then by row and must not hold `exclude`.
fn ranks_for(height: usize, exclude: (usize, usize), mines: &[(usize, usize)]) -> Vec<usize> {
    let index = |p: (usize, usize)| p.0 * height + p.1;
    let mut ranks = Vec::new();
    for (k, &mine) in mines.iter().enumerate() {
        let skipped = if index(exclude) < index(mine) { 1 } else { 0 };
        ranks.push(index(mine) - skipped - k);
    }
    ranks
}

/// A board of the given size with mines exactly at `mines`.
fn board_with(width: usize, height: usize, exclude: (usize, usize), mines: &[(usize, usize)]) -> Board {
    let mut board = Board::new(width, height, mines.len()).unwrap();
    let ranks = ranks_for(height, exclude, mines);
    board.place_mines_ranked(exclude.0, exclude.1, &ranks);
    board
}

fn cell(board: &Board, x: usize, y: usize) -> Cell {
    board.cell(x, y).unwrap()
}

fn revealed_count(board: &Board) -> usize {
    let mut count = 0;
    for x in 0..board.width() {
        for y in 0..board.height() {
            if cell(board, x, y).revealed {
                count += 1;
            }
        }
    }
    count
}

/// The number of mines around `(x, y)`, counted the slow way.
fn brute_force_count(board: &Board, x: usize, y: usize) -> u8 {
    let mines = board.mine_list();
    let mut count = 0;
    for (mx, my) in mines {
        let dx = if mx > x { mx - x } else { x - mx };
        let dy = if my > y { my - y } else { y - my };
        if dx <= 1 && dy <= 1 && !(dx == 0 && dy == 0) {
            count += 1;
        }
    }
    count
}

fn snapshot(board: &Board) -> (Vec<Cell>, bool, bool) {
    let mut cells = Vec::new();
    for x in 0..board.width() {
        for y in 0..board.height() {
            cells.push(cell(board, x, y));
        }
    }
    (cells, board.mines_placed(), board.game_over())
}

#[test]
fn new_cell_is_covered_and_empty() {
    let cell = Cell::new();
    assert!(!cell.revealed);
    assert!(!cell.has_mine);
    assert_eq!(cell.adjacent_mines, 0);
}

#[test]
fn new_board_is_untouched() {
    let board = Board::new(5, 5, 5).unwrap();
    assert_eq!(board.width(), 5);
    assert_eq!(board.height(), 5);
    assert_eq!(board.mine_count(), 5);
    assert!(!board.mines_placed());
    assert!(!board.game_over());
    for x in 0..5 {
        for y in 0..5 {
            assert_eq!(cell(&board, x, y), Cell::new());
        }
    }
    assert!(board.mine_list().is_empty());
    assert!(!board.check_win());
    assert_eq!(board.phase(), Phase::MinesPending);
}

#[test]
fn new_board_keeps_its_own_dimensions() {
    let board = Board::new(3, 7, 4).unwrap();
    assert_eq!(board.width(), 3);
    assert_eq!(board.height(), 7);
    assert!(board.cell(2, 6).is_some());
    assert!(board.cell(3, 0).is_none());
    assert!(board.cell(0, 7).is_none());
    assert!(board.cell(6, 2).is_none());
}

#[test]
fn as_many_mines_as_cells_is_a_configuration_error() {
    assert_eq!(Board::new(5, 5, 25).err(), Some(BoardError::Configuration));
    assert_eq!(Board::new(2, 3, 6).err(), Some(BoardError::Configuration));
}

#[test]
fn more_mines_than_cells_is_a_configuration_error() {
    assert_eq!(Board::new(5, 5, 26).err(), Some(BoardError::Configuration));
    assert_eq!(Board::new(1, 1, 1).err(), Some(BoardError::Configuration));
}

#[test]
fn one_cell_less_than_the_grid_is_accepted() {
    let board = Board::new(5, 5, 24).unwrap();
    assert_eq!(board.mine_count(), 24);
    assert!(Board::new(1, 1, 0).is_ok());
}

#[test]
fn empty_grid_is_a_configuration_error() {
    assert_eq!(Board::new(0, 5, 0).err(), Some(BoardError::Configuration));
    assert_eq!(Board::new(5, 0, 0).err(), Some(BoardError::Configuration));
    assert_eq!(Board::new(0, 0, 0).err(), Some(BoardError::Configuration));
}

#[test]
fn grid_beyond_the_machine_is_a_configuration_error() {
    assert_eq!(Board::new(usize::MAX, 2, 1).err(), Some(BoardError::Configuration));
    assert_eq!(Board::new(usize::MAX, usize::MAX, 0).err(), Some(BoardError::Configuration));
}

#[test]
fn place_mines_lays_exactly_the_configured_number() {
    for round in 0..40 {
        let exclude = (round % 5, (round / 5) % 5);
        let mut board = Board::new(5, 5, 5).unwrap();
        board.place_mines(exclude.0, exclude.1);
        assert!(board.mines_placed());
        let mines = board.mine_list();
        assert_eq!(mines.len(), 5);
        assert!(!mines.contains(&exclude));
        assert!(!cell(&board, exclude.0, exclude.1).has_mine);
        let mut on_grid = 0;
        for x in 0..5 {
            for y in 0..5 {
                if cell(&board, x, y).has_mine {
                    on_grid += 1;
                }
            }
        }
        assert_eq!(on_grid, 5);
        assert_eq!(revealed_count(&board), 0);
        assert!(!board.game_over());
    }
}

#[test]
fn place_mines_fills_all_cells_but_the_excluded_one() {
    for x in 0..3 {
        for y in 0..4 {
            let mut board = Board::new(3, 4, 11).unwrap();
            board.place_mines(x, y);
            let mines = board.mine_list();
            assert_eq!(mines.len(), 11);
            assert!(!cell(&board, x, y).has_mine);
            for a in 0..3 {
                for b in 0..4 {
                    assert_eq!(cell(&board, a, b).has_mine, (a, b) != (x, y));
                }
            }
        }
    }
}

#[test]
fn place_mines_with_no_mines_leaves_the_grid_empty() {
    let mut board = Board::new(4, 4, 0).unwrap();
    board.place_mines(2, 2);
    assert!(board.mines_placed());
    assert!(board.mine_list().is_empty());
    for x in 0..4 {
        for y in 0..4 {
            assert_eq!(cell(&board, x, y).adjacent_mines, 0);
        }
    }
}

#[test]
fn place_mines_draws_differ_between_games() {
    let mut seen = Vec::new();
    for _ in 0..30 {
        let mut board = Board::new(8, 8, 10).unwrap();
        board.place_mines(0, 0);
        let mines = board.mine_list();
        if !seen.contains(&mines) {
            seen.push(mines);
        }
    }
    assert!(seen.len() > 1);
}

#[test]
fn counts_match_a_brute_force_count_on_random_layouts() {
    for round in 0..30 {
        let width = 3 + round % 4;
        let height = 2 + round % 5;
        let mine_count = (width * height) / 3;
        let mut board = Board::new(width, height, mine_count).unwrap();
        board.place_mines(round % width, round % height);
        for x in 0..width {
            for y in 0..height {
                assert_eq!(cell(&board, x, y).adjacent_mines, brute_force_count(&board, x, y));
            }
        }
    }
}

#[test]
fn ranked_placement_lays_the_cells_of_the_given_ranks() {
    let mut board = Board::new(5, 5, 3).unwrap();
    board.place_mines_ranked(1, 1, &vec![0, 10, 21]);
    assert_eq!(board.mine_list(), vec![(0, 0), (2, 2), (4, 4)]);
    assert!(board.mines_placed());
    assert!(!board.game_over());
    assert_eq!(revealed_count(&board), 0);
}

#[test]
fn ranked_placement_skips_the_excluded_cell_and_earlier_mines() {
    let mut board = Board::new(2, 2, 3).unwrap();
    board.place_mines_ranked(0, 0, &vec![0, 0, 0]);
    assert_eq!(board.mine_list(), vec![(0, 1), (1, 0), (1, 1)]);
    assert!(!cell(&board, 0, 0).has_mine);

    let mut board = Board::new(2, 2, 2).unwrap();
    board.place_mines_ranked(1, 0, &vec![2, 0]);
    assert_eq!(board.mine_list(), vec![(0, 0), (1, 1)]);

    let mut board = Board::new(3, 3, 2).unwrap();
    board.place_mines_ranked(2, 2, &vec![7, 6]);
    assert_eq!(board.mine_list(), vec![(2, 0), (2, 1)]);
}

#[test]
fn ranked_placement_takes_ranks_in_the_order_given() {
    let mut board = Board::new(3, 1, 2).unwrap();
    board.place_mines_ranked(0, 0, &vec![1, 0]);
    assert_eq!(board.mine_list(), vec![(1, 0), (2, 0)]);
    let mut board = Board::new(4, 1, 2).unwrap();
    board.place_mines_ranked(3, 0, &vec![1, 1]);
    assert_eq!(board.mine_list(), vec![(1, 0), (2, 0)]);
}

#[test]
fn helper_ranks_reproduce_a_layout() {
    let mines = [(0, 3), (1, 1), (3, 0), (3, 4)];
    let board = board_with(4, 5, (2, 2), &mines);
    assert_eq!(board.mine_list(), mines.to_vec());
}

#[test]
fn counts_of_a_known_layout() {
    let board = board_with(5, 5, (1, 1), &[(0, 0), (2, 2), (4, 4)]);
    let expected: [[u8; 5]; 5] = [
        [0, 1, 0, 0, 0],
        [1, 2, 1, 1, 0],
        [0, 1, 0, 1, 0],
        [0, 1, 1, 2, 1],
        [0, 0, 0, 1, 0],
    ];
    for x in 0..5 {
        for y in 0..5 {
            assert_eq!(cell(&board, x, y).adjacent_mines, expected[x][y]);
        }
    }
}

#[test]
fn count_reaches_eight_in_the_middle_of_a_ring() {
    let ring = [(0, 0), (0, 1), (0, 2), (1, 0), (1, 2), (2, 0), (2, 1), (2, 2)];
    let board = board_with(3, 3, (1, 1), &ring);
    assert_eq!(cell(&board, 1, 1).adjacent_mines, 8);
    assert_eq!(cell(&board, 0, 0).adjacent_mines, 2);
    assert_eq!(cell(&board, 0, 1).adjacent_mines, 4);
    assert_eq!(cell(&board, 2, 2).adjacent_mines, 2);
}

#[test]
fn counts_clip_at_the_border() {
    let board = board_with(3, 2, (2, 1), &[(0, 0)]);
    assert_eq!(cell(&board, 0, 0).adjacent_mines, 0);
    assert_eq!(cell(&board, 0, 1).adjacent_mines, 1);
    assert_eq!(cell(&board, 1, 0).adjacent_mines, 1);
    assert_eq!(cell(&board, 1, 1).adjacent_mines, 1);
    assert_eq!(cell(&board, 2, 0).adjacent_mines, 0);
    assert_eq!(cell(&board, 2, 1).adjacent_mines, 0);
}

#[test]
fn calculate_adjacent_mines_keeps_valid_counts() {
    let mut board = board_with(5, 5, (1, 1), &[(0, 0), (2, 2), (4, 4)]);
    let before = snapshot(&board);
    board.calculate_adjacent_mines();
    assert_eq!(snapshot(&board), before);
}

#[test]
fn first_move_next_to_two_mines_reveals_one_cell() {
    let mut board = board_with(5, 5, (1, 1), &[(0, 0), (2, 2), (4, 4)]);
    assert_eq!(board.uncover(1, 1), Outcome::Revealed);
    assert_eq!(revealed_count(&board), 1);
    assert!(cell(&board, 1, 1).revealed);
    assert_eq!(cell(&board, 1, 1).adjacent_mines, 2);
    assert!(!board.check_win());
    assert!(!board.game_over());
    assert_eq!(board.phase(), Phase::InPlay);
}

#[test]
fn win_on_five_by_five_with_three_mines_takes_twenty_two_cells() {
    let mines = [(0, 0), (2, 2), (4, 4)];
    let mut board = board_with(5, 5, (1, 1), &mines);
    let mut safe = Vec::new();
    for x in 0..5 {
        for y in 0..5 {
            if !mines.contains(&(x, y)) {
                safe.push((x, y));
            }
        }
    }
    assert_eq!(safe.len(), 22);
    for &(x, y) in &safe {
        assert_eq!(board.check_win(), revealed_count(&board) == 22);
        let outcome = board.uncover(x, y);
        assert!(outcome == Outcome::Revealed || outcome == Outcome::AlreadyRevealed);
        assert!(revealed_count(&board) <= 22);
    }
    assert_eq!(revealed_count(&board), 22);
    assert!(board.check_win());
    assert!(!board.game_over());
    assert_eq!(board.phase(), Phase::Won);
    for &(x, y) in &mines {
        assert!(!cell(&board, x, y).revealed);
    }
}

#[test]
fn blank_region_away_from_the_mines_is_revealed_at_once() {
    let mut board = board_with(5, 5, (1, 1), &[(0, 0), (2, 2), (4, 4)]);
    assert_eq!(board.uncover(0, 4), Outcome::Revealed);
    let mut shown = Vec::new();
    for x in 0..5 {
        for y in 0..5 {
            if cell(&board, x, y).revealed {
                shown.push((x, y));
            }
        }
    }
    let expected = vec![
        (0, 1),
        (0, 2),
        (0, 3),
        (0, 4),
        (1, 1),
        (1, 2),
        (1, 3),
        (1, 4),
        (2, 3),
        (2, 4),
        (3, 3),
        (3, 4),
    ];
    assert_eq!(shown, expected);
    for &(x, y) in &shown {
        assert!(!cell(&board, x, y).has_mine);
    }
    assert!(!board.check_win());
}

#[test]
fn flood_fill_reveals_everything_but_a_lone_mine() {
    let mut board = board_with(5, 5, (4, 4), &[(0, 0)]);
    assert_eq!(board.uncover(4, 4), Outcome::Revealed);
    assert_eq!(revealed_count(&board), 24);
    assert!(!cell(&board, 0, 0).revealed);
    assert!(board.check_win());
    assert_eq!(board.phase(), Phase::Won);
}

#[test]
fn flood_fill_stops_at_cells_with_a_count() {
    let wall = [(2, 0), (2, 1), (2, 2), (2, 3), (2, 4)];
    let mut board = board_with(5, 5, (0, 0), &wall);
    assert_eq!(board.uncover(0, 0), Outcome::Revealed);
    for x in 0..5 {
        for y in 0..5 {
            assert_eq!(cell(&board, x, y).revealed, x <= 1);
        }
    }
    assert_eq!(cell(&board, 1, 0).adjacent_mines, 2);
    assert_eq!(cell(&board, 1, 2).adjacent_mines, 3);
    assert!(!board.check_win());
    assert_eq!(board.uncover(4, 2), Outcome::Revealed);
    assert_eq!(revealed_count(&board), 20);
    assert!(board.check_win());
}

#[test]
fn flood_fill_from_a_cell_with_a_count_reveals_only_that_cell() {
    let wall = [(2, 0), (2, 1), (2, 2), (2, 3), (2, 4)];
    let mut board = board_with(5, 5, (0, 0), &wall);
    assert_eq!(board.uncover(1, 2), Outcome::Revealed);
    assert_eq!(revealed_count(&board), 1);
    assert!(cell(&board, 1, 2).revealed);
}

#[test]
fn flood_fill_never_reveals_a_mine_on_random_layouts() {
    for round in 0..40 {
        let mut board = Board::new(6, 6, 6).unwrap();
        let first = (round % 6, (round / 6) % 6);
        assert_eq!(board.play(first.0, first.1), Ok(Outcome::Revealed));
        for x in 0..6 {
            for y in 0..6 {
                let cell = cell(&board, x, y);
                assert!(!(cell.revealed && cell.has_mine));
                if cell.revealed && cell.adjacent_mines == 0 {
                    for nx in x.saturating_sub(1)..(x + 2).min(6) {
                        for ny in y.saturating_sub(1)..(y + 2).min(6) {
                            assert!(board.cell(nx, ny).unwrap().revealed);
                        }
                    }
                }
            }
        }
        assert!(!board.game_over());
    }
}

#[test]
fn flood_fill_goes_round_corners() {
    let mines = [(1, 1), (1, 2), (1, 3), (3, 1), (3, 2), (3, 3)];
    let mut board = board_with(5, 5, (0, 0), &mines);
    assert_eq!(board.uncover(2, 2), Outcome::Revealed);
    assert_eq!(revealed_count(&board), 1);
    let mut far = board_with(7, 1, (0, 0), &[(3, 0)]);
    assert_eq!(far.uncover(0, 0), Outcome::Revealed);
    assert_eq!(revealed_count(&far), 3);
    assert!(!cell(&far, 4, 0).revealed);
    assert_eq!(far.uncover(6, 0), Outcome::Revealed);
    assert_eq!(revealed_count(&far), 6);
    assert!(far.check_win());
}

#[test]
fn recursive_uncover_off_the_grid_changes_nothing() {
    let mut board = board_with(5, 5, (1, 1), &[(0, 0), (2, 2), (4, 4)]);
    let before = snapshot(&board);
    board.recursive_uncover(5, 0);
    board.recursive_uncover(0, 5);
    board.recursive_uncover(usize::MAX, usize::MAX);
    assert_eq!(snapshot(&board), before);
}

#[test]
fn recursive_uncover_on_a_revealed_cell_changes_nothing() {
    let mut board = board_with(5, 5, (1, 1), &[(0, 0), (2, 2), (4, 4)]);
    board.recursive_uncover(0, 4);
    let before = snapshot(&board);
    board.recursive_uncover(0, 4);
    board.recursive_uncover(1, 3);
    assert_eq!(snapshot(&board), before);
}

#[test]
fn recursive_uncover_reveals_the_region_without_touching_flags() {
    let mut board = board_with(5, 5, (1, 1), &[(0, 0), (2, 2), (4, 4)]);
    board.recursive_uncover(4, 0);
    assert_eq!(revealed_count(&board), 12);
    assert!(!cell(&board, 2, 2).revealed);
    assert!(!cell(&board, 0, 0).revealed);
    assert!(!board.game_over());
    assert!(board.mines_placed());
    assert_eq!(board.mine_list(), vec![(0, 0), (2, 2), (4, 4)]);
}

#[test]
fn uncover_before_the_mines_are_laid_reveals_the_whole_grid() {
    let mut board = Board::new(4, 3, 2).unwrap();
    assert_eq!(board.uncover(2, 1), Outcome::Revealed);
    assert_eq!(revealed_count(&board), 12);
    assert!(board.check_win());
    assert!(!board.mines_placed());
}

#[test]
fn uncovering_a_mine_loses_the_game() {
    let mut board = board_with(5, 5, (1, 1), &[(0, 0), (2, 2), (4, 4)]);
    assert_eq!(board.uncover(3, 0), Outcome::Revealed);
    let before = snapshot(&board);
    assert_eq!(board.uncover(2, 2), Outcome::HitMine);
    assert!(board.game_over());
    assert!(!board.check_win());
    assert_eq!(board.phase(), Phase::Lost);
    let after = snapshot(&board);
    for i in 0..25 {
        if i == 2 * 5 + 2 {
            assert!(after.0[i].revealed);
            assert!(after.0[i].has_mine);
        } else {
            assert_eq!(after.0[i], before.0[i]);
        }
    }
}

#[test]
fn uncovering_a_mine_does_not_undo_a_win() {
    let mut board = board_with(5, 5, (4, 4), &[(0, 0)]);
    assert_eq!(board.uncover(4, 4), Outcome::Revealed);
    assert!(board.check_win());
    assert_eq!(board.uncover(0, 0), Outcome::HitMine);
    assert!(board.game_over());
    assert!(board.check_win());
    assert_eq!(board.phase(), Phase::Lost);
}

#[test]
fn uncovering_the_same_cell_twice_changes_nothing() {
    let mut board = board_with(5, 5, (1, 1), &[(0, 0), (2, 2), (4, 4)]);
    assert_eq!(board.uncover(1, 1), Outcome::Revealed);
    let once = snapshot(&board);
    let mines = board.mine_list();
    assert_eq!(board.uncover(1, 1), Outcome::AlreadyRevealed);
    assert_eq!(snapshot(&board), once);
    assert_eq!(board.mine_list(), mines);
    assert_eq!(board.uncover(1, 1), Outcome::AlreadyRevealed);
    assert_eq!(snapshot(&board), once);
}

#[test]
fn uncovering_a_flooded_cell_again_changes_nothing() {
    let mut board = board_with(5, 5, (1, 1), &[(0, 0), (2, 2), (4, 4)]);
    assert_eq!(board.uncover(0, 4), Outcome::Revealed);
    let once = snapshot(&board);
    assert_eq!(board.uncover(1, 3), Outcome::AlreadyRevealed);
    assert_eq!(board.uncover(0, 4), Outcome::AlreadyRevealed);
    assert_eq!(snapshot(&board), once);
}

#[test]
fn uncovering_a_revealed_mine_again_changes_nothing() {
    let mut board = board_with(5, 5, (1, 1), &[(0, 0), (2, 2), (4, 4)]);
    assert_eq!(board.uncover(4, 4), Outcome::HitMine);
    let once = snapshot(&board);
    assert_eq!(board.uncover(4, 4), Outcome::AlreadyRevealed);
    assert_eq!(snapshot(&board), once);
}

#[test]
fn check_win_is_false_while_a_safe_cell_is_covered() {
    let mut board = board_with(2, 2, (0, 0), &[(1, 1)]);
    assert!(!board.check_win());
    board.uncover(0, 0);
    assert!(!board.check_win());
    board.uncover(0, 1);
    assert!(!board.check_win());
    board.uncover(1, 0);
    assert!(board.check_win());
}

#[test]
fn mine_list_scans_by_columns() {
    let board = board_with(3, 3, (1, 1), &[(0, 2), (1, 0), (2, 1)]);
    assert_eq!(board.mine_list(), vec![(0, 2), (1, 0), (2, 1)]);
    let mut other = Board::new(3, 3, 3).unwrap();
    other.place_mines_ranked(1, 1, &vec![6, 2, 2]);
    assert_eq!(other.mine_list(), vec![(0, 2), (1, 0), (2, 1)]);
}

#[test]
fn play_refuses_coordinates_off_the_grid() {
    let mut board = Board::new(5, 5, 5).unwrap();
    assert_eq!(board.play(5, 0), Err(BoardError::OutOfBounds));
    assert_eq!(board.play(0, 5), Err(BoardError::OutOfBounds));
    assert_eq!(board.play(7, 9), Err(BoardError::OutOfBounds));
    assert!(!board.mines_placed());
    assert_eq!(revealed_count(&board), 0);
    assert!(board.mine_list().is_empty());
    assert_eq!(board.phase(), Phase::MinesPending);
}

#[test]
fn first_move_lays_the_mines_and_is_never_a_loss() {
    for round in 0..60 {
        let first = (round % 5, (round / 5) % 5);
        let mut board = Board::new(5, 5, 24).unwrap();
        assert_eq!(board.play(first.0, first.1), Ok(Outcome::Revealed));
        assert!(board.mines_placed());
        assert!(!board.game_over());
        assert_eq!(board.mine_list().len(), 24);
        assert!(!cell(&board, first.0, first.1).has_mine);
        assert!(cell(&board, first.0, first.1).revealed);
        assert!(board.check_win());
    }
}

#[test]
fn later_moves_do_not_lay_mines_again() {
    let mut board = Board::new(5, 5, 5).unwrap();
    assert_eq!(board.play(2, 2), Ok(Outcome::Revealed));
    let mines = board.mine_list();
    assert_eq!(board.play(2, 2), Ok(Outcome::AlreadyRevealed));
    assert_eq!(board.mine_list(), mines);
    let target = mines[0];
    assert_eq!(board.play(target.0, target.1), Ok(Outcome::HitMine));
    assert_eq!(board.mine_list(), mines);
    assert_eq!(board.phase(), Phase::Lost);
}

#[test]
fn play_off_the_grid_after_the_first_move_changes_nothing() {
    let mut board = board_with(5, 5, (1, 1), &[(0, 0), (2, 2), (4, 4)]);
    board.uncover(1, 1);
    let before = snapshot(&board);
    assert_eq!(board.play(5, 5), Err(BoardError::OutOfBounds));
    assert_eq!(snapshot(&board), before);
}

#[test]
fn play_on_a_grid_revealed_without_mines_lays_none() {
    let mut board = Board::new(3, 3, 2).unwrap();
    assert_eq!(board.uncover(1, 1), Outcome::Revealed);
    assert_eq!(revealed_count(&board), 9);
    assert_eq!(board.play(0, 0), Ok(Outcome::AlreadyRevealed));
    assert!(!board.mines_placed());
    assert!(board.mine_list().is_empty());
    assert_eq!(board.phase(), Phase::Won);
}

#[test]
fn cell_count_is_width_times_height() {
    assert_eq!(Board::new(5, 5, 5).unwrap().cell_count(), 25);
    assert_eq!(Board::new(3, 7, 0).unwrap().cell_count(), 21);
    assert_eq!(Board::new(1, 1, 0).unwrap().cell_count(), 1);
}

#[test]
fn a_cloned_board_plays_on_its_own() {
    let mut board = board_with(5, 5, (1, 1), &[(0, 0), (2, 2), (4, 4)]);
    let kept = board.clone();
    assert_eq!(board.uncover(2, 2), Outcome::HitMine);
    assert!(board.game_over());
    assert!(!kept.game_over());
    assert_eq!(revealed_count(&kept), 0);
    assert_eq!(kept.mine_list(), board.mine_list());
}

#[test]
fn revealed_safe_cells_count_up_to_the_win() {
    let mines = [(0, 1), (3, 3), (4, 0), (4, 4)];
    let mut board = board_with(5, 5, (2, 2), &mines);
    for x in 0..5 {
        for y in 0..5 {
            if !mines.contains(&(x, y)) {
                board.uncover(x, y);
                let safe_revealed = revealed_count(&board);
                assert_eq!(board.check_win(), safe_revealed == 5 * 5 - mines.len());
            }
        }
    }
    assert!(board.check_win());
}

#[test]
fn phases_follow_the_game() {
    let mut board = Board::new(2, 1, 1).unwrap();
    assert_eq!(board.phase(), Phase::MinesPending);
    assert_eq!(board.play(0, 0), Ok(Outcome::Revealed));
    assert_eq!(board.mine_list(), vec![(1, 0)]);
    assert_eq!(board.phase(), Phase::Won);
    let mut lost = board_with(3, 1, (0, 0), &[(2, 0)]);
    assert_eq!(lost.phase(), Phase::InPlay);
    assert_eq!(lost.uncover(2, 0), Outcome::HitMine);
    assert_eq!(lost.phase(), Phase::Lost);
}

#[test]
fn glyphs_of_cells() {
    let covered = Cell::new();
    assert_eq!(covered.glyph(), '?');
    let blank = Cell { revealed: true, has_mine: false, adjacent_mines: 0 };
    assert_eq!(blank.glyph(), ' ');
    let digits = ['1', '2', '3', '4', '5', '6', '7', '8'];
    for count in 1..=8u8 {
        let cell = Cell { revealed: true, has_mine: false, adjacent_mines: count };
        assert_eq!(cell.glyph(), digits[count as usize - 1]);
    }
    let mine = Cell { revealed: true, has_mine: true, adjacent_mines: 3 };
    assert_eq!(mine.glyph(), '?');
    let hidden_count = Cell { revealed: false, has_mine: false, adjacent_mines: 3 };
    assert_eq!(hidden_count.glyph(), '?');
    let beyond = Cell { revealed: true, has_mine: false, adjacent_mines: 9 };
    assert_eq!(beyond.glyph(), '?');
}

#[test]
fn render_shows_rows_from_the_top() {
    let mut board = board_with(5, 5, (1, 1), &[(0, 0), (2, 2), (4, 4)]);
    board.uncover(0, 4);
    board.uncover(1, 1);
    let rows: Vec<String> = board.render().iter().map(|row| row.iter().collect()).collect();
    assert_eq!(rows, vec!["   1?", " 112?", " 1???", "12???", "?????"]);
}

#[test]
fn render_hides_a_revealed_mine() {
    let mut board = board_with(2, 3, (0, 0), &[(1, 2)]);
    board.uncover(1, 2);
    board.uncover(0, 0);
    let rows: Vec<String> = board.render().iter().map(|row| row.iter().collect()).collect();
    assert_eq!(rows, vec!["??", "11", "  "]);
    assert!(cell(&board, 1, 2).revealed);
    assert!(!cell(&board, 0, 2).revealed);
}

#[test]
fn render_has_one_row_for_each_y() {
    let board = Board::new(4, 2, 1).unwrap();
    let rows = board.render();
    assert_eq!(rows.len(), 2);
    assert_eq!(rows[0], vec!['?', '?', '?', '?']);
    assert_eq!(rows[1], vec!['?', '?', '?', '?']);
}
